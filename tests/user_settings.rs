use slam2d::UserSettings;

#[test]
fn default_shows_every_estimate() {
    let s = UserSettings::default();
    assert!(s.show_ekf_state);
    assert!(s.show_fast_state);
    assert!(s.show_fast2_state);
    assert!(s.show_ekf_landmarks);
    assert!(s.show_fast_landmarks);
    assert!(s.show_fast2_landmarks);
}
