use vstd::prelude::*;

verus! {

/// Which estimates the display layer draws.
pub struct UserSettings {
    pub show_ekf_state: bool,
    pub show_fast_state: bool,
    pub show_fast2_state: bool,
    pub show_ekf_landmarks: bool,
    pub show_fast_landmarks: bool,
    pub show_fast2_landmarks: bool,
}

impl UserSettings {
    /// Every estimate is shown.
    pub open spec fn shows_everything(&self) -> bool {
        &&& self.show_ekf_state
        &&& self.show_fast_state
        &&& self.show_fast2_state
        &&& self.show_ekf_landmarks
        &&& self.show_fast_landmarks
        &&& self.show_fast2_landmarks
    }
}

impl Default for UserSettings {
    /// Everything is visible at start.
    fn default() -> (r: Self)
        ensures
            r.shows_everything(),
    {
        UserSettings {
            show_ekf_state: true,
            show_fast_state: true,
            show_ekf_landmarks: true,
            show_fast_landmarks: true,
            show_fast2_state: true,
            show_fast2_landmarks: true,
        }
    }
}

} // verus!
