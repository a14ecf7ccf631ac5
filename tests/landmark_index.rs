use slam2d::{Association, LandmarkIndex, POSE_DIM};

#[test]
fn new_index_holds_only_the_pose() {
    let index = LandmarkIndex::new();
    assert_eq!(index.len(), 0);
    assert_eq!(index.state_len(), POSE_DIM);
    assert_eq!(index.offset_of(1), None);
    assert!(index.entries().is_empty());
}

#[test]
fn first_sighting_initializes_after_the_pose() {
    let mut index = LandmarkIndex::new();
    assert_eq!(index.locate(1), Association::Initialize(3));
    assert_eq!(index.state_len(), 5);
    assert_eq!(index.offset_of(1), Some(3));
}

#[test]
fn second_sighting_corrects_at_the_same_offset() {
    let mut index = LandmarkIndex::new();
    assert_eq!(index.locate(1), Association::Initialize(3));
    assert_eq!(index.locate(1), Association::Correct(3));
    assert_eq!(index.len(), 1);
    assert_eq!(index.state_len(), 5);
}

#[test]
fn landmarks_are_appended_in_order_of_first_sighting() {
    let mut index = LandmarkIndex::new();
    assert_eq!(index.locate(42), Association::Initialize(3));
    assert_eq!(index.locate(7), Association::Initialize(5));
    assert_eq!(index.locate(42), Association::Correct(3));
    assert_eq!(index.locate(0), Association::Initialize(7));
    assert_eq!(index.locate(7), Association::Correct(5));
    assert_eq!(index.state_len(), 9);
    assert_eq!(index.entries(), vec![(42, 3), (7, 5), (0, 7)]);
}

#[test]
fn offsets_never_move() {
    let mut index = LandmarkIndex::new();
    for id in 0..100usize {
        index.locate(id * 3);
    }
    for id in 0..100usize {
        assert_eq!(index.offset_of(id * 3), Some(3 + 2 * id));
        assert_eq!(index.offset_of(id * 3 + 1), None);
    }
    assert_eq!(index.state_len(), 203);
}

#[test]
fn largest_id_is_an_ordinary_key() {
    let mut index = LandmarkIndex::new();
    assert_eq!(index.locate(usize::MAX), Association::Initialize(3));
    assert_eq!(index.offset_of(usize::MAX), Some(3));
}
