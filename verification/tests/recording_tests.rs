use rigid_physics::recording::Recording;

#[test]
fn new_recording_is_empty() {
    let recording: Recording<i32> = Recording::new();
    assert_eq!(recording.frame_count(), 0);
    assert_eq!(recording.last_frame_index(), 0);
    assert!(recording.load_frame_to(0, 5).is_empty());
}

#[test]
fn frames_are_appended_and_loaded_by_index() {
    let mut recording = Recording::new();
    recording.save_frame_from(&vec![1, 2, 3]);
    recording.save_frame_from(&vec![4, 5, 6]);
    recording.save_frame_from(&vec![7, 8, 9]);
    assert_eq!(recording.frame_count(), 3);
    assert_eq!(recording.last_frame_index(), 2);
    assert_eq!(recording.load_frame_to(0, 3), vec![1, 2, 3]);
    assert_eq!(recording.load_frame_to(1, 3), vec![4, 5, 6]);
    assert_eq!(recording.load_frame_to(2, 3), vec![7, 8, 9]);
}

#[test]
fn a_request_beyond_the_end_is_served_from_the_last_frame() {
    let mut recording = Recording::new();
    recording.save_frame_from(&vec![1, 2]);
    recording.save_frame_from(&vec![3, 4]);
    assert_eq!(recording.load_frame_to(99, 2), vec![3, 4]);
}

#[test]
fn loading_stops_at_the_count_or_at_the_end_of_the_data() {
    let mut recording = Recording::new();
    recording.save_frame_from(&vec![1, 2]);
    recording.save_frame_from(&vec![3, 4]);
    assert_eq!(recording.load_frame_to(0, 1), vec![1]);
    assert_eq!(recording.load_frame_to(0, 3), vec![1, 2, 3]);
    assert_eq!(recording.load_frame_to(1, 5), vec![3, 4]);
    assert!(recording.load_frame_to(1, 0).is_empty());
}

#[test]
fn a_frame_of_another_size_starts_anew() {
    let mut recording = Recording::new();
    recording.save_frame_from(&vec![1, 2]);
    recording.save_frame_from(&vec![3, 4]);
    recording.save_frame_from(&vec![5, 6, 7]);
    assert_eq!(recording.frame_count(), 1);
    assert_eq!(recording.load_frame_to(0, 3), vec![5, 6, 7]);
}

#[test]
fn clear_forgets_every_frame() {
    let mut recording = Recording::new();
    recording.save_frame_from(&vec![1, 2]);
    recording.clear();
    assert_eq!(recording.frame_count(), 0);
    assert!(recording.load_frame_to(0, 2).is_empty());
    recording.save_frame_from(&vec![8]);
    assert_eq!(recording.load_frame_to(0, 1), vec![8]);
}

#[test]
fn frames_without_objects_are_counted() {
    let mut recording: Recording<i32> = Recording::new();
    recording.save_frame_from(&Vec::new());
    recording.save_frame_from(&Vec::new());
    assert_eq!(recording.frame_count(), 2);
    assert!(recording.load_frame_to(1, 4).is_empty());
}
