use ecs::frame::{Frame, ObjectStatus};

#[test]
fn current_frame_is_newer_than_any_other_last_run() {
    let current = Frame(100);
    assert!(current.is_newer(current, Frame(99)));
    assert!(current.is_newer(current, Frame(0)));
    assert!(!current.is_newer(current, current));
}

#[test]
fn is_newer_works_across_the_wrap() {
    let current = Frame(5);
    let changed = Frame(u32::MAX - 2);
    let last = Frame(u32::MAX - 10);
    assert!(changed.is_newer(current, last));
    assert!(!last.is_newer(current, changed));
}

#[test]
fn previous_wraps_at_zero() {
    assert_eq!(Frame(7).previous(), Frame(6));
    assert_eq!(Frame(0).previous(), Frame(u32::MAX));
}

#[test]
fn update_refreshes_only_old_frames() {
    let mut young = Frame(90);
    young.update(Frame(100));
    assert_eq!(young, Frame(90));

    let mut old = Frame(0);
    old.update(Frame(Frame::MAX_AGE + 1));
    assert_eq!(old, Frame(Frame::MAX_AGE + 1 + Frame::AGE_REFRESH_RATE));
}

#[test]
fn object_status_starts_at_zero_and_updates_both_frames() {
    let mut status = ObjectStatus::new();
    assert_eq!(status.added, Frame(0));
    assert_eq!(status.modified, Frame(0));
    status.modified = Frame(50);
    status.update(Frame(60));
    assert_eq!(status.added, Frame(0));
    assert_eq!(status.modified, Frame(50));
}

#[test]
fn frames_convert_from_numbers() {
    assert_eq!(Frame::from(3u32), Frame(3));
    assert_eq!(Frame::from(&4u32), Frame(4));
    assert_eq!(Frame(9).get(), 9);
    let mut frame = Frame(1);
    frame.set(2);
    assert_eq!(frame, Frame(2));
}
