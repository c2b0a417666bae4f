use winlane::platform::{recent_windows, CloseResult, Observer, OpenedProject, WindowEvent, RECENT_WINDOW_LIMIT};

#[test]
fn observer_notices_new_change_counts() {
    let mut observer = Observer::new(3);
    assert!(!observer.changed(3));
    assert!(observer.changed(4));
    assert!(observer.observe(4));
    assert!(!observer.observe(4));
    assert!(!observer.changed(4));
    observer.reset(9);
    assert!(observer.changed(4));
    assert!(!observer.changed(9));
}

#[test]
fn plain_values_compare_by_fields() {
    assert_eq!(OpenedProject { pid: 4, window: Some(2) }, OpenedProject { pid: 4, window: Some(2) });
    assert_ne!(OpenedProject { pid: 4, window: None }, OpenedProject { pid: 4, window: Some(2) });
    assert_eq!(WindowEvent::Destroyed(3), WindowEvent::Destroyed(3));
    assert_ne!(WindowEvent::FocusChanged, WindowEvent::Destroyed(3));
    assert_ne!(CloseResult::Requested, CloseResult::Skipped);
    assert_eq!(CloseResult::Failed, CloseResult::Failed);
}

#[test]
fn recent_windows_drop_repeats_and_keep_the_limit() {
    assert_eq!(recent_windows(&[3, 1, 3, 2, 1]), vec![3, 1, 2]);
    assert_eq!(recent_windows(&[]), Vec::<u64>::new());
    let many: Vec<u64> = (0..200).chain(0..10).collect();
    let recent = recent_windows(&many);
    assert_eq!(recent.len(), RECENT_WINDOW_LIMIT);
    assert_eq!(recent, (0..128).collect::<Vec<u64>>());
}
