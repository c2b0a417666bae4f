use winlane::logging::{bounded, needs_rotation, FILE_LIMIT, MESSAGE_LIMIT};

#[test]
fn short_messages_pass_unchanged() {
    assert_eq!(bounded("hello".to_string()), "hello");
    let full = "a".repeat(MESSAGE_LIMIT);
    assert_eq!(bounded(full.clone()), full);
}

#[test]
fn long_messages_are_cut_and_marked() {
    let long = "a".repeat(MESSAGE_LIMIT + 1);
    assert_eq!(bounded(long), format!("{} [truncated]", "a".repeat(MESSAGE_LIMIT)));
}

#[test]
fn cut_falls_on_a_character_boundary() {
    let text = format!("{}é", "a".repeat(MESSAGE_LIMIT - 1));
    assert_eq!(text.len(), MESSAGE_LIMIT + 1);
    assert_eq!(bounded(text), format!("{} [truncated]", "a".repeat(MESSAGE_LIMIT - 1)));
}

#[test]
fn rotation_before_overflowing_write() {
    assert!(!needs_rotation(0, FILE_LIMIT + 10, FILE_LIMIT));
    assert!(!needs_rotation(100, 50, 150));
    assert!(needs_rotation(100, 51, 150));
    assert!(needs_rotation(1, u64::MAX, FILE_LIMIT));
    assert!(!needs_rotation(u64::MAX, u64::MAX, u64::MAX));
    assert!(needs_rotation(u64::MAX, 1, u64::MAX - 1));
    assert_eq!(FILE_LIMIT, 2 * 1024 * 1024);
}
