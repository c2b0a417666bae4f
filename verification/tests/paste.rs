use winlane::paste::{can_paste_into, paste_step, PasteAction, PasteState, FOCUS_SETTLE_NS, PASTE_TIMEOUT_NS};
use winlane::shortcuts::{COMMAND, SHIFT};

const MS: u64 = 1_000_000;
const TARGET: i32 = 42;
const OWN: i32 = 7;

fn idle() -> PasteState {
    PasteState { ready_since_ns: None }
}

#[test]
fn paste_needs_a_running_other_app() {
    assert!(can_paste_into(false, TARGET, OWN));
    assert!(!can_paste_into(true, TARGET, OWN));
    assert!(!can_paste_into(false, OWN, OWN));
}

#[test]
fn pastes_after_the_target_settled_in_front() {
    let (s, action) = paste_step(idle(), 10 * MS, false, Some(TARGET), TARGET, OWN, 0);
    assert_eq!(action, PasteAction::Wait);
    assert_eq!(s.ready_since_ns, Some(10 * MS));
    let (s, action) = paste_step(s, 109 * MS, false, Some(TARGET), TARGET, OWN, 0);
    assert_eq!(action, PasteAction::Wait);
    let (_, action) = paste_step(s, 10 * MS + FOCUS_SETTLE_NS, false, Some(TARGET), TARGET, OWN, 0);
    assert_eq!(action, PasteAction::Paste);
}

#[test]
fn held_modifiers_and_lost_focus_delay_the_paste() {
    let ready = PasteState { ready_since_ns: Some(0) };
    assert_eq!(paste_step(ready, 500 * MS, false, Some(TARGET), TARGET, OWN, COMMAND).1, PasteAction::Wait);
    assert_eq!(paste_step(ready, 500 * MS, false, Some(TARGET), TARGET, OWN, SHIFT | 0x100).1, PasteAction::Wait);
    assert_eq!(paste_step(ready, 500 * MS, false, Some(TARGET), TARGET, OWN, 0x100).1, PasteAction::Paste);
    assert_eq!(paste_step(ready, 500 * MS, false, Some(OWN), TARGET, OWN, 0), (idle(), PasteAction::Wait));
    assert_eq!(paste_step(ready, 500 * MS, false, None, TARGET, OWN, 0), (idle(), PasteAction::Wait));
}

#[test]
fn paste_aborts() {
    let ready = PasteState { ready_since_ns: Some(0) };
    assert_eq!(paste_step(ready, 500 * MS, true, Some(TARGET), TARGET, OWN, 0).1, PasteAction::Abort);
    assert_eq!(paste_step(ready, PASTE_TIMEOUT_NS + 1, false, Some(TARGET), TARGET, OWN, 0).1, PasteAction::Abort);
    assert_eq!(paste_step(ready, PASTE_TIMEOUT_NS, false, Some(TARGET), TARGET, OWN, 0).1, PasteAction::Paste);
    assert_eq!(paste_step(ready, 500 * MS, false, Some(99), TARGET, OWN, 0).1, PasteAction::Abort);
}
