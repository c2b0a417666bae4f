//! Pasting a snippet into the application it was opened from: the checks
//! made before starting, and the decision taken at each tick of the timer.
//! Times are nanoseconds since the paste started.

use crate::shortcuts::MODIFIERS;
use vstd::prelude::*;

verus! {

/// How long the target application has to come to the front.
pub const PASTE_TIMEOUT_NS: u64 = 2_000_000_000;

/// How long the target must have been in front before the paste.
pub const FOCUS_SETTLE_NS: u64 = 100_000_000;

/// The target can receive a paste: it is running and it is not this app.
pub fn can_paste_into(terminated: bool, target: i32, own: i32) -> (r: bool)
    ensures
        r == (!terminated && target != own),
{
    !terminated && target != own
}

/// What the paste timer does at a tick.
#[derive(Clone, Copy, Debug, PartialEq, Eq, Structural)]
pub enum PasteAction {
    /// Stop and report that the paste did not happen.
    Abort,
    /// Tick again.
    Wait,
    /// Write the text to the clipboard and send Command-V to the target.
    Paste,
}

/// Since when the target has been in front without interruption.
#[derive(Clone, Copy, Debug, PartialEq, Eq, Structural)]
pub struct PasteState {
    pub ready_since_ns: Option<u64>,
}

/// One tick: abort when the target quit, after the timeout, or when another
/// application (not this one) is in front; wait while the target is not in
/// front, until it has been in front for `FOCUS_SETTLE_NS`, and while a
/// modifier key is held; then paste.
pub open spec fn paste_step_spec(
    s: PasteState,
    now_ns: u64,
    terminated: bool,
    front: Option<i32>,
    target: i32,
    own: i32,
    modifier_flags: u64,
) -> (PasteState, PasteAction) {
    if terminated || now_ns > PASTE_TIMEOUT_NS || (front matches Some(f) && f != target && f != own) {
        (s, PasteAction::Abort)
    } else if front != Some(target) {
        (PasteState { ready_since_ns: None }, PasteAction::Wait)
    } else {
        let ready = match s.ready_since_ns {
            Some(r) => r,
            None => now_ns,
        };
        let t = PasteState { ready_since_ns: Some(ready) };
        if now_ns < ready + FOCUS_SETTLE_NS || modifier_flags & MODIFIERS != 0 {
            (t, PasteAction::Wait)
        } else {
            (t, PasteAction::Paste)
        }
    }
}

/// Decides what the paste timer does at a tick.
pub fn paste_step(
    state: PasteState,
    now_ns: u64,
    terminated: bool,
    front: Option<i32>,
    target: i32,
    own: i32,
    modifier_flags: u64,
) -> (r: (PasteState, PasteAction))
    ensures
        r == paste_step_spec(state, now_ns, terminated, front, target, own, modifier_flags),
{
    let elsewhere = match front {
        Some(f) => f != target && f != own,
        None => false,
    };
    if terminated || now_ns > PASTE_TIMEOUT_NS || elsewhere {
        return (state, PasteAction::Abort);
    }
    let in_front = match front {
        Some(f) => f == target,
        None => false,
    };
    if !in_front {
        return (PasteState { ready_since_ns: None }, PasteAction::Wait);
    }
    let ready = match state.ready_since_ns {
        Some(r) => r,
        None => now_ns,
    };
    let next = PasteState { ready_since_ns: Some(ready) };
    let settled = ready <= u64::MAX - FOCUS_SETTLE_NS && now_ns >= ready + FOCUS_SETTLE_NS;
    if !settled || modifier_flags & MODIFIERS != 0 {
        (next, PasteAction::Wait)
    } else {
        (next, PasteAction::Paste)
    }
}

/// A paste happens only into the target in front, settled for
/// `FOCUS_SETTLE_NS`, with no modifier held and before the timeout; the
/// first tick that finds the target in front never pastes.
pub proof fn lemma_paste_only_when_settled(
    s: PasteState,
    now_ns: u64,
    terminated: bool,
    front: Option<i32>,
    target: i32,
    own: i32,
    modifier_flags: u64,
)
    ensures
        paste_step_spec(s, now_ns, terminated, front, target, own, modifier_flags).1 == PasteAction::Paste ==> {
            &&& !terminated
            &&& now_ns <= PASTE_TIMEOUT_NS
            &&& front == Some(target)
            &&& modifier_flags & MODIFIERS == 0
            &&& s.ready_since_ns matches Some(r) && r + FOCUS_SETTLE_NS <= now_ns
        },
{
}

} // verus!
