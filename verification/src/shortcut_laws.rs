//! Properties of the shortcut router and the switch selection that hold for
//! every state and every event.

use crate::shortcuts::{
    binding_matches, finish_spec, handle_spec, install_fits, install_spec, next_session, step_spec,
    take_commit_spec, Action, ActionKind, PanelMode, RouterState, SelectionState, DOWN_ARROW,
    FLAGS_CHANGED, KEY_DOWN, KEY_UP, SHIFT, TAB, UP_ARROW,
};
use vstd::prelude::*;

verus! {

/// Every action the router emits is stamped with the router's session as it
/// stands after the event, so the panel can ignore actions of older sessions.
pub proof fn lemma_actions_carry_current_session(
    s: RouterState,
    event: u32,
    key: i64,
    flags: u64,
    repeat: bool,
)
    ensures
        handle_spec(s, event, key, flags, repeat).1.1 matches Some(a) ==> a.session == handle_spec(
            s,
            event,
            key,
            flags,
            repeat,
        ).0.session,
{
}

/// The configured bindings never change while events are handled.
pub proof fn lemma_bindings_are_stable(s: RouterState, event: u32, key: i64, flags: u64, repeat: bool)
    ensures
        handle_spec(s, event, key, flags, repeat).0.search == s.search,
        handle_spec(s, event, key, flags, repeat).0.switch == s.switch,
{
}

/// A key press that the router swallows is remembered, and its release is
/// swallowed too and forgotten; a key press that passes through leaves the
/// remembered keys as they were.
pub proof fn lemma_swallowed_press_swallows_release(
    s: RouterState,
    key: i64,
    flags: u64,
    repeat: bool,
    release_flags: u64,
    release_repeat: bool,
)
    ensures
        ({
            let (t, r) = handle_spec(s, KEY_DOWN, key, flags, repeat);
            &&& r.0 ==> t.consumed.contains(key)
            &&& r.0 ==> handle_spec(t, KEY_UP, key, release_flags, release_repeat) == (
            RouterState { consumed: t.consumed.remove(key), ..t }, (true, None::<Action>))
            &&& !r.0 ==> t.consumed == s.consumed
        }),
{
}

/// Releasing a key that was never swallowed is passed through.
pub proof fn lemma_unswallowed_release_passes(s: RouterState, key: i64, flags: u64, repeat: bool)
    requires
        !s.consumed.contains(key),
    ensures
        handle_spec(s, KEY_UP, key, flags, repeat).1 == (false, None::<Action>),
        handle_spec(s, KEY_UP, key, flags, repeat).0.consumed == s.consumed,
{
}

/// Modifier changes are never swallowed and never change the swallowed keys.
pub proof fn lemma_modifier_changes_pass_through(s: RouterState, key: i64, flags: u64, repeat: bool)
    ensures
        !handle_spec(s, FLAGS_CHANGED, key, flags, repeat).1.0,
        handle_spec(s, FLAGS_CHANGED, key, flags, repeat).0.consumed == s.consumed,
{
}

/// Auto-repeated key presses never trigger an action.
pub proof fn lemma_repeats_have_no_action(s: RouterState, event: u32, key: i64, flags: u64)
    requires
        event != FLAGS_CHANGED,
    ensures
        handle_spec(s, event, key, flags, true).1.1 is None,
{
}

/// Events other than key presses, key releases and modifier changes are
/// ignored entirely.
pub proof fn lemma_other_events_ignored(s: RouterState, event: u32, key: i64, flags: u64, repeat: bool)
    requires
        event != KEY_DOWN,
        event != KEY_UP,
        event != FLAGS_CHANGED,
    ensures
        handle_spec(s, event, key, flags, repeat) == (s, (false, None::<Action>)),
{
}

/// A new session starts only when a panel opens while none was open.
pub proof fn lemma_session_changes_only_on_open(
    s: RouterState,
    event: u32,
    key: i64,
    flags: u64,
    repeat: bool,
)
    ensures
        ({
            let t = handle_spec(s, event, key, flags, repeat).0;
            t.session != s.session ==> s.mode is None && t.mode is Some && t.session
                == next_session(s.session)
        }),
{
}

/// After an accept or a cancel the panel is closed.
pub proof fn lemma_accept_and_cancel_close_the_panel(
    s: RouterState,
    event: u32,
    key: i64,
    flags: u64,
    repeat: bool,
)
    ensures
        ({
            let (t, r) = handle_spec(s, event, key, flags, repeat);
            r.1 matches Some(a) && (a.kind is Accept || a.kind is Cancel) ==> t.mode is None
                && t.release_modifier is None
        }),
{
}

/// Finishing a session other than the current one changes nothing; finishing
/// the current one closes the panel.
pub proof fn lemma_finish_only_current_session(s: RouterState, session: u64)
    ensures
        session != s.session ==> finish_spec(s, session) == s,
        finish_spec(s, s.session).mode is None,
        finish_spec(s, s.session).session == s.session,
{
}

/// Stepping forward and then back (or back and then forward) over an
/// installed window list returns to the same window.
pub proof fn lemma_step_back_restores(s: SelectionState, direction: i8)
    requires
        0 < s.len <= i64::MAX,
        s.index < s.len,
        direction != i8::MIN,
    ensures
        step_spec(step_spec(s, direction), (-direction) as i8) == s,
{
    let n = s.len as int;
    let i = s.index as int;
    let d = direction as int;
    let j = (i + d) % n;
    let q = (i + d) / n;
    vstd::arithmetic::div_mod::lemma_fundamental_div_mod(i + d, n);
    vstd::arithmetic::mul::lemma_mul_unary_negation(n, q);
    assert(j - d == n * (-q) + i);
    vstd::arithmetic::div_mod::lemma_mod_multiples_vanish(-q, i, n);
    vstd::arithmetic::div_mod::lemma_small_mod(i as nat, n as nat);
    assert((j - d) % n == i);
}

/// A selection is committed at most once.
pub proof fn lemma_commit_at_most_once(s: SelectionState)
    ensures
        take_commit_spec(take_commit_spec(s).0).1 is None,
{
}

/// Only the first non-empty window list is installed; later ones, and empty
/// ones, are ignored and may always be offered.
pub proof fn lemma_install_only_once(s: SelectionState, len: usize, anchor: Option<usize>)
    requires
        s.len != 0 || len == 0,
    ensures
        install_fits(s, len, anchor),
        install_spec(s, len, anchor) == s,
{
}

/// Without an anchor, a switch that opened forwards selects the first window
/// and one that opened backwards selects the last.
pub proof fn lemma_unanchored_switch_starts_at_an_end(direction: i8, len: usize)
    requires
        direction == 1 || direction == -1,
        0 < len <= i64::MAX,
    ensures
        ({
            let s = SelectionState {
                len: 0,
                index: 0,
                pending_steps: direction as i64,
                released: false,
                committed: false,
            };
            install_spec(s, len, None).index == if direction == 1 {
                0
            } else {
                len - 1
            }
        }),
{
    let n = len as int;
    if direction == 1 {
        if n == 1 {
            assert(1int % 1 == 0);
            assert((0int + 0) % 1 == 0);
        } else {
            assert(1int % n == 1) by {
                vstd::arithmetic::div_mod::lemma_small_mod(1, n as nat);
            }
            assert((n - 1 + 1) % n == 0) by {
                vstd::arithmetic::div_mod::lemma_mod_self_0(n);
            }
        }
    } else {
        assert((-1int) % n == n - 1) by {
            vstd::arithmetic::div_mod::lemma_mod_add_multiples_vanish(-1, n);
            vstd::arithmetic::div_mod::lemma_small_mod((n - 1) as nat, n as nat);
        }
        assert((0 + (n - 1)) % n == n - 1) by {
            vstd::arithmetic::div_mod::lemma_small_mod((n - 1) as nat, n as nat);
        }
    }
}

/// Steps taken before the window list arrives count from the anchor exactly
/// like steps taken afterwards.
pub proof fn lemma_early_steps_count_from_anchor(
    s: SelectionState,
    direction: i8,
    len: usize,
    anchor: usize,
)
    requires
        s.len == 0,
        0 < len <= i64::MAX,
        anchor < len,
        i64::MIN <= s.pending_steps + direction <= i64::MAX,
    ensures
        install_spec(step_spec(s, direction), len, Some(anchor)).index == (anchor + s.pending_steps
            + direction) % (len as int),
{
    let n = len as int;
    let p = s.pending_steps + direction;
    assert((anchor + p % n) % n == (anchor + p) % n) by {
        vstd::arithmetic::div_mod::lemma_add_mod_noop(anchor as int, p, n);
        vstd::arithmetic::div_mod::lemma_mod_twice(p, n);
        vstd::arithmetic::div_mod::lemma_small_mod(anchor as nat, n as nat);
        vstd::arithmetic::div_mod::lemma_add_mod_noop(anchor as int, p % n, n);
    }
}

/// In an open switcher, a fresh press of Down moves the selection forward and
/// a press of Up moves it back, whatever other modifiers are held, when the
/// press is not one of the two shortcuts; the press is swallowed.
pub proof fn lemma_arrows_step_opposite_ways(s: RouterState, key: i64, flags: u64)
    requires
        s.mode == Some(PanelMode::Switch),
        key == DOWN_ARROW || key == UP_ARROW,
        !s.consumed.contains(key),
        !binding_matches(s.search, key, flags, false),
        !binding_matches(s.switch, key, flags, true),
    ensures
        handle_spec(s, KEY_DOWN, key, flags, false) == (
            RouterState { consumed: s.consumed.insert(key), ..s },
            (true, Some(Action { session: s.session, kind: ActionKind::Switch { direction: if key == DOWN_ARROW { 1i8 } else { -1i8 }, fresh: false } })),
        ),
{
}

/// In an open switcher, Tab that is not one of the two shortcuts moves the
/// selection forward, and back when Shift is held.
pub proof fn lemma_tab_steps_back_with_shift(s: RouterState, flags: u64)
    requires
        s.mode == Some(PanelMode::Switch),
        !s.consumed.contains(TAB),
        !binding_matches(s.search, TAB, flags, false),
        !binding_matches(s.switch, TAB, flags, true),
    ensures
        handle_spec(s, KEY_DOWN, TAB, flags, false) == (
            RouterState { consumed: s.consumed.insert(TAB), ..s },
            (true, Some(Action { session: s.session, kind: ActionKind::Switch { direction: if flags & SHIFT == 0 { 1i8 } else { -1i8 }, fresh: false } })),
        ),
{
}

} // verus!
