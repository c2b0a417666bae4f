use winlane::shortcuts::{
    letter_for_key, panel_command, space_changes_mode, Action, ActionKind, Binding, PanelCommand,
    PanelMode, ShortcutRouter, SwitchSelection, COMMAND, CONTROL, DELETE, DOWN_ARROW, ESCAPE,
    FLAGS_CHANGED, KEYPAD_ENTER, KEY_DOWN, KEY_UP, OPTION, RETURN, SHIFT, SPACE, TAB, UP_ARROW,
};

const SEARCH: Binding = Binding { key: SPACE, modifiers: OPTION };
const SWITCH: Binding = Binding { key: TAB, modifiers: OPTION };

fn router() -> ShortcutRouter {
    ShortcutRouter::new(SEARCH, SWITCH)
}

#[test]
fn letters_follow_the_ansi_layout() {
    assert_eq!(letter_for_key(0), Some('a'));
    assert_eq!(letter_for_key(1), Some('s'));
    assert_eq!(letter_for_key(11), Some('b'));
    assert_eq!(letter_for_key(46), Some('m'));
    assert_eq!(letter_for_key(10), None);
    assert_eq!(letter_for_key(DELETE), None);
    assert_eq!(letter_for_key(-1), None);
}

#[test]
fn panel_navigation_keys() {
    assert_eq!(panel_command(DOWN_ARROW, 0, false), Some(PanelCommand::Next));
    assert_eq!(panel_command(DOWN_ARROW, COMMAND, false), Some(PanelCommand::Next));
    assert_eq!(panel_command(TAB, 0, false), Some(PanelCommand::Next));
    assert_eq!(panel_command(UP_ARROW, 0, false), Some(PanelCommand::Previous));
    assert_eq!(panel_command(TAB, SHIFT, false), Some(PanelCommand::Previous));
    assert_eq!(panel_command(RETURN, 0, false), Some(PanelCommand::Accept));
    assert_eq!(panel_command(KEYPAD_ENTER, 0, false), Some(PanelCommand::Accept));
    assert_eq!(panel_command(ESCAPE, 0, false), Some(PanelCommand::Cancel));
}

#[test]
fn panel_navigation_ignores_composition_and_chords() {
    assert_eq!(panel_command(DOWN_ARROW, 0, true), None);
    assert_eq!(panel_command(DOWN_ARROW, CONTROL, false), None);
    assert_eq!(panel_command(TAB, OPTION, false), None);
    assert_eq!(panel_command(RETURN, SHIFT, false), None);
    assert_eq!(panel_command(TAB, COMMAND, false), None);
    // Bits outside the four modifiers do not count.
    assert_eq!(panel_command(ESCAPE, 0x100, false), Some(PanelCommand::Cancel));
}

#[test]
fn space_toggles_mode_only_without_query_in_search() {
    assert!(space_changes_mode(PanelMode::Switch, false, false));
    assert!(space_changes_mode(PanelMode::Search, true, false));
    assert!(!space_changes_mode(PanelMode::Search, false, false));
    assert!(!space_changes_mode(PanelMode::Switch, true, true));
}

#[test]
fn primary_modifier_prefers_command_then_control_then_option() {
    assert_eq!(Binding { key: 1, modifiers: COMMAND | OPTION }.primary_modifier(), COMMAND);
    assert_eq!(Binding { key: 1, modifiers: CONTROL | OPTION }.primary_modifier(), CONTROL);
    assert_eq!(Binding { key: 1, modifiers: OPTION | SHIFT }.primary_modifier(), OPTION);
    assert_eq!(Binding { key: 1, modifiers: SHIFT }.primary_modifier(), 0);
}

#[test]
fn conflicts_with_switch_includes_the_reverse_chord() {
    assert!(SWITCH.conflicts_with_switch(SWITCH));
    assert!(Binding { key: TAB, modifiers: OPTION | SHIFT }.conflicts_with_switch(SWITCH));
    assert!(!SEARCH.conflicts_with_switch(SWITCH));
    assert!(!Binding { key: TAB, modifiers: COMMAND }.conflicts_with_switch(SWITCH));
    let shifted = Binding { key: TAB, modifiers: OPTION | SHIFT };
    assert!(!SWITCH.conflicts_with_switch(shifted));
}

#[test]
fn search_shortcut_opens_and_closes_the_panel() {
    let mut r = router();
    let (swallow, action) = r.handle(KEY_DOWN, SPACE, OPTION, false);
    assert!(swallow);
    assert_eq!(action, Some(Action { session: 1, kind: ActionKind::Search }));
    assert_eq!(r.handle(KEY_UP, SPACE, OPTION, false), (true, None));
    let (swallow, action) = r.handle(KEY_DOWN, SPACE, OPTION, false);
    assert!(swallow);
    assert_eq!(action, Some(Action { session: 1, kind: ActionKind::Cancel }));
    assert_eq!(r.handle(KEY_UP, SPACE, OPTION, false), (true, None));
    // The next opening starts a new session.
    let (_, action) = r.handle(KEY_DOWN, SPACE, OPTION, false);
    assert_eq!(action, Some(Action { session: 2, kind: ActionKind::Search }));
}

#[test]
fn switcher_steps_and_accepts_on_release() {
    let mut r = router();
    let (swallow, action) = r.handle(KEY_DOWN, TAB, OPTION, false);
    assert!(swallow);
    assert_eq!(
        action,
        Some(Action { session: 1, kind: ActionKind::Switch { direction: 1, fresh: true } })
    );
    r.handle(KEY_UP, TAB, OPTION, false);
    let (_, action) = r.handle(KEY_DOWN, TAB, OPTION | SHIFT, false);
    assert_eq!(
        action,
        Some(Action { session: 1, kind: ActionKind::Switch { direction: -1, fresh: false } })
    );
    r.handle(KEY_UP, TAB, OPTION | SHIFT, false);
    // Releasing Option accepts the highlighted window.
    let (swallow, action) = r.handle(FLAGS_CHANGED, 0, 0, false);
    assert!(!swallow);
    assert_eq!(action, Some(Action { session: 1, kind: ActionKind::Accept }));
    // The panel is closed: Tab alone passes through.
    assert_eq!(r.handle(KEY_DOWN, TAB, 0, false), (false, None));
}

#[test]
fn switcher_keys_while_open() {
    let mut r = router();
    r.handle(KEY_DOWN, TAB, OPTION, false);
    r.handle(KEY_UP, TAB, OPTION, false);
    let (_, action) = r.handle(KEY_DOWN, UP_ARROW, OPTION, false);
    assert_eq!(
        action,
        Some(Action { session: 1, kind: ActionKind::Switch { direction: -1, fresh: false } })
    );
    let (_, action) = r.handle(KEY_DOWN, 8, OPTION, false);
    assert_eq!(action, Some(Action { session: 1, kind: ActionKind::Alias('c') }));
    let (_, action) = r.handle(KEY_DOWN, DELETE, 0, false);
    assert_eq!(action, Some(Action { session: 1, kind: ActionKind::AliasBackspace }));
    let (_, action) = r.handle(KEY_DOWN, RETURN, OPTION, false);
    assert_eq!(action, Some(Action { session: 1, kind: ActionKind::Accept }));
}

#[test]
fn space_in_switcher_opens_search_in_the_same_session() {
    let mut r = router();
    r.handle(KEY_DOWN, TAB, OPTION, false);
    let (_, action) = r.handle(KEY_DOWN, SPACE, 0, false);
    assert_eq!(action, Some(Action { session: 1, kind: ActionKind::Search }));
}

#[test]
fn escape_cancels_the_switcher() {
    let mut r = router();
    r.handle(KEY_DOWN, TAB, OPTION, false);
    let (swallow, action) = r.handle(KEY_DOWN, ESCAPE, 0, false);
    assert!(swallow);
    assert_eq!(action, Some(Action { session: 1, kind: ActionKind::Cancel }));
    assert_eq!(r.handle(KEY_DOWN, ESCAPE, 0, false), (true, None));
    assert_eq!(r.handle(KEY_UP, ESCAPE, 0, false), (true, None));
    assert_eq!(r.handle(KEY_DOWN, ESCAPE, 0, false), (false, None));
}

#[test]
fn repeats_are_swallowed_without_action() {
    let mut r = router();
    assert_eq!(r.handle(KEY_DOWN, SPACE, OPTION, true), (true, None));
    assert_eq!(r.handle(KEY_UP, SPACE, OPTION, false), (true, None));
    assert_eq!(r.handle(KEY_DOWN, 0, 0, true), (false, None));
}

#[test]
fn unrelated_events_pass_through() {
    let mut r = router();
    assert_eq!(r.handle(KEY_DOWN, 0, 0, false), (false, None));
    assert_eq!(r.handle(KEY_UP, 0, 0, false), (false, None));
    assert_eq!(r.handle(99, SPACE, OPTION, false), (false, None));
    assert_eq!(r.handle(FLAGS_CHANGED, 0, OPTION, false), (false, None));
}

#[test]
fn holding_the_modifier_after_entering_arms_release() {
    let mut r = router();
    let action = r.enter_switch(0);
    assert_eq!(action, Action { session: 1, kind: ActionKind::Switch { direction: 0, fresh: true } });
    // Option not held yet: releasing nothing accepts nothing.
    assert_eq!(r.handle(FLAGS_CHANGED, 0, 0, false), (false, None));
    // Option pressed arms the release.
    assert_eq!(r.handle(FLAGS_CHANGED, 0, OPTION, false), (false, None));
    let (_, action) = r.handle(FLAGS_CHANGED, 0, 0, false);
    assert_eq!(action, Some(Action { session: 1, kind: ActionKind::Accept }));
}

#[test]
fn finish_and_resume_only_apply_to_the_current_session() {
    let mut r = router();
    let action = r.open_search();
    assert_eq!(action.session, 1);
    r.finish(7);
    assert_eq!(r.handle(KEY_DOWN, SPACE, OPTION, false).1, Some(Action { session: 1, kind: ActionKind::Cancel }));
    r.resume_search(7);
    assert_eq!(r.handle(KEY_UP, SPACE, OPTION, false), (true, None));
    assert_eq!(r.handle(KEY_DOWN, SPACE, OPTION, false).1, Some(Action { session: 2, kind: ActionKind::Search }));
    r.handle(KEY_UP, SPACE, OPTION, false);
    r.finish(2);
    r.resume_search(2);
    assert_eq!(r.handle(KEY_DOWN, SPACE, OPTION, false).1, Some(Action { session: 2, kind: ActionKind::Cancel }));
    assert_eq!(r.cancel(), Action { session: 2, kind: ActionKind::Cancel });
}

#[test]
fn selection_counts_early_steps_from_the_anchor() {
    let mut s = SwitchSelection::new(1);
    assert_eq!(s.selected(), None);
    s.step(1);
    s.install(5, Some(1));
    assert_eq!(s.selected(), Some(3));
    s.install(9, Some(0));
    assert_eq!(s.selected(), Some(3));
}

#[test]
fn unanchored_selection_starts_at_an_end() {
    let mut forward = SwitchSelection::new(1);
    forward.install(4, None);
    assert_eq!(forward.selected(), Some(0));
    let mut backward = SwitchSelection::new(-1);
    backward.install(4, None);
    assert_eq!(backward.selected(), Some(3));
    let mut still = SwitchSelection::new(0);
    still.install(4, Some(9));
    assert_eq!(still.selected(), Some(0));
}

#[test]
fn selection_steps_wrap_around() {
    let mut s = SwitchSelection::new(0);
    s.install(3, Some(2));
    s.step(1);
    assert_eq!(s.selected(), Some(0));
    s.step(-1);
    assert_eq!(s.selected(), Some(2));
    s.select(1);
    assert_eq!(s.selected(), Some(1));
    s.select(3);
    assert_eq!(s.selected(), Some(1));
}

#[test]
fn empty_install_keeps_waiting() {
    let mut s = SwitchSelection::new(1);
    s.install(0, Some(0));
    assert_eq!(s.selected(), None);
    s.step(-1);
    s.step(-1);
    s.install(4, Some(2));
    assert_eq!(s.selected(), Some(1));
}

#[test]
fn commit_happens_once_after_release() {
    let mut s = SwitchSelection::new(1);
    s.install(2, Some(0));
    assert_eq!(s.take_commit(), None);
    assert!(!s.released());
    s.release();
    assert!(s.released());
    assert_eq!(s.take_commit(), Some(1));
    assert_eq!(s.take_commit(), None);
}

#[test]
fn installed_selection_ignores_any_later_list() {
    let mut s = SwitchSelection::new(0);
    s.install(3, Some(1));
    s.install(usize::MAX, Some(7));
    assert_eq!(s.selected(), Some(1));
    s.step(1);
    s.step(1);
    assert_eq!(s.selected(), Some(0));
}
