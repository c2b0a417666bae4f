//! Keyboard shortcut handling: key tables, panel navigation commands and the
//! search/switch shortcut state machine.

use std::collections::BTreeSet;
use vstd::prelude::*;

verus! {

pub const KEY_DOWN: u32 = 10;
pub const KEY_UP: u32 = 11;
pub const FLAGS_CHANGED: u32 = 12;
pub const SHIFT: u64 = 0x20000;
pub const CONTROL: u64 = 0x40000;
pub const OPTION: u64 = 0x80000;
pub const COMMAND: u64 = 0x100000;
pub const TAB: i64 = 48;
pub const ESCAPE: i64 = 53;
pub const SPACE: i64 = 49;
pub const RETURN: i64 = 36;
pub const KEYPAD_ENTER: i64 = 76;
pub const DELETE: i64 = 51;
pub const DOWN_ARROW: i64 = 125;
pub const UP_ARROW: i64 = 126;

/// Every modifier bit that shortcuts look at.
pub const MODIFIERS: u64 = 0x1E0000;

/// The letter that a virtual key code types on an ANSI layout, for the
/// letters that alias switching understands.
pub open spec fn key_letter(key: i64) -> Option<char> {
    if key == 0 { Some('a') }
    else if key == 1 { Some('s') }
    else if key == 2 { Some('d') }
    else if key == 3 { Some('f') }
    else if key == 4 { Some('h') }
    else if key == 5 { Some('g') }
    else if key == 6 { Some('z') }
    else if key == 7 { Some('x') }
    else if key == 8 { Some('c') }
    else if key == 9 { Some('v') }
    else if key == 11 { Some('b') }
    else if key == 12 { Some('q') }
    else if key == 13 { Some('w') }
    else if key == 14 { Some('e') }
    else if key == 15 { Some('r') }
    else if key == 16 { Some('y') }
    else if key == 17 { Some('t') }
    else if key == 31 { Some('o') }
    else if key == 32 { Some('u') }
    else if key == 34 { Some('i') }
    else if key == 35 { Some('p') }
    else if key == 37 { Some('l') }
    else if key == 38 { Some('j') }
    else if key == 40 { Some('k') }
    else if key == 45 { Some('n') }
    else if key == 46 { Some('m') }
    else { None }
}

pub fn letter_for_key(key: i64) -> (letter: Option<char>)
    ensures
        letter == key_letter(key),
{
    match key {
        0 => Some('a'),
        1 => Some('s'),
        2 => Some('d'),
        3 => Some('f'),
        4 => Some('h'),
        5 => Some('g'),
        6 => Some('z'),
        7 => Some('x'),
        8 => Some('c'),
        9 => Some('v'),
        11 => Some('b'),
        12 => Some('q'),
        13 => Some('w'),
        14 => Some('e'),
        15 => Some('r'),
        16 => Some('y'),
        17 => Some('t'),
        31 => Some('o'),
        32 => Some('u'),
        34 => Some('i'),
        35 => Some('p'),
        37 => Some('l'),
        38 => Some('j'),
        40 => Some('k'),
        45 => Some('n'),
        46 => Some('m'),
        _ => None,
    }
}

#[derive(Clone, Copy, Debug, PartialEq, Eq, Structural)]
pub enum PanelCommand {
    Next,
    Previous,
    Accept,
    Cancel,
}

/// The navigation command of a key press in an open panel.
pub open spec fn panel_command_spec(key: i64, flags: u64, composing: bool) -> Option<PanelCommand> {
    let modifiers = flags & MODIFIERS;
    if composing || modifiers & (CONTROL | OPTION) != 0 {
        None
    } else if (key == DOWN_ARROW && (modifiers == 0 || modifiers == COMMAND))
        || (key == TAB && modifiers == 0) {
        Some(PanelCommand::Next)
    } else if (key == UP_ARROW && (modifiers == 0 || modifiers == COMMAND))
        || (key == TAB && modifiers == SHIFT) {
        Some(PanelCommand::Previous)
    } else if (key == RETURN || key == KEYPAD_ENTER) && modifiers == 0 {
        Some(PanelCommand::Accept)
    } else if key == ESCAPE && modifiers == 0 {
        Some(PanelCommand::Cancel)
    } else {
        None
    }
}

pub fn panel_command(key: i64, flags: u64, composing: bool) -> (command: Option<PanelCommand>)
    ensures
        command == panel_command_spec(key, flags, composing),
{
    let modifiers = flags & MODIFIERS;
    if composing || modifiers & (CONTROL | OPTION) != 0 {
        return None;
    }
    if (key == DOWN_ARROW && (modifiers == 0 || modifiers == COMMAND)) || (key == TAB && modifiers
        == 0) {
        Some(PanelCommand::Next)
    } else if (key == UP_ARROW && (modifiers == 0 || modifiers == COMMAND)) || (key == TAB
        && modifiers == SHIFT) {
        Some(PanelCommand::Previous)
    } else if (key == RETURN || key == KEYPAD_ENTER) && modifiers == 0 {
        Some(PanelCommand::Accept)
    } else if key == ESCAPE && modifiers == 0 {
        Some(PanelCommand::Cancel)
    } else {
        None
    }
}


#[derive(Clone, Copy, Debug, PartialEq, Eq, Structural)]
pub enum PanelMode {
    Search,
    Switch,
}

/// Whether the space bar toggles between searching and switching instead of
/// typing a space into the query.
pub open spec fn space_changes_mode_spec(mode: PanelMode, query_empty: bool, composing: bool) -> bool {
    !composing && (mode == PanelMode::Switch || query_empty)
}

pub fn space_changes_mode(mode: PanelMode, query_empty: bool, composing: bool) -> (changes: bool)
    ensures
        changes == space_changes_mode_spec(mode, query_empty, composing),
{
    !composing && (matches!(mode, PanelMode::Switch) || query_empty)
}

/// A key combination: a virtual key code and the modifier bits that must be held.
#[derive(Clone, Copy, Debug, PartialEq, Eq, Structural)]
pub struct Binding {
    pub key: i64,
    pub modifiers: u64,
}

/// A key event matches a binding when the key is the same and the held
/// modifiers are exactly the binding's; with `reverse`, Shift may also be held
/// in addition when the binding does not already use Shift.
pub open spec fn binding_matches(binding: Binding, key: i64, flags: u64, reverse: bool) -> bool {
    let held = flags & MODIFIERS;
    key == binding.key && (held == binding.modifiers || (reverse && binding.modifiers & SHIFT == 0
        && held == binding.modifiers | SHIFT))
}

/// The first of Command, Control and Option that a binding uses, or 0.
pub open spec fn primary_modifier_of(modifiers: u64) -> u64 {
    if modifiers & COMMAND != 0 {
        COMMAND
    } else if modifiers & CONTROL != 0 {
        CONTROL
    } else if modifiers & OPTION != 0 {
        OPTION
    } else {
        0
    }
}

impl Binding {
    fn matches(self, key: i64, flags: u64, reverse: bool) -> (matched: bool)
        ensures
            matched == binding_matches(self, key, flags, reverse),
    {
        let flags = flags & MODIFIERS;
        key == self.key && (flags == self.modifiers || (reverse && self.modifiers & SHIFT == 0
            && flags == self.modifiers | SHIFT))
    }

    pub fn primary_modifier(self) -> (modifier: u64)
        ensures
            modifier == primary_modifier_of(self.modifiers),
    {
        if self.modifiers & COMMAND != 0 {
            COMMAND
        } else if self.modifiers & CONTROL != 0 {
            CONTROL
        } else if self.modifiers & OPTION != 0 {
            OPTION
        } else {
            0
        }
    }

    /// Whether pressing this binding would also trigger `switch` (forwards or,
    /// with Shift added, backwards).
    pub fn conflicts_with_switch(self, switch: Self) -> (conflicts: bool)
        ensures
            conflicts == binding_matches(switch, self.key, self.modifiers, true),
    {
        switch.matches(self.key, self.modifiers, true)
    }
}

#[derive(Clone, Copy, Debug, PartialEq, Eq, Structural)]
pub enum ActionKind {
    Search,
    Switch { direction: i8, fresh: bool },
    Alias(char),
    AliasBackspace,
    Accept,
    Cancel,
}

/// What the panel should do, tagged with the panel session it belongs to.
#[derive(Clone, Copy, Debug, PartialEq, Eq, Structural)]
pub struct Action {
    pub session: u64,
    pub kind: ActionKind,
}

/// The abstract state of a [`ShortcutRouter`].
pub struct RouterState {
    pub search: Binding,
    pub switch: Binding,
    pub session: u64,
    pub mode: Option<PanelMode>,
    pub release_modifier: Option<u64>,
    pub consumed: Set<i64>,
}

pub open spec fn next_session(session: u64) -> u64 {
    if session == u64::MAX {
        0
    } else {
        (session + 1) as u64
    }
}

/// Enter `mode`, starting a new session when no panel was open.
pub open spec fn begin_spec(s: RouterState, mode: PanelMode) -> RouterState {
    RouterState {
        session: if s.mode is None {
            next_session(s.session)
        } else {
            s.session
        },
        mode: Some(mode),
        ..s
    }
}

/// Close the panel of `session`; a stale session changes nothing.
pub open spec fn finish_spec(s: RouterState, session: u64) -> RouterState {
    if s.session == session {
        RouterState { mode: None, release_modifier: None, ..s }
    } else {
        s
    }
}

pub open spec fn resume_spec(s: RouterState, session: u64) -> RouterState {
    if s.session == session {
        RouterState { mode: Some(PanelMode::Search), release_modifier: None, ..s }
    } else {
        s
    }
}

pub open spec fn open_search_spec(s: RouterState) -> (RouterState, Action) {
    let t = RouterState { release_modifier: None, ..begin_spec(s, PanelMode::Search) };
    (t, Action { session: t.session, kind: ActionKind::Search })
}

pub open spec fn enter_switch_state(s: RouterState, flags: u64) -> RouterState {
    let primary = primary_modifier_of(s.switch.modifiers);
    RouterState {
        release_modifier: if flags & primary != 0 {
            Some(primary)
        } else {
            None
        },
        ..begin_spec(s, PanelMode::Switch)
    }
}

pub open spec fn enter_switch_spec(s: RouterState, flags: u64) -> (RouterState, Action) {
    let t = enter_switch_state(s, flags);
    (t, Action { session: t.session, kind: ActionKind::Switch { direction: 0, fresh: true } })
}

pub open spec fn cancel_spec(s: RouterState) -> (RouterState, Action) {
    (finish_spec(s, s.session), Action { session: s.session, kind: ActionKind::Cancel })
}

pub open spec fn accept_spec(s: RouterState) -> (RouterState, Action) {
    (finish_spec(s, s.session), Action { session: s.session, kind: ActionKind::Accept })
}

/// A letter or Delete pressed while switching, with no modifier other than
/// Shift and those of the switch binding: it edits the alias filter.
pub open spec fn alias_key_spec(s: RouterState, key: i64, flags: u64) -> bool {
    &&& s.mode == Some(PanelMode::Switch)
    &&& (flags & MODIFIERS & !SHIFT == 0 || flags & MODIFIERS & !SHIFT == s.switch.modifiers
        & !SHIFT)
    &&& (key_letter(key) is Some || key == DELETE)
}

/// The keys that an open switcher handles by itself.
pub open spec fn switch_panel_key(key: i64) -> bool {
    key == SPACE || key == ESCAPE || key == RETURN || key == KEYPAD_ENTER || key == TAB || key
        == DOWN_ARROW || key == UP_ARROW
}

/// The new state and action of a fresh (not repeated) key press that the
/// router handles, or `None` when the key passes through.
pub open spec fn key_down_spec(s: RouterState, key: i64, flags: u64) -> Option<(RouterState, Action)> {
    if alias_key_spec(s, key, flags) && !binding_matches(s.switch, key, flags, true) {
        Some((s, Action {
            session: s.session,
            kind: match key_letter(key) {
                Some(c) => ActionKind::Alias(c),
                None => ActionKind::AliasBackspace,
            },
        }))
    } else if binding_matches(s.search, key, flags, false) {
        if s.mode == Some(PanelMode::Search) {
            Some(cancel_spec(s))
        } else {
            Some(open_search_spec(s))
        }
    } else if binding_matches(s.switch, key, flags, true) {
        let t = enter_switch_state(s, flags);
        Some((t, Action {
            session: t.session,
            kind: ActionKind::Switch {
                direction: if s.switch.modifiers & SHIFT == 0 && flags & SHIFT != 0 {
                    -1i8
                } else {
                    1i8
                },
                fresh: s.mode != Some(PanelMode::Switch),
            },
        }))
    } else if s.mode == Some(PanelMode::Switch) {
        if key == SPACE {
            Some(open_search_spec(s))
        } else if key == ESCAPE {
            Some(cancel_spec(s))
        } else if key == RETURN || key == KEYPAD_ENTER {
            Some(accept_spec(s))
        } else if key == TAB || key == DOWN_ARROW || key == UP_ARROW {
            Some((s, Action {
                session: s.session,
                kind: ActionKind::Switch {
                    direction: if key == UP_ARROW || (key == TAB && flags & SHIFT != 0) {
                        -1i8
                    } else {
                        1i8
                    },
                    fresh: false,
                },
            }))
        } else {
            None
        }
    } else {
        None
    }
}

/// The whole transition of the router on one keyboard event: the new state,
/// whether the event is swallowed, and the action for the panel.
pub open spec fn handle_spec(s: RouterState, event: u32, key: i64, flags: u64, repeat: bool) -> (RouterState, (bool, Option<Action>)) {
    if event == FLAGS_CHANGED {
        if s.mode == Some(PanelMode::Switch) {
            if s.release_modifier matches Some(m) && flags & m == 0 {
                let (t, a) = accept_spec(s);
                (t, (false, Some(a)))
            } else if s.release_modifier is None && flags & primary_modifier_of(s.switch.modifiers) != 0 {
                (RouterState { release_modifier: Some(primary_modifier_of(s.switch.modifiers)), ..s }, (false, None))
            } else {
                (s, (false, None))
            }
        } else {
            (s, (false, None))
        }
    } else if event == KEY_UP {
        (RouterState { consumed: s.consumed.remove(key), ..s }, (s.consumed.contains(key), None))
    } else if event != KEY_DOWN {
        (s, (false, None))
    } else if s.consumed.contains(key) {
        (s, (true, None))
    } else if repeat {
        let consume = binding_matches(s.search, key, flags, false)
            || binding_matches(s.switch, key, flags, true)
            || (s.mode == Some(PanelMode::Switch) && switch_panel_key(key))
            || alias_key_spec(s, key, flags);
        if consume {
            (RouterState { consumed: s.consumed.insert(key), ..s }, (true, None))
        } else {
            (s, (false, None))
        }
    } else {
        match key_down_spec(s, key, flags) {
            Some((t, a)) => (RouterState { consumed: t.consumed.insert(key), ..t }, (true, Some(a))),
            None => (s, (false, None)),
        }
    }
}

/// Routes global key events to the search and window-switch panels.
pub struct ShortcutRouter {
    search: Binding,
    switch: Binding,
    session: u64,
    mode: Option<PanelMode>,
    release_modifier: Option<u64>,
    consumed: BTreeSet<i64>,
}

impl View for ShortcutRouter {
    type V = RouterState;

    closed spec fn view(&self) -> RouterState {
        RouterState {
            search: self.search,
            switch: self.switch,
            session: self.session,
            mode: self.mode,
            release_modifier: self.release_modifier,
            consumed: self.consumed@,
        }
    }
}

impl ShortcutRouter {
    pub fn new(search: Binding, switch: Binding) -> (router: Self)
        ensures
            router@ == (RouterState {
                search,
                switch,
                session: 0,
                mode: None,
                release_modifier: None,
                consumed: Set::empty(),
            }),
    {
        ShortcutRouter {
            search,
            switch,
            session: 0,
            mode: None,
            release_modifier: None,
            consumed: BTreeSet::new(),
        }
    }

    fn action(&self, kind: ActionKind) -> (action: Action)
        ensures
            action == (Action { session: self@.session, kind }),
    {
        Action { session: self.session, kind }
    }

    fn begin(&mut self, mode: PanelMode)
        ensures
            final(self)@ == begin_spec(old(self)@, mode),
    {
        if self.mode.is_none() {
            self.session = if self.session == u64::MAX {
                0
            } else {
                self.session + 1
            };
        }
        self.mode = Some(mode);
    }

    pub fn open_search(&mut self) -> (action: Action)
        ensures
            (final(self)@, action) == open_search_spec(old(self)@),
    {
        self.begin(PanelMode::Search);
        self.release_modifier = None;
        self.action(ActionKind::Search)
    }

    pub fn resume_search(&mut self, session: u64)
        ensures
            final(self)@ == resume_spec(old(self)@, session),
    {
        if self.session == session {
            self.mode = Some(PanelMode::Search);
            self.release_modifier = None;
        }
    }

    pub fn enter_switch(&mut self, flags: u64) -> (action: Action)
        ensures
            (final(self)@, action) == enter_switch_spec(old(self)@, flags),
    {
        self.begin(PanelMode::Switch);
        let primary = self.switch.primary_modifier();
        self.release_modifier = if flags & primary != 0 {
            Some(primary)
        } else {
            None
        };
        self.action(ActionKind::Switch { direction: 0, fresh: true })
    }

    pub fn finish(&mut self, session: u64)
        ensures
            final(self)@ == finish_spec(old(self)@, session),
    {
        if self.session == session {
            self.mode = None;
            self.release_modifier = None;
        }
    }

    pub fn cancel(&mut self) -> (action: Action)
        ensures
            (final(self)@, action) == cancel_spec(old(self)@),
    {
        let action = self.action(ActionKind::Cancel);
        let session = self.session;
        self.finish(session);
        action
    }

    fn accept(&mut self) -> (action: Action)
        ensures
            (final(self)@, action) == accept_spec(old(self)@),
    {
        let action = self.action(ActionKind::Accept);
        let session = self.session;
        self.finish(session);
        action
    }

    fn flags_changed(&mut self, flags: u64) -> (result: (bool, Option<Action>))
        ensures
            (final(self)@, result) == handle_spec(old(self)@, FLAGS_CHANGED, 0, flags, false),
    {
        if matches!(self.mode, Some(PanelMode::Switch)) {
            if let Some(modifier) = self.release_modifier {
                if flags & modifier == 0 {
                    let action = self.accept();
                    return (false, Some(action));
                }
            }
            let primary = self.switch.primary_modifier();
            if self.release_modifier.is_none() && flags & primary != 0 {
                self.release_modifier = Some(primary);
            }
        }
        (false, None)
    }

    fn alias_key(&self, key: i64, flags: u64) -> (alias: bool)
        ensures
            alias == alias_key_spec(self@, key, flags),
    {
        let letter = letter_for_key(key);
        matches!(self.mode, Some(PanelMode::Switch)) && (flags & MODIFIERS & !SHIFT == 0 || flags
            & MODIFIERS & !SHIFT == self.switch.modifiers & !SHIFT) && (letter.is_some() || key
            == DELETE)
    }

    fn key_down(&mut self, key: i64, flags: u64) -> (action: Option<Action>)
        ensures
            match key_down_spec(old(self)@, key, flags) {
                Some((t, a)) => final(self)@ == t && action == Some(a),
                None => final(self)@ == old(self)@ && action.is_none(),
            },
    {
        let alias_key = self.alias_key(key, flags);
        if alias_key && !self.switch.matches(key, flags, true) {
            let kind = match letter_for_key(key) {
                Some(c) => ActionKind::Alias(c),
                None => ActionKind::AliasBackspace,
            };
            Some(self.action(kind))
        } else if self.search.matches(key, flags, false) {
            if matches!(self.mode, Some(PanelMode::Search)) {
                Some(self.cancel())
            } else {
                Some(self.open_search())
            }
        } else if self.switch.matches(key, flags, true) {
            let fresh = !matches!(self.mode, Some(PanelMode::Switch));
            self.enter_switch(flags);
            let direction: i8 = if self.switch.modifiers & SHIFT == 0 && flags & SHIFT != 0 {
                -1
            } else {
                1
            };
            Some(self.action(ActionKind::Switch { direction, fresh }))
        } else if matches!(self.mode, Some(PanelMode::Switch)) {
            if key == SPACE {
                Some(self.open_search())
            } else if key == ESCAPE {
                Some(self.cancel())
            } else if key == RETURN || key == KEYPAD_ENTER {
                Some(self.accept())
            } else if key == TAB || key == DOWN_ARROW || key == UP_ARROW {
                let direction: i8 = if key == UP_ARROW || (key == TAB && flags & SHIFT != 0) {
                    -1
                } else {
                    1
                };
                Some(self.action(ActionKind::Switch { direction, fresh: false }))
            } else {
                None
            }
        } else {
            None
        }
    }

    /// Handles one keyboard event: returns whether the event is swallowed and
    /// the action the panel should take.
    pub fn handle(&mut self, event: u32, key: i64, flags: u64, repeat: bool) -> (result: (
        bool,
        Option<Action>,
    ))
        ensures
            (final(self)@, result) == handle_spec(old(self)@, event, key, flags, repeat),
    {
        broadcast use vstd::std_specs::btree::group_btree_axioms, vstd::laws_cmp::group_laws_cmp;

        if event == FLAGS_CHANGED {
            return self.flags_changed(flags);
        }
        if event == KEY_UP {
            let removed = self.consumed.remove(&key);
            return (removed, None);
        }
        if event != KEY_DOWN {
            return (false, None);
        }
        if self.consumed.contains(&key) {
            return (true, None);
        }
        if repeat {
            let consume = self.search.matches(key, flags, false) || self.switch.matches(
                key,
                flags,
                true,
            ) || (matches!(self.mode, Some(PanelMode::Switch)) && (key == SPACE || key == ESCAPE
                || key == RETURN || key == KEYPAD_ENTER || key == TAB || key == DOWN_ARROW || key
                == UP_ARROW)) || self.alias_key(key, flags);
            if consume {
                self.consumed.insert(key);
            }
            return (consume, None);
        }
        match self.key_down(key, flags) {
            Some(action) => {
                self.consumed.insert(key);
                (true, Some(action))
            },
            None => (false, None),
        }
    }
}


/// The abstract state of a [`SwitchSelection`].
pub struct SelectionState {
    pub len: usize,
    pub index: usize,
    pub pending_steps: i64,
    pub released: bool,
    pub committed: bool,
}

pub open spec fn saturating_step(steps: i64, direction: i8) -> i64 {
    if steps + direction > i64::MAX {
        i64::MAX
    } else if steps + direction < i64::MIN {
        i64::MIN
    } else {
        (steps + direction) as i64
    }
}

/// Where the selection starts once the window list is known: the anchor
/// when it is in range, else the last window for forward steps and the first
/// otherwise.
pub open spec fn install_start(s: SelectionState, len: usize, anchor: Option<usize>) -> int {
    match anchor {
        Some(a) if a < len => a as int,
        _ => if s.pending_steps > 0 {
            len - 1
        } else {
            0
        },
    }
}

/// An install that takes effect needs the length, and `start + pending mod
/// len`, to fit in an `i64`; one that changes nothing needs nothing.
pub open spec fn install_fits(s: SelectionState, len: usize, anchor: Option<usize>) -> bool {
    s.len != 0 || len == 0 || (len <= i64::MAX && install_start(s, len, anchor) + (
    s.pending_steps as int) % (len as int) <= i64::MAX)
}

pub open spec fn install_spec(s: SelectionState, len: usize, anchor: Option<usize>) -> SelectionState {
    if s.len != 0 || len == 0 {
        s
    } else {
        SelectionState {
            len,
            index: ((install_start(s, len, anchor) + (s.pending_steps as int) % (len as int)) % (
            len as int)) as usize,
            pending_steps: 0,
            ..s
        }
    }
}

pub open spec fn step_spec(s: SelectionState, direction: i8) -> SelectionState {
    if s.len == 0 {
        SelectionState { pending_steps: saturating_step(s.pending_steps, direction), ..s }
    } else {
        SelectionState { index: ((s.index + direction) % (s.len as int)) as usize, ..s }
    }
}

pub open spec fn select_spec(s: SelectionState, index: usize) -> SelectionState {
    if index < s.len {
        SelectionState { index, ..s }
    } else {
        s
    }
}

pub open spec fn take_commit_spec(s: SelectionState) -> (SelectionState, Option<usize>) {
    if s.released && !s.committed && s.len > 0 {
        (SelectionState { committed: true, ..s }, Some(s.index))
    } else {
        (s, None)
    }
}

/// The window highlighted by an open switcher. Steps taken before the window
/// list arrives are remembered and applied when it is installed.
#[derive(Debug)]
pub struct SwitchSelection {
    len: usize,
    index: usize,
    pending_steps: i64,
    released: bool,
    committed: bool,
}

impl View for SwitchSelection {
    type V = SelectionState;

    closed spec fn view(&self) -> SelectionState {
        SelectionState {
            len: self.len,
            index: self.index,
            pending_steps: self.pending_steps,
            released: self.released,
            committed: self.committed,
        }
    }
}

impl SwitchSelection {
    #[verifier::type_invariant]
    closed spec fn selection_in_range(self) -> bool {
        &&& self.len <= i64::MAX
        &&& (self.len == 0 || self.index < self.len)
    }

    pub fn new(direction: i8) -> (selection: Self)
        ensures
            selection@ == (SelectionState {
                len: 0,
                index: 0,
                pending_steps: direction as i64,
                released: false,
                committed: false,
            }),
    {
        SwitchSelection {
            len: 0,
            index: 0,
            pending_steps: direction as i64,
            released: false,
            committed: false,
        }
    }

    pub fn install(&mut self, len: usize, anchor: Option<usize>)
        requires
            install_fits(old(self)@, len, anchor),
        ensures
            final(self)@ == install_spec(old(self)@, len, anchor),
    {
        proof {
            use_type_invariant(&*self);
        }
        if self.len != 0 || len == 0 {
            return;
        }
        let start: usize = match anchor {
            Some(index) if index < len => index,
            _ => if self.pending_steps > 0 {
                len - 1
            } else {
                0
            },
        };
        let modulus = len as i64;
        let offset = match self.pending_steps.checked_rem_euclid(modulus) {
            Some(offset) => offset,
            None => 0,
        };
        let total = start as i64 + offset;
        let index = match total.checked_rem_euclid(modulus) {
            Some(index) => index,
            None => 0,
        };
        *self = SwitchSelection {
            len,
            index: index as usize,
            pending_steps: 0,
            released: self.released,
            committed: self.committed,
        };
    }

    pub fn step(&mut self, direction: i8)
        requires
            old(self)@.len == 0 || old(self)@.index + direction <= i64::MAX,
        ensures
            final(self)@ == step_spec(old(self)@, direction),
    {
        proof {
            use_type_invariant(&*self);
        }
        if self.len == 0 {
            let step = direction as i64;
            self.pending_steps = if step > 0 && self.pending_steps > i64::MAX - step {
                i64::MAX
            } else if step < 0 && self.pending_steps < i64::MIN - step {
                i64::MIN
            } else {
                self.pending_steps + step
            };
        } else {
            let modulus = self.len as i64;
            let total = self.index as i64 + direction as i64;
            let index = match total.checked_rem_euclid(modulus) {
                Some(index) => index,
                None => 0,
            };
            self.index = index as usize;
        }
    }

    pub fn selected(&self) -> (selected: Option<usize>)
        ensures
            selected == (if self@.len > 0 {
                Some(self@.index)
            } else {
                None
            }),
            selected matches Some(i) ==> i < self@.len,
    {
        proof {
            use_type_invariant(self);
        }
        if self.len > 0 {
            Some(self.index)
        } else {
            None
        }
    }

    pub fn select(&mut self, index: usize)
        ensures
            final(self)@ == select_spec(old(self)@, index),
    {
        proof {
            use_type_invariant(&*self);
        }
        if index < self.len {
            self.index = index;
        }
    }

    pub fn release(&mut self)
        ensures
            final(self)@ == (SelectionState { released: true, ..old(self)@ }),
    {
        proof {
            use_type_invariant(&*self);
        }
        self.released = true;
    }

    pub fn released(&self) -> (released: bool)
        ensures
            released == self@.released,
    {
        self.released
    }

    pub fn take_commit(&mut self) -> (commit: Option<usize>)
        ensures
            (final(self)@, commit) == take_commit_spec(old(self)@),
            commit matches Some(i) ==> i < old(self)@.len,
    {
        proof {
            use_type_invariant(&*self);
        }
        if self.released && !self.committed && self.len > 0 {
            self.committed = true;
            Some(self.index)
        } else {
            None
        }
    }
}

} // verus!
