//! Which environment variables of a launch from the Codex agent are removed
//! before the app starts.

use crate::text::{chars_of, has_prefix, same_chars};
use vstd::prelude::*;

verus! {

/// Variables that describe the agent's terminal session rather than the
/// user's environment.
pub open spec fn transient_codex_variable(name: Seq<char>) -> bool {
    ||| crate::text::starts_with(name, "CODEX_"@)
    ||| name == "NO_COLOR"@
    ||| name == "TERM"@
    ||| name == "COLORTERM"@
}

pub fn is_transient_codex_variable(name: &str) -> (transient: bool)
    ensures
        transient == transient_codex_variable(name@),
{
    let n = chars_of(name);
    has_prefix(&n, &chars_of("CODEX_")) || same_chars(&n, &chars_of("NO_COLOR")) || same_chars(
        &n,
        &chars_of("TERM"),
    ) || same_chars(&n, &chars_of("COLORTERM"))
}

/// The app was started by the Codex agent: the originator override names
/// Codex, or a Codex shell variable is set together with a thread or session
/// variable.
pub open spec fn codex_launch(originator: Option<Seq<char>>, shell: bool, thread: bool, session: bool) -> bool {
    originator == Some("Codex"@) || (shell && (thread || session))
}

/// Decides from the values of `CODEX_INTERNAL_ORIGINATOR_OVERRIDE` (when set
/// and valid Unicode) and the presence of `CODEX_SHELL`, `CODEX_THREAD_ID`
/// and `CODEX_SESSION_ID` whether the app was launched from Codex.
pub fn launched_from_codex(originator: Option<&str>, shell: bool, thread: bool, session: bool) -> (r: bool)
    ensures
        r == codex_launch(
            match originator {
                Some(o) => Some(o@),
                None => None,
            },
            shell,
            thread,
            session,
        ),
{
    let named = match originator {
        Some(o) => same_chars(&chars_of(o), &chars_of("Codex")),
        None => false,
    };
    named || (shell && (thread || session))
}

} // verus!
