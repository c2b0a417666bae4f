use winlane::environment::{is_transient_codex_variable, launched_from_codex};

#[test]
fn only_codex_and_terminal_context_is_transient() {
    for name in [
        "CODEX_SHELL",
        "CODEX_THREAD_ID",
        "NO_COLOR",
        "TERM",
        "COLORTERM",
    ] {
        assert!(is_transient_codex_variable(name), "{name}");
    }
    for name in ["PATH", "HOME", "SHELL", "NO_COLOUR", "CODEX"] {
        assert!(!is_transient_codex_variable(name), "{name}");
    }
}

#[test]
fn codex_prefix_alone_is_transient() {
    assert!(is_transient_codex_variable("CODEX_"));
    assert!(!is_transient_codex_variable("codex_shell"));
    assert!(!is_transient_codex_variable("XCODEX_SHELL"));
    assert!(!is_transient_codex_variable(""));
}

#[test]
fn originator_override_marks_codex_launch() {
    assert!(launched_from_codex(Some("Codex"), false, false, false));
    assert!(!launched_from_codex(Some("codex"), false, false, false));
    assert!(!launched_from_codex(Some("Codex "), false, false, false));
    assert!(!launched_from_codex(None, false, false, false));
}

#[test]
fn shell_needs_thread_or_session() {
    assert!(launched_from_codex(None, true, true, false));
    assert!(launched_from_codex(None, true, false, true));
    assert!(!launched_from_codex(None, true, false, false));
    assert!(!launched_from_codex(None, false, true, true));
}
