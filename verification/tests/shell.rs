use ratto::duration::brief_duration;
use ratto::registry::{EmptyShellName, ShellMode};
use ratto::shell::{
    classify_value, command_flags, echo, interpreter_name, platform_flags, platform_shell, refusal, retain_chunk,
    shell_invocation, trim_value, exit_stderr, DerivationFailure, VALUE_CAP,
};
use ratto::template::MissingVariable;

/// The bound a derivation waits for, in whole milliseconds.
const DERIVE_TIMEOUT_MS: u128 = 5_000;

fn os_error_text(code: i32) -> String {
    std::io::Error::from_raw_os_error(code).to_string()
}

#[test]
fn a_trailing_newline_is_trimmed_and_nothing_else_is() {
    for (raw, want) in [
        ("/some/path\n", "/some/path"),
        ("/some/path\r\n", "/some/path"),
        ("/some/path\n\n\n", "/some/path"),
        ("  spaced  ", "  spaced  "),
        ("line one\nline two\n", "line one\nline two"),
        ("line one\r\nline two\r\n", "line one\r\nline two"),
    ] {
        assert_eq!(trim_value(raw), want, "{raw:?}");
    }
    assert!(matches!(classify_value(Vec::new(), true), Err(DerivationFailure::Truncated { .. })));
    assert!(matches!(classify_value(Vec::new(), false), Err(DerivationFailure::Empty)));
    assert!(matches!(classify_value(b"   \n".to_vec(), false), Err(DerivationFailure::Empty)));
}

#[test]
fn a_variable_wanting_another_shell_names_it_itself() {
    let (program, flags) = shell_invocation(&ShellMode::Named("fish".into())).expect("a shell");
    assert_eq!(program, "fish");
    assert_eq!(flags, ["-c"]);
    let (program, flags) = shell_invocation(&ShellMode::Platform).expect("a shell");
    assert_eq!(program, platform_shell());
    assert_eq!(flags, platform_flags());
}

#[test]
fn a_nonzero_exit_names_the_variable_the_code_and_the_command() {
    let text = refusal(
        "store",
        "exit 128",
        &DerivationFailure::Exit { code: Some(128), stderr: "fatal: not a git repository\n".into() },
    );
    assert!(text.contains(r#"variable "store""#), "{text}");
    assert!(text.contains("128"), "{text}");
    assert!(text.contains("exit 128"), "{text}");
    assert!(text.contains("fatal: not a git repository"), "{text}");
    assert!(text.contains("||"), "{text}");

    let text = refusal("store", "exit 128", &DerivationFailure::Exit { code: None, stderr: String::new() });
    assert!(text.contains("signal"), "{text}");
}

#[test]
fn empty_output_explains_the_masking_it_prevents() {
    let text = refusal("store", "true", &DerivationFailure::Empty);
    assert!(text.contains(r#"variable "store""#), "{text}");
    assert!(text.contains("printed nothing"), "{text}");
    assert!(text.contains("||"), "{text}");
    assert!(text.contains("plausible"), "carries the rationale: {text}");
    assert!(matches!(classify_value(b"   \n".to_vec(), false), Err(DerivationFailure::Empty)));
}

#[test]
fn a_spawn_failure_names_the_shell_not_the_command() {
    let text = refusal(
        "store",
        "git rev-parse --git-common-dir",
        &DerivationFailure::Spawn { program: "definitely-not-a-shell".into(), reason: os_error_text(2) },
    );
    assert!(text.contains(r#"variable "store""#), "{text}");
    assert!(text.contains("definitely-not-a-shell"), "{text}");
    assert!(text.contains("os error"), "{text}");
    assert!(!text.contains("git rev-parse"), "{text}");
}

#[test]
fn a_timeout_names_the_variable_and_the_bound() {
    let text = refusal("store", "some-slow-thing", &DerivationFailure::Timeout(DERIVE_TIMEOUT_MS));
    assert!(text.contains(r#"variable "store""#), "{text}");
    assert!(text.contains("5s"), "{text}");
    assert!(!text.contains("5.0s"), "{text}");
    assert!(text.contains("before the first frame"), "{text}");
    assert!(!text.contains("defer"), "{text}");
}

#[test]
fn a_dialect_that_expanded_to_nothing_names_the_variable_and_the_shell_reference() {
    let text = refusal(
        "store",
        "git rev-parse --git-common-dir",
        &DerivationFailure::EmptyShell(EmptyShellName { declared: "{{d}}".into() }),
    );
    assert!(text.contains(r#"variable "store""#), "{text}");
    assert!(text.contains("shell"), "{text}");
    assert!(text.contains("{{d}}"), "{text}");
}

#[test]
fn output_that_overflows_its_bound_is_a_loud_failure() {
    let text = refusal("listing", "find /", &DerivationFailure::Truncated { cap: VALUE_CAP });
    assert!(text.contains(r#"variable "listing""#), "{text}");
    assert!(text.contains("head -1"), "{text}");
}

#[test]
fn every_failure_variant_names_its_variable() {
    let all = [
        DerivationFailure::Expansion(MissingVariable { name: "x".into() }),
        DerivationFailure::EmptyShell(EmptyShellName { declared: "{{d}}".into() }),
        DerivationFailure::Spawn { program: "sh".into(), reason: os_error_text(2) },
        DerivationFailure::Exit { code: Some(1), stderr: String::new() },
        DerivationFailure::Truncated { cap: 1 },
        DerivationFailure::Empty,
        DerivationFailure::Timeout(5_000),
    ];
    for failure in all {
        match &failure {
            DerivationFailure::Expansion(_)
            | DerivationFailure::EmptyShell(_)
            | DerivationFailure::Spawn { .. }
            | DerivationFailure::Exit { .. }
            | DerivationFailure::Truncated { .. }
            | DerivationFailure::Empty
            | DerivationFailure::Timeout(_) => {}
        }
        let text = refusal("the-name", "cmd", &failure);
        assert!(text.contains(r#"variable "the-name""#), "{} → {text}", failure.message());
    }
}

#[test]
fn the_dialect_table_reads_the_file_name_case_blind() {
    assert_eq!(command_flags("cmd"), ["/C"]);
    assert_eq!(command_flags("C:/Windows/System32/CMD.EXE"), ["/C"]);
    assert_eq!(command_flags("pwsh.exe"), ["-NoProfile", "-Command"]);
    assert_eq!(command_flags("/usr/bin/powershell"), ["-NoProfile", "-Command"]);
    assert_eq!(command_flags("/bin/bash"), ["-c"]);
    // Only `.exe` is stripped: a wrapper script keeps its own row.
    assert_eq!(interpreter_name("/opt/cmd.sh"), "cmd.sh");
    assert_eq!(command_flags("/opt/cmd.sh"), ["-c"]);
    assert_eq!(interpreter_name("/usr/local/bin/FISH"), "fish");
    assert_eq!(interpreter_name(""), "");
}

#[test]
fn the_echo_indents_each_line_and_drops_a_silent_stderr() {
    assert_eq!(echo(""), "");
    assert_eq!(echo("  \n"), "");
    assert_eq!(echo("one\r\ntwo\n"), "\n  the command's own diagnostic:\n    one\n    two");
    assert_eq!(exit_stderr(&vec![b"first".to_vec(), b"second".to_vec()]), "first\nsecond");
    assert_eq!(exit_stderr(&vec![vec![0xff]]), "\u{fffd}");
}

#[test]
fn a_pipe_is_kept_whole_or_flagged_never_cut() {
    let mut out = Vec::new();
    let mut truncated = false;
    retain_chunk(&mut out, &mut truncated, b"abc", 5);
    assert_eq!(out, b"abc");
    assert!(!truncated);
    retain_chunk(&mut out, &mut truncated, b"def", 5);
    assert!(out.is_empty());
    assert!(truncated);
    retain_chunk(&mut out, &mut truncated, b"g", 5);
    assert!(out.is_empty());
    assert!(truncated);
}

#[test]
fn a_bound_reads_in_whole_seconds_when_it_can() {
    assert_eq!(brief_duration(5_000), "5s");
    assert_eq!(brief_duration(300), "300ms");
    assert_eq!(brief_duration(1_500), "1500ms");
    assert_eq!(brief_duration(0), "0s");
}

#[test]
fn the_short_account_names_each_failure() {
    assert_eq!(DerivationFailure::Empty.message(), "the command printed nothing");
    assert_eq!(
        DerivationFailure::Exit { code: Some(-1), stderr: "x".into() }.message(),
        "the command exited with status -1: x"
    );
    assert_eq!(DerivationFailure::Truncated { cap: 3 }.message(), "the command printed more than 3 bytes");
}

#[test]
fn a_file_names_dialect_key_is_lowercased_with_exe_dropped() {
    assert_eq!(ratto::shell::key_of_file_name(Some("PwSh.EXE")), "pwsh.exe".trim_end_matches(".exe"));
    assert_eq!(ratto::shell::key_of_file_name(Some("cmd.sh")), "cmd.sh");
    assert_eq!(ratto::shell::key_of_file_name(None), "");
    assert_eq!(ratto::shell::key_flags("cmd"), ["/C"]);
}
