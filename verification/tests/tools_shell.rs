use supergravity::error::Error;
use supergravity::tools::shell::{
    cannot_spawn, report, report_text, timed_out, timeout_secs, RunShellTool,
};

#[test]
fn runs_command_and_captures_output() {
    let out = report("echo hello-sg", true, Some(0), b"hello-sg\n", b"").unwrap();
    assert!(out.contains("hello-sg"), "{out}");
    assert_eq!(out, "[output of run_shell \"echo hello-sg\" — exit code 0]\nhello-sg\n");
}

#[test]
fn reports_nonzero_exit() {
    let err = report("exit 3", false, Some(3), b"", b"").unwrap_err().message();
    assert!(err.contains("exit code"), "{err}");
    assert_eq!(err, "tool error: [run_shell \"exit 3\" failed — exit code 3]\n");
}

#[test]
fn times_out_and_kills() {
    let err = timed_out("sleep 5", timeout_secs(Some(1))).message();
    assert!(err.contains("timed out"), "{err}");
    assert_eq!(err, "tool error: [run_shell \"sleep 5\" timed out after 1s and was killed]");
}

#[test]
fn needs_approval() {
    assert!(RunShellTool.needs_approval());
}

#[test]
fn timeouts_are_bounded() {
    assert_eq!(timeout_secs(None), 60);
    assert_eq!(timeout_secs(Some(0)), 1);
    assert_eq!(timeout_secs(Some(299)), 299);
    assert_eq!(timeout_secs(Some(u64::MAX)), 300);
}

#[test]
fn errors_of_a_command_stand_under_a_heading() {
    let out = report("x", true, Some(0), b"o", b"\xff").unwrap();
    assert_eq!(out, "[output of run_shell \"x\" — exit code 0]\no\n[stderr]\n\u{FFFD}");
    let err = report("x", false, None, b"", b"e").unwrap_err().message();
    assert_eq!(err, "tool error: [run_shell \"x\" failed — exit code -1]\n[stderr]\ne");
    let none = report("x", true, Some(0), b"", b"").unwrap();
    assert_eq!(none, "[output of run_shell \"x\" — exit code 0, no output]");
}

#[test]
fn long_output_is_cut() {
    let out = report_text("x", true, Some(0), &"y".repeat(51201)).unwrap();
    assert!(out.ends_with("y\n…[truncated 1 bytes]"));
    match cannot_spawn("/ws", "gone") {
        Error::Tool(m) => assert_eq!(m, "cannot spawn in workspace root /ws: gone"),
        other => panic!("{other:?}"),
    }
}
