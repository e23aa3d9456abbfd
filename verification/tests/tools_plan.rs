use supergravity::error::Error;
use supergravity::tools::plan::{update_plan, Step, UpdatePlanTool};

fn step(text: &str, status: &str) -> Step {
    Step { text: text.into(), status: status.into() }
}

#[test]
fn accepts_valid_plan() {
    let out = update_plan(&vec![step("a", "in_progress"), step("b", "pending")]).unwrap();
    assert!(out.contains("2 steps"), "{out}");
    assert_eq!(out, "plan updated: 2 steps");
}

#[test]
fn rejects_empty_and_bad_status() {
    assert!(update_plan(&vec![]).is_err());
    assert!(update_plan(&vec![step("a", "doing")]).is_err());
    assert!(update_plan(&vec![step(" ", "done")]).is_err());
}

#[test]
fn needs_no_approval() {
    assert!(!UpdatePlanTool.needs_approval());
}

#[test]
fn the_first_bad_step_is_reported() {
    let message = |steps: Vec<Step>| match update_plan(&steps) {
        Err(Error::Tool(m)) => m,
        other => panic!("{other:?}"),
    };
    assert_eq!(message(vec![]), "steps must not be empty");
    assert_eq!(
        message(vec![step("ok", "done"), step("\t", "bad"), step("x", "bad")]),
        "step text must not be empty"
    );
    assert_eq!(
        message(vec![step("x", "doing"), step("", "done")]),
        "unknown step status: doing (use pending | in_progress | done)"
    );
}
