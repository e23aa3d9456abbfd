use supergravity::approvals::{ApprovalBroker, ExternalPolicy, Gate};
use supergravity::error::Error;
use supergravity::json::{parse, Json};
use supergravity::types::{AgentEvent, ApprovalMode};

fn shop() -> Option<String> {
    Some("/shop".to_string())
}

#[test]
fn should_prompt_rules() {
    let mut broker = ApprovalBroker::new(ApprovalMode::Manual);
    let shop = shop();
    let w = "/shop";
    let outside = r#"{"path":"/etc/x"}"#;
    // Full workshop access (default): files, python, and cwd-scoped shell run free.
    assert!(!broker.should_prompt("write_external_file", &format!(r#"{{"path":"{w}/a.py"}}"#), &shop));
    assert!(!broker.should_prompt("run_shell", &format!(r#"{{"command":"python {w}/a.py"}}"#), &shop));
    assert!(!broker.should_prompt(
        "run_shell",
        &format!(r#"{{"command":"pip install black", "cwd":"{w}"}}"#),
        &shop
    ));
    // Chained python command does NOT count as a single invocation, but is
    // still covered if cwd is the workshop — without cwd it prompts.
    assert!(broker.should_prompt(
        "run_shell",
        &format!(r#"{{"command":"python {w}/a.py && echo hi"}}"#),
        &shop
    ));
    // External tools prompt under the default Ask policy…
    assert!(broker.should_prompt("write_external_file", outside, &shop));
    // …and not under Allow.
    broker.set_permissions(ExternalPolicy::Allow, true, false, false);
    assert!(!broker.should_prompt("write_external_file", outside, &shop));
    // Project per-type policies.
    broker.set_permissions(ExternalPolicy::Ask, true, false, false);
    assert!(broker.should_prompt("write_file", r#"{"path":"src/a"}"#, &shop));
    assert!(broker.should_prompt("run_shell", r#"{"command":"cargo build"}"#, &shop));
    broker.set_permissions(ExternalPolicy::Ask, true, true, true);
    assert!(!broker.should_prompt("write_file", r#"{"path":"src/a"}"#, &shop));
    assert!(!broker.should_prompt("run_shell", r#"{"command":"cargo build"}"#, &shop));
    // Full workshop access OFF: workshop paths follow project rules.
    broker.set_permissions(ExternalPolicy::Ask, false, false, false);
    assert!(broker.should_prompt("run_shell", &format!(r#"{{"command":"python {w}/a.py"}}"#), &shop));
    assert!(broker.should_prompt("write_file", &format!(r#"{{"path":"{w}/a.py"}}"#), &shop));
}

#[test]
fn auto_mode_approves_immediately_without_event() {
    let mut broker = ApprovalBroker::new(ApprovalMode::Auto);
    assert!(matches!(broker.check("call1", "write_file", "{}", &None), Gate::Allowed));
}

fn ask(g: Gate) -> (String, AgentEvent) {
    match g {
        Gate::Ask { request_id, event } => (request_id, event),
        Gate::Allowed => panic!("expected a question"),
    }
}

#[test]
fn always_ask_tools_prompt_even_in_auto_mode() {
    let mut broker = ApprovalBroker::new(ApprovalMode::Auto);
    let (request_id, ev) =
        ask(broker.check("call1", "list_external_dir", r#"{"path":"B:\\x"}"#, &None));
    match ev {
        AgentEvent::ApprovalRequested { request_id: r, name, .. } => {
            assert_eq!(name, "list_external_dir");
            assert_eq!(r, request_id);
        }
        other => panic!("expected ApprovalRequested, got {other:?}"),
    }
    assert!(broker.resolve(&request_id, true).unwrap());
}

#[test]
fn manual_mode_emits_request_and_waits_for_allow() {
    let mut broker = ApprovalBroker::new(ApprovalMode::Manual);
    let (request_id, ev) =
        ask(broker.check("call1", "run_shell", "{\"command\":\"ls\"}", &None));
    assert_eq!(
        ev,
        AgentEvent::ApprovalRequested {
            request_id: request_id.clone(),
            tool_call_id: "call1".into(),
            name: "run_shell".into(),
            args_json: "{\"command\":\"ls\"}".into(),
        }
    );
    assert!(broker.resolve(&request_id, true).unwrap());
    assert!(broker.resolve(&request_id, true).is_err(), "a request is resolved once");
}

#[test]
fn manual_mode_deny_returns_false() {
    let mut broker = ApprovalBroker::new(ApprovalMode::Manual);
    let (request_id, _) = ask(broker.check("c", "write_file", "{}", &None));
    assert!(!broker.resolve(&request_id, false).unwrap());
}

#[test]
fn resolve_unknown_request_errors() {
    let mut broker = ApprovalBroker::new(ApprovalMode::Manual);
    match broker.resolve("nope", true) {
        Err(Error::Tool(m)) => assert_eq!(m, "unknown approval request: nope"),
        other => panic!("{other:?}"),
    }
}

#[test]
fn mode_switch_takes_effect_on_next_check() {
    let mut broker = ApprovalBroker::new(ApprovalMode::Manual);
    assert_eq!(broker.mode(), ApprovalMode::Manual);
    broker.set_mode(ApprovalMode::Auto);
    assert_eq!(broker.mode(), ApprovalMode::Auto);
    assert!(matches!(broker.check("c", "write_file", "{}", &None), Gate::Allowed));
}

#[test]
fn resolving_leaves_other_requests() {
    let mut broker = ApprovalBroker::new(ApprovalMode::Manual);
    broker.add_request("a");
    broker.add_request("b");
    broker.add_request("a");
    assert!(broker.resolve("a", true).is_ok());
    assert!(broker.resolve("a", true).is_err());
    assert!(broker.resolve("b", true).is_ok());
}

#[test]
fn policy_words() {
    assert_eq!(ExternalPolicy::from_config(Some("allow")), ExternalPolicy::Allow);
    assert_eq!(ExternalPolicy::from_config(Some("block")), ExternalPolicy::Block);
    assert_eq!(ExternalPolicy::from_config(Some("ask")), ExternalPolicy::Ask);
    assert_eq!(ExternalPolicy::from_config(Some("Allow")), ExternalPolicy::Ask);
    assert_eq!(ExternalPolicy::from_config(None), ExternalPolicy::Ask);
    let broker = ApprovalBroker::new(ApprovalMode::Manual);
    assert_eq!(broker.external_policy(), ExternalPolicy::Ask);
}

#[test]
fn allowed_external_tools_pass_in_every_mode() {
    for mode in [ApprovalMode::Auto, ApprovalMode::Manual] {
        let mut broker = ApprovalBroker::new(mode);
        broker.set_permissions(ExternalPolicy::Allow, true, false, false);
        assert!(matches!(
            broker.check("c", "read_external_file", r#"{"path":"/x"}"#, &shop()),
            Gate::Allowed
        ));
    }
}

#[test]
fn relative_paths_and_other_commands_are_not_in_the_workshop() {
    let broker = ApprovalBroker::new(ApprovalMode::Manual);
    let prompts = |name: &str, args: &str| broker.prompts_for(name, parse(args).ok().as_ref(), &shop());
    assert!(prompts("write_file", r#"{"path":"a.py"}"#));
    assert!(prompts("write_file", r#"{"path":"/shop/../etc/x"}"#));
    assert!(!prompts("write_file", r#"{"path":"/shop/./x"}"#));
    assert!(prompts("run_shell", r#"{"command":"ruby /shop/a.rb"}"#));
    assert!(prompts("run_shell", r#"{"command":"python /other/a.py"}"#));
    assert!(prompts("run_shell", r#"{"command":"python /shop/a.py > out"}"#));
    assert!(prompts("run_shell", r#"{"command":"python /shop/$(x).py"}"#));
    assert!(!prompts("run_shell", r#"{"command":"  py \\shop\\a.py"}"#));
    assert!(prompts("run_shell", "not json"));
    assert!(prompts("anything", "{}"));
}

#[test]
fn only_one_script_inside_the_workshop_runs_free() {
    let mut broker = ApprovalBroker::new(ApprovalMode::Manual);
    let prompts = |b: &ApprovalBroker, cmd: &str| {
        let args = Json::object().with("command", Json::str(cmd));
        b.prompts_for("run_shell", Some(&args), &shop())
    };
    assert!(!prompts(&broker, "python /shop/a.py"));
    assert!(!prompts(&broker, "python3 \t /shop/sub/a.py --flag x"));
    for cmd in [
        "python /shop2/a.py",
        "python /etc/a.py /shop",
        "python /shop/../etc/a.py",
        "python shop/a.py",
        "python ",
        "python /shop/a.py & echo hi",
        "python /shop/a.py\necho hi",
        "python /shop/a.py\recho hi",
        "python /shop/a.py; echo hi",
        "python /shop/a.py | cat",
    ] {
        assert!(prompts(&broker, cmd), "{cmd:?}");
    }
    broker.set_workshop_python(false);
    assert!(prompts(&broker, "python /shop/a.py"));
    let args = parse(r#"{"command":"python a.py","cwd":"/shop"}"#).unwrap();
    assert!(!broker.prompts_for("run_shell", Some(&args), &shop()));
}
