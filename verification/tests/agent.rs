use supergravity::agent::{
    detect_text_tool_call, system_prompt, AgentLoop, AgentOutcome, BackupCtx, Decision, Phase,
};
use supergravity::approvals::{ApprovalBroker, Gate};
use supergravity::error::Error;
use supergravity::json::{parse, render};
use supergravity::providers::mock::MockProvider;
use supergravity::tools::{default_tools, ToolInfo};
use supergravity::types::{AgentEvent, ApprovalMode, ChatEvent, ContentPart, Message, Role, ToolSpec};

fn tool(name: &str, needs_approval: bool) -> ToolInfo {
    ToolInfo {
        spec: ToolSpec {
            name: name.into(),
            description: "echo args".into(),
            params_schema: parse(r#"{"type":"object"}"#).unwrap(),
        },
        needs_approval,
    }
}

struct Run {
    script: Vec<Vec<Result<ChatEvent, Error>>>,
    mode: ApprovalMode,
    tools: Vec<ToolInfo>,
    max_iterations: usize,
    /// Whether the run is cancelled from the start.
    cancelled: bool,
    /// What the user decides; none cancels the run.
    allow: Option<bool>,
}

fn run_args(script: Vec<Vec<Result<ChatEvent, Error>>>, tools: Vec<ToolInfo>) -> Run {
    Run { script, mode: ApprovalMode::Auto, tools, max_iterations: 5, cancelled: false, allow: Some(true) }
}

/// Drives a run: the tool `echo` answers with its arguments, the tool `sleep` is cancelled.
fn run_agent(args: Run) -> (AgentOutcome, Vec<AgentEvent>, MockProvider, Vec<(String, String)>) {
    let mut provider = MockProvider::new(args.script);
    let mut broker = ApprovalBroker::new(args.mode);
    let history = vec![Message::text(Role::User, "go")];
    let mut run =
        AgentLoop::new("/ws", broker.mode(), &history, args.tools, args.max_iterations);
    let mut events = vec![];
    let mut backups = vec![];
    let mut items = vec![].into_iter();
    loop {
        match run.phase() {
            Phase::Turn => events.extend(run.begin_turn(args.cancelled)),
            Phase::Stream => {
                let specs: Vec<ToolSpec> = run
                    .tools()
                    .iter()
                    .map(|t| ToolSpec {
                        name: t.spec.name.clone(),
                        description: t.spec.description.clone(),
                        params_schema: t.spec.params_schema.copy(),
                    })
                    .collect();
                match provider.stream_chat("m", run.messages(), &specs) {
                    Ok(turn) => {
                        items = turn.into_iter();
                        run.opened();
                    }
                    Err(e) => events.extend(run.fail(e)),
                }
            }
            Phase::Items => match items.next() {
                Some(item) => events.extend(run.on_item(false, item)),
                None => run.end_of_stream(),
            },
            Phase::Answered => events.extend(run.end_turn()),
            Phase::Call => events.extend(run.next_call(false)),
            Phase::Approval => {
                let (id, name, args_json) = {
                    let c = run.current();
                    (c.id.clone(), c.name.clone(), c.args_json.clone())
                };
                let decision = match broker.check(&id, &name, &args_json, &None) {
                    Gate::Allowed => Decision::Allow,
                    Gate::Ask { request_id, event } => {
                        events.push(event);
                        match args.allow {
                            Some(allow) => {
                                if broker.resolve(&request_id, allow).unwrap() {
                                    Decision::Allow
                                } else {
                                    Decision::Deny
                                }
                            }
                            None => Decision::Cancelled,
                        }
                    }
                };
                events.extend(run.on_decision(decision));
            }
            Phase::Execute => {
                if run.wants_backup() {
                    backups.extend(BackupCtx::target("/ws", &run.current().args_json));
                }
                let outcome = match run.current().name.as_str() {
                    "echo" => Some(Ok(format!("echoed: {}", run.current().args_json))),
                    "sleep" => None,
                    "fail" => Some(Err(Error::Tool("broken".into()))),
                    _ => Some(Ok("done".into())),
                };
                events.extend(run.on_result(outcome));
            }
            Phase::Over => break,
        }
    }
    let outcome = run.outcome();
    let closing = |e: &AgentEvent| {
        matches!(e, AgentEvent::MessageDone | AgentEvent::Error(_) | AgentEvent::Cancelled)
    };
    assert_eq!(events.iter().filter(|e| closing(e)).count(), 1, "{events:?}");
    assert!(closing(events.last().unwrap()));
    for (i, m) in outcome.produced.iter().enumerate() {
        assert_eq!(m.role, if i % 2 == 0 { Role::Assistant } else { Role::Tool });
    }
    for c in &provider.calls {
        assert_eq!(c.messages[0], provider.calls[0].messages[0]);
        assert!(c.tools.iter().zip(&provider.calls[0].tools).all(|(a, b)| {
            a.name == b.name
                && a.description == b.description
                && render(&a.params_schema) == render(&b.params_schema)
        }));
    }
    (outcome, events, provider, backups)
}

fn call(id: &str, name: &str, args: &str) -> Result<ChatEvent, Error> {
    Ok(ChatEvent::ToolCall { id: id.into(), name: name.into(), args_json: args.into() })
}

fn say(t: &str) -> Result<ChatEvent, Error> {
    Ok(ChatEvent::TextDelta(t.into()))
}

fn done() -> Result<ChatEvent, Error> {
    Ok(ChatEvent::Done)
}

fn result(id: &str, content: &str, is_error: bool) -> ContentPart {
    ContentPart::ToolResult { tool_call_id: id.into(), content: content.into(), is_error }
}

#[test]
fn write_file_records_checkpoint_backup() {
    let script = vec![
        vec![call("c1", "write_file", r#"{"path":"a.txt","content":"changed"}"#), done()],
        vec![say("ok"), done()],
    ];
    let (outcome, _, _, backups) = run_agent(run_args(script, default_tools()));
    assert!(outcome.error.is_none(), "{:?}", outcome.error);
    assert_eq!(backups, vec![("a.txt".to_string(), "/ws/a.txt".to_string())]);
}

#[test]
fn backups_stay_in_the_workspace() {
    assert_eq!(BackupCtx::target("/ws", r#"{"path":"../a"}"#), None);
    assert_eq!(BackupCtx::target("/ws", "{}"), None);
    assert_eq!(BackupCtx::target("/ws", "broken"), None);
}

#[test]
fn text_only_turn() {
    let script = vec![vec![say("hi "), say("there"), done()]];
    let (result, events, _, _) = run_agent(run_args(script, vec![]));
    let msgs = result.produced;
    assert_eq!(msgs.len(), 1);
    assert_eq!(msgs[0].role, Role::Assistant);
    assert_eq!(msgs[0].parts, vec![ContentPart::Text { text: "hi there".into() }]);
    assert!(events.contains(&AgentEvent::TextDelta("hi ".into())));
    assert!(events.contains(&AgentEvent::MessageDone));
}

fn echo() -> Vec<String> {
    vec!["echo".to_string()]
}

#[test]
fn detect_finds_json_tool_call() {
    let text = "Sure! {\"tool\": \"echo\", \"arguments\": {\"a\": 1}} done.";
    assert_eq!(
        detect_text_tool_call(text, &echo()),
        Some(("echo".to_string(), "{\"a\":1}".to_string()))
    );
}

#[test]
fn detect_accepts_name_variant_and_defaults_args() {
    let text = "<tool_call>\n{\"name\": \"echo\", \"arguments\": {\"x\": true}}\n</tool_call>";
    assert_eq!(
        detect_text_tool_call(text, &echo()),
        Some(("echo".to_string(), "{\"x\":true}".to_string()))
    );
    let no_args = "{\"tool\": \"echo\"}";
    assert_eq!(
        detect_text_tool_call(no_args, &echo()),
        Some(("echo".to_string(), "{}".to_string()))
    );
}

#[test]
fn detect_rejects_unknown_tool_and_non_tool_json() {
    let e = echo();
    assert_eq!(detect_text_tool_call("{\"tool\": \"nope\", \"arguments\": {}}", &e), None);
    assert_eq!(detect_text_tool_call("{\"name\": \"config.json\", \"version\": 2}", &e), None);
    assert_eq!(detect_text_tool_call("no json at all", &e), None);
    assert_eq!(detect_text_tool_call("{\"broken", &e), None);
}

#[test]
fn detect_looks_inside_and_wants_an_object() {
    let e = echo();
    assert_eq!(
        detect_text_tool_call("é {\"x\": {\"tool\": \"echo\", \"args\": {\"b\": []}}}", &e),
        Some(("echo".to_string(), "{\"b\":[]}".to_string()))
    );
    assert_eq!(detect_text_tool_call("{\"tool\": \"echo\", \"parameters\": [1]}", &e), None);
    assert_eq!(detect_text_tool_call("{\"tool\": 1, \"name\": \"echo\"}", &e), None);
}

#[test]
fn repair_executes_text_tool_call_and_continues() {
    // Model answers with a text-formatted tool call (no native tool_calls),
    // then a follow-up turn answers in text.
    let script = vec![
        vec![say("Let me do that. {\"tool\": \"echo\", \"arguments\": {\"a\": 1}}"), done()],
        vec![say("done!"), done()],
    ];
    let (outcome, events, provider, _) = run_agent(run_args(script, vec![tool("echo", false)]));
    let msgs = outcome.produced;
    assert_eq!(msgs.len(), 3, "assistant(call) + tool result + assistant(final): {msgs:?}");
    // The assistant message carries a repaired ToolCall part.
    let id = match &msgs[0].parts[1] {
        ContentPart::ToolCall { id, name, args_json } => {
            assert!(id.starts_with("repair-"), "{id}");
            assert_eq!(name, "echo");
            assert_eq!(args_json, "{\"a\":1}");
            id.clone()
        }
        other => panic!("expected repaired tool call, got {other:?}"),
    };
    assert_eq!(msgs[1].parts, vec![result(&id, "echoed: {\"a\":1}", false)]);
    // Second provider call happened (loop continued) with the tool result in history.
    assert_eq!(provider.calls.len(), 2);
    assert!(events
        .iter()
        .any(|e| matches!(e, AgentEvent::ToolCallProposed { name, .. } if name == "echo")));
}

#[test]
fn repair_skips_unknown_tool_name() {
    let script = vec![vec![say("{\"tool\": \"not_a_tool\", \"arguments\": {}}"), done()]];
    let (result, _, provider, _) = run_agent(run_args(script, vec![tool("echo", false)]));
    assert_eq!(result.produced.len(), 1, "plain text answer, no repair");
    assert!(result.error.is_none());
    assert_eq!(provider.calls.len(), 1);
}

#[test]
fn system_prompt_prepended_not_persisted() {
    let script = vec![vec![say("hi"), done()]];
    let (result, _, provider, _) = run_agent(run_args(script, vec![]));
    assert!(result.error.is_none());
    let calls = &provider.calls;
    assert_eq!(
        calls[0].messages[0].role,
        Role::System,
        "first message sent to the provider is the system prompt"
    );
    assert!(
        matches!(calls[0].messages[0].parts[0], ContentPart::Text { .. }),
        "system prompt is a text part"
    );
    assert_eq!(calls[0].messages[1].role, Role::User, "history follows the system prompt");
    assert_eq!(
        result.produced[0].role,
        Role::Assistant,
        "system prompt must not appear in produced messages"
    );
}

#[test]
fn system_prompt_names_root_tools_and_mode() {
    let tools = vec![tool("a", false), tool("b", true)];
    let p = system_prompt("/ws", ApprovalMode::Manual, &tools);
    assert!(p.starts_with(
        "You are Supergravity, a coding agent.\nWorkspace root: /ws\nAvailable tools: a, b.\nHow this works:"
    ));
    assert!(p.ends_with(
        "trivial one-liners.\nFile writes and shell commands require explicit user approval before executing."
    ));
    assert!(p.contains("you call run_shell {\"command\": \"echo hello\"}; a tool message returns \"[output of run_shell \\\"echo hello\\\" — exit code 0]\\nhello\";"));
    let p = system_prompt("/ws", ApprovalMode::Auto, &vec![]);
    assert!(p.ends_with("You may write files and run shell commands without user approval."));
}

#[test]
fn tool_cycle_appends_results_and_continues() {
    let script = vec![
        vec![call("c1", "echo", "{\"a\":1}"), done()],
        vec![say("done!"), done()],
    ];
    let (outcome, events, provider, _) = run_agent(run_args(script, vec![tool("echo", false)]));
    let msgs = outcome.produced;
    assert_eq!(msgs.len(), 3, "assistant(call) + tool result + assistant(final): {msgs:?}");
    assert_eq!(msgs[1].role, Role::Tool);
    assert_eq!(msgs[1].parts, vec![result("c1", "echoed: {\"a\":1}", false)]);
    // second provider call must include the tool result in history
    assert_eq!(provider.calls.len(), 2);
    assert!(provider.calls[1].messages.iter().any(|m| m.role == Role::Tool));
    assert!(events.contains(&AgentEvent::ToolCallProposed {
        tool_call_id: "c1".into(),
        name: "echo".into(),
        args_json: "{\"a\":1}".into()
    }));
    assert!(events.iter().any(|e| matches!(e, AgentEvent::ToolCallFinished { ok: true, .. })));
}

#[test]
fn denied_approval_becomes_error_tool_result() {
    let script = vec![vec![call("c1", "echo", "{}"), done()], vec![say("ok"), done()]];
    let mut args = run_args(script, vec![tool("echo", true)]);
    args.mode = ApprovalMode::Manual;
    args.allow = Some(false);
    let (outcome, events, _, _) = run_agent(args);
    assert!(events.iter().any(|e| matches!(e, AgentEvent::ApprovalRequested { .. })));
    assert_eq!(outcome.produced[1].parts, vec![result("c1", "user denied this action", true)]);
}

#[test]
fn denied_writes_are_reported() {
    let script = vec![vec![call("c", "write_file", "{}"), done()], vec![say("ok"), done()]];
    let mut args = run_args(script, default_tools());
    args.mode = ApprovalMode::Manual;
    args.allow = Some(false);
    let (outcome, events, _, _) = run_agent(args);
    assert!(events.contains(&AgentEvent::ToolCallFinished {
        tool_call_id: "c".into(),
        ok: false,
        summary: "denied by user".into()
    }));
    assert!(outcome.error.is_none());
}

#[test]
fn unknown_tool_is_error_result_not_crash() {
    let script = vec![vec![call("c1", "nope", "{}"), done()], vec![say("recovered"), done()]];
    let (outcome, _, _, _) = run_agent(run_args(script, vec![]));
    match &outcome.produced[1].parts[0] {
        ContentPart::ToolResult { content, is_error, .. } => {
            assert!(is_error);
            assert!(content.contains("unknown tool"), "{content}");
            assert_eq!(content, "unknown tool: nope");
        }
        other => panic!("expected tool result, got {other:?}"),
    }
}

#[test]
fn max_iterations_guard_trips() {
    let script = (0..5).map(|_| vec![call("c", "echo", "{}"), done()]).collect();
    let mut args = run_args(script, vec![tool("echo", false)]);
    args.max_iterations = 2;
    let (outcome, events, provider, _) = run_agent(args);
    assert!(outcome.error.is_some());
    assert!(events.iter().any(|e| matches!(e, AgentEvent::Error(_))));
    assert_eq!(provider.calls.len(), 2);
    assert_eq!(outcome.error.unwrap().message(), "tool error: max iterations (2) reached");
    assert_eq!(outcome.produced.len(), 4);
}

#[test]
fn provider_error_event_aborts() {
    let script = vec![vec![say("partial"), Ok(ChatEvent::Error("overloaded".into()))]];
    let (outcome, events, _, _) = run_agent(run_args(script, vec![]));
    assert!(outcome.error.is_some());
    assert!(events.iter().any(|e| matches!(e, AgentEvent::Error(_))));
    assert!(outcome.produced.is_empty());
}

#[test]
fn provider_failures_end_the_run() {
    let (outcome, events, _, _) = run_agent(run_args(vec![], vec![]));
    assert_eq!(
        events,
        vec![AgentEvent::Error("provider returned status 0: mock script exhausted".into())]
    );
    assert!(matches!(outcome.error, Some(Error::Provider { status: 0, .. })));
    let script = vec![vec![say("x"), Err(Error::Http("reset".into()))]];
    let (outcome, _, _, _) = run_agent(run_args(script, vec![]));
    assert!(matches!(outcome.error, Some(Error::Http(_))));
}

#[test]
fn pre_cancelled_token_aborts() {
    let script = vec![vec![say("x"), done()]];
    let mut args = run_args(script, vec![]);
    args.cancelled = true;
    let (outcome, events, _, _) = run_agent(args);
    assert!(matches!(outcome.error, Some(Error::Cancelled)));
    assert!(events.contains(&AgentEvent::Cancelled));
}

#[test]
fn multiple_tool_calls_execute_in_order() {
    let script = vec![
        vec![call("c1", "echo", "{\"n\":1}"), call("c2", "echo", "{\"n\":2}"), done()],
        vec![say("both done"), done()],
    ];
    let (outcome, _, _, _) = run_agent(run_args(script, vec![tool("echo", false)]));
    let msgs = outcome.produced;
    assert_eq!(msgs.len(), 3);
    assert_eq!(
        msgs[1].parts,
        vec![result("c1", "echoed: {\"n\":1}", false), result("c2", "echoed: {\"n\":2}", false)]
    );
}

#[test]
fn manual_approval_allow_executes_tool() {
    let script = vec![vec![call("c1", "echo", "{}"), done()], vec![say("ok"), done()]];
    let mut args = run_args(script, vec![tool("echo", true)]);
    args.mode = ApprovalMode::Manual;
    let (outcome, _, _, _) = run_agent(args);
    assert_eq!(outcome.produced[1].parts, vec![result("c1", "echoed: {}", false)]);
}

#[test]
fn cancel_during_approval_wait_aborts() {
    let script = vec![vec![call("c1", "echo", "{}"), done()]];
    let mut args = run_args(script, vec![tool("echo", true)]);
    args.mode = ApprovalMode::Manual;
    args.allow = None;
    let (outcome, _, _, _) = run_agent(args);
    assert!(matches!(outcome.error, Some(Error::Cancelled)));
    assert_eq!(outcome.produced[1].parts, vec![result("c1", "cancelled by user", true)]);
}

#[test]
fn cancel_during_tool_execute_aborts() {
    let script = vec![vec![call("c1", "sleep", "{}"), done()]];
    let (outcome, events, _, _) = run_agent(run_args(script, vec![tool("sleep", false)]));
    assert!(matches!(outcome.error, Some(Error::Cancelled)));
    assert!(events.contains(&AgentEvent::Cancelled));
}

#[test]
fn cancel_during_tool_execute_produces_valid_history() {
    // One turn with TWO tool calls: echo (instant) then sleep (cancelled).
    let script = vec![vec![call("c1", "echo", "{\"a\":1}"), call("c2", "sleep", "{}"), done()]];
    let (outcome, events, _, _) =
        run_agent(run_args(script, vec![tool("echo", false), tool("sleep", false)]));
    assert!(matches!(outcome.error, Some(Error::Cancelled)));
    // Persisted history must stay protocol-valid: every assistant
    // tool_call gets a matching tool_result, even on cancel.
    let tool_msg = outcome
        .produced
        .iter()
        .find(|m| m.role == Role::Tool)
        .expect("a tool message must be produced even when cancelled");
    assert_eq!(
        tool_msg.parts,
        vec![result("c1", "echoed: {\"a\":1}", false), result("c2", "cancelled by user", true)]
    );
    assert_eq!(
        events[events.len() - 2..],
        [
            AgentEvent::ToolCallFinished {
                tool_call_id: "c2".into(),
                ok: false,
                summary: "cancelled by user".into()
            },
            AgentEvent::Cancelled
        ]
    );
}

#[test]
fn cancellation_answers_every_call_that_is_left() {
    let script = vec![vec![
        call("c1", "sleep", "{}"),
        call("c2", "echo", "{}"),
        call("c3", "nope", "{}"),
        done(),
    ]];
    let (outcome, events, _, _) =
        run_agent(run_args(script, vec![tool("echo", false), tool("sleep", false)]));
    let all: Vec<ContentPart> =
        ["c1", "c2", "c3"].iter().map(|c| result(c, "cancelled by user", true)).collect();
    assert_eq!(outcome.produced[1].parts, all);
    assert_eq!(events.iter().filter(|e| matches!(e, AgentEvent::ToolCallFinished { .. })).count(), 3);
}

#[test]
fn tool_failures_are_results() {
    let script = vec![
        vec![call("c1", "fail", "{broken"), Ok(ChatEvent::Usage { input_tokens: 1, output_tokens: 2 })],
        vec![say("ok")],
    ];
    let (outcome, events, _, _) = run_agent(run_args(script, vec![tool("fail", false)]));
    assert_eq!(outcome.produced[1].parts, vec![result("c1", "tool error: broken", true)]);
    assert!(events.contains(&AgentEvent::ToolCallProposed {
        tool_call_id: "c1".into(),
        name: "fail".into(),
        args_json: "{}".into()
    }));
    assert!(outcome.error.is_none());
}

#[test]
fn approval_errors_and_long_outputs() {
    let history = vec![Message::text(Role::User, "go")];
    let mut run = AgentLoop::new("/ws", ApprovalMode::Manual, &history, vec![tool("t", true)], 1);
    assert!(run.begin_turn(false).is_empty());
    run.opened();
    run.on_item(false, call("a", "t", "{}"));
    run.on_item(false, call("b", "t", "{}"));
    run.end_of_stream();
    assert!(run.end_turn_with("r".into()).is_empty());
    run.next_call(false);
    let evs = run.on_decision(Decision::Failed(Error::ApprovalClosed));
    assert_eq!(
        evs,
        vec![AgentEvent::ToolCallFinished {
            tool_call_id: "a".into(),
            ok: false,
            summary: "approval error: approval channel closed".into()
        }]
    );
    run.next_call(false);
    assert!(run.on_decision(Decision::Allow).is_empty());
    assert_eq!(run.phase(), Phase::Execute);
    assert!(!run.wants_backup());
    let evs = run.on_result(Some(Ok("é".repeat(100))));
    assert_eq!(
        evs,
        vec![AgentEvent::ToolCallFinished {
            tool_call_id: "b".into(),
            ok: true,
            summary: "é".repeat(80)
        }]
    );
    assert!(run.next_call(true).is_empty(), "all calls are answered");
    assert_eq!(run.phase(), Phase::Turn);
    assert_eq!(run.messages().len(), 4);
    run.begin_turn(false);
    assert_eq!(run.phase(), Phase::Over);
    assert_eq!(run.outcome().produced.len(), 2);
}
