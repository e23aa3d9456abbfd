use supergravity::json::write_value;
use supergravity::providers::ollama::{build_body, OllamaAssembler, OllamaProvider};
use supergravity::types::{ChatEvent, ContentPart, Message, Role};

fn value(s: &str) -> serde_json::Value {
    serde_json::from_str(s).unwrap()
}

#[test]
fn body_shape() {
    let msgs = vec![Message::text(Role::System, "s"), Message::text(Role::User, "hi")];
    let body = write_value(&build_body("qwen3", &msgs, &[]));
    assert_eq!(body["model"], "qwen3");
    assert_eq!(body["stream"], true);
    assert_eq!(
        body["messages"],
        value(r#"[{"role": "system", "content": "s"}, {"role": "user", "content": "hi"}]"#)
    );
}

#[test]
fn body_tool_calls_have_object_arguments() {
    let msgs = vec![
        Message {
            role: Role::Assistant,
            parts: vec![ContentPart::ToolCall {
                id: "ollama-0".into(),
                name: "read_file".into(),
                args_json: "{\"path\":\"x\"}".into(),
            }],
        },
        Message {
            role: Role::Tool,
            parts: vec![ContentPart::ToolResult {
                tool_call_id: "ollama-0".into(),
                content: "body".into(),
                is_error: false,
            }],
        },
    ];
    let body = write_value(&build_body("m", &msgs, &[]));
    assert_eq!(
        body["messages"][0]["tool_calls"],
        value(
            r#"[{"type": "function", "function": {"name": "read_file", "arguments": {"path": "x"}}}]"#
        )
    );
    assert_eq!(body["messages"][1], value(r#"{"role": "tool", "content": "body"}"#));
}

#[test]
fn assembler_text_line() {
    let mut a = OllamaAssembler::default();
    let evs = a.push_line(r#"{"message":{"role":"assistant","content":"Hel"},"done":false}"#);
    assert_eq!(evs, vec![ChatEvent::TextDelta("Hel".into())]);
}

#[test]
fn assembler_tool_call_line() {
    let mut a = OllamaAssembler::default();
    let evs = a.push_line(r#"{"message":{"role":"assistant","content":"","tool_calls":[{"function":{"name":"grep","arguments":{"pattern":"foo"}}}]},"done":false}"#);
    assert_eq!(evs.len(), 1);
    match &evs[0] {
        ChatEvent::ToolCall { id, name, args_json } => {
            assert!(id.starts_with("ollama-"), "{id}");
            assert_eq!(id.len(), "ollama-".len() + 36);
            assert_eq!(name, "grep");
            assert_eq!(args_json, "{\"pattern\":\"foo\"}");
        }
        other => panic!("expected ToolCall, got {other:?}"),
    }
}

#[test]
fn assembler_error_line() {
    let mut a = OllamaAssembler::default();
    let evs = a.push_line(r#"{"error":"model requires more system memory than is available"}"#);
    assert_eq!(
        evs,
        vec![ChatEvent::Error("model requires more system memory than is available".into())]
    );
    assert!(a.finish().is_empty(), "no Done after an error line");
}

#[test]
fn assembler_done_line_with_usage() {
    let mut a = OllamaAssembler::default();
    let evs = a.push_line(r#"{"message":{"role":"assistant","content":""},"done":true,"prompt_eval_count":11,"eval_count":6}"#);
    assert_eq!(
        evs,
        vec![ChatEvent::Usage { input_tokens: 11, output_tokens: 6 }, ChatEvent::Done]
    );
    assert!(a.finish().is_empty());
}

#[test]
fn assembler_skips_blank_and_malformed() {
    let mut a = OllamaAssembler::default();
    assert!(a.push_line("").is_empty());
    assert!(a.push_line("{nope").is_empty());
    assert_eq!(a.finish(), vec![ChatEvent::Done]);
}

#[test]
fn ollama_request_has_no_headers() {
    let p = OllamaProvider::new(Some("http://box:1/"));
    let r = p.request("m", &[Message::text(Role::User, "x")], &[]);
    assert_eq!(r.url, "http://box:1/api/chat");
    assert!(r.headers.is_empty());
    assert_eq!(write_value(&r.body)["model"], "m");
}

#[test]
fn the_end_adds_a_done_only_where_none_came() {
    let done = r#"{"done":true}"#;
    for lines in [vec![], vec!["{}"], vec![done], vec!["{}", done, "{}"]] {
        let mut a = OllamaAssembler::default();
        let mut evs: Vec<ChatEvent> = vec![];
        for l in lines {
            evs.extend(a.push_line(l));
        }
        evs.extend(a.finish());
        assert_eq!(evs.iter().filter(|e| **e == ChatEvent::Done).count(), 1);
    }
}

#[test]
fn every_done_line_ends_the_answer_unless_an_error_came() {
    let mut a = OllamaAssembler::default();
    assert_eq!(a.push_line(r#"{"error":"oom"}"#), vec![ChatEvent::Error("oom".into())]);
    let usage = ChatEvent::Usage { input_tokens: 3, output_tokens: 4 };
    let done = r#"{"done":true,"prompt_eval_count":3,"eval_count":4}"#;
    assert_eq!(a.push_line(done), vec![usage.clone()]);
    assert!(a.finish().is_empty());
    let mut a = OllamaAssembler::default();
    assert_eq!(a.push_line(done), vec![usage.clone(), ChatEvent::Done]);
    assert_eq!(a.push_line(done), vec![usage, ChatEvent::Done]);
    assert!(a.finish().is_empty());
}
