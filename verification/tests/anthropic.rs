use supergravity::json::{parse, write_value, Json};
use supergravity::providers::anthropic::{build_body, AnthropicAssembler, AnthropicProvider};
use supergravity::providers::sse::SseEvent;
use supergravity::types::{ChatEvent, ContentPart, Message, Role, ToolSpec};

fn value(s: &str) -> serde_json::Value {
    serde_json::from_str(s).unwrap()
}

fn schema() -> Json {
    parse(r#"{"type": "object"}"#).unwrap()
}

fn ev(event: &str, data: &str) -> SseEvent {
    SseEvent { event: Some(event.to_string()), data: data.to_string() }
}

#[test]
fn body_extracts_system_and_sets_max_tokens() {
    let msgs = vec![Message::text(Role::System, "be brief"), Message::text(Role::User, "hi")];
    let body = write_value(&build_body("model-x", &msgs, &[]));
    assert_eq!(body["system"], "be brief");
    assert_eq!(body["max_tokens"], 8096);
    assert_eq!(body["stream"], true);
    assert_eq!(
        body["messages"],
        value(r#"[{"role": "user", "content": [{"type": "text", "text": "hi"}]}]"#)
    );
}

#[test]
fn body_maps_tool_use_and_tool_result() {
    let msgs = vec![
        Message {
            role: Role::Assistant,
            parts: vec![
                ContentPart::Text { text: "reading".into() },
                ContentPart::ToolCall {
                    id: "toolu_1".into(),
                    name: "read_file".into(),
                    args_json: "{\"path\":\"x\"}".into(),
                },
            ],
        },
        Message {
            role: Role::Tool,
            parts: vec![ContentPart::ToolResult {
                tool_call_id: "toolu_1".into(),
                content: "body".into(),
                is_error: false,
            }],
        },
    ];
    let body = write_value(&build_body("m", &msgs, &[]));
    assert_eq!(
        body["messages"],
        value(
            r#"[
            {"role": "assistant", "content": [
                {"type": "text", "text": "reading"},
                {"type": "tool_use", "id": "toolu_1", "name": "read_file", "input": {"path": "x"}}
            ]},
            {"role": "user", "content": [
                {"type": "tool_result", "tool_use_id": "toolu_1", "content": "body", "is_error": false}
            ]}
        ]"#
        )
    );
}

#[test]
fn body_merges_consecutive_same_role_messages() {
    // A Tool message maps to role "user"; a following user text must merge into one user turn.
    let msgs = vec![
        Message {
            role: Role::Tool,
            parts: vec![ContentPart::ToolResult {
                tool_call_id: "t".into(),
                content: "r".into(),
                is_error: false,
            }],
        },
        Message::text(Role::User, "now what?"),
    ];
    let body = write_value(&build_body("m", &msgs, &[]));
    assert_eq!(
        body["messages"],
        value(
            r#"[{
            "role": "user",
            "content": [
                {"type": "tool_result", "tool_use_id": "t", "content": "r", "is_error": false},
                {"type": "text", "text": "now what?"}
            ]
        }]"#
        )
    );
}

#[test]
fn body_tool_specs_use_input_schema() {
    let tools = vec![ToolSpec {
        name: "run_shell".into(),
        description: "run".into(),
        params_schema: schema(),
    }];
    let body = write_value(&build_body("m", &[Message::text(Role::User, "x")], &tools));
    assert_eq!(
        body["tools"],
        value(
            r#"[{"name": "run_shell", "description": "run", "input_schema": {"type": "object"}}]"#
        )
    );
}

#[test]
fn assembler_text_stream() {
    let mut a = AnthropicAssembler::default();
    assert!(a
        .push(&ev("message_start", r#"{"message":{"usage":{"input_tokens":25}}}"#))
        .is_empty());
    assert!(a
        .push(&ev(
            "content_block_start",
            r#"{"index":0,"content_block":{"type":"text","text":""}}"#
        ))
        .is_empty());
    let evs = a.push(&ev(
        "content_block_delta",
        r#"{"index":0,"delta":{"type":"text_delta","text":"Hello"}}"#,
    ));
    assert_eq!(evs, vec![ChatEvent::TextDelta("Hello".into())]);
    assert!(a.push(&ev("message_delta", r#"{"usage":{"output_tokens":7}}"#)).is_empty());
    let evs = a.push(&ev("message_stop", r#"{}"#));
    assert_eq!(
        evs,
        vec![ChatEvent::Usage { input_tokens: 25, output_tokens: 7 }, ChatEvent::Done]
    );
}

#[test]
fn assembler_tool_use_stream() {
    let mut a = AnthropicAssembler::default();
    assert!(a
        .push(&ev(
            "content_block_start",
            r#"{"index":1,"content_block":{"type":"tool_use","id":"toolu_9","name":"write_file"}}"#
        ))
        .is_empty());
    assert!(a
        .push(&ev(
            "content_block_delta",
            r#"{"index":1,"delta":{"type":"input_json_delta","partial_json":"{\"path\":"}}"#
        ))
        .is_empty());
    assert!(a
        .push(&ev(
            "content_block_delta",
            r#"{"index":1,"delta":{"type":"input_json_delta","partial_json":"\"a\"}"}}"#
        ))
        .is_empty());
    let evs = a.push(&ev("content_block_stop", r#"{"index":1}"#));
    assert_eq!(
        evs,
        vec![ChatEvent::ToolCall {
            id: "toolu_9".into(),
            name: "write_file".into(),
            args_json: "{\"path\":\"a\"}".into()
        }]
    );
}

#[test]
fn assembler_tolerates_unknown_events_and_malformed_data() {
    let mut a = AnthropicAssembler::default();
    assert!(a.push(&ev("ping", r#"{}"#)).is_empty());
    assert!(a.push(&ev("content_block_delta", "{broken")).is_empty());
    assert!(a.finish().is_empty());
}

#[test]
fn body_skips_messages_with_no_blocks() {
    let msgs = vec![
        Message { role: Role::User, parts: vec![] },
        Message::text(Role::User, "real"),
    ];
    let body = write_value(&build_body("m", &msgs, &[]));
    assert_eq!(
        body["messages"],
        value(r#"[{"role": "user", "content": [{"type": "text", "text": "real"}]}]"#)
    );
}

#[test]
fn assembler_truncated_stream_finish_emits_done_once() {
    let mut a = AnthropicAssembler::default();
    assert!(a
        .push(&ev("message_start", r#"{"message":{"usage":{"input_tokens":5}}}"#))
        .is_empty());
    assert_eq!(
        a.push(&ev(
            "content_block_delta",
            r#"{"index":0,"delta":{"type":"text_delta","text":"Hi"}}"#
        ))
        .len(),
        1
    );
    assert_eq!(a.finish(), vec![ChatEvent::Done]);
    assert!(a.finish().is_empty());
}

#[test]
fn assembler_error_event() {
    let mut a = AnthropicAssembler::default();
    let evs = a.push(&ev(
        "error",
        r#"{"type":"error","error":{"type":"overloaded_error","message":"Overloaded"}}"#,
    ));
    assert_eq!(evs, vec![ChatEvent::Error("Overloaded".into())]);
    assert!(a.finish().is_empty(), "no Done after an error frame");
}

#[test]
fn interleaved_blocks_keep_their_arguments_and_empty_arguments_are_an_object() {
    let mut a = AnthropicAssembler::default();
    for (i, name) in [(2, "b"), (1, "a")] {
        a.push(&ev(
            "content_block_start",
            &format!(
                r#"{{"index":{i},"content_block":{{"type":"tool_use","id":"t{i}","name":"{name}"}}}}"#
            ),
        ));
    }
    a.push(&ev(
        "content_block_delta",
        r#"{"index":2,"delta":{"type":"input_json_delta","partial_json":"{}"}}"#,
    ));
    a.push(&ev(
        "content_block_delta",
        r#"{"index":9,"delta":{"type":"input_json_delta","partial_json":"lost"}}"#,
    ));
    let call = |i: &str, n: &str| ChatEvent::ToolCall {
        id: i.into(),
        name: n.into(),
        args_json: "{}".into(),
    };
    assert_eq!(a.push(&ev("content_block_stop", r#"{"index":1}"#)), vec![call("t1", "a")]);
    assert_eq!(a.push(&ev("content_block_stop", r#"{"index":2}"#)), vec![call("t2", "b")]);
    assert!(a.push(&ev("content_block_stop", r#"{"index":2}"#)).is_empty());
}

#[test]
fn turns_of_a_request_alternate() {
    let user = |t: &str| Message::text(Role::User, t);
    let tool = Message {
        role: Role::Tool,
        parts: vec![ContentPart::ToolResult {
            tool_call_id: "x".into(),
            content: "y".into(),
            is_error: true,
        }],
    };
    let msgs = vec![
        user("a"),
        user("b"),
        Message::text(Role::Assistant, "c"),
        Message { role: Role::User, parts: vec![] },
        Message::text(Role::Assistant, "d"),
        Message::text(Role::System, "s1"),
        tool,
        user("e"),
        Message::text(Role::System, "s2"),
    ];
    let body = write_value(&build_body("m", &msgs, &[]));
    let roles: Vec<&str> =
        body["messages"].as_array().unwrap().iter().map(|m| m["role"].as_str().unwrap()).collect();
    assert_eq!(roles, vec!["user", "assistant", "user"]);
    assert_eq!(body["messages"][1]["content"].as_array().unwrap().len(), 2);
    assert_eq!(body["system"], "s1\ns2");
}

#[test]
fn unparsable_arguments_become_an_empty_object() {
    let msgs = vec![Message {
        role: Role::Assistant,
        parts: vec![ContentPart::ToolCall {
            id: "i".into(),
            name: "n".into(),
            args_json: "{broken".into(),
        }],
    }];
    let body = write_value(&build_body("m", &msgs, &[]));
    assert_eq!(body["messages"][0]["content"][0]["input"], value("{}"));
}

#[test]
fn anthropic_request_is_addressed_and_signed() {
    let p = AnthropicProvider::new(Some("https://example.org//"), "SECRET-REDACTED".into());
    let r = p.request("m", &[Message::text(Role::User, "x")], &[]);
    assert_eq!(r.url, "https://example.org/v1/messages");
    assert_eq!(
        r.headers,
        vec![
            ("x-api-key".to_string(), "SECRET-REDACTED".to_string()),
            ("anthropic-version".to_string(), "2023-06-01".to_string())
        ]
    );
    assert_eq!(AnthropicProvider::new(None, String::new()).base_url, "https://api.anthropic.com");
}
