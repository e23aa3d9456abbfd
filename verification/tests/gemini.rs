use supergravity::json::{parse, write_value};
use supergravity::providers::gemini::{build_body, GeminiAssembler, GeminiProvider};
use supergravity::types::{ChatEvent, ContentPart, Message, Role, ToolSpec};

fn value(s: &str) -> serde_json::Value {
    serde_json::from_str(s).unwrap()
}

#[test]
fn body_has_system_instruction_and_contents() {
    let msgs = vec![Message::text(Role::System, "be brief"), Message::text(Role::User, "hi")];
    let body = write_value(&build_body(&msgs, &[]));
    assert_eq!(body["systemInstruction"], value(r#"{"parts": [{"text": "be brief"}]}"#));
    assert_eq!(body["contents"], value(r#"[{"role": "user", "parts": [{"text": "hi"}]}]"#));
}

#[test]
fn body_maps_function_call_and_response() {
    let msgs = vec![
        Message {
            role: Role::Assistant,
            parts: vec![
                ContentPart::Text { text: "reading".into() },
                ContentPart::ToolCall {
                    id: "gemini-0".into(),
                    name: "read_file".into(),
                    args_json: "{\"path\":\"x\"}".into(),
                },
            ],
        },
        Message {
            role: Role::Tool,
            parts: vec![ContentPart::ToolResult {
                tool_call_id: "gemini-0".into(),
                content: "body".into(),
                is_error: false,
            }],
        },
    ];
    let body = write_value(&build_body(&msgs, &[]));
    assert_eq!(
        body["contents"],
        value(
            r#"[
            {"role": "model", "parts": [
                {"text": "reading"},
                {"functionCall": {"name": "read_file", "args": {"path": "x"}}}
            ]},
            {"role": "user", "parts": [
                {"functionResponse": {"name": "read_file", "response": {"result": "body"}}}
            ]}
        ]"#
        )
    );
}

#[test]
fn body_tool_specs_wrapped_in_function_declarations() {
    let tools = vec![ToolSpec {
        name: "grep".into(),
        description: "search".into(),
        params_schema: parse(r#"{"type": "object"}"#).unwrap(),
    }];
    let body = write_value(&build_body(&[Message::text(Role::User, "x")], &tools));
    assert_eq!(
        body["tools"],
        value(
            r#"[{"functionDeclarations": [{"name": "grep", "description": "search", "parameters": {"type": "object"}}]}]"#
        )
    );
}

#[test]
fn assembler_text_and_usage() {
    let mut a = GeminiAssembler::default();
    let evs = a.push_data(r#"{"candidates":[{"content":{"parts":[{"text":"Hello"}]}}],"usageMetadata":{"promptTokenCount":5,"candidatesTokenCount":2}}"#);
    assert_eq!(
        evs,
        vec![
            ChatEvent::TextDelta("Hello".into()),
            ChatEvent::Usage { input_tokens: 5, output_tokens: 2 },
        ]
    );
}

#[test]
fn assembler_function_call_gets_unique_synthesized_ids() {
    // Ids must be unique across calls AND across turns (a per-turn counter
    // would collide in stored history and corrupt the id→name mapping).
    let mut a = GeminiAssembler::default();
    let evs = a.push_data(r#"{"candidates":[{"content":{"parts":[{"functionCall":{"name":"write_file","args":{"path":"a"}}}]}}]}"#);
    let first_id = match &evs[0] {
        ChatEvent::ToolCall { id, name, args_json } => {
            assert!(id.starts_with("gemini-"), "{id}");
            assert_eq!(name, "write_file");
            assert_eq!(args_json, "{\"path\":\"a\"}");
            id.clone()
        }
        other => panic!("expected ToolCall, got {other:?}"),
    };
    let evs = a.push_data(r#"{"candidates":[{"content":{"parts":[{"functionCall":{"name":"read_file","args":{}}}]}}]}"#);
    match &evs[0] {
        ChatEvent::ToolCall { id, name, args_json } => {
            assert!(id.starts_with("gemini-"), "{id}");
            assert_ne!(*id, first_id, "ids must be unique");
            assert_eq!(name, "read_file");
            assert_eq!(args_json, "{}");
        }
        other => panic!("expected ToolCall, got {other:?}"),
    }
}

#[test]
fn assembler_finish_emits_done_once() {
    let mut a = GeminiAssembler::default();
    assert!(a.push_data("{broken").is_empty());
    assert_eq!(a.finish(), vec![ChatEvent::Done]);
    assert!(a.finish().is_empty());
}

#[test]
fn gemini_assembler_error_payload() {
    let mut a = GeminiAssembler::default();
    let evs = a.push_data(
        r#"{"error":{"code":429,"message":"quota exceeded","status":"RESOURCE_EXHAUSTED"}}"#,
    );
    assert_eq!(evs, vec![ChatEvent::Error("quota exceeded".into())]);
    assert!(a.finish().is_empty(), "no Done after an error frame");
}

#[test]
fn body_skips_empty_parts() {
    let msgs = vec![
        Message { role: Role::User, parts: vec![] },
        Message::text(Role::User, "real"),
    ];
    let body = write_value(&build_body(&msgs, &[]));
    assert_eq!(body["contents"], value(r#"[{"role": "user", "parts": [{"text": "real"}]}]"#));
}

#[test]
fn a_result_is_named_after_the_last_call_with_its_id() {
    let call = |id: &str, name: &str| Message {
        role: Role::Assistant,
        parts: vec![ContentPart::ToolCall {
            id: id.into(),
            name: name.into(),
            args_json: "{}".into(),
        }],
    };
    let result = |id: &str| Message {
        role: Role::Tool,
        parts: vec![ContentPart::ToolResult {
            tool_call_id: id.into(),
            content: "r".into(),
            is_error: false,
        }],
    };
    let msgs = vec![call("1", "old"), call("1", "new"), result("1"), result("2")];
    let body = write_value(&build_body(&msgs, &[]));
    let name = |i: usize| {
        body["contents"][i]["parts"][0]["functionResponse"]["name"].as_str().unwrap().to_string()
    };
    assert_eq!(name(2), "new");
    assert_eq!(name(3), "unknown");
}

#[test]
fn gemini_values_give_events_without_ids() {
    let mut a = GeminiAssembler::default();
    let v = parse(r#"{"candidates":[{"content":{"parts":[{"text":"t","functionCall":{}}]}},{}]}"#)
        .unwrap();
    assert_eq!(
        a.push_value(&v),
        vec![
            ChatEvent::TextDelta("t".into()),
            ChatEvent::ToolCall { id: "".into(), name: "".into(), args_json: "{}".into() }
        ]
    );
    let v = parse(r#"{"error":{}}"#).unwrap();
    assert_eq!(a.push_value(&v), vec![ChatEvent::Error("unknown gemini error".into())]);
}

#[test]
fn gemini_request_is_addressed_and_signed() {
    let p = GeminiProvider::new(None, "SECRET-REDACTED".into());
    let r = p.request("g-1", &[Message::text(Role::User, "x")], &[]);
    assert_eq!(
        r.url,
        "https://generativelanguage.googleapis.com/v1beta/models/g-1:streamGenerateContent?alt=sse"
    );
    assert_eq!(r.headers, vec![("x-goog-api-key".to_string(), "SECRET-REDACTED".to_string())]);
}
