use supergravity::error::Error;
use supergravity::json::{parse, write_value};
use supergravity::providers::openai::{build_body, OpenAiAssembler, OpenAiProvider};
use supergravity::providers::{build_provider, presets, AnyProvider};
use supergravity::types::{
    ChatEvent, ContentPart, Message, ProviderConfig, ProviderKind, Role, ToolSpec,
};

fn value(s: &str) -> serde_json::Value {
    serde_json::from_str(s).unwrap()
}

#[test]
fn body_contains_model_stream_and_tools() {
    let msgs = vec![Message::text(Role::User, "hi")];
    let tools = vec![ToolSpec {
        name: "read_file".into(),
        description: "read a file".into(),
        params_schema: parse(
            r#"{"type": "object", "properties": {"path": {"type": "string"}}}"#,
        )
        .unwrap(),
    }];
    let body = write_value(&build_body("gpt-5", &msgs, &tools));
    assert_eq!(body["model"], "gpt-5");
    assert_eq!(body["stream"], true);
    assert_eq!(body["messages"], value(r#"[{"role": "user", "content": "hi"}]"#));
    assert_eq!(
        body["tools"],
        value(
            r#"[{
            "type": "function",
            "function": {
                "name": "read_file",
                "description": "read a file",
                "parameters": {"type": "object", "properties": {"path": {"type": "string"}}}
            }
        }]"#
        )
    );
    assert_eq!(body["tool_choice"], "auto");
    assert_eq!(body["stream_options"], value(r#"{"include_usage": true}"#));
}

#[test]
fn body_maps_tool_call_and_result_messages() {
    let msgs = vec![
        Message::text(Role::System, "be brief"),
        Message::text(Role::User, "read x"),
        Message {
            role: Role::Assistant,
            parts: vec![
                ContentPart::Text { text: "reading".into() },
                ContentPart::ToolCall {
                    id: "call_1".into(),
                    name: "read_file".into(),
                    args_json: "{\"path\":\"x\"}".into(),
                },
            ],
        },
        Message {
            role: Role::Tool,
            parts: vec![ContentPart::ToolResult {
                tool_call_id: "call_1".into(),
                content: "file body".into(),
                is_error: false,
            }],
        },
    ];
    let body = write_value(&build_body("m", &msgs, &[]));
    assert_eq!(
        body["messages"],
        value(
            r#"[
            {"role": "system", "content": "be brief"},
            {"role": "user", "content": "read x"},
            {
                "role": "assistant",
                "content": "reading",
                "tool_calls": [{
                    "id": "call_1",
                    "type": "function",
                    "function": {"name": "read_file", "arguments": "{\"path\":\"x\"}"}
                }]
            },
            {"role": "tool", "tool_call_id": "call_1", "content": "file body"}
        ]"#
        )
    );
}

#[test]
fn body_sanitizes_malformed_tool_arguments() {
    // Old history may hold fused/truncated args; they must never reach the
    // provider raw (llama.cpp templates hard-fail on them).
    let msgs = vec![Message {
        role: Role::Assistant,
        parts: vec![ContentPart::ToolCall {
            id: "call_1".into(),
            name: "read_file".into(),
            args_json: r#"{"limit":20}{"limit":30}"#.into(),
        }],
    }];
    let body = write_value(&build_body("m", &msgs, &[]));
    assert_eq!(
        body["messages"][0]["tool_calls"][0]["function"]["arguments"],
        serde_json::Value::String(r#"{"limit":20}"#.to_string())
    );
}

#[test]
fn assistant_without_text_has_null_content() {
    let msgs = vec![Message {
        role: Role::Assistant,
        parts: vec![ContentPart::ToolCall {
            id: "c".into(),
            name: "n".into(),
            args_json: "{}".into(),
        }],
    }];
    let body = write_value(&build_body("m", &msgs, &[]));
    assert_eq!(body["messages"][0]["content"], serde_json::Value::Null);
}

#[test]
fn no_tools_omits_tools_key() {
    let body = build_body("m", &[Message::text(Role::User, "x")], &[]);
    assert!(body.get("tools").is_none());
}

#[test]
fn assembler_streams_text_and_done() {
    let mut a = OpenAiAssembler::default();
    let evs = a.push_data(r#"{"choices":[{"delta":{"content":"hel"},"finish_reason":null}]}"#);
    assert_eq!(evs, vec![ChatEvent::TextDelta("hel".into())]);
    let evs = a.push_data("[DONE]");
    assert_eq!(evs, vec![ChatEvent::Done]);
    assert!(a.finish().is_empty(), "Done must not be emitted twice");
}

#[test]
fn assembler_collects_streamed_tool_call() {
    let mut a = OpenAiAssembler::default();
    assert!(a.push_data(r#"{"choices":[{"delta":{"tool_calls":[{"index":0,"id":"call_9","function":{"name":"read_file","arguments":""}}]},"finish_reason":null}]}"#).is_empty());
    assert!(a.push_data(r#"{"choices":[{"delta":{"tool_calls":[{"index":0,"function":{"arguments":"{\"pa"}}]},"finish_reason":null}]}"#).is_empty());
    assert!(a.push_data(r#"{"choices":[{"delta":{"tool_calls":[{"index":0,"function":{"arguments":"th\":\"x\"}"}}]},"finish_reason":null}]}"#).is_empty());
    let evs = a.push_data(r#"{"choices":[{"delta":{},"finish_reason":"tool_calls"}]}"#);
    assert_eq!(
        evs,
        vec![ChatEvent::ToolCall {
            id: "call_9".into(),
            name: "read_file".into(),
            args_json: "{\"path\":\"x\"}".into()
        }]
    );
}

#[test]
fn assembler_usage_and_malformed_tolerance() {
    let mut a = OpenAiAssembler::default();
    let evs = a.push_data(r#"{"choices":[],"usage":{"prompt_tokens":10,"completion_tokens":4}}"#);
    assert_eq!(evs, vec![ChatEvent::Usage { input_tokens: 10, output_tokens: 4 }]);
    assert!(a.push_data("{not json").is_empty(), "malformed chunks are skipped");
}

#[test]
fn assembler_finish_emits_done_when_stream_ends_silently() {
    let mut a = OpenAiAssembler::default();
    a.push_data(r#"{"choices":[{"delta":{"content":"x"},"finish_reason":"stop"}]}"#);
    assert_eq!(a.finish(), vec![ChatEvent::Done]);
}

#[test]
fn assembler_finish_flushes_pending_tool_calls() {
    // Some OpenAI-compatible servers end tool-call streams with "stop" or
    // without any finish_reason — buffered calls must not be lost.
    let mut a = OpenAiAssembler::default();
    a.push_data(r#"{"choices":[{"delta":{"tool_calls":[{"index":0,"id":"call_1","function":{"name":"read_file","arguments":"{}"}}]},"finish_reason":"stop"}]}"#);
    let evs = a.finish();
    assert_eq!(
        evs,
        vec![
            ChatEvent::ToolCall {
                id: "call_1".into(),
                name: "read_file".into(),
                args_json: "{}".into()
            },
            ChatEvent::Done,
        ]
    );
}

#[test]
fn assembler_ignores_duplicate_done() {
    let mut a = OpenAiAssembler::default();
    assert_eq!(a.push_data("[DONE]"), vec![ChatEvent::Done]);
    assert!(a.push_data("[DONE]").is_empty());
    assert!(a.finish().is_empty());
}

#[test]
fn openai_assembler_error_payload() {
    let mut a = OpenAiAssembler::default();
    let evs = a.push_data(r#"{"error":{"message":"rate limited","type":"rate_limit_error"}}"#);
    assert_eq!(evs, vec![ChatEvent::Error("rate limited".into())]);
}

#[test]
fn calls_come_out_in_the_order_of_their_indices() {
    let mut a = OpenAiAssembler::default();
    let v = parse(
        r#"{"choices":[{"delta":{"tool_calls":[
            {"index":5,"id":"five","function":{"name":"f5","arguments":"a"}},
            {"index":1,"id":"one","function":{"name":"f1","arguments":"b"}},
            {"index":5,"function":{"arguments":"c"}},
            {"id":"zero","function":{"name":"f0"}}]}}],"error":null,"usage":null}"#,
    )
    .unwrap();
    assert!(a.push_value(&v).is_empty());
    let call = |i: &str, n: &str, x: &str| ChatEvent::ToolCall {
        id: i.into(),
        name: n.into(),
        args_json: x.into(),
    };
    assert_eq!(
        a.finish(),
        vec![call("zero", "f0", ""), call("one", "f1", "b"), call("five", "f5", "ac"), ChatEvent::Done]
    );
}

#[test]
fn a_stream_ends_once_whatever_arrives() {
    let data = ["[DONE]", "{}", " [DONE]\n", "{\"error\":{}}", "x", "[DONE]"];
    for n in 0..=data.len() {
        let mut a = OpenAiAssembler::default();
        let mut evs = vec![];
        for d in &data[..n] {
            evs.extend(a.push_data(d));
        }
        evs.extend(a.finish());
        assert_eq!(evs.iter().filter(|e| **e == ChatEvent::Done).count(), 1);
    }
}

#[test]
fn openai_request_is_addressed_and_signed() {
    let p = OpenAiProvider::new(
        None,
        Some("SECRET-REDACTED".into()),
        vec![("X-Team".into(), "a".into())],
    );
    let r = p.request("m", &[Message::text(Role::User, "x")], &[]);
    assert_eq!(r.url, "https://api.openai.com/v1/chat/completions");
    assert_eq!(
        r.headers,
        vec![
            ("Authorization".to_string(), "Bearer SECRET-REDACTED".to_string()),
            ("X-Team".to_string(), "a".to_string())
        ]
    );
    let r = OpenAiProvider::new(Some("http://l/"), None, vec![]).request("m", &[], &[]);
    assert_eq!(r.url, "http://l/chat/completions");
    assert!(r.headers.is_empty());
}

fn config(kind: ProviderKind) -> ProviderConfig {
    ProviderConfig {
        id: "p1".into(),
        label: "P".into(),
        kind,
        base_url: None,
        has_key: false,
        models: vec![],
        disabled_models: vec![],
        extra_headers: vec![("h".into(), "v".into())],
    }
}

#[test]
fn anthropic_and_gemini_need_a_key() {
    for kind in [ProviderKind::Anthropic, ProviderKind::Gemini] {
        match build_provider(&config(kind), None) {
            Err(Error::Config(m)) => assert_eq!(m, "provider 'p1' requires an API key"),
            _ => panic!("expected a configuration error"),
        }
        assert!(build_provider(&config(kind), Some("k".into())).is_ok());
    }
    match build_provider(&config(ProviderKind::OpenAiCompatible), None) {
        Ok(AnyProvider::OpenAi(p)) => {
            assert_eq!(p.extra_headers, vec![("h".to_string(), "v".to_string())]);
            assert_eq!(p.api_key, None);
        }
        _ => panic!("expected an OpenAI provider"),
    }
    assert!(matches!(build_provider(&config(ProviderKind::Ollama), None), Ok(AnyProvider::Ollama(_))));
}

#[test]
fn there_are_four_presets_without_keys() {
    let ps = presets();
    assert_eq!(ps.len(), 4);
    assert!(ps.iter().all(|p| !p.has_key && p.models.is_empty()));
    assert_eq!(ps[0].id, "openai");
    assert_eq!(ps[3].base_url.as_deref(), Some("http://localhost:11434"));
}

#[test]
fn every_call_of_a_stream_comes_out_once() {
    let tc = |i: u64, id: &str, args: &str, end: bool| {
        let reason = if end { r#""tool_calls""# } else { "null" };
        format!(
            r#"{{"choices":[{{"delta":{{"tool_calls":[{{"index":{i},"id":"{id}","function":{{"name":"f","arguments":"{args}"}}}}]}},"finish_reason":{reason}}}]}}"#
        )
    };
    let mut a = OpenAiAssembler::default();
    let mut evs = vec![];
    for d in [tc(3, "c", "1", false), tc(0, "a", "2", false), tc(3, "c", "3", true), tc(0, "b", "4", false)] {
        evs.extend(a.push_data(&d));
    }
    evs.extend(a.finish());
    assert!(a.finish().is_empty());
    let calls: Vec<(String, String)> = evs
        .into_iter()
        .filter_map(|e| match e {
            ChatEvent::ToolCall { id, args_json, .. } => Some((id, args_json)),
            _ => None,
        })
        .collect();
    let expected = [("a", "2"), ("c", "13"), ("b", "4")];
    let expected: Vec<(String, String)> =
        expected.iter().map(|(i, x)| (i.to_string(), x.to_string())).collect();
    assert_eq!(calls, expected);
}
