use supergravity::error::Error;
use supergravity::json::{parse, render};
use supergravity::providers::mock::MockProvider;
use supergravity::types::{ChatEvent, Message, Role, ToolSpec};

fn script() -> Vec<Vec<Result<ChatEvent, Error>>> {
    vec![vec![
        Ok(ChatEvent::TextDelta("he".into())),
        Ok(ChatEvent::TextDelta("llo".into())),
        Ok(ChatEvent::Usage { input_tokens: 3, output_tokens: 2 }),
        Ok(ChatEvent::Done),
    ]]
}

#[test]
fn mock_yields_scripted_events() {
    let mut p = MockProvider::new(script());
    let msgs = vec![Message::text(Role::User, "hi")];
    let events: Vec<ChatEvent> =
        p.stream_chat("test-model", &msgs, &[]).unwrap().into_iter().map(|e| e.unwrap()).collect();
    assert_eq!(
        events,
        vec![
            ChatEvent::TextDelta("he".into()),
            ChatEvent::TextDelta("llo".into()),
            ChatEvent::Usage { input_tokens: 3, output_tokens: 2 },
            ChatEvent::Done,
        ]
    );
}

#[test]
fn mock_records_calls() {
    let mut p = MockProvider::new(script());
    let msgs = vec![Message::text(Role::User, "hi")];
    let tools = vec![ToolSpec {
        name: "t".into(),
        description: "d".into(),
        params_schema: parse(r#"{"type": "object"}"#).unwrap(),
    }];
    let _ = p.stream_chat("m1", &msgs, &tools).unwrap();
    assert_eq!(p.calls.len(), 1);
    assert_eq!(p.calls[0].model, "m1");
    assert_eq!(p.calls[0].messages, msgs);
    assert_eq!(p.calls[0].tools.len(), 1);
    assert_eq!(p.calls[0].tools[0].name, "t");
    assert_eq!(p.calls[0].tools[0].description, "d");
    assert_eq!(render(&p.calls[0].tools[0].params_schema), r#"{"type":"object"}"#);
}

#[test]
fn mock_exhausted_script_errors() {
    let mut p = MockProvider::new(vec![]);
    let msgs = vec![Message::text(Role::User, "hi")];
    let err = p.stream_chat("m", &msgs, &[]).err().unwrap();
    let m = err.message();
    assert!(m.contains("mock script exhausted"), "{m}");
}
