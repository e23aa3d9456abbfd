use supergravity::providers::stream::StreamDecoder;
use supergravity::providers::{build_provider, presets};
use supergravity::types::ChatEvent;

/// The events of a text that arrives `step` characters at a time, tool calls without identifiers.
fn events(preset: usize, text: &str, step: usize) -> Vec<ChatEvent> {
    let p = build_provider(&presets()[preset], Some("k".into())).unwrap();
    let mut d = StreamDecoder::new(&p);
    let chars: Vec<char> = text.chars().collect();
    let mut out = vec![];
    for c in chars.chunks(step) {
        out.extend(d.push(&c.iter().collect::<String>()));
    }
    out.extend(d.finish());
    for e in &mut out {
        if let ChatEvent::ToolCall { id, .. } = e {
            *id = String::new();
        }
    }
    out
}

fn say(s: &str) -> ChatEvent {
    ChatEvent::TextDelta(s.into())
}

#[test]
fn answers_are_decoded_however_they_are_cut() {
    let call = ChatEvent::ToolCall { id: String::new(), name: "f".into(), args_json: "{}".into() };
    let usage = ChatEvent::Usage { input_tokens: 1, output_tokens: 2 };
    let cases = [
        (
            "data: {\"choices\":[{\"delta\":{\"content\":\"hé\"}}]}\r\n\r\n: note\n\
             data: {\"choices\":[{\"delta\":{\"tool_calls\":[{\"function\":{\"name\":\"f\",\"arguments\":\"{}\"}}]}}]}\n\n\
             data: [DONE]\n\n",
            vec![say("hé"), ChatEvent::Done, call.clone()],
        ),
        (
            "event: message_start\ndata: {\"message\":{\"usage\":{\"input_tokens\":1}}}\n\n\
             event: content_block_delta\ndata: {\"delta\":{\"type\":\"text_delta\",\"text\":\"hi\"}}\n\n\
             event: message_delta\ndata: {\"usage\":{\"output_tokens\":2}}\n\n\
             event: message_stop\ndata: {}",
            vec![say("hi"), usage.clone(), ChatEvent::Done],
        ),
        (
            "data: {\"candidates\":[{\"content\":{\"parts\":[{\"text\":\"hi\"},{\"functionCall\":{\"name\":\"f\",\"args\":{}}}]}}]}\n\n",
            vec![say("hi"), call.clone(), ChatEvent::Done],
        ),
        (
            "{\"message\":{\"content\":\"hi\",\"tool_calls\":[{\"function\":{\"name\":\"f\"}}]}}\n\
             {\"done\":true,\"prompt_eval_count\":1,\"eval_count\":2}",
            vec![say("hi"), call, usage, ChatEvent::Done],
        ),
    ];
    for (i, (text, expected)) in cases.iter().enumerate() {
        for step in [1, 2, 7, 10_000] {
            assert_eq!(&events(i, text, step), expected, "preset {i}, {step} at a time");
        }
    }
}

#[test]
fn an_empty_answer_still_ends() {
    assert_eq!(events(0, "", 1), vec![ChatEvent::Done]);
    assert!(events(1, "", 1).is_empty());
    assert_eq!(events(2, "", 1), vec![ChatEvent::Done]);
    assert_eq!(events(3, "", 1), vec![ChatEvent::Done]);
}

#[test]
fn calls_of_gemini_and_ollama_get_identifiers() {
    let cases = [
        (2, "gemini-", "data: {\"candidates\":[{\"content\":{\"parts\":[{\"functionCall\":{\"name\":\"f\"}}]}}]}\n\n"),
        (3, "ollama-", "{\"message\":{\"tool_calls\":[{\"function\":{\"name\":\"f\"}}]}}\n"),
    ];
    for (preset, prefix, text) in cases {
        let p = build_provider(&presets()[preset], Some("k".into())).unwrap();
        match &StreamDecoder::new(&p).push(text)[..] {
            [ChatEvent::ToolCall { id, name, .. }] => {
                assert!(id.starts_with(prefix) && id.len() == prefix.len() + 36, "{id}");
                assert_eq!(name, "f");
            }
            other => panic!("expected a call, got {other:?}"),
        }
    }
}
