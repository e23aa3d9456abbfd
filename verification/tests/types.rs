use supergravity::json::parse;
use supergravity::types::{sanitize_args_json, sanitize_parsed, ContentPart, Message, Role};

#[test]
fn message_text_constructor() {
    let m = Message::text(Role::User, "hey");
    assert_eq!(m.role, Role::User);
    assert_eq!(m.parts, vec![ContentPart::Text { text: "hey".into() }]);
}

#[test]
fn sanitize_args_json_passthrough_when_valid() {
    assert_eq!(sanitize_args_json(r#"{"path":"x"}"#), r#"{"path":"x"}"#);
    assert_eq!(sanitize_args_json("{}"), "{}");
}

#[test]
fn sanitize_args_json_keeps_first_object_of_concatenated() {
    // Weak models sometimes emit two calls fused into one string.
    assert_eq!(sanitize_args_json(r#"{"limit":20}{"limit":30}"#), r#"{"limit":20}"#);
}

#[test]
fn sanitize_args_json_falls_back_on_garbage() {
    assert_eq!(sanitize_args_json(r#"{"path":""x.txt"}{"#), "{}");
    assert_eq!(sanitize_args_json("not json at all"), "{}");
    assert_eq!(sanitize_args_json("[1,2]"), "{}");
}

#[test]
fn sanitize_keeps_the_spelling_of_an_object() {
    assert_eq!(sanitize_args_json(" { \"a\" : 1 } "), " { \"a\" : 1 } ");
    assert_eq!(sanitize_args_json(" { \"a\" : 1 } x"), "{\"a\":1}");
    assert_eq!(sanitize_args_json(""), "{}");
}

#[test]
fn sanitize_picks_from_what_was_parsed() {
    assert_eq!(sanitize_parsed("raw", parse("{}").ok(), None), "raw");
    assert_eq!(sanitize_parsed("raw", parse("[]").ok(), parse("{\"b\":2}").ok()), "{\"b\":2}");
    assert_eq!(sanitize_parsed("raw", None, parse("3").ok()), "{}");
    assert_eq!(sanitize_parsed("raw", None, None), "{}");
}

#[test]
fn copies_are_equal() {
    let m = Message {
        role: Role::Tool,
        parts: vec![
            ContentPart::Text { text: "t".into() },
            ContentPart::ToolCall { id: "i".into(), name: "n".into(), args_json: "{}".into() },
            ContentPart::ToolResult { tool_call_id: "i".into(), content: "c".into(), is_error: true },
        ],
    };
    assert_eq!(m.copy(), m);
}

#[test]
fn sanitized_arguments_parse_and_stay() {
    let deep = |n: usize| format!("{}1{}", "{\"a\":".repeat(n), "}".repeat(n));
    let raws = [
        String::new(),
        "[1]".into(),
        " {\"a\" : [1, \"\\u0001é\\\"\", null, true]} x".into(),
        "{\"a\":1.7976931348623157e308}{}".into(),
        "{\"a\":-1.797693134862315e308,\"b\":5e-324,\"c\":-0,\"d\":0.1}{}".into(),
        "{\"a\":123456789012345678901234567890,\"b\":18446744073709551615,\"c\":-9}!".into(),
        format!("{} x", deep(127)),
        format!("{} x", deep(128)),
    ];
    for raw in raws {
        let r = sanitize_args_json(&raw);
        assert!(parse(&r).unwrap().is_object(), "{raw}");
        assert_eq!(sanitize_args_json(&r), r);
    }
    assert_eq!(sanitize_args_json(&format!("{} x", deep(127))), deep(127));
    assert_eq!(sanitize_args_json(&format!("{} x", deep(128))), "{}");
    assert_eq!(
        sanitize_args_json("{\"a\":1.7976931348623157e308}{}"),
        "{\"a\":1.7976931348623157e+308}"
    );
}
