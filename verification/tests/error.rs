use supergravity::error::{parse_json, Error};

#[test]
fn display_provider_error() {
    let e = Error::Provider { status: 401, body: "bad key".into() };
    let s = e.message();
    assert!(s.contains("401"), "{s}");
    assert!(s.contains("bad key"), "{s}");
}

#[test]
fn from_json_error() {
    let e: Error = parse_json("{nope").err().unwrap();
    assert!(matches!(e, Error::Json(_)));
}

#[test]
fn cancelled_display() {
    assert!(!Error::Cancelled.message().is_empty());
}

#[test]
fn every_error_has_its_message() {
    let m = || "m".to_string();
    assert_eq!(Error::Http(m()).message(), "http error: m");
    assert_eq!(
        Error::Provider { status: 65535, body: m() }.message(),
        "provider returned status 65535: m"
    );
    assert_eq!(Error::Provider { status: 0, body: m() }.message(), "provider returned status 0: m");
    assert_eq!(Error::Tool(m()).message(), "tool error: m");
    assert_eq!(Error::Store(m()).message(), "store error: m");
    assert_eq!(Error::Io(m()).message(), "io error: m");
    assert_eq!(Error::Json(m()).message(), "json error: m");
    assert_eq!(Error::Regex(m()).message(), "regex error: m");
    assert_eq!(Error::Config(m()).message(), "config error: m");
    assert_eq!(Error::Cancelled.message(), "cancelled");
    assert_eq!(Error::ApprovalClosed.message(), "approval channel closed");
}

#[test]
fn parse_error_keeps_the_message_of_the_parser() {
    let expected = serde_json::from_str::<serde_json::Value>("{nope").unwrap_err().to_string();
    match parse_json("{nope") {
        Err(Error::Json(m)) => assert_eq!(m, expected),
        _ => panic!("expected a JSON error"),
    }
    assert!(parse_json("{\"a\": [1, null]}").is_ok());
}
