use supergravity::json::{parse, parse_first, read_value, render, write_value, Json};

fn value(s: &str) -> serde_json::Value {
    serde_json::from_str(s).unwrap()
}

#[test]
fn values_survive_the_way_in_and_out() {
    let text = r#"{"a":[1,-2,2.5,null,true],"b":{"c":"d"},"e":[],"f":{}}"#;
    let v = value(text);
    assert_eq!(write_value(&read_value(v.clone())), v);
    assert_eq!(render(&read_value(v)), text);
}

#[test]
fn parse_reads_one_value_and_parse_first_the_first() {
    assert_eq!(write_value(&parse(" [1, 2] ").unwrap()), value("[1,2]"));
    assert!(parse("[1] [2]").is_err());
    assert_eq!(write_value(&parse_first("[1] [2]").unwrap()), value("[1]"));
    assert!(parse_first("nope").is_none());
    assert!(parse_first("").is_none());
}

#[test]
fn the_last_entry_of_a_key_counts() {
    let j = Json::object().with("k", Json::str("old")).with("x", Json::Null).with("k", Json::unsigned(7));
    assert_eq!(j.get("k").unwrap().as_u64(), Some(7));
    assert!(j.get("x").unwrap().is_null());
    assert!(j.get("y").is_none());
    assert_eq!(render(&j), r#"{"k":7,"x":null}"#);
    assert_eq!(render(&j.copy()), render(&j));
}

#[test]
fn accessors_tell_kinds_apart() {
    let j = parse(r#"{"s":"t","n":18446744073709551615,"neg":-1,"b":false,"a":[1]}"#).unwrap();
    assert!(j.is_object());
    assert_eq!(j.str_field("s"), Some("t"));
    assert_eq!(j.str_field("n"), None);
    assert_eq!(j.get("n").unwrap().as_u64(), Some(u64::MAX));
    assert_eq!(j.get("neg").unwrap().as_u64(), None);
    assert_eq!(j.get("b").unwrap().as_bool(), Some(false));
    assert_eq!(j.get("a").unwrap().as_array().unwrap().len(), 1);
    assert!(j.get("s").unwrap().get("x").is_none());
    assert!(!Json::array().and(Json::Null).is_object());
}
