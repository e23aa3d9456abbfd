use supergravity::error::Error;
use supergravity::providers::http::{provider_error, Utf8Buf, MAX_ERROR_BODY};

#[test]
fn utf8buf_complete_chunk() {
    let mut b = Utf8Buf::new();
    assert_eq!(b.push("héllo".as_bytes()), Some("héllo".to_string()));
    assert_eq!(b.finish(), None);
}

#[test]
fn utf8buf_split_multibyte_char_across_chunks() {
    // 'é' is 0xC3 0xA9 — split between the two bytes.
    let mut b = Utf8Buf::new();
    assert_eq!(b.push(&[0x68, 0xC3]), Some("h".to_string()));
    assert_eq!(b.push(&[0xA9, 0x21]), Some("é!".to_string()));
}

#[test]
fn utf8buf_invalid_byte_is_replaced() {
    let mut b = Utf8Buf::new();
    let out = b.push(&[0xFF]).unwrap();
    assert!(out.contains('\u{FFFD}'), "{out}");
}

#[test]
fn utf8buf_finish_flushes_incomplete_tail_lossy() {
    let mut b = Utf8Buf::new();
    assert_eq!(b.push(&[0x68]), Some("h".to_string()));
    let _ = b.push(&[0xC3]);
    let tail = b.finish().unwrap();
    assert!(tail.contains('\u{FFFD}'), "{tail}");
}

#[test]
fn utf8buf_text_does_not_depend_on_chunks() {
    let text = "a€b𝄞c é";
    let bytes = text.as_bytes();
    for i in 0..=bytes.len() {
        for j in i..=bytes.len() {
            let mut b = Utf8Buf::new();
            let mut out = String::new();
            for chunk in [&bytes[..i], &bytes[i..j], &bytes[j..]] {
                if let Some(t) = b.push(chunk) {
                    out.push_str(&t);
                }
            }
            assert_eq!(out, text, "cut at {i} and {j}");
            assert_eq!(b.finish(), None);
        }
    }
}

#[test]
fn utf8buf_holds_nothing_back_after_an_invalid_byte() {
    let mut b = Utf8Buf::new();
    assert_eq!(b.push(&[]), None);
    assert_eq!(b.push(&[0xC3]), None);
    assert_eq!(b.push(&[0x28]), Some("\u{FFFD}(".to_string()));
    assert_eq!(b.finish(), None);
}

#[test]
fn provider_error_keeps_the_beginning_of_the_body() {
    let body = "ä".repeat(600);
    match provider_error(503, &body, MAX_ERROR_BODY) {
        Error::Provider { status, body } => {
            assert_eq!(status, 503);
            assert_eq!(body, "ä".repeat(500));
        }
        other => panic!("{other:?}"),
    }
}

#[test]
fn utf8buf_holds_a_split_character_back_after_an_invalid_byte() {
    let mut b = Utf8Buf::new();
    assert_eq!(b.push(&[0xFF, 0xC3]), Some("\u{FFFD}".to_string()));
    assert_eq!(b.push(&[0xA9]), Some("é".to_string()));
    assert_eq!(b.push(&[0xFF, 0xF0, 0x9D, 0x84]), Some("\u{FFFD}".to_string()));
    assert_eq!(b.push(&[0x9E, b'!']), Some("𝄞!".to_string()));
    assert_eq!(b.finish(), None);
}
