use supergravity::providers::sse::{LineDecoder, SseDecoder, SseEvent};

#[test]
fn line_decoder_splits_chunks() {
    let mut d = LineDecoder::new();
    assert!(d.push("hel").is_empty());
    assert_eq!(d.push("lo\nwor"), vec!["hello".to_string()]);
    assert_eq!(d.push("ld\n"), vec!["world".to_string()]);
    assert_eq!(d.finish(), None);
}

#[test]
fn line_decoder_crlf_and_trailing() {
    let mut d = LineDecoder::new();
    assert_eq!(d.push("a\r\nb\r\n"), vec!["a".to_string(), "b".to_string()]);
    let mut d2 = LineDecoder::new();
    assert!(d2.push("tail").is_empty());
    assert_eq!(d2.finish(), Some("tail".to_string()));
}

#[test]
fn sse_single_data_event() {
    let mut d = SseDecoder::new();
    let evs = d.push("data: {\"a\":1}\n\n");
    assert_eq!(evs, vec![SseEvent { event: None, data: "{\"a\":1}".to_string() }]);
}

#[test]
fn sse_multiline_data_and_event_field() {
    let mut d = SseDecoder::new();
    let evs = d.push("event: message_start\ndata: {\"x\":\ndata: 1}\n\n");
    assert_eq!(evs.len(), 1);
    assert_eq!(evs[0].event.as_deref(), Some("message_start"));
    assert_eq!(evs[0].data, "{\"x\":\n1}");
}

#[test]
fn sse_comments_and_empty_lines_ignored() {
    let mut d = SseDecoder::new();
    let evs = d.push(": keepalive\n\n\ndata: hi\n\n");
    assert_eq!(evs, vec![SseEvent { event: None, data: "hi".to_string() }]);
}

#[test]
fn sse_chunk_split_across_events() {
    let mut d = SseDecoder::new();
    assert!(d.push("data: one\n").is_empty());
    let evs = d.push("\ndata: two\n\n");
    assert_eq!(evs.len(), 2);
    assert_eq!(evs[0].data, "one");
    assert_eq!(evs[1].data, "two");
}

#[test]
fn sse_finish_flushes_pending_event() {
    let mut d = SseDecoder::new();
    assert!(d.push("data: last\n").is_empty());
    let evs = d.finish();
    assert_eq!(evs, vec![SseEvent { event: None, data: "last".to_string() }]);
}

#[test]
fn sse_finish_takes_an_unterminated_line_in() {
    let mut d = SseDecoder::default();
    assert!(d.push("event: x\ndata:tail").is_empty());
    let evs = d.finish();
    assert_eq!(evs, vec![SseEvent { event: Some("x".to_string()), data: "tail".to_string() }]);
    assert!(d.finish().is_empty());
}

#[test]
fn sse_keeps_all_but_one_space_and_ignores_other_fields() {
    let mut d = SseDecoder::new();
    let evs = d.push("id: 7\nretry: 10\ndata:  two spaces\n\n");
    assert_eq!(evs, vec![SseEvent { event: None, data: " two spaces".to_string() }]);
}

#[test]
fn chunks_do_not_change_lines_or_events() {
    let stream = "event: a\r\ndata: 1\r\n\r\n: note\ndata: é2\ndata: 3\n\nrest";
    let mut whole = SseDecoder::new();
    let mut expected = whole.push(stream);
    expected.extend(whole.finish());
    for cut in 0..stream.len() {
        if !stream.is_char_boundary(cut) {
            continue;
        }
        let mut d = SseDecoder::new();
        let mut evs = d.push(&stream[..cut]);
        evs.extend(d.push(&stream[cut..]));
        evs.extend(d.finish());
        assert_eq!(evs, expected, "cut at {cut}");
        let mut l = LineDecoder::default();
        let mut lines = l.push(&stream[..cut]);
        lines.extend(l.push(&stream[cut..]));
        assert_eq!(lines.len(), 7);
        assert_eq!(l.finish(), Some("rest".to_string()));
    }
}
