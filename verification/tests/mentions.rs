use supergravity::mentions::{attachment_for, attachment_of, expand, mentions};
use supergravity::tools::resolve_in_workspace;

/// Expands a message in a workspace that holds the given files.
fn expand_in(files: &[(&str, &[u8])], message: &str) -> String {
    let contents: Vec<Option<String>> = mentions(message)
        .iter()
        .map(|m| {
            let abs = resolve_in_workspace("/ws", m).ok()?;
            let (_, bytes) = files.iter().find(|(p, _)| format!("/ws/{p}") == abs)?;
            Some(attachment_of(bytes))
        })
        .collect();
    expand(message, &contents)
}

#[test]
fn expands_mentions_and_keeps_plain_text() {
    let out = expand_in(&[("a.txt", b"hello file")], "look at @a.txt please");
    assert!(out.starts_with("look at @a.txt please"), "{out}");
    assert!(out.contains("<attached path=\"a.txt\">\nhello file\n</attached>"), "{out}");
}

#[test]
fn unknown_tokens_stay_literal_and_email_untouched() {
    let out = expand_in(&[], "mail me at a@b.com about @missing.txt");
    assert_eq!(out, "mail me at a@b.com about @missing.txt");
}

#[test]
fn duplicate_mentions_attach_once() {
    let out = expand_in(&[("a.txt", b"x")], "@a.txt and @a.txt");
    assert_eq!(out.matches("<attached").count(), 1, "{out}");
}

#[test]
fn binary_file_attaches_note() {
    let out = expand_in(&[("b.bin", &[0u8, 159, 146, 150])], "@b.bin");
    assert!(out.contains("[binary file - contents not attached]"), "{out}");
}

#[test]
fn traversal_is_rejected() {
    let out = expand_in(&[("../outside.txt", b"x"), ("outside.txt", b"y")], "@../outside.txt");
    assert!(!out.contains("<attached"), "{out}");
}

#[test]
fn words_behind_at_signs_are_mentions() {
    assert_eq!(mentions("x @a@b @ \t@ü.md,\n@c"), vec!["a@b", "ü.md,", "c"]);
    assert!(mentions("none").is_empty());
    assert!(mentions("@").is_empty());
}

#[test]
fn attachments_come_in_order() {
    let out = expand("@b @a", &vec![Some("B".into()), Some("A".into())]);
    assert_eq!(
        out,
        "@b @a\n\n<attached path=\"b\">\nB\n</attached>\n\n<attached path=\"a\">\nA\n</attached>"
    );
}

#[test]
fn large_files_are_cut_on_a_character_boundary() {
    let mut bytes = vec![b'x'; 51199];
    bytes.extend("é".as_bytes());
    bytes.extend(b"tail");
    let out = attachment_of(&bytes);
    assert_eq!(
        out,
        format!("{}\n…[truncated: 51199 of 51205 bytes shown]", "x".repeat(51199))
    );
    let exact = vec![b'y'; 51200];
    assert_eq!(attachment_of(&exact), "y".repeat(51200));
    assert_eq!(attachment_of(&[0xff, b'a']), "\u{FFFD}a");
}

#[test]
fn unreadable_files_attach_a_note() {
    assert_eq!(attachment_for(None), None);
    assert_eq!(attachment_for(Some(Ok(b"hi".to_vec()))).as_deref(), Some("hi"));
    assert_eq!(
        attachment_for(Some(Err("permission\ndenied".into()))).as_deref(),
        Some("[cannot read file: permission denied]")
    );
}
