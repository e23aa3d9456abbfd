use supergravity::error::Error;
use supergravity::tools::fs::{
    check_external, check_size, edit_bytes, edit_report, edit_text, plan_write, read_bytes,
    read_external_bytes, read_window, sort_entries, wrote, EditFileTool, Entry, ListDirTool,
    ListExternalDirTool, Listing, ReadExternalFileTool, ReadFileTool, WriteExternalFileTool,
    WriteFileTool, WriteMode, GREP_HINT, MAX_FILE_READ,
};
use supergravity::tools::ToolContext;

const A: &str = "line1\nline2\nline3\nline4\n";

fn ctx() -> ToolContext {
    ToolContext { workspace_root: "/ws".into(), workshop_root: None }
}

#[test]
fn edit_file_single_replacement() {
    let out = edit_text(A, "line2", "CHANGED", None, "/ws/src/a.txt").unwrap();
    assert_eq!(out, "line1\nCHANGED\nline3\nline4\n");
    let report = edit_report("/ws/src/a.txt", None);
    assert!(report.contains("replaced 1"), "{report}");
    assert_eq!(report, "[edited /ws/src/a.txt - replaced 1 occurrence]");
    assert_eq!(edit_report("p", Some(3)), "[edited p - replaced 3 occurrences]");
}

#[test]
fn edit_file_multiline_replacement() {
    let out = edit_text(A, "line2\nline3", "A\nB\nC", None, "p").unwrap();
    assert_eq!(out, "line1\nA\nB\nC\nline4\n");
}

#[test]
fn edit_file_not_found_is_error() {
    let err = edit_text(A, "nope", "x", None, "/ws/src/a.txt").unwrap_err().message();
    assert!(err.contains("not found"), "{err}");
    assert_eq!(err, "tool error: old_string not found in /ws/src/a.txt");
}

#[test]
fn edit_file_ambiguous_requires_count() {
    let dup = "x = 1;\nx = 2;\n";
    let err = edit_text(dup, "x = ", "y = ", None, "dup.txt").unwrap_err().message();
    assert!(err.contains("2 times"), "{err}");
    // with expected_replacements it works and replaces BOTH
    assert_eq!(edit_text(dup, "x = ", "y = ", Some(2), "dup.txt").unwrap(), "y = 1;\ny = 2;\n");
}

#[test]
fn edit_file_wrong_expected_count_is_error() {
    let err = edit_text("x\nx\nx\n", "x", "y", Some(2), "dup.txt").unwrap_err().message();
    assert!(err.contains("expected 2"), "{err}");
    assert_eq!(
        err,
        "tool error: old_string occurs 3 times in dup.txt, expected 2 - make it more specific or adjust expected_replacements"
    );
}

#[test]
fn edit_file_needs_approval() {
    assert!(EditFileTool.needs_approval());
}

#[test]
fn edit_file_empty_old_string_is_error() {
    assert!(edit_text(A, "", "b", None, "p").is_err());
}

#[test]
fn editing_a_text_by_itself_changes_nothing() {
    assert_eq!(edit_text("aaa b aaa", "aa", "aa", Some(2), "p").unwrap(), "aaa b aaa");
}

#[test]
fn read_file_full() {
    let out = read_bytes(A.as_bytes(), "/ws/src/a.txt", None, None).unwrap();
    assert_eq!(out, "line1\nline2\nline3\nline4\n");
}

#[test]
fn read_file_offset_limit() {
    let out = read_bytes(A.as_bytes(), "/ws/src/a.txt", Some(2), Some(2)).unwrap();
    assert!(out.starts_with("line2\nline3"), "{out}");
    assert!(out.contains("more lines"), "{out}");
    assert_eq!(out, "line2\nline3\n…[1 more lines]");
}

#[test]
fn read_file_escape_rejected() {
    assert!(ctx().resolve("../outside.txt").is_err());
}

#[test]
fn read_file_offset_past_eof() {
    let out = read_bytes(A.as_bytes(), "/ws/src/a.txt", Some(99), None).unwrap();
    assert!(out.contains("past end of file"), "{out}");
    assert_eq!(out, "[offset 99 past end of file: 4 lines]");
}

#[test]
fn read_file_too_large_is_error() {
    let err = check_size(MAX_FILE_READ + 1, "/ws/big.txt", GREP_HINT).unwrap_err().message();
    assert!(err.contains("too large"), "{err}");
    assert_eq!(
        err,
        "tool error: file too large (10485761 bytes, max 10485760): /ws/big.txt - try grep for targeted reads"
    );
    assert!(check_size(MAX_FILE_READ, "/ws/big.txt", "").is_ok());
    let big = vec![b'x'; (MAX_FILE_READ + 1) as usize];
    assert!(read_bytes(&big, "/ws/big.txt", None, None).is_err());
}

#[test]
fn windows_keep_the_last_line_feed_only_at_the_end() {
    assert_eq!(read_window("a\nb", None, None), "a\nb");
    assert_eq!(read_window("a\nb\n", Some(2), Some(1)), "b\n");
    assert_eq!(read_window("a\nb\n", Some(0), Some(0)), "a\n…[1 more lines]");
    assert_eq!(read_window("", None, None), "[offset 1 past end of file: 0 lines]");
    assert_eq!(read_window("a\n", Some(usize::MAX), Some(usize::MAX)), format!("[offset {} past end of file: 1 lines]", usize::MAX));
    let many = "x\n".repeat(2001);
    assert!(read_window(&many, None, None).ends_with("\n…[1 more lines]"));
}

#[test]
fn write_file_create_and_overwrite() {
    let create = Some("create".to_string());
    assert_eq!(plan_write(&create, false, "/ws/new/b.txt").unwrap(), WriteMode::Replace);
    let out = wrote("hello", "/ws/new/b.txt");
    assert!(out.contains("5 bytes"), "{out}");
    assert_eq!(out, "wrote 5 bytes to /ws/new/b.txt");
    assert_eq!(wrote("é", "p"), "wrote 2 bytes to p");
    // create fails when file exists
    match plan_write(&create, true, "/ws/new/b.txt") {
        Err(Error::Tool(m)) => assert_eq!(m, "file already exists: /ws/new/b.txt"),
        other => panic!("{other:?}"),
    }
    // overwrite replaces
    let overwrite = Some("overwrite".to_string());
    assert_eq!(plan_write(&overwrite, true, "/ws/new/b.txt").unwrap(), WriteMode::Replace);
    assert_eq!(plan_write(&None, true, "/ws/new/b.txt").unwrap(), WriteMode::Replace);
}

#[test]
fn write_file_append() {
    let append = Some("append".to_string());
    assert_eq!(plan_write(&append, true, "/ws/top.txt").unwrap(), WriteMode::Append);
}

#[test]
fn write_file_unknown_mode_has_no_side_effects() {
    match plan_write(&Some("bogus".to_string()), false, "/ws/new2/b.txt") {
        Err(Error::Tool(m)) => assert_eq!(m, "unknown write mode: bogus"),
        other => panic!("{other:?}"),
    }
}

#[test]
fn write_file_needs_approval() {
    assert!(WriteFileTool.needs_approval());
    assert!(!ReadFileTool.needs_approval());
    assert!(!ListDirTool.needs_approval());
}

fn entry(name: &str, is_dir: bool) -> Entry {
    Entry { name: name.to_string(), is_dir }
}

/// The entries of the directories of a small workspace, in no particular order.
fn read_dir(path: &str) -> Vec<Entry> {
    match path {
        "/ws" => vec![entry("top.txt", false), entry("src", true)],
        "/ws/src" => vec![entry("deep", true), entry("a.txt", false)],
        "/ws/src/deep" => vec![entry("z", false)],
        _ => vec![],
    }
}

fn list(depth: Option<usize>) -> String {
    let mut l = Listing::new("/ws", depth);
    loop {
        let dir = match l.wanted() {
            Some(d) => d.to_string(),
            None => break,
        };
        l.provide(read_dir(&dir));
    }
    l.finish()
}

#[test]
fn list_dir_depth() {
    let out = list(Some(2));
    assert!(out.contains("src/"), "{out}");
    assert!(out.contains("a.txt"), "{out}");
    assert!(out.contains("top.txt"), "{out}");
    assert_eq!(out, "src/\n  a.txt\n  deep/\ntop.txt");
    let shallow = list(Some(1));
    assert!(!shallow.contains("a.txt"), "{shallow}");
    assert_eq!(list(None), shallow);
    assert_eq!(list(Some(0)), "src/\ntop.txt");
    assert_eq!(list(Some(9)), "src/\n  a.txt\n  deep/\n    z\ntop.txt");
}

#[test]
fn listings_are_capped_and_read_no_further() {
    let mut l = Listing::new("/big", Some(2));
    let mut names: Vec<Entry> = (0..600).map(|i| entry(&format!("f{i:03}"), false)).collect();
    names.push(entry("e", true));
    names.push(entry("g", true));
    l.provide(names);
    assert_eq!(l.wanted(), Some("/big/e"));
    l.provide(vec![entry("in", false)]);
    assert_eq!(l.wanted(), None, "the second directory lies beyond the cap");
    let out = l.finish();
    let lines: Vec<&str> = out.lines().collect();
    assert_eq!(lines.len(), 501);
    assert_eq!(lines[0], "e/");
    assert_eq!(lines[1], "  in");
    assert_eq!(lines[2], "f000");
    assert_eq!(lines[500], "…[capped at 500 entries]");
}

#[test]
fn entries_are_sorted_by_name() {
    let sorted = sort_entries(vec![entry("b", true), entry("B", false), entry("a", false)]);
    let names: Vec<&str> = sorted.iter().map(|e| e.name.as_str()).collect();
    assert_eq!(names, vec!["B", "a", "b"]);
}

#[test]
fn list_external_dir_rejects_relative_and_lists_absolute() {
    // Relative paths are rejected - the tool only takes absolute ones.
    match check_external("src") {
        Err(Error::Tool(m)) => assert_eq!(m, "external path must be absolute: src"),
        other => panic!("{other:?}"),
    }
    assert!(check_external("/outside").is_ok());
    let mut l = Listing::new("/outside", None);
    l.provide(vec![entry("out.txt", false)]);
    assert!(l.finish().contains("out.txt"));
    assert!(ListExternalDirTool.needs_approval());
}

#[test]
fn read_and_write_external_file() {
    let create = Some("create".to_string());
    // write (create)
    assert!(plan_write(&create, false, "/out/note.txt").is_ok());
    // create again fails
    assert!(plan_write(&create, true, "/out/note.txt").is_err());
    // read back
    assert_eq!(read_external_bytes(b"l1\nl2\n", None, None), "l1\nl2\n");
    // relative rejected on both
    assert!(check_external("x.txt").is_err());
    assert!(ReadExternalFileTool.needs_approval());
    assert!(WriteExternalFileTool.needs_approval());
}

#[test]
fn bytes_are_decoded_before_an_edit() {
    assert_eq!(edit_bytes(b"a\xffb", "b", "c", None, "p").unwrap(), "a\u{FFFD}c");
    assert_eq!(edit_bytes("é".as_bytes(), "é", "e", None, "p").unwrap(), "e");
    assert!(edit_bytes(b"x", "y", "z", None, "p").is_err());
}
