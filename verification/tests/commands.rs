use supergravity::bridge::agent_runner::{
    auto_title, offered_tools, split_words, workshop_dir, workshops_dir, Registry,
};
use supergravity::bridge::commands::{
    check_workspace, diff_target, estr, no_checkpoint, parse_mode, parse_tags, plan_restore,
    preview_tool_diff, rank_files, rank_of, tags_url, FileWalk, Restore, ToolDiffPreview,
};
use std::collections::BTreeMap;
use supergravity::agent::BackupCtx;
use supergravity::approvals::ExternalPolicy;
use supergravity::error::Error;
use supergravity::json::parse;
use supergravity::providers::presets;
use supergravity::tools::{default_tools, ToolContext};
use supergravity::tools::fs::Entry;
use supergravity::types::ApprovalMode;

#[test]
fn parse_tags_extracts_names() {
    let body = parse(
        r#"{
        "models": [
            {"name": "qwen3:0.6b", "model": "qwen3:0.6b", "size": 522000000},
            {"name": "llama3.2:latest"},
            {"size": 123}
        ]
    }"#,
    )
    .unwrap();
    assert_eq!(parse_tags(&body), vec!["qwen3:0.6b".to_string(), "llama3.2:latest".to_string()]);
    assert!(parse_tags(&parse("{}").unwrap()).is_empty());
    assert!(parse_tags(&parse(r#"{"models": "nope"}"#).unwrap()).is_empty());
}

fn preview(name: &str, args: &str) -> Result<Option<ToolDiffPreview>, Error> {
    match diff_target("/proj", name, args) {
        Some(t) => {
            let old = if t.abs == "/proj/a.txt" { "one\ntwo\n" } else { "" };
            preview_tool_diff(name, &t, old, !old.is_empty()).map(Some)
        }
        None => Ok(None),
    }
}

#[test]
fn preview_tool_diff_write_and_edit() {
    // write_file overwrite
    let p = preview("write_file", r#"{"path":"a.txt","content":"three"}"#).unwrap().unwrap();
    assert_eq!(p.old, "one\ntwo\n");
    assert_eq!(p.new_, "three");
    assert_eq!(p.path, "a.txt");
    // write_file append
    let p = preview("write_file", r#"{"path":"a.txt","content":"X","mode":"append"}"#)
        .unwrap()
        .unwrap();
    assert_eq!(p.new_, "one\ntwo\nX");
    // edit_file ok
    let p = preview("edit_file", r#"{"path":"a.txt","old_string":"two","new_string":"TWO"}"#)
        .unwrap()
        .unwrap();
    assert_eq!(p.new_, "one\nTWO\n");
    // edit_file missing old_string → error
    assert!(preview("edit_file", r#"{"path":"a.txt","old_string":"nope","new_string":"x"}"#)
        .is_err());
    // read_file → None
    assert!(preview("read_file", r#"{"path":"a.txt"}"#).unwrap().is_none());
}

#[test]
fn preview_errors() {
    let message = |name: &str, args: &str| match preview(name, args) {
        Err(e) => estr(e),
        Ok(_) => panic!("expected an error"),
    };
    assert!(preview("write_file", "{broken").unwrap().is_none());
    assert!(preview("write_file", "{}").unwrap().is_none());
    assert!(preview("edit_file", r#"{"path":7}"#).unwrap().is_none());
    assert!(preview("write_file", r#"{"path":"../a"}"#).unwrap().is_none());
    assert_eq!(message("write_file", r#"{"path":"a.txt"}"#), "tool error: missing content");
    assert_eq!(message("edit_file", r#"{"path":"a.txt"}"#), "tool error: missing old_string");
    assert_eq!(
        message("edit_file", r#"{"path":"a.txt","old_string":""}"#),
        "tool error: old_string must not be empty"
    );
    assert_eq!(
        message("edit_file", r#"{"path":"b.txt","old_string":"x"}"#),
        "tool error: file does not exist: b.txt"
    );
    assert_eq!(
        message("edit_file", r#"{"path":"a.txt","old_string":"zz"}"#),
        "tool error: old_string not found"
    );
    assert_eq!(
        message("edit_file", r#"{"path":"a.txt","old_string":"o"}"#),
        "tool error: old_string occurs 2 times, expected 1"
    );
    let p = preview(
        "edit_file",
        r#"{"path":"a.txt","old_string":"o","expected_replacements":2}"#,
    )
    .unwrap()
    .unwrap();
    assert_eq!(p.new_, "ne\ntw\n");
}

#[test]
fn add_workspace_rejects_nonexistent_or_relative() {
    assert!(check_workspace("relative/path", true).is_err());
    assert!(check_workspace("C:\\definitely\\not\\here\\12345", false).is_err());
    assert_eq!(
        estr(check_workspace("/nowhere", false).unwrap_err()),
        "tool error: not a directory: /nowhere"
    );
    assert!(check_workspace("/ws", true).is_ok());
}

fn entry(name: &str, is_dir: bool) -> Entry {
    Entry { name: name.into(), is_dir }
}

fn walk() -> FileWalk {
    let mut w = FileWalk::new();
    while let Some(dir) = w.next_dir() {
        let entries = match dir.as_str() {
            "" => vec![
                entry("src", true),
                entry("target", true),
                entry(".git", true),
                entry("notes.md", false),
            ],
            "src" => vec![entry("main.rs", false), entry("lib.rs", false)],
            _ => vec![entry("build.o", false)],
        };
        w.take_entries(&dir, &entries);
    }
    w
}

#[test]
fn search_workspace_files_filters_and_caps() {
    let all = walk().finish("");
    assert!(all.contains(&"src/main.rs".to_string()), "{all:?}");
    assert!(!all.iter().any(|p| p.starts_with("target/")), "{all:?}");
    assert_eq!(all, vec!["notes.md", "src/lib.rs", "src/main.rs"]);
    let filtered = walk().finish("lib");
    assert_eq!(filtered, vec!["src/lib.rs".to_string()]);
}

#[test]
fn file_search_ranks_and_bounds() {
    let paths: Vec<String> =
        ["x/Readme.md", "bread/x", "READ", "z/other", "a/thread"].iter().map(|s| s.to_string()).collect();
    assert_eq!(rank_files(paths, "Read"), vec!["READ", "x/Readme.md", "a/thread", "bread/x"]);
    let many: Vec<String> = (0..60).map(|i| format!("f{i:02}")).collect();
    assert_eq!(rank_files(many, "").len(), 50);
    assert_eq!(rank_of("a/bc", "b"), Some(0));
    assert_eq!(rank_of("a/bc", "c"), Some(1));
    assert_eq!(rank_of("a/bc", "d"), None);
    assert_eq!(rank_of("a/bc", ""), Some(1));
    let mut w = FileWalk::new();
    let dir = w.next_dir().unwrap();
    let entries: Vec<Entry> = (0..6000).map(|i| entry(&format!("d{i}"), true)).collect();
    w.take_entries(&dir, &entries);
    assert!(w.next_dir().is_none(), "the bound ends the search");
}

#[test]
fn modes_of_the_frontend() {
    assert_eq!(parse_mode("auto").unwrap(), ApprovalMode::Auto);
    assert_eq!(parse_mode("manual").unwrap(), ApprovalMode::Manual);
    assert_eq!(estr(parse_mode("x").unwrap_err()), "tool error: unknown approval mode: x");
}

#[test]
fn only_ollama_lists_models() {
    let ps = presets();
    assert_eq!(tags_url(&ps[3]).unwrap(), "http://localhost:11434/api/tags");
    assert_eq!(
        estr(tags_url(&ps[0]).unwrap_err()),
        "tool error: model listing is only supported for Ollama"
    );
}

#[test]
fn rewind_restores_files_and_history() {
    match plan_restore("/proj", "keep.txt", Some(b"v1".to_vec())) {
        Ok(Restore::Write { abs, bytes }) => {
            assert_eq!(abs, "/proj/keep.txt");
            assert_eq!(bytes, b"v1");
        }
        _ => panic!("expected a write"),
    }
    match plan_restore("/proj", "made.txt", None) {
        Ok(Restore::Remove { abs }) => assert_eq!(abs, "/proj/made.txt"),
        _ => panic!("expected a removal"),
    }
    assert!(plan_restore("/proj", "../x", None).is_err());

    // Two turns changed keep.txt and made made.txt; their checkpoints come newest first.
    let mut files: BTreeMap<String, Vec<u8>> = BTreeMap::new();
    for (name, text) in [("keep.txt", "v3"), ("made.txt", "new"), ("other.txt", "o")] {
        files.insert(format!("/proj/{name}"), text.into());
    }
    let checkpoints: Vec<(&str, Option<&[u8]>)> = vec![
        ("made.txt", Some(b"half".as_slice())),
        ("keep.txt", Some(b"v2".as_slice())),
        ("made.txt", None),
        ("keep.txt", Some(b"v1".as_slice())),
    ];
    for (path, content) in checkpoints {
        match plan_restore("/proj", path, content.map(|c| c.to_vec())) {
            Ok(Restore::Write { abs, bytes }) => {
                files.insert(abs, bytes);
            }
            Ok(Restore::Remove { abs }) => {
                files.remove(&abs);
            }
            Err(e) => panic!("{e:?}"),
        }
    }
    assert_eq!(files.get("/proj/keep.txt").map(|b| b.as_slice()), Some(b"v1".as_slice()));
    assert!(!files.contains_key("/proj/made.txt"));
    assert_eq!(files.get("/proj/other.txt").map(|b| b.as_slice()), Some(b"o".as_slice()));
    assert_eq!(
        estr(no_checkpoint("a")),
        "tool error: no checkpoint for a at this turn (already reverted or never changed)"
    );
}

#[test]
fn reservation_guard_rejects_duplicate() {
    let mut r: Registry<u32> = Registry::new();
    assert!(r.reserve("c1", 7).is_ok());
    assert_eq!(
        estr(r.reserve("c1", 8).unwrap_err()),
        "tool error: an agent is already running in this conversation"
    );
    assert!(r.reserve("c2", 9).is_ok());
    assert_eq!(*r.get("c1").unwrap(), 7);
    r.release("c1");
    assert_eq!(
        estr(r.get("c1").unwrap_err()),
        "tool error: no agent running in this conversation"
    );
    assert_eq!(*r.get("c2").unwrap(), 9);
    r.release("c1");
    assert!(r.reserve("c1", 10).is_ok());
}

#[test]
fn titles_come_from_the_first_message() {
    assert_eq!(
        auto_title("New Conversation", "  fix \n the\u{a0}bug  ").as_deref(),
        Some("fix the bug")
    );
    assert_eq!(auto_title(" \t", &"é ".repeat(50)).unwrap().chars().count(), 40);
    assert_eq!(auto_title("Mine", "x"), None);
    assert!(split_words(" \n ").is_empty());
}

#[test]
fn blocked_tools_are_left_out() {
    assert_eq!(offered_tools(ExternalPolicy::Ask, default_tools()).len(), 11);
    let inside = offered_tools(ExternalPolicy::Block, default_tools());
    assert_eq!(inside.len(), 8);
    assert_eq!(inside[0].spec.description, default_tools()[0].spec.description);
    assert!(inside.iter().all(|t| !t.spec.name.contains("external")));
}

#[test]
fn workshops_lie_beside_the_configuration() {
    assert_eq!(workshop_dir("/data/config.toml", "c1").as_deref(), Some("/data/workshops/c1"));
    assert_eq!(workshop_dir("config.toml", "c1"), None);
    assert_eq!(workshops_dir("/data/config.toml"), "/data/workshops");
    assert_eq!(workshops_dir("config.toml"), "workshops");
    assert_eq!(workshops_dir(""), "");
}

#[test]
fn checkpoints_are_of_the_file_that_changes() {
    let args = r#"{"path":"sub/../a.txt","content":"x"}"#;
    let ctx = ToolContext { workspace_root: "/ws".into(), workshop_root: Some("/shop".into()) };
    let (path, abs) = BackupCtx::target("/ws", args).unwrap();
    assert_eq!(ctx.resolve(&path).unwrap(), abs);
    assert!(matches!(plan_restore("/ws", &path, None), Ok(Restore::Remove { abs: a }) if a == abs));
    assert_eq!(BackupCtx::target("/ws", r#"{"path":"/shop/a.txt"}"#), None);
}

#[test]
fn a_search_finds_every_file_outside_ignored_directories() {
    // Twenty levels of directories with three files each, and one to leave out on each level.
    let mut w = FileWalk::new();
    let mut read = 0;
    while let Some(dir) = w.next_dir() {
        read += 1;
        let level = if dir.is_empty() { 0 } else { dir.split('/').count() };
        let mut entries = vec![entry("x.rs", false), entry("node_modules", true), entry(".env", false)];
        if level < 20 {
            entries.push(entry("d", true));
        }
        entries.push(entry("y.rs", false));
        w.take_entries(&dir, &entries);
    }
    assert_eq!(read, 21);
    let mut deepest = w.finish("d/d/d/d/d/d/d/d/d/d/d/d/d/d/d/d/d/d/d/d");
    deepest.sort();
    let d = "d/".repeat(20);
    assert_eq!(deepest, vec![format!("{d}.env"), format!("{d}x.rs"), format!("{d}y.rs")]);
}
