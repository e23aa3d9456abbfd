use supergravity::error::Error;
use supergravity::tools::search::{
    glob_pattern, is_binary, is_skipped_dir, relative_to, GlobSearch, Grep, GlobTool, GrepTool,
};

const FILES: [(&str, &[u8]); 3] = [
    ("/ws/src/main.rs", b"fn main() {\n    let needle = 1;\n}\n"),
    ("/ws/src/lib.rs", b"pub fn helper() {}\n"),
    ("/ws/notes.md", b"a needle in markdown\n"),
];

fn name(path: &str) -> &str {
    path.rsplit('/').next().unwrap()
}

fn grep_in(files: &[(&str, &[u8])], pattern: &str, filter: Option<&str>) -> Result<String, Error> {
    let mut g = Grep::new(pattern, &filter.map(String::from))?;
    for (path, bytes) in files {
        let dirs: Vec<&str> = path.strip_prefix("/ws/").unwrap().split('/').collect();
        let skipped = dirs[..dirs.len() - 1]
            .iter()
            .enumerate()
            .any(|(i, d)| is_skipped_dir(d, i + 1, true));
        if skipped || g.is_full() || !g.wants(name(path), Some(bytes.len() as u64)) {
            continue;
        }
        g.search(&relative_to("/ws", path), bytes);
    }
    Ok(g.finish())
}

#[test]
fn grep_finds_matches_with_locations() {
    let out = grep_in(&FILES, "needle", None).unwrap();
    assert!(out.contains("src/main.rs:2:"), "{out}");
    assert!(out.contains("notes.md:1:"), "{out}");
    assert!(!out.contains("lib.rs"), "{out}");
    assert_eq!(out, "src/main.rs:2:     let needle = 1;\nnotes.md:1: a needle in markdown");
}

#[test]
fn grep_glob_filter() {
    let out = grep_in(&FILES, "needle", Some("*.rs")).unwrap();
    assert!(out.contains("src/main.rs:2:"), "{out}");
    assert!(!out.contains("notes.md"), "{out}");
}

#[test]
fn grep_no_matches() {
    let out = grep_in(&FILES, "zzz", None).unwrap();
    assert!(out.contains("no matches"), "{out}");
}

#[test]
fn grep_bad_regex_is_error() {
    match grep_in(&FILES, "([", None) {
        Err(Error::Regex(m)) => assert!(!m.is_empty()),
        other => panic!("{other:?}"),
    }
    match grep_in(&FILES, "x", Some("a[")) {
        Err(Error::Tool(m)) => assert!(m.starts_with("bad glob: "), "{m}"),
        other => panic!("{other:?}"),
    }
}

#[test]
fn grep_skips_hidden_dirs_and_target() {
    let mut files = FILES.to_vec();
    files.push(("/ws/.git/config", b"needle-in-git\n"));
    files.push(("/ws/target/out.txt", b"needle-in-target\n"));
    let out = grep_in(&files, "needle", None).unwrap();
    assert!(!out.contains(".git"), "{out}");
    assert!(!out.contains("target"), "{out}");
    assert!(out.contains("src/main.rs"), "{out}");
}

#[test]
fn grep_skips_binary_files() {
    let mut files = FILES.to_vec();
    files.push(("/ws/blob.bin", b"\x00\x01needle-binary\x02"));
    let out = grep_in(&files, "needle", None).unwrap();
    assert!(!out.contains("blob.bin"), "{out}");
}

#[test]
fn grep_is_capped() {
    let text = "hit \n".repeat(150);
    let mut g = Grep::new("^hit", &None).unwrap();
    g.search("a", text.as_bytes());
    assert!(!g.is_full());
    g.search("b", text.as_bytes());
    assert!(g.is_full());
    g.search("c", text.as_bytes());
    let out = g.finish();
    let lines: Vec<&str> = out.lines().collect();
    assert_eq!(lines.len(), 201);
    assert_eq!(lines[0], "a:1: hit");
    assert_eq!(lines[199], "b:50: hit");
    assert_eq!(lines[200], "…[capped at 200 matches]");
}

#[test]
fn grep_leaves_large_and_unknown_files_out() {
    let g = Grep::new("x", &None).unwrap();
    assert!(g.wants("f", Some(5 * 1024 * 1024)));
    assert!(!g.wants("f", Some(5 * 1024 * 1024 + 1)));
    assert!(!g.wants("f", None));
}

fn glob_in(files: &[(&str, bool)], pattern: &str) -> Result<String, Error> {
    let full = glob_pattern("/ws", pattern)?;
    let p = glob::Pattern::new(&full).unwrap();
    let mut s = GlobSearch::new("/ws");
    for (path, is_file) in files {
        if p.matches(path) && !s.take(path, *is_file) {
            break;
        }
    }
    Ok(s.finish())
}

const TREE: [(&str, bool); 4] =
    [("/ws/src", false), ("/ws/src/main.rs", true), ("/ws/src/lib.rs", true), ("/ws/notes.md", true)];

#[test]
fn glob_finds_files() {
    let out = glob_in(&TREE, "**/*.rs").unwrap();
    assert!(out.contains("src/main.rs"), "{out}");
    assert!(out.contains("src/lib.rs"), "{out}");
    assert!(!out.contains("notes.md"), "{out}");
    assert_eq!(out, "src/lib.rs\nsrc/main.rs");
}

#[test]
fn glob_no_matches() {
    let out = glob_in(&TREE, "**/*.xyz").unwrap();
    assert!(out.contains("no matches"), "{out}");
}

#[test]
fn glob_rejects_parent_escape() {
    assert!(glob_in(&TREE, "../../*").is_err());
    assert!(glob_in(&TREE, "**/../*").is_err());
    match glob_pattern("/ws", "/etc/*") {
        Err(Error::Tool(m)) => assert_eq!(m, "glob pattern escapes workspace: /etc/*"),
        other => panic!("{other:?}"),
    }
    assert_eq!(glob_pattern("/ws/", "a..b/*").unwrap(), "/ws/a..b/*");
}

#[test]
fn glob_lists_files_not_dirs() {
    let out = glob_in(&TREE, "**/*").unwrap();
    assert!(out.contains("src/main.rs"), "{out}");
    assert!(!out.lines().any(|l| l == "src"), "dirs must not be listed: {out}");
}

#[test]
fn glob_is_capped_and_stays_in_the_workspace() {
    let mut s = GlobSearch::new("/ws");
    assert!(s.take("/elsewhere/x", true));
    for i in 0..499 {
        assert!(s.take(&format!("/ws/{i:03}"), true));
    }
    assert!(!s.take("/ws/last", true));
    assert!(!s.take("/ws/more", true));
    let out = s.finish();
    let lines: Vec<&str> = out.lines().collect();
    assert_eq!(lines.len(), 501);
    assert_eq!(lines[0], "000");
    assert_eq!(lines[499], "last");
    assert_eq!(lines[500], "…[capped at 500 results]");
}

#[test]
fn skipped_directories_and_binary_files() {
    assert!(!is_skipped_dir(".tmp", 0, true));
    assert!(!is_skipped_dir("target", 2, false));
    assert!(is_skipped_dir("node_modules", 1, true));
    assert!(is_skipped_dir(".idea", 3, true));
    assert!(!is_skipped_dir("src", 1, true));
    let mut bytes = vec![b'a'; 8192];
    bytes.push(0);
    assert!(!is_binary(&bytes));
    bytes[8191] = 0;
    assert!(is_binary(&bytes));
    assert!(!is_binary(&[]));
    assert!(!GrepTool.needs_approval());
    assert!(!GlobTool.needs_approval());
}

#[test]
fn relative_paths() {
    assert_eq!(relative_to("/ws", "/ws/a/b"), "a/b");
    assert_eq!(relative_to("/ws", "/wsx/a"), "/wsx/a");
    assert_eq!(relative_to("/ws", "/ws"), "");
}
