use supergravity::json::write_value;
use supergravity::tools::{
    default_tools, is_inside, normalize, resolve_in_workspace, truncate_output, ToolContext,
};

fn abs_root() -> &'static str {
    "/ws"
}

fn abs(path: &str) -> String {
    format!("/ws/{path}")
}

#[test]
fn ctx_resolve_accepts_workspace_and_workshop() {
    let shop = "/workshop".to_string();
    let ctx = ToolContext {
        workspace_root: abs_root().to_string(),
        workshop_root: Some(shop.clone()),
    };
    // Workspace-relative and workshop-absolute both resolve.
    assert_eq!(ctx.resolve("src/a.rs").unwrap(), abs("src/a.rs"));
    let w = shop.replace('\\', "/");
    assert_eq!(ctx.resolve(&format!("{w}/scratch.py")).unwrap(), "/workshop/scratch.py");
    // Absolute paths outside both roots are still rejected.
    assert!(ctx.resolve("/elsewhere/x").is_err());
    // Without a workshop root, the workshop path is rejected too.
    let ctx2 = ToolContext { workspace_root: abs_root().to_string(), workshop_root: None };
    assert!(ctx2.resolve(&format!("{w}/scratch.py")).is_err());
}

#[test]
fn sandbox_accepts_relative_paths() {
    let root = abs_root();
    assert_eq!(resolve_in_workspace(root, "src/main.rs").unwrap(), abs("src/main.rs"));
    assert_eq!(resolve_in_workspace(root, ".").unwrap(), abs_root());
}

#[test]
fn sandbox_normalizes_dot_segments() {
    let root = abs_root();
    assert_eq!(resolve_in_workspace(root, "a/../b").unwrap(), abs("b"));
}

#[test]
fn sandbox_rejects_parent_escape() {
    let root = abs_root();
    assert!(resolve_in_workspace(root, "../outside").is_err());
    assert!(resolve_in_workspace(root, "a/../../outside").is_err());
}

#[test]
fn sandbox_rejects_absolute_escape() {
    let root = "/ws";
    let evil = "/etc/passwd";
    assert!(resolve_in_workspace(root, evil).is_err());
}

#[test]
fn sandbox_rejects_relative_or_empty_root() {
    assert!(resolve_in_workspace(".", "anything").is_err());
    assert!(resolve_in_workspace("", "anything").is_err());
    assert!(resolve_in_workspace("ws", "anything").is_err());
}

#[test]
fn truncate_output_short_strings_unchanged() {
    assert_eq!(truncate_output("hello", 100), "hello");
}

#[test]
fn truncate_output_long_strings_get_note() {
    let s = "x".repeat(100);
    let out = truncate_output(&s, 10);
    assert!(out.starts_with(&"x".repeat(10)));
    assert!(out.contains("truncated"), "{out}");
}

#[test]
fn truncation_respects_characters_and_counts_bytes() {
    assert_eq!(truncate_output("aé", 2), "a\n…[truncated 2 bytes]");
    assert_eq!(truncate_output("€€", 5), "€\n…[truncated 3 bytes]");
    assert_eq!(truncate_output("€", 2), "\n…[truncated 3 bytes]");
    assert_eq!(truncate_output("€", 3), "€");
}

#[test]
fn resolved_paths_stay_inside_and_resolve_to_themselves() {
    for p in ["a//b/./c/", "x/../..//ws/y", "", "/ws", "/ws/../ws/q", "...", "a/.."] {
        match resolve_in_workspace("/ws/", p) {
            Ok(q) => {
                assert!(is_inside("/ws", &q), "{q}");
                assert_eq!(resolve_in_workspace("/ws", &q).unwrap(), q);
            }
            Err(e) => panic!("{p}: {e:?}"),
        }
    }
    assert!(resolve_in_workspace("/ws", "/wsx").is_err());
    assert_eq!(resolve_in_workspace("/", "../../x").unwrap(), "/x");
    assert!(!is_inside("/ws", "ws/a"));
}

#[test]
fn normalization_is_lexical() {
    assert_eq!(normalize("/a/./b//../c/"), "/a/c");
    assert_eq!(normalize("/.."), "/");
    assert_eq!(normalize("../a/b/.."), "a");
    assert_eq!(normalize(""), "");
}

#[test]
fn escape_errors_name_the_path() {
    assert_eq!(
        resolve_in_workspace("/ws", "../x").unwrap_err().message(),
        "tool error: path escapes workspace: ../x"
    );
    assert_eq!(
        resolve_in_workspace("ws", "x").unwrap_err().message(),
        "tool error: workspace root must be an absolute path"
    );
}

#[test]
fn default_tools_are_described() {
    let tools = default_tools();
    let names: Vec<&str> = tools.iter().map(|t| t.spec.name.as_str()).collect();
    assert_eq!(
        names,
        vec![
            "read_file",
            "write_file",
            "edit_file",
            "list_dir",
            "grep",
            "glob",
            "run_shell",
            "update_plan",
            "list_external_dir",
            "read_external_file",
            "write_external_file"
        ]
    );
    let gated: Vec<&str> =
        tools.iter().filter(|t| t.needs_approval).map(|t| t.spec.name.as_str()).collect();
    assert_eq!(
        gated,
        vec![
            "write_file",
            "edit_file",
            "run_shell",
            "list_external_dir",
            "read_external_file",
            "write_external_file"
        ]
    );
    let expected: serde_json::Value = serde_json::from_str(
        r#"{"type": "object",
            "properties": {
                "path": {"type": "string"},
                "content": {"type": "string"},
                "mode": {"type": "string", "enum": ["create", "overwrite", "append"]}
            },
            "required": ["path", "content"]}"#,
    )
    .unwrap();
    assert_eq!(write_value(&tools[1].spec.params_schema), expected);
    let list = write_value(&tools[3].spec.params_schema);
    assert!(list.get("required").is_none());
    let plan = write_value(&tools[7].spec.params_schema);
    assert_eq!(plan["properties"]["steps"]["items"]["required"][1], "status");
}

#[test]
fn relative_paths_do_not_reach_the_workshop() {
    let ctx = ToolContext {
        workspace_root: "/home/u/ws".to_string(),
        workshop_root: Some("/data/shop".to_string()),
    };
    for p in ["../shop/x", "../../../data/shop/x", ".."] {
        assert_eq!(
            ctx.resolve(p).unwrap_err().message(),
            format!("tool error: path escapes workspace: {p}")
        );
    }
    assert_eq!(ctx.resolve("/data/shop/x").unwrap(), "/data/shop/x");
    assert!(ctx.resolve("/data/shop/../x").is_err());
}
