use supergravity::approvals::{ExternalPolicy, Permissions};
use supergravity::config::{AppConfig, KeyStore, MemKeyStore, Prefs};
use supergravity::types::ApprovalMode;

#[test]
fn mem_keystore_roundtrip() {
    let mut ks = MemKeyStore::new();
    assert_eq!(ks.get("openai").unwrap(), None);
    ks.set("openai", "sk-test").unwrap();
    assert_eq!(ks.get("openai").unwrap(), Some("sk-test".into()));
    ks.delete("openai").unwrap();
    assert_eq!(ks.get("openai").unwrap(), None);
}

#[test]
fn mem_keystore_delete_missing_is_ok() {
    let mut ks = MemKeyStore::new();
    assert!(ks.delete("nope").is_ok());
}

#[test]
fn mem_keystore_keeps_keys_apart() {
    let mut ks = MemKeyStore::default();
    ks.set("a", "1").unwrap();
    ks.set("b", "2").unwrap();
    ks.set("a", "3").unwrap();
    assert_eq!(ks.get("a").unwrap().as_deref(), Some("3"));
    ks.delete("a").unwrap();
    assert_eq!(ks.get("a").unwrap(), None);
    assert_eq!(ks.get("b").unwrap().as_deref(), Some("2"));
}

#[test]
fn defaults_of_the_configuration() {
    let cfg = AppConfig::default();
    assert_eq!(cfg.new_conversation_mode(), ApprovalMode::Manual);
    assert_eq!(
        cfg.permissions(),
        Permissions {
            external_policy: ExternalPolicy::Ask,
            workshop_full_access: true,
            project_files_no_ask: false,
            project_shell_no_ask: false,
            workshop_python_no_ask: true,
        }
    );
    let mut off = AppConfig::default();
    off.workshop_python_no_ask = Some(false);
    assert!(!off.permissions().workshop_python_no_ask);
}

#[test]
fn preferences_merge_and_ui_state_replaces() {
    let mut cfg = AppConfig::default();
    cfg.set_prefs(Prefs {
        default_approval_mode: Some("auto".into()),
        notifications_enabled: Some(false),
        external_policy: Some("block".into()),
        workshop_full_access: None,
        project_files_no_ask: None,
        project_shell_no_ask: Some(true),
    });
    cfg.set_prefs(Prefs {
        default_approval_mode: None,
        notifications_enabled: None,
        external_policy: None,
        workshop_full_access: Some(false),
        project_files_no_ask: None,
        project_shell_no_ask: None,
    });
    cfg.set_ui_state(Some("w1".into()), Some("c1".into()));
    cfg.set_ui_state(Some("w2".into()), None);
    let mut expected = AppConfig::default();
    expected.default_approval_mode = Some("auto".into());
    expected.notifications_enabled = Some(false);
    expected.external_policy = Some("block".into());
    expected.workshop_full_access = Some(false);
    expected.project_shell_no_ask = Some(true);
    expected.last_workspace_id = Some("w2".into());
    assert_eq!(cfg, expected);
    assert_eq!(cfg.new_conversation_mode(), ApprovalMode::Auto);
    assert_eq!(cfg.permissions().external_policy, ExternalPolicy::Block);
    assert!(!cfg.permissions().workshop_full_access);
    assert!(cfg.permissions().project_shell_no_ask);
}

#[test]
fn ui_state_roundtrip() {
    let mut cfg = AppConfig::default();
    assert!(cfg.last_conversation_id.is_none());
    cfg.set_ui_state(Some("w1".into()), Some("c1".into()));
    assert_eq!(cfg.last_workspace_id.as_deref(), Some("w1"));
    assert_eq!(cfg.last_conversation_id.as_deref(), Some("c1"));
}
