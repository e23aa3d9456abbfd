use supergravity::error::Error;
use supergravity::providers::presets;
use supergravity::store::{
    find_provider, kind_str, mode_str, new_id, role_str, str_kind, str_mode, str_role,
};
use supergravity::types::{ApprovalMode, ProviderKind, Role};

#[test]
fn words_read_back() {
    for m in [ApprovalMode::Manual, ApprovalMode::Auto] {
        assert_eq!(str_mode(mode_str(m)), m);
    }
    for k in [
        ProviderKind::OpenAi,
        ProviderKind::Anthropic,
        ProviderKind::Gemini,
        ProviderKind::Ollama,
        ProviderKind::OpenAiCompatible,
    ] {
        assert_eq!(str_kind(kind_str(k)), k);
    }
    for r in [Role::System, Role::User, Role::Assistant, Role::Tool] {
        assert_eq!(str_role(role_str(r)), r);
    }
}

#[test]
fn unknown_words_have_defaults() {
    assert_eq!(str_mode("AUTO"), ApprovalMode::Manual);
    assert_eq!(str_kind("x"), ProviderKind::OpenAi);
    assert_eq!(str_role(""), Role::User);
    assert_eq!(mode_str(ApprovalMode::Manual), "manual");
    assert_eq!(kind_str(ProviderKind::OpenAiCompatible), "open_ai_compatible");
    assert_eq!(role_str(Role::Assistant), "assistant");
}

#[test]
fn providers_are_found_by_id() {
    assert_eq!(find_provider(presets(), "gemini").unwrap().label, "Gemini");
    match find_provider(presets(), "nope") {
        Err(Error::Config(m)) => assert_eq!(m, "unknown provider: nope"),
        _ => panic!("expected a configuration error"),
    }
}

#[test]
fn fresh_identifiers_have_their_form() {
    let id = new_id();
    assert_eq!(id.len(), 36);
    assert_eq!(id.matches('-').count(), 4);
    assert_ne!(id, new_id());
}
