//! What is kept of workspaces, conversations and providers, and the words for it in the database.
use crate::error::{Error, ErrorView};
use crate::types::{ApprovalMode, ProviderConfig, ProviderKind, Role};
use crate::{ids, text};
use vstd::prelude::*;
use vstd::string::*;

verus! {

#[derive(Debug, Clone, PartialEq)]
pub struct WorkspaceRow {
    pub id: String,
    pub name: String,
    pub path: String,
    pub created_at: i64,
}

#[derive(Debug, Clone, PartialEq)]
pub struct ConversationRow {
    pub id: String,
    pub workspace_id: String,
    pub title: String,
    pub provider_id: String,
    pub model: String,
    pub approval_mode: ApprovalMode,
    pub created_at: i64,
    pub updated_at: i64,
}

/// A fresh identifier for a row.
pub fn new_id() -> (r: String)
    ensures
        ids::is_uuid(r@),
{
    ids::new_uuid()
}

/// The word for an approval mode.
pub open spec fn mode_word(mode: ApprovalMode) -> Seq<char> {
    match mode {
        ApprovalMode::Manual => "manual"@,
        ApprovalMode::Auto => "auto"@,
    }
}

/// The approval mode that a word stands for.
pub open spec fn word_mode(s: Seq<char>) -> ApprovalMode {
    if s == "auto"@ {
        ApprovalMode::Auto
    } else {
        ApprovalMode::Manual
    }
}

/// The word for an approval mode.
pub fn mode_str(mode: ApprovalMode) -> (r: &'static str)
    ensures
        r@ == mode_word(mode),
{
    match mode {
        ApprovalMode::Manual => "manual",
        ApprovalMode::Auto => "auto",
    }
}

/// The approval mode that a word stands for; anything unknown is manual.
pub fn str_mode(s: &str) -> (r: ApprovalMode)
    ensures
        r == word_mode(s@),
{
    if text::str_eq(s, "auto") {
        ApprovalMode::Auto
    } else {
        ApprovalMode::Manual
    }
}

/// The word for a protocol.
pub open spec fn kind_word(kind: ProviderKind) -> Seq<char> {
    match kind {
        ProviderKind::OpenAi => "open_ai"@,
        ProviderKind::Anthropic => "anthropic"@,
        ProviderKind::Gemini => "gemini"@,
        ProviderKind::Ollama => "ollama"@,
        ProviderKind::OpenAiCompatible => "open_ai_compatible"@,
    }
}

/// The protocol that a word stands for.
pub open spec fn word_kind(s: Seq<char>) -> ProviderKind {
    if s == "anthropic"@ {
        ProviderKind::Anthropic
    } else if s == "gemini"@ {
        ProviderKind::Gemini
    } else if s == "ollama"@ {
        ProviderKind::Ollama
    } else if s == "open_ai_compatible"@ {
        ProviderKind::OpenAiCompatible
    } else {
        ProviderKind::OpenAi
    }
}

/// The word for a protocol.
pub fn kind_str(kind: ProviderKind) -> (r: &'static str)
    ensures
        r@ == kind_word(kind),
{
    match kind {
        ProviderKind::OpenAi => "open_ai",
        ProviderKind::Anthropic => "anthropic",
        ProviderKind::Gemini => "gemini",
        ProviderKind::Ollama => "ollama",
        ProviderKind::OpenAiCompatible => "open_ai_compatible",
    }
}

/// The protocol that a word stands for; anything unknown is OpenAI's.
pub fn str_kind(s: &str) -> (r: ProviderKind)
    ensures
        r == word_kind(s@),
{
    if text::str_eq(s, "anthropic") {
        ProviderKind::Anthropic
    } else if text::str_eq(s, "gemini") {
        ProviderKind::Gemini
    } else if text::str_eq(s, "ollama") {
        ProviderKind::Ollama
    } else if text::str_eq(s, "open_ai_compatible") {
        ProviderKind::OpenAiCompatible
    } else {
        ProviderKind::OpenAi
    }
}

/// The word for a role.
pub open spec fn role_word(role: Role) -> Seq<char> {
    match role {
        Role::System => "system"@,
        Role::User => "user"@,
        Role::Assistant => "assistant"@,
        Role::Tool => "tool"@,
    }
}

/// The role that a word stands for.
pub open spec fn word_role(s: Seq<char>) -> Role {
    if s == "system"@ {
        Role::System
    } else if s == "assistant"@ {
        Role::Assistant
    } else if s == "tool"@ {
        Role::Tool
    } else {
        Role::User
    }
}

/// The word for a role.
pub fn role_str(role: Role) -> (r: &'static str)
    ensures
        r@ == role_word(role),
{
    match role {
        Role::System => "system",
        Role::User => "user",
        Role::Assistant => "assistant",
        Role::Tool => "tool",
    }
}

/// The role that a word stands for; anything unknown is the user's.
pub fn str_role(s: &str) -> (r: Role)
    ensures
        r == word_role(s@),
{
    if text::str_eq(s, "system") {
        Role::System
    } else if text::str_eq(s, "assistant") {
        Role::Assistant
    } else if text::str_eq(s, "tool") {
        Role::Tool
    } else {
        Role::User
    }
}

/// A mode that is written is read back.
pub proof fn modes_read_back(mode: ApprovalMode)
    ensures
        word_mode(mode_word(mode)) == mode,
{
    reveal_strlit("manual");
    reveal_strlit("auto");
    assert("manual"@.len() != "auto"@.len());
}

/// A protocol that is written is read back.
pub proof fn kinds_read_back(kind: ProviderKind)
    ensures
        word_kind(kind_word(kind)) == kind,
{
    reveal_strlit("open_ai");
    reveal_strlit("anthropic");
    reveal_strlit("gemini");
    reveal_strlit("ollama");
    reveal_strlit("open_ai_compatible");
    assert("open_ai"@.len() == 7 && "anthropic"@.len() == 9 && "gemini"@.len() == 6);
    assert("ollama"@.len() == 6 && "open_ai_compatible"@.len() == 18);
    assert("gemini"@[0] == 'g' && "ollama"@[0] == 'o');
}

/// A role that is written is read back.
pub proof fn roles_read_back(role: Role)
    ensures
        word_role(role_word(role)) == role,
{
    reveal_strlit("system");
    reveal_strlit("user");
    reveal_strlit("assistant");
    reveal_strlit("tool");
    assert("system"@.len() == 6 && "user"@.len() == 4 && "assistant"@.len() == 9);
    assert("tool"@.len() == 4 && "tool"@[0] == 't' && "user"@[0] == 'u');
}

/// The first provider with an identifier.
pub open spec fn provider_index(list: Seq<ProviderConfig>, id: Seq<char>) -> Option<int>
    decreases list.len(),
{
    if list.len() == 0 {
        None
    } else if list[0].id@ == id {
        Some(0)
    } else {
        match provider_index(list.drop_first(), id) {
            Some(k) => Some(k + 1),
            None => None,
        }
    }
}

/// Finds the provider with an identifier.
pub fn find_provider(list: Vec<ProviderConfig>, id: &str) -> (r: Result<ProviderConfig, Error>)
    ensures
        match r {
            Ok(p) => provider_index(list@, id@) is Some && p == list@[provider_index(
                list@,
                id@,
            )->0],
            Err(e) => provider_index(list@, id@) is None && e@ == ErrorView::Config(
                "unknown provider: "@ + id@,
            ),
        },
{
    match find_index(&list, id) {
        Some(i) => {
            let mut items = list;
            Ok(items.swap_remove(i))
        },
        None => Err(Error::Config(text::concat2("unknown provider: ", id))),
    }
}

fn find_index(list: &Vec<ProviderConfig>, id: &str) -> (r: Option<usize>)
    ensures
        match r {
            Some(i) => i < list.len() && provider_index(list@, id@) == Some(i as int),
            None => provider_index(list@, id@) is None,
        },
{
    let ghost all = list@;
    let mut i: usize = 0;
    assert(all.skip(0) =~= all);
    while i < list.len()
        invariant
            i <= list.len(),
            list@ == all,
            provider_index(all, id@) == (match provider_index(all.skip(i as int), id@) {
                Some(k) => Some(k + i),
                None => None,
            }),
        decreases list.len() - i,
    {
        assert(all.skip(i as int)[0] == all[i as int]);
        assert(all.skip(i as int).drop_first() =~= all.skip(i + 1));
        if text::str_eq(list[i].id.as_str(), id) {
            return Some(i);
        }
        i += 1;
    }
    None
}

/// A word that is none of those written stands for the manual mode, OpenAI's protocol and the
/// user's role.
pub proof fn unknown_words_are_the_cautious_ones(s: Seq<char>)
    ensures
        (forall|m: ApprovalMode| s != #[trigger] mode_word(m)) ==> word_mode(s)
            == ApprovalMode::Manual,
        (forall|k: ProviderKind| s != #[trigger] kind_word(k)) ==> word_kind(s)
            == ProviderKind::OpenAi,
        (forall|r: Role| s != #[trigger] role_word(r)) ==> word_role(s) == Role::User,
{
    if forall|m: ApprovalMode| s != #[trigger] mode_word(m) {
        assert(s != mode_word(ApprovalMode::Auto));
    }
    if forall|k: ProviderKind| s != #[trigger] kind_word(k) {
        assert(s != kind_word(ProviderKind::Anthropic));
        assert(s != kind_word(ProviderKind::Gemini));
        assert(s != kind_word(ProviderKind::Ollama));
        assert(s != kind_word(ProviderKind::OpenAiCompatible));
    }
    if forall|r: Role| s != #[trigger] role_word(r) {
        assert(s != role_word(Role::System));
        assert(s != role_word(Role::Assistant));
        assert(s != role_word(Role::Tool));
    }
}

/// The words that are written, one for each mode, protocol and role.
pub proof fn words_that_are_written()
    ensures
        mode_word(ApprovalMode::Manual) == "manual"@,
        mode_word(ApprovalMode::Auto) == "auto"@,
        kind_word(ProviderKind::OpenAi) == "open_ai"@,
        kind_word(ProviderKind::Anthropic) == "anthropic"@,
        kind_word(ProviderKind::Gemini) == "gemini"@,
        kind_word(ProviderKind::Ollama) == "ollama"@,
        kind_word(ProviderKind::OpenAiCompatible) == "open_ai_compatible"@,
        role_word(Role::System) == "system"@,
        role_word(Role::User) == "user"@,
        role_word(Role::Assistant) == "assistant"@,
        role_word(Role::Tool) == "tool"@,
{
}

/// The provider that is found has the identifier, and none before it has; where none is found,
/// none of the list has it.
pub proof fn first_provider_with_the_identifier(list: Seq<ProviderConfig>, id: Seq<char>)
    ensures
        match provider_index(list, id) {
            Some(k) => 0 <= k < list.len() && list[k].id@ == id && forall|i: int|
                0 <= i < k ==> (#[trigger] list[i]).id@ != id,
            None => forall|i: int| 0 <= i < list.len() ==> (#[trigger] list[i]).id@ != id,
        },
    decreases list.len(),
{
    if list.len() > 0 && list[0].id@ != id {
        let t = list.drop_first();
        first_provider_with_the_identifier(t, id);
        assert forall|i: int|
            0 < i < list.len() && (provider_index(t, id) is None || i - 1 < provider_index(
                t,
                id,
            )->0) implies (#[trigger] list[i]).id@ != id by {
            assert(t[i - 1] == list[i]);
        }
    }
}

} // verus!
