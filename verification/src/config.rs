//! API keys and the preferences of the application.
use crate::approvals::{ExternalPolicy, Permissions};
use crate::error::Error;
use crate::types::ApprovalMode;
use crate::{approvals, providers, text};
use vstd::prelude::*;
use vstd::string::*;

verus! {

/// API-key storage. Keys are addressed by provider id.
pub trait KeyStore {
    fn get(&self, provider_id: &str) -> Result<Option<String>, Error>;

    fn set(&mut self, provider_id: &str, key: &str) -> Result<(), Error>;

    fn delete(&mut self, provider_id: &str) -> Result<(), Error>;
}

/// What a list of keys holds: a later key replaces an earlier one of the same provider.
pub open spec fn key_map(pairs: Seq<(String, String)>) -> Map<Seq<char>, Seq<char>>
    decreases pairs.len(),
{
    if pairs.len() == 0 {
        Map::empty()
    } else {
        key_map(pairs.drop_last()).insert(pairs.last().0@, pairs.last().1@)
    }
}

/// In-memory store for tests and headless development.
pub struct MemKeyStore {
    inner: Vec<(String, String)>,
}

impl MemKeyStore {
    /// The keys, by provider.
    pub closed spec fn view(self) -> Map<Seq<char>, Seq<char>> {
        key_map(self.inner@)
    }

    /// A store without keys.
    pub fn new() -> (r: Self)
        ensures
            r@ == Map::<Seq<char>, Seq<char>>::empty(),
    {
        MemKeyStore { inner: Vec::new() }
    }

    fn drop_key(&mut self, provider_id: &str)
        ensures
            final(self)@ == old(self)@.remove(provider_id@),
    {
        let ghost all = self.inner@;
        let mut kept: Vec<(String, String)> = Vec::new();
        let mut i: usize = 0;
        assert(key_map(kept@) =~= key_map(all.take(0)).remove(provider_id@));
        while i < self.inner.len()
            invariant
                i <= self.inner.len(),
                self.inner@ == all,
                key_map(kept@) == key_map(all.take(i as int)).remove(provider_id@),
            decreases self.inner.len() - i,
        {
            let ghost before = key_map(all.take(i as int));
            proof {
                assert(all.take(i + 1).drop_last() =~= all.take(i as int));
                assert(all.take(i + 1).last() == all[i as int]);
            }
            if !text::str_eq(self.inner[i].0.as_str(), provider_id) {
                let p = (self.inner[i].0.clone(), self.inner[i].1.clone());
                assert(kept@.push(p).drop_last() =~= kept@);
                kept.push(p);
            }
            assert(key_map(kept@) =~= key_map(all.take(i + 1)).remove(provider_id@));
            i += 1;
        }
        assert(all.take(all.len() as int) =~= all);
        self.inner = kept;
    }
}

impl Default for MemKeyStore {
    fn default() -> (r: Self)
        ensures
            r@ == Map::<Seq<char>, Seq<char>>::empty(),
    {
        MemKeyStore::new()
    }
}

impl KeyStore for MemKeyStore {
    fn get(&self, provider_id: &str) -> (r: Result<Option<String>, Error>)
        ensures
            r is Ok,
            text::opt_view(r->Ok_0) == (if self@.contains_key(provider_id@) {
                Some(self@[provider_id@])
            } else {
                None
            }),
    {
        let pairs = &self.inner;
        let mut i: usize = pairs.len();
        assert(pairs@.take(i as int) =~= pairs@);
        while i > 0
            invariant
                i <= pairs.len(),
                self@ == key_map(pairs@),
                self@.contains_key(provider_id@) == key_map(pairs@.take(i as int)).contains_key(
                    provider_id@,
                ),
                self@.contains_key(provider_id@) ==> self@[provider_id@] == key_map(
                    pairs@.take(i as int),
                )[provider_id@],
            decreases i,
        {
            i -= 1;
            assert(pairs@.take(i + 1).drop_last() =~= pairs@.take(i as int));
            assert(pairs@.take(i + 1).last() == pairs@[i as int]);
            if text::str_eq(pairs[i].0.as_str(), provider_id) {
                return Ok(Some(pairs[i].1.clone()));
            }
        }
        Ok(None)
    }

    fn set(&mut self, provider_id: &str, key: &str) -> (r: Result<(), Error>)
        ensures
            r is Ok,
            final(self)@ == old(self)@.insert(provider_id@, key@),
    {
        self.drop_key(provider_id);
        let p = (provider_id.to_owned(), key.to_owned());
        proof {
            assert(self.inner@.push(p).drop_last() =~= self.inner@);
            assert(old(self)@.remove(provider_id@).insert(provider_id@, key@) =~= old(self)@.insert(
                provider_id@,
                key@,
            ));
        }
        self.inner.push(p);
        Ok(())
    }

    fn delete(&mut self, provider_id: &str) -> (r: Result<(), Error>)
        ensures
            r is Ok,
            final(self)@ == old(self)@.remove(provider_id@),
    {
        self.drop_key(provider_id);
        Ok(())
    }
}

/// Non-secret app config.
#[derive(Debug, Clone, PartialEq)]
pub struct AppConfig {
    pub last_workspace_id: Option<String>,
    pub last_conversation_id: Option<String>,
    /// Default approval mode for NEW conversations ("auto" | "manual"; None = manual).
    pub default_approval_mode: Option<String>,
    /// Toast/flash notifications while unfocused (None = on).
    pub notifications_enabled: Option<bool>,
    /// External (sandbox-crossing) tool policy: "ask" | "allow" | "block" (None = ask).
    pub external_policy: Option<String>,
    /// Run workshop python without prompting (None = on).
    pub workshop_python_no_ask: Option<bool>,
    /// Whatever is scoped to the Workshop runs without prompting (None = on).
    pub workshop_full_access: Option<bool>,
    /// File changes in the project run without prompting (None = off).
    pub project_files_no_ask: Option<bool>,
    /// Shell commands in the project run without prompting (None = off).
    pub project_shell_no_ask: Option<bool>,
}

/// Changes to the preferences; what is not given stays as it is.
pub struct Prefs {
    pub default_approval_mode: Option<String>,
    pub notifications_enabled: Option<bool>,
    pub external_policy: Option<String>,
    pub workshop_full_access: Option<bool>,
    pub project_files_no_ask: Option<bool>,
    pub project_shell_no_ask: Option<bool>,
}

/// The new value, or the old one where none is given.
pub open spec fn merged<T>(new: Option<T>, old_value: Option<T>) -> Option<T> {
    match new {
        Some(v) => Some(v),
        None => old_value,
    }
}

/// The value, or a default.
pub open spec fn or_default(v: Option<bool>, default: bool) -> bool {
    match v {
        Some(b) => b,
        None => default,
    }
}

impl Default for AppConfig {
    fn default() -> (r: Self)
        ensures
            r == (AppConfig {
                last_workspace_id: None,
                last_conversation_id: None,
                default_approval_mode: None,
                notifications_enabled: None,
                external_policy: None,
                workshop_python_no_ask: None,
                workshop_full_access: None,
                project_files_no_ask: None,
                project_shell_no_ask: None,
            }),
    {
        AppConfig {
            last_workspace_id: None,
            last_conversation_id: None,
            default_approval_mode: None,
            notifications_enabled: None,
            external_policy: None,
            workshop_python_no_ask: None,
            workshop_full_access: None,
            project_files_no_ask: None,
            project_shell_no_ask: None,
        }
    }
}

fn pick(b: Option<bool>, default: bool) -> (r: bool)
    ensures
        r == or_default(b, default),
{
    match b {
        Some(v) => v,
        None => default,
    }
}

impl AppConfig {
    /// The approval mode of a new conversation.
    pub fn new_conversation_mode(&self) -> (r: ApprovalMode)
        ensures
            r == (if text::opt_view(self.default_approval_mode) == Some("auto"@) {
                ApprovalMode::Auto
            } else {
                ApprovalMode::Manual
            }),
    {
        match &self.default_approval_mode {
            Some(m) => if text::str_eq(m.as_str(), "auto") {
                ApprovalMode::Auto
            } else {
                ApprovalMode::Manual
            },
            None => ApprovalMode::Manual,
        }
    }

    /// The permissions of a run.
    pub fn permissions(&self) -> (r: Permissions)
        ensures
            r == (Permissions {
                external_policy: approvals::policy_of(text::opt_view(self.external_policy)),
                workshop_full_access: or_default(self.workshop_full_access, true),
                project_files_no_ask: or_default(self.project_files_no_ask, false),
                project_shell_no_ask: or_default(self.project_shell_no_ask, false),
                workshop_python_no_ask: or_default(self.workshop_python_no_ask, true),
            }),
    {
        Permissions {
            external_policy: ExternalPolicy::from_config(
                providers::as_deref(&self.external_policy),
            ),
            workshop_full_access: pick(self.workshop_full_access, true),
            project_files_no_ask: pick(self.project_files_no_ask, false),
            project_shell_no_ask: pick(self.project_shell_no_ask, false),
            workshop_python_no_ask: pick(self.workshop_python_no_ask, true),
        }
    }

    /// Remembers what is open; nothing else changes.
    pub fn set_ui_state(
        &mut self,
        last_workspace_id: Option<String>,
        last_conversation_id: Option<String>,
    )
        ensures
            *final(self) == (AppConfig {
                last_workspace_id,
                last_conversation_id,
                ..*old(self)
            }),
    {
        self.last_workspace_id = last_workspace_id;
        self.last_conversation_id = last_conversation_id;
    }

    /// Merge-only update of the preferences (None leaves the field unchanged).
    pub fn set_prefs(&mut self, p: Prefs)
        ensures
            *final(self) == (AppConfig {
                last_workspace_id: old(self).last_workspace_id,
                last_conversation_id: old(self).last_conversation_id,
                default_approval_mode: merged(
                    p.default_approval_mode,
                    old(self).default_approval_mode,
                ),
                notifications_enabled: merged(
                    p.notifications_enabled,
                    old(self).notifications_enabled,
                ),
                external_policy: merged(p.external_policy, old(self).external_policy),
                workshop_python_no_ask: old(self).workshop_python_no_ask,
                workshop_full_access: merged(
                    p.workshop_full_access,
                    old(self).workshop_full_access,
                ),
                project_files_no_ask: merged(
                    p.project_files_no_ask,
                    old(self).project_files_no_ask,
                ),
                project_shell_no_ask: merged(
                    p.project_shell_no_ask,
                    old(self).project_shell_no_ask,
                ),
            }),
    {
        if p.default_approval_mode.is_some() {
            self.default_approval_mode = p.default_approval_mode;
        }
        if p.notifications_enabled.is_some() {
            self.notifications_enabled = p.notifications_enabled;
        }
        if p.external_policy.is_some() {
            self.external_policy = p.external_policy;
        }
        if p.workshop_full_access.is_some() {
            self.workshop_full_access = p.workshop_full_access;
        }
        if p.project_files_no_ask.is_some() {
            self.project_files_no_ask = p.project_files_no_ask;
        }
        if p.project_shell_no_ask.is_some() {
            self.project_shell_no_ask = p.project_shell_no_ask;
        }
    }
}

/// A key that was set is the one that is read; a key that was deleted is gone; the keys of other
/// providers stay.
pub proof fn keys_are_kept_apart(
    keys: Map<Seq<char>, Seq<char>>,
    id: Seq<char>,
    other: Seq<char>,
    key: Seq<char>,
)
    requires
        id != other,
    ensures
        keys.insert(id, key)[id] == key,
        keys.insert(id, key).contains_key(id),
        !keys.remove(id).contains_key(id),
        keys.insert(id, key).contains_key(other) == keys.contains_key(other),
        keys.remove(id).contains_key(other) == keys.contains_key(other),
        keys.contains_key(other) ==> keys.insert(id, key)[other] == keys[other]
            && keys.remove(id)[other] == keys[other],
{
}

/// A preference that is given replaces the old one, and one that is not given leaves it; a switch
/// that is set counts, and one that is not set has its default.
pub proof fn given_preferences_count<T>(v: T, old_value: Option<T>, b: bool, default: bool)
    ensures
        merged(Some(v), old_value) == Some(v),
        merged(None, old_value) == old_value,
        or_default(Some(b), default) == b,
        or_default(None, default) == default,
{
}

} // verus!
