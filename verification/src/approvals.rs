//! Tool calls that wait for the decision of the user.
use crate::error::{Error, ErrorView};
use crate::json::{Json, JsonView};
use crate::types::{AgentEvent, AgentEventView, ApprovalMode};
use crate::{ids, json, text, tools, types};
use vstd::prelude::*;
use vstd::string::*;

verus! {

/// How external (sandbox-crossing) tools are gated.
#[derive(Debug, Clone, Copy, PartialEq, Eq, Structural)]
pub enum ExternalPolicy {
    /// Prompt every time (default).
    Ask,
    /// Allow without prompting.
    Allow,
    /// Don't offer external tools at all.
    Block,
}

/// The policy that a configured word stands for.
pub open spec fn policy_of(s: Option<Seq<char>>) -> ExternalPolicy {
    if s == Some("allow"@) {
        ExternalPolicy::Allow
    } else if s == Some("block"@) {
        ExternalPolicy::Block
    } else {
        ExternalPolicy::Ask
    }
}

impl ExternalPolicy {
    /// The policy that a configured word stands for; the default for anything else.
    pub fn from_config(s: Option<&str>) -> (r: Self)
        ensures
            r == policy_of(
                match s {
                    Some(t) => Some(t@),
                    None => None,
                },
            ),
    {
        match s {
            Some(t) => if text::str_eq(t, "allow") {
                ExternalPolicy::Allow
            } else if text::str_eq(t, "block") {
                ExternalPolicy::Block
            } else {
                ExternalPolicy::Ask
            },
            None => ExternalPolicy::Ask,
        }
    }
}

/// Tools that ALWAYS prompt the user, even in Auto mode: they cross the workspace sandbox
/// boundary, so auto-approving them would defeat the point.
pub open spec fn crosses_sandbox(name: Seq<char>) -> bool {
    name == "list_external_dir"@ || name == "read_external_file"@ || name
        == "write_external_file"@
}

/// Whether a tool crosses the workspace sandbox boundary.
pub fn is_external(name: &str) -> (r: bool)
    ensures
        r == crosses_sandbox(name@),
{
    text::str_eq(name, "list_external_dir") || text::str_eq(name, "read_external_file")
        || text::str_eq(name, "write_external_file")
}

/// Whether the call's `path` argument is an absolute path inside the Workshop. Relative paths
/// anchor to the workspace, so they follow normal approval rules.
pub open spec fn path_in_workshop(workshop: Option<Seq<char>>, args: Option<JsonView>) -> bool {
    match (workshop, args) {
        (Some(w), Some(v)) => match v.str_field("path"@) {
            Some(p) => tools::absolute(p) && tools::resolved(w, p) is Ok,
            None => false,
        },
        _ => false,
    }
}

/// The first piece from an index on that is not empty.
pub open spec fn first_word(pieces: Seq<Seq<char>>, i: int) -> Option<Seq<char>>
    decreases pieces.len() - i,
{
    if i < 0 || i >= pieces.len() {
        None
    } else if pieces[i].len() > 0 {
        Some(pieces[i])
    } else {
        first_word(pieces, i + 1)
    }
}

/// The word behind the first one of a command; words are apart by spaces and tabs.
pub open spec fn second_word(cmd: Seq<char>) -> Option<Seq<char>> {
    first_word(text::split_on(text::with_char(cmd, '\t', ' '), ' '), 1)
}

/// Whether a command is a single `python <workshop>/script.py` invocation (no chaining, pipes,
/// or redirection): the word behind the interpreter is the absolute path of a script in the
/// Workshop.
pub open spec fn runs_workshop_script(w: Seq<char>, cmd: Seq<char>) -> bool {
    let norm = text::with_char(cmd, '\\', '/');
    let start = text::trimmed_start(norm);
    &&& ("python "@.is_prefix_of(start) || "python3 "@.is_prefix_of(start)
        || "py "@.is_prefix_of(start))
    &&& match second_word(start) {
        Some(script) => tools::absolute(script) && tools::resolved(
            text::with_char(w, '\\', '/'),
            script,
        ) is Ok,
        None => false,
    }
    &&& !text::contains_text(norm, "&"@)
    &&& !text::contains_text(norm, "\n"@)
    &&& !text::contains_text(norm, "\r"@)
    &&& !text::contains_text(norm, ";"@)
    &&& !text::contains_text(norm, "|"@)
    &&& !text::contains_text(norm, ">"@)
    &&& !text::contains_text(norm, "<"@)
    &&& !text::contains_text(norm, "`"@)
    &&& !text::contains_text(norm, "$("@)
}

/// Whether a command is clearly workshop-scoped: an explicit `cwd` argument inside the Workshop,
/// or, where scripts run free, a single script of it.
pub open spec fn command_in_workshop(
    workshop: Option<Seq<char>>,
    args: Option<JsonView>,
    scripts: bool,
) -> bool {
    match (workshop, args) {
        (Some(w), Some(v)) => {
            ||| match v.str_field("cwd"@) {
                Some(cwd) => tools::absolute(cwd) && tools::resolved(w, cwd) is Ok,
                None => false,
            }
            ||| match v.str_field("command"@) {
                Some(cmd) => scripts && runs_workshop_script(w, cmd),
                None => false,
            }
        },
        _ => false,
    }
}

/// The permissions of a run.
#[derive(Debug, Clone, Copy, PartialEq, Eq, Structural)]
pub struct Permissions {
    pub external_policy: ExternalPolicy,
    pub workshop_full_access: bool,
    pub project_files_no_ask: bool,
    pub project_shell_no_ask: bool,
    /// Whether scripts of a Workshop with full access run without a prompt.
    pub workshop_python_no_ask: bool,
}

impl Permissions {
    /// Whether a call would prompt the user. With full Workshop access, anything scoped to the
    /// Workshop (files, or a shell command with cwd inside it) runs free; external tools follow
    /// the external policy; everything else follows the per-type project policies.
    pub open spec fn prompts(
        self,
        name: Seq<char>,
        args: Option<JsonView>,
        workshop: Option<Seq<char>>,
    ) -> bool {
        if crosses_sandbox(name) {
            !(self.workshop_full_access && path_in_workshop(workshop, args))
                && self.external_policy == ExternalPolicy::Ask
        } else if self.workshop_full_access && path_in_workshop(workshop, args) {
            false
        } else if self.workshop_full_access && name == "run_shell"@ && command_in_workshop(
            workshop,
            args,
            self.workshop_python_no_ask,
        ) {
            false
        } else if name == "run_shell"@ {
            !self.project_shell_no_ask
        } else if name == "write_file"@ || name == "edit_file"@ {
            !self.project_files_no_ask
        } else {
            true
        }
    }
}

/// Whether a call waits for the user: in Manual mode, and for sandbox-crossing tools in any mode,
/// where the permissions prompt.
pub open spec fn waits(
    mode: ApprovalMode,
    perms: Permissions,
    name: Seq<char>,
    args: Option<JsonView>,
    workshop: Option<Seq<char>>,
) -> bool {
    (mode == ApprovalMode::Manual || crosses_sandbox(name)) && perms.prompts(name, args, workshop)
}

fn path_arg_in_workshop(workshop: &Option<String>, args: Option<&Json>) -> (r: bool)
    ensures
        r == path_in_workshop(text::opt_view(*workshop), opt_ref(args)),
{
    if let Some(w) = workshop {
        if let Some(v) = args {
            if let Some(p) = v.str_field("path") {
                return tools::is_absolute(p) && tools::resolve_in_workspace(w.as_str(), p).is_ok();
            }
        }
    }
    false
}

/// What an optional tree is.
pub open spec fn opt_ref(o: Option<&Json>) -> Option<JsonView> {
    match o {
        Some(j) => Some(j@),
        None => None,
    }
}

/// The word behind the first one of a command.
fn word_behind(cmd: &str) -> (r: Option<String>)
    ensures
        text::opt_view(r) == second_word(cmd@),
{
    let blanks = text::replace_char(cmd, '\t', ' ');
    let pieces = text::split(blanks.as_str(), ' ');
    let ghost all = text::views(pieces@);
    let mut i: usize = 1;
    while i < pieces.len()
        invariant
            1 <= i,
            all == text::views(pieces@),
            second_word(cmd@) == first_word(all, 1),
            first_word(all, 1) == first_word(all, i as int),
        decreases pieces.len() - i,
    {
        assert(all[i as int] == pieces@[i as int]@);
        if !pieces[i].as_str().is_empty() {
            let word = pieces[i].clone();
            assert(first_word(all, i as int) == Some(word@));
            return Some(word);
        }
        i += 1;
    }
    None
}

fn script_in_workshop(w: &str, cmd: &str) -> (r: bool)
    ensures
        r == runs_workshop_script(w@, cmd@),
{
    let norm = text::replace_char(cmd, '\\', '/');
    let start = text::trim_start(norm.as_str());
    if !(text::starts_with(start.as_str(), "python ") || text::starts_with(
        start.as_str(),
        "python3 ",
    ) || text::starts_with(start.as_str(), "py ")) {
        return false;
    }
    let shop = text::replace_char(w, '\\', '/');
    let inside = match word_behind(start.as_str()) {
        Some(script) => tools::is_absolute(script.as_str()) && tools::resolve_in_workspace(
            shop.as_str(),
            script.as_str(),
        ).is_ok(),
        None => false,
    };
    let n = norm.as_str();
    inside && !text::contains(n, "&") && !text::contains(n, "\n") && !text::contains(n, "\r")
        && !text::contains(n, ";")
        && !text::contains(n, "|") && !text::contains(n, ">") && !text::contains(n, "<")
        && !text::contains(n, "`") && !text::contains(n, "$(")
}

fn shell_in_workshop(workshop: &Option<String>, args: Option<&Json>, scripts: bool) -> (r: bool)
    ensures
        r == command_in_workshop(text::opt_view(*workshop), opt_ref(args), scripts),
{
    if let Some(w) = workshop {
        if let Some(v) = args {
            if let Some(cwd) = v.str_field("cwd") {
                if tools::is_absolute(cwd) && tools::resolve_in_workspace(
                    w.as_str(),
                    cwd,
                ).is_ok() {
                    return true;
                }
            }
            if let Some(cmd) = v.str_field("command") {
                return scripts && script_in_workshop(w.as_str(), cmd);
            }
        }
    }
    false
}

/// Whether a tool call waits for the user.
#[derive(Debug)]
pub enum Gate {
    /// The call may proceed.
    Allowed,
    /// The user is asked under this identifier; the event tells so.
    Ask { request_id: String, event: AgentEvent },
}

/// Gates approval-requiring tool calls on the user's decision. A call that need not wait passes
/// immediately; for any other the broker asks, and the request stays pending until `resolve` is
/// called.
///
/// Lifetime invariant: one broker per agent run. A cancelled run may leave an unresolved pending
/// entry behind; the broker is dropped with the run, so it never accumulates.
pub struct ApprovalBroker {
    mode: ApprovalMode,
    permissions: Permissions,
    pending: Vec<String>,
}

impl ApprovalBroker {
    /// The mode that holds for the next call.
    pub closed spec fn current_mode(self) -> ApprovalMode {
        self.mode
    }

    /// The permissions that hold for the next call.
    pub closed spec fn current_permissions(self) -> Permissions {
        self.permissions
    }

    /// The requests that wait for the user.
    pub closed spec fn waiting(self) -> Seq<Seq<char>> {
        text::views(self.pending@)
    }

    /// No request waits twice.
    pub open spec fn wf(self) -> bool {
        self.waiting().no_duplicates()
    }

    /// A broker for a run: external tools prompt, the Workshop is free, the project prompts.
    pub fn new(mode: ApprovalMode) -> (r: Self)
        ensures
            r.wf(),
            r.current_mode() == mode,
            r.current_permissions() == (Permissions {
                external_policy: ExternalPolicy::Ask,
                workshop_full_access: true,
                project_files_no_ask: false,
                project_shell_no_ask: false,
                workshop_python_no_ask: true,
            }),
            r.waiting() == Seq::<Seq<char>>::empty(),
    {
        let r = ApprovalBroker {
            mode,
            permissions: Permissions {
                external_policy: ExternalPolicy::Ask,
                workshop_full_access: true,
                project_files_no_ask: false,
                project_shell_no_ask: false,
                workshop_python_no_ask: true,
            },
            pending: Vec::new(),
        };
        assert(r.waiting() =~= Seq::<Seq<char>>::empty());
        r
    }

    /// The mode that holds for the next call.
    pub fn mode(&self) -> (r: ApprovalMode)
        ensures
            r == self.current_mode(),
    {
        self.mode
    }

    /// Switches the mode; it takes effect on the next call.
    pub fn set_mode(&mut self, mode: ApprovalMode)
        ensures
            final(self).current_mode() == mode,
            final(self).current_permissions() == old(self).current_permissions(),
            final(self).waiting() == old(self).waiting(),
    {
        self.mode = mode;
    }

    /// Sets the permission policy for this run.
    pub fn set_permissions(
        &mut self,
        external_policy: ExternalPolicy,
        workshop_full_access: bool,
        project_files_no_ask: bool,
        project_shell_no_ask: bool,
    )
        ensures
            final(self).current_mode() == old(self).current_mode(),
            final(self).current_permissions() == (Permissions {
                external_policy,
                workshop_full_access,
                project_files_no_ask,
                project_shell_no_ask,
                ..old(self).current_permissions()
            }),
            final(self).waiting() == old(self).waiting(),
    {
        self.permissions = Permissions {
            external_policy,
            workshop_full_access,
            project_files_no_ask,
            project_shell_no_ask,
            workshop_python_no_ask: self.permissions.workshop_python_no_ask,
        };
    }

    /// Sets whether scripts of a Workshop with full access run without a prompt.
    pub fn set_workshop_python(&mut self, no_ask: bool)
        ensures
            final(self).current_mode() == old(self).current_mode(),
            final(self).current_permissions() == (Permissions {
                workshop_python_no_ask: no_ask,
                ..old(self).current_permissions()
            }),
            final(self).waiting() == old(self).waiting(),
    {
        self.permissions.workshop_python_no_ask = no_ask;
    }

    /// The policy for external tools.
    pub fn external_policy(&self) -> (r: ExternalPolicy)
        ensures
            r == self.current_permissions().external_policy,
    {
        self.permissions.external_policy
    }

    /// Should this tool call, whose arguments parse to `args`, prompt the user in Manual mode?
    pub fn prompts_for(
        &self,
        name: &str,
        args: Option<&Json>,
        workshop_root: &Option<String>,
    ) -> (r: bool)
        ensures
            r == self.current_permissions().prompts(
                name@,
                opt_ref(args),
                text::opt_view(*workshop_root),
            ),
    {
        let p = &self.permissions;
        let in_workshop = path_arg_in_workshop(workshop_root, args);
        if is_external(name) {
            if p.workshop_full_access && in_workshop {
                return false;
            }
            return p.external_policy == ExternalPolicy::Ask;
        }
        let shell = text::str_eq(name, "run_shell");
        if p.workshop_full_access {
            if in_workshop {
                return false;
            }
            if shell && shell_in_workshop(workshop_root, args, p.workshop_python_no_ask) {
                return false;
            }
        }
        if shell {
            !p.project_shell_no_ask
        } else if text::str_eq(name, "write_file") || text::str_eq(name, "edit_file") {
            !p.project_files_no_ask
        } else {
            true
        }
    }

    /// Should this tool call prompt the user in Manual mode? With full Workshop access, anything
    /// scoped to the Workshop (files, or a shell command with cwd inside it) runs free; external
    /// tools follow the external policy; everything else follows the per-type project policies.
    pub fn should_prompt(
        &self,
        name: &str,
        args_json: &str,
        workshop_root: &Option<String>,
    ) -> (r: bool)
        ensures
            r == self.current_permissions().prompts(
                name@,
                json::parsed(args_json@),
                text::opt_view(*workshop_root),
            ),
    {
        match json::parse(args_json) {
            Ok(v) => self.prompts_for(name, Some(&v), workshop_root),
            Err(_) => self.prompts_for(name, None, workshop_root),
        }
    }

    /// Lets a call pass, or asks the user about it under a fresh identifier. The mode and the
    /// permissions are read per check, so a mid-run switch applies to the next tool call.
    pub fn check(
        &mut self,
        tool_call_id: &str,
        name: &str,
        args_json: &str,
        workshop_root: &Option<String>,
    ) -> (r: Gate)
        requires
            old(self).wf(),
        ensures
            final(self).wf(),
            final(self).current_mode() == old(self).current_mode(),
            final(self).current_permissions() == old(self).current_permissions(),
            r is Ask <==> waits(
                old(self).current_mode(),
                old(self).current_permissions(),
                name@,
                json::parsed(args_json@),
                text::opt_view(*workshop_root),
            ),
            match r {
                Gate::Allowed => final(self).waiting() == old(self).waiting(),
                Gate::Ask { request_id, event } => {
                    &&& ids::is_uuid(request_id@)
                    &&& event@ == (AgentEventView::ApprovalRequested {
                        request_id: request_id@,
                        tool_call_id: tool_call_id@,
                        name: name@,
                        args_json: args_json@,
                    })
                    &&& final(self).waiting() == with_request(old(self).waiting(), request_id@)
                },
            },
    {
        if self.mode == ApprovalMode::Auto && !is_external(name) {
            return Gate::Allowed;
        }
        if !self.should_prompt(name, args_json, workshop_root) {
            return Gate::Allowed;
        }
        let request_id = ids::new_uuid();
        let event = AgentEvent::ApprovalRequested {
            request_id: request_id.clone(),
            tool_call_id: tool_call_id.to_owned(),
            name: name.to_owned(),
            args_json: args_json.to_owned(),
        };
        self.add_request(request_id.as_str());
        Gate::Ask { request_id, event }
    }

    /// Lets a request wait for the user.
    pub fn add_request(&mut self, request_id: &str)
        requires
            old(self).wf(),
        ensures
            final(self).wf(),
            final(self).current_mode() == old(self).current_mode(),
            final(self).current_permissions() == old(self).current_permissions(),
            final(self).waiting() == with_request(old(self).waiting(), request_id@),
    {
        if self.find(request_id).is_none() {
            let id = request_id.to_owned();
            proof {
                text::lemma_views_push(self.pending@, id);
            }
            self.pending.push(id);
        }
    }

    fn find(&self, request_id: &str) -> (r: Option<usize>)
        ensures
            match r {
                Some(i) => i < self.pending.len() && self.waiting()[i as int] == request_id@,
                None => !self.waiting().contains(request_id@),
            },
    {
        let mut i: usize = 0;
        while i < self.pending.len()
            invariant
                i <= self.pending.len(),
                forall|k: int| 0 <= k < i ==> self.waiting()[k] != request_id@,
            decreases self.pending.len() - i,
        {
            if text::str_eq(self.pending[i].as_str(), request_id) {
                return Some(i);
            }
            assert(self.waiting()[i as int] != request_id@);
            i += 1;
        }
        None
    }

    /// Answers a pending request: it waits no longer, and the answer goes to the call that it is
    /// about.
    pub fn resolve(&mut self, request_id: &str, allow: bool) -> (r: Result<bool, Error>)
        requires
            old(self).wf(),
        ensures
            final(self).wf(),
            final(self).current_mode() == old(self).current_mode(),
            final(self).current_permissions() == old(self).current_permissions(),
            r is Ok <==> old(self).waiting().contains(request_id@),
            final(self).waiting() == without_request(old(self).waiting(), request_id@),
            match r {
                Ok(answer) => answer == allow,
                Err(e) => e@ == ErrorView::Tool("unknown approval request: "@ + request_id@),
            },
    {
        match self.find(request_id) {
            Some(i) => {
                let ghost before = self.waiting();
                let _ = self.pending.remove(i);
                proof {
                    assert(self.waiting() =~= before.remove(i as int));
                    lemma_without_request(before, i as int);
                    assert forall|a: int, b: int|
                        0 <= a < b < self.waiting().len() implies self.waiting()[a]
                        != self.waiting()[b] by {
                        let x = if a < i { a } else { a + 1 };
                        let y = if b < i { b } else { b + 1 };
                        assert(before[x] != before[y]);
                    }
                }
                Ok(allow)
            },
            None => {
                proof {
                    lemma_without_absent(self.waiting(), request_id@);
                }
                Err(Error::Tool(text::concat2("unknown approval request: ", request_id)))
            },
        }
    }
}

/// The requests with one more.
pub open spec fn with_request(waiting: Seq<Seq<char>>, id: Seq<char>) -> Seq<Seq<char>> {
    if waiting.contains(id) {
        waiting
    } else {
        waiting.push(id)
    }
}

/// The requests without one.
pub open spec fn without_request(waiting: Seq<Seq<char>>, id: Seq<char>) -> Seq<Seq<char>> {
    waiting.filter(|x: Seq<char>| x != id)
}

proof fn lemma_without_absent(s: Seq<Seq<char>>, id: Seq<char>)
    requires
        !s.contains(id),
    ensures
        without_request(s, id) == s,
    decreases s.len(),
{
    reveal(Seq::filter);
    if s.len() > 0 {
        let t = s.drop_last();
        assert(!t.contains(id)) by {
            if t.contains(id) {
                let k = choose|k: int| 0 <= k < t.len() && t[k] == id;
                assert(s[k] == id);
            }
        }
        lemma_without_absent(t, id);
        assert(s[s.len() - 1] != id);
        assert(t.push(s.last()) =~= s);
    }
}

proof fn lemma_without_request(s: Seq<Seq<char>>, i: int)
    requires
        s.no_duplicates(),
        0 <= i < s.len(),
    ensures
        without_request(s, s[i]) == s.remove(i),
    decreases s.len(),
{
    reveal(Seq::filter);
    let t = s.drop_last();
    let id = s[i];
    assert(t.no_duplicates());
    if i == s.len() - 1 {
        assert(!t.contains(id)) by {
            if t.contains(id) {
                let k = choose|k: int| 0 <= k < t.len() && t[k] == id;
                assert(s[k] == s[i]);
            }
        }
        lemma_without_absent(t, id);
        assert(s.remove(i) =~= t);
    } else {
        lemma_without_request(t, i);
        assert(s[i] != s[s.len() - 1]);
        assert(s.remove(i) =~= t.remove(i).push(s.last()));
    }
}

/// A request that was asked and is then resolved leaves the others as they were.
pub proof fn resolving_undoes_asking(waiting: Seq<Seq<char>>, id: Seq<char>)
    requires
        waiting.no_duplicates(),
        !waiting.contains(id),
    ensures
        with_request(waiting, id).contains(id),
        without_request(with_request(waiting, id), id) == waiting,
{
    let w = waiting.push(id);
    assert(w[waiting.len() as int] == id);
    reveal(Seq::filter);
    lemma_without_absent(waiting, id);
    assert(w.drop_last() =~= waiting);
}

/// A tool that crosses the sandbox waits for the user under the `Ask` policy, in Auto mode too,
/// unless the path lies in a Workshop with full access.
pub proof fn sandbox_crossing_waits_in_every_mode(
    mode: ApprovalMode,
    perms: Permissions,
    name: Seq<char>,
    args: Option<JsonView>,
    workshop: Option<Seq<char>>,
)
    requires
        crosses_sandbox(name),
        perms.external_policy == ExternalPolicy::Ask,
        !(perms.workshop_full_access && path_in_workshop(workshop, args)),
    ensures
        waits(mode, perms, name, args, workshop),
{
}

/// In Auto mode no tool but those that cross the sandbox waits.
pub proof fn auto_mode_waits_for_nothing_inside(
    perms: Permissions,
    name: Seq<char>,
    args: Option<JsonView>,
    workshop: Option<Seq<char>>,
)
    requires
        !crosses_sandbox(name),
    ensures
        !waits(ApprovalMode::Auto, perms, name, args, workshop),
{
}

/// A path that runs free because of the Workshop is inside it.
pub proof fn free_path_is_in_the_workshop(
    w: Seq<char>,
    v: JsonView,
)
    requires
        path_in_workshop(Some(w), Some(v)),
    ensures
        v.str_field("path"@) is Some,
        tools::inside(w, tools::resolved(w, v.str_field("path"@)->0)->Ok_0),
{
    tools::resolved_path_is_inside(w, v.str_field("path"@)->0);
}

/// A script that runs free because of the Workshop is inside it.
pub proof fn free_script_is_in_the_workshop(w: Seq<char>, cmd: Seq<char>)
    requires
        runs_workshop_script(w, cmd),
    ensures
        ({
            let shop = text::with_char(w, '\\', '/');
            let script = second_word(text::trimmed_start(text::with_char(cmd, '\\', '/')));
            &&& script is Some
            &&& tools::absolute(script->0)
            &&& tools::inside(shop, tools::resolved(shop, script->0)->Ok_0)
        }),
{
    let shop = text::with_char(w, '\\', '/');
    let script = second_word(text::trimmed_start(text::with_char(cmd, '\\', '/')));
    tools::resolved_path_is_inside(shop, script->0);
}

/// The words of the configuration for the policy: `allow` and `block` stand for themselves, and
/// anything else asks.
pub proof fn policies_by_word(s: Seq<char>)
    ensures
        policy_of(None) == ExternalPolicy::Ask,
        policy_of(Some("allow"@)) == ExternalPolicy::Allow,
        policy_of(Some("block"@)) == ExternalPolicy::Block,
        s != "allow"@ && s != "block"@ ==> policy_of(Some(s)) == ExternalPolicy::Ask,
{
    reveal_strlit("allow");
    reveal_strlit("block");
    assert("allow"@[0] == 'a' && "block"@[0] == 'b');
}

/// The tools that cross the sandbox are the three for files outside the workspace.
pub proof fn tools_that_cross_the_sandbox(name: Seq<char>)
    ensures
        crosses_sandbox("list_external_dir"@),
        crosses_sandbox("read_external_file"@),
        crosses_sandbox("write_external_file"@),
        name != "list_external_dir"@ && name != "read_external_file"@ && name
            != "write_external_file"@ ==> !crosses_sandbox(name),
        !crosses_sandbox("run_shell"@),
        !crosses_sandbox("write_file"@),
        !crosses_sandbox("edit_file"@),
        "run_shell"@ != "write_file"@,
        "run_shell"@ != "edit_file"@,
{
    reveal_strlit("list_external_dir");
    reveal_strlit("read_external_file");
    reveal_strlit("write_external_file");
    reveal_strlit("run_shell");
    reveal_strlit("write_file");
    reveal_strlit("edit_file");
    assert("list_external_dir"@.len() == 17 && "read_external_file"@.len() == 18);
    assert("write_external_file"@.len() == 19 && "run_shell"@.len() == 9);
    assert("write_file"@.len() == 10 && "edit_file"@.len() == 9);
    assert("run_shell"@[0] == 'r' && "edit_file"@[0] == 'e');
}

/// What waits for the user. A tool that crosses the sandbox does where the policy asks, in every
/// mode; in Auto mode nothing else does. In Manual mode a call in a Workshop with full access runs
/// free; shell commands and file changes wait unless the user switched that off, and every other
/// call waits.
pub proof fn what_waits_for_the_user(
    perms: Permissions,
    name: Seq<char>,
    args: Option<JsonView>,
    workshop: Option<Seq<char>>,
)
    ensures
        ({
            let free = perms.workshop_full_access && path_in_workshop(workshop, args);
            let free_command = perms.workshop_full_access && command_in_workshop(
                workshop,
                args,
                perms.workshop_python_no_ask,
            );
            let manual = waits(ApprovalMode::Manual, perms, name, args, workshop);
            let auto = waits(ApprovalMode::Auto, perms, name, args, workshop);
            &&& perms.prompts(name, args, workshop) == manual
            &&& if name == "list_external_dir"@ || name == "read_external_file"@ || name
                == "write_external_file"@ {
                &&& manual == (perms.external_policy == ExternalPolicy::Ask && !free)
                &&& auto == manual
            } else {
                &&& !auto
                &&& name == "run_shell"@ ==> manual == (!free && !free_command
                    && !perms.project_shell_no_ask)
                &&& name == "write_file"@ || name == "edit_file"@ ==> manual == (!free
                    && !perms.project_files_no_ask)
                &&& name != "run_shell"@ && name != "write_file"@ && name != "edit_file"@
                    ==> manual == !free
            }
        }),
{
    tools_that_cross_the_sandbox(name);
}

/// A path lies in the Workshop where it is given, absolute, and at the Workshop or below it.
pub proof fn paths_in_the_workshop(w: Seq<char>, v: JsonView)
    ensures
        path_in_workshop(Some(w), Some(v)) <==> tools::absolute(w) && (v.str_field("path"@) matches
            Some(p) && tools::inside(w, p)),
        !path_in_workshop(None, Some(v)),
        !path_in_workshop(Some(w), None),
{
}

/// A command is one of the Workshop where its directory is given, absolute, and at the Workshop or
/// below it; or where it is a single script of it, and scripts run free.
pub proof fn commands_in_the_workshop(w: Seq<char>, v: JsonView)
    ensures
        ({
            let here = tools::absolute(w) && (v.str_field("cwd"@) matches Some(d) && tools::inside(
                w,
                d,
            ));
            let script = v.str_field("command"@) matches Some(c) && runs_workshop_script(w, c);
            &&& command_in_workshop(Some(w), Some(v), true) == (here || script)
            &&& command_in_workshop(Some(w), Some(v), false) == here
            &&& !command_in_workshop(None, Some(v), true)
            &&& !command_in_workshop(Some(w), None, true)
        }),
{
}

/// Whether a character parts words.
pub open spec fn parts_words(c: char) -> bool {
    c == ' ' || c == '\t'
}

/// Whether a text is one word, or none.
pub open spec fn is_one_word(s: Seq<char>) -> bool {
    forall|i: int| 0 <= i < s.len() ==> !parts_words(#[trigger] s[i])
}

/// Whether a text holds nothing but blanks.
pub open spec fn is_blank(s: Seq<char>) -> bool {
    forall|i: int| 0 <= i < s.len() ==> parts_words(#[trigger] s[i])
}

/// The second word of a command is what stands behind the first word and the blanks behind it, up
/// to the next blank; a command of one word has none.
pub proof fn second_word_stands_behind_the_first(
    first: Seq<char>,
    gap: Seq<char>,
    word: Seq<char>,
    tail: Seq<char>,
)
    requires
        is_one_word(first),
        is_blank(gap),
        gap.len() > 0,
        is_one_word(word),
        word.len() > 0,
        tail.len() > 0 ==> parts_words(tail[0]),
    ensures
        second_word(first + gap + word + tail) == Some(word),
        second_word(first) is None,
        second_word(first + gap) is None,
{
    let f = text::with_char(first, '\t', ' ');
    let t = text::with_char(tail, '\t', ' ');
    assert(f =~= first);
    assert(!first.contains(' ')) by {
        if first.contains(' ') {
            let i = choose|i: int| 0 <= i < first.len() && first[i] == ' ';
            assert(!parts_words(first[i]));
        }
    }
    assert(!word.contains(' ')) by {
        if word.contains(' ') {
            let i = choose|i: int| 0 <= i < word.len() && word[i] == ' ';
            assert(!parts_words(word[i]));
        }
    }
    let n = gap.len();
    let spaces = Seq::new(n, |i: int| ' ');
    let g = text::with_char(gap, '\t', ' ');
    assert(g =~= spaces) by {
        assert forall|i: int| 0 <= i < n implies g[i] == spaces[i] by {
            assert(parts_words(gap[i]));
        }
    }
    let all = first + gap + word + tail;
    assert(text::with_char(all, '\t', ' ') =~= first + spaces + word + t) by {
        let x = text::with_char(all, '\t', ' ');
        let y = first + spaces + word + t;
        assert forall|i: int| 0 <= i < x.len() implies x[i] == y[i] by {
            if i < first.len() {
                assert(!parts_words(first[i]));
            } else if i < first.len() + n {
                assert(parts_words(gap[i - first.len()]));
            } else if i < first.len() + n + word.len() {
                assert(!parts_words(word[i - first.len() - n]));
            }
        }
    }
    let m = (n - 1) as nat;
    let fewer = Seq::new(m, |i: int| ' ');
    assert(first + spaces + word + t =~= first + seq![' '] + (fewer + word + t));
    text::pieces_come_one_after_the_other(first, fewer + word + t, ' ');
    lemma_first_word_behind(m, word, t);
    let pieces = text::split_on(fewer + word + t, ' ');
    lemma_first_word_shift(first, pieces, 0);
    // Without a second word.
    assert(text::with_char(first, '\t', ' ') =~= first);
    text::pieces_come_one_after_the_other(first, Seq::empty(), ' ');
    assert(text::with_char(first + gap, '\t', ' ') =~= first + spaces) by {
        let x = text::with_char(first + gap, '\t', ' ');
        assert forall|i: int| 0 <= i < x.len() implies x[i] == (first + spaces)[i] by {
            if i < first.len() {
                assert(!parts_words(first[i]));
            } else {
                assert(parts_words(gap[i - first.len()]));
            }
        }
    }
    assert(first + spaces =~= first + seq![' '] + fewer);
    text::pieces_come_one_after_the_other(first, fewer, ' ');
    lemma_no_word(m);
    lemma_first_word_shift(first, text::split_on(fewer, ' '), 0);
}

proof fn lemma_first_word_shift(head: Seq<char>, pieces: Seq<Seq<char>>, i: int)
    requires
        0 <= i,
    ensures
        first_word(seq![head] + pieces, i + 1) == first_word(pieces, i),
    decreases pieces.len() - i,
{
    if i < pieces.len() {
        assert((seq![head] + pieces)[i + 1] == pieces[i]);
        lemma_first_word_shift(head, pieces, i + 1);
    }
}

proof fn lemma_no_word(n: nat)
    ensures
        first_word(text::split_on(Seq::new(n, |i: int| ' '), ' '), 0) is None,
    decreases n,
{
    let s = Seq::new(n, |i: int| ' ');
    let e = Seq::<char>::empty();
    if n == 0 {
        assert(s =~= e);
        text::pieces_come_one_after_the_other(e, e, ' ');
        reveal_with_fuel(first_word, 2);
    } else {
        let m = (n - 1) as nat;
        let t = Seq::new(m, |i: int| ' ');
        lemma_no_word(m);
        assert(s =~= e + seq![' '] + t);
        text::pieces_come_one_after_the_other(e, t, ' ');
        lemma_first_word_shift(e, text::split_on(t, ' '), 0);
        assert(text::split_on(s, ' ')[0] =~= e);
    }
}

proof fn lemma_first_word_behind(n: nat, word: Seq<char>, tail: Seq<char>)
    requires
        word.len() > 0,
        !word.contains(' '),
        tail.len() > 0 ==> tail[0] == ' ',
    ensures
        first_word(text::split_on(Seq::new(n, |i: int| ' ') + word + tail, ' '), 0) == Some(word),
    decreases n,
{
    let e = Seq::<char>::empty();
    let s = Seq::new(n, |i: int| ' ') + word + tail;
    if n == 0 {
        if tail.len() == 0 {
            assert(s =~= word);
            text::pieces_come_one_after_the_other(word, e, ' ');
        } else {
            assert(s =~= word + seq![' '] + tail.skip(1));
            text::pieces_come_one_after_the_other(word, tail.skip(1), ' ');
        }
        assert(text::split_on(s, ' ')[0] == word);
    } else {
        let m = (n - 1) as nat;
        let t = Seq::new(m, |i: int| ' ') + word + tail;
        lemma_first_word_behind(m, word, tail);
        assert(s =~= e + seq![' '] + t);
        text::pieces_come_one_after_the_other(e, t, ' ');
        lemma_first_word_shift(e, text::split_on(t, ' '), 0);
        assert(text::split_on(s, ' ')[0] =~= e);
    }
}

/// A command that joins, redirects or substitutes others is no single script: none of the
/// characters for that may stand anywhere in it.
pub proof fn joined_commands_are_no_script(w: Seq<char>, cmd: Seq<char>, i: int)
    requires
        0 <= i < cmd.len(),
        cmd[i] == '&' || cmd[i] == '\n' || cmd[i] == '\r' || cmd[i] == ';' || cmd[i] == '|'
            || cmd[i] == '>' || cmd[i] == '<' || cmd[i] == '`' || (cmd[i] == '$' && i + 1
            < cmd.len() && cmd[i + 1] == '('),
    ensures
        !runs_workshop_script(w, cmd),
{
    let norm = text::with_char(cmd, '\\', '/');
    reveal_strlit("&");
    reveal_strlit("\n");
    reveal_strlit("\r");
    reveal_strlit(";");
    reveal_strlit("|");
    reveal_strlit(">");
    reveal_strlit("<");
    reveal_strlit("`");
    reveal_strlit("$(");
    text::match_is_letter_by_letter(norm, "&"@, i);
    text::match_is_letter_by_letter(norm, "\n"@, i);
    text::match_is_letter_by_letter(norm, "\r"@, i);
    text::match_is_letter_by_letter(norm, ";"@, i);
    text::match_is_letter_by_letter(norm, "|"@, i);
    text::match_is_letter_by_letter(norm, ">"@, i);
    text::match_is_letter_by_letter(norm, "<"@, i);
    text::match_is_letter_by_letter(norm, "`"@, i);
    text::match_is_letter_by_letter(norm, "$("@, i);
    if runs_workshop_script(w, cmd) {
        assert(!text::matches_at(norm, "&"@, i));
        assert(!text::matches_at(norm, "\n"@, i));
        assert(!text::matches_at(norm, "\r"@, i));
        assert(!text::matches_at(norm, ";"@, i));
        assert(!text::matches_at(norm, "|"@, i));
        assert(!text::matches_at(norm, ">"@, i));
        assert(!text::matches_at(norm, "<"@, i));
        assert(!text::matches_at(norm, "`"@, i));
        assert(!text::matches_at(norm, "$("@, i));
        if cmd[i] == '$' {
            assert(norm[i + 1] == '(');
            assert("$("@[0] == '$' && "$("@[1] == '(');
        }
    }
}

/// Whether a character may stand in a command that runs free.
pub open spec fn is_harmless(c: char) -> bool {
    c != '&' && c != '\n' && c != '\r' && c != ';' && c != '|' && c != '>' && c != '<' && c != '`'
        && c != '$' && c != '\\'
}

/// A command that is one of the interpreters, the absolute path of a script in the Workshop, and
/// whatever arguments behind a blank runs free, as long as it joins and redirects nothing.
pub proof fn single_script_runs_free(
    w: Seq<char>,
    interpreter: Seq<char>,
    script: Seq<char>,
    tail: Seq<char>,
)
    requires
        interpreter == "python"@ || interpreter == "python3"@ || interpreter == "py"@,
        tools::absolute(w),
        !w.contains('\\'),
        tools::inside(w, script),
        is_one_word(script),
        tail.len() > 0 ==> parts_words(tail[0]),
        forall|i: int| 0 <= i < script.len() ==> is_harmless(#[trigger] script[i]),
        forall|i: int| 0 <= i < tail.len() ==> is_harmless(#[trigger] tail[i]),
    ensures
        runs_workshop_script(w, interpreter + seq![' '] + script + tail),
{
    let gap = seq![' '];
    let cmd = interpreter + gap + script + tail;
    reveal_strlit("python");
    reveal_strlit("python3");
    reveal_strlit("py");
    reveal_strlit("python ");
    reveal_strlit("python3 ");
    reveal_strlit("py ");
    assert(forall|i: int|
        0 <= i < interpreter.len() ==> is_harmless(#[trigger] interpreter[i]) && !parts_words(
            interpreter[i],
        ));
    assert forall|i: int| 0 <= i < cmd.len() implies is_harmless(#[trigger] cmd[i]) by {
        let a = interpreter.len();
        if i < a {
            assert(is_harmless(interpreter[i]));
        } else if i > a && i < a + 1 + script.len() {
            assert(is_harmless(script[i - a - 1]));
        } else if i >= a + 1 + script.len() {
            assert(is_harmless(tail[i - a - 1 - script.len()]));
        }
    }
    let norm = text::with_char(cmd, '\\', '/');
    assert(norm =~= cmd) by {
        assert forall|i: int| 0 <= i < cmd.len() implies norm[i] == cmd[i] by {
            assert(is_harmless(cmd[i]));
        }
    }
    assert(text::with_char(w, '\\', '/') =~= w) by {
        assert forall|i: int| 0 <= i < w.len() implies text::with_char(w, '\\', '/')[i] == w[i] by {
            assert(w.contains(w[i]));
        }
    }
    assert(cmd[0] == interpreter[0]);
    assert(!text::is_white(cmd[0]));
    assert(text::trimmed_start(norm) == cmd);
    assert(interpreter + gap =~= "python "@ || interpreter + gap =~= "python3 "@ || interpreter
        + gap =~= "py "@);
    assert(cmd.take((interpreter.len() + 1) as int) =~= interpreter + gap);
    second_word_stands_behind_the_first(interpreter, gap, script, tail);
    reveal_strlit("&");
    reveal_strlit("\n");
    reveal_strlit("\r");
    reveal_strlit(";");
    reveal_strlit("|");
    reveal_strlit(">");
    reveal_strlit("<");
    reveal_strlit("`");
    reveal_strlit("$(");
    lemma_harmless(cmd, "&"@);
    lemma_harmless(cmd, "\n"@);
    lemma_harmless(cmd, "\r"@);
    lemma_harmless(cmd, ";"@);
    lemma_harmless(cmd, "|"@);
    lemma_harmless(cmd, ">"@);
    lemma_harmless(cmd, "<"@);
    lemma_harmless(cmd, "`"@);
    lemma_harmless(cmd, "$("@);
}

proof fn lemma_harmless(cmd: Seq<char>, p: Seq<char>)
    requires
        p.len() > 0,
        !is_harmless(p[0]),
        forall|i: int| 0 <= i < cmd.len() ==> is_harmless(#[trigger] cmd[i]),
    ensures
        !text::contains_text(cmd, p),
{
    if text::contains_text(cmd, p) {
        let i = choose|i: int| text::matches_at(cmd, p, i);
        text::match_is_letter_by_letter(cmd, p, i);
        assert(cmd[i + 0] == p[0]);
        assert(is_harmless(cmd[i]));
    }
}

/// Asking adds the request and resolving takes it away; the other requests stay.
pub proof fn other_requests_stay(waiting: Seq<Seq<char>>, id: Seq<char>, other: Seq<char>)
    requires
        id != other,
    ensures
        with_request(waiting, id).contains(id),
        with_request(waiting, id).contains(other) <==> waiting.contains(other),
        !without_request(waiting, id).contains(id),
        without_request(waiting, id).contains(other) <==> waiting.contains(other),
{
    let w = waiting.push(id);
    assert(w[waiting.len() as int] == id);
    if waiting.contains(other) {
        let i = choose|i: int| 0 <= i < waiting.len() && waiting[i] == other;
        assert(w[i] == other);
    }
    if w.contains(other) {
        let i = choose|i: int| 0 <= i < w.len() && w[i] == other;
        assert(waiting[i] == other);
    }
    lemma_without_contains(waiting, id, other);
    lemma_without_contains(waiting, id, id);
}

proof fn lemma_without_contains(waiting: Seq<Seq<char>>, id: Seq<char>, x: Seq<char>)
    ensures
        without_request(waiting, id).contains(x) <==> waiting.contains(x) && x != id,
    decreases waiting.len(),
{
    reveal(Seq::filter);
    if waiting.len() > 0 {
        let t = waiting.drop_last();
        let last = waiting.last();
        lemma_without_contains(t, id, x);
        let before = without_request(t, id);
        let after = without_request(waiting, id);
        assert(after == if last != id {
            before.push(last)
        } else {
            before
        });
        if waiting.contains(x) && last != x {
            let i = choose|i: int| 0 <= i < waiting.len() && waiting[i] == x;
            assert(t[i] == x);
        }
        if t.contains(x) {
            let i = choose|i: int| 0 <= i < t.len() && t[i] == x;
            assert(waiting[i] == x);
        }
        assert(waiting[waiting.len() - 1] == last);
        if last != id {
            assert(after[before.len() as int] == last);
            if before.contains(x) {
                let i = choose|i: int| 0 <= i < before.len() && before[i] == x;
                assert(after[i] == x);
            }
            if after.contains(x) && x != last {
                let i = choose|i: int| 0 <= i < after.len() && after[i] == x;
                assert(before[i] == x);
            }
        }
    }
}

} // verus!
