//! The tools of an agent, and the directories that they may touch.
use crate::error::{Error, ErrorView};
use crate::json::JsonView;
use crate::text;
use crate::types::{ToolSpec, ToolSpecView};
use vstd::prelude::*;
use vstd::string::*;
use vstd::utf8::*;

pub mod fs;
pub mod plan;
pub mod schema;
pub mod search;
pub mod shell;

verus! {

/// The longest prefix of UTF-8 `b` that ends on a character boundary within its first `n` bytes.
pub open spec fn boundary_within(b: Seq<u8>, n: int) -> int
    decreases n,
{
    if n <= 0 || is_char_boundary(b, n) {
        n
    } else {
        boundary_within(b, n - 1)
    }
}

/// A text cut to at most `max` bytes, with a note of how many bytes were cut.
pub open spec fn truncated(s: Seq<char>, max: int) -> Seq<char> {
    let b = encode_utf8(s);
    if b.len() <= max {
        s
    } else {
        let end = boundary_within(b, max);
        decode_utf8(b.take(end)) + "\n…[truncated "@ + text::decimal((b.len() - end) as nat)
            + " bytes]"@
    }
}

/// Truncates tool output to `max_bytes` (on a char boundary), noting the cut.
pub fn truncate_output(s: &str, max_bytes: usize) -> (r: String)
    ensures
        r@ == truncated(s@, max_bytes as int),
{
    let ghost b = encode_utf8(s@);
    proof {
        encode_utf8_valid_utf8(s@);
        is_char_boundary_start_end_of_seq(b);
    }
    let len: usize = s.as_bytes().len();
    if len <= max_bytes {
        return s.to_owned();
    }
    let mut end: usize = max_bytes;
    while !s.is_char_boundary(end)
        invariant
            end <= max_bytes < b.len(),
            b == encode_utf8(s@),
            is_char_boundary(b, 0),
            boundary_within(b, max_bytes as int) == boundary_within(b, end as int),
        decreases end,
    {
        end -= 1;
    }
    let (head, _) = s.split_at(end);
    proof {
        encode_utf8_decode_utf8(head@);
        assert(b.subrange(0, end as int) =~= b.take(end as int));
    }
    let cut = text::decimal_of((len - end) as u64);
    let mut out = text::concat3(head, "\n…[truncated ", cut.as_str());
    out.append(" bytes]");
    out
}

/// What is kept of a text that is too long is its beginning, in at most as many bytes as allowed,
/// and no character is torn apart.
pub proof fn truncation_keeps_the_beginning(s: Seq<char>, max: int)
    requires
        0 <= max < encode_utf8(s).len(),
    ensures
        ({
            let b = encode_utf8(s);
            let end = boundary_within(b, max);
            &&& 0 <= end <= max
            &&& valid_utf8(b.take(end))
            &&& decode_utf8(b.take(end)).is_prefix_of(s)
            &&& decode_utf8(b.take(end)).is_prefix_of(truncated(s, max))
        }),
{
    let b = encode_utf8(s);
    encode_utf8_valid_utf8(s);
    encode_utf8_decode_utf8(s);
    is_char_boundary_start_end_of_seq(b);
    lemma_boundary(b, max);
    let end = boundary_within(b, max);
    valid_utf8_split(b, end);
    decode_utf8_split(b, end);
    assert(b.subrange(0, end) =~= b.take(end));
}

proof fn lemma_boundary(b: Seq<u8>, n: int)
    requires
        0 <= n,
        is_char_boundary(b, 0),
    ensures
        0 <= boundary_within(b, n) <= n,
        is_char_boundary(b, boundary_within(b, n)),
    decreases n,
{
    if n > 0 && !is_char_boundary(b, n) {
        lemma_boundary(b, n - 1);
    }
}

/// Whether a path is absolute: it begins with the separator `/`.
pub open spec fn absolute(p: Seq<char>) -> bool {
    p.len() > 0 && p[0] == '/'
}

/// The names on the way down, after one more component: nothing and `.` stay, `..` goes up
/// (where it can), any other goes down.
pub open spec fn step(names: Seq<Seq<char>>, c: Seq<char>) -> Seq<Seq<char>> {
    if c == ""@ || c == "."@ {
        names
    } else if c == ".."@ {
        if names.len() == 0 {
            names
        } else {
            names.drop_last()
        }
    } else {
        names.push(c)
    }
}

/// The names on the way down, after some components more.
pub open spec fn steps(names: Seq<Seq<char>>, cs: Seq<Seq<char>>) -> Seq<Seq<char>>
    decreases cs.len(),
{
    if cs.len() == 0 {
        names
    } else {
        step(steps(names, cs.drop_last()), cs.last())
    }
}

/// The names that a path leads to from `names`.
pub open spec fn names_from(names: Seq<Seq<char>>, p: Seq<char>) -> Seq<Seq<char>> {
    steps(names, text::split_on(p, '/'))
}

/// The names that a path leads to, `.` and `..` resolved.
pub open spec fn names_of(p: Seq<char>) -> Seq<Seq<char>> {
    names_from(Seq::empty(), p)
}

/// A path written out.
pub open spec fn path_text(absolute: bool, names: Seq<Seq<char>>) -> Seq<char> {
    if absolute {
        "/"@ + text::joined(names, "/"@)
    } else {
        text::joined(names, "/"@)
    }
}

/// A path with `.` and `..` resolved.
pub open spec fn normalized(p: Seq<char>) -> Seq<char> {
    path_text(absolute(p), names_of(p))
}

/// The names that `p` leads to from the workspace at `root`.
pub open spec fn resolved_names(root: Seq<char>, p: Seq<char>) -> Seq<Seq<char>> {
    if absolute(p) {
        names_of(p)
    } else {
        names_from(names_of(root), p)
    }
}

/// What the path `p` means inside the workspace at `root`: a path at or below the root, or an
/// error. The check is lexical; links are not followed.
pub open spec fn resolved(root: Seq<char>, p: Seq<char>) -> Result<Seq<char>, ErrorView> {
    if !absolute(root) {
        Err(ErrorView::Tool("workspace root must be an absolute path"@))
    } else if names_of(root).is_prefix_of(resolved_names(root, p)) {
        Ok(path_text(true, resolved_names(root, p)))
    } else {
        Err(ErrorView::Tool("path escapes workspace: "@ + p))
    }
}

/// What a result of resolving holds.
pub open spec fn path_view(r: Result<String, Error>) -> Result<Seq<char>, ErrorView> {
    match r {
        Ok(s) => Ok(s@),
        Err(e) => Err(e@),
    }
}

/// Whether a path is absolute.
pub fn is_absolute(p: &str) -> (r: bool)
    ensures
        r == absolute(p@),
{
    let cs = text::chars_of(p);
    cs.len() > 0 && cs[0] == '/'
}

fn walk(names: &mut Vec<String>, p: &str)
    ensures
        text::views(final(names)@) == names_from(text::views(old(names)@), p@),
{
    let cs = text::split(p, '/');
    let mut i: usize = 0;
    while i < cs.len()
        invariant
            i <= cs.len(),
            text::views(names@) == steps(
                text::views(old(names)@),
                text::views(cs@.take(i as int)),
            ),
        decreases cs.len() - i,
    {
        let c = &cs[i];
        proof {
            let now = text::views(cs@.take(i + 1));
            assert(now.drop_last() =~= text::views(cs@.take(i as int)));
            assert(now.last() == c@);
        }
        if text::str_eq(c.as_str(), "") || text::str_eq(c.as_str(), ".") {
        } else if text::str_eq(c.as_str(), "..") {
            proof {
                reveal_strlit("");
                reveal_strlit(".");
                reveal_strlit("..");
            }
            let ghost before = text::views(names@);
            let _ = names.pop();
            assert(before.len() > 0 ==> text::views(names@) =~= before.drop_last());
            assert(before.len() == 0 ==> text::views(names@) =~= before);
        } else {
            let name = c.clone();
            proof {
                text::lemma_views_push(names@, name);
            }
            names.push(name);
        }
        i += 1;
    }
    assert(cs@.take(cs.len() as int) =~= cs@);
}

pub(crate) fn names(p: &str) -> (r: Vec<String>)
    ensures
        text::views(r@) == names_of(p@),
{
    let mut out: Vec<String> = Vec::new();
    assert(text::views(out@) =~= Seq::<Seq<char>>::empty());
    walk(&mut out, p);
    out
}

pub(crate) fn write_path(abs: bool, names: &Vec<String>) -> (r: String)
    ensures
        r@ == path_text(abs, text::views(names@)),
{
    let j = text::join(names, "/");
    if abs {
        text::concat2("/", j.as_str())
    } else {
        j
    }
}

pub(crate) fn is_prefix(a: &Vec<String>, b: &Vec<String>) -> (r: bool)
    ensures
        r == text::views(a@).is_prefix_of(text::views(b@)),
{
    if a.len() > b.len() {
        return false;
    }
    let mut i: usize = 0;
    while i < a.len()
        invariant
            i <= a.len() <= b.len(),
            forall|k: int| 0 <= k < i ==> text::views(a@)[k] == text::views(b@)[k],
        decreases a.len() - i,
    {
        if !text::str_eq(a[i].as_str(), b[i].as_str()) {
            assert(text::views(a@)[i as int] != text::views(b@).subrange(0, a.len() as int)[i as int]);
            return false;
        }
        i += 1;
    }
    assert(text::views(a@) =~= text::views(b@).subrange(0, a.len() as int));
    true
}

/// Lexically normalizes a path (resolves `.` and `..` without touching the file system).
pub fn normalize(path: &str) -> (r: String)
    ensures
        r@ == normalized(path@),
{
    let abs = is_absolute(path);
    let ns = names(path);
    write_path(abs, &ns)
}

/// Resolves `p` inside the workspace root. Rejects paths that escape the root (`..` traversal or
/// absolute paths outside it). Note: this is a lexical check; symlinks inside the workspace
/// pointing outside are not resolved.
pub fn resolve_in_workspace(root: &str, p: &str) -> (r: Result<String, Error>)
    ensures
        path_view(r) == resolved(root@, p@),
{
    if !is_absolute(root) {
        // A relative root would anchor the sandbox to an unpredictable directory, and an empty
        // one would be a prefix of every path.
        return Err(Error::Tool("workspace root must be an absolute path".to_owned()));
    }
    let root_names = names(root);
    let target = if is_absolute(p) {
        names(p)
    } else {
        let mut ns = names(root);
        walk(&mut ns, p);
        ns
    };
    if is_prefix(&root_names, &target) {
        Ok(write_path(true, &target))
    } else {
        Err(Error::Tool(text::concat2("path escapes workspace: ", p)))
    }
}

/// Shared execution context for tools. Paths are written with `/`.
pub struct ToolContext {
    /// MUST be an absolute path; a relative/empty root is rejected by `resolve_in_workspace` (it
    /// would otherwise match every path).
    pub workspace_root: String,
    /// Per-conversation scratch dir outside the workspace (the "Workshop"). Tools may read/write
    /// here too. None disables it.
    pub workshop_root: Option<String>,
}

/// What a path means to the tools: a path in the workspace, or else an absolute one in the
/// workshop.
pub open spec fn context_resolved(
    workspace: Seq<char>,
    workshop: Option<Seq<char>>,
    p: Seq<char>,
) -> Result<Seq<char>, ErrorView> {
    match resolved(workspace, p) {
        Ok(abs) => Ok(abs),
        Err(_) => match workshop {
            Some(w) => if absolute(p) {
                resolved(w, p)
            } else {
                Err(ErrorView::Tool("path escapes workspace: "@ + p))
            },
            None => Err(ErrorView::Tool("path escapes workspace: "@ + p)),
        },
    }
}

impl ToolContext {
    /// Resolves `p` for tool I/O: under the workspace root or, when set, under this
    /// conversation's workshop root. Relative paths anchor to the workspace; the workshop is
    /// reached via its absolute path.
    pub fn resolve(&self, p: &str) -> (r: Result<String, Error>)
        ensures
            path_view(r) == context_resolved(
                self.workspace_root@,
                text::opt_view(self.workshop_root),
                p@,
            ),
    {
        match resolve_in_workspace(self.workspace_root.as_str(), p) {
            Ok(abs) => Ok(abs),
            Err(_) => {
                if let Some(w) = &self.workshop_root {
                    if is_absolute(p) {
                        return resolve_in_workspace(w.as_str(), p);
                    }
                }
                Err(Error::Tool(text::concat2("path escapes workspace: ", p)))
            },
        }
    }
}

/// A tool as an agent is offered it.
pub struct ToolInfo {
    pub spec: ToolSpec,
    /// Tools with this set require user approval in `Manual` approval mode.
    pub needs_approval: bool,
}

/// The names of the tools, and whether they need approval.
pub open spec fn tool_views(v: Seq<ToolInfo>) -> Seq<(Seq<char>, bool)> {
    v.map_values(|t: ToolInfo| (t.spec.name@, t.needs_approval))
}

/// The names of the tools.
pub open spec fn tool_names(v: Seq<(Seq<char>, bool)>) -> Seq<Seq<char>> {
    v.map_values(|t: (Seq<char>, bool)| t.0)
}

/// The tools of every agent run, as a provider is told of them.
pub open spec fn default_specs() -> Seq<ToolSpecView> {
    seq![
        fs::ReadFileTool::description(),
        fs::WriteFileTool::description(),
        fs::EditFileTool::description(),
        fs::ListDirTool::description(),
        search::GrepTool::description(),
        search::GlobTool::description(),
        shell::RunShellTool::description(),
        plan::UpdatePlanTool::description(),
        fs::ListExternalDirTool::description(),
        fs::ReadExternalFileTool::description(),
        fs::WriteExternalFileTool::description(),
    ]
}

/// Which of these tools need approval.
pub open spec fn default_approvals() -> Seq<bool> {
    seq![false, true, true, false, false, false, true, false, true, true, true]
}

/// What the tools of a list are.
pub open spec fn info_specs(v: Seq<ToolInfo>) -> Seq<ToolSpecView> {
    v.map_values(|t: ToolInfo| t.spec@)
}

/// Which tools of a list need approval.
pub open spec fn info_approvals(v: Seq<ToolInfo>) -> Seq<bool> {
    v.map_values(|t: ToolInfo| t.needs_approval)
}

/// The tool set given to every agent run.
pub fn default_tools() -> (r: Vec<ToolInfo>)
    ensures
        info_specs(r@) == default_specs(),
        info_approvals(r@) == default_approvals(),
{
    let mut out: Vec<ToolInfo> = Vec::new();
    let t = fs::ReadFileTool;
    out.push(ToolInfo { spec: t.spec(), needs_approval: t.needs_approval() });
    let t = fs::WriteFileTool;
    out.push(ToolInfo { spec: t.spec(), needs_approval: t.needs_approval() });
    let t = fs::EditFileTool;
    out.push(ToolInfo { spec: t.spec(), needs_approval: t.needs_approval() });
    let t = fs::ListDirTool;
    out.push(ToolInfo { spec: t.spec(), needs_approval: t.needs_approval() });
    let t = search::GrepTool;
    out.push(ToolInfo { spec: t.spec(), needs_approval: t.needs_approval() });
    let t = search::GlobTool;
    out.push(ToolInfo { spec: t.spec(), needs_approval: t.needs_approval() });
    let t = shell::RunShellTool;
    out.push(ToolInfo { spec: t.spec(), needs_approval: t.needs_approval() });
    let t = plan::UpdatePlanTool;
    out.push(ToolInfo { spec: t.spec(), needs_approval: t.needs_approval() });
    let t = fs::ListExternalDirTool;
    out.push(ToolInfo { spec: t.spec(), needs_approval: t.needs_approval() });
    let t = fs::ReadExternalFileTool;
    out.push(ToolInfo { spec: t.spec(), needs_approval: t.needs_approval() });
    let t = fs::WriteExternalFileTool;
    out.push(ToolInfo { spec: t.spec(), needs_approval: t.needs_approval() });
    assert(info_specs(out@) =~= default_specs());
    assert(info_approvals(out@) =~= default_approvals());
    out
}

/// Whether the path `q` is the directory at `root` or lies below it.
pub open spec fn inside(root: Seq<char>, q: Seq<char>) -> bool {
    absolute(q) && names_of(root).is_prefix_of(names_of(q))
}

/// Whether the path `q` is the directory at `root` or lies below it.
pub fn is_inside(root: &str, q: &str) -> (r: bool)
    ensures
        r == inside(root@, q@),
{
    if !is_absolute(q) {
        return false;
    }
    let rn = names(root);
    let qn = names(q);
    is_prefix(&rn, &qn)
}

/// Names that a path can be made of: none is empty, `.` or `..`, or holds a separator.
pub open spec fn plain(names: Seq<Seq<char>>) -> bool {
    forall|i: int|
        0 <= i < names.len() ==> (#[trigger] names[i]).len() > 0 && names[i] != "."@ && names[i]
            != ".."@ && !names[i].contains('/')
}

proof fn lemma_pieces_hold_no_separator(s: Seq<char>, i: int)
    requires
        0 <= i < text::split_on(s, '/').len(),
    ensures
        !text::split_on(s, '/')[i].contains('/'),
    decreases s.len(),
{
    if s.len() > 0 {
        text::lemma_split_on_len(s.drop_last(), '/');
        let before = text::split_on(s.drop_last(), '/');
        if s.last() == '/' {
            if i < before.len() {
                lemma_pieces_hold_no_separator(s.drop_last(), i);
            }
        } else {
            lemma_pieces_hold_no_separator(s.drop_last(), i);
            if i == before.len() - 1 {
                let p = before.last().push(s.last());
                if p.contains('/') {
                    let k = choose|k: int| 0 <= k < p.len() && p[k] == '/';
                    assert(before.last()[k] == '/');
                }
            }
        }
    }
}

proof fn lemma_steps_plain(start: Seq<Seq<char>>, cs: Seq<Seq<char>>)
    requires
        plain(start),
        forall|i: int| 0 <= i < cs.len() ==> !(#[trigger] cs[i]).contains('/'),
    ensures
        plain(steps(start, cs)),
    decreases cs.len(),
{
    reveal_strlit("");
    assert(""@ =~= Seq::<char>::empty());
    if cs.len() > 0 {
        let t = cs.drop_last();
        assert forall|i: int| 0 <= i < t.len() implies !(#[trigger] t[i]).contains('/') by {
            assert(t[i] == cs[i]);
        }
        lemma_steps_plain(start, t);
        let before = steps(start, t);
        let after = steps(start, cs);
        let c = cs.last();
        assert(!cs[cs.len() - 1].contains('/'));
        if c.len() == 0 {
            assert(c =~= ""@);
        }
        assert forall|i: int| 0 <= i < after.len() implies (#[trigger] after[i]).len() > 0
            && after[i] != "."@ && after[i] != ".."@ && !after[i].contains('/') by {
            if i < before.len() {
                assert(before[i].len() > 0);
            }
        }
    }
}

/// The names that a path leads to are plain.
pub proof fn lemma_names_plain(start: Seq<Seq<char>>, p: Seq<char>)
    requires
        plain(start),
    ensures
        plain(names_from(start, p)),
{
    let cs = text::split_on(p, '/');
    assert forall|i: int| 0 <= i < cs.len() implies !(#[trigger] cs[i]).contains('/') by {
        lemma_pieces_hold_no_separator(p, i);
    }
    lemma_steps_plain(start, cs);
}

proof fn lemma_split_joined(names: Seq<Seq<char>>)
    requires
        plain(names),
    ensures
        text::split_on("/"@ + text::joined(names, "/"@), '/') == (if names.len() == 0 {
            seq![Seq::<char>::empty(), Seq::empty()]
        } else {
            seq![Seq::<char>::empty()] + names
        }),
    decreases names.len(),
{
    reveal_strlit("/");
    reveal_with_fuel(text::split_on, 3);
    let e = Seq::<char>::empty();
    if names.len() == 0 {
        let s = "/"@ + text::joined(names, "/"@);
        assert(s =~= seq!['/']);
        assert(s.drop_last() =~= e);
        assert(text::split_on(s, '/') =~= seq![e, e]);
    } else if names.len() == 1 {
        let s = "/"@ + text::joined(names, "/"@);
        assert(!names[0].contains('/'));
        text::lemma_split_on_append(e, names[0], '/');
        assert(s =~= e.push('/') + names[0]);
        assert(text::split_on(e, '/').push(names[0]) =~= seq![e] + names);
    } else {
        let t = names.drop_last();
        assert forall|i: int| 0 <= i < t.len() implies (#[trigger] t[i]).len() > 0 && t[i] != "."@
            && t[i] != ".."@ && !t[i].contains('/') by {
            assert(t[i] == names[i]);
        }
        lemma_split_joined(t);
        let a = "/"@ + text::joined(t, "/"@);
        let last = names.last();
        assert(!names[names.len() - 1].contains('/'));
        text::lemma_split_on_append(a, last, '/');
        assert("/"@ + text::joined(names, "/"@) =~= a.push('/') + last);
        assert((seq![e] + t).push(last) =~= seq![e] + names);
    }
}

proof fn lemma_steps_of_plain(names: Seq<Seq<char>>)
    requires
        plain(names),
    ensures
        steps(Seq::empty(), seq![Seq::<char>::empty()] + names) == names,
    decreases names.len(),
{
    reveal_strlit("");
    assert(""@ =~= Seq::<char>::empty());
    let cs = seq![Seq::<char>::empty()] + names;
    reveal_with_fuel(steps, 2);
    if names.len() == 0 {
        assert(cs.drop_last() =~= Seq::<Seq<char>>::empty());
        assert(steps(Seq::empty(), cs) =~= names);
    } else {
        let t = names.drop_last();
        assert forall|i: int| 0 <= i < t.len() implies (#[trigger] t[i]).len() > 0 && t[i] != "."@
            && t[i] != ".."@ && !t[i].contains('/') by {
            assert(t[i] == names[i]);
        }
        lemma_steps_of_plain(t);
        assert(cs.drop_last() =~= seq![Seq::<char>::empty()] + t);
        let last = names[names.len() - 1];
        assert(last.len() > 0);
        assert(last != ""@);
        assert(t.push(last) =~= names);
    }
}

/// Writing plain names out and reading the path gives the names back.
pub proof fn lemma_path_text_names(names: Seq<Seq<char>>)
    requires
        plain(names),
    ensures
        absolute(path_text(true, names)),
        names_of(path_text(true, names)) == names,
{
    reveal_strlit("/");
    lemma_split_joined(names);
    let e = Seq::<char>::empty();
    if names.len() == 0 {
        reveal_strlit("");
        assert(""@ =~= e);
        reveal_with_fuel(steps, 3);
        let cs = seq![e, e];
        assert(cs.drop_last() =~= seq![e]);
        assert(cs.drop_last().drop_last() =~= Seq::<Seq<char>>::empty());
        assert(names_of(path_text(true, names)) =~= names);
    } else {
        lemma_steps_of_plain(names);
    }
}

/// A resolved path never leaves the workspace: it is the root or lies below it.
pub proof fn resolved_path_is_inside(root: Seq<char>, p: Seq<char>)
    requires
        resolved(root, p) is Ok,
    ensures
        inside(root, resolved(root, p)->Ok_0),
{
    let start = Seq::<Seq<char>>::empty();
    lemma_names_plain(start, root);
    lemma_names_plain(start, p);
    lemma_names_plain(names_of(root), p);
    lemma_path_text_names(resolved_names(root, p));
}

/// A resolved path resolves to itself.
pub proof fn resolved_path_is_stable(root: Seq<char>, p: Seq<char>)
    requires
        resolved(root, p) is Ok,
    ensures
        resolved(root, resolved(root, p)->Ok_0) == resolved(root, p),
{
    resolved_path_is_inside(root, p);
    let start = Seq::<Seq<char>>::empty();
    lemma_names_plain(start, root);
    lemma_names_plain(start, p);
    lemma_names_plain(names_of(root), p);
    lemma_path_text_names(resolved_names(root, p));
}

/// Whatever a tool may touch lies in the workspace or in the workshop.
pub proof fn context_path_is_inside(
    workspace: Seq<char>,
    workshop: Option<Seq<char>>,
    p: Seq<char>,
)
    requires
        context_resolved(workspace, workshop, p) is Ok,
    ensures
        ({
            let q = context_resolved(workspace, workshop, p)->Ok_0;
            inside(workspace, q) || (workshop is Some && inside(workshop->0, q))
        }),
{
    if resolved(workspace, p) is Ok {
        resolved_path_is_inside(workspace, p);
    } else {
        resolved_path_is_inside(workshop->0, p);
    }
}

/// A relative path is one in the workspace or none: the workshop is reached by absolute paths
/// only.
pub proof fn relative_path_stays_in_the_workspace(
    workspace: Seq<char>,
    workshop: Option<Seq<char>>,
    p: Seq<char>,
)
    requires
        !absolute(p),
    ensures
        context_resolved(workspace, workshop, p) is Ok <==> resolved(workspace, p) is Ok,
        context_resolved(workspace, workshop, p) is Ok ==> inside(
            workspace,
            context_resolved(workspace, workshop, p)->Ok_0,
        ),
{
    if resolved(workspace, p) is Ok {
        resolved_path_is_inside(workspace, p);
    }
}

/// A relative or empty root resolves nothing.
pub proof fn relative_root_resolves_nothing(root: Seq<char>, p: Seq<char>)
    requires
        !absolute(root),
    ensures
        resolved(root, p) is Err,
{
}

/// The bytes of two texts are those of the one and then those of the other.
pub proof fn lemma_encode_concat(a: Seq<char>, b: Seq<char>)
    ensures
        encode_utf8(a + b) == encode_utf8(a) + encode_utf8(b),
    decreases a.len(),
{
    if a.len() == 0 {
        assert(a + b =~= b);
        assert(encode_utf8(a) + encode_utf8(b) =~= encode_utf8(b));
    } else {
        lemma_encode_concat(a.drop_first(), b);
        assert((a + b).drop_first() =~= a.drop_first() + b);
        assert((a + b)[0] == a[0]);
        let first = encode_scalar(a[0] as u32);
        assert(first + (encode_utf8(a.drop_first()) + encode_utf8(b)) =~= first + encode_utf8(
            a.drop_first(),
        ) + encode_utf8(b));
    }
}

proof fn lemma_boundary_between(a: Seq<u8>, b: Seq<u8>)
    requires
        valid_utf8(a),
        valid_utf8(b),
    ensures
        valid_utf8(a + b),
        is_char_boundary(a + b, a.len() as int),
    decreases a.len(),
{
    valid_utf8_concat(a, b);
    if a.len() > 0 {
        let n = length_of_first_scalar(a);
        let all = a + b;
        assert(all[0] == a[0]);
        assert(n >= 2 ==> all[1] == a[1]);
        assert(n >= 3 ==> all[2] == a[2]);
        assert(n >= 4 ==> all[3] == a[3]);
        assert(length_of_first_scalar(all) == n);
        lemma_boundary_between(pop_first_scalar(a), b);
        assert(pop_first_scalar(all) =~= pop_first_scalar(a) + b);
    }
}

proof fn lemma_boundary_largest(b: Seq<u8>, n: int, m: int)
    requires
        is_char_boundary(b, m),
        0 < m <= n,
    ensures
        boundary_within(b, n) >= m,
    decreases n,
{
    if n > m && !is_char_boundary(b, n) {
        lemma_boundary_largest(b, n - 1, m);
    }
}

/// A text that fits stays as it is. Of one that does not, as many whole characters are kept as
/// fit, from the beginning, and a note tells how many bytes the others take.
pub proof fn truncation_keeps_all_that_fits(s: Seq<char>, max: int)
    requires
        0 <= max,
    ensures
        encode_utf8(s).len() <= max ==> truncated(s, max) == s,
        encode_utf8(s).len() > max ==> exists|k: int|
            {
                &&& 0 <= k < s.len()
                &&& truncated(s, max) == #[trigger] s.take(k) + "\n…[truncated "@ + text::decimal(
                    encode_utf8(s.skip(k)).len(),
                ) + " bytes]"@
                &&& encode_utf8(s.take(k)).len() <= max
                &&& encode_utf8(s.take(k + 1)).len() > max
            },
{
    let b = encode_utf8(s);
    if b.len() > max {
        encode_utf8_valid_utf8(s);
        encode_utf8_decode_utf8(s);
        is_char_boundary_start_end_of_seq(b);
        lemma_boundary(b, max);
        let end = boundary_within(b, max);
        valid_utf8_split(b, end);
        decode_utf8_split(b, end);
        assert(b.subrange(0, end) =~= b.take(end));
        let head = decode_utf8(b.take(end));
        let tail = decode_utf8(b.subrange(end, b.len() as int));
        decode_utf8_encode_utf8(b.take(end));
        decode_utf8_encode_utf8(b.subrange(end, b.len() as int));
        let k = head.len() as int;
        assert(s =~= head + tail);
        assert(s.take(k) =~= head);
        assert(s.skip(k) =~= tail);
        assert(tail.len() > 0) by {
            if tail.len() == 0 {
                assert(encode_utf8(tail).len() == 0);
            }
        }
        let longer = s.take(k + 1);
        lemma_encode_concat(longer, s.skip(k + 1));
        assert(longer + s.skip(k + 1) =~= s);
        encode_utf8_valid_utf8(longer);
        encode_utf8_valid_utf8(s.skip(k + 1));
        lemma_boundary_between(encode_utf8(longer), encode_utf8(s.skip(k + 1)));
        assert(longer =~= head + seq![s[k]]);
        lemma_encode_concat(head, seq![s[k]]);
        reveal_with_fuel(encode_utf8, 2);
        assert(encode_utf8(seq![s[k]]).len() > 0);
        let m = encode_utf8(longer).len() as int;
        if m <= max {
            lemma_boundary_largest(b, max, m);
        }
        assert(truncated(s, max) == s.take(k) + "\n…[truncated "@ + text::decimal(
            encode_utf8(s.skip(k)).len(),
        ) + " bytes]"@);
    }
}

proof fn lemma_steps_concat(names: Seq<Seq<char>>, a: Seq<Seq<char>>, b: Seq<Seq<char>>)
    ensures
        steps(names, a + b) == steps(steps(names, a), b),
    decreases b.len(),
{
    if b.len() == 0 {
        assert(a + b =~= a);
    } else {
        lemma_steps_concat(names, a, b.drop_last());
        assert((a + b).drop_last() =~= a + b.drop_last());
        assert((a + b).last() == b.last());
    }
}

/// A path is walked component by component: what `p` leads to is where `q` goes on from. A
/// component that is empty or `.` stays, `..` goes up by one, where it can, and any other goes
/// down to that name.
pub proof fn paths_go_component_by_component(
    names: Seq<Seq<char>>,
    p: Seq<char>,
    q: Seq<char>,
)
    ensures
        names_from(names, p + seq!['/'] + q) == names_from(names_from(names, p), q),
        !p.contains('/') ==> names_from(names, p) == (if p == ""@ || p == "."@ {
            names
        } else if p == ".."@ {
            if names.len() == 0 {
                names
            } else {
                names.take(names.len() - 1)
            }
        } else {
            names + seq![p]
        }),
{
    text::pieces_come_one_after_the_other(p, q, '/');
    lemma_steps_concat(names, text::split_on(p, '/'), text::split_on(q, '/'));
    if !p.contains('/') {
        reveal_with_fuel(steps, 2);
        assert(seq![p].drop_last() =~= Seq::<Seq<char>>::empty());
        assert(seq![p].last() == p);
        assert(names.push(p) =~= names + seq![p]);
        assert(names.len() > 0 ==> names.drop_last() =~= names.take(names.len() - 1));
    }
}

/// A path is absolute exactly where it is a slash with something behind it.
pub proof fn absolute_paths_begin_with_a_slash(p: Seq<char>)
    ensures
        absolute(p) <==> exists|q: Seq<char>| p == #[trigger] (seq!['/'] + q),
{
    if absolute(p) {
        assert(p =~= seq!['/'] + p.skip(1));
    }
}

proof fn lemma_leading_slash(q: Seq<char>)
    ensures
        names_of(seq!['/'] + q) == names_of(q),
{
    reveal_strlit("");
    let e = Seq::<char>::empty();
    assert(e =~= ""@);
    paths_go_component_by_component(Seq::empty(), e, q);
    assert(e + seq!['/'] + q =~= seq!['/'] + q);
}

/// A normalized path leads where the path leads, is absolute where it is, and normalizing it
/// again changes nothing.
pub proof fn normalizing_keeps_the_place(p: Seq<char>)
    ensures
        names_of(normalized(p)) == names_of(p),
        absolute(normalized(p)) == absolute(p),
        normalized(normalized(p)) == normalized(p),
        plain(names_of(p)),
{
    reveal_strlit("/");
    lemma_names_plain(Seq::empty(), p);
    let names = names_of(p);
    lemma_path_text_names(names);
    let j = text::joined(names, "/"@);
    assert("/"@ =~= seq!['/']);
    lemma_leading_slash(j);
    if !absolute(p) {
        if names.len() > 0 {
            assert(names[0].len() > 0 && !names[0].contains('/'));
            if names.len() > 1 {
                text::joining_keeps_every_part(names.take(1), names.skip(1), "/"@);
                assert(names.take(1) + names.skip(1) =~= names);
                text::joining_keeps_every_part(names.take(1), names.take(1), "/"@);
            }
            assert(j[0] == names[0][0]);
            assert(names[0].contains(names[0][0]));
        }
    }
}

/// A relative path means the file below the root that it names: it resolves as the root with the
/// path behind it does.
pub proof fn relative_path_is_below_the_root(root: Seq<char>, p: Seq<char>)
    requires
        absolute(root),
        !absolute(p),
    ensures
        resolved(root, p) is Ok <==> resolved(root, root + seq!['/'] + p) is Ok,
        resolved(root, p) is Ok ==> resolved(root, p) == resolved(root, root + seq!['/'] + p),
{
    paths_go_component_by_component(Seq::empty(), root, p);
    assert((root + seq!['/'] + p)[0] == root[0]);
}

/// An absolute path resolves exactly where it lies at the root or below it, and means itself,
/// normalized; elsewhere the error names the path.
pub proof fn path_inside_means_itself(root: Seq<char>, p: Seq<char>)
    requires
        absolute(root),
        absolute(p),
    ensures
        resolved(root, p) == (if names_of(root).is_prefix_of(names_of(p)) {
            Ok::<Seq<char>, ErrorView>(normalized(p))
        } else {
            Err(ErrorView::Tool("path escapes workspace: "@ + p))
        }),
        inside(root, p) <==> names_of(root).is_prefix_of(names_of(p)),
{
}

/// A tool may touch what lies in the workspace, and, by its absolute path, what lies in the
/// workshop; each means the same as for the one directory alone.
pub proof fn context_takes_workspace_and_workshop(
    workspace: Seq<char>,
    workshop: Seq<char>,
    p: Seq<char>,
)
    ensures
        resolved(workspace, p) is Ok ==> context_resolved(workspace, Some(workshop), p)
            == resolved(workspace, p) && context_resolved(workspace, None, p) == resolved(
            workspace,
            p,
        ),
        resolved(workspace, p) is Err && absolute(p) ==> context_resolved(
            workspace,
            Some(workshop),
            p,
        ) == resolved(workshop, p),
        resolved(workspace, p) is Err ==> context_resolved(workspace, None, p) == Err::<
            Seq<char>,
            ErrorView,
        >(ErrorView::Tool("path escapes workspace: "@ + p)),
{
}

/// The tools of every run, by name. Those that write, run something or cross the sandbox need
/// approval, and no others do.
pub proof fn default_tools_by_name()
    ensures
        default_specs().map_values(|t: ToolSpecView| t.name) == seq![
            "read_file"@,
            "write_file"@,
            "edit_file"@,
            "list_dir"@,
            "grep"@,
            "glob"@,
            "run_shell"@,
            "update_plan"@,
            "list_external_dir"@,
            "read_external_file"@,
            "write_external_file"@,
        ],
        default_approvals().len() == 11,
        forall|i: int|
            0 <= i < 11 ==> (#[trigger] default_approvals()[i] <==> i == 1 || i == 2 || i == 6 || i
                >= 8),
{
    assert(default_specs().map_values(|t: ToolSpecView| t.name) =~= seq![
        "read_file"@,
        "write_file"@,
        "edit_file"@,
        "list_dir"@,
        "grep"@,
        "glob"@,
        "run_shell"@,
        "update_plan"@,
        "list_external_dir"@,
        "read_external_file"@,
        "write_external_file"@,
    ]);
}

/// Plain names with slashes between them lead down by these names.
pub proof fn names_lead_down(start: Seq<Seq<char>>, names: Seq<Seq<char>>)
    requires
        plain(names),
    ensures
        names_from(start, text::joined(names, "/"@)) == start + names,
        !absolute(text::joined(names, "/"@)),
    decreases names.len(),
{
    reveal_strlit("/");
    reveal_strlit("");
    assert("/"@ =~= seq!['/']);
    let j = text::joined(names, "/"@);
    if names.len() == 0 {
        assert(j =~= ""@);
        assert(!j.contains('/'));
        paths_go_component_by_component(start, j, j);
        assert(start + names =~= start);
    } else {
        let t = names.drop_last();
        let last = names[names.len() - 1];
        assert(last.len() > 0 && !last.contains('/') && last != "."@ && last != ".."@);
        assert forall|i: int| 0 <= i < t.len() implies (#[trigger] t[i]).len() > 0 && t[i] != "."@
            && t[i] != ".."@ && !t[i].contains('/') by {
            assert(t[i] == names[i]);
        }
        names_lead_down(start, t);
        paths_go_component_by_component(start + t, last, last);
        paths_go_component_by_component(start, text::joined(t, "/"@), last);
        paths_go_component_by_component(start, last, last);
        assert(start + t + seq![last] =~= start + names);
        if names.len() == 1 {
            assert(last.contains(last[0]));
            assert(start + seq![last] =~= start + names);
        } else {
            let h = text::joined(t, "/"@);
            assert(j == h + seq!['/'] + last);
            lemma_joined_nonempty(t);
            assert(j[0] == h[0]);
        }
    }
}

proof fn lemma_joined_nonempty(names: Seq<Seq<char>>)
    requires
        names.len() > 0,
        plain(names),
    ensures
        text::joined(names, "/"@).len() > 0,
{
    assert(names[names.len() - 1].len() > 0);
}

/// Whether a schema has a parameter of a kind.
pub open spec fn has_parameter(schema: JsonView, key: Seq<char>, kind: Seq<char>) -> bool {
    schema.at("properties"@).at(key).str_field("type"@) == Some(kind)
}

/// Whether the parameters that a schema requires are the given ones.
pub open spec fn requires_these(schema: JsonView, keys: Seq<Seq<char>>) -> bool {
    if keys.len() == 0 {
        schema.field("required"@) is None
    } else {
        schema.field("required"@) == Some(
            JsonView::Array(keys.map_values(|k: Seq<char>| JsonView::Str(k))),
        )
    }
}

proof fn lemma_schema_keys()
    ensures
        "type"@ != "properties"@ && "type"@ != "required"@ && "properties"@ != "required"@,
        "type"@ != "description"@ && "type"@ != "enum"@ && "type"@ != "items"@,
        "path"@ != "offset"@ && "path"@ != "limit"@ && "offset"@ != "limit"@,
        "path"@ != "content"@ && "path"@ != "mode"@ && "content"@ != "mode"@,
        "path"@ != "depth"@ && "path"@ != "old_string"@ && "path"@ != "new_string"@,
        "path"@ != "expected_replacements"@ && "old_string"@ != "new_string"@,
        "old_string"@ != "expected_replacements"@ && "new_string"@ != "expected_replacements"@,
        "pattern"@ != "path"@ && "pattern"@ != "glob"@ && "path"@ != "glob"@,
        "command"@ != "timeout_secs"@,
{
    reveal_strlit("type");
    reveal_strlit("properties");
    reveal_strlit("required");
    reveal_strlit("description");
    reveal_strlit("enum");
    reveal_strlit("items");
    reveal_strlit("path");
    reveal_strlit("offset");
    reveal_strlit("limit");
    reveal_strlit("content");
    reveal_strlit("mode");
    reveal_strlit("depth");
    reveal_strlit("old_string");
    reveal_strlit("new_string");
    reveal_strlit("expected_replacements");
    reveal_strlit("pattern");
    reveal_strlit("glob");
    reveal_strlit("command");
    reveal_strlit("timeout_secs");
    assert("type"@.len() == 4 && "properties"@.len() == 10 && "required"@.len() == 8);
    assert("description"@.len() == 11 && "enum"@.len() == 4 && "items"@.len() == 5);
    assert("type"@[0] == 't' && "enum"@[0] == 'e');
    assert("path"@.len() == 4 && "offset"@.len() == 6 && "limit"@.len() == 5);
    assert("content"@.len() == 7 && "mode"@.len() == 4 && "depth"@.len() == 5);
    assert("path"@[0] == 'p' && "mode"@[0] == 'm' && "glob"@[0] == 'g' && "glob"@.len() == 4);
    assert("old_string"@.len() == 10 && "new_string"@.len() == 10);
    assert("old_string"@[0] == 'o' && "new_string"@[0] == 'n');
    assert("expected_replacements"@.len() == 21 && "pattern"@.len() == 7);
    assert("command"@.len() == 7 && "timeout_secs"@.len() == 12);
}

/// The tools tell the model of the parameters that they read, each of its kind, and require those
/// without which they fail.
pub proof fn tools_ask_for_what_they_read()
    ensures
        ({
            let read = fs::ReadFileTool::description().params_schema;
            let outside = fs::ReadExternalFileTool::description().params_schema;
            &&& has_parameter(read, "path"@, "string"@)
            &&& has_parameter(read, "offset"@, "integer"@)
            &&& has_parameter(read, "limit"@, "integer"@)
            &&& requires_these(read, seq!["path"@])
            &&& has_parameter(outside, "path"@, "string"@)
            &&& has_parameter(outside, "offset"@, "integer"@)
            &&& has_parameter(outside, "limit"@, "integer"@)
            &&& requires_these(outside, seq!["path"@])
        }),
        ({
            let write = fs::WriteFileTool::description().params_schema;
            let outside = fs::WriteExternalFileTool::description().params_schema;
            let words = JsonView::Array(
                seq![
                    JsonView::Str("create"@),
                    JsonView::Str("overwrite"@),
                    JsonView::Str("append"@),
                ],
            );
            &&& has_parameter(write, "path"@, "string"@)
            &&& has_parameter(write, "content"@, "string"@)
            &&& has_parameter(write, "mode"@, "string"@)
            &&& write.at("properties"@).at("mode"@).field("enum"@) == Some(words)
            &&& requires_these(write, seq!["path"@, "content"@])
            &&& has_parameter(outside, "path"@, "string"@)
            &&& has_parameter(outside, "content"@, "string"@)
            &&& has_parameter(outside, "mode"@, "string"@)
            &&& outside.at("properties"@).at("mode"@).field("enum"@) == Some(words)
            &&& requires_these(outside, seq!["path"@, "content"@])
        }),
        ({
            let edit = fs::EditFileTool::description().params_schema;
            &&& has_parameter(edit, "path"@, "string"@)
            &&& has_parameter(edit, "old_string"@, "string"@)
            &&& has_parameter(edit, "new_string"@, "string"@)
            &&& has_parameter(edit, "expected_replacements"@, "integer"@)
            &&& requires_these(edit, seq!["path"@, "old_string"@, "new_string"@])
        }),
        ({
            let list = fs::ListDirTool::description().params_schema;
            let outside = fs::ListExternalDirTool::description().params_schema;
            &&& has_parameter(list, "path"@, "string"@)
            &&& has_parameter(list, "depth"@, "integer"@)
            &&& requires_these(list, Seq::empty())
            &&& has_parameter(outside, "path"@, "string"@)
            &&& has_parameter(outside, "depth"@, "integer"@)
            &&& requires_these(outside, seq!["path"@])
        }),
        ({
            let grep = search::GrepTool::description().params_schema;
            let glob = search::GlobTool::description().params_schema;
            &&& has_parameter(grep, "pattern"@, "string"@)
            &&& has_parameter(grep, "path"@, "string"@)
            &&& has_parameter(grep, "glob"@, "string"@)
            &&& requires_these(grep, seq!["pattern"@])
            &&& has_parameter(glob, "pattern"@, "string"@)
            &&& requires_these(glob, seq!["pattern"@])
        }),
        ({
            let run = shell::RunShellTool::description().params_schema;
            let plan = plan::UpdatePlanTool::description().params_schema;
            &&& has_parameter(run, "command"@, "string"@)
            &&& has_parameter(run, "timeout_secs"@, "integer"@)
            &&& requires_these(run, seq!["command"@])
            &&& has_parameter(plan, "steps"@, "array"@)
            &&& requires_these(plan, seq!["steps"@])
        }),
{
    lemma_schema_keys();
    let f = |k: Seq<char>| JsonView::Str(k);
    assert(seq!["path"@].map_values(f) =~= seq![JsonView::Str("path"@)]);
    assert(seq!["path"@, "content"@].map_values(f) =~= seq![
        JsonView::Str("path"@),
        JsonView::Str("content"@),
    ]);
    assert(seq!["path"@, "old_string"@, "new_string"@].map_values(f) =~= seq![
        JsonView::Str("path"@),
        JsonView::Str("old_string"@),
        JsonView::Str("new_string"@),
    ]);
    assert(seq!["pattern"@].map_values(f) =~= seq![JsonView::Str("pattern"@)]);
    assert(seq!["command"@].map_values(f) =~= seq![JsonView::Str("command"@)]);
    assert(seq!["steps"@].map_values(f) =~= seq![JsonView::Str("steps"@)]);
    assert(fs::mode_words() =~= seq![
        JsonView::Str("create"@),
        JsonView::Str("overwrite"@),
        JsonView::Str("append"@),
    ]);
}

} // verus!
