//! The commands of the user interface: what they check, pick and preview.
use crate::config::AppConfig;
use crate::error::{Error, ErrorView};
use crate::json::{Json, JsonView};
use crate::store::WorkspaceRow;
use crate::tools::fs::{Entry, EntryView};
use crate::types::{ApprovalMode, ProviderConfig, ProviderKind};
use crate::{json, providers, text, tools};
use vstd::prelude::*;
use vstd::string::*;

verus! {

/// Commands return String errors to the frontend.
pub fn estr(e: Error) -> (r: String)
    ensures
        r@ == e@.message(),
{
    e.message()
}

/// Whether a directory may become a workspace: its path is absolute, and it is a directory.
pub fn check_workspace(path: &str, is_dir: bool) -> (r: Result<(), Error>)
    ensures
        tools::fs::unit_view(r) == (if !tools::absolute(path@) {
            Err(ErrorView::Tool("workspace path must be absolute"@))
        } else if !is_dir {
            Err(ErrorView::Tool("not a directory: "@ + path@))
        } else {
            Ok(())
        }),
{
    if !tools::is_absolute(path) {
        Err(Error::Tool("workspace path must be absolute".to_owned()))
    } else if !is_dir {
        Err(Error::Tool(text::concat2("not a directory: ", path)))
    } else {
        Ok(())
    }
}

/// The mode that a word of the frontend stands for.
pub fn parse_mode(mode: &str) -> (r: Result<ApprovalMode, Error>)
    ensures
        match r {
            Ok(m) => mode@ == crate::store::mode_word(m),
            Err(e) => mode@ != "auto"@ && mode@ != "manual"@ && e@ == ErrorView::Tool(
                "unknown approval mode: "@ + mode@,
            ),
        },
{
    if text::str_eq(mode, "auto") {
        Ok(ApprovalMode::Auto)
    } else if text::str_eq(mode, "manual") {
        Ok(ApprovalMode::Manual)
    } else {
        Err(Error::Tool(text::concat2("unknown approval mode: ", mode)))
    }
}

/// The names of the models in a list.
pub open spec fn model_names(models: Seq<JsonView>) -> Seq<Seq<char>>
    decreases models.len(),
{
    if models.len() == 0 {
        Seq::empty()
    } else {
        match models.last().str_field("name"@) {
            Some(n) => model_names(models.drop_last()).push(n),
            None => model_names(models.drop_last()),
        }
    }
}

/// The model names that an Ollama server reports.
pub fn parse_tags(body: &Json) -> (r: Vec<String>)
    ensures
        text::views(r@) == (match body@.at("models"@).as_array() {
            Some(models) => model_names(models),
            None => Seq::empty(),
        }),
{
    let mut out: Vec<String> = Vec::new();
    assert(text::views(out@) =~= Seq::<Seq<char>>::empty());
    if let Some(ms) = body.get("models") {
        if let Some(models) = ms.as_array() {
            let ghost all = json::array_view(models@);
            let mut i: usize = 0;
            proof {
                json::lemma_array_view(models@);
                assert(all.take(0) =~= Seq::<JsonView>::empty());
            }
            while i < models.len()
                invariant
                    i <= models.len(),
                    all == json::array_view(models@),
                    all.len() == models.len(),
                    forall|k: int|
                        0 <= k < models.len() ==> #[trigger] json::array_view(models@)[k]
                            == models@[k].view(),
                    text::views(out@) == model_names(all.take(i as int)),
                decreases models.len() - i,
            {
                proof {
                    assert(all.take(i + 1).drop_last() =~= all.take(i as int));
                    assert(all.take(i + 1).last() == models@[i as int].view());
                }
                if let Some(n) = models[i].str_field("name") {
                    let s = n.to_owned();
                    proof {
                        text::lemma_views_push(out@, s);
                    }
                    out.push(s);
                }
                i += 1;
            }
            assert(all.take(models.len() as int) =~= all);
        }
    }
    out
}

/// The address under which an Ollama server reports its models; other providers have none.
pub fn tags_url(cfg: &ProviderConfig) -> (r: Result<String, Error>)
    ensures
        tools::path_view(r) == (if cfg.kind != ProviderKind::Ollama {
            Err(ErrorView::Tool("model listing is only supported for Ollama"@))
        } else {
            Ok(
                providers::base(text::opt_view(cfg.base_url), "http://localhost:11434"@)
                    + "/api/tags"@,
            )
        }),
{
    if cfg.kind != ProviderKind::Ollama {
        return Err(Error::Tool("model listing is only supported for Ollama".to_owned()));
    }
    let base = providers::base_of(providers::as_deref(&cfg.base_url), "http://localhost:11434");
    Ok(text::concat2(base.as_str(), "/api/tags"))
}

/// How much of the body of a refusal is kept, in characters.
pub const MAX_TAGS_ERROR: usize = 200;

/// Simulated result of a mutating tool call, for the approval card's diff preview.
pub struct ToolDiffPreview {
    pub path: String,
    pub old: String,
    pub new_: String,
}

/// A preview.
#[verifier::ext_equal]
pub struct PreviewView {
    pub path: Seq<char>,
    pub old: Seq<char>,
    pub new_: Seq<char>,
}

impl ToolDiffPreview {
    pub open spec fn view(self) -> PreviewView {
        PreviewView { path: self.path@, old: self.old@, new_: self.new_@ }
    }
}

/// The file that a call would change: where it lies, and the arguments of the call.
pub struct DiffTarget {
    pub abs: String,
    pub path: String,
    pub args: Json,
}

/// What a target holds.
pub struct DiffTargetView {
    pub abs: Seq<char>,
    pub path: Seq<char>,
    pub args: JsonView,
}

impl DiffTarget {
    pub open spec fn view(self) -> DiffTargetView {
        DiffTargetView { abs: self.abs@, path: self.path@, args: self.args@ }
    }
}

/// The file that a call with the given arguments would change; nothing for a tool that changes
/// none, and for arguments that lead to no file of the workspace.
pub open spec fn target_of(root: Seq<char>, name: Seq<char>, args: JsonView) -> Option<
    DiffTargetView,
> {
    if !crate::agent::changes_file(name) {
        None
    } else {
        match args.str_field("path"@) {
            None => None,
            Some(p) => match tools::resolved(root, p) {
                Ok(abs) => Some(DiffTargetView { abs, path: p, args }),
                Err(_) => None,
            },
        }
    }
}

/// What a target is.
pub open spec fn target_view(r: Option<DiffTarget>) -> Option<DiffTargetView> {
    match r {
        Some(t) => Some(t@),
        None => None,
    }
}

/// The file that a call with the given arguments would change.
pub fn diff_target_in(root: &str, name: &str, args: Json) -> (r: Option<DiffTarget>)
    ensures
        target_view(r) == target_of(root@, name@, args@),
{
    if !text::str_eq(name, "write_file") && !text::str_eq(name, "edit_file") {
        return None;
    }
    let path = match args.str_field("path") {
        Some(p) => p.to_owned(),
        None => {
            return None;
        },
    };
    match tools::resolve_in_workspace(root, path.as_str()) {
        Ok(abs) => Some(DiffTarget { abs, path, args }),
        Err(_) => None,
    }
}

/// The file that a call would change; nothing for a tool that changes none, and for arguments
/// that do not parse or lead to no file of the workspace.
pub fn diff_target(root: &str, name: &str, args_json: &str) -> (r: Option<DiffTarget>)
    ensures
        target_view(r) == (match json::parsed(args_json@) {
            Some(v) => target_of(root@, name@, v),
            None => None,
        }),
{
    match json::parse(args_json) {
        Ok(v) => diff_target_in(root, name, v),
        Err(_) => None,
    }
}

/// The text of a file after a write.
pub open spec fn written(old_text: Seq<char>, args: JsonView) -> Result<Seq<char>, ErrorView> {
    match args.str_field("content"@) {
        None => Err(ErrorView::Tool("missing content"@)),
        Some(c) => if args.str_field("mode"@) == Some("append"@) {
            Ok(old_text + c)
        } else {
            Ok(c)
        },
    }
}

/// How often a string is expected that a call replaces.
pub open spec fn expected_in(args: JsonView) -> nat {
    match args.at("expected_replacements"@).as_u64() {
        Some(n) => n as nat,
        None => 1,
    }
}

/// The text of a file after an edit.
pub open spec fn edited(
    old_text: Seq<char>,
    exists_: bool,
    path: Seq<char>,
    args: JsonView,
) -> Result<Seq<char>, ErrorView> {
    match args.str_field("old_string"@) {
        None => Err(ErrorView::Tool("missing old_string"@)),
        Some(find) => {
            let with = providers::or_text(args.str_field("new_string"@), ""@);
            let expected = expected_in(args);
            let count = text::occurrences(old_text, find, 0);
            if find.len() == 0 {
                Err(ErrorView::Tool("old_string must not be empty"@))
            } else if !exists_ {
                Err(ErrorView::Tool("file does not exist: "@ + path))
            } else if count == 0 {
                Err(ErrorView::Tool("old_string not found"@))
            } else if count != expected {
                Err(
                    ErrorView::Tool(
                        "old_string occurs "@ + text::decimal(count) + " times, expected "@
                            + text::decimal(expected),
                    ),
                )
            } else {
                Ok(text::replaced_from(old_text, find, with, expected, 0))
            }
        },
    }
}

/// The text of a file after a call.
pub open spec fn changed(
    name: Seq<char>,
    old_text: Seq<char>,
    exists_: bool,
    path: Seq<char>,
    args: JsonView,
) -> Result<Seq<char>, ErrorView> {
    if name == "write_file"@ {
        written(old_text, args)
    } else {
        edited(old_text, exists_, path, args)
    }
}

fn write_preview(old_text: &str, args: &Json) -> (r: Result<String, Error>)
    ensures
        tools::path_view(r) == written(old_text@, args@),
{
    match args.str_field("content") {
        None => Err(Error::Tool("missing content".to_owned())),
        Some(c) => {
            if let Some(m) = args.str_field("mode") {
                if text::str_eq(m, "append") {
                    return Ok(text::concat2(old_text, c));
                }
            }
            Ok(c.to_owned())
        },
    }
}

fn edit_preview(old_text: &str, exists: bool, path: &str, args: &Json) -> (r: Result<
    String,
    Error,
>)
    ensures
        tools::path_view(r) == edited(old_text@, exists, path@, args@),
{
    let find = match args.str_field("old_string") {
        Some(f) => f,
        None => {
            return Err(Error::Tool("missing old_string".to_owned()));
        },
    };
    let with = match args.str_field("new_string") {
        Some(w) => w,
        None => "",
    };
    if find.is_empty() {
        return Err(Error::Tool("old_string must not be empty".to_owned()));
    }
    if !exists {
        return Err(Error::Tool(text::concat2("file does not exist: ", path)));
    }
    let count = text::count_matches(old_text, find);
    let expected: u64 = match args.get("expected_replacements") {
        Some(e) => match e.as_u64() {
            Some(n) => n,
            None => 1,
        },
        None => 1,
    };
    if count == 0 {
        return Err(Error::Tool("old_string not found".to_owned()));
    }
    if count as u64 != expected {
        let c = text::decimal_of(count as u64);
        let e = text::decimal_of(expected);
        let mut m = text::concat3("old_string occurs ", c.as_str(), " times, expected ");
        m.append(e.as_str());
        return Err(Error::Tool(m));
    }
    Ok(text::replace_n(old_text, find, with, count))
}

/// Previews what a call would make of a file, whose text is `old_text` (empty, where it cannot be
/// read). Tool-level errors (missing file, old_string not found) come back as Err so the card can
/// show them inline.
pub fn preview_tool_diff(name: &str, t: &DiffTarget, old_text: &str, exists: bool) -> (r: Result<
    ToolDiffPreview,
    Error,
>)
    ensures
        match changed(name@, old_text@, exists, t.path@, t.args@) {
            Ok(new_text) => r is Ok && r->Ok_0@ == (PreviewView {
                path: t.path@,
                old: old_text@,
                new_: new_text,
            }),
            Err(e) => r is Err && r->Err_0@ == e,
        },
{
    let new_text = if text::str_eq(name, "write_file") {
        write_preview(old_text, &t.args)
    } else {
        edit_preview(old_text, exists, t.path.as_str(), &t.args)
    };
    match new_text {
        Ok(n) => Ok(ToolDiffPreview { path: t.path.clone(), old: old_text.to_owned(), new_: n }),
        Err(e) => Err(e),
    }
}

/// The preview of an edit shows what the tool would write, and shows an error exactly where the
/// tool would refuse.
pub proof fn edit_preview_shows_the_edit(
    content: Seq<char>,
    find: Seq<char>,
    with: Seq<char>,
    path: Seq<char>,
    args: JsonView,
)
    requires
        args.str_field("old_string"@) == Some(find),
        args.str_field("new_string"@) == Some(with),
    ensures
        match tools::fs::edited(content, find, with, expected_in(args), path) {
            Ok(new_text) => edited(content, true, path, args) == Ok::<Seq<char>, ErrorView>(
                new_text,
            ),
            Err(_) => edited(content, true, path, args) is Err,
        },
{
}

/// What a file is restored to.
pub enum Restore {
    /// It held these bytes.
    Write { abs: String, bytes: Vec<u8> },
    /// It did not exist.
    Remove { abs: String },
}

/// What restoring a file of the workspace does.
pub open spec fn restored(root: Seq<char>, path: Seq<char>, content: Option<Seq<u8>>) -> Result<
    (Seq<char>, Option<Seq<u8>>),
    ErrorView,
> {
    match tools::resolved(root, path) {
        Ok(abs) => Ok((abs, content)),
        Err(e) => Err(e),
    }
}

/// What a restoration is.
pub open spec fn restore_view(r: Result<Restore, Error>) -> Result<
    (Seq<char>, Option<Seq<u8>>),
    ErrorView,
> {
    match r {
        Ok(Restore::Write { abs, bytes }) => Ok((abs@, Some(bytes@))),
        Ok(Restore::Remove { abs }) => Ok((abs@, None)),
        Err(e) => Err(e@),
    }
}

/// Plans the restoration of a file from its checkpoint; `content` is none where the file did not
/// exist.
pub fn plan_restore(root: &str, path: &str, content: Option<Vec<u8>>) -> (r: Result<Restore, Error>)
    ensures
        restore_view(r) == restored(
            root@,
            path@,
            match content {
                Some(b) => Some(b@),
                None => None,
            },
        ),
{
    match tools::resolve_in_workspace(root, path) {
        Ok(abs) => match content {
            Some(bytes) => Ok(Restore::Write { abs, bytes }),
            None => Ok(Restore::Remove { abs }),
        },
        Err(e) => Err(e),
    }
}

/// The checkpoint of a call is that of the file which the call changes: what is kept before the
/// call lies where the tool writes, and restoring it writes there.
pub proof fn checkpoint_is_of_the_changed_file(
    root: Seq<char>,
    workshop: Option<Seq<char>>,
    args: JsonView,
    content: Option<Seq<u8>>,
)
    requires
        crate::agent::backup_target_of(root, Some(args)) is Some,
    ensures
        ({
            let (path, abs) = crate::agent::backup_target_of(root, Some(args))->0;
            &&& args.str_field("path"@) == Some(path)
            &&& tools::context_resolved(root, workshop, path) == Ok::<Seq<char>, ErrorView>(abs)
            &&& restored(root, path, content) == Ok::<(Seq<char>, Option<Seq<u8>>), ErrorView>(
                (abs, content),
            )
            &&& tools::inside(root, abs)
        }),
{
    tools::resolved_path_is_inside(root, args.str_field("path"@)->0);
}

/// The error for a file without a checkpoint.
pub fn no_checkpoint(path: &str) -> (r: Error)
    ensures
        r@ == ErrorView::Tool(
            "no checkpoint for "@ + path@ + " at this turn (already reverted or never changed)"@,
        ),
{
    Error::Tool(
        text::concat3(
            "no checkpoint for ",
            path,
            " at this turn (already reverted or never changed)",
        ),
    )
}

/// The files after restorations one after the other; a file that is not there has no contents.
pub open spec fn after_restoring(
    files: Map<Seq<char>, Seq<u8>>,
    list: Seq<(Seq<char>, Option<Seq<u8>>)>,
) -> Map<Seq<char>, Seq<u8>>
    decreases list.len(),
{
    if list.len() == 0 {
        files
    } else {
        let before = after_restoring(files, list.drop_last());
        match list.last().1 {
            Some(b) => before.insert(list.last().0, b),
            None => before.remove(list.last().0),
        }
    }
}

/// A rewind gives each file the contents of its last restoration in the list. The checkpoints come
/// from the newest to the oldest, so these are the contents from before the first of the changes
/// that are undone; and no other file changes.
pub proof fn last_restoration_counts(
    files: Map<Seq<char>, Seq<u8>>,
    list: Seq<(Seq<char>, Option<Seq<u8>>)>,
    i: int,
    other: Seq<char>,
)
    requires
        0 <= i < list.len(),
        forall|j: int| i < j < list.len() ==> (#[trigger] list[j]).0 != list[i].0,
        forall|j: int| 0 <= j < list.len() ==> (#[trigger] list[j]).0 != other,
    ensures
        match list[i].1 {
            Some(b) => after_restoring(files, list).contains_key(list[i].0) && after_restoring(
                files,
                list,
            )[list[i].0] == b,
            None => !after_restoring(files, list).contains_key(list[i].0),
        },
        after_restoring(files, list).contains_key(other) == files.contains_key(other),
        files.contains_key(other) ==> after_restoring(files, list)[other] == files[other],
    decreases list.len(),
{
    let t = list.drop_last();
    lemma_others_stay(files, list, other);
    if i < list.len() - 1 {
        assert forall|j: int| i < j < t.len() implies (#[trigger] t[j]).0 != t[i].0 by {
            assert(t[j] == list[j]);
        }
        assert forall|j: int| 0 <= j < t.len() implies (#[trigger] t[j]).0 != other by {
            assert(t[j] == list[j]);
        }
        last_restoration_counts(files, t, i, other);
        assert(list[list.len() - 1].0 != list[i].0);
    }
}

proof fn lemma_others_stay(
    files: Map<Seq<char>, Seq<u8>>,
    list: Seq<(Seq<char>, Option<Seq<u8>>)>,
    other: Seq<char>,
)
    requires
        forall|j: int| 0 <= j < list.len() ==> (#[trigger] list[j]).0 != other,
    ensures
        after_restoring(files, list).contains_key(other) == files.contains_key(other),
        files.contains_key(other) ==> after_restoring(files, list)[other] == files[other],
    decreases list.len(),
{
    if list.len() > 0 {
        let t = list.drop_last();
        assert forall|j: int| 0 <= j < t.len() implies (#[trigger] t[j]).0 != other by {
            assert(t[j] == list[j]);
        }
        lemma_others_stay(files, t, other);
        assert(list[list.len() - 1].0 != other);
    }
}

/// How many entries a file search looks at.
pub const MAX_VISITED: usize = 5000;

/// How many files a file search returns.
pub const MAX_RESULTS: usize = 50;

/// Whether a file search leaves a directory out.
pub open spec fn ignored(name: Seq<char>) -> bool {
    name == ".git"@ || name == "target"@ || name == "node_modules"@ || name == ".idea"@ || (
    name.len() > 0 && name[0] == '.')
}

fn is_ignored(name: &str) -> (r: bool)
    ensures
        r == ignored(name@),
{
    let cs = text::chars_of(name);
    text::str_eq(name, ".git") || text::str_eq(name, "target") || text::str_eq(
        name,
        "node_modules",
    ) || text::str_eq(name, ".idea") || (cs.len() > 0 && cs[0] == '.')
}

/// A file search under way: the directories to visit, the last one first, how many entries were
/// looked at, and the files found. Paths are as seen from the workspace.
#[verifier::ext_equal]
pub struct WalkState {
    pub stack: Seq<Seq<char>>,
    pub visited: int,
    pub paths: Seq<Seq<char>>,
}

/// The path of an entry, as seen from the workspace.
pub open spec fn below(dir: Seq<char>, name: Seq<char>) -> Seq<char> {
    if dir.len() == 0 {
        name
    } else {
        dir + "/"@ + name
    }
}

impl WalkState {
    /// A search that begins with the workspace.
    pub open spec fn start() -> WalkState {
        WalkState { stack: seq![Seq::empty()], visited: 0, paths: Seq::empty() }
    }

    /// Whether no directory is to be read any more.
    pub open spec fn resting(self) -> bool {
        self.stack.len() == 0 || self.visited >= MAX_VISITED
    }

    /// The next directory is read, where there is one. `fs` tells the entries of each directory,
    /// by its path.
    pub open spec fn round(self, fs: spec_fn(Seq<char>) -> Seq<EntryView>) -> WalkState {
        if self.resting() {
            self
        } else {
            let dir = self.stack.last();
            WalkState { stack: self.stack.drop_last(), ..self }.entries(dir, fs(dir))
        }
    }

    /// An entry of a directory is looked at.
    pub open spec fn entry(self, dir: Seq<char>, e: EntryView) -> WalkState {
        let seen = WalkState { visited: self.visited + 1, ..self };
        if self.visited >= MAX_VISITED {
            self
        } else if seen.visited >= MAX_VISITED {
            seen
        } else if e.is_dir {
            if ignored(e.name) {
                seen
            } else {
                WalkState { stack: seen.stack.push(below(dir, e.name)), ..seen }
            }
        } else {
            WalkState { paths: seen.paths.push(below(dir, e.name)), ..seen }
        }
    }

    /// The entries of a directory are looked at.
    pub open spec fn entries(self, dir: Seq<char>, es: Seq<EntryView>) -> WalkState
        decreases es.len(),
    {
        if es.len() == 0 {
            self
        } else {
            self.entries(dir, es.drop_last()).entry(dir, es.last())
        }
    }
}

/// A file search: the caller reads the directories that `next_dir` names.
pub struct FileWalk {
    stack: Vec<String>,
    visited: usize,
    paths: Vec<String>,
}

impl FileWalk {
    /// The state of the search.
    pub closed spec fn state(self) -> WalkState {
        WalkState {
            stack: text::views(self.stack@),
            visited: self.visited as int,
            paths: text::views(self.paths@),
        }
    }

    /// The count never passes the limit.
    pub open spec fn wf(self) -> bool {
        0 <= self.state().visited <= MAX_VISITED
    }

    /// A search that begins with the workspace.
    pub fn new() -> (r: FileWalk)
        ensures
            r.wf(),
            r.state() == WalkState::start(),
    {
        let mut stack: Vec<String> = Vec::new();
        stack.push(String::new());
        let r = FileWalk { stack, visited: 0, paths: Vec::new() };
        assert(r.state().stack =~= seq![Seq::<char>::empty()]);
        assert(r.state().paths =~= Seq::<Seq<char>>::empty());
        r
    }

    /// The directory to read next, as seen from the workspace; none where the search ends.
    pub fn next_dir(&mut self) -> (r: Option<String>)
        requires
            old(self).wf(),
        ensures
            final(self).wf(),
            text::opt_view(r) == (if old(self).state().resting() {
                None
            } else {
                Some(old(self).state().stack.last())
            }),
            r is Some ==> final(self).state() == (WalkState {
                stack: old(self).state().stack.drop_last(),
                ..old(self).state()
            }),
            r is None ==> final(self).state() == old(self).state(),
    {
        if self.visited >= MAX_VISITED || self.stack.len() == 0 {
            return None;
        }
        let ghost s = self.state();
        let d = self.stack.pop();
        proof {
            assert(text::views(self.stack@) =~= s.stack.drop_last());
            assert(self.state() =~= (WalkState { stack: s.stack.drop_last(), ..s }));
        }
        d
    }

    /// Takes the entries of a directory in.
    pub fn take_entries(&mut self, dir: &str, entries: &Vec<Entry>)
        requires
            old(self).wf(),
        ensures
            final(self).wf(),
            final(self).state() == old(self).state().entries(
                dir@,
                tools::fs::entry_views(entries@),
            ),
    {
        let ghost s = self.state();
        let ghost all = tools::fs::entry_views(entries@);
        let mut i: usize = 0;
        assert(all.take(0) =~= Seq::<EntryView>::empty());
        while i < entries.len()
            invariant
                i <= entries.len(),
                self.wf(),
                all == tools::fs::entry_views(entries@),
                self.state() == s.entries(dir@, all.take(i as int)),
            decreases entries.len() - i,
        {
            let e = &entries[i];
            let ghost b = self.state();
            proof {
                assert(all.take(i + 1).drop_last() =~= all.take(i as int));
                assert(all.take(i + 1).last() == e@);
            }
            if self.visited < MAX_VISITED {
                self.visited += 1;
                if self.visited < MAX_VISITED {
                    let p = if dir.is_empty() {
                        e.name.clone()
                    } else {
                        text::concat3(dir, "/", e.name.as_str())
                    };
                    if e.is_dir {
                        if !is_ignored(e.name.as_str()) {
                            proof {
                                text::lemma_views_push(self.stack@, p);
                            }
                            self.stack.push(p);
                        }
                    } else {
                        proof {
                            text::lemma_views_push(self.paths@, p);
                        }
                        self.paths.push(p);
                    }
                }
            }
            assert(self.state() =~= b.entry(dir@, e@));
            i += 1;
        }
        assert(all.take(entries.len() as int) =~= all);
    }

    /// The files found that a query matches, the best ones first.
    pub fn finish(self, query: &str) -> (r: Vec<String>)
        ensures
            text::views(r@) == ranked(self.state().paths, query@),
    {
        rank_files(self.paths, query)
    }
}

/// The search after `n` directories were read, or fewer where it ended before.
pub open spec fn rounds(fs: spec_fn(Seq<char>) -> Seq<EntryView>, n: nat) -> WalkState
    decreases n,
{
    if n == 0 {
        WalkState::start()
    } else {
        rounds(fs, (n - 1) as nat).round(fs)
    }
}

/// Whether a directory lies `k` levels below the workspace, none on the way left out.
pub open spec fn dir_at(
    fs: spec_fn(Seq<char>) -> Seq<EntryView>,
    dir: Seq<char>,
    k: nat,
) -> bool
    decreases k,
{
    if k == 0 {
        dir.len() == 0
    } else {
        exists|up: Seq<char>, e: EntryView|
            {
                &&& #[trigger] fs(up).contains(e)
                &&& dir_at(fs, up, (k - 1) as nat)
                &&& e.is_dir
                &&& !ignored(e.name)
                &&& dir == below(up, e.name)
            }
    }
}

/// Whether a directory is the workspace, or lies below it with none on the way left out.
pub open spec fn dir_in_tree(fs: spec_fn(Seq<char>) -> Seq<EntryView>, dir: Seq<char>) -> bool {
    exists|k: nat| dir_at(fs, dir, k)
}

/// Whether a path is that of a file in such a directory.
pub open spec fn file_in_tree(fs: spec_fn(Seq<char>) -> Seq<EntryView>, p: Seq<char>) -> bool {
    exists|dir: Seq<char>, e: EntryView|
        {
            &&& #[trigger] fs(dir).contains(e)
            &&& dir_in_tree(fs, dir)
            &&& !e.is_dir
            &&& p == below(dir, e.name)
        }
}

/// The directories that were read in `n` rounds.
spec fn dirs_read(fs: spec_fn(Seq<char>) -> Seq<EntryView>, n: nat) -> Set<Seq<char>>
    decreases n,
{
    if n == 0 {
        Set::empty()
    } else {
        let before = dirs_read(fs, (n - 1) as nat);
        let s = rounds(fs, (n - 1) as nat);
        if s.resting() {
            before
        } else {
            before.insert(s.stack.last())
        }
    }
}

/// Whether an entry was dealt with: a file was found, and a directory was read, is to be read or
/// is left out.
spec fn dealt_with(s: WalkState, read: Set<Seq<char>>, dir: Seq<char>, e: EntryView) -> bool {
    let p = below(dir, e.name);
    if e.is_dir {
        ignored(e.name) || read.contains(p) || s.stack.contains(p)
    } else {
        s.paths.contains(p)
    }
}

proof fn lemma_prefix_contains(a: Seq<Seq<char>>, b: Seq<Seq<char>>)
    requires
        a.is_prefix_of(b),
    ensures
        forall|p: Seq<char>| a.contains(p) ==> b.contains(p),
{
    assert forall|p: Seq<char>| a.contains(p) implies b.contains(p) by {
        let i = choose|i: int| 0 <= i < a.len() && a[i] == p;
        assert(b[i] == p);
    }
}

proof fn lemma_entries(
    fs: spec_fn(Seq<char>) -> Seq<EntryView>,
    s: WalkState,
    read: Set<Seq<char>>,
    dir: Seq<char>,
    es: Seq<EntryView>,
)
    requires
        dir_in_tree(fs, dir),
        forall|e: EntryView| #[trigger] es.contains(e) ==> fs(dir).contains(e),
        forall|d: Seq<char>| #[trigger] s.stack.contains(d) ==> dir_in_tree(fs, d),
        forall|p: Seq<char>| #[trigger] s.paths.contains(p) ==> file_in_tree(fs, p),
        s.visited <= MAX_VISITED,
    ensures
        ({
            let t = s.entries(dir, es);
            &&& s.visited <= t.visited <= MAX_VISITED
            &&& t.stack.len() + MAX_VISITED - t.visited <= s.stack.len() + MAX_VISITED - s.visited
            &&& s.stack.is_prefix_of(t.stack)
            &&& s.paths.is_prefix_of(t.paths)
            &&& forall|d: Seq<char>| #[trigger] t.stack.contains(d) ==> dir_in_tree(fs, d)
            &&& forall|p: Seq<char>| #[trigger] t.paths.contains(p) ==> file_in_tree(fs, p)
            &&& t.visited < MAX_VISITED ==> forall|e: EntryView| #[trigger]
                es.contains(e) ==> dealt_with(t, read, dir, e)
        }),
    decreases es.len(),
{
    if es.len() > 0 {
        let head = es.drop_last();
        let e = es.last();
        assert(es[es.len() - 1] == e);
        assert(es.contains(e));
        assert forall|x: EntryView| #[trigger] head.contains(x) implies fs(dir).contains(x) by {
            let i = choose|i: int| 0 <= i < head.len() && head[i] == x;
            assert(es[i] == x);
            assert(es.contains(x));
        }
        lemma_entries(fs, s, read, dir, head);
        let b = s.entries(dir, head);
        let t = b.entry(dir, e);
        let p = below(dir, e.name);
        let k = choose|k: nat| dir_at(fs, dir, k);
        if e.is_dir && !ignored(e.name) {
            assert(dir_at(fs, p, k + 1)) by {
                assert(fs(dir).contains(e) && dir_at(fs, dir, (k + 1 - 1) as nat));
            }
        }
        if !e.is_dir {
            assert(file_in_tree(fs, p)) by {
                assert(fs(dir).contains(e));
            }
        }
        lemma_prefix_contains(b.stack, t.stack);
        lemma_prefix_contains(b.paths, t.paths);
        assert forall|d: Seq<char>| #[trigger] t.stack.contains(d) implies dir_in_tree(fs, d) by {
            let i = choose|i: int| 0 <= i < t.stack.len() && t.stack[i] == d;
            if i < b.stack.len() {
                assert(b.stack[i] == d);
                assert(b.stack.contains(d));
            }
        }
        assert forall|q: Seq<char>| #[trigger] t.paths.contains(q) implies file_in_tree(fs, q) by {
            let i = choose|i: int| 0 <= i < t.paths.len() && t.paths[i] == q;
            if i < b.paths.len() {
                assert(b.paths[i] == q);
                assert(b.paths.contains(q));
            }
        }
        if t.visited < MAX_VISITED {
            assert forall|x: EntryView| #[trigger] es.contains(x) implies dealt_with(
                t,
                read,
                dir,
                x,
            ) by {
                let i = choose|i: int| 0 <= i < es.len() && es[i] == x;
                if i < head.len() {
                    assert(head[i] == x);
                    assert(head.contains(x));
                    assert(dealt_with(b, read, dir, x));
                } else if x.is_dir {
                    assert(!ignored(x.name) ==> t.stack[b.stack.len() as int] == p);
                } else {
                    assert(t.paths[b.paths.len() as int] == p);
                }
            }
        }
    }
}

proof fn lemma_rounds(fs: spec_fn(Seq<char>) -> Seq<EntryView>, n: nat)
    ensures
        ({
            let s = rounds(fs, n);
            let read = dirs_read(fs, n);
            &&& 0 <= s.visited <= MAX_VISITED
            &&& !s.resting() ==> s.stack.len() + MAX_VISITED - s.visited + n <= MAX_VISITED + 1
            &&& forall|d: Seq<char>| #[trigger] s.stack.contains(d) ==> dir_in_tree(fs, d)
            &&& forall|p: Seq<char>| #[trigger] s.paths.contains(p) ==> file_in_tree(fs, p)
            &&& s.visited < MAX_VISITED ==> {
                &&& read.contains(Seq::empty()) || s.stack.contains(Seq::empty())
                &&& forall|d: Seq<char>, e: EntryView|
                    read.contains(d) && #[trigger] fs(d).contains(e) ==> dealt_with(s, read, d, e)
            }
        }),
    decreases n,
{
    let s = rounds(fs, n);
    let read = dirs_read(fs, n);
    let root = Seq::<char>::empty();
    if n == 0 {
        assert(dir_at(fs, root, 0));
        assert(s.stack[0] == root);
        assert forall|d: Seq<char>| #[trigger] s.stack.contains(d) implies dir_in_tree(fs, d) by {
            assert(d == root);
        }
    } else {
        lemma_rounds(fs, (n - 1) as nat);
        let b = rounds(fs, (n - 1) as nat);
        let done = dirs_read(fs, (n - 1) as nat);
        if !b.resting() {
            let dir = b.stack.last();
            let c = WalkState { stack: b.stack.drop_last(), ..b };
            assert(b.stack[b.stack.len() - 1] == dir);
            assert(b.stack.contains(dir));
            assert forall|d: Seq<char>| #[trigger] c.stack.contains(d) implies dir_in_tree(
                fs,
                d,
            ) by {
                let i = choose|i: int| 0 <= i < c.stack.len() && c.stack[i] == d;
                assert(b.stack[i] == d);
                assert(b.stack.contains(d));
            }
            lemma_entries(fs, c, read, dir, fs(dir));
            lemma_prefix_contains(c.stack, s.stack);
            lemma_prefix_contains(c.paths, s.paths);
            if s.visited < MAX_VISITED {
                assert forall|d: Seq<char>| b.stack.contains(d) implies read.contains(d)
                    || #[trigger] s.stack.contains(d) by {
                    let i = choose|i: int| 0 <= i < b.stack.len() && b.stack[i] == d;
                    if i < c.stack.len() {
                        assert(c.stack[i] == d);
                        assert(c.stack.contains(d));
                    }
                }
                assert forall|d: Seq<char>, e: EntryView|
                    read.contains(d) && #[trigger] fs(d).contains(e) implies dealt_with(
                    s,
                    read,
                    d,
                    e,
                ) by {
                    if d != dir {
                        assert(done.contains(d));
                        assert(dealt_with(b, done, d, e));
                        let p = below(d, e.name);
                        if e.is_dir && b.stack.contains(p) {
                            assert(read.contains(p) || s.stack.contains(p));
                        }
                    }
                }
            }
        }
    }
}

proof fn lemma_reads_the_tree(
    fs: spec_fn(Seq<char>) -> Seq<EntryView>,
    n: nat,
    dir: Seq<char>,
    k: nat,
)
    requires
        rounds(fs, n).stack.len() == 0,
        rounds(fs, n).visited < MAX_VISITED,
        dir_at(fs, dir, k),
    ensures
        dirs_read(fs, n).contains(dir),
    decreases k,
{
    lemma_rounds(fs, n);
    if k == 0 {
        assert(dir =~= Seq::<char>::empty());
    } else {
        let (up, e) = choose|up: Seq<char>, e: EntryView|
            {
                &&& #[trigger] fs(up).contains(e)
                &&& dir_at(fs, up, (k - 1) as nat)
                &&& e.is_dir
                &&& !ignored(e.name)
                &&& dir == below(up, e.name)
            };
        lemma_reads_the_tree(fs, n, up, (k - 1) as nat);
        assert(dealt_with(rounds(fs, n), dirs_read(fs, n), up, e));
    }
}

/// A search finds only files that no directory left out lies above; and one that ended before it
/// had looked at as many entries as it may has found them all.
pub proof fn complete_search_finds_every_file(
    fs: spec_fn(Seq<char>) -> Seq<EntryView>,
    n: nat,
    p: Seq<char>,
)
    ensures
        rounds(fs, n).paths.contains(p) ==> file_in_tree(fs, p),
        rounds(fs, n).resting() && rounds(fs, n).visited < MAX_VISITED && file_in_tree(fs, p)
            ==> rounds(fs, n).paths.contains(p),
{
    let s = rounds(fs, n);
    lemma_rounds(fs, n);
    if s.resting() && s.visited < MAX_VISITED && file_in_tree(fs, p) {
        let (dir, e) = choose|dir: Seq<char>, e: EntryView|
            {
                &&& #[trigger] fs(dir).contains(e)
                &&& dir_in_tree(fs, dir)
                &&& !e.is_dir
                &&& p == below(dir, e.name)
            };
        let k = choose|k: nat| dir_at(fs, dir, k);
        lemma_reads_the_tree(fs, n, dir, k);
        assert(dealt_with(s, dirs_read(fs, n), dir, e));
    }
}

/// A search ends, whatever the directories hold: it reads at most one directory more than it may
/// look at entries.
pub proof fn search_ends(fs: spec_fn(Seq<char>) -> Seq<EntryView>, n: nat)
    requires
        n > MAX_VISITED,
    ensures
        rounds(fs, n).resting(),
{
    lemma_rounds(fs, n);
}

/// The text that `str::to_lowercase` gives.
pub uninterp spec fn lowercase(s: Seq<char>) -> Seq<char>;

/// `str::to_lowercase` gives the lowercase equivalent of a text.
#[verifier::external_body]
fn to_lower(s: &str) -> (r: String)
    ensures
        r@ == lowercase(s@),
{
    s.to_lowercase()
}

/// How well a path matches a query: best (0) where the path or its last name begins with it, next
/// (1) where the path contains it; `lower` and `q` are in lower case.
pub open spec fn rank(lower: Seq<char>, q: Seq<char>) -> Option<int> {
    if q.len() == 0 {
        Some(1)
    } else if q.is_prefix_of(lower) || q.is_prefix_of(text::split_on(lower, '/').last()) {
        Some(0)
    } else if text::contains_text(lower, q) {
        Some(1)
    } else {
        None
    }
}

/// The paths of a rank, in their order.
pub open spec fn of_rank(paths: Seq<Seq<char>>, q: Seq<char>, k: int) -> Seq<Seq<char>>
    decreases paths.len(),
{
    if paths.len() == 0 {
        Seq::empty()
    } else if rank(lowercase(paths.last()), q) == Some(k) {
        of_rank(paths.drop_last(), q, k).push(paths.last())
    } else {
        of_rank(paths.drop_last(), q, k)
    }
}

/// The paths that match a query, the best ones first and each rank in order, as many as a search
/// returns.
pub open spec fn ranked(paths: Seq<Seq<char>>, query: Seq<char>) -> Seq<Seq<char>> {
    let q = lowercase(query);
    text::capped(
        text::sorted_texts(of_rank(paths, q, 0)) + text::sorted_texts(of_rank(paths, q, 1)),
        MAX_RESULTS as int,
    )
}

/// How well a path matches a query, both in lower case.
pub fn rank_of(lower: &str, q: &str) -> (r: Option<usize>)
    ensures
        match r {
            Some(k) => rank(lower@, q@) == Some(k as int),
            None => rank(lower@, q@) is None,
        },
{
    if q.is_empty() {
        return Some(1);
    }
    if text::starts_with(lower, q) {
        return Some(0);
    }
    let parts = text::split(lower, '/');
    proof {
        text::lemma_split_on_len(lower@, '/');
    }
    let last = &parts[parts.len() - 1];
    assert(text::views(parts@).last() == last@);
    if text::starts_with(last.as_str(), q) {
        return Some(0);
    }
    if text::contains(lower, q) {
        return Some(1);
    }
    None
}

/// The paths that match a query, the best ones first.
pub fn rank_files(paths: Vec<String>, query: &str) -> (r: Vec<String>)
    ensures
        text::views(r@) == ranked(text::views(paths@), query@),
{
    let q = to_lower(query);
    let ghost all = paths@;
    let ghost vs = text::views(all);
    let mut best: Vec<String> = Vec::new();
    let mut next: Vec<String> = Vec::new();
    proof {
        assert(text::views(best@) =~= of_rank(vs.take(0), q@, 0));
        assert(text::views(next@) =~= of_rank(vs.take(0), q@, 1));
    }
    for p in it: paths.into_iter()
        invariant
            it.seq() == all,
            vs == text::views(all),
            text::views(best@) == of_rank(vs.take(it.index()), q@, 0),
            text::views(next@) == of_rank(vs.take(it.index()), q@, 1),
    {
        proof {
            assert(vs.take(it.index() + 1).drop_last() =~= vs.take(it.index()));
            assert(vs.take(it.index() + 1).last() == p@);
            text::lemma_views_push(best@, p);
            text::lemma_views_push(next@, p);
        }
        let lower = to_lower(p.as_str());
        match rank_of(lower.as_str(), q.as_str()) {
            Some(k) => {
                if k == 0 {
                    best.push(p);
                } else {
                    next.push(p);
                }
            },
            None => {},
        }
    }
    assert(vs.take(all.len() as int) =~= vs);
    let mut out = text::sort_strings(best);
    let mut more = text::sort_strings(next);
    let ghost a = text::views(out@);
    let ghost b = text::views(more@);
    out.append(&mut more);
    assert(text::views(out@) =~= a + b);
    if out.len() > MAX_RESULTS {
        out.truncate(MAX_RESULTS);
        assert(text::views(out@) =~= (a + b).take(MAX_RESULTS as int));
    }
    out
}

proof fn lemma_of_rank(paths: Seq<Seq<char>>, q: Seq<char>, k: int, p: Seq<char>)
    requires
        of_rank(paths, q, k).contains(p),
    ensures
        paths.contains(p),
        rank(lowercase(p), q) == Some(k),
    decreases paths.len(),
{
    let r = of_rank(paths, q, k);
    let i = choose|i: int| 0 <= i < r.len() && r[i] == p;
    let t = paths.drop_last();
    if rank(lowercase(paths.last()), q) == Some(k) && i == r.len() - 1 {
        assert(paths[paths.len() - 1] == p);
    } else {
        assert(of_rank(t, q, k)[i] == p);
        lemma_of_rank(t, q, k, p);
        let j = choose|j: int| 0 <= j < t.len() && t[j] == p;
        assert(paths[j] == p);
    }
}

proof fn lemma_sorted_contains(s: Seq<Seq<char>>, p: Seq<char>)
    requires
        text::sorted_texts(s).contains(p),
    ensures
        s.contains(p),
{
    broadcast use vstd::seq_lib::group_to_multiset_ensures;

    text::sorting_orders_and_keeps(s, |t: Seq<char>| t);
    assert(text::sorted_texts(s).to_multiset().count(p) > 0);
    assert(s.to_multiset().count(p) > 0);
}

proof fn lemma_ranked(paths: Seq<Seq<char>>, q: Seq<char>, k: int, p: Seq<char>)
    requires
        paths.contains(p),
        rank(lowercase(p), q) == Some(k),
    ensures
        of_rank(paths, q, k).contains(p),
    decreases paths.len(),
{
    let r = of_rank(paths, q, k);
    let t = paths.drop_last();
    let i = choose|i: int| 0 <= i < paths.len() && paths[i] == p;
    if i == paths.len() - 1 {
        assert(r[r.len() - 1] == p);
    } else {
        assert(t[i] == p);
        lemma_ranked(t, q, k, p);
        let u = of_rank(t, q, k);
        let j = choose|j: int| 0 <= j < u.len() && u[j] == p;
        assert(r[j] == p);
    }
}

proof fn lemma_sorted_keeps(s: Seq<Seq<char>>, p: Seq<char>)
    requires
        s.contains(p),
    ensures
        text::sorted_texts(s).contains(p),
{
    broadcast use vstd::seq_lib::group_to_multiset_ensures;

    text::sorting_orders_and_keeps(s, |t: Seq<char>| t);
    assert(s.to_multiset().count(p) > 0);
    assert(text::sorted_texts(s).to_multiset().count(p) > 0);
}

/// Where no more files match than a search may offer, it offers every file found that matches.
pub proof fn every_match_is_offered(paths: Seq<Seq<char>>, query: Seq<char>, p: Seq<char>)
    requires
        paths.contains(p),
        rank(lowercase(p), lowercase(query)) is Some,
        of_rank(paths, lowercase(query), 0).len() + of_rank(paths, lowercase(query), 1).len()
            <= MAX_RESULTS,
    ensures
        ranked(paths, query).contains(p),
{
    let q = lowercase(query);
    let k = rank(lowercase(p), q)->0;
    let best = text::sorted_texts(of_rank(paths, q, 0));
    let next = text::sorted_texts(of_rank(paths, q, 1));
    text::sorting_orders_and_keeps(of_rank(paths, q, 0), |t: Seq<char>| t);
    text::sorting_orders_and_keeps(of_rank(paths, q, 1), |t: Seq<char>| t);
    lemma_ranked(paths, q, k, p);
    lemma_sorted_keeps(of_rank(paths, q, k), p);
    assert(ranked(paths, query) == best + next);
    if k == 0 {
        let i = choose|i: int| 0 <= i < best.len() && best[i] == p;
        assert((best + next)[i] == p);
    } else {
        let i = choose|i: int| 0 <= i < next.len() && next[i] == p;
        assert((best + next)[best.len() + i] == p);
    }
}

/// A search offers no more files than it may, and only files that were found and match the query.
pub proof fn offered_files_match(paths: Seq<Seq<char>>, query: Seq<char>)
    ensures
        ranked(paths, query).len() <= MAX_RESULTS,
        forall|i: int|
            0 <= i < ranked(paths, query).len() ==> paths.contains(
                #[trigger] ranked(paths, query)[i],
            ) && rank(lowercase(ranked(paths, query)[i]), lowercase(query)) is Some,
{
    let q = lowercase(query);
    let best = text::sorted_texts(of_rank(paths, q, 0));
    let next = text::sorted_texts(of_rank(paths, q, 1));
    assert forall|i: int| 0 <= i < ranked(paths, query).len() implies paths.contains(
        #[trigger] ranked(paths, query)[i],
    ) && rank(lowercase(ranked(paths, query)[i]), q) is Some by {
        let p = ranked(paths, query)[i];
        if i < best.len() {
            assert(best[i] == p);
            lemma_sorted_contains(of_rank(paths, q, 0), p);
            lemma_of_rank(paths, q, 0, p);
        } else {
            assert(next[i - best.len()] == p);
            lemma_sorted_contains(of_rank(paths, q, 1), p);
            lemma_of_rank(paths, q, 1, p);
        }
    }
}

/// Everything the UI needs at boot.
pub struct InitialState {
    pub config: AppConfig,
    pub workspaces: Vec<WorkspaceRow>,
    pub providers: Vec<ProviderConfig>,
    /// Root of per-conversation Workshop dirs (for workshop-aware tool labels).
    pub workshops_dir: String,
}

/// The names of models are those that entries carry, in order: an entry with a name gives it, one
/// without gives nothing, and two lists give the names of the one and then those of the other.
pub proof fn every_named_model_is_listed(a: Seq<JsonView>, b: Seq<JsonView>, m: JsonView)
    ensures
        model_names(Seq::empty()).len() == 0,
        model_names(a + b) == model_names(a) + model_names(b),
        model_names(seq![m]) == (match m.str_field("name"@) {
            Some(n) => seq![n],
            None => Seq::<Seq<char>>::empty(),
        }),
    decreases b.len(),
{
    reveal_with_fuel(model_names, 2);
    let one = seq![m];
    assert(one.drop_last() =~= Seq::<JsonView>::empty());
    assert(one.last() == m);
    assert(model_names(one) =~= (match m.str_field("name"@) {
        Some(n) => seq![n],
        None => Seq::<Seq<char>>::empty(),
    }));
    if b.len() == 0 {
        assert(a + b =~= a);
        assert(model_names(a) + model_names(b) =~= model_names(a));
    } else {
        every_named_model_is_listed(a, b.drop_last(), m);
        assert((a + b).drop_last() =~= a + b.drop_last());
        assert((a + b).last() == b.last());
        assert(model_names(a + b) =~= model_names(a) + model_names(b));
    }
}

/// The preview of a write shows what the tool would write: the content, behind the old text where
/// the call appends, and in its place elsewhere.
pub proof fn write_preview_shows_the_write(
    old_text: Seq<char>,
    exists_: bool,
    path: Seq<char>,
    content: Seq<char>,
    args: JsonView,
)
    requires
        args.str_field("content"@) == Some(content),
    ensures
        written(old_text, args) is Ok,
        match tools::fs::write_mode(args.str_field("mode"@), exists_, path) {
            Ok(tools::fs::WriteMode::Append) => written(old_text, args)->Ok_0 == old_text + content,
            Ok(tools::fs::WriteMode::Replace) => written(old_text, args)->Ok_0 == content,
            Err(_) => true,
        },
        changed("write_file"@, old_text, exists_, path, args) == written(old_text, args),
        changed("edit_file"@, old_text, exists_, path, args) == edited(
            old_text,
            exists_,
            path,
            args,
        ),
{
    reveal_strlit("create");
    reveal_strlit("append");
    reveal_strlit("overwrite");
    reveal_strlit("write_file");
    reveal_strlit("edit_file");
    assert("create"@[0] == 'c' && "append"@[0] == 'a' && "overwrite"@[0] == 'o');
    assert("write_file"@[0] == 'w' && "edit_file"@[0] == 'e');
}

/// What a call replaces is expected as often as it says, and once where it says nothing; a call
/// without the string, on a file that does not exist, or without content is refused.
pub proof fn previews_refuse_what_is_missing(
    old_text: Seq<char>,
    path: Seq<char>,
    find: Seq<char>,
    args: JsonView,
)
    ensures
        args.field("expected_replacements"@) is None ==> expected_in(args) == 1,
        args.at("expected_replacements"@).as_u64() matches Some(n) ==> expected_in(args) == n,
        args.str_field("content"@) is None ==> written(old_text, args) == Err::<
            Seq<char>,
            ErrorView,
        >(ErrorView::Tool("missing content"@)),
        args.str_field("old_string"@) is None ==> edited(old_text, true, path, args) == Err::<
            Seq<char>,
            ErrorView,
        >(ErrorView::Tool("missing old_string"@)),
        args.str_field("old_string"@) == Some(find) && find.len() > 0 ==> edited(
            old_text,
            false,
            path,
            args,
        ) == Err::<Seq<char>, ErrorView>(ErrorView::Tool("file does not exist: "@ + path)),
{
}

/// A preview is offered for writes and edits of files of the workspace, and is of the file that
/// the call names, where the tools find it.
pub proof fn preview_is_of_the_named_file(root: Seq<char>, name: Seq<char>, args: JsonView)
    ensures
        target_of(root, name, args) is Some <==> (name == "write_file"@ || name == "edit_file"@)
            && (args.str_field("path"@) matches Some(p) && tools::resolved(root, p) is Ok),
        target_of(root, name, args) matches Some(t) ==> {
            &&& args.str_field("path"@) == Some(t.path)
            &&& tools::resolved(root, t.path) == Ok::<Seq<char>, ErrorView>(t.abs)
            &&& t.args == args
        },
{
}

/// A checkpoint is restored where the tools find its file, with all its bytes, or by removing it
/// where it did not exist; a path outside the workspace is refused.
pub proof fn restoring_puts_the_checkpoint_back(
    root: Seq<char>,
    path: Seq<char>,
    content: Option<Seq<u8>>,
)
    ensures
        restored(root, path, content) is Ok <==> tools::resolved(root, path) is Ok,
        restored(root, path, content) matches Ok((abs, c)) ==> tools::resolved(root, path) == Ok::<
            Seq<char>,
            ErrorView,
        >(abs) && c == content,
        restored(root, path, content) matches Err(e) ==> tools::resolved(root, path) == Err::<
            Seq<char>,
            ErrorView,
        >(e),
{
}

/// A file search leaves hidden directories out, and those of build output and dependencies, and
/// no others.
pub proof fn directories_left_out(name: Seq<char>)
    ensures
        ignored(name) <==> name == "target"@ || name == "node_modules"@ || (exists|rest: Seq<char>|
            name == #[trigger] (seq!['.'] + rest)),
        MAX_VISITED == 5000,
        MAX_RESULTS == 50,
{
    reveal_strlit(".git");
    reveal_strlit(".idea");
    if name.len() > 0 && name[0] == '.' {
        assert(name =~= seq!['.'] + name.skip(1));
    }
    assert(".git"@[0] == '.' && ".idea"@[0] == '.');
}

/// How well a path matches: best where it, or its last name, begins with the query, next where it
/// contains it; everything matches an empty query.
pub proof fn best_matches_begin_with_the_query(lower: Seq<char>, q: Seq<char>)
    ensures
        q.len() == 0 ==> rank(lower, q) == Some(1int),
        q.len() > 0 ==> (rank(lower, q) == Some(0int) <==> q.is_prefix_of(lower) || (exists|
            dir: Seq<char>,
            last: Seq<char>,
        |
            lower == #[trigger] (dir + seq!['/'] + last) && !last.contains('/') && q.is_prefix_of(
                last,
            ))),
        rank(lower, q) is None <==> !text::contains_text(lower, q),
        rank(lower, q) matches Some(k) ==> k == 0 || k == 1,
{
    text::pieces_make_the_text(lower, '/');
    let pieces = text::split_on(lower, '/');
    let last = pieces.last();
    assert(!pieces[pieces.len() - 1].contains('/'));
    text::containing_is_standing_between(lower, q);
    if q.is_prefix_of(lower) {
        assert(lower =~= Seq::<char>::empty() + q + lower.skip(q.len() as int));
    }
    if pieces.len() > 1 {
        let dir = text::joined(pieces.drop_last(), seq!['/']);
        assert(lower == dir + seq!['/'] + last);
        if q.is_prefix_of(last) {
            assert(lower =~= (dir + seq!['/']) + q + last.skip(q.len() as int));
        }
    } else {
        assert(last == lower);
    }
    assert forall|dir: Seq<char>, l: Seq<char>|
        lower == #[trigger] (dir + seq!['/'] + l) && !l.contains('/') implies l == last by {
        text::pieces_come_one_after_the_other(dir, l, '/');
        text::pieces_come_one_after_the_other(l, l, '/');
        assert((text::split_on(dir, '/') + seq![l]).last() == l);
    }
    if q.len() == 0 {
        assert(lower =~= lower + q + Seq::<char>::empty());
    }
}

/// What is offered is in order: the best matches before the others, and each kind by name.
pub proof fn best_matches_come_first(paths: Seq<Seq<char>>, query: Seq<char>, i: int, j: int)
    requires
        0 <= i < j < ranked(paths, query).len(),
    ensures
        ({
            let r = ranked(paths, query);
            let q = lowercase(query);
            let a = rank(lowercase(r[i]), q);
            let b = rank(lowercase(r[j]), q);
            &&& a is Some && b is Some && a->0 <= b->0
            &&& a == b ==> !text::before(r[j], r[i])
        }),
{
    let q = lowercase(query);
    let key = |t: Seq<char>| t;
    let best = text::sorted_texts(of_rank(paths, q, 0));
    let next = text::sorted_texts(of_rank(paths, q, 1));
    text::sorting_orders_and_keeps(of_rank(paths, q, 0), key);
    text::sorting_orders_and_keeps(of_rank(paths, q, 1), key);
    let r = ranked(paths, query);
    lemma_rank_at(paths, query, i);
    lemma_rank_at(paths, query, j);
    if j < best.len() {
        assert(r[i] == best[i] && r[j] == best[j]);
        assert(!text::before(key(best[j]), key(best[i])));
    } else if i >= best.len() {
        let x = i - best.len();
        let y = j - best.len();
        assert(r[i] == next[x] && r[j] == next[y]);
        assert(!text::before(key(next[y]), key(next[x])));
    }
}

proof fn lemma_rank_at(paths: Seq<Seq<char>>, query: Seq<char>, i: int)
    requires
        0 <= i < ranked(paths, query).len(),
    ensures
        rank(lowercase(ranked(paths, query)[i]), lowercase(query)) == Some(
            if i < text::sorted_texts(of_rank(paths, lowercase(query), 0)).len() {
                0int
            } else {
                1
            },
        ),
{
    let q = lowercase(query);
    let best = text::sorted_texts(of_rank(paths, q, 0));
    let next = text::sorted_texts(of_rank(paths, q, 1));
    let p = ranked(paths, query)[i];
    if i < best.len() {
        assert(best[i] == p);
        lemma_sorted_contains(of_rank(paths, q, 0), p);
        lemma_of_rank(paths, q, 0, p);
    } else {
        assert(next[i - best.len()] == p);
        lemma_sorted_contains(of_rank(paths, q, 1), p);
        lemma_of_rank(paths, q, 1, p);
    }
}

/// The path of an entry, as seen from the workspace: its name, behind the directory and a slash
/// where it is not in the workspace itself.
pub proof fn entries_lie_below_their_directory(dir: Seq<char>, name: Seq<char>)
    ensures
        below(Seq::empty(), name) == name,
        dir.len() > 0 ==> below(dir, name) == dir + seq!['/'] + name,
{
    reveal_strlit("/");
    assert("/"@ =~= seq!['/']);
}

/// A search looks at five thousand entries and no more: until then every file is found and every
/// directory that is not left out is to be visited, each under its path; the last entry that it
/// looks at only counts. It rests where nothing is to be visited, or the entries are used up.
pub proof fn search_looks_at_every_entry_up_to_the_limit(
    s: WalkState,
    dir: Seq<char>,
    es: Seq<EntryView>,
    e: EntryView,
)
    ensures
        s.resting() <==> s.stack.len() == 0 || s.visited >= 5000,
        s.visited >= 5000 ==> s.entry(dir, e) == s,
        s.visited == 4999 ==> s.entry(dir, e) == (WalkState { visited: 5000, ..s }),
        s.visited < 4999 && !e.is_dir ==> s.entry(dir, e) == (WalkState {
            visited: s.visited + 1,
            paths: s.paths.push(below(dir, e.name)),
            ..s
        }),
        s.visited < 4999 && e.is_dir && !ignored(e.name) ==> s.entry(dir, e) == (WalkState {
            visited: s.visited + 1,
            stack: s.stack.push(below(dir, e.name)),
            ..s
        }),
        s.visited < 4999 && e.is_dir && ignored(e.name) ==> s.entry(dir, e) == (WalkState {
            visited: s.visited + 1,
            ..s
        }),
        s.entries(dir, Seq::empty()) == s,
        s.entries(dir, es.push(e)) == s.entries(dir, es).entry(dir, e),
        WalkState::start() == (WalkState {
            stack: seq![Seq::<char>::empty()],
            visited: 0,
            paths: Seq::empty(),
        }),
{
    assert(es.push(e).drop_last() =~= es);
}

/// Of the paths of a rank each stands once for each time that it is among the paths, in their
/// order.
pub proof fn ranks_keep_the_order(
    a: Seq<Seq<char>>,
    b: Seq<Seq<char>>,
    p: Seq<char>,
    q: Seq<char>,
    k: int,
)
    ensures
        of_rank(a + b, q, k) == of_rank(a, q, k) + of_rank(b, q, k),
        of_rank(Seq::empty(), q, k).len() == 0,
        rank(lowercase(p), q) == Some(k) ==> of_rank(seq![p], q, k) == seq![p],
        rank(lowercase(p), q) != Some(k) ==> of_rank(seq![p], q, k).len() == 0,
    decreases b.len(),
{
    reveal_with_fuel(of_rank, 2);
    assert(seq![p].drop_last() =~= Seq::<Seq<char>>::empty());
    assert(seq![p].last() == p);
    if b.len() == 0 {
        assert(a + b =~= a);
        assert(of_rank(a, q, k) + of_rank(b, q, k) =~= of_rank(a, q, k));
    } else {
        ranks_keep_the_order(a, b.drop_last(), p, q, k);
        assert((a + b).drop_last() =~= a + b.drop_last());
        assert((a + b).last() == b.last());
        assert(of_rank(a + b, q, k) =~= of_rank(a, q, k) + of_rank(b, q, k));
    }
}

} // verus!
