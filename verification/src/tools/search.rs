//! Searching files by content and by name: all but the walking of the disk.
use crate::error::{Error, ErrorView};
use crate::json::{Json, JsonView};
use crate::providers::http;
use crate::tools::schema;
use crate::types::{ToolSpec, ToolSpecView};
use crate::{providers, text, tools};
use vstd::prelude::*;
use vstd::string::*;

verus! {

/// How many matches a search may report.
pub const MAX_MATCHES: usize = 200;

/// The longest output of a search, in bytes.
pub const MAX_OUTPUT: usize = 51200;

/// How many files a search by name may report.
pub const MAX_GLOB_RESULTS: usize = 500;

/// The largest file that is searched.
pub const MAX_FILE_BYTES: u64 = 5242880;

/// How many bytes at the beginning of a file tell whether it is binary.
pub const SNIFF: usize = 8192;

/// A compiled regular expression, opaque.
#[verifier::external_type_specification]
#[verifier::external_body]
pub struct ExRegex(regex::Regex);

/// A compiled file-name pattern, opaque.
#[verifier::external_type_specification]
#[verifier::external_body]
pub struct ExPattern(glob::Pattern);

/// The text that a regular expression was compiled from.
pub uninterp spec fn regex_source(re: regex::Regex) -> Seq<char>;

/// The message with which `regex::Regex::new` refuses a text; none where it accepts it.
pub uninterp spec fn regex_refusal(pattern: Seq<char>) -> Option<Seq<char>>;

/// Whether `regex::Regex::is_match` finds the expression in a text.
pub uninterp spec fn regex_matches(pattern: Seq<char>, t: Seq<char>) -> bool;

/// The text that a file-name pattern was compiled from.
pub uninterp spec fn glob_source(p: glob::Pattern) -> Seq<char>;

/// The message with which `glob::Pattern::new` refuses a text; none where it accepts it.
pub uninterp spec fn glob_refusal(pattern: Seq<char>) -> Option<Seq<char>>;

/// Whether `glob::Pattern::matches` accepts a name.
pub uninterp spec fn glob_matches(pattern: Seq<char>, name: Seq<char>) -> bool;

/// `regex::Regex::new` compiles a text, or tells why it cannot.
#[verifier::external_body]
fn compile_regex(pattern: &str) -> (r: Result<regex::Regex, String>)
    ensures
        match r {
            Ok(re) => regex_refusal(pattern@) is None && regex_source(re) == pattern@,
            Err(m) => regex_refusal(pattern@) == Some(m@),
        },
{
    regex::Regex::new(pattern).map_err(|e| e.to_string())
}

/// `regex::Regex::is_match` tells whether the expression is found in a text.
#[verifier::external_body]
fn regex_is_match(re: &regex::Regex, t: &str) -> (r: bool)
    ensures
        r == regex_matches(regex_source(*re), t@),
{
    re.is_match(t)
}

/// `glob::Pattern::new` compiles a text, or tells why it cannot.
#[verifier::external_body]
fn compile_glob(pattern: &str) -> (r: Result<glob::Pattern, String>)
    ensures
        match r {
            Ok(p) => glob_refusal(pattern@) is None && glob_source(p) == pattern@,
            Err(m) => glob_refusal(pattern@) == Some(m@),
        },
{
    glob::Pattern::new(pattern).map_err(|e| e.to_string())
}

/// `glob::Pattern::matches` tells whether a name has the pattern.
#[verifier::external_body]
fn glob_is_match(p: &glob::Pattern, name: &str) -> (r: bool)
    ensures
        r == glob_matches(glob_source(*p), name@),
{
    p.matches(name)
}

pub struct GrepTool;

pub struct GlobTool;

impl GrepTool {
    /// The tool as a provider is told of it.
    pub open spec fn description() -> ToolSpecView {
        ToolSpecView {
            name: "grep"@,
            description:
                "Regex-search file contents under a workspace path. Output: relpath:line: text."@,
            params_schema: schema::object_view(
                map![
                    "pattern"@ => schema::described_view("string"@, "Rust regex"@),
                    "path"@ => schema::described_view("string"@, "Default \".\""@),
                    "glob"@ => schema::described_view(
                        "string"@,
                        "Filename filter like \"*.rs\""@,
                    ),
                ],
                seq![providers::jstr("pattern"@)],
            ),
        }
    }

    pub fn spec(&self) -> (r: ToolSpec)
        ensures
            r@ == GrepTool::description(),
    {
        let props = Json::object().with("pattern", schema::described("string", "Rust regex")).with(
            "path",
            schema::described("string", "Default \".\""),
        ).with("glob", schema::described("string", "Filename filter like \"*.rs\""));
        ToolSpec {
            name: "grep".to_owned(),
            description:
                "Regex-search file contents under a workspace path. Output: relpath:line: text.".to_owned(),
            params_schema: schema::object(props, Json::array().and(Json::str("pattern"))),
        }
    }

    pub fn needs_approval(&self) -> (r: bool)
        ensures
            !r,
    {
        false
    }
}

impl GlobTool {
    /// The tool as a provider is told of it.
    pub open spec fn description() -> ToolSpecView {
        ToolSpecView {
            name: "glob"@,
            description:
                "Find workspace files matching a glob pattern like \"**/*.rs\". Use this (not read_file) when you know a pattern, not a concrete path."@,
            params_schema: schema::object_view(
                map!["pattern"@ => schema::typed_view("string"@)],
                seq![providers::jstr("pattern"@)],
            ),
        }
    }

    pub fn spec(&self) -> (r: ToolSpec)
        ensures
            r@ == GlobTool::description(),
    {
        let props = Json::object().with("pattern", schema::typed("string"));
        ToolSpec {
            name: "glob".to_owned(),
            description:
                "Find workspace files matching a glob pattern like \"**/*.rs\". Use this (not read_file) when you know a pattern, not a concrete path.".to_owned(),
            params_schema: schema::object(props, Json::array().and(Json::str("pattern"))),
        }
    }

    pub fn needs_approval(&self) -> (r: bool)
        ensures
            !r,
    {
        false
    }
}

/// Directories grep never descends into: hidden dirs (.git, .idea, …) and build/dependency
/// output that swamps results. The walk root itself (depth 0) is never skipped: its name may
/// legitimately start with '.' or be "target".
pub open spec fn skipped(name: Seq<char>, depth: nat, is_dir: bool) -> bool {
    &&& depth > 0
    &&& is_dir
    &&& (name.len() > 0 && name[0] == '.') || name == "target"@ || name == "node_modules"@
}

/// Whether grep does not descend into an entry.
pub fn is_skipped_dir(name: &str, depth: usize, is_dir: bool) -> (r: bool)
    ensures
        r == skipped(name@, depth as nat, is_dir),
{
    if depth == 0 || !is_dir {
        return false;
    }
    let cs = text::chars_of(name);
    (cs.len() > 0 && cs[0] == '.') || text::str_eq(name, "target") || text::str_eq(
        name,
        "node_modules",
    )
}

/// Whether a file is binary: there is a NUL byte among its first bytes.
pub open spec fn binary(bytes: Seq<u8>) -> bool {
    exists|i: int| 0 <= i < bytes.len() && i < SNIFF && #[trigger] bytes[i] == 0
}

/// Binary heuristic: NUL byte in the first 8 KB (same rule git/grep use).
pub fn is_binary(bytes: &[u8]) -> (r: bool)
    ensures
        r == binary(bytes@),
{
    let mut i: usize = 0;
    while i < bytes.len() && i < SNIFF
        invariant
            i <= bytes.len(),
            i <= SNIFF,
            forall|k: int| 0 <= k < i ==> bytes@[k] != 0,
        decreases bytes.len() - i,
    {
        if bytes[i] == 0 {
            return true;
        }
        i += 1;
    }
    false
}

/// A path as seen from a directory above it; as it is, where it does not lie below.
pub open spec fn relative_path(root: Seq<char>, path: Seq<char>) -> Seq<char> {
    if tools::absolute(path) && tools::names_of(root).is_prefix_of(tools::names_of(path)) {
        text::joined(tools::names_of(path).skip(tools::names_of(root).len() as int), "/"@)
    } else {
        path
    }
}

/// The report of a match: where it is, and the line without whitespace at its end.
pub open spec fn match_line(rel: Seq<char>, number: nat, line: Seq<char>) -> Seq<char> {
    rel + ":"@ + text::decimal(number) + ": "@ + text::trimmed_end(line)
}

/// The matches among the lines of a file.
pub open spec fn file_matches(
    pattern: Seq<char>,
    rel: Seq<char>,
    lines: Seq<Seq<char>>,
) -> Seq<Seq<char>>
    decreases lines.len(),
{
    if lines.len() == 0 {
        Seq::empty()
    } else {
        let before = file_matches(pattern, rel, lines.drop_last());
        if regex_matches(pattern, lines.last()) {
            before.push(match_line(rel, lines.len(), lines.last()))
        } else {
            before
        }
    }
}

/// The matches in the bytes of a file; a binary file has none.
pub open spec fn byte_matches(pattern: Seq<char>, rel: Seq<char>, bytes: Seq<u8>) -> Seq<
    Seq<char>,
> {
    if binary(bytes) {
        Seq::empty()
    } else {
        file_matches(pattern, rel, text::all_lines(http::utf8_lossy(bytes)))
    }
}

/// The report of a search.
pub open spec fn grep_report(found: Seq<Seq<char>>) -> Seq<char> {
    if found.len() == 0 {
        "no matches"@
    } else if found.len() >= MAX_MATCHES {
        tools::truncated(
            text::joined(
                found.push("…[capped at "@ + text::decimal(MAX_MATCHES as nat) + " matches]"@),
                "\n"@,
            ),
            MAX_OUTPUT as int,
        )
    } else {
        tools::truncated(text::joined(found, "\n"@), MAX_OUTPUT as int)
    }
}

/// A search of file contents under way: the caller walks the files.
pub struct Grep {
    re: regex::Regex,
    file_glob: Option<glob::Pattern>,
    out: Vec<String>,
}

/// How a search begins: with no matches, or with the refusal of its expression or name filter.
pub open spec fn grep_started(pattern: Seq<char>, filter: Option<Seq<char>>) -> Result<
    (),
    ErrorView,
> {
    match regex_refusal(pattern) {
        Some(m) => Err(ErrorView::Regex(m)),
        None => match filter {
            Some(g) => match glob_refusal(g) {
                Some(m) => Err(ErrorView::Tool("bad glob: "@ + m)),
                None => Ok(()),
            },
            None => Ok(()),
        },
    }
}

impl Grep {
    /// The expression that is searched for.
    pub closed spec fn pattern(self) -> Seq<char> {
        regex_source(self.re)
    }

    /// The pattern that file names must have.
    pub closed spec fn filter(self) -> Option<Seq<char>> {
        match self.file_glob {
            Some(p) => Some(glob_source(p)),
            None => None,
        }
    }

    /// The matches found so far.
    pub closed spec fn found(self) -> Seq<Seq<char>> {
        text::views(self.out@)
    }

    /// There are never more matches than a search may report.
    pub open spec fn wf(self) -> bool {
        self.found().len() <= MAX_MATCHES
    }

    /// Begins a search.
    pub fn new(pattern: &str, filter: &Option<String>) -> (r: Result<Grep, Error>)
        ensures
            match r {
                Ok(g) => {
                    &&& grep_started(pattern@, text::opt_view(*filter)) is Ok
                    &&& g.wf()
                    &&& g.pattern() == pattern@
                    &&& g.filter() == text::opt_view(*filter)
                    &&& g.found() == Seq::<Seq<char>>::empty()
                },
                Err(e) => grep_started(pattern@, text::opt_view(*filter)) == Err::<(), ErrorView>(
                    e@,
                ),
            },
    {
        let re = match compile_regex(pattern) {
            Ok(re) => re,
            Err(m) => {
                return Err(Error::Regex(m));
            },
        };
        let file_glob = match filter {
            Some(g) => match compile_glob(g.as_str()) {
                Ok(p) => Some(p),
                Err(m) => {
                    return Err(Error::Tool(text::concat2("bad glob: ", m.as_str())));
                },
            },
            None => None,
        };
        let g = Grep { re, file_glob, out: Vec::new() };
        assert(g.found() =~= Seq::<Seq<char>>::empty());
        Ok(g)
    }

    /// Whether the search has as many matches as it may report.
    pub fn is_full(&self) -> (r: bool)
        ensures
            r == (self.found().len() >= MAX_MATCHES),
    {
        self.out.len() >= MAX_MATCHES
    }

    /// Whether a file is to be searched, by its name and its length (none where it is unknown).
    pub fn wants(&self, name: &str, len: Option<u64>) -> (r: bool)
        ensures
            r == ((match self.filter() {
                Some(g) => glob_matches(g, name@),
                None => true,
            }) && len is Some && len->0 <= MAX_FILE_BYTES),
    {
        if let Some(p) = &self.file_glob {
            if !glob_is_match(p, name) {
                return false;
            }
        }
        match len {
            Some(n) => n <= MAX_FILE_BYTES,
            None => false,
        }
    }

    /// Searches the bytes of the file that reports name `rel`.
    pub fn search(&mut self, rel: &str, bytes: &[u8])
        requires
            old(self).wf(),
        ensures
            final(self).wf(),
            final(self).pattern() == old(self).pattern(),
            final(self).filter() == old(self).filter(),
            final(self).found() == text::capped(
                old(self).found() + byte_matches(old(self).pattern(), rel@, bytes@),
                MAX_MATCHES as int,
            ),
    {
        let ghost start = self.found();
        assert(text::capped(start + Seq::<Seq<char>>::empty(), MAX_MATCHES as int) =~= start);
        if is_binary(bytes) {
            return ;
        }
        let t = http::decode_lossy(bytes);
        let lines = text::lines(t.as_str());
        self.search_lines(rel, &lines);
    }

    /// Searches the lines of the file that reports name `rel`.
    pub fn search_lines(&mut self, rel: &str, lines: &Vec<String>)
        requires
            old(self).wf(),
        ensures
            final(self).wf(),
            final(self).pattern() == old(self).pattern(),
            final(self).filter() == old(self).filter(),
            final(self).found() == text::capped(
                old(self).found() + file_matches(
                    old(self).pattern(),
                    rel@,
                    text::views(lines@),
                ),
                MAX_MATCHES as int,
            ),
    {
        let ghost start = self.found();
        let ghost pattern = self.pattern();
        let ghost all = text::views(lines@);
        let mut i: usize = 0;
        assert(text::capped(
            start + file_matches(pattern, rel@, all.take(0)),
            MAX_MATCHES as int,
        ) =~= start);
        while i < lines.len()
            invariant
                i <= lines.len(),
                all == text::views(lines@),
                self.wf(),
                self.pattern() == pattern,
                self.filter() == old(self).filter(),
                start.len() <= MAX_MATCHES,
                self.found() == text::capped(
                    start + file_matches(pattern, rel@, all.take(i as int)),
                    MAX_MATCHES as int,
                ),
            decreases lines.len() - i,
        {
            let ghost before = file_matches(pattern, rel@, all.take(i as int));
            proof {
                assert(all.take(i + 1).drop_last() =~= all.take(i as int));
                assert(all.take(i + 1).last() == lines@[i as int]@);
            }
            if regex_is_match(&self.re, lines[i].as_str()) {
                if self.out.len() < MAX_MATCHES {
                    let n = text::decimal_of(i as u64 + 1);
                    let line = text::trim_end(lines[i].as_str());
                    let mut m = text::concat3(rel, ":", n.as_str());
                    m.append(": ");
                    m.append(line.as_str());
                    proof {
                        text::lemma_views_push(self.out@, m);
                        assert(m@ == match_line(rel@, (i + 1) as nat, lines@[i as int]@));
                    }
                    self.out.push(m);
                }
                proof {
                    let m = match_line(rel@, (i + 1) as nat, lines@[i as int]@);
                    assert(start + before.push(m) =~= (start + before).push(m));
                    assert(self.found() =~= text::capped(
                        start + before.push(m),
                        MAX_MATCHES as int,
                    ));
                }
            }
            i += 1;
        }
        assert(all.take(lines.len() as int) =~= all);
    }

    /// The report of the search.
    pub fn finish(self) -> (r: String)
        ensures
            r@ == grep_report(self.found()),
    {
        let mut out = self.out;
        if out.len() == 0 {
            return "no matches".to_owned();
        }
        if out.len() >= MAX_MATCHES {
            let n = text::decimal_of(MAX_MATCHES as u64);
            let note = text::concat3("…[capped at ", n.as_str(), " matches]");
            proof {
                text::lemma_views_push(out@, note);
            }
            out.push(note);
        }
        let j = text::join(&out, "\n");
        tools::truncate_output(j.as_str(), MAX_OUTPUT)
    }
}

/// Searching stops at the limit: once a search is full, further files change nothing.
pub proof fn full_search_stays(found: Seq<Seq<char>>, more: Seq<Seq<char>>)
    requires
        found.len() == MAX_MATCHES,
    ensures
        text::capped(found + more, MAX_MATCHES as int) == found,
{
    assert(text::capped(found + more, MAX_MATCHES as int) =~= found);
}

/// A path as seen from a directory above it; as it is, where it does not lie below.
pub fn relative_to(root: &str, path: &str) -> (r: String)
    ensures
        r@ == relative_path(root@, path@),
{
    if !tools::is_absolute(path) {
        return path.to_owned();
    }
    let rn = tools::names(root);
    let pn = tools::names(path);
    if !tools::is_prefix(&rn, &pn) {
        return path.to_owned();
    }
    let mut rest: Vec<String> = Vec::new();
    let mut i: usize = rn.len();
    let ghost all = text::views(pn@);
    while i < pn.len()
        invariant
            rn.len() <= i <= pn.len(),
            all == text::views(pn@),
            text::views(rest@) =~= all.subrange(rn.len() as int, i as int),
        decreases pn.len() - i,
    {
        let n = pn[i].clone();
        proof {
            text::lemma_views_push(rest@, n);
        }
        rest.push(n);
        i += 1;
    }
    assert(text::views(rest@) =~= all.skip(rn.len() as int));
    text::join(&rest, "/")
}

/// The pattern that a search by name walks: the given one, below the workspace. A pattern that
/// is absolute or goes up (`..`) would leave the workspace, and is refused.
pub open spec fn walk_pattern(root: Seq<char>, pattern: Seq<char>) -> Result<
    Seq<char>,
    ErrorView,
> {
    if tools::absolute(pattern) || text::split_on(pattern, '/').contains(".."@) {
        Err(ErrorView::Tool("glob pattern escapes workspace: "@ + pattern))
    } else {
        Ok(text::trimmed_end_of(root, '/') + "/"@ + pattern)
    }
}

/// The pattern that a search by name walks.
pub fn glob_pattern(root: &str, pattern: &str) -> (r: Result<String, Error>)
    ensures
        tools::path_view(r) == walk_pattern(root@, pattern@),
{
    let parts = text::split(pattern, '/');
    let mut up = false;
    let mut i: usize = 0;
    let ghost all = text::views(parts@);
    while i < parts.len()
        invariant
            i <= parts.len(),
            all == text::views(parts@),
            up == all.take(i as int).contains(".."@),
        decreases parts.len() - i,
    {
        proof {
            let now = all.take(i + 1);
            assert(now =~= all.take(i as int).push(parts@[i as int]@));
            if all.take(i as int).contains(".."@) {
                let k = choose|k: int| 0 <= k < i && all.take(i as int)[k] == ".."@;
                assert(now[k] == ".."@);
            }
            if now.contains(".."@) {
                let k = choose|k: int| 0 <= k < i + 1 && now[k] == ".."@;
                if k < i {
                    assert(all.take(i as int)[k] == ".."@);
                }
            }
            assert(now[i as int] == parts@[i as int]@);
        }
        if text::str_eq(parts[i].as_str(), "..") {
            up = true;
        }
        i += 1;
    }
    assert(all.take(parts.len() as int) =~= all);
    if tools::is_absolute(pattern) || up {
        return Err(Error::Tool(text::concat2("glob pattern escapes workspace: ", pattern)));
    }
    let base = text::trim_end_of(root, '/');
    Ok(text::concat3(base.as_str(), "/", pattern))
}

/// Whether a path that a walk found is reported: it is a file of the workspace.
pub open spec fn reported(root: Seq<char>, path: Seq<char>, is_file: bool) -> bool {
    is_file && tools::inside(root, path)
}

/// The report of a search by name.
pub open spec fn glob_report(found: Seq<Seq<char>>) -> Seq<char> {
    let sorted = text::sorted_texts(found);
    if found.len() == 0 {
        "no matches"@
    } else if found.len() >= MAX_GLOB_RESULTS {
        text::joined(
            sorted.push("…[capped at "@ + text::decimal(MAX_GLOB_RESULTS as nat) + " results]"@),
            "\n"@,
        )
    } else {
        text::joined(sorted, "\n"@)
    }
}

/// A search by name under way: the caller walks the files.
pub struct GlobSearch {
    root: String,
    out: Vec<String>,
}

impl GlobSearch {
    /// The workspace.
    pub closed spec fn workspace(self) -> Seq<char> {
        self.root@
    }

    /// The files found so far, as seen from the workspace.
    pub closed spec fn found(self) -> Seq<Seq<char>> {
        text::views(self.out@)
    }

    /// There are never more files than a search may report.
    pub open spec fn wf(self) -> bool {
        self.found().len() <= MAX_GLOB_RESULTS
    }

    /// Begins a search.
    pub fn new(root: &str) -> (r: GlobSearch)
        ensures
            r.wf(),
            r.workspace() == root@,
            r.found() == Seq::<Seq<char>>::empty(),
    {
        let r = GlobSearch { root: root.to_owned(), out: Vec::new() };
        assert(r.found() =~= Seq::<Seq<char>>::empty());
        r
    }

    /// Takes a path in that the walk found; returns whether the walk goes on.
    pub fn take(&mut self, path: &str, is_file: bool) -> (r: bool)
        requires
            old(self).wf(),
        ensures
            final(self).wf(),
            final(self).workspace() == old(self).workspace(),
            final(self).found() == (if reported(old(self).workspace(), path@, is_file) && old(
                self,
            ).found().len() < MAX_GLOB_RESULTS {
                old(self).found().push(relative_path(old(self).workspace(), path@))
            } else {
                old(self).found()
            }),
            r == (final(self).found().len() < MAX_GLOB_RESULTS),
    {
        if self.out.len() < MAX_GLOB_RESULTS && is_file && tools::is_inside(
            self.root.as_str(),
            path,
        ) {
            let rel = relative_to(self.root.as_str(), path);
            proof {
                text::lemma_views_push(self.out@, rel);
            }
            self.out.push(rel);
        }
        self.out.len() < MAX_GLOB_RESULTS
    }

    /// The report of the search.
    pub fn finish(self) -> (r: String)
        ensures
            r@ == glob_report(self.found()),
    {
        let n: usize = self.out.len();
        let ghost found = self.found();
        if n == 0 {
            return "no matches".to_owned();
        }
        let mut out = text::sort_strings(self.out);
        if n >= MAX_GLOB_RESULTS {
            let d = text::decimal_of(MAX_GLOB_RESULTS as u64);
            let note = text::concat3("…[capped at ", d.as_str(), " results]");
            proof {
                text::lemma_views_push(out@, note);
            }
            out.push(note);
        }
        text::join(&out, "\n")
    }
}

/// No matching line is missed, and none is reported that does not match: the matches of a file
/// are the lines in which the expression is found, each once and in their order, with the name of
/// the file, the number of the line, counted from one, and the line without whitespace at its end.
pub proof fn every_matching_line_is_reported(
    pattern: Seq<char>,
    rel: Seq<char>,
    lines: Seq<Seq<char>>,
) -> (at: Seq<int>)
    ensures
        at.len() == file_matches(pattern, rel, lines).len(),
        forall|j: int| 0 <= j < at.len() ==> 0 <= #[trigger] at[j] < lines.len(),
        forall|i: int, j: int| 0 <= i < j < at.len() ==> #[trigger] at[i] < #[trigger] at[j],
        forall|j: int|
            0 <= j < at.len() ==> regex_matches(pattern, lines[#[trigger] at[j]]) && file_matches(
                pattern,
                rel,
                lines,
            )[j] == rel + ":"@ + text::decimal((at[j] + 1) as nat) + ": "@ + text::trimmed_end(
                lines[at[j]],
            ),
        forall|i: int|
            0 <= i < lines.len() && regex_matches(pattern, #[trigger] lines[i]) ==> at.contains(i),
    decreases lines.len(),
{
    if lines.len() == 0 {
        Seq::empty()
    } else {
        let t = lines.drop_last();
        let n = lines.len() - 1;
        let before = every_matching_line_is_reported(pattern, rel, t);
        let at = if regex_matches(pattern, lines[n]) {
            before.push(n)
        } else {
            before
        };
        assert forall|j: int| 0 <= j < at.len() implies regex_matches(
            pattern,
            lines[#[trigger] at[j]],
        ) && file_matches(pattern, rel, lines)[j] == rel + ":"@ + text::decimal((at[j] + 1) as nat)
            + ": "@ + text::trimmed_end(lines[at[j]]) by {
            if j < before.len() {
                assert(at[j] == before[j]);
                assert(t[before[j]] == lines[before[j]]);
            }
        }
        assert forall|i: int|
            0 <= i < lines.len() && regex_matches(pattern, #[trigger] lines[i]) implies at.contains(
            i,
        ) by {
            if i < n {
                assert(t[i] == lines[i]);
                let k = choose|k: int| 0 <= k < before.len() && before[k] == i;
                assert(at[k] == i);
            } else {
                assert(at[before.len() as int] == n);
            }
        }
        at
    }
}

/// A file is binary exactly where a NUL byte stands among its first 8192 bytes. A binary file has
/// no matches, and any other has those of its lines.
pub proof fn text_files_are_searched(pattern: Seq<char>, rel: Seq<char>, bytes: Seq<u8>)
    ensures
        binary(bytes) <==> text::capped(bytes, 8192).contains(0),
        binary(bytes) ==> byte_matches(pattern, rel, bytes).len() == 0,
        !bytes.contains(0) ==> byte_matches(pattern, rel, bytes) == file_matches(
            pattern,
            rel,
            text::all_lines(http::utf8_lossy(bytes)),
        ),
{
    let head = text::capped(bytes, 8192);
    if binary(bytes) {
        let i = choose|i: int| 0 <= i < bytes.len() && i < SNIFF && #[trigger] bytes[i] == 0;
        assert(head[i] == 0);
    }
    if head.contains(0) {
        let i = choose|i: int| 0 <= i < head.len() && head[i] == 0;
        assert(bytes[i] == 0);
    }
}

/// Up to two hundred matches all are kept and reported, one per line; a search with more keeps
/// the first two hundred and says so.
pub proof fn matches_are_kept_up_to_the_limit(found: Seq<Seq<char>>, more: Seq<Seq<char>>)
    ensures
        found.len() + more.len() <= 200 ==> text::capped(found + more, MAX_MATCHES as int) == found
            + more,
        found.len() == 0 ==> grep_report(found) == "no matches"@,
        0 < found.len() < 200 ==> grep_report(found) == tools::truncated(
            text::joined(found, "\n"@),
            51200,
        ),
        found.len() >= 200 ==> grep_report(found) == tools::truncated(
            text::joined(found, "\n"@) + "\n…[capped at "@ + text::decimal(200) + " matches]"@,
            51200,
        ),
{
    if found.len() >= 200 {
        reveal_strlit("\n");
        reveal_strlit("\n…[capped at ");
        reveal_strlit("…[capped at ");
        let note = "…[capped at "@ + text::decimal(200) + " matches]"@;
        text::joining_keeps_every_part(found, seq![note], "\n"@);
        text::joining_keeps_every_part(seq![note], seq![note], "\n"@);
        assert(found + seq![note] =~= found.push(note));
        assert("\n"@ + "…[capped at "@ =~= "\n…[capped at "@);
        let j = text::joined(found, "\n"@);
        assert(j + "\n"@ + note =~= j + "\n…[capped at "@ + text::decimal(200) + " matches]"@);
    }
}

/// Below the directory that is searched, hidden directories and those of build output and
/// dependencies are not entered; files and the directory itself always are.
pub proof fn only_hidden_and_build_directories_are_skipped(name: Seq<char>, depth: nat)
    ensures
        !skipped(name, depth, false),
        !skipped(name, 0, true),
        depth > 0 ==> (skipped(name, depth, true) <==> name == "target"@ || name
            == "node_modules"@ || (exists|rest: Seq<char>| name == #[trigger] (seq!['.'] + rest))),
{
    if name.len() > 0 && name[0] == '.' {
        assert(name =~= seq!['.'] + name.skip(1));
    }
}

/// The limits of a search: files of up to five mebibytes are searched.
pub proof fn files_are_searched_up_to_the_limit()
    ensures
        MAX_FILE_BYTES == 5 * 1024 * 1024,
{
}

/// A path below a directory, as seen from it, leads from the directory to where the path leads;
/// any other path stays as it is.
pub proof fn relative_path_leads_back(root: Seq<char>, path: Seq<char>)
    requires
        tools::absolute(root),
    ensures
        tools::inside(root, path) ==> tools::names_from(
            tools::names_of(root),
            relative_path(root, path),
        ) == tools::names_of(path) && !tools::absolute(relative_path(root, path))
            && tools::resolved(root, relative_path(root, path)) == Ok::<Seq<char>, ErrorView>(
            tools::normalized(path),
        ),
        !tools::inside(root, path) ==> relative_path(root, path) == path,
{
    if tools::inside(root, path) {
        let rn = tools::names_of(root);
        let pn = tools::names_of(path);
        let rest = pn.skip(rn.len() as int);
        tools::normalizing_keeps_the_place(path);
        tools::normalizing_keeps_the_place(root);
        assert(tools::plain(rest)) by {
            assert forall|i: int| 0 <= i < rest.len() implies (#[trigger] rest[i]).len() > 0
                && rest[i] != "."@ && rest[i] != ".."@ && !rest[i].contains('/') by {
                assert(rest[i] == pn[rn.len() + i]);
            }
        }
        tools::names_lead_down(rn, rest);
        assert(rn + rest =~= pn);
    }
}

/// A pattern that is walked is the given one below the workspace; one that is absolute, or has a
/// component that goes up, is refused.
pub proof fn patterns_stay_below_the_workspace(root: Seq<char>, pattern: Seq<char>)
    ensures
        walk_pattern(root, pattern) is Ok <==> !tools::absolute(pattern) && forall|i: int|
            0 <= i < text::split_on(pattern, '/').len() ==> #[trigger] text::split_on(
                pattern,
                '/',
            )[i] != ".."@,
        walk_pattern(root, pattern) is Ok ==> walk_pattern(root, pattern)->Ok_0
            == text::trimmed_end_of(root, '/') + seq!['/'] + pattern,
        walk_pattern(root, pattern) is Err ==> walk_pattern(root, pattern)->Err_0
            == ErrorView::Tool("glob pattern escapes workspace: "@ + pattern),
{
    reveal_strlit("/");
    assert("/"@ =~= seq!['/']);
}

/// The files of a search by name are reported in order, one per line; where there are five
/// hundred or more, a note says that it was cut.
pub proof fn found_files_are_reported_in_order(found: Seq<Seq<char>>)
    ensures
        found.len() == 0 ==> glob_report(found) == "no matches"@,
        0 < found.len() < 500 ==> glob_report(found) == text::joined(
            text::sorted_texts(found),
            "\n"@,
        ),
        found.len() >= 500 ==> glob_report(found) == text::joined(text::sorted_texts(found), "\n"@)
            + "\n…[capped at "@ + text::decimal(500) + " results]"@,
        MAX_GLOB_RESULTS == 500,
{
    if found.len() >= 500 {
        reveal_strlit("\n");
        reveal_strlit("\n…[capped at ");
        reveal_strlit("…[capped at ");
        let sorted = text::sorted_texts(found);
        text::sorting_orders_and_keeps(found, |t: Seq<char>| t);
        let note = "…[capped at "@ + text::decimal(500) + " results]"@;
        text::joining_keeps_every_part(sorted, seq![note], "\n"@);
        text::joining_keeps_every_part(seq![note], seq![note], "\n"@);
        assert(sorted + seq![note] =~= sorted.push(note));
        assert("\n"@ + "…[capped at "@ =~= "\n…[capped at "@);
        let j = text::joined(sorted, "\n"@);
        assert(j + "\n"@ + note =~= j + "\n…[capped at "@ + text::decimal(500) + " results]"@);
    }
}

/// What a walk found is reported exactly where it is a file at the workspace or below it.
pub proof fn files_of_the_workspace_are_reported(root: Seq<char>, path: Seq<char>)
    ensures
        reported(root, path, true) <==> tools::absolute(path) && tools::names_of(
            root,
        ).is_prefix_of(tools::names_of(path)),
        !reported(root, path, false),
{
}

/// A search begins where its expression, and the pattern for file names where there is one, can
/// be understood; else it is refused for the first that cannot.
pub proof fn search_begins_with_good_patterns(pattern: Seq<char>, filter: Seq<char>)
    ensures
        grep_started(pattern, None) is Ok <==> regex_refusal(pattern) is None,
        grep_started(pattern, Some(filter)) is Ok <==> regex_refusal(pattern) is None
            && glob_refusal(filter) is None,
        regex_refusal(pattern) matches Some(m) ==> grep_started(pattern, Some(filter)) == Err::<
            (),
            ErrorView,
        >(ErrorView::Regex(m)),
        regex_refusal(pattern) is None ==> (glob_refusal(filter) matches Some(m) ==> grep_started(
            pattern,
            Some(filter),
        ) == Err::<(), ErrorView>(ErrorView::Tool("bad glob: "@ + m))),
{
}

} // verus!
