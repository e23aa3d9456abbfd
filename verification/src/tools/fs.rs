//! Reading, writing, editing and listing of files: all but the touching of the disk.
use crate::error::{Error, ErrorView};
use crate::json::{Json, JsonView};
use crate::providers::http;
use crate::tools::schema;
use crate::types::{ToolSpec, ToolSpecView};
use crate::{providers, text, tools};
use vstd::prelude::*;
use vstd::string::*;
use vstd::utf8::*;

verus! {

/// The largest file that is read.
pub const MAX_FILE_READ: u64 = 10485760;

/// The longest output of a tool, in bytes.
pub const MAX_OUTPUT: usize = 51200;

/// How many lines are returned where no limit is given.
pub const DEFAULT_LINE_LIMIT: usize = 2000;

/// How many entries a listing may have.
pub const MAX_LIST_ENTRIES: usize = 500;

pub struct ReadFileTool;

pub struct WriteFileTool;

pub struct ListDirTool;

/// Lists a directory OUTSIDE the workspace sandbox. Always gated by an explicit user prompt,
/// regardless of mode.
pub struct ListExternalDirTool;

/// Reads a UTF-8 text file OUTSIDE the workspace (absolute path). Same output shape as
/// read_file; gated by an explicit user prompt regardless of mode.
pub struct ReadExternalFileTool;

/// Writes a text file OUTSIDE the workspace (absolute path). Gated by an explicit user prompt
/// regardless of mode. Not covered by rewind checkpoints.
pub struct WriteExternalFileTool;

pub struct EditFileTool;

/// The parameters of a tool that reads a file.
pub open spec fn read_schema(path: Seq<char>) -> JsonView {
    schema::object_view(
        map![
            "path"@ => schema::described_view("string"@, path),
            "offset"@ => schema::described_view("integer"@, "1-based line number to start from"@),
            "limit"@ => schema::described_view("integer"@, "Max lines to return (default 2000)"@),
        ],
        seq![providers::jstr("path"@)],
    )
}

fn read_params(path: &str) -> (r: Json)
    ensures
        r@ == read_schema(path@),
{
    let props = Json::object().with("path", schema::described("string", path)).with(
        "offset",
        schema::described("integer", "1-based line number to start from"),
    ).with("limit", schema::described("integer", "Max lines to return (default 2000)"));
    schema::object(props, Json::array().and(Json::str("path")))
}

/// The ways of writing that a tool knows.
pub open spec fn mode_words() -> Seq<JsonView> {
    seq![
        providers::jstr("create"@),
        providers::jstr("overwrite"@),
        providers::jstr("append"@),
    ]
}

fn write_params(path: Json) -> (r: Json)
    ensures
        r@ == schema::object_view(
            map![
                "path"@ => path@,
                "content"@ => schema::typed_view("string"@),
                "mode"@ => schema::choice_view(mode_words()),
            ],
            seq![providers::jstr("path"@), providers::jstr("content"@)],
        ),
{
    let words = Json::array().and(Json::str("create")).and(Json::str("overwrite")).and(
        Json::str("append"),
    );
    assert(words@->Array_0 =~= mode_words());
    let props = Json::object().with("path", path).with("content", schema::typed("string")).with(
        "mode",
        schema::choice(words),
    );
    let required = Json::array().and(Json::str("path")).and(Json::str("content"));
    assert(required@->Array_0 =~= seq![providers::jstr("path"@), providers::jstr("content"@)]);
    schema::object(props, required)
}

impl ReadFileTool {
    /// The tool as a provider is told of it.
    pub open spec fn description() -> ToolSpecView {
        ToolSpecView {
            name: "read_file"@,
            description:
                "Read a UTF-8 text file in the workspace. Returns lines with optional 1-based offset and limit. The `path` must be a concrete file path - never a glob pattern."@,
            params_schema: read_schema("Path relative to the workspace root"@),
        }
    }

    pub fn spec(&self) -> (r: ToolSpec)
        ensures
            r@ == ReadFileTool::description(),
    {
        ToolSpec {
            name: "read_file".to_owned(),
            description:
                "Read a UTF-8 text file in the workspace. Returns lines with optional 1-based offset and limit. The `path` must be a concrete file path - never a glob pattern.".to_owned(),
            params_schema: read_params("Path relative to the workspace root"),
        }
    }

    pub fn needs_approval(&self) -> (r: bool)
        ensures
            !r,
    {
        false
    }
}

impl WriteFileTool {
    /// The tool as a provider is told of it.
    pub open spec fn description() -> ToolSpecView {
        ToolSpecView {
            name: "write_file"@,
            description:
                "Write text to a file in the workspace. mode: create (fail if exists), overwrite (default), append."@,
            params_schema: schema::object_view(
                map![
                    "path"@ => schema::typed_view("string"@),
                    "content"@ => schema::typed_view("string"@),
                    "mode"@ => schema::choice_view(mode_words()),
                ],
                seq![providers::jstr("path"@), providers::jstr("content"@)],
            ),
        }
    }

    pub fn spec(&self) -> (r: ToolSpec)
        ensures
            r@ == WriteFileTool::description(),
    {
        ToolSpec {
            name: "write_file".to_owned(),
            description:
                "Write text to a file in the workspace. mode: create (fail if exists), overwrite (default), append.".to_owned(),
            params_schema: write_params(schema::typed("string")),
        }
    }

    pub fn needs_approval(&self) -> (r: bool)
        ensures
            r,
    {
        true
    }
}

impl ListDirTool {
    /// The tool as a provider is told of it.
    pub open spec fn description() -> ToolSpecView {
        ToolSpecView {
            name: "list_dir"@,
            description: "List files and directories under a workspace path, indented by depth."@,
            params_schema: schema::object_view(
                map![
                    "path"@ => schema::described_view("string"@, "Default \".\""@),
                    "depth"@ => schema::described_view(
                        "integer"@,
                        "Recursion depth (default 1)"@,
                    ),
                ],
                Seq::empty(),
            ),
        }
    }

    pub fn spec(&self) -> (r: ToolSpec)
        ensures
            r@ == ListDirTool::description(),
    {
        let props = Json::object().with("path", schema::described("string", "Default \".\"")).with(
            "depth",
            schema::described("integer", "Recursion depth (default 1)"),
        );
        ToolSpec {
            name: "list_dir".to_owned(),
            description:
                "List files and directories under a workspace path, indented by depth.".to_owned(),
            params_schema: schema::object(props, Json::array()),
        }
    }

    pub fn needs_approval(&self) -> (r: bool)
        ensures
            !r,
    {
        false
    }
}

impl ListExternalDirTool {
    /// The tool as a provider is told of it.
    pub open spec fn description() -> ToolSpecView {
        ToolSpecView {
            name: "list_external_dir"@,
            description:
                "List files in a directory OUTSIDE the workspace (absolute path). The user is prompted before this runs. Use ONLY when the user explicitly asks for something outside the project."@,
            params_schema: schema::object_view(
                map![
                    "path"@ => schema::described_view("string"@, "Absolute directory path"@),
                    "depth"@ => schema::described_view(
                        "integer"@,
                        "Recursion depth (default 1)"@,
                    ),
                ],
                seq![providers::jstr("path"@)],
            ),
        }
    }

    pub fn spec(&self) -> (r: ToolSpec)
        ensures
            r@ == ListExternalDirTool::description(),
    {
        let props = Json::object().with(
            "path",
            schema::described("string", "Absolute directory path"),
        ).with("depth", schema::described("integer", "Recursion depth (default 1)"));
        ToolSpec {
            name: "list_external_dir".to_owned(),
            description:
                "List files in a directory OUTSIDE the workspace (absolute path). The user is prompted before this runs. Use ONLY when the user explicitly asks for something outside the project.".to_owned(),
            params_schema: schema::object(props, Json::array().and(Json::str("path"))),
        }
    }

    pub fn needs_approval(&self) -> (r: bool)
        ensures
            r,
    {
        true
    }
}

impl ReadExternalFileTool {
    /// The tool as a provider is told of it.
    pub open spec fn description() -> ToolSpecView {
        ToolSpecView {
            name: "read_external_file"@,
            description:
                "Read a UTF-8 text file OUTSIDE the workspace (absolute path, optional 1-based offset and line limit). The user is prompted before this runs. Use ONLY when the user explicitly asks for a file outside the project."@,
            params_schema: read_schema("Absolute file path"@),
        }
    }

    pub fn spec(&self) -> (r: ToolSpec)
        ensures
            r@ == ReadExternalFileTool::description(),
    {
        ToolSpec {
            name: "read_external_file".to_owned(),
            description:
                "Read a UTF-8 text file OUTSIDE the workspace (absolute path, optional 1-based offset and line limit). The user is prompted before this runs. Use ONLY when the user explicitly asks for a file outside the project.".to_owned(),
            params_schema: read_params("Absolute file path"),
        }
    }

    pub fn needs_approval(&self) -> (r: bool)
        ensures
            r,
    {
        true
    }
}

impl WriteExternalFileTool {
    /// The tool as a provider is told of it.
    pub open spec fn description() -> ToolSpecView {
        ToolSpecView {
            name: "write_external_file"@,
            description:
                "Write text to a file OUTSIDE the workspace (absolute path). mode: create (fail if exists), overwrite (default), append. The user is prompted before this runs. Use ONLY when the user explicitly asks to write outside the project."@,
            params_schema: schema::object_view(
                map![
                    "path"@ => schema::described_view("string"@, "Absolute file path"@),
                    "content"@ => schema::typed_view("string"@),
                    "mode"@ => schema::choice_view(mode_words()),
                ],
                seq![providers::jstr("path"@), providers::jstr("content"@)],
            ),
        }
    }

    pub fn spec(&self) -> (r: ToolSpec)
        ensures
            r@ == WriteExternalFileTool::description(),
    {
        ToolSpec {
            name: "write_external_file".to_owned(),
            description:
                "Write text to a file OUTSIDE the workspace (absolute path). mode: create (fail if exists), overwrite (default), append. The user is prompted before this runs. Use ONLY when the user explicitly asks to write outside the project.".to_owned(),
            params_schema: write_params(schema::described("string", "Absolute file path")),
        }
    }

    pub fn needs_approval(&self) -> (r: bool)
        ensures
            r,
    {
        true
    }
}

impl EditFileTool {
    /// The tool as a provider is told of it.
    pub open spec fn description() -> ToolSpecView {
        ToolSpecView {
            name: "edit_file"@,
            description:
                "Replace an exact string in a file (surgical edit - prefer this over rewriting whole files). old_string must match exactly, including whitespace. By default it must be unique in the file; pass expected_replacements to replace N occurrences."@,
            params_schema: schema::object_view(
                map![
                    "path"@ => schema::described_view(
                        "string"@,
                        "File to edit, relative to the workspace root"@,
                    ),
                    "old_string"@ => schema::described_view(
                        "string"@,
                        "Exact text to find (must be unique unless expected_replacements is set)"@,
                    ),
                    "new_string"@ => schema::described_view("string"@, "Replacement text"@),
                    "expected_replacements"@ => schema::described_view(
                        "integer"@,
                        "Replace exactly N occurrences (default 1)"@,
                    ),
                ],
                seq![
                    providers::jstr("path"@),
                    providers::jstr("old_string"@),
                    providers::jstr("new_string"@),
                ],
            ),
        }
    }

    pub fn spec(&self) -> (r: ToolSpec)
        ensures
            r@ == EditFileTool::description(),
    {
        let props = Json::object().with(
            "path",
            schema::described("string", "File to edit, relative to the workspace root"),
        ).with(
            "old_string",
            schema::described(
                "string",
                "Exact text to find (must be unique unless expected_replacements is set)",
            ),
        ).with("new_string", schema::described("string", "Replacement text")).with(
            "expected_replacements",
            schema::described("integer", "Replace exactly N occurrences (default 1)"),
        );
        let required = Json::array().and(Json::str("path")).and(Json::str("old_string")).and(
            Json::str("new_string"),
        );
        assert(required@->Array_0 =~= seq![
            providers::jstr("path"@),
            providers::jstr("old_string"@),
            providers::jstr("new_string"@),
        ]);
        ToolSpec {
            name: "edit_file".to_owned(),
            description:
                "Replace an exact string in a file (surgical edit - prefer this over rewriting whole files). old_string must match exactly, including whitespace. By default it must be unique in the file; pass expected_replacements to replace N occurrences.".to_owned(),
            params_schema: schema::object(props, required),
        }
    }

    pub fn needs_approval(&self) -> (r: bool)
        ensures
            r,
    {
        true
    }
}

/// What an outcome without a value is.
pub open spec fn unit_view(r: Result<(), Error>) -> Result<(), ErrorView> {
    match r {
        Ok(u) => Ok(u),
        Err(e) => Err(e@),
    }
}

/// Whether a path may be used outside the workspace: it must be absolute.
pub fn check_external(path: &str) -> (r: Result<(), Error>)
    ensures
        unit_view(r) == (if tools::absolute(path@) {
            Ok(())
        } else {
            Err(ErrorView::Tool("external path must be absolute: "@ + path@))
        }),
{
    if tools::is_absolute(path) {
        Ok(())
    } else {
        Err(Error::Tool(text::concat2("external path must be absolute: ", path)))
    }
}

/// The refusal to read a file of the given length.
pub open spec fn too_large(len: nat, path: Seq<char>, hint: Seq<char>) -> ErrorView {
    ErrorView::Tool(
        "file too large ("@ + text::decimal(len) + " bytes, max "@ + text::decimal(
            MAX_FILE_READ as nat,
        ) + "): "@ + path + hint,
    )
}

/// Whether a file of the given length may be read.
pub open spec fn size_checked(len: nat, path: Seq<char>, hint: Seq<char>) -> Result<(), ErrorView> {
    if len > MAX_FILE_READ {
        Err(too_large(len, path, hint))
    } else {
        Ok(())
    }
}

/// What the refusal to read a file of the workspace adds.
pub const GREP_HINT: &'static str = " - try grep for targeted reads";

/// Whether a file of the given length may be read; the refusal ends with `hint`.
pub fn check_size(len: u64, path: &str, hint: &str) -> (r: Result<(), Error>)
    ensures
        unit_view(r) == size_checked(len as nat, path@, hint@),
{
    if len > MAX_FILE_READ {
        let n = text::decimal_of(len);
        let max = text::decimal_of(MAX_FILE_READ);
        let mut m = text::concat3("file too large (", n.as_str(), " bytes, max ");
        m.append(max.as_str());
        m.append("): ");
        m.append(path);
        m.append(hint);
        Err(Error::Tool(m))
    } else {
        Ok(())
    }
}

/// The number given, or a default, but at least one.
pub open spec fn at_least_one(n: Option<usize>, default: int) -> int {
    match n {
        Some(k) => if k == 0 {
            1
        } else {
            k as int
        },
        None => default,
    }
}

fn or_default(n: Option<usize>, default: usize) -> (r: usize)
    requires
        default >= 1,
    ensures
        r == at_least_one(n, default as int),
        r >= 1,
{
    match n {
        Some(k) => if k == 0 {
            1
        } else {
            k
        },
        None => default,
    }
}

/// The lines from the 1-based `offset` on, at most `limit` of them.
pub open spec fn window(lines: Seq<Seq<char>>, offset: int, limit: int) -> Seq<Seq<char>> {
    if offset > lines.len() {
        Seq::empty()
    } else {
        text::capped(lines.skip(offset - 1), limit)
    }
}

/// What is shown of a text: the lines of the window, and a note of how many follow; where the
/// window reaches the end of the text, its last line feed too.
pub open spec fn shown(s: Seq<char>, offset: int, limit: int) -> Seq<char> {
    let lines = text::all_lines(s);
    let part = window(lines, offset, limit);
    let upto = offset - 1 + part.len();
    if part.len() == 0 && offset > lines.len() {
        "[offset "@ + text::decimal(offset as nat) + " past end of file: "@ + text::decimal(
            lines.len(),
        ) + " lines]"@
    } else if upto < lines.len() {
        tools::truncated(
            text::joined(part, "\n"@) + "\n…["@ + text::decimal((lines.len() - upto) as nat)
                + " more lines]"@,
            MAX_OUTPUT as int,
        )
    } else if part.len() > 0 && s.len() > 0 && s.last() == '\n' {
        tools::truncated(text::joined(part, "\n"@).push('\n'), MAX_OUTPUT as int)
    } else {
        tools::truncated(text::joined(part, "\n"@), MAX_OUTPUT as int)
    }
}

/// Shows a text from the 1-based `offset` on, at most `limit` lines.
pub fn read_window(s: &str, offset: Option<usize>, limit: Option<usize>) -> (r: String)
    ensures
        r@ == shown(
            s@,
            at_least_one(offset, 1),
            at_least_one(limit, DEFAULT_LINE_LIMIT as int),
        ),
{
    let offset = or_default(offset, 1);
    let limit = or_default(limit, DEFAULT_LINE_LIMIT);
    let lines = text::lines(s);
    let ghost all = text::views(lines@);
    let total: usize = lines.len();
    if offset > total {
        let o = text::decimal_of(offset as u64);
        let t = text::decimal_of(total as u64);
        let mut m = text::concat3("[offset ", o.as_str(), " past end of file: ");
        m.append(t.as_str());
        m.append(" lines]");
        return m;
    }
    let from: usize = offset - 1;
    let end: usize = if limit < total - from {
        from + limit
    } else {
        total
    };
    let mut part: Vec<String> = Vec::new();
    let mut i: usize = from;
    while i < end
        invariant
            from <= i <= end <= lines.len(),
            all == text::views(lines@),
            text::views(part@) =~= all.subrange(from as int, i as int),
        decreases end - i,
    {
        let l = lines[i].clone();
        proof {
            text::lemma_views_push(part@, l);
        }
        part.push(l);
        i += 1;
    }
    assert(text::views(part@) =~= window(all, offset as int, limit as int));
    let mut out = text::join(&part, "\n");
    if end < total {
        let n = text::decimal_of((total - end) as u64);
        out.append("\n…[");
        out.append(n.as_str());
        out.append(" more lines]");
    } else if part.len() > 0 && ends_with_newline(s) {
        out.push('\n');
    }
    tools::truncate_output(out.as_str(), MAX_OUTPUT)
}

fn ends_with_newline(s: &str) -> (r: bool)
    ensures
        r == (s@.len() > 0 && s@.last() == '\n'),
{
    let cs = text::chars_of(s);
    cs.len() > 0 && cs[cs.len() - 1] == '\n'
}

/// What reading the bytes of a file of the workspace gives.
pub open spec fn read_result(
    bytes: Seq<u8>,
    path: Seq<char>,
    offset: int,
    limit: int,
) -> Result<Seq<char>, ErrorView> {
    match size_checked(bytes.len(), path, GREP_HINT@) {
        Ok(_) => Ok(shown(http::utf8_lossy(bytes), offset, limit)),
        Err(e) => Err(e),
    }
}

/// Shows the bytes of a file of the workspace; the file may have grown since its length was
/// checked.
pub fn read_bytes(bytes: &[u8], path: &str, offset: Option<usize>, limit: Option<usize>) -> (r:
    Result<String, Error>)
    ensures
        tools::path_view(r) == read_result(
            bytes@,
            path@,
            at_least_one(offset, 1),
            at_least_one(limit, DEFAULT_LINE_LIMIT as int),
        ),
{
    match check_size(bytes.len() as u64, path, GREP_HINT) {
        Ok(_) => {
            let t = http::decode_lossy(bytes);
            Ok(read_window(t.as_str(), offset, limit))
        },
        Err(e) => Err(e),
    }
}

/// Shows the bytes of a file outside the workspace.
pub fn read_external_bytes(bytes: &[u8], offset: Option<usize>, limit: Option<usize>) -> (r:
    String)
    ensures
        r@ == shown(
            http::utf8_lossy(bytes@),
            at_least_one(offset, 1),
            at_least_one(limit, DEFAULT_LINE_LIMIT as int),
        ),
{
    let t = http::decode_lossy(bytes);
    read_window(t.as_str(), offset, limit)
}

/// How a file is written.
#[derive(Debug, Clone, Copy, PartialEq, Eq, Structural)]
pub enum WriteMode {
    /// The content becomes that of the file.
    Replace,
    /// The content goes to the end of the file.
    Append,
}

/// How a file is written in the given mode: a file that exists is not created, and an unknown
/// mode writes nothing.
pub open spec fn write_mode(mode: Option<Seq<char>>, exists: bool, path: Seq<char>) -> Result<
    WriteMode,
    ErrorView,
> {
    match mode {
        None => Ok(WriteMode::Replace),
        Some(m) => if m == "create"@ {
            if exists {
                Err(ErrorView::Tool("file already exists: "@ + path))
            } else {
                Ok(WriteMode::Replace)
            }
        } else if m == "overwrite"@ {
            Ok(WriteMode::Replace)
        } else if m == "append"@ {
            Ok(WriteMode::Append)
        } else {
            Err(ErrorView::Tool("unknown write mode: "@ + m))
        },
    }
}

/// What a planned way of writing is.
pub open spec fn mode_view(r: Result<WriteMode, Error>) -> Result<WriteMode, ErrorView> {
    match r {
        Ok(m) => Ok(m),
        Err(e) => Err(e@),
    }
}

/// How a file is written in the given mode.
pub fn plan_write(mode: &Option<String>, exists: bool, path: &str) -> (r: Result<WriteMode, Error>)
    ensures
        mode_view(r) == write_mode(text::opt_view(*mode), exists, path@),
{
    match mode {
        None => {
            Ok(WriteMode::Replace)
        },
        Some(m) => if text::str_eq(m.as_str(), "create") {
            if exists {
                Err(Error::Tool(text::concat2("file already exists: ", path)))
            } else {
                Ok(WriteMode::Replace)
            }
        } else if text::str_eq(m.as_str(), "overwrite") {
            Ok(WriteMode::Replace)
        } else if text::str_eq(m.as_str(), "append") {
            Ok(WriteMode::Append)
        } else {
            Err(Error::Tool(text::concat2("unknown write mode: ", m.as_str())))
        },
    }
}

/// The report of a write.
pub fn wrote(content: &str, path: &str) -> (r: String)
    ensures
        r@ == "wrote "@ + text::decimal(encode_utf8(content@).len()) + " bytes to "@ + path@,
{
    let n = text::decimal_of(content.as_bytes().len() as u64);
    let mut m = text::concat3("wrote ", n.as_str(), " bytes to ");
    m.append(path);
    m
}

/// A text with a string replaced: the string must occur as often as expected.
pub open spec fn edited(
    content: Seq<char>,
    find: Seq<char>,
    with: Seq<char>,
    expected: nat,
    path: Seq<char>,
) -> Result<Seq<char>, ErrorView> {
    let count = text::occurrences(content, find, 0);
    if find.len() == 0 {
        Err(ErrorView::Tool("old_string must not be empty"@))
    } else if count == 0 {
        Err(ErrorView::Tool("old_string not found in "@ + path))
    } else if count != expected {
        Err(
            ErrorView::Tool(
                "old_string occurs "@ + text::decimal(count) + " times in "@ + path + ", expected "@
                    + text::decimal(expected)
                    + " - make it more specific or adjust expected_replacements"@,
            ),
        )
    } else {
        Ok(text::replaced_from(content, find, with, expected, 0))
    }
}

/// How often a string is expected where nothing is said.
pub open spec fn expectation(n: Option<usize>) -> nat {
    match n {
        Some(k) => k as nat,
        None => 1,
    }
}

/// Replaces a string in a text; it must occur as often as expected (once, where nothing is said).
pub fn edit_text(
    content: &str,
    old_string: &str,
    new_string: &str,
    expected_replacements: Option<usize>,
    path: &str,
) -> (r: Result<String, Error>)
    ensures
        tools::path_view(r) == edited(
            content@,
            old_string@,
            new_string@,
            expectation(expected_replacements),
            path@,
        ),
{
    if old_string.is_empty() {
        return Err(Error::Tool("old_string must not be empty".to_owned()));
    }
    let count = text::count_matches(content, old_string);
    let expected: usize = match expected_replacements {
        Some(k) => k,
        None => 1,
    };
    if count == 0 {
        return Err(Error::Tool(text::concat2("old_string not found in ", path)));
    }
    if count != expected {
        let c = text::decimal_of(count as u64);
        let e = text::decimal_of(expected as u64);
        let mut m = text::concat3("old_string occurs ", c.as_str(), " times in ");
        m.append(path);
        m.append(", expected ");
        m.append(e.as_str());
        m.append(" - make it more specific or adjust expected_replacements");
        return Err(Error::Tool(m));
    }
    Ok(text::replace_n(content, old_string, new_string, expected))
}

/// Replaces a string in the text of a file, whose bytes are given.
pub fn edit_bytes(
    bytes: &[u8],
    old_string: &str,
    new_string: &str,
    expected_replacements: Option<usize>,
    path: &str,
) -> (r: Result<String, Error>)
    ensures
        tools::path_view(r) == edited(
            http::utf8_lossy(bytes@),
            old_string@,
            new_string@,
            expectation(expected_replacements),
            path@,
        ),
{
    let content = http::decode_lossy(bytes);
    edit_text(content.as_str(), old_string, new_string, expected_replacements, path)
}

/// The report of an edit.
pub fn edit_report(path: &str, expected_replacements: Option<usize>) -> (r: String)
    ensures
        r@ == "[edited "@ + path@ + " - replaced "@ + text::decimal(
            expectation(expected_replacements),
        ) + " occurrence"@ + (if expectation(expected_replacements) == 1 {
            Seq::<char>::empty()
        } else {
            "s"@
        }) + "]"@,
{
    let expected: usize = match expected_replacements {
        Some(k) => k,
        None => 1,
    };
    let n = text::decimal_of(expected as u64);
    let mut m = text::concat3("[edited ", path, " - replaced ");
    m.append(n.as_str());
    m.append(" occurrence");
    let ghost before = m@;
    if expected != 1 {
        m.append("s");
    } else {
        assert(before + Seq::<char>::empty() =~= before);
    }
    m.append("]");
    m
}

/// An edit that replaces a string by itself changes nothing.
pub proof fn editing_by_itself_changes_nothing(
    content: Seq<char>,
    find: Seq<char>,
    expected: nat,
    path: Seq<char>,
)
    requires
        edited(content, find, find, expected, path) is Ok,
    ensures
        edited(content, find, find, expected, path)->Ok_0 == content,
{
    lemma_replaced_by_itself(content, find, expected, 0);
    assert(content.skip(0) =~= content);
}

proof fn lemma_replaced_by_itself(s: Seq<char>, p: Seq<char>, n: nat, from: int)
    requires
        0 <= from <= s.len(),
    ensures
        text::replaced_from(s, p, p, n, from) == s.skip(from),
    decreases n,
{
    if n > 0 {
        text::lemma_find_from(s, p, from);
        if text::find_from(s, p, from) is Some {
            let k = text::find_from(s, p, from)->0;
            lemma_replaced_by_itself(s, p, (n - 1) as nat, k + p.len());
            assert(s.subrange(from, k) + p + s.skip(k + p.len()) =~= s.skip(from)) by {
                assert(s.subrange(k, k + p.len()) == p);
                let all = s.subrange(from, k) + p + s.skip(k + p.len());
                assert forall|i: int| 0 <= i < all.len() implies all[i] == s.skip(from)[i] by {
                    if k - from <= i < k - from + p.len() {
                        assert(p[i - (k - from)] == s[from + i]);
                    }
                }
            }
        }
    }
}

/// An entry of a directory.
pub struct Entry {
    pub name: String,
    pub is_dir: bool,
}

/// An entry of a directory.
#[verifier::ext_equal]
pub struct EntryView {
    pub name: Seq<char>,
    pub is_dir: bool,
}

impl Entry {
    pub open spec fn view(self) -> EntryView {
        EntryView { name: self.name@, is_dir: self.is_dir }
    }
}

/// What the entries of a list are.
pub open spec fn entry_views(v: Seq<Entry>) -> Seq<EntryView> {
    v.map_values(|e: Entry| e@)
}

/// The entries in the order of their names.
pub open spec fn sorted_entries(s: Seq<EntryView>) -> Seq<EntryView> {
    text::sorted_by(s, |e: EntryView| e.name)
}

/// Sorts entries by name.
pub fn sort_entries(v: Vec<Entry>) -> (r: Vec<Entry>)
    ensures
        entry_views(r@) == sorted_entries(entry_views(v@)),
{
    let ghost all = v@;
    let ghost key = |e: EntryView| e.name;
    let mut out: Vec<Entry> = Vec::new();
    assert(entry_views(out@) =~= sorted_entries(entry_views(all.take(0))));
    for x in it: v.into_iter()
        invariant
            it.seq() == all,
            key == (|e: EntryView| e.name),
            entry_views(out@) == sorted_entries(entry_views(all.take(it.index()))),
    {
        let mut p: usize = 0;
        while p < out.len() && !text::comes_before(x.name.as_str(), out[p].name.as_str())
            invariant
                p <= out.len(),
                key == (|e: EntryView| e.name),
                forall|i: int|
                    0 <= i < p ==> !text::before(
                        key(x@),
                        key(#[trigger] entry_views(out@)[i]),
                    ),
            decreases out.len() - p,
        {
            assert(entry_views(out@)[p as int] == out@[p as int]@);
            p += 1;
        }
        proof {
            let b = entry_views(out@);
            assert(p < out.len() ==> b[p as int] == out@[p as int]@);
            text::lemma_inserted_at(b, x@, key, p as int);
            let now = entry_views(all.take(it.index() + 1));
            assert(now.drop_last() =~= entry_views(all.take(it.index())));
            assert(now.last() == x@);
            assert(entry_views(out@.insert(p as int, x)) =~= b.insert(p as int, x@));
        }
        out.insert(p, x);
    }
    assert(all.take(all.len() as int) =~= all);
    out
}

/// The indentation of a level.
pub open spec fn indent(level: nat) -> Seq<char>
    decreases level,
{
    if level == 0 {
        Seq::empty()
    } else {
        indent((level - 1) as nat) + "  "@
    }
}

/// The line for an entry.
pub open spec fn entry_line(level: nat, e: EntryView) -> Seq<char> {
    if e.is_dir {
        indent(level) + e.name + "/"@
    } else {
        indent(level) + e.name
    }
}

fn write_line(level: usize, e: &Entry) -> (r: String)
    ensures
        r@ == entry_line(level as nat, e@),
{
    let mut out = String::new();
    let mut i: usize = 0;
    while i < level
        invariant
            i <= level,
            out@ == indent(i as nat),
        decreases level - i,
    {
        out.append("  ");
        i += 1;
    }
    out.append(e.name.as_str());
    if e.is_dir {
        out.append("/");
    }
    out
}

/// A directory on the way: its path, its entries in order, and how many of them are listed.
pub struct Frame {
    pub path: String,
    pub entries: Vec<Entry>,
    pub next: usize,
}

/// A directory on the way.
#[verifier::ext_equal]
pub struct FrameView {
    pub path: Seq<char>,
    pub entries: Seq<EntryView>,
    pub next: int,
}

impl Frame {
    pub open spec fn view(self) -> FrameView {
        FrameView { path: self.path@, entries: entry_views(self.entries@), next: self.next as int }
    }
}

/// What the frames of a list are.
pub open spec fn frame_views(v: Seq<Frame>) -> Seq<FrameView> {
    v.map_values(|f: Frame| f@)
}

/// The path of an entry of a directory.
pub open spec fn child(path: Seq<char>, name: Seq<char>) -> Seq<char> {
    path + "/"@ + name
}

/// A listing under way.
#[verifier::ext_equal]
pub struct ListState {
    pub depth: nat,
    pub lines: Seq<Seq<char>>,
    /// The directories from the first down to the one at hand.
    pub stack: Seq<FrameView>,
    /// The directory whose entries are to be read next.
    pub wanted: Option<Seq<char>>,
}

impl ListState {
    /// Whether nothing is left to do until a directory was read.
    pub open spec fn resting(self) -> bool {
        self.wanted is Some || self.stack.len() == 0 || self.lines.len() >= MAX_LIST_ENTRIES
    }

    /// One step: an entry is listed, or a directory whose entries are all listed is left.
    pub open spec fn step(self) -> ListState {
        let top = self.stack.last();
        if self.resting() {
            self
        } else if top.next >= top.entries.len() {
            ListState { stack: self.stack.drop_last(), ..self }
        } else {
            let e = top.entries[top.next];
            let level = (self.stack.len() - 1) as nat;
            let lines = self.lines.push(entry_line(level, e));
            ListState {
                depth: self.depth,
                lines,
                stack: self.stack.drop_last().push(FrameView { next: top.next + 1, ..top }),
                wanted: if e.is_dir && level + 1 < self.depth && lines.len() < MAX_LIST_ENTRIES {
                    Some(child(top.path, e.name))
                } else {
                    None
                },
            }
        }
    }

    /// The wanted directory was read; its entries come in any order.
    pub open spec fn provided(self, entries: Seq<EntryView>) -> ListState {
        match self.wanted {
            Some(path) => ListState {
                stack: self.stack.push(
                    FrameView { path, entries: sorted_entries(entries), next: 0 },
                ),
                wanted: None,
                ..self
            },
            None => self,
        }
    }

    /// The frames are as they can be.
    pub open spec fn inv(self) -> bool {
        &&& forall|i: int|
            0 <= i < self.stack.len() ==> 0 <= (#[trigger] self.stack[i]).next
                <= self.stack[i].entries.len()
        &&& self.lines.len() <= MAX_LIST_ENTRIES
        &&& self.stack.len() <= self.depth + 1
    }
}

/// A listing of a directory, which reads directories only as long as it needs them: `advance`
/// tells which one is to be read next, and `provide` takes its entries in.
pub struct Listing {
    depth: usize,
    lines: Vec<String>,
    stack: Vec<Frame>,
    wanted: Option<String>,
}

impl Listing {
    /// The state of the listing.
    pub closed spec fn state(self) -> ListState {
        ListState {
            depth: self.depth as nat,
            lines: text::views(self.lines@),
            stack: frame_views(self.stack@),
            wanted: text::opt_view(self.wanted),
        }
    }

    /// A listing of the directory at `path`, to the given depth (one, where none is given). The
    /// directory is wanted first.
    pub fn new(path: &str, depth: Option<usize>) -> (r: Listing)
        ensures
            r.state() == (ListState {
                depth: match depth {
                    Some(d) => d as nat,
                    None => 1,
                },
                lines: Seq::empty(),
                stack: Seq::empty(),
                wanted: Some(path@),
            }),
            r.state().inv(),
    {
        let depth: usize = match depth {
            Some(d) => d,
            None => 1,
        };
        let r = Listing {
            depth,
            lines: Vec::new(),
            stack: Vec::new(),
            wanted: Some(path.to_owned()),
        };
        assert(r.state().lines =~= Seq::<Seq<char>>::empty());
        assert(r.state().stack =~= Seq::<FrameView>::empty());
        r
    }

    /// The directory whose entries are to be read next; none where the listing is complete.
    pub fn wanted(&self) -> (r: Option<&str>)
        ensures
            match r {
                Some(s) => self.state().wanted == Some(s@),
                None => self.state().wanted is None,
            },
    {
        match &self.wanted {
            Some(s) => Some(s.as_str()),
            None => None,
        }
    }

    /// Takes in the entries of the wanted directory; none where it cannot be read. Then lists as
    /// far as it can.
    pub fn provide(&mut self, entries: Vec<Entry>)
        requires
            old(self).state().inv(),
            old(self).state().wanted is Some,
            old(self).state().stack.len() <= old(self).state().depth,
        ensures
            final(self).state().inv(),
            final(self).state().resting(),
            reaches(
                old(self).state().provided(entry_views(entries@)),
                final(self).state(),
            ),
            final(self).state().wanted is Some ==> final(self).state().stack.len()
                <= final(self).state().depth,
    {
        let ghost start = self.state().provided(entry_views(entries@));
        let sorted = sort_entries(entries);
        let path = match self.wanted.take() {
            Some(p) => p,
            None => String::new(),
        };
        let f = Frame { path, entries: sorted, next: 0 };
        let ghost before = frame_views(self.stack@);
        self.stack.push(f);
        proof {
            assert(frame_views(self.stack@) =~= before.push(f@));
            assert(self.state() =~= start);
            assert(self.state().inv()) by {
                assert forall|i: int| 0 <= i < self.state().stack.len() implies 0 <= (
                #[trigger] self.state().stack[i]).next <= self.state().stack[i].entries.len() by {
                    if i < before.len() {
                        assert(before[i].next >= 0);
                    }
                }
            }
            assert(steps(start, 0) == start);
        }
        let ghost mut n: nat = 0;
        while self.wanted.is_none() && self.stack.len() > 0 && self.lines.len() < MAX_LIST_ENTRIES
            invariant
                self.state().inv(),
                self.state() == steps(start, n),
                self.state().wanted is Some ==> self.state().stack.len() <= self.state().depth,
            decreases
                MAX_LIST_ENTRIES - self.lines.len(),
                self.stack.len(),
        {
            let ghost s = self.state();
            self.step();
            proof {
                n = n + 1;
                lemma_step_inv(s);
            }
        }
        assert(reaches(start, self.state()));
    }

    fn step(&mut self)
        requires
            old(self).state().inv(),
            !old(self).state().resting(),
        ensures
            final(self).state() == old(self).state().step(),
            final(self).lines.len() > old(self).lines.len() || (final(self).lines.len() == old(
                self,
            ).lines.len() && final(self).stack.len() < old(self).stack.len()),
    {
        let ghost s = self.state();
        let level: usize = self.stack.len() - 1;
        assert(s.stack.last() == self.stack@[level as int]@);
        match self.stack.pop() {
            Some(mut top) => {
                assert(frame_views(self.stack@) =~= s.stack.drop_last());
                assert(s.stack[level as int].next >= 0);
                if top.next >= top.entries.len() {
                    assert(self.state() =~= s.step());
                } else {
                    let e = &top.entries[top.next];
                    let line = write_line(level, e);
                    proof {
                        text::lemma_views_push(self.lines@, line);
                        assert(s.stack.last().entries[top.next as int] == e@);
                    }
                    self.lines.push(line);
                    if e.is_dir && level + 1 < self.depth && self.lines.len() < MAX_LIST_ENTRIES {
                        let mut p = text::concat2(top.path.as_str(), "/");
                        p.append(e.name.as_str());
                        self.wanted = Some(p);
                    }
                    let ghost was = top@;
                    top.next = top.next + 1;
                    self.stack.push(top);
                    proof {
                        assert(top@ =~= FrameView { next: was.next + 1, ..was });
                        assert(frame_views(self.stack@) =~= s.stack.drop_last().push(top@));
                        assert(self.state() =~= s.step());
                    }
                }
            },
            None => {},
        }
    }

    /// The listing as text, with a note where it was cut.
    pub fn finish(self) -> (r: String)
        ensures
            r@ == listing_text(self.state().lines),
    {
        let mut lines = self.lines;
        if lines.len() >= MAX_LIST_ENTRIES {
            let n = text::decimal_of(MAX_LIST_ENTRIES as u64);
            let note = text::concat3("…[capped at ", n.as_str(), " entries]");
            proof {
                text::lemma_views_push(lines@, note);
            }
            lines.push(note);
        }
        text::join(&lines, "\n")
    }
}

/// The state after `n` steps.
pub open spec fn steps(s: ListState, n: nat) -> ListState
    decreases n,
{
    if n == 0 {
        s
    } else {
        steps(s, (n - 1) as nat).step()
    }
}

/// Whether steps lead from one state to another.
pub open spec fn reaches(from: ListState, to: ListState) -> bool {
    exists|n: nat| #[trigger] steps(from, n) == to
}

proof fn lemma_step_inv(s: ListState)
    requires
        s.inv(),
        !s.resting(),
    ensures
        s.step().inv(),
        s.step().wanted is Some ==> s.step().stack.len() <= s.step().depth,
{
    let t = s.step();
    assert forall|i: int| 0 <= i < t.stack.len() implies 0 <= (#[trigger] t.stack[i]).next
        <= t.stack[i].entries.len() by {
        assert(0 <= s.stack[i].next <= s.stack[i].entries.len());
    }
}

/// A listing as text, with a note where it was cut.
pub open spec fn listing_text(lines: Seq<Seq<char>>) -> Seq<char> {
    if lines.len() >= MAX_LIST_ENTRIES {
        text::joined(
            lines.push("…[capped at "@ + text::decimal(MAX_LIST_ENTRIES as nat) + " entries]"@),
            "\n"@,
        )
    } else {
        text::joined(lines, "\n"@)
    }
}

/// The lines for the entries of a directory from the `i`-th on, at a level: each entry, and below
/// a directory the lines for its entries, as deep as `depth` allows. `fs` tells the entries of
/// each directory, by its path.
pub open spec fn tree_lines(
    fs: spec_fn(Seq<char>) -> Seq<EntryView>,
    depth: nat,
    level: nat,
    path: Seq<char>,
    entries: Seq<EntryView>,
    i: int,
) -> Seq<Seq<char>>
    decreases
        depth + 1 - level,
        entries.len() - i,
{
    if i < 0 || i >= entries.len() {
        Seq::empty()
    } else {
        let e = entries[i];
        let p = child(path, e.name);
        seq![entry_line(level, e)] + (if e.is_dir && level + 1 < depth {
            tree_lines(fs, depth, level + 1, p, sorted_entries(fs(p)), 0)
        } else {
            Seq::empty()
        }) + tree_lines(fs, depth, level, path, entries, i + 1)
    }
}

/// The lines for a whole directory.
pub open spec fn dir_lines(
    fs: spec_fn(Seq<char>) -> Seq<EntryView>,
    depth: nat,
    path: Seq<char>,
) -> Seq<Seq<char>> {
    tree_lines(fs, depth, 0, path, sorted_entries(fs(path)), 0)
}

/// The lines that a state has yet to list, from the directory at hand up to the first.
pub open spec fn lines_left(
    fs: spec_fn(Seq<char>) -> Seq<EntryView>,
    depth: nat,
    stack: Seq<FrameView>,
) -> Seq<Seq<char>>
    decreases stack.len(),
{
    if stack.len() == 0 {
        Seq::empty()
    } else {
        let f = stack.last();
        tree_lines(fs, depth, (stack.len() - 1) as nat, f.path, f.entries, f.next) + lines_left(
            fs,
            depth,
            stack.drop_last(),
        )
    }
}

/// All lines of a state: those listed and those to come, the wanted directory's among them.
pub open spec fn total_lines(fs: spec_fn(Seq<char>) -> Seq<EntryView>, s: ListState) -> Seq<
    Seq<char>,
> {
    match s.wanted {
        Some(p) => s.lines + tree_lines(
            fs,
            s.depth,
            s.stack.len(),
            p,
            sorted_entries(fs(p)),
            0,
        ) + lines_left(fs, s.depth, s.stack),
        None => s.lines + lines_left(fs, s.depth, s.stack),
    }
}

proof fn lemma_step_total(fs: spec_fn(Seq<char>) -> Seq<EntryView>, s: ListState)
    requires
        s.inv(),
        !s.resting(),
        s.lines.len() + 1 < MAX_LIST_ENTRIES || s.stack.last().next >= s.stack.last().entries.len(),
    ensures
        total_lines(fs, s.step()) == total_lines(fs, s),
{
    let top = s.stack.last();
    let t = s.step();
    let level = (s.stack.len() - 1) as nat;
    assert(s.stack[level as int].next >= 0);
    if top.next >= top.entries.len() {
        assert(total_lines(fs, t) =~= total_lines(fs, s));
    } else {
        let e = top.entries[top.next];
        assert(t.stack.drop_last() =~= s.stack.drop_last());
        let up = lines_left(fs, s.depth, s.stack.drop_last());
        let rest = tree_lines(fs, s.depth, level, top.path, top.entries, top.next + 1);
        assert(lines_left(fs, s.depth, t.stack) == rest + up);
        if e.is_dir && level + 1 < s.depth {
            let p = child(top.path, e.name);
            let below = tree_lines(fs, s.depth, level + 1, p, sorted_entries(fs(p)), 0);
            assert(total_lines(fs, t) =~= s.lines + (seq![entry_line(level, e)] + below + rest)
                + up);
            assert(total_lines(fs, s) =~= total_lines(fs, t));
        } else {
            assert(total_lines(fs, s) =~= s.lines + ((seq![entry_line(level, e)]
                + Seq::<Seq<char>>::empty() + rest) + up));
            assert(total_lines(fs, t) =~= total_lines(fs, s));
        }
    }
}

proof fn lemma_steps_total(fs: spec_fn(Seq<char>) -> Seq<EntryView>, s: ListState, n: nat)
    requires
        s.inv(),
    ensures
        steps(s, n).inv(),
        steps(s, n).depth == s.depth,
        text::capped(total_lines(fs, steps(s, n)), MAX_LIST_ENTRIES as int) == text::capped(
            total_lines(fs, s),
            MAX_LIST_ENTRIES as int,
        ),
    decreases n,
{
    if n > 0 {
        lemma_steps_total(fs, s, (n - 1) as nat);
        let b = steps(s, (n - 1) as nat);
        if !b.resting() {
            lemma_step_inv(b);
            let top = b.stack.last();
            if b.lines.len() + 1 < MAX_LIST_ENTRIES || top.next >= top.entries.len() {
                lemma_step_total(fs, b);
            } else {
                let level = (b.stack.len() - 1) as nat;
                assert(b.stack[level as int].next >= 0);
                let e = top.entries[top.next];
                let line = entry_line(level, e);
                let t = b.step();
                let tb = total_lines(fs, b);
                let tt = total_lines(fs, t);
                let lb = tree_lines(fs, b.depth, level, top.path, top.entries, top.next);
                assert(lb[0] == line);
                assert(tb[b.lines.len() as int] == line);
                assert(text::capped(tb, MAX_LIST_ENTRIES as int) =~= b.lines.push(line));
                assert(text::capped(tt, MAX_LIST_ENTRIES as int) =~= b.lines.push(line));
            }
        }
    }
}

/// Taking the entries in as the file system has them changes nothing of what is to be listed.
pub proof fn providing_keeps_the_lines(
    fs: spec_fn(Seq<char>) -> Seq<EntryView>,
    s: ListState,
    after: ListState,
)
    requires
        s.inv(),
        s.wanted is Some,
        s.stack.len() <= s.depth,
        reaches(s.provided(fs(s.wanted->0)), after),
    ensures
        text::capped(total_lines(fs, after), MAX_LIST_ENTRIES as int) == text::capped(
            total_lines(fs, s),
            MAX_LIST_ENTRIES as int,
        ),
{
    let p = s.wanted->0;
    let b = s.provided(fs(p));
    assert(b.inv()) by {
        assert forall|i: int| 0 <= i < b.stack.len() implies 0 <= (#[trigger] b.stack[i]).next
            <= b.stack[i].entries.len() by {
            if i < s.stack.len() {
                assert(s.stack[i].next >= 0);
            }
        }
    }
    assert(b.stack.drop_last() =~= s.stack);
    assert(total_lines(fs, b) =~= total_lines(fs, s));
    let n = choose|n: nat| #[trigger] steps(b, n) == after;
    lemma_steps_total(fs, b, n);
}

/// A complete listing holds the lines of the directory tree, at most as many as a listing may
/// have.
pub proof fn complete_listing_is_the_tree(
    fs: spec_fn(Seq<char>) -> Seq<EntryView>,
    path: Seq<char>,
    s: ListState,
)
    requires
        s.inv(),
        s.resting(),
        s.wanted is None,
        text::capped(total_lines(fs, s), MAX_LIST_ENTRIES as int) == text::capped(
            total_lines(
                fs,
                ListState {
                    depth: s.depth,
                    lines: Seq::empty(),
                    stack: Seq::empty(),
                    wanted: Some(path),
                },
            ),
            MAX_LIST_ENTRIES as int,
        ),
    ensures
        s.lines == text::capped(dir_lines(fs, s.depth, path), MAX_LIST_ENTRIES as int),
{
    let first = ListState {
        depth: s.depth,
        lines: Seq::empty(),
        stack: Seq::empty(),
        wanted: Some(path),
    };
    assert(total_lines(fs, first) =~= dir_lines(fs, s.depth, path));
    if s.stack.len() == 0 {
        assert(total_lines(fs, s) =~= s.lines);
        assert(text::capped(s.lines, MAX_LIST_ENTRIES as int) =~= s.lines);
    } else {
        assert(text::capped(total_lines(fs, s), MAX_LIST_ENTRIES as int) =~= s.lines);
    }
}

/// The window on a list of lines begins with the line that the 1-based offset names, and goes on
/// line by line, as far as the limit or the lines go.
pub proof fn window_begins_at_the_offset(lines: Seq<Seq<char>>, offset: int, limit: int)
    requires
        offset >= 1,
        limit >= 0,
    ensures
        offset > lines.len() ==> window(lines, offset, limit).len() == 0,
        offset <= lines.len() ==> window(lines, offset, limit).len() == (if limit < lines.len()
            - offset + 1 {
            limit
        } else {
            lines.len() - offset + 1
        }),
        forall|i: int|
            0 <= i < window(lines, offset, limit).len() ==> #[trigger] window(
                lines,
                offset,
                limit,
            )[i] == lines[offset - 1 + i],
{
}

/// Reading on where a window ended gives the lines that a larger window would have given.
pub proof fn windows_go_on(lines: Seq<Seq<char>>, offset: int, first: int, more: int)
    requires
        offset >= 1,
        first >= 0,
        more >= 0,
    ensures
        window(lines, offset, first) + window(lines, offset + first, more) == window(
            lines,
            offset,
            first + more,
        ),
{
    assert(window(lines, offset, first) + window(lines, offset + first, more) =~= window(
        lines,
        offset,
        first + more,
    ));
}

/// What is shown of a text from a line on: this line and those behind it, as many as asked for,
/// and a note of how many more follow; where none follow, the line feed that ends the text. An
/// offset behind the last line is told.
pub proof fn shown_text_begins_at_the_offset(s: Seq<char>, offset: int, limit: int)
    requires
        offset >= 1,
        limit >= 1,
    ensures
        ({
            let lines = text::all_lines(s);
            let end = if limit < lines.len() - offset + 1 {
                offset - 1 + limit
            } else {
                lines.len() as int
            };
            if offset > lines.len() {
                shown(s, offset, limit) == "[offset "@ + text::decimal(offset as nat)
                    + " past end of file: "@ + text::decimal(lines.len()) + " lines]"@
            } else {
                let part = text::joined(lines.subrange(offset - 1, end), "\n"@);
                let whole = if end < lines.len() {
                    part + "\n…["@ + text::decimal((lines.len() - end) as nat) + " more lines]"@
                } else if s[s.len() - 1] == '\n' {
                    part + seq!['\n']
                } else {
                    part
                };
                &&& lines[offset - 1].is_prefix_of(whole)
                &&& shown(s, offset, limit) == tools::truncated(whole, 51200)
            }
        }),
{
    let lines = text::all_lines(s);
    if offset <= lines.len() {
        let end = if limit < lines.len() - offset + 1 {
            offset - 1 + limit
        } else {
            lines.len() as int
        };
        let w = window(lines, offset, limit);
        assert(w =~= lines.subrange(offset - 1, end));
        let part = text::joined(w, "\n"@);
        assert(s.len() > 0) by {
            if s.len() == 0 {
                assert(lines.len() == 0);
            }
        }
        assert(part.push('\n') =~= part + seq!['\n']);
        lemma_joined_begins(w, "\n"@);
        let whole = if end < lines.len() {
            part + "\n…["@ + text::decimal((lines.len() - end) as nat) + " more lines]"@
        } else if s[s.len() - 1] == '\n' {
            part + seq!['\n']
        } else {
            part
        };
        assert(whole.take(w[0].len() as int) =~= part.take(w[0].len() as int));
    }
}

proof fn lemma_joined_begins(parts: Seq<Seq<char>>, sep: Seq<char>)
    requires
        parts.len() > 0,
    ensures
        parts[0].is_prefix_of(text::joined(parts, sep)),
{
    let j = text::joined(parts, sep);
    if parts.len() > 1 {
        text::joining_keeps_every_part(parts.take(1), parts.skip(1), sep);
        assert(parts.take(1) + parts.skip(1) =~= parts);
    }
    assert(j.take(parts[0].len() as int) =~= parts[0]);
}

proof fn lemma_lines_and_feeds(s: Seq<char>)
    requires
        s.len() > 0,
        !s.contains('\r'),
    ensures
        text::all_lines(s).len() > 0,
        s.last() == '\n' ==> text::joined(text::all_lines(s), seq!['\n']) + seq!['\n'] == s,
        s.last() != '\n' ==> text::joined(text::all_lines(s), seq!['\n']) == s,
    decreases s.len(),
{
    let nl = seq!['\n'];
    if !s.contains('\n') {
        text::lines_come_one_after_the_other(s, Seq::empty());
        assert(s[s.len() - 1] != '\n');
    } else {
        let i = s.index_of_first('\n')->0;
        s.index_of_first_ensures('\n');
        let a = s.take(i);
        let b = s.skip(i + 1);
        assert(s =~= a + nl + b);
        assert(!a.contains('\n'));
        assert(a.len() > 0 ==> a[a.len() - 1] == s[i - 1]);
        text::lines_come_one_after_the_other(a, b);
        let lines = text::all_lines(s);
        if b.len() == 0 {
            text::lines_come_one_after_the_other(b, b);
            assert(lines =~= seq![a]);
            assert(s =~= a + nl);
        } else {
            assert(!b.contains('\r')) by {
                if b.contains('\r') {
                    let k = choose|k: int| 0 <= k < b.len() && b[k] == '\r';
                    assert(s[i + 1 + k] == '\r');
                }
            }
            lemma_lines_and_feeds(b);
            let rest = text::all_lines(b);
            text::joining_keeps_every_part(seq![a], rest, nl);
            assert(b.last() == s.last());
            if s.last() == '\n' {
                assert(text::joined(lines, nl) + nl =~= a + nl + (text::joined(rest, nl) + nl));
            }
        }
    }
}

/// A text file that is neither empty nor too long is shown as it is, where all its lines are
/// asked for.
pub proof fn whole_file_is_shown_as_it_is(s: Seq<char>, limit: int)
    requires
        s.len() > 0,
        !s.contains('\r'),
        encode_utf8(s).len() <= 51200,
        limit >= text::all_lines(s).len(),
    ensures
        shown(s, 1, limit) == s,
{
    reveal_strlit("\n");
    assert("\n"@ =~= seq!['\n']);
    lemma_lines_and_feeds(s);
    let lines = text::all_lines(s);
    shown_text_begins_at_the_offset(s, 1, limit);
    assert(lines.subrange(0, lines.len() as int) =~= lines);
    tools::truncation_keeps_all_that_fits(s, 51200);
}

/// A number that is given counts, but for zero, which counts as one.
pub proof fn given_numbers_count(n: usize, default: int)
    ensures
        at_least_one(None, default) == default,
        n > 0 ==> at_least_one(Some(n), default) == n,
        n == 0 ==> at_least_one(Some(n), default) == 1,
        DEFAULT_LINE_LIMIT == 2000,
{
}

/// A file is read up to ten mebibytes; a larger one is refused, and the refusal tells its length
/// and name.
pub proof fn files_are_read_up_to_the_limit(len: nat, path: Seq<char>, hint: Seq<char>)
    ensures
        size_checked(len, path, hint) == (if len <= 10 * 1024 * 1024 {
            Ok::<(), ErrorView>(())
        } else {
            Err(
                ErrorView::Tool(
                    "file too large ("@ + text::decimal(len) + " bytes, max "@ + text::decimal(
                        10 * 1024 * 1024,
                    ) + "): "@ + path + hint,
                ),
            )
        }),
{
}

/// The way of writing: nothing said and `overwrite` replace, `append` appends, `create` writes
/// only where there is no file, and any other word is refused.
pub proof fn write_modes_by_word(exists_: bool, path: Seq<char>, word: Seq<char>)
    ensures
        write_mode(None, exists_, path) == Ok::<WriteMode, ErrorView>(WriteMode::Replace),
        write_mode(Some("overwrite"@), exists_, path) == Ok::<WriteMode, ErrorView>(
            WriteMode::Replace,
        ),
        write_mode(Some("append"@), exists_, path) == Ok::<WriteMode, ErrorView>(WriteMode::Append),
        write_mode(Some("create"@), false, path) == Ok::<WriteMode, ErrorView>(WriteMode::Replace),
        write_mode(Some("create"@), true, path) == Err::<WriteMode, ErrorView>(
            ErrorView::Tool("file already exists: "@ + path),
        ),
        word != "create"@ && word != "overwrite"@ && word != "append"@ ==> write_mode(
            Some(word),
            exists_,
            path,
        ) == Err::<WriteMode, ErrorView>(ErrorView::Tool("unknown write mode: "@ + word)),
{
    reveal_strlit("create");
    reveal_strlit("overwrite");
    reveal_strlit("append");
    assert("create"@.len() == 6 && "overwrite"@.len() == 9 && "append"@.len() == 6);
    assert("create"@[0] == 'c' && "append"@[0] == 'a');
}

/// An edit replaces every place of the string: the text is made of pieces with the string between
/// them, none of which holds it, and what comes out is these pieces with the replacement between
/// them. There are as many places as expected, and each is the first one behind the place before
/// it.
pub proof fn edit_replaces_every_place(
    content: Seq<char>,
    find: Seq<char>,
    with: Seq<char>,
    n: nat,
    path: Seq<char>,
)
    requires
        edited(content, find, with, n, path) is Ok,
    ensures
        ({
            let r = edited(content, find, with, n, path)->Ok_0;
            &&& find.len() > 0
            &&& n > 0
            &&& r.len() == content.len() + n * (with.len() - find.len())
            &&& exists|pieces: Seq<Seq<char>>|
                {
                    &&& #[trigger] text::joined(pieces, find) == content
                    &&& pieces.len() == n + 1
                    &&& r == text::joined(pieces, with)
                    &&& forall|i: int, j: int|
                        0 <= i < n && 0 <= j < pieces[i].len() ==> !(#[trigger] text::matches_at(
                            pieces[i] + find,
                            find,
                            j,
                        ))
                    &&& !text::contains_text(pieces[n as int], find)
                }
        }),
{
    text::replacing_joins_the_pieces(content, find, with, n);
}

/// An edit is made exactly where the string occurs, and as often as expected; the refusal tells
/// what is wrong.
pub proof fn edit_is_made_where_the_count_is_right(
    content: Seq<char>,
    find: Seq<char>,
    with: Seq<char>,
    n: nat,
    path: Seq<char>,
)
    ensures
        edited(content, find, with, n, path) is Ok <==> find.len() > 0 && n > 0
            && text::occurrences(content, find, 0) == n,
        find.len() == 0 ==> edited(content, find, with, n, path) == Err::<Seq<char>, ErrorView>(
            ErrorView::Tool("old_string must not be empty"@),
        ),
        find.len() > 0 && !text::contains_text(content, find) ==> edited(
            content,
            find,
            with,
            n,
            path,
        ) == Err::<Seq<char>, ErrorView>(ErrorView::Tool("old_string not found in "@ + path)),
        find.len() > 0 && text::contains_text(content, find) && text::occurrences(content, find, 0)
            != n ==> edited(content, find, with, n, path) == Err::<Seq<char>, ErrorView>(
            ErrorView::Tool(
                "old_string occurs "@ + text::decimal(text::occurrences(content, find, 0))
                    + " times in "@ + path + ", expected "@ + text::decimal(n)
                    + " - make it more specific or adjust expected_replacements"@,
            ),
        ),
{
    if find.len() > 0 {
        text::replacing_joins_the_pieces(content, find, with, 0);
        let pieces = choose|pieces: Seq<Seq<char>>|
            {
                &&& #[trigger] text::joined(pieces, find) == content
                &&& pieces.len() == 1
                &&& (0 == text::occurrences(content, find, 0) <==> !text::contains_text(
                    pieces[0],
                    find,
                ))
            };
        assert(pieces[0] == content);
    }
}

/// Where nothing is said, a string is expected once.
pub proof fn one_replacement_is_expected(n: usize)
    ensures
        expectation(None) == 1,
        expectation(Some(n)) == n,
{
}

/// A level is indented by two spaces more than the level above it, and a line is the indentation,
/// the name, and a slash for a directory.
pub proof fn lines_are_indented_by_level(level: nat, e: EntryView)
    ensures
        entry_line(level, e).len() == 2 * level + e.name.len() + (if e.is_dir {
            1nat
        } else {
            0
        }),
        forall|i: int| 0 <= i < 2 * level ==> #[trigger] entry_line(level, e)[i] == ' ',
        forall|i: int|
            0 <= i < e.name.len() ==> #[trigger] entry_line(level, e)[2 * level + i] == e.name[i],
        e.is_dir ==> entry_line(level, e)[entry_line(level, e).len() - 1] == '/',
{
    reveal_strlit("/");
    lemma_indent(level);
}

proof fn lemma_indent(level: nat)
    ensures
        indent(level).len() == 2 * level,
        forall|i: int| 0 <= i < 2 * level ==> #[trigger] indent(level)[i] == ' ',
    decreases level,
{
    reveal_strlit("  ");
    if level > 0 {
        lemma_indent((level - 1) as nat);
    }
}

/// The tree of a directory holds the entries one after the other: the lines for entries are those
/// for the first of them and then those for the others, and the lines for one entry are its line
/// and, below a directory that is not too deep, those for all its entries in order.
pub proof fn tree_lists_every_entry(
    fs: spec_fn(Seq<char>) -> Seq<EntryView>,
    depth: nat,
    level: nat,
    path: Seq<char>,
    a: Seq<EntryView>,
    b: Seq<EntryView>,
    e: EntryView,
)
    ensures
        tree_lines(fs, depth, level, path, Seq::empty(), 0).len() == 0,
        tree_lines(fs, depth, level, path, a + b, 0) == tree_lines(fs, depth, level, path, a, 0)
            + tree_lines(fs, depth, level, path, b, 0),
        tree_lines(fs, depth, level, path, seq![e], 0) == seq![entry_line(level, e)] + (if e.is_dir
            && level + 1 < depth {
            tree_lines(
                fs,
                depth,
                level + 1,
                path + "/"@ + e.name,
                sorted_entries(fs(path + "/"@ + e.name)),
                0,
            )
        } else {
            Seq::<Seq<char>>::empty()
        }),
        dir_lines(fs, depth, path) == tree_lines(fs, depth, 0, path, sorted_entries(fs(path)), 0),
{
    lemma_tree_concat(fs, depth, level, path, a, b, 0);
    let one = seq![e];
    assert(tree_lines(fs, depth, level, path, one, 1) =~= Seq::<Seq<char>>::empty());
    let sub = if e.is_dir && level + 1 < depth {
        tree_lines(
            fs,
            depth,
            level + 1,
            child(path, e.name),
            sorted_entries(fs(child(path, e.name))),
            0,
        )
    } else {
        Seq::empty()
    };
    assert(one[0] == e);
    assert(tree_lines(fs, depth, level, path, one, 0) =~= seq![entry_line(level, e)] + sub);
}

proof fn lemma_tree_concat(
    fs: spec_fn(Seq<char>) -> Seq<EntryView>,
    depth: nat,
    level: nat,
    path: Seq<char>,
    a: Seq<EntryView>,
    b: Seq<EntryView>,
    i: int,
)
    requires
        0 <= i <= a.len(),
    ensures
        tree_lines(fs, depth, level, path, a + b, i) == tree_lines(fs, depth, level, path, a, i)
            + tree_lines(fs, depth, level, path, b, 0),
    decreases a.len() - i,
{
    if i == a.len() {
        lemma_tree_shift(fs, depth, level, path, a, b, 0);
        assert(tree_lines(fs, depth, level, path, a, i) + tree_lines(fs, depth, level, path, b, 0)
            =~= tree_lines(fs, depth, level, path, b, 0));
    } else {
        lemma_tree_concat(fs, depth, level, path, a, b, i + 1);
        assert((a + b)[i] == a[i]);
        assert(tree_lines(fs, depth, level, path, a + b, i) =~= tree_lines(
            fs,
            depth,
            level,
            path,
            a,
            i,
        ) + tree_lines(fs, depth, level, path, b, 0));
    }
}

proof fn lemma_tree_shift(
    fs: spec_fn(Seq<char>) -> Seq<EntryView>,
    depth: nat,
    level: nat,
    path: Seq<char>,
    a: Seq<EntryView>,
    b: Seq<EntryView>,
    i: int,
)
    requires
        0 <= i <= b.len(),
    ensures
        tree_lines(fs, depth, level, path, a + b, a.len() + i) == tree_lines(
            fs,
            depth,
            level,
            path,
            b,
            i,
        ),
    decreases b.len() - i,
{
    if i < b.len() {
        lemma_tree_shift(fs, depth, level, path, a, b, i + 1);
        assert((a + b)[a.len() + i] == b[i]);
    }
}

/// A listing that is given the entries of each directory that it wants, until it wants none, holds
/// the lines of the tree, at most five hundred of them.
pub proof fn listing_ends_with_the_tree(
    fs: spec_fn(Seq<char>) -> Seq<EntryView>,
    depth: nat,
    path: Seq<char>,
    trace: Seq<ListState>,
)
    requires
        trace.len() > 0,
        trace[0] == (ListState {
            depth,
            lines: Seq::empty(),
            stack: Seq::empty(),
            wanted: Some(path),
        }),
        forall|i: int|
            0 <= i < trace.len() - 1 ==> {
                let s = #[trigger] trace[i];
                &&& s.wanted is Some
                &&& s.stack.len() <= s.depth
                &&& reaches(s.provided(fs(s.wanted->0)), trace[i + 1])
            },
        trace[trace.len() - 1].resting(),
        trace[trace.len() - 1].wanted is None,
    ensures
        trace[trace.len() - 1].lines == text::capped(dir_lines(fs, depth, path), 500),
{
    let n = trace.len() - 1;
    lemma_trace_total(fs, trace, n);
    complete_listing_is_the_tree(fs, path, trace[n]);
}

proof fn lemma_trace_total(
    fs: spec_fn(Seq<char>) -> Seq<EntryView>,
    trace: Seq<ListState>,
    n: int,
)
    requires
        0 <= n < trace.len(),
        trace[0].inv(),
        forall|i: int|
            0 <= i < n ==> {
                let s = #[trigger] trace[i];
                &&& s.wanted is Some
                &&& s.stack.len() <= s.depth
                &&& reaches(s.provided(fs(s.wanted->0)), trace[i + 1])
            },
    ensures
        trace[n].inv(),
        trace[n].depth == trace[0].depth,
        text::capped(total_lines(fs, trace[n]), MAX_LIST_ENTRIES as int) == text::capped(
            total_lines(fs, trace[0]),
            MAX_LIST_ENTRIES as int,
        ),
    decreases n,
{
    if n > 0 {
        lemma_trace_total(fs, trace, n - 1);
        let s = trace[n - 1];
        let t = trace[n];
        providing_keeps_the_lines(fs, s, t);
        let b = s.provided(fs(s.wanted->0));
        let k = choose|k: nat| #[trigger] steps(b, k) == t;
        assert(b.inv()) by {
            assert forall|i: int| 0 <= i < b.stack.len() implies 0 <= (#[trigger] b.stack[i]).next
                <= b.stack[i].entries.len() by {
                if i < s.stack.len() {
                    assert(s.stack[i].next >= 0);
                }
            }
        }
        lemma_steps_total(fs, b, k);
    }
}

/// A file that is not too large is shown as it decodes, from the offset on; of another, the
/// refusal tells where to look instead.
pub proof fn files_are_shown_as_they_decode(
    bytes: Seq<u8>,
    path: Seq<char>,
    offset: int,
    limit: int,
)
    ensures
        bytes.len() <= 10 * 1024 * 1024 ==> read_result(bytes, path, offset, limit) == Ok::<
            Seq<char>,
            ErrorView,
        >(shown(http::utf8_lossy(bytes), offset, limit)),
        bytes.len() > 10 * 1024 * 1024 ==> (read_result(bytes, path, offset, limit) matches Err(
            ErrorView::Tool(m),
        ) && (path + " - try grep for targeted reads"@).is_suffix_of(m)),
{
    let end = path + " - try grep for targeted reads"@;
    assert(GREP_HINT@ == " - try grep for targeted reads"@);
    if bytes.len() > 10 * 1024 * 1024 {
        let start = "file too large ("@ + text::decimal(bytes.len()) + " bytes, max "@
            + text::decimal(MAX_FILE_READ as nat) + "): "@;
        let m = start + path + GREP_HINT@;
        assert(m =~= start + end);
        assert(m.skip(start.len() as int) =~= end);
    }
}

/// A listing of fewer than five hundred lines is those lines; of more, the first five hundred are
/// shown with a note behind them. A listing goes on until it needs a directory, has listed
/// everything, or has as many lines as it may.
pub proof fn listing_shows_its_lines(lines: Seq<Seq<char>>, s: ListState)
    ensures
        lines.len() < 500 ==> listing_text(lines) == text::joined(lines, seq!['\n']),
        lines.len() >= 500 ==> listing_text(lines) == text::joined(
            lines.push("…[capped at 500 entries]"@),
            seq!['\n'],
        ),
        s.resting() <==> s.wanted is Some || s.stack.len() == 0 || s.lines.len() >= 500,
        s.resting() ==> s.step() == s,
{
    reveal_strlit("\n");
    reveal_strlit("…[capped at ");
    reveal_strlit(" entries]");
    reveal_strlit("…[capped at 500 entries]");
    assert("\n"@ =~= seq!['\n']);
    text::decimal_digits_count_ten_times(50, 0);
    text::decimal_digits_count_ten_times(5, 0);
    text::decimal_digits_count_ten_times(0, 5);
    assert(text::decimal(500) =~= seq!['5', '0', '0']);
    assert("…[capped at "@ + text::decimal(500) + " entries]"@ =~= "…[capped at 500 entries]"@);
}

} // verus!
