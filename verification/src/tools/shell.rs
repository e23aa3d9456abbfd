//! Running of shell commands: all but the running.
use crate::error::{Error, ErrorView};
use crate::json::{Json, JsonView};
use crate::providers::http;
use crate::tools::schema;
use crate::types::{ToolSpec, ToolSpecView};
use crate::{providers, text, tools};
use vstd::prelude::*;
use vstd::string::*;

verus! {

/// The longest output of a command, in bytes.
pub const MAX_OUTPUT: usize = 51200;

/// How long a command may run where nothing is said, in seconds.
pub const DEFAULT_TIMEOUT_SECS: u64 = 60;

/// How long a command may run at most, in seconds.
pub const MAX_TIMEOUT_SECS: u64 = 300;

pub struct RunShellTool;

impl RunShellTool {
    /// The tool as a provider is told of it.
    pub open spec fn description() -> ToolSpecView {
        ToolSpecView {
            name: "run_shell"@,
            description:
                "Run a shell command in the workspace root (cmd /C on Windows, sh -c elsewhere). Captures stdout+stderr."@,
            params_schema: schema::object_view(
                map![
                    "command"@ => schema::typed_view("string"@),
                    "timeout_secs"@ => schema::described_view("integer"@, "Default 60, max 300"@),
                ],
                seq![providers::jstr("command"@)],
            ),
        }
    }

    pub fn spec(&self) -> (r: ToolSpec)
        ensures
            r@ == RunShellTool::description(),
    {
        let props = Json::object().with("command", schema::typed("string")).with(
            "timeout_secs",
            schema::described("integer", "Default 60, max 300"),
        );
        ToolSpec {
            name: "run_shell".to_owned(),
            description:
                "Run a shell command in the workspace root (cmd /C on Windows, sh -c elsewhere). Captures stdout+stderr.".to_owned(),
            params_schema: schema::object(props, Json::array().and(Json::str("command"))),
        }
    }

    pub fn needs_approval(&self) -> (r: bool)
        ensures
            r,
    {
        true
    }
}

/// How long a command may run, in seconds: at least one, at most the limit.
pub open spec fn timeout_of(n: Option<u64>) -> u64 {
    match n {
        None => DEFAULT_TIMEOUT_SECS,
        Some(k) => if k < 1 {
            1
        } else if k > MAX_TIMEOUT_SECS {
            MAX_TIMEOUT_SECS
        } else {
            k
        },
    }
}

/// How long a command may run, in seconds.
pub fn timeout_secs(n: Option<u64>) -> (r: u64)
    ensures
        r == timeout_of(n),
{
    match n {
        None => DEFAULT_TIMEOUT_SECS,
        Some(k) => if k < 1 {
            1
        } else if k > MAX_TIMEOUT_SECS {
            MAX_TIMEOUT_SECS
        } else {
            k
        },
    }
}

/// What a command printed: its output, and what it printed as errors under a heading.
pub open spec fn printed(out: Seq<char>, err: Option<Seq<char>>) -> Seq<char> {
    match err {
        None => out,
        Some(e) => if out.len() == 0 {
            "[stderr]\n"@ + e
        } else {
            out + "\n"@ + "[stderr]\n"@ + e
        },
    }
}

/// The report of a command that ended. Tool results must be unmistakably the agent's own
/// execution, not something the user did; a command that failed is an error.
pub open spec fn shell_report(
    command: Seq<char>,
    success: bool,
    code: Option<i32>,
    output: Seq<char>,
) -> Result<Seq<char>, ErrorView> {
    let cut = tools::truncated(output, MAX_OUTPUT as int);
    if !success {
        Err(
            ErrorView::Tool(
                "[run_shell \""@ + command + "\" failed — exit code "@ + text::signed_decimal(
                    match code {
                        Some(c) => c as int,
                        None => -1,
                    },
                ) + "]\n"@ + cut,
            ),
        )
    } else if cut.len() == 0 {
        Ok("[output of run_shell \""@ + command + "\" — exit code 0, no output]"@)
    } else {
        Ok("[output of run_shell \""@ + command + "\" — exit code 0]\n"@ + cut)
    }
}

/// What a command printed, decoded.
pub open spec fn decoded(stdout: Seq<u8>, stderr: Seq<u8>) -> Seq<char> {
    printed(
        http::utf8_lossy(stdout),
        if stderr.len() == 0 {
            None
        } else {
            Some(http::utf8_lossy(stderr))
        },
    )
}

/// Reports a command whose output is the text `output`.
pub fn report_text(command: &str, success: bool, code: Option<i32>, output: &str) -> (r: Result<
    String,
    Error,
>)
    ensures
        tools::path_view(r) == shell_report(command@, success, code, output@),
{
    let cut = tools::truncate_output(output, MAX_OUTPUT);
    if !success {
        let c = text::signed_decimal_of(
            match code {
                Some(c) => c,
                None => -1,
            },
        );
        let mut m = text::concat3("[run_shell \"", command, "\" failed — exit code ");
        m.append(c.as_str());
        m.append("]\n");
        m.append(cut.as_str());
        return Err(Error::Tool(m));
    }
    if cut.as_str().is_empty() {
        Ok(
            text::concat3(
                "[output of run_shell \"",
                command,
                "\" — exit code 0, no output]",
            ),
        )
    } else {
        let mut m = text::concat3("[output of run_shell \"", command, "\" — exit code 0]\n");
        m.append(cut.as_str());
        Ok(m)
    }
}

/// Reports a command that ended, by what it printed.
pub fn report(
    command: &str,
    success: bool,
    code: Option<i32>,
    stdout: &[u8],
    stderr: &[u8],
) -> (r: Result<String, Error>)
    ensures
        tools::path_view(r) == shell_report(command@, success, code, decoded(stdout@, stderr@)),
{
    let mut out = http::decode_lossy(stdout);
    if stderr.len() > 0 {
        if !out.as_str().is_empty() {
            out.append("\n");
        }
        out.append("[stderr]\n");
        let e = http::decode_lossy(stderr);
        proof {
            assert(http::utf8_lossy(stdout@).len() == 0 ==> http::utf8_lossy(stdout@)
                + "[stderr]\n"@ =~= "[stderr]\n"@);
        }
        out.append(e.as_str());
    }
    report_text(command, success, code, out.as_str())
}

/// The error of a command that ran too long.
pub fn timed_out(command: &str, secs: u64) -> (r: Error)
    ensures
        r@ == ErrorView::Tool(
            "[run_shell \""@ + command@ + "\" timed out after "@ + text::decimal(secs as nat)
                + "s and was killed]"@,
        ),
{
    let n = text::decimal_of(secs);
    let mut m = text::concat3("[run_shell \"", command, "\" timed out after ");
    m.append(n.as_str());
    m.append("s and was killed]");
    Error::Tool(m)
}

/// The error of a command that could not be started.
pub fn cannot_spawn(workspace_root: &str, reason: &str) -> (r: Error)
    ensures
        r@ == ErrorView::Tool(
            "cannot spawn in workspace root "@ + workspace_root@ + ": "@ + reason@,
        ),
{
    let mut m = text::concat3("cannot spawn in workspace root ", workspace_root, ": ");
    m.append(reason);
    Error::Tool(m)
}

/// A command may run a minute where nothing is said, as long as is said elsewhere, but at least a
/// second and at most five minutes.
pub proof fn time_is_bounded(k: u64)
    ensures
        timeout_of(None) == 60,
        1 <= k <= 300 ==> timeout_of(Some(k)) == k,
        1 <= timeout_of(Some(k)) <= 300,
        k > 300 ==> timeout_of(Some(k)) == 300,
{
}

/// All that a command printed is in the report: first its output, and then, under a heading on a
/// line of its own, what it printed as errors.
pub proof fn everything_printed_is_reported(out: Seq<char>, err: Seq<char>)
    ensures
        printed(out, None) == out,
        out.len() == 0 ==> printed(out, Some(err)) == "[stderr]\n"@ + err,
        out.len() > 0 ==> printed(out, Some(err)) == out + "\n[stderr]\n"@ + err,
{
    reveal_strlit("\n");
    reveal_strlit("[stderr]\n");
    reveal_strlit("\n[stderr]\n");
    assert("\n"@ + "[stderr]\n"@ =~= "\n[stderr]\n"@);
    assert(out + "\n"@ + "[stderr]\n"@ =~= out + "\n[stderr]\n"@);
}

/// What a command printed is its output and its errors, each decoded whole.
pub proof fn both_streams_are_decoded(stdout: Seq<u8>, stderr: Seq<u8>)
    ensures
        decoded(stdout, Seq::empty()) == http::utf8_lossy(stdout),
        stderr.len() > 0 ==> decoded(stdout, stderr) == printed(
            http::utf8_lossy(stdout),
            Some(http::utf8_lossy(stderr)),
        ),
{
}

/// A command that succeeded is no error, one that failed is; both reports name the command, and
/// end with all of the output that fits. A failure tells the exit code, minus one where there is
/// none.
pub proof fn report_ends_with_the_output(command: Seq<char>, code: i32, output: Seq<char>)
    ensures
        ({
            let cut = tools::truncated(output, 51200);
            &&& output.len() > 0 ==> shell_report(command, true, Some(code), output) == Ok::<
                Seq<char>,
                ErrorView,
            >("[output of run_shell \""@ + command + "\" — exit code 0]\n"@ + cut)
            &&& output.len() == 0 ==> shell_report(command, true, Some(code), output) == Ok::<
                Seq<char>,
                ErrorView,
            >("[output of run_shell \""@ + command + "\" — exit code 0, no output]"@)
            &&& shell_report(command, false, Some(code), output) == Err::<Seq<char>, ErrorView>(
                ErrorView::Tool(
                    "[run_shell \""@ + command + "\" failed — exit code "@ + text::signed_decimal(
                        code as int,
                    ) + "]\n"@ + cut,
                ),
            )
            &&& shell_report(command, false, None, output) == shell_report(
                command,
                false,
                Some(-1i32 as i32),
                output,
            )
            &&& shell_report(command, true, None, output) == shell_report(
                command,
                true,
                Some(code),
                output,
            )
        }),
{
    tools::truncation_keeps_all_that_fits(output, 51200);
    if output.len() == 0 {
        assert(vstd::utf8::encode_utf8(output).len() == 0);
    } else if vstd::utf8::encode_utf8(output).len() > 51200 {
        reveal_strlit(" bytes]");
        assert(tools::truncated(output, 51200).len() > 0);
    }
}

} // verus!
