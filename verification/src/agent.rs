//! The tool-call loop of an agent, as a machine that is told what happened and tells what to do
//! next: the caller streams the provider's answer, asks the user and runs the tools.
use crate::error::{Error, ErrorView};
use crate::json::{Json, JsonView};
use crate::tools::ToolInfo;
use crate::types::{AgentEvent, AgentEventView, ApprovalMode, ChatEvent, ChatEventView, ContentPart, ContentPartView, Message, MessageView, Role, ToolSpecView};
use crate::{ids, json, text, tools, types};
use vstd::prelude::*;
use vstd::string::*;

verus! {

/// How many times an agent may turn to the provider in one run.
pub const DEFAULT_MAX_ITERATIONS: usize = 50;

/// What the system prompt tells the model of its work.
pub const GUIDE: &'static str = ".\nHow this works: you call tools by name; their results come back to you as tool-role \
    messages. Those results are outputs of YOUR tool calls, executed by the Supergravity \
    runtime — the user does not run tools or type commands themselves. Never describe tool \
    results as something the user did.\nAct with tools, don't just describe: when the user \
    asks you to create, change, run, find, or read something, make the tool call immediately \
    — never reply with only an explanation of what you would do. If a file or command might \
    not exist, try it and handle the error.\nThe ONLY tools that exist are the ones listed \
    above — never invent tools (e.g. no \"create_html_page\", no \"create_file\"). Never \
    write tool-call JSON or XML as plain text; issue tool calls through the function-calling \
    mechanism only. To create or change a file you MUST call write_file with path and \
    content.\nExample of a correct loop: you call run_shell {\"command\": \"echo hello\"}; a \
    tool message returns \"[output of run_shell \\\"echo hello\\\" — exit code 0]\\nhello\"; \
    you then tell the user: It printed: hello. The user ran nothing.\nRules: keep all file \
    access inside the workspace root; read before you modify; prefer small, targeted changes \
    — for editing an existing file, use edit_file with an exact old_string instead of \
    rewriting the whole file with write_file; when a tool returns an error, adapt or explain \
    instead of retrying blindly.\nPlanning: for any task with 2+ steps, maintain the visible \
    plan via update_plan — call it FIRST with your steps (exactly one in_progress), update \
    it as steps complete, and mark every step done before your final summary. Skip it only \
    for trivial one-liners.\n";

/// What the system prompt tells of the approval mode.
pub open spec fn mode_note(mode: ApprovalMode) -> Seq<char> {
    match mode {
        ApprovalMode::Manual =>
            "File writes and shell commands require explicit user approval before executing."@,
        ApprovalMode::Auto =>
            "You may write files and run shell commands without user approval."@,
    }
}

/// The system prompt.
pub open spec fn prompt(root: Seq<char>, mode: ApprovalMode, names: Seq<Seq<char>>) -> Seq<char> {
    "You are Supergravity, a coding agent.\nWorkspace root: "@ + root + "\nAvailable tools: "@
        + text::joined(names, ", "@) + GUIDE@ + mode_note(mode)
}

/// The system prompt of a run.
pub fn system_prompt(workspace_root: &str, mode: ApprovalMode, tools: &Vec<ToolInfo>) -> (r: String)
    ensures
        r@ == prompt(workspace_root@, mode, tools::tool_names(tools::tool_views(tools@))),
{
    let names = names_of(tools);
    let list = text::join(&names, ", ");
    let mut out = text::concat3(
        "You are Supergravity, a coding agent.\nWorkspace root: ",
        workspace_root,
        "\nAvailable tools: ",
    );
    out.append(list.as_str());
    out.append(GUIDE);
    match mode {
        ApprovalMode::Manual => out.append(
            "File writes and shell commands require explicit user approval before executing.",
        ),
        ApprovalMode::Auto => out.append(
            "You may write files and run shell commands without user approval.",
        ),
    }
    out
}

fn names_of(tools: &Vec<ToolInfo>) -> (r: Vec<String>)
    ensures
        text::views(r@) == tools::tool_names(tools::tool_views(tools@)),
{
    let mut out: Vec<String> = Vec::new();
    let mut i: usize = 0;
    while i < tools.len()
        invariant
            i <= tools.len(),
            text::views(out@) =~= tools::tool_names(tools::tool_views(tools@)).take(i as int),
        decreases tools.len() - i,
    {
        let n = tools[i].spec.name.clone();
        proof {
            text::lemma_views_push(out@, n);
            assert(tools::tool_names(tools::tool_views(tools@))[i as int] == n@);
        }
        out.push(n);
        i += 1;
    }
    out
}

/// The arguments that a value carries under one of the keys that models use.
pub open spec fn call_args(v: JsonView) -> JsonView {
    match v.field("arguments"@) {
        Some(a) => a,
        None => match v.field("args"@) {
            Some(a) => a,
            None => match v.field("parameters"@) {
                Some(a) => a,
                None => JsonView::Object(Map::empty()),
            },
        },
    }
}

/// The name that a value carries under one of the keys that models use.
pub open spec fn call_target(v: JsonView) -> Option<Seq<char>> {
    match v.field("tool"@) {
        Some(n) => n.as_str(),
        None => v.str_field("name"@),
    }
}

/// The tool call that a value stands for: it names a known tool, and its arguments are an object.
pub open spec fn call_of(v: JsonView, names: Seq<Seq<char>>) -> Option<(Seq<char>, Seq<char>)> {
    match call_target(v) {
        Some(n) => if names.contains(n) && call_args(v) is Object {
            Some((n, json::json_text(call_args(v))))
        } else {
            None
        },
        None => None,
    }
}

/// The first tool call that a text holds from an index on: a value that begins at a brace.
pub open spec fn call_in(t: Seq<char>, names: Seq<Seq<char>>, from: int) -> Option<
    (Seq<char>, Seq<char>),
>
    decreases t.len() - from,
{
    if from < 0 || from >= t.len() {
        None
    } else if t[from] == '{' && json::json_first(t.skip(from)) is Some && call_of(
        json::json_first(t.skip(from))->0,
        names,
    ) is Some {
        call_of(json::json_first(t.skip(from))->0, names)
    } else {
        call_in(t, names, from + 1)
    }
}

/// What a found tool call holds.
pub open spec fn found_view(r: Option<(String, String)>) -> Option<(Seq<char>, Seq<char>)> {
    match r {
        Some((n, a)) => Some((n@, a@)),
        None => None,
    }
}

/// The tool call that a value stands for: it names a known tool, and its arguments are an object.
pub fn call_in_value(v: &Json, tool_names: &Vec<String>) -> (r: Option<(String, String)>)
    ensures
        found_view(r) == call_of(v@, text::views(tool_names@)),
{
    let target = match v.get("tool") {
        Some(n) => n.as_str(),
        None => v.str_field("name"),
    };
    match target {
        Some(n) => {
            if !contains_name(tool_names, n) {
                return None;
            }
            let args = match v.get("arguments") {
                Some(a) => a.copy(),
                None => match v.get("args") {
                    Some(a) => a.copy(),
                    None => match v.get("parameters") {
                        Some(a) => a.copy(),
                        None => Json::object(),
                    },
                },
            };
            if args.is_object() {
                Some((n.to_owned(), json::render(&args)))
            } else {
                None
            }
        },
        None => None,
    }
}

fn contains_name(names: &Vec<String>, n: &str) -> (r: bool)
    ensures
        r == text::views(names@).contains(n@),
{
    let mut i: usize = 0;
    while i < names.len()
        invariant
            i <= names.len(),
            forall|k: int| 0 <= k < i ==> text::views(names@)[k] != n@,
        decreases names.len() - i,
    {
        if text::str_eq(names[i].as_str(), n) {
            assert(text::views(names@)[i as int] == n@);
            return true;
        }
        i += 1;
    }
    false
}

/// Detects a tool call the model wrote as TEXT instead of using the function-calling channel (a
/// known weak-model failure mode, e.g. `{"tool": "name", "arguments": {...}}` or qwen's
/// `<tool_call>` XML). Matches only when the name is a registered tool and args parse as an
/// object.
pub fn detect_text_tool_call(t: &str, tool_names: &Vec<String>) -> (r: Option<(String, String)>)
    ensures
        found_view(r) == call_in(t@, text::views(tool_names@), 0),
{
    let cs = text::chars_of(t);
    let mut i: usize = 0;
    while i < cs.len()
        invariant
            i <= cs.len(),
            cs@ == t@,
            call_in(t@, text::views(tool_names@), 0) == call_in(
                t@,
                text::views(tool_names@),
                i as int,
            ),
        decreases cs.len() - i,
    {
        if cs[i] == '{' {
            let rest = text::string_of(&cs, i, cs.len());
            assert(t@.subrange(i as int, t@.len() as int) =~= t@.skip(i as int));
            if let Some(v) = json::parse_first(rest.as_str()) {
                let found = call_in_value(&v, tool_names);
                if found.is_some() {
                    return found;
                }
            }
        }
        i += 1;
    }
    None
}

/// What a run waits for.
#[derive(Debug, Clone, Copy, PartialEq, Eq, Structural)]
pub enum Phase {
    /// The next turn: `begin_turn`.
    Turn,
    /// The provider's answer to the messages: `opened` or `fail`.
    Stream,
    /// The next event of the answer: `on_item`, or `end_of_stream`.
    Items,
    /// The answer is complete: `end_turn`.
    Answered,
    /// The next of the answer's tool calls: `next_call`.
    Call,
    /// The user's decision on the call at hand: `on_decision`.
    Approval,
    /// The outcome of the call at hand: `on_result`.
    Execute,
    /// Nothing: the run is over.
    Over,
}

/// A tool call of the model.
pub struct ToolCall {
    pub id: String,
    pub name: String,
    pub args_json: String,
}

/// What a tool call holds.
pub struct ToolCallView {
    pub id: Seq<char>,
    pub name: Seq<char>,
    pub args_json: Seq<char>,
}

impl ToolCallView {
    /// The call as a part of the assistant's message.
    pub open spec fn part(self) -> ContentPartView {
        ContentPartView::ToolCall { id: self.id, name: self.name, args_json: self.args_json }
    }

    /// The answer to the call.
    pub open spec fn answer(self, content: Seq<char>, is_error: bool) -> ContentPartView {
        ContentPartView::ToolResult { tool_call_id: self.id, content, is_error }
    }

    /// The event that tells that the call is done.
    pub open spec fn finished(self, ok: bool, summary: Seq<char>) -> AgentEventView {
        AgentEventView::ToolCallFinished { tool_call_id: self.id, ok, summary }
    }
}

impl ToolCall {
    pub open spec fn view(self) -> ToolCallView {
        ToolCallView { id: self.id@, name: self.name@, args_json: self.args_json@ }
    }

    fn copy(&self) -> (r: ToolCall)
        ensures
            r@ == self@,
    {
        ToolCall {
            id: self.id.clone(),
            name: self.name.clone(),
            args_json: self.args_json.clone(),
        }
    }

    fn answer(&self, content: String, is_error: bool) -> (r: ContentPart)
        ensures
            r@ == self@.answer(content@, is_error),
    {
        ContentPart::ToolResult { tool_call_id: self.id.clone(), content, is_error }
    }

    fn finished(&self, ok: bool, summary: String) -> (r: AgentEvent)
        ensures
            r@ == self@.finished(ok, summary@),
    {
        AgentEvent::ToolCallFinished { tool_call_id: self.id.clone(), ok, summary }
    }
}

/// What the calls of a list hold.
pub open spec fn call_views(v: Seq<ToolCall>) -> Seq<ToolCallView> {
    v.map_values(|c: ToolCall| c@)
}

/// The calls as parts.
pub open spec fn call_parts(calls: Seq<ToolCallView>) -> Seq<ContentPartView> {
    calls.map_values(|c: ToolCallView| c.part())
}

/// The answers to calls that were cancelled.
pub open spec fn cancelled_answers(calls: Seq<ToolCallView>) -> Seq<ContentPartView> {
    calls.map_values(|c: ToolCallView| c.answer("cancelled by user"@, true))
}

/// The events that settle the cancelled calls among the answers.
pub open spec fn cancelled_events(results: Seq<ContentPartView>) -> Seq<AgentEventView>
    decreases results.len(),
{
    if results.len() == 0 {
        Seq::empty()
    } else {
        let before = cancelled_events(results.drop_last());
        match results.last() {
            ContentPartView::ToolResult { tool_call_id, content, is_error } => if content
                == "cancelled by user"@ {
                before.push(
                    AgentEventView::ToolCallFinished {
                        tool_call_id,
                        ok: false,
                        summary: "cancelled by user"@,
                    },
                )
            } else {
                before
            },
            _ => before,
        }
    }
}

/// The user's decision on a tool call.
pub enum Decision {
    /// The run was cancelled while the user was asked.
    Cancelled,
    Allow,
    Deny,
    /// The user could not be asked.
    Failed(Error),
}

/// The state of a run.
#[verifier::ext_equal]
pub struct AgentState {
    /// The system prompt and the history.
    pub prelude: Seq<MessageView>,
    /// What the provider is sent.
    pub messages: Seq<MessageView>,
    /// What the run produced.
    pub produced: Seq<MessageView>,
    /// The names of the tools, and whether they need approval.
    pub tools: Seq<(Seq<char>, bool)>,
    /// The tools as the provider is told of them.
    pub specs: Seq<ToolSpecView>,
    pub limit: nat,
    /// How many turns are left.
    pub left: nat,
    /// The text of the answer so far.
    pub text: Seq<char>,
    /// The tool calls of the answer so far.
    pub calls: Seq<ToolCallView>,
    /// The answers to the first of these calls.
    pub results: Seq<ContentPartView>,
    pub phase: Phase,
    /// The failure that ended the run.
    pub error: Option<ErrorView>,
}

/// The approval that a tool needs; none where there is no such tool.
pub open spec fn lookup(tools: Seq<(Seq<char>, bool)>, name: Seq<char>) -> Option<bool>
    decreases tools.len(),
{
    if tools.len() == 0 {
        None
    } else if tools[0].0 == name {
        Some(tools[0].1)
    } else {
        lookup(tools.drop_first(), name)
    }
}

/// The failure of a run that used up its turns.
pub open spec fn limit_error(limit: nat) -> ErrorView {
    ErrorView::Tool("max iterations ("@ + text::decimal(limit) + ") reached"@)
}

/// Arguments made one JSON object.
pub open spec fn clean_args(raw: Seq<char>) -> Seq<char> {
    types::sanitized(raw, json::parsed(raw), json::json_first(raw))
}

impl AgentState {
    /// A run at its start.
    pub open spec fn start(
        system: Seq<char>,
        history: Seq<MessageView>,
        tools: Seq<(Seq<char>, bool)>,
        specs: Seq<ToolSpecView>,
        limit: nat,
    ) -> AgentState {
        let prelude = seq![MessageView::text(Role::System, system)] + history;
        AgentState {
            prelude,
            messages: prelude,
            produced: Seq::empty(),
            tools,
            specs,
            limit,
            left: limit,
            text: Seq::empty(),
            calls: Seq::empty(),
            results: Seq::empty(),
            phase: Phase::Turn,
            error: None,
        }
    }

    /// The run over.
    pub open spec fn over(self, error: Option<ErrorView>) -> AgentState {
        AgentState { phase: Phase::Over, error, ..self }
    }

    /// A turn begins, unless none is left or the run was cancelled.
    pub open spec fn begin(self, cancelled: bool) -> (AgentState, Seq<AgentEventView>) {
        if self.left == 0 {
            self.failed(limit_error(self.limit))
        } else if cancelled {
            (self.over(Some(ErrorView::Cancelled)), seq![AgentEventView::Cancelled])
        } else {
            (
                AgentState {
                    left: (self.left - 1) as nat,
                    text: Seq::empty(),
                    calls: Seq::empty(),
                    results: Seq::empty(),
                    phase: Phase::Stream,
                    ..self
                },
                Seq::empty(),
            )
        }
    }

    /// The provider failed.
    pub open spec fn failed(self, e: ErrorView) -> (AgentState, Seq<AgentEventView>) {
        (self.over(Some(e)), seq![AgentEventView::Error(e.message())])
    }

    /// An event of the answer.
    pub open spec fn item(self, cancelled: bool, item: Result<ChatEventView, ErrorView>) -> (
        AgentState,
        Seq<AgentEventView>,
    ) {
        if cancelled {
            (self.over(Some(ErrorView::Cancelled)), seq![AgentEventView::Cancelled])
        } else {
            match item {
                Ok(ChatEventView::TextDelta(d)) => (
                    AgentState { text: self.text + d, ..self },
                    seq![AgentEventView::TextDelta(d)],
                ),
                Ok(ChatEventView::ToolCall { id, name, args_json }) => (
                    AgentState {
                        calls: self.calls.push(
                            ToolCallView { id, name, args_json: clean_args(args_json) },
                        ),
                        ..self
                    },
                    Seq::empty(),
                ),
                Ok(ChatEventView::Usage { .. }) => (self, Seq::empty()),
                Ok(ChatEventView::Error(m)) => self.failed(
                    ErrorView::Provider { status: 0, body: m },
                ),
                Ok(ChatEventView::Done) => (
                    AgentState { phase: Phase::Answered, ..self },
                    Seq::empty(),
                ),
                Err(e) => self.failed(e),
            }
        }
    }

    /// The calls of the answer: where there are none, the one that the model wrote as text.
    pub open spec fn repaired(self, repair_id: Seq<char>) -> Seq<ToolCallView> {
        match call_in(self.text, tools::tool_names(self.tools), 0) {
            Some((name, args)) => if self.calls.len() == 0 {
                seq![ToolCallView { id: repair_id, name, args_json: clean_args(args) }]
            } else {
                self.calls
            },
            None => self.calls,
        }
    }

    /// The assistant's message.
    pub open spec fn answer(self, calls: Seq<ToolCallView>) -> MessageView {
        MessageView {
            role: Role::Assistant,
            parts: (if self.text.len() == 0 {
                Seq::empty()
            } else {
                seq![ContentPartView::Text { text: self.text }]
            }) + call_parts(calls),
        }
    }

    /// The answer is complete: it ends the run, unless it calls tools.
    pub open spec fn answered(self, repair_id: Seq<char>) -> (AgentState, Seq<AgentEventView>) {
        let calls = self.repaired(repair_id);
        let m = self.answer(calls);
        let s = AgentState {
            messages: self.messages.push(m),
            produced: self.produced.push(m),
            calls,
            results: Seq::empty(),
            ..self
        };
        if calls.len() == 0 {
            (s.over(None), seq![AgentEventView::MessageDone])
        } else {
            (AgentState { phase: Phase::Call, ..s }, Seq::empty())
        }
    }

    /// The run is cancelled in the middle of its tool calls: those left are answered too, so that
    /// the history that is kept stays valid.
    pub open spec fn aborted(self) -> (AgentState, Seq<AgentEventView>) {
        let results = self.results + cancelled_answers(
            self.calls.skip(self.results.len() as int),
        );
        (
            AgentState {
                results,
                produced: self.produced.push(MessageView { role: Role::Tool, parts: results }),
                ..self
            }.over(Some(ErrorView::Cancelled)),
            cancelled_events(results).push(AgentEventView::Cancelled),
        )
    }

    /// The call at hand.
    pub open spec fn current(self) -> ToolCallView {
        self.calls[self.results.len() as int]
    }

    /// The call at hand is answered.
    pub open spec fn answer_current(self, content: Seq<char>, is_error: bool) -> AgentState {
        AgentState {
            results: self.results.push(self.current().answer(content, is_error)),
            phase: Phase::Call,
            ..self
        }
    }

    /// The next call, or the end of the turn where all are answered.
    pub open spec fn call(self, cancelled: bool) -> (AgentState, Seq<AgentEventView>) {
        if self.results.len() == self.calls.len() {
            let m = MessageView { role: Role::Tool, parts: self.results };
            (
                AgentState {
                    messages: self.messages.push(m),
                    produced: self.produced.push(m),
                    phase: Phase::Turn,
                    ..self
                },
                Seq::empty(),
            )
        } else if cancelled {
            self.aborted()
        } else {
            let c = self.current();
            let proposed = AgentEventView::ToolCallProposed {
                tool_call_id: c.id,
                name: c.name,
                args_json: c.args_json,
            };
            match lookup(self.tools, c.name) {
                None => (
                    self.answer_current("unknown tool: "@ + c.name, true),
                    seq![proposed, c.finished(false, "unknown tool: "@ + c.name)],
                ),
                Some(needs_approval) => (
                    AgentState {
                        phase: if needs_approval {
                            Phase::Approval
                        } else {
                            Phase::Execute
                        },
                        ..self
                    },
                    seq![proposed],
                ),
            }
        }
    }

    /// The user's decision.
    pub open spec fn decided(self, d: Decision) -> (AgentState, Seq<AgentEventView>) {
        match d {
            Decision::Cancelled => self.aborted(),
            Decision::Allow => (AgentState { phase: Phase::Execute, ..self }, Seq::empty()),
            Decision::Deny => (
                self.answer_current("user denied this action"@, true),
                seq![self.current().finished(false, "denied by user"@)],
            ),
            Decision::Failed(e) => (
                self.answer_current("approval error: "@ + e@.message(), true),
                seq![self.current().finished(false, "approval error: "@ + e@.message())],
            ),
        }
    }

    /// The outcome of the call at hand; none where the run was cancelled meanwhile.
    pub open spec fn result(self, r: Option<Result<Seq<char>, ErrorView>>) -> (
        AgentState,
        Seq<AgentEventView>,
    ) {
        match r {
            None => self.aborted(),
            Some(Ok(out)) => (
                self.answer_current(out, false),
                seq![self.current().finished(true, text::first_chars(out, 80))],
            ),
            Some(Err(e)) => (
                self.answer_current(e.message(), true),
                seq![self.current().finished(false, e.message())],
            ),
        }
    }

    /// Each turn that is complete has produced two messages: the calls and their answers. One
    /// more, the assistant's, stands where the calls of a turn are under way or the run ended with
    /// an answer.
    pub open spec fn counted(self) -> bool {
        let turns = self.limit - self.left;
        match self.phase {
            Phase::Turn => self.produced.len() == 2 * turns,
            Phase::Stream | Phase::Items | Phase::Answered => self.produced.len() == 2 * turns - 2,
            Phase::Call | Phase::Approval | Phase::Execute => self.produced.len() == 2 * turns - 1,
            Phase::Over => match self.error {
                None => self.produced.len() == 2 * turns - 1,
                Some(_) => self.produced.len() == 2 * turns || self.produced.len() == 2 * turns - 2,
            },
        }
    }

    /// What holds of every state of a run.
    pub open spec fn inv(self) -> bool {
        &&& self.left <= self.limit
        &&& self.counted()
        &&& self.phase != Phase::Over ==> self.messages == self.prelude + self.produced
        &&& match self.phase {
            Phase::Over => match self.error {
                None => self.produced.len() > 0 && exchanges(self.produced.drop_last())
                    && is_final_answer(self.produced.last()),
                Some(_) => exchanges(self.produced),
            },
            Phase::Call | Phase::Approval | Phase::Execute => {
                &&& self.calls.len() > 0
                &&& self.produced.len() > 0
                &&& exchanges(self.produced.drop_last())
                &&& self.produced.last().role == Role::Assistant
                &&& call_ids(self.produced.last().parts) == ids_of(self.calls)
                &&& self.results.len() <= self.calls.len()
                &&& (self.phase != Phase::Call ==> self.results.len() < self.calls.len())
                &&& only_results(self.results)
                &&& result_ids(self.results) == ids_of(self.calls.take(self.results.len() as int))
            },
            _ => exchanges(self.produced),
        }
    }
}

/// The identifiers of the tool calls among the parts.
pub open spec fn call_ids(parts: Seq<ContentPartView>) -> Seq<Seq<char>>
    decreases parts.len(),
{
    if parts.len() == 0 {
        Seq::empty()
    } else {
        match parts.last() {
            ContentPartView::ToolCall { id, .. } => call_ids(parts.drop_last()).push(id),
            _ => call_ids(parts.drop_last()),
        }
    }
}

/// The identifiers that the tool results among the parts answer.
pub open spec fn result_ids(parts: Seq<ContentPartView>) -> Seq<Seq<char>>
    decreases parts.len(),
{
    if parts.len() == 0 {
        Seq::empty()
    } else {
        match parts.last() {
            ContentPartView::ToolResult { tool_call_id, .. } => result_ids(
                parts.drop_last(),
            ).push(tool_call_id),
            _ => result_ids(parts.drop_last()),
        }
    }
}

/// Whether all parts are tool results.
pub open spec fn only_results(parts: Seq<ContentPartView>) -> bool {
    forall|i: int| 0 <= i < parts.len() ==> (#[trigger] parts[i]) is ToolResult
}

/// The identifiers of calls.
pub open spec fn ids_of(calls: Seq<ToolCallView>) -> Seq<Seq<char>> {
    calls.map_values(|c: ToolCallView| c.id)
}

/// Whether a message of tool results answers a message of the assistant: it answers each of its
/// calls, in order, and holds nothing else.
pub open spec fn answers(results: MessageView, m: MessageView) -> bool {
    &&& results.role == Role::Tool
    &&& only_results(results.parts)
    &&& result_ids(results.parts) == call_ids(m.parts)
}

/// Whether a message is an answer of the assistant that calls no tool.
pub open spec fn is_final_answer(m: MessageView) -> bool {
    m.role == Role::Assistant && call_ids(m.parts).len() == 0
}

/// Whether a list of messages is made of exchanges: the assistant calls tools, and the next
/// message answers the calls.
pub open spec fn exchanges(ms: Seq<MessageView>) -> bool
    decreases ms.len(),
{
    if ms.len() == 0 {
        true
    } else {
        &&& ms.len() >= 2
        &&& ms[ms.len() - 2].role == Role::Assistant
        &&& call_ids(ms[ms.len() - 2].parts).len() > 0
        &&& answers(ms.last(), ms[ms.len() - 2])
        &&& exchanges(ms.drop_last().drop_last())
    }
}

/// Whether a list of messages is one that providers accept behind a user's message: the assistant
/// and the tools take turns, the assistant first; each message of the assistant but the last
/// calls tools, and the next message answers each call, in order, and holds nothing else; a last
/// message of the assistant calls none.
pub open spec fn valid_history(ms: Seq<MessageView>) -> bool {
    &&& forall|i: int|
        0 <= i < ms.len() ==> (#[trigger] ms[i]).role == if i % 2 == 0 {
            Role::Assistant
        } else {
            Role::Tool
        }
    &&& forall|i: int|
        0 <= i < ms.len() - 1 && i % 2 == 0 ==> call_ids((#[trigger] ms[i]).parts).len() > 0
            && answers(ms[i + 1], ms[i])
    &&& ms.len() % 2 == 1 ==> is_final_answer(ms.last())
}

proof fn lemma_exchanges(ms: Seq<MessageView>)
    requires
        exchanges(ms),
    ensures
        ms.len() % 2 == 0,
        valid_history(ms),
    decreases ms.len(),
{
    if ms.len() > 0 {
        let t = ms.drop_last().drop_last();
        lemma_exchanges(t);
        let n = ms.len();
        assert forall|i: int| 0 <= i < n implies (#[trigger] ms[i]).role == if i % 2 == 0 {
            Role::Assistant
        } else {
            Role::Tool
        } by {
            if i < n - 2 {
                assert(t[i] == ms[i]);
            }
        }
        assert forall|i: int| 0 <= i < n - 1 && i % 2 == 0 implies call_ids(
            (#[trigger] ms[i]).parts,
        ).len() > 0 && answers(ms[i + 1], ms[i]) by {
            if i < n - 2 {
                assert(t[i] == ms[i] && t[i + 1] == ms[i + 1]);
            }
        }
    }
}

proof fn lemma_exchanges_and_answer(ms: Seq<MessageView>)
    requires
        ms.len() > 0,
        exchanges(ms.drop_last()),
        is_final_answer(ms.last()),
    ensures
        valid_history(ms),
        ms.len() % 2 == 1,
{
    let t = ms.drop_last();
    lemma_exchanges(t);
    assert forall|i: int| 0 <= i < ms.len() implies (#[trigger] ms[i]).role == if i % 2 == 0 {
        Role::Assistant
    } else {
        Role::Tool
    } by {
        if i < t.len() {
            assert(t[i] == ms[i]);
        }
    }
    assert forall|i: int| 0 <= i < ms.len() - 1 && i % 2 == 0 implies call_ids(
        (#[trigger] ms[i]).parts,
    ).len() > 0 && answers(ms[i + 1], ms[i]) by {
        assert(t[i] == ms[i] && t[i + 1] == ms[i + 1]);
    }
}

proof fn lemma_call_parts_ids(head: Seq<ContentPartView>, calls: Seq<ToolCallView>)
    requires
        call_ids(head).len() == 0,
    ensures
        call_ids(head + call_parts(calls)) == ids_of(calls),
    decreases calls.len(),
{
    let parts = head + call_parts(calls);
    if calls.len() == 0 {
        assert(parts =~= head);
        assert(call_ids(head) =~= ids_of(calls));
    } else {
        let t = calls.drop_last();
        lemma_call_parts_ids(head, t);
        assert(parts.drop_last() =~= head + call_parts(t));
        assert(parts.last() == calls.last().part());
        assert(ids_of(calls) =~= ids_of(t).push(calls.last().id));
    }
}

proof fn lemma_answer_ids(s: AgentState, calls: Seq<ToolCallView>)
    ensures
        call_ids(s.answer(calls).parts) == ids_of(calls),
{
    let head = if s.text.len() == 0 {
        Seq::empty()
    } else {
        seq![ContentPartView::Text { text: s.text }]
    };
    reveal_with_fuel(call_ids, 2);
    lemma_call_parts_ids(head, calls);
}

proof fn lemma_results_push(results: Seq<ContentPartView>, p: ContentPartView)
    requires
        only_results(results),
        p is ToolResult,
    ensures
        only_results(results.push(p)),
        result_ids(results.push(p)) == result_ids(results).push(p->tool_call_id),
{
    assert(results.push(p).drop_last() =~= results);
    assert forall|i: int| 0 <= i < results.push(p).len() implies (
    #[trigger] results.push(p)[i]) is ToolResult by {
        if i < results.len() {
            assert(results[i] is ToolResult);
        }
    }
}

proof fn lemma_cancelled_ids(results: Seq<ContentPartView>, calls: Seq<ToolCallView>)
    requires
        only_results(results),
    ensures
        only_results(results + cancelled_answers(calls)),
        result_ids(results + cancelled_answers(calls)) == result_ids(results) + ids_of(calls),
    decreases calls.len(),
{
    let all = results + cancelled_answers(calls);
    if calls.len() == 0 {
        assert(all =~= results);
        assert(result_ids(results) + ids_of(calls) =~= result_ids(results));
    } else {
        let t = calls.drop_last();
        lemma_cancelled_ids(results, t);
        let p = calls.last().answer("cancelled by user"@, true);
        assert(all =~= (results + cancelled_answers(t)).push(p));
        lemma_results_push(results + cancelled_answers(t), p);
        assert(result_ids(results) + ids_of(calls) =~= (result_ids(results) + ids_of(t)).push(
            calls.last().id,
        ));
    }
}

impl AgentState {
    proof fn lemma_close(self, results: Seq<ContentPartView>)
        requires
            self.inv(),
            self.phase == Phase::Call || self.phase == Phase::Approval || self.phase
                == Phase::Execute,
            only_results(results),
            result_ids(results) == ids_of(self.calls),
        ensures
            exchanges(
                self.produced.push(MessageView { role: Role::Tool, parts: results }),
            ),
    {
        let ms = self.produced.push(MessageView { role: Role::Tool, parts: results });
        assert(ms.drop_last() =~= self.produced);
        assert(ms[ms.len() - 2] == self.produced.last());
        assert(ids_of(self.calls).len() == self.calls.len());
    }

    proof fn lemma_aborted(self)
        requires
            self.inv(),
            self.phase == Phase::Call || self.phase == Phase::Approval || self.phase
                == Phase::Execute,
        ensures
            self.aborted().0.inv(),
    {
        let k = self.results.len() as int;
        lemma_cancelled_ids(self.results, self.calls.skip(k));
        assert(ids_of(self.calls.take(k)) + ids_of(self.calls.skip(k)) =~= ids_of(self.calls));
        self.lemma_close(self.results + cancelled_answers(self.calls.skip(k)));
    }

    proof fn lemma_answer_current(self, content: Seq<char>, is_error: bool)
        requires
            self.inv(),
            self.phase == Phase::Call || self.phase == Phase::Approval || self.phase
                == Phase::Execute,
            self.results.len() < self.calls.len(),
        ensures
            self.answer_current(content, is_error).inv(),
    {
        let k = self.results.len() as int;
        lemma_results_push(self.results, self.current().answer(content, is_error));
        assert(ids_of(self.calls.take(k + 1)) =~= ids_of(self.calls.take(k)).push(
            self.current().id,
        ));
    }

    proof fn lemma_answered(self, repair_id: Seq<char>)
        requires
            self.inv(),
            self.phase == Phase::Answered,
        ensures
            self.answered(repair_id).0.inv(),
    {
        let calls = self.repaired(repair_id);
        let m = self.answer(calls);
        lemma_answer_ids(self, calls);
        let ms = self.produced.push(m);
        assert(ms.drop_last() =~= self.produced);
        assert(self.messages.push(m) =~= self.prelude + ms);
        assert(ids_of(calls).len() == calls.len());
        assert(ids_of(calls.take(0)) =~= Seq::<Seq<char>>::empty());
    }

    proof fn lemma_call(self, cancelled: bool)
        requires
            self.inv(),
            self.phase == Phase::Call,
        ensures
            self.call(cancelled).0.inv(),
    {
        if self.results.len() == self.calls.len() {
            assert(self.calls.take(self.results.len() as int) =~= self.calls);
            self.lemma_close(self.results);
            let m = MessageView { role: Role::Tool, parts: self.results };
            assert(self.messages.push(m) =~= self.prelude + self.produced.push(m));
        } else if cancelled {
            self.lemma_aborted();
        } else {
            self.lemma_answer_current("unknown tool: "@ + self.current().name, true);
        }
    }
}

/// When a run is over, however it ended (an answer, an error, the limit, or a cancellation in the
/// middle of its tool calls), what it produced is a valid history: the assistant and the tools
/// take turns, and every tool call is answered. It ends with an answer of the assistant that calls
/// no tool exactly where no failure ended the run.
pub proof fn ended_run_is_valid(s: AgentState)
    requires
        s.inv(),
        s.phase == Phase::Over,
    ensures
        valid_history(s.produced),
        s.error is None <==> s.produced.len() > 0 && is_final_answer(s.produced.last()),
{
    if s.error is None {
        lemma_exchanges_and_answer(s.produced);
    } else {
        lemma_exchanges(s.produced);
        assert(s.produced.len() > 0 ==> s.produced[s.produced.len() - 1].role == Role::Tool);
    }
}

/// The system prompt and the history are sent, and are no part of what a run produced: the
/// messages are the prelude followed by what was produced, which holds messages of the assistant
/// and of tools only, in turns.
pub proof fn produced_is_apart_from_the_prelude(s: AgentState)
    requires
        s.inv(),
        s.phase != Phase::Over,
    ensures
        s.messages == s.prelude + s.produced,
        forall|i: int|
            0 <= i < s.produced.len() ==> (#[trigger] s.produced[i]).role == if i % 2 == 0 {
                Role::Assistant
            } else {
                Role::Tool
            },
{
    if s.phase == Phase::Call || s.phase == Phase::Approval || s.phase == Phase::Execute {
        let before = s.produced.drop_last();
        lemma_exchanges(before);
        assert forall|i: int| 0 <= i < s.produced.len() implies (#[trigger] s.produced[i]).role
            == if i % 2 == 0 {
            Role::Assistant
        } else {
            Role::Tool
        } by {
            if i < before.len() {
                assert(before[i] == s.produced[i]);
            }
        }
    } else {
        lemma_exchanges(s.produced);
    }
}

/// A run keeps what it produced: whatever happens next, the messages so far stay the beginning.
pub proof fn produced_only_grows(
    s: AgentState,
    cancelled: bool,
    item: Result<ChatEventView, ErrorView>,
    repair_id: Seq<char>,
    d: Decision,
    r: Option<Result<Seq<char>, ErrorView>>,
)
    ensures
        s.produced.is_prefix_of(s.begin(cancelled).0.produced),
        s.produced.is_prefix_of(s.item(cancelled, item).0.produced),
        s.produced.is_prefix_of(s.answered(repair_id).0.produced),
        s.produced.is_prefix_of(s.call(cancelled).0.produced),
        s.produced.is_prefix_of(s.decided(d).0.produced),
        s.produced.is_prefix_of(s.result(r).0.produced),
{
}

/// A call that is found in a text names a known tool.
pub proof fn detected_call_is_known(t: Seq<char>, names: Seq<Seq<char>>, from: int)
    requires
        call_in(t, names, from) is Some,
    ensures
        call_in(t, names, from) matches Some((name, _)) && names.contains(name),
    decreases t.len() - from,
{
    if !(t[from] == '{' && json::json_first(t.skip(from)) is Some && call_of(
        json::json_first(t.skip(from))->0,
        names,
    ) is Some) {
        detected_call_is_known(t, names, from + 1);
    }
}

/// What a run is told.
pub enum Step {
    Begin { cancelled: bool },
    Opened,
    Fail { e: ErrorView },
    Item { cancelled: bool, item: Result<ChatEventView, ErrorView> },
    EndOfStream,
    EndTurn { repair_id: Seq<char> },
    Call { cancelled: bool },
    Decided { d: Decision },
    Done { r: Option<Result<Seq<char>, ErrorView>> },
}

impl AgentState {
    /// Whether the run waits for what it is told.
    pub open spec fn accepts(self, step: Step) -> bool {
        match step {
            Step::Begin { .. } => self.phase == Phase::Turn,
            Step::Opened | Step::Fail { .. } => self.phase == Phase::Stream,
            Step::Item { .. } | Step::EndOfStream => self.phase == Phase::Items,
            Step::EndTurn { .. } => self.phase == Phase::Answered,
            Step::Call { .. } => self.phase == Phase::Call,
            Step::Decided { .. } => self.phase == Phase::Approval,
            Step::Done { .. } => self.phase == Phase::Execute,
        }
    }

    /// What the run does then: its next state, and the events that it sends.
    pub open spec fn next(self, step: Step) -> (AgentState, Seq<AgentEventView>) {
        match step {
            Step::Begin { cancelled } => self.begin(cancelled),
            Step::Opened => (AgentState { phase: Phase::Items, ..self }, Seq::empty()),
            Step::Fail { e } => self.failed(e),
            Step::Item { cancelled, item } => self.item(cancelled, item),
            Step::EndOfStream => (AgentState { phase: Phase::Answered, ..self }, Seq::empty()),
            Step::EndTurn { repair_id } => self.answered(repair_id),
            Step::Call { cancelled } => self.call(cancelled),
            Step::Decided { d } => self.decided(d),
            Step::Done { r } => self.result(r),
        }
    }

    /// The state after a list of steps, and all events sent.
    pub open spec fn after(self, steps: Seq<Step>) -> (AgentState, Seq<AgentEventView>)
        decreases steps.len(),
    {
        if steps.len() == 0 {
            (self, Seq::empty())
        } else {
            let (s, sent) = self.after(steps.drop_last());
            let (t, more) = s.next(steps.last());
            (t, sent + more)
        }
    }

    /// Whether each step is one that the run then waits for.
    pub open spec fn admits(self, steps: Seq<Step>) -> bool
        decreases steps.len(),
    {
        steps.len() > 0 ==> {
            &&& self.admits(steps.drop_last())
            &&& self.after(steps.drop_last()).0.accepts(steps.last())
        }
    }
}

/// Whether an event tells that a run is over.
pub open spec fn is_closing(e: AgentEventView) -> bool {
    e is MessageDone || e is Error || e is Cancelled
}

/// Whether no event of a list tells that the run is over.
pub open spec fn none_closing(events: Seq<AgentEventView>) -> bool {
    forall|i: int| 0 <= i < events.len() ==> !is_closing(#[trigger] events[i])
}

/// Whether a provider reports that it was cancelled, which only the user does.
pub open spec fn blames_the_user(step: Step) -> bool {
    match step {
        Step::Fail { e } => e == ErrorView::Cancelled,
        Step::Item { cancelled, item: Err(e) } => !cancelled && e == ErrorView::Cancelled,
        _ => false,
    }
}

/// The event that tells how a run ended.
pub open spec fn closing_event(error: Option<ErrorView>) -> AgentEventView {
    match error {
        None => AgentEventView::MessageDone,
        Some(ErrorView::Cancelled) => AgentEventView::Cancelled,
        Some(e) => AgentEventView::Error(e.message()),
    }
}

proof fn lemma_cancelled_events(results: Seq<ContentPartView>)
    ensures
        none_closing(cancelled_events(results)),
    decreases results.len(),
{
    if results.len() > 0 {
        lemma_cancelled_events(results.drop_last());
    }
}

proof fn lemma_next(s: AgentState, step: Step)
    requires
        s.inv(),
        s.accepts(step),
    ensures
        ({
            let (t, more) = s.next(step);
            &&& t.inv()
            &&& t.prelude == s.prelude
            &&& t.tools == s.tools
            &&& t.specs == s.specs
            &&& t.limit == s.limit
            &&& s.produced.is_prefix_of(t.produced)
            &&& t.phase != Phase::Over ==> none_closing(more)
            &&& t.phase == Phase::Over ==> more.len() > 0 && is_closing(more.last())
                && none_closing(more.drop_last())
            &&& t.phase == Phase::Over ==> more.last() == if blames_the_user(step) {
                AgentEventView::Error(ErrorView::Cancelled.message())
            } else {
                closing_event(t.error)
            }
        }),
{
    match step {
        Step::EndTurn { repair_id } => {
            s.lemma_answered(repair_id);
        },
        Step::Call { cancelled } => {
            s.lemma_call(cancelled);
        },
        Step::Decided { d } => {
            match d {
                Decision::Cancelled => {
                    s.lemma_aborted();
                },
                Decision::Deny => {
                    s.lemma_answer_current("user denied this action"@, true);
                },
                Decision::Failed(e) => {
                    s.lemma_answer_current("approval error: "@ + e@.message(), true);
                },
                Decision::Allow => {},
            }
        },
        Step::Done { r } => {
            match r {
                None => {
                    s.lemma_aborted();
                },
                Some(Ok(out)) => {
                    s.lemma_answer_current(out, false);
                },
                Some(Err(e)) => {
                    s.lemma_answer_current(e.message(), true);
                },
            }
        },
        _ => {},
    }
    let results = s.results + cancelled_answers(s.calls.skip(s.results.len() as int));
    lemma_cancelled_events(results);
    assert(s.aborted().1.drop_last() =~= cancelled_events(results));
}

/// A run tells exactly once that it is over, with its last event, and while it goes on it does
/// not. The event is `MessageDone` where no failure ended the run, `Cancelled` where the user did,
/// and `Error` with the failure elsewhere; a provider that itself reports a cancellation is a
/// failure.
pub proof fn run_closes_once(s: AgentState, steps: Seq<Step>)
    requires
        s.inv(),
        s.phase == Phase::Turn,
        s.admits(steps),
    ensures
        ({
            let (t, sent) = s.after(steps);
            &&& t.inv()
            &&& t.phase != Phase::Over ==> none_closing(sent)
            &&& t.phase == Phase::Over ==> {
                &&& steps.len() > 0
                &&& sent.len() > 0
                &&& is_closing(sent.last())
                &&& none_closing(sent.drop_last())
                &&& sent.last() == if blames_the_user(steps.last()) {
                    AgentEventView::Error(ErrorView::Cancelled.message())
                } else {
                    closing_event(t.error)
                }
            }
        }),
    decreases steps.len(),
{
    if steps.len() > 0 {
        let before = steps.drop_last();
        run_closes_once(s, before);
        let (u, sofar) = s.after(before);
        lemma_next(u, steps.last());
        let (t, more) = u.next(steps.last());
        let sent = sofar + more;
        if t.phase == Phase::Over {
            assert(sent.drop_last() =~= sofar + more.drop_last());
        }
    }
}

/// Every request of a run carries the same system message, history and tools: whatever the run
/// was told, they are those that it began with, and the messages are these and what was produced.
pub proof fn requests_carry_prompt_and_tools(s: AgentState, steps: Seq<Step>)
    requires
        s.inv(),
        s.admits(steps),
    ensures
        ({
            let t = s.after(steps).0;
            &&& t.inv()
            &&& t.prelude == s.prelude
            &&& t.specs == s.specs
            &&& t.tools == s.tools
            &&& s.produced.is_prefix_of(t.produced)
            &&& t.phase == Phase::Stream ==> t.messages == s.prelude + t.produced
        }),
    decreases steps.len(),
{
    if steps.len() > 0 {
        requests_carry_prompt_and_tools(s, steps.drop_last());
        let u = s.after(steps.drop_last()).0;
        lemma_next(u, steps.last());
        let t = u.next(steps.last()).0;
        assert(t.produced.take(s.produced.len() as int) =~= s.produced);
    }
}

/// A run that is cancelled before it begins produces nothing and tells that it was cancelled.
pub proof fn cancelled_run_does_nothing(
    system: Seq<char>,
    history: Seq<MessageView>,
    tools: Seq<(Seq<char>, bool)>,
    specs: Seq<ToolSpecView>,
    limit: nat,
)
    requires
        limit > 0,
    ensures
        ({
            let (t, sent) = AgentState::start(system, history, tools, specs, limit).begin(true);
            &&& t.phase == Phase::Over
            &&& t.produced.len() == 0
            &&& t.error == Some(ErrorView::Cancelled)
            &&& sent == seq![AgentEventView::Cancelled]
        }),
{
}

/// How many turns a list of steps begins.
pub open spec fn begun(steps: Seq<Step>) -> nat
    decreases steps.len(),
{
    if steps.len() == 0 {
        0
    } else {
        begun(steps.drop_last()) + if steps.last() is Begin {
            1nat
        } else {
            0
        }
    }
}

/// A run turns to the provider at most as often as its limit says. As many turns with tool calls
/// as have begun and are complete have produced two messages each, the calls and the answers; and
/// where as many are complete as the limit allows, the next one ends the run with the error that
/// names the limit, and with these messages.
pub proof fn turns_are_limited(
    system: Seq<char>,
    history: Seq<MessageView>,
    tools: Seq<(Seq<char>, bool)>,
    specs: Seq<ToolSpecView>,
    limit: nat,
    steps: Seq<Step>,
)
    requires
        AgentState::start(system, history, tools, specs, limit).admits(steps),
    ensures
        ({
            let (t, sent) = AgentState::start(system, history, tools, specs, limit).after(steps);
            &&& t.inv()
            &&& t.limit == limit
            &&& begun(steps) <= limit + 1
            &&& t.phase != Phase::Over ==> begun(steps) == limit - t.left
            &&& t.phase == Phase::Turn ==> t.produced.len() == 2 * begun(steps)
            &&& t.phase == Phase::Turn && begun(steps) == limit ==> forall|cancelled: bool|
                {
                    let (u, more) = #[trigger] t.begin(cancelled);
                    &&& u.phase == Phase::Over
                    &&& u.error == Some(limit_error(limit))
                    &&& u.produced == t.produced
                    &&& u.produced.len() == 2 * limit
                    &&& more == seq![AgentEventView::Error(limit_error(limit).message())]
                }
            &&& begun(steps) == limit + 1 ==> {
                &&& t.phase == Phase::Over
                &&& t.error == Some(limit_error(limit))
                &&& t.produced.len() == 2 * limit
                &&& sent.len() > 0
                &&& sent.last() == AgentEventView::Error(limit_error(limit).message())
            }
        }),
    decreases steps.len(),
{
    if steps.len() > 0 {
        let before = steps.drop_last();
        turns_are_limited(system, history, tools, specs, limit, before);
        let u = AgentState::start(system, history, tools, specs, limit).after(before).0;
        lemma_next(u, steps.last());
    }
}

/// Tool results are answered as the model asked: a denied call is answered with an error, and
/// the run goes on.
pub proof fn denial_is_answered(s: AgentState)
    requires
        s.inv(),
        s.phase == Phase::Approval,
    ensures
        s.decided(Decision::Deny).0.phase == Phase::Call,
        s.decided(Decision::Deny).0.results.last() == (ContentPartView::ToolResult {
            tool_call_id: s.current().id,
            content: "user denied this action"@,
            is_error: true,
        }),
{
}

/// One run of the tool-call loop.
pub struct AgentLoop {
    prelude: Ghost<Seq<MessageView>>,
    messages: Vec<Message>,
    produced: Vec<Message>,
    tools: Vec<ToolInfo>,
    limit: usize,
    left: usize,
    text: String,
    calls: Vec<ToolCall>,
    results: Vec<ContentPart>,
    phase: Phase,
    error: Option<Error>,
}

/// What the error of a run is.
pub open spec fn error_view(e: Option<Error>) -> Option<ErrorView> {
    match e {
        Some(e) => Some(e@),
        None => None,
    }
}

/// What an item of an answer is.
pub open spec fn item_view(r: Result<ChatEvent, Error>) -> Result<ChatEventView, ErrorView> {
    match r {
        Ok(e) => Ok(e@),
        Err(e) => Err(e@),
    }
}

/// What the outcome of a tool call is.
pub open spec fn outcome_view(r: Option<Result<String, Error>>) -> Option<
    Result<Seq<char>, ErrorView>,
> {
    match r {
        Some(Ok(s)) => Some(Ok(s@)),
        Some(Err(e)) => Some(Err(e@)),
        None => None,
    }
}

fn one(e: AgentEvent) -> (r: Vec<AgentEvent>)
    ensures
        types::agent_views(r@) == seq![e@],
{
    let mut out: Vec<AgentEvent> = Vec::new();
    out.push(e);
    assert(types::agent_views(out@) =~= seq![e@]);
    out
}

fn none() -> (r: Vec<AgentEvent>)
    ensures
        types::agent_views(r@) == Seq::<AgentEventView>::empty(),
{
    let out: Vec<AgentEvent> = Vec::new();
    assert(types::agent_views(out@) =~= Seq::<AgentEventView>::empty());
    out
}

impl AgentLoop {
    /// The state of the run.
    pub closed spec fn state(self) -> AgentState {
        AgentState {
            prelude: self.prelude@,
            messages: types::message_views(self.messages@),
            produced: types::message_views(self.produced@),
            tools: tools::tool_views(self.tools@),
            specs: tools::info_specs(self.tools@),
            limit: self.limit as nat,
            left: self.left as nat,
            text: self.text@,
            calls: call_views(self.calls@),
            results: types::part_views(self.results@),
            phase: self.phase,
            error: error_view(self.error),
        }
    }

    /// A run on a history that ends with the user's new message. The system prompt is built per
    /// run and is not part of what the run produces.
    pub fn new(
        workspace_root: &str,
        mode: ApprovalMode,
        history: &[Message],
        tools: Vec<ToolInfo>,
        max_iterations: usize,
    ) -> (r: AgentLoop)
        ensures
            r.state() == AgentState::start(
                prompt(
                    workspace_root@,
                    mode,
                    tools::tool_names(tools::tool_views(tools@)),
                ),
                types::message_views(history@),
                tools::tool_views(tools@),
                tools::info_specs(tools@),
                max_iterations as nat,
            ),
            r.state().inv(),
    {
        let system = system_prompt(workspace_root, mode, &tools);
        let first = Message::text(Role::System, system.as_str());
        let ghost head = first@;
        let mut messages: Vec<Message> = Vec::new();
        messages.push(first);
        assert(types::message_views(messages@) =~= seq![head] + types::message_views(
            history@.take(0),
        ));
        let mut i: usize = 0;
        while i < history.len()
            invariant
                i <= history.len(),
                types::message_views(messages@) == seq![head] + types::message_views(
                    history@.take(i as int),
                ),
            decreases history.len() - i,
        {
            let m = history[i].copy();
            proof {
                types::lemma_message_views_push(messages@, m);
                types::lemma_message_views_take(history@, i as int);
                assert((seq![head] + types::message_views(history@.take(i as int))).push(m@)
                    =~= seq![head] + types::message_views(history@.take(i as int)).push(m@));
            }
            messages.push(m);
            i += 1;
        }
        assert(history@.take(history.len() as int) =~= history@);
        let ghost prelude = types::message_views(messages@);
        let r = AgentLoop {
            prelude: Ghost(prelude),
            messages,
            produced: Vec::new(),
            tools,
            limit: max_iterations,
            left: max_iterations,
            text: String::new(),
            calls: Vec::new(),
            results: Vec::new(),
            phase: Phase::Turn,
            error: None,
        };
        proof {
            assert(r.state() =~= AgentState::start(
                prompt(workspace_root@, mode, tools::tool_names(tools::tool_views(tools@))),
                types::message_views(history@),
                tools::tool_views(tools@),
                tools::info_specs(tools@),
                max_iterations as nat,
            ));
            assert(r.state().prelude + r.state().produced =~= r.state().prelude);
        }
        r
    }

    /// What the run waits for.
    pub fn phase(&self) -> (r: Phase)
        ensures
            r == self.state().phase,
    {
        self.phase
    }

    /// What the provider is to be sent.
    pub fn messages(&self) -> (r: &Vec<Message>)
        ensures
            types::message_views(r@) == self.state().messages,
    {
        &self.messages
    }

    /// The tools that the provider is to be told of.
    pub fn tools(&self) -> (r: &Vec<ToolInfo>)
        ensures
            tools::tool_views(r@) == self.state().tools,
            tools::info_specs(r@) == self.state().specs,
    {
        &self.tools
    }

    /// The call at hand.
    pub fn current(&self) -> (r: &ToolCall)
        requires
            self.state().results.len() < self.state().calls.len(),
        ensures
            r@ == self.state().current(),
    {
        &self.calls[self.results.len()]
    }

    /// Whether the file that the call at hand changes is to be kept first, so that a later rewind
    /// can restore it.
    pub fn wants_backup(&self) -> (r: bool)
        requires
            self.state().results.len() < self.state().calls.len(),
        ensures
            r == changes_file(self.state().current().name),
    {
        let c = self.current();
        text::str_eq(c.name.as_str(), "write_file") || text::str_eq(c.name.as_str(), "edit_file")
    }

    /// What the run produced, and the failure that ended it, if any. What was produced is to be
    /// kept even then.
    pub fn outcome(self) -> (r: AgentOutcome)
        ensures
            types::message_views(r.produced@) == self.state().produced,
            error_view(r.error) == self.state().error,
    {
        AgentOutcome { produced: self.produced, error: self.error }
    }

    fn end(&mut self, error: Option<Error>)
        ensures
            final(self).state() == old(self).state().over(error_view(error)),
    {
        self.phase = Phase::Over;
        self.error = error;
        assert(self.state() =~= old(self).state().over(error_view(error)));
    }

    /// Begins a turn, unless none is left or the run was cancelled.
    pub fn begin_turn(&mut self, cancelled: bool) -> (r: Vec<AgentEvent>)
        requires
            old(self).state().inv(),
            old(self).state().phase == Phase::Turn,
        ensures
            final(self).state() == old(self).state().begin(cancelled).0,
            types::agent_views(r@) == old(self).state().begin(cancelled).1,
            final(self).state().inv(),
    {
        if self.left == 0 {
            let n = text::decimal_of(self.limit as u64);
            let e = Error::Tool(text::concat3("max iterations (", n.as_str(), ") reached"));
            return self.fail(e);
        }
        if cancelled {
            self.end(Some(Error::Cancelled));
            return one(AgentEvent::Cancelled);
        }
        self.left -= 1;
        self.text = String::new();
        self.calls = Vec::new();
        self.results = Vec::new();
        self.phase = Phase::Stream;
        assert(self.state() =~= old(self).state().begin(cancelled).0);
        none()
    }

    /// The provider answers.
    pub fn opened(&mut self)
        requires
            old(self).state().inv(),
            old(self).state().phase == Phase::Stream,
        ensures
            final(self).state() == (AgentState { phase: Phase::Items, ..old(self).state() }),
            final(self).state().inv(),
    {
        self.phase = Phase::Items;
        assert(self.state() =~= (AgentState { phase: Phase::Items, ..old(self).state() }));
    }

    /// The provider failed.
    pub fn fail(&mut self, e: Error) -> (r: Vec<AgentEvent>)
        requires
            old(self).state().inv(),
            old(self).state().phase == Phase::Stream || old(self).state().phase == Phase::Items
                || old(self).state().phase == Phase::Turn,
        ensures
            final(self).state() == old(self).state().failed(e@).0,
            types::agent_views(r@) == old(self).state().failed(e@).1,
            final(self).state().inv(),
    {
        let m = e.message();
        self.end(Some(e));
        one(AgentEvent::Error(m))
    }

    /// Takes an event of the answer in.
    pub fn on_item(&mut self, cancelled: bool, item: Result<ChatEvent, Error>) -> (r: Vec<
        AgentEvent,
    >)
        requires
            old(self).state().inv(),
            old(self).state().phase == Phase::Items,
        ensures
            final(self).state() == old(self).state().item(cancelled, item_view(item)).0,
            types::agent_views(r@) == old(self).state().item(cancelled, item_view(item)).1,
            final(self).state().inv(),
    {
        if cancelled {
            self.end(Some(Error::Cancelled));
            return one(AgentEvent::Cancelled);
        }
        match item {
            Ok(ChatEvent::TextDelta(d)) => {
                self.text.append(d.as_str());
                assert(self.state() =~= (AgentState {
                    text: old(self).state().text + d@,
                    ..old(self).state()
                }));
                one(AgentEvent::TextDelta(d))
            },
            Ok(ChatEvent::ToolCall { id, name, args_json }) => {
                let args_json = types::sanitize_args_json(args_json.as_str());
                let c = ToolCall { id, name, args_json };
                let ghost before = self.state().calls;
                self.calls.push(c);
                assert(call_views(self.calls@) =~= before.push(c@));
                assert(self.state() =~= (AgentState {
                    calls: before.push(c@),
                    ..old(self).state()
                }));
                none()
            },
            Ok(ChatEvent::Usage { .. }) => none(),
            Ok(ChatEvent::Error(m)) => self.fail(Error::Provider { status: 0, body: m }),
            Ok(ChatEvent::Done) => {
                self.phase = Phase::Answered;
                assert(self.state() =~= (AgentState {
                    phase: Phase::Answered,
                    ..old(self).state()
                }));
                none()
            },
            Err(e) => self.fail(e),
        }
    }

    /// The answer ended without a last event.
    pub fn end_of_stream(&mut self)
        requires
            old(self).state().inv(),
            old(self).state().phase == Phase::Items,
        ensures
            final(self).state() == (AgentState { phase: Phase::Answered, ..old(self).state() }),
            final(self).state().inv(),
    {
        self.phase = Phase::Answered;
        assert(self.state() =~= (AgentState { phase: Phase::Answered, ..old(self).state() }));
    }

    /// Completes the answer; a call that the model wrote as text becomes a real one under
    /// `repair_id`.
    pub fn end_turn_with(&mut self, repair_id: String) -> (r: Vec<AgentEvent>)
        requires
            old(self).state().inv(),
            old(self).state().phase == Phase::Answered,
        ensures
            final(self).state() == old(self).state().answered(repair_id@).0,
            types::agent_views(r@) == old(self).state().answered(repair_id@).1,
            final(self).state().inv(),
    {
        let ghost s = self.state();
        proof {
            s.lemma_answered(repair_id@);
            lemma_call_in_empty(s.text, tools::tool_names(s.tools));
        }
        if self.calls.len() == 0 && !self.text.as_str().is_empty() {
            let names = names_of(&self.tools);
            if let Some((name, args)) = detect_text_tool_call(self.text.as_str(), &names) {
                let args_json = types::sanitize_args_json(args.as_str());
                self.calls.push(ToolCall { id: repair_id, name, args_json });
            }
        }
        assert(call_views(self.calls@) =~= s.repaired(repair_id@));
        let m = self.answer_message();
        let kept = m.copy();
        self.results = Vec::new();
        proof {
            types::lemma_message_views_push(self.messages@, m);
            types::lemma_message_views_push(self.produced@, kept);
            assert(types::part_views(self.results@) =~= Seq::<ContentPartView>::empty());
        }
        self.messages.push(m);
        self.produced.push(kept);
        if self.calls.len() == 0 {
            self.end(None);
            assert(self.state() =~= s.answered(repair_id@).0);
            one(AgentEvent::MessageDone)
        } else {
            self.phase = Phase::Call;
            assert(self.state() =~= s.answered(repair_id@).0);
            none()
        }
    }

    /// Completes the answer; a call that the model wrote as text becomes a real one under a fresh
    /// identifier.
    pub fn end_turn(&mut self) -> (r: Vec<AgentEvent>)
        requires
            old(self).state().inv(),
            old(self).state().phase == Phase::Answered,
        ensures
            exists|u: Seq<char>| #[trigger]
                ids::is_uuid(u) && final(self).state() == old(self).state().answered(
                    "repair-"@ + u,
                ).0 && types::agent_views(r@) == old(self).state().answered("repair-"@ + u).1,
            final(self).state().inv(),
    {
        let u = ids::new_uuid();
        let id = text::concat2("repair-", u.as_str());
        assert(ids::is_uuid(u@));
        self.end_turn_with(id)
    }

    fn answer_message(&self) -> (r: Message)
        ensures
            r@ == self.state().answer(self.state().calls),
    {
        let mut parts: Vec<ContentPart> = Vec::new();
        if !self.text.as_str().is_empty() {
            parts.push(ContentPart::Text { text: self.text.clone() });
        }
        let ghost head = types::part_views(parts@);
        assert(head =~= (if self.text@.len() == 0 {
            Seq::empty()
        } else {
            seq![ContentPartView::Text { text: self.text@ }]
        }));
        let mut i: usize = 0;
        assert(head + call_parts(self.state().calls).take(0) =~= head);
        while i < self.calls.len()
            invariant
                i <= self.calls.len(),
                types::part_views(parts@) == head + call_parts(self.state().calls).take(i as int),
            decreases self.calls.len() - i,
        {
            let c = self.calls[i].copy();
            let p = ContentPart::ToolCall { id: c.id, name: c.name, args_json: c.args_json };
            proof {
                types::lemma_part_views_push(parts@, p);
                assert(self.state().calls[i as int] == self.calls@[i as int]@);
                assert(call_parts(self.state().calls)[i as int] == p@);
                assert((head + call_parts(self.state().calls).take(i as int)).push(p@) =~= head
                    + call_parts(self.state().calls).take(i + 1));
            }
            parts.push(p);
            i += 1;
        }
        assert(call_parts(self.state().calls).take(self.calls.len() as int) =~= call_parts(
            self.state().calls,
        ));
        Message { role: Role::Assistant, parts }
    }

    /// Takes up the next of the answer's tool calls, or ends the turn where all are answered.
    pub fn next_call(&mut self, cancelled: bool) -> (r: Vec<AgentEvent>)
        requires
            old(self).state().inv(),
            old(self).state().phase == Phase::Call,
        ensures
            final(self).state() == old(self).state().call(cancelled).0,
            types::agent_views(r@) == old(self).state().call(cancelled).1,
            final(self).state().inv(),
    {
        let ghost s = self.state();
        proof {
            s.lemma_call(cancelled);
        }
        if self.results.len() == self.calls.len() {
            let m = self.tool_message();
            let kept = m.copy();
            proof {
                types::lemma_message_views_push(self.messages@, m);
                types::lemma_message_views_push(self.produced@, kept);
            }
            self.messages.push(m);
            self.produced.push(kept);
            self.phase = Phase::Turn;
            assert(self.state() =~= s.call(cancelled).0);
            return none();
        }
        if cancelled {
            return self.abort();
        }
        let c = self.current().copy();
        let mut out = one(
            AgentEvent::ToolCallProposed {
                tool_call_id: c.id.clone(),
                name: c.name.clone(),
                args_json: c.args_json.clone(),
            },
        );
        match self.find_tool(c.name.as_str()) {
            None => {
                let content = text::concat2("unknown tool: ", c.name.as_str());
                let e = c.finished(false, content.clone());
                proof {
                    types::lemma_agent_views_push(out@, e);
                }
                let ghost proposed = types::agent_views(out@)[0];
                out.push(e);
                self.answer_with(content, true);
                assert(types::agent_views(out@) =~= seq![proposed, e@]);
            },
            Some(needs_approval) => {
                self.phase = if needs_approval {
                    Phase::Approval
                } else {
                    Phase::Execute
                };
                assert(self.state() =~= s.call(cancelled).0);
            },
        }
        out
    }

    fn find_tool(&self, name: &str) -> (r: Option<bool>)
        ensures
            r == lookup(self.state().tools, name@),
    {
        let ghost ts = self.state().tools;
        let mut i: usize = 0;
        assert(ts.skip(0) =~= ts);
        while i < self.tools.len()
            invariant
                i <= self.tools.len(),
                ts == tools::tool_views(self.tools@),
                lookup(ts, name@) == lookup(ts.skip(i as int), name@),
            decreases self.tools.len() - i,
        {
            assert(ts.skip(i as int)[0] == ts[i as int]);
            assert(ts.skip(i as int).drop_first() =~= ts.skip(i + 1));
            if text::str_eq(self.tools[i].spec.name.as_str(), name) {
                return Some(self.tools[i].needs_approval);
            }
            i += 1;
        }
        None
    }

    fn tool_message(&self) -> (r: Message)
        ensures
            r@ == (MessageView { role: Role::Tool, parts: self.state().results }),
    {
        let mut parts: Vec<ContentPart> = Vec::new();
        let mut i: usize = 0;
        while i < self.results.len()
            invariant
                i <= self.results.len(),
                types::part_views(parts@) =~= types::part_views(self.results@).take(i as int),
            decreases self.results.len() - i,
        {
            let p = self.results[i].copy();
            proof {
                types::lemma_part_views_push(parts@, p);
            }
            parts.push(p);
            i += 1;
        }
        let r = Message { role: Role::Tool, parts };
        assert(r@ =~= (MessageView { role: Role::Tool, parts: self.state().results }));
        r
    }

    fn answer_with(&mut self, content: String, is_error: bool)
        requires
            old(self).state().results.len() < old(self).state().calls.len(),
        ensures
            final(self).state() == old(self).state().answer_current(content@, is_error),
    {
        let p = self.current().answer(content, is_error);
        proof {
            types::lemma_part_views_push(self.results@, p);
        }
        self.results.push(p);
        self.phase = Phase::Call;
        assert(self.state() =~= old(self).state().answer_current(content@, is_error));
    }

    fn abort(&mut self) -> (r: Vec<AgentEvent>)
        requires
            old(self).state().results.len() <= old(self).state().calls.len(),
        ensures
            final(self).state() == old(self).state().aborted().0,
            types::agent_views(r@) == old(self).state().aborted().1,
    {
        let ghost s = self.state();
        let ghost k = s.results.len() as int;
        let ghost left = s.calls.skip(k);
        assert(s.results + cancelled_answers(left).take(0) =~= s.results);
        while self.results.len() < self.calls.len()
            invariant
                k <= self.results.len() <= self.calls.len(),
                left == s.calls.skip(k),
                k == s.results.len(),
                s.calls == call_views(self.calls@),
                self.state() == (AgentState {
                    results: s.results + cancelled_answers(left).take(self.results.len() - k),
                    ..s
                }),
            decreases self.calls.len() - self.results.len(),
        {
            let ghost n = self.results.len() - k;
            let p = self.calls[self.results.len()].answer("cancelled by user".to_owned(), true);
            proof {
                types::lemma_part_views_push(self.results@, p);
                assert(left[n] == self.calls@[self.results.len() as int]@);
                assert(cancelled_answers(left)[n] == p@);
                assert((s.results + cancelled_answers(left).take(n)).push(p@) =~= s.results
                    + cancelled_answers(left).take(n + 1));
            }
            self.results.push(p);
            assert(self.state() =~= (AgentState {
                results: s.results + cancelled_answers(left).take(n + 1),
                ..s
            }));
        }
        assert(cancelled_answers(left).take(left.len() as int) =~= cancelled_answers(left));
        let m = self.tool_message();
        proof {
            types::lemma_message_views_push(self.produced@, m);
        }
        self.produced.push(m);
        let mut out = self.settle();
        self.end(Some(Error::Cancelled));
        proof {
            types::lemma_agent_views_push(out@, AgentEvent::Cancelled);
        }
        out.push(AgentEvent::Cancelled);
        assert(self.state() =~= s.aborted().0);
        out
    }

    fn settle(&self) -> (r: Vec<AgentEvent>)
        ensures
            types::agent_views(r@) == cancelled_events(self.state().results),
    {
        let mut out = none();
        let mut i: usize = 0;
        while i < self.results.len()
            invariant
                i <= self.results.len(),
                types::agent_views(out@) == cancelled_events(
                    types::part_views(self.results@.take(i as int)),
                ),
            decreases self.results.len() - i,
        {
            proof {
                types::lemma_part_views_take(self.results@, i as int);
            }
            if let ContentPart::ToolResult { tool_call_id, content, is_error: _ } =
                &self.results[i] {
                if text::str_eq(content.as_str(), "cancelled by user") {
                    let e = AgentEvent::ToolCallFinished {
                        tool_call_id: tool_call_id.clone(),
                        ok: false,
                        summary: "cancelled by user".to_owned(),
                    };
                    proof {
                        types::lemma_agent_views_push(out@, e);
                    }
                    out.push(e);
                }
            }
            i += 1;
        }
        assert(self.results@.take(self.results.len() as int) =~= self.results@);
        out
    }

    /// Takes the user's decision on the call at hand in.
    pub fn on_decision(&mut self, d: Decision) -> (r: Vec<AgentEvent>)
        requires
            old(self).state().inv(),
            old(self).state().phase == Phase::Approval,
        ensures
            final(self).state() == old(self).state().decided(d).0,
            types::agent_views(r@) == old(self).state().decided(d).1,
            final(self).state().inv(),
    {
        let ghost s = self.state();
        match d {
            Decision::Cancelled => {
                proof {
                    s.lemma_aborted();
                }
                self.abort()
            },
            Decision::Allow => {
                self.phase = Phase::Execute;
                assert(self.state() =~= (AgentState { phase: Phase::Execute, ..s }));
                none()
            },
            Decision::Deny => {
                proof {
                    s.lemma_answer_current("user denied this action"@, true);
                }
                let e = self.current().finished(false, "denied by user".to_owned());
                self.answer_with("user denied this action".to_owned(), true);
                one(e)
            },
            Decision::Failed(err) => {
                let m = err.message();
                let content = text::concat2("approval error: ", m.as_str());
                proof {
                    s.lemma_answer_current(content@, true);
                }
                let e = self.current().finished(false, content.clone());
                self.answer_with(content, true);
                one(e)
            },
        }
    }

    /// Takes the outcome of the call at hand in; none where the run was cancelled meanwhile.
    pub fn on_result(&mut self, outcome: Option<Result<String, Error>>) -> (r: Vec<AgentEvent>)
        requires
            old(self).state().inv(),
            old(self).state().phase == Phase::Execute,
        ensures
            final(self).state() == old(self).state().result(outcome_view(outcome)).0,
            types::agent_views(r@) == old(self).state().result(outcome_view(outcome)).1,
            final(self).state().inv(),
    {
        let ghost s = self.state();
        match outcome {
            None => {
                proof {
                    s.lemma_aborted();
                }
                self.abort()
            },
            Some(Ok(out)) => {
                proof {
                    s.lemma_answer_current(out@, false);
                }
                let summary = text::take_chars(out.as_str(), 80);
                let e = self.current().finished(true, summary);
                self.answer_with(out, false);
                one(e)
            },
            Some(Err(err)) => {
                let m = err.message();
                proof {
                    s.lemma_answer_current(m@, true);
                }
                let e = self.current().finished(false, m.clone());
                self.answer_with(m, true);
                one(e)
            },
        }
    }
}

proof fn lemma_call_in_empty(t: Seq<char>, names: Seq<Seq<char>>)
    ensures
        t.len() == 0 ==> call_in(t, names, 0) is None,
{
}

/// Result of one agent run: the messages produced (persist these even on failure) plus the error
/// that ended the run, if any.
pub struct AgentOutcome {
    /// Messages produced during the run; persist these even when `error` is Some.
    pub produced: Vec<Message>,
    /// The failure that ended the run, if any.
    pub error: Option<Error>,
}

/// Whether a tool changes a file of the workspace.
pub open spec fn changes_file(name: Seq<char>) -> bool {
    name == "write_file"@ || name == "edit_file"@
}

/// Checkpoint sink: snapshots a file's bytes before a mutating tool changes it, so a later rewind
/// restores the workspace alongside the history.
pub struct BackupCtx {
    pub conversation_id: String,
    /// The user message whose run these backups belong to.
    pub after_message_id: i64,
}

/// The file that a call with the given arguments changes: its path as given, and where it lies;
/// none where no path is given, or it leaves the workspace.
pub open spec fn backup_target_of(root: Seq<char>, args: Option<JsonView>) -> Option<
    (Seq<char>, Seq<char>),
> {
    match args {
        Some(v) => match v.str_field("path"@) {
            Some(p) => match tools::resolved(root, p) {
                Ok(abs) => Some((p, abs)),
                Err(_) => None,
            },
            None => None,
        },
        None => None,
    }
}

impl BackupCtx {
    /// The file to keep before a call whose arguments parsed to `args`.
    pub fn target_in(workspace_root: &str, args: Option<Json>) -> (r: Option<(String, String)>)
        ensures
            found_view(r) == backup_target_of(workspace_root@, types::opt_json(args)),
    {
        match args {
            Some(v) => match v.str_field("path") {
                Some(p) => match tools::resolve_in_workspace(workspace_root, p) {
                    Ok(abs) => Some((p.to_owned(), abs)),
                    Err(_) => None,
                },
                None => None,
            },
            None => None,
        }
    }

    /// The file to keep before a call: its path as given, and where it lies.
    pub fn target(workspace_root: &str, args_json: &str) -> (r: Option<(String, String)>)
        ensures
            found_view(r) == backup_target_of(workspace_root@, json::parsed(args_json@)),
    {
        match json::parse(args_json) {
            Ok(v) => BackupCtx::target_in(workspace_root, Some(v)),
            Err(_) => None,
        }
    }
}

/// What a tool returned goes back to the model whole, as the answer to the call at hand, and the
/// user is shown its first eighty characters; a failure goes back with its message. Nothing else
/// of the run changes, and the next call is due.
pub proof fn outcome_is_answered_whole(s: AgentState, o: Seq<char>, e: ErrorView)
    ensures
        s.result(Some(Ok(o))).0 == (AgentState {
            results: s.results.push(
                ContentPartView::ToolResult {
                    tool_call_id: s.calls[s.results.len() as int].id,
                    content: o,
                    is_error: false,
                },
            ),
            phase: Phase::Call,
            ..s
        }),
        s.result(Some(Ok(o))).1 == seq![
            AgentEventView::ToolCallFinished {
                tool_call_id: s.calls[s.results.len() as int].id,
                ok: true,
                summary: if o.len() <= 80 {
                    o
                } else {
                    o.take(80)
                },
            },
        ],
        s.result(Some(Err(e))).0 == (AgentState {
            results: s.results.push(
                ContentPartView::ToolResult {
                    tool_call_id: s.calls[s.results.len() as int].id,
                    content: e.message(),
                    is_error: true,
                },
            ),
            phase: Phase::Call,
            ..s
        }),
        s.result(Some(Err(e))).1 == seq![
            AgentEventView::ToolCallFinished {
                tool_call_id: s.calls[s.results.len() as int].id,
                ok: false,
                summary: e.message(),
            },
        ],
        s.result(None) == s.aborted(),
{
    text::first_characters_are_the_beginning(o, 80);
    let first = text::first_chars(o, 80);
    assert(first =~= (if o.len() <= 80 {
        o
    } else {
        o.take(80)
    }));
}

/// What a tool returned or the provider sent, or their errors, is what the run is told.
pub proof fn outcomes_are_told_whole(o: String, e: Error, c: ChatEvent)
    ensures
        item_view(Ok(c)) == Ok::<ChatEventView, ErrorView>(c@),
        item_view(Err(e)) == Err::<ChatEventView, ErrorView>(e@),
        error_view(Some(e)) == Some(e@),
        error_view(None) is None,
        outcome_view(Some(Ok(o))) == Some(Ok::<Seq<char>, ErrorView>(o@)),
        outcome_view(Some(Err(e))) == Some(Err::<Seq<char>, ErrorView>(e@)),
        outcome_view(None) is None,
{
}

/// A call that the user allows is run as it is; one that they deny, or on which they could not be
/// asked, is answered with that, and not run.
pub proof fn decisions_are_kept(s: AgentState, e: Error)
    ensures
        s.decided(Decision::Allow).0 == (AgentState { phase: Phase::Execute, ..s }),
        s.decided(Decision::Allow).1 == Seq::<AgentEventView>::empty(),
        s.decided(Decision::Deny).0 == (AgentState {
            results: s.results.push(
                ContentPartView::ToolResult {
                    tool_call_id: s.calls[s.results.len() as int].id,
                    content: "user denied this action"@,
                    is_error: true,
                },
            ),
            phase: Phase::Call,
            ..s
        }),
        s.decided(Decision::Deny).1 == seq![
            AgentEventView::ToolCallFinished {
                tool_call_id: s.calls[s.results.len() as int].id,
                ok: false,
                summary: "denied by user"@,
            },
        ],
        s.decided(Decision::Failed(e)).0 == (AgentState {
            results: s.results.push(
                ContentPartView::ToolResult {
                    tool_call_id: s.calls[s.results.len() as int].id,
                    content: "approval error: "@ + e@.message(),
                    is_error: true,
                },
            ),
            phase: Phase::Call,
            ..s
        }),
        s.decided(Decision::Failed(e)).1 == seq![
            AgentEventView::ToolCallFinished {
                tool_call_id: s.calls[s.results.len() as int].id,
                ok: false,
                summary: "approval error: "@ + e@.message(),
            },
        ],
        s.decided(Decision::Cancelled) == s.aborted(),
{
}

/// A tool is found by its name; of two with the same name the first counts.
pub proof fn first_tool_with_the_name(tools: Seq<(Seq<char>, bool)>, name: Seq<char>, i: int)
    ensures
        lookup(tools, name) is None <==> (forall|j: int|
            0 <= j < tools.len() ==> (#[trigger] tools[j]).0 != name),
        0 <= i < tools.len() && tools[i].0 == name && (forall|j: int|
            0 <= j < i ==> (#[trigger] tools[j]).0 != name) ==> lookup(tools, name) == Some(
            tools[i].1,
        ),
    decreases tools.len(),
{
    if tools.len() > 0 {
        let rest = tools.drop_first();
        first_tool_with_the_name(rest, name, i - 1);
        assert forall|j: int| 0 <= j < rest.len() implies #[trigger] rest[j] == tools[j + 1] by {}
        if lookup(tools, name) is None {
            assert forall|j: int| 0 <= j < tools.len() implies (#[trigger] tools[j]).0 != name by {
                if j > 0 {
                    assert(rest[j - 1] == tools[j]);
                }
            }
        } else if tools[0].0 != name {
            let k = choose|k: int| 0 <= k < rest.len() && (#[trigger] rest[k]).0 == name;
            assert(tools[k + 1].0 == name);
        }
        if 0 < i < tools.len() && tools[i].0 == name && (forall|j: int|
            0 <= j < i ==> (#[trigger] tools[j]).0 != name) {
            assert(tools[0].0 != name);
            assert(rest[i - 1] == tools[i]);
            assert forall|j: int| 0 <= j < i - 1 implies (#[trigger] rest[j]).0 != name by {
                assert(tools[j + 1].0 != name);
            }
        }
    }
}

/// Each call is proposed to the user as the model made it. It is run at once where its tool needs
/// no approval, the user is asked where it does, and a call of a tool that does not exist is
/// answered with that.
pub proof fn calls_are_proposed_as_made(s: AgentState, c: ToolCallView)
    requires
        s.results.len() < s.calls.len(),
        c == s.calls[s.results.len() as int],
    ensures
        s.current() == c,
        s.call(false).1.len() > 0,
        s.call(false).1[0] == (AgentEventView::ToolCallProposed {
            tool_call_id: c.id,
            name: c.name,
            args_json: c.args_json,
        }),
        match lookup(s.tools, c.name) {
            Some(needs_approval) => {
                &&& s.call(false).1.len() == 1
                &&& s.call(false).0 == (AgentState {
                    phase: if needs_approval {
                        Phase::Approval
                    } else {
                        Phase::Execute
                    },
                    ..s
                })
            },
            None => {
                &&& s.call(false).1 == seq![
                    AgentEventView::ToolCallProposed {
                        tool_call_id: c.id,
                        name: c.name,
                        args_json: c.args_json,
                    },
                    AgentEventView::ToolCallFinished {
                        tool_call_id: c.id,
                        ok: false,
                        summary: "unknown tool: "@ + c.name,
                    },
                ]
                &&& s.call(false).0 == (AgentState {
                    results: s.results.push(
                        ContentPartView::ToolResult {
                            tool_call_id: c.id,
                            content: "unknown tool: "@ + c.name,
                            is_error: true,
                        },
                    ),
                    phase: Phase::Call,
                    ..s
                })
            },
        },
        s.call(true) == s.aborted(),
{
}

/// Once every call is answered, the answers go to the model, all of them and in order, and the
/// next turn is due.
pub proof fn all_answers_go_to_the_model(s: AgentState, cancelled: bool)
    requires
        s.results.len() == s.calls.len(),
    ensures
        s.call(cancelled).0 == (AgentState {
            messages: s.messages.push(MessageView { role: Role::Tool, parts: s.results }),
            produced: s.produced.push(MessageView { role: Role::Tool, parts: s.results }),
            phase: Phase::Turn,
            ..s
        }),
        s.call(cancelled).1 == Seq::<AgentEventView>::empty(),
{
}

/// A run that is cancelled among its calls keeps the answers so far and answers each call that is
/// left with the cancellation; these answers are kept too.
pub proof fn cancelled_calls_are_answered(s: AgentState)
    requires
        s.results.len() <= s.calls.len(),
    ensures
        ({
            let t = s.aborted().0;
            &&& t.results.len() == s.calls.len()
            &&& t.results.take(s.results.len() as int) == s.results
            &&& forall|i: int|
                s.results.len() <= i < s.calls.len() ==> #[trigger] t.results[i] == (
                ContentPartView::ToolResult {
                    tool_call_id: s.calls[i].id,
                    content: "cancelled by user"@,
                    is_error: true,
                })
            &&& t.produced == s.produced.push(MessageView { role: Role::Tool, parts: t.results })
            &&& t.messages == s.messages
            &&& t.calls == s.calls
            &&& t.phase == Phase::Over
            &&& t.error == Some(ErrorView::Cancelled)
            &&& s.aborted().1.last() == AgentEventView::Cancelled
            &&& s.aborted().1.drop_last() == cancelled_events(t.results)
        }),
{
    let t = s.aborted().0;
    assert(t.results.take(s.results.len() as int) =~= s.results);
    assert forall|i: int| s.results.len() <= i < s.calls.len() implies #[trigger] t.results[i] == (
    ContentPartView::ToolResult {
        tool_call_id: s.calls[i].id,
        content: "cancelled by user"@,
        is_error: true,
    }) by {
        assert(s.calls.skip(s.results.len() as int)[i - s.results.len()] == s.calls[i]);
    }
    assert(s.aborted().1.drop_last() =~= cancelled_events(t.results));
}

/// The user is told of each answer that is a cancellation, in order, and of no other.
pub proof fn cancellations_are_told(
    a: Seq<ContentPartView>,
    b: Seq<ContentPartView>,
    id: Seq<char>,
    content: Seq<char>,
    is_error: bool,
)
    ensures
        cancelled_events(Seq::empty()).len() == 0,
        cancelled_events(a + b) == cancelled_events(a) + cancelled_events(b),
        cancelled_events(
            seq![ContentPartView::ToolResult { tool_call_id: id, content, is_error }],
        ) == (if content == "cancelled by user"@ {
            seq![
                AgentEventView::ToolCallFinished {
                    tool_call_id: id,
                    ok: false,
                    summary: "cancelled by user"@,
                },
            ]
        } else {
            Seq::<AgentEventView>::empty()
        }),
    decreases b.len(),
{
    reveal_with_fuel(cancelled_events, 2);
    let p = ContentPartView::ToolResult { tool_call_id: id, content, is_error };
    assert(seq![p].drop_last() =~= Seq::<ContentPartView>::empty());
    assert(seq![p].last() == p);
    assert(cancelled_events(seq![p]) =~= (if content == "cancelled by user"@ {
        seq![
            AgentEventView::ToolCallFinished {
                tool_call_id: id,
                ok: false,
                summary: "cancelled by user"@,
            },
        ]
    } else {
        Seq::<AgentEventView>::empty()
    }));
    if b.len() == 0 {
        assert(a + b =~= a);
        assert(cancelled_events(a) + cancelled_events(b) =~= cancelled_events(a));
    } else {
        cancellations_are_told(a, b.drop_last(), id, content, is_error);
        assert((a + b).drop_last() =~= a + b.drop_last());
        assert((a + b).last() == b.last());
        assert(cancelled_events(a + b) =~= cancelled_events(a) + cancelled_events(b));
    }
}

/// The model's answer is kept as it came: its text, where there is any, and behind it each call
/// with its identifier, name and arguments, in order. It ends the run where it calls no tool; else
/// its calls are due, none of them answered.
pub proof fn answer_is_kept_as_it_came(s: AgentState, repair_id: Seq<char>)
    requires
        s.calls.len() > 0 || call_in(s.text, tools::tool_names(s.tools), 0) is None,
    ensures
        ({
            let (t, sent) = s.answered(repair_id);
            let m = t.produced.last();
            let k: int = if s.text.len() == 0 {
                0
            } else {
                1
            };
            &&& t.produced == s.produced.push(m)
            &&& t.messages == s.messages.push(m)
            &&& m.role == Role::Assistant
            &&& m.parts.len() == k + s.calls.len()
            &&& k == 1 ==> m.parts[0] == (ContentPartView::Text { text: s.text })
            &&& forall|i: int|
                0 <= i < s.calls.len() ==> m.parts[k + i] == (ContentPartView::ToolCall {
                    id: (#[trigger] s.calls[i]).id,
                    name: s.calls[i].name,
                    args_json: s.calls[i].args_json,
                })
            &&& t.calls == s.calls
            &&& t.results.len() == 0
            &&& t.text == s.text && t.left == s.left && t.limit == s.limit && t.tools == s.tools
            &&& s.calls.len() > 0 ==> t.phase == Phase::Call && t.error == s.error && sent.len()
                == 0
            &&& s.calls.len() == 0 ==> t.phase == Phase::Over && t.error is None && sent == seq![
                AgentEventView::MessageDone,
            ]
        }),
{
}

/// An answer that calls no tool but writes a call as text is taken for that call: of the tool that
/// the text names, with the arguments that it gives, under an identifier of its own.
pub proof fn call_in_the_text_is_made(s: AgentState, repair_id: Seq<char>)
    requires
        s.calls.len() == 0,
        call_in(s.text, tools::tool_names(s.tools), 0) is Some,
    ensures
        ({
            let (name, args) = call_in(s.text, tools::tool_names(s.tools), 0)->0;
            let (t, sent) = s.answered(repair_id);
            &&& t.calls.len() == 1
            &&& t.calls[0].id == repair_id
            &&& t.calls[0].name == name
            &&& t.calls[0].args_json == types::sanitized(
                args,
                json::parsed(args),
                json::json_first(args),
            )
            &&& t.phase == Phase::Call
            &&& t.results.len() == 0
            &&& sent.len() == 0
            &&& t.produced == s.produced.push(t.produced.last())
            &&& t.messages == s.messages.push(t.produced.last())
            &&& t.produced.last().parts.last() == (ContentPartView::ToolCall {
                id: repair_id,
                name,
                args_json: t.calls[0].args_json,
            })
        }),
{
}

/// A text calls the tool that its first call names: a call begins at a brace, and before it no
/// brace begins one.
pub proof fn first_call_in_the_text_counts(
    t: Seq<char>,
    names: Seq<Seq<char>>,
    from: int,
    at: int,
)
    requires
        0 <= from <= at <= t.len(),
        forall|i: int|
            from <= i < at ==> (#[trigger] t[i]) != '{' || json::json_first(t.skip(i)) is None
                || call_of(json::json_first(t.skip(i))->0, names) is None,
    ensures
        at == t.len() ==> call_in(t, names, from) is None,
        at < t.len() && t[at] == '{' && json::json_first(t.skip(at)) is Some && call_of(
            json::json_first(t.skip(at))->0,
            names,
        ) is Some ==> call_in(t, names, from) == call_of(json::json_first(t.skip(at))->0, names),
    decreases at - from,
{
    if from < at {
        assert(t[from] != '{' || json::json_first(t.skip(from)) is None || call_of(
            json::json_first(t.skip(from))->0,
            names,
        ) is None);
        first_call_in_the_text_counts(t, names, from + 1, at);
    }
}

/// A value is a call where it names a known tool, under `tool`, or under `name` where there is no
/// `tool`, and its arguments are an object: those under `arguments`, else those under `args`, else
/// those under `parameters`, else none.
pub proof fn values_that_are_calls(v: JsonView, names: Seq<Seq<char>>, n: Seq<char>)
    requires
        v.field("tool"@) matches Some(x) ==> x.as_str() == Some(n),
        v.field("tool"@) is None ==> v.str_field("name"@) == Some(n),
    ensures
        !names.contains(n) ==> call_of(v, names) is None,
        v.field("arguments"@) matches Some(a) ==> {
            &&& names.contains(n) && a is Object ==> call_of(v, names) == Some(
                (n, json::json_text(a)),
            )
            &&& !(a is Object) ==> call_of(v, names) is None
        },
        v.field("arguments"@) is None ==> (v.field("args"@) matches Some(a) ==> {
            &&& names.contains(n) && a is Object ==> call_of(v, names) == Some(
                (n, json::json_text(a)),
            )
            &&& !(a is Object) ==> call_of(v, names) is None
        }),
        v.field("arguments"@) is None && v.field("args"@) is None ==> (v.field(
            "parameters"@,
        ) matches Some(a) ==> {
            &&& names.contains(n) && a is Object ==> call_of(v, names) == Some(
                (n, json::json_text(a)),
            )
            &&& !(a is Object) ==> call_of(v, names) is None
        }),
        v.field("arguments"@) is None && v.field("args"@) is None && v.field("parameters"@) is None
            && names.contains(n) ==> call_of(v, names) == Some(
            (n, json::json_text(JsonView::Object(Map::empty()))),
        ),
{
}

/// What the model says is added to its answer and shown to the user whole; a call is added behind
/// the others, with its arguments made one object.
pub proof fn answer_takes_everything_in(
    s: AgentState,
    d: Seq<char>,
    id: Seq<char>,
    name: Seq<char>,
    args: Seq<char>,
    e: ErrorView,
    input: u64,
    output: u64,
)
    ensures
        s.item(false, Ok(ChatEventView::TextDelta(d))).0 == (AgentState { text: s.text + d, ..s }),
        s.item(false, Ok(ChatEventView::TextDelta(d))).1 == seq![AgentEventView::TextDelta(d)],
        s.item(false, Ok(ChatEventView::ToolCall { id, name, args_json: args })).0 == (AgentState {
            calls: s.calls.push(
                ToolCallView {
                    id,
                    name,
                    args_json: types::sanitized(args, json::parsed(args), json::json_first(args)),
                },
            ),
            ..s
        }),
        s.item(false, Ok(ChatEventView::ToolCall { id, name, args_json: args })).1.len() == 0,
        s.item(
            false,
            Ok(ChatEventView::Usage { input_tokens: input, output_tokens: output }),
        ) == (s, Seq::<AgentEventView>::empty()),
        s.item(false, Ok(ChatEventView::Done)).0 == (AgentState { phase: Phase::Answered, ..s }),
        s.item(false, Ok(ChatEventView::Done)).1.len() == 0,
        s.item(false, Ok(ChatEventView::Error(d))).0 == (AgentState {
            phase: Phase::Over,
            error: Some(ErrorView::Provider { status: 0, body: d }),
            ..s
        }),
        s.item(false, Ok(ChatEventView::Error(d))).1 == seq![
            AgentEventView::Error("provider returned status 0: "@ + d),
        ],
        s.item(false, Err(e)).0 == (AgentState { phase: Phase::Over, error: Some(e), ..s }),
        s.item(false, Err(e)).1 == seq![AgentEventView::Error(e.message())],
        forall|item: Result<ChatEventView, ErrorView>|
            (#[trigger] s.item(true, item)).0 == (AgentState {
                phase: Phase::Over,
                error: Some(ErrorView::Cancelled),
                ..s
            }) && s.item(true, item).1 == seq![AgentEventView::Cancelled],
{
    reveal_strlit("provider returned status ");
    reveal_strlit(": ");
    reveal_strlit("provider returned status 0: ");
    reveal_strlit("0");
    text::decimal_digits_count_ten_times(0, 0);
    assert((ErrorView::Provider { status: 0, body: d }).message()
        =~= "provider returned status 0: "@ + d);
}

/// The text of the model's answer is all that its deltas said, in the order in which they came,
/// and so is what the user was shown.
pub proof fn answer_is_all_that_was_said(s: AgentState, events: Seq<ChatEventView>)
    requires
        forall|i: int|
            0 <= i < events.len() ==> (#[trigger] events[i]) is TextDelta || events[i] is ToolCall
                || events[i] is Usage,
    ensures
        ({
            let steps = events.map_values(
                |e: ChatEventView| Step::Item { cancelled: false, item: Ok(e) },
            );
            let (t, sent) = s.after(steps);
            &&& t.text == s.text + types::said(events)
            &&& t.phase == s.phase
            &&& t.messages == s.messages
            &&& t.produced == s.produced
            &&& shown(sent) == types::said(events)
        }),
    decreases events.len(),
{
    let f = |e: ChatEventView| Step::Item { cancelled: false, item: Ok(e) };
    let steps = events.map_values(f);
    if events.len() > 0 {
        let before = events.drop_last();
        assert forall|i: int| 0 <= i < before.len() implies (#[trigger] before[i]) is TextDelta
            || before[i] is ToolCall || before[i] is Usage by {
            assert(before[i] == events[i]);
        }
        answer_is_all_that_was_said(s, before);
        assert(steps.drop_last() =~= before.map_values(f));
        assert(steps.last() == f(events.last()));
        let (u, told) = s.after(steps.drop_last());
        let more = u.next(steps.last()).1;
        assert(events[events.len() - 1] == events.last());
        match events.last() {
            ChatEventView::TextDelta(d) => {
                assert(told + more =~= told.push(AgentEventView::TextDelta(d)));
                assert((told + more).drop_last() =~= told);
                assert(s.text + types::said(before) + d =~= s.text + types::said(events));
            },
            _ => {
                assert(told + more =~= told);
            },
        }
    }
}

/// The text that the user was shown.
pub open spec fn shown(events: Seq<AgentEventView>) -> Seq<char>
    decreases events.len(),
{
    if events.len() == 0 {
        Seq::empty()
    } else {
        match events.last() {
            AgentEventView::TextDelta(d) => shown(events.drop_last()) + d,
            _ => shown(events.drop_last()),
        }
    }
}

/// A turn begins with everything so far and an empty answer, and takes one of the turns that are
/// left; without one the run fails, and a cancelled run ends.
pub proof fn turn_begins_with_everything_so_far(s: AgentState)
    ensures
        s.left > 0 ==> s.begin(false).0 == (AgentState {
            left: (s.left - 1) as nat,
            text: Seq::empty(),
            calls: Seq::empty(),
            results: Seq::empty(),
            phase: Phase::Stream,
            ..s
        }) && s.begin(false).1.len() == 0,
        s.left > 0 ==> s.begin(true).0 == (AgentState {
            phase: Phase::Over,
            error: Some(ErrorView::Cancelled),
            ..s
        }) && s.begin(true).1 == seq![AgentEventView::Cancelled],
        s.left == 0 ==> (forall|cancelled: bool|
            (#[trigger] s.begin(cancelled)).0 == (AgentState {
                phase: Phase::Over,
                error: Some(
                    ErrorView::Tool("max iterations ("@ + text::decimal(s.limit) + ") reached"@),
                ),
                ..s
            })),
{
}

/// A run starts with the system prompt and the whole history behind it, and with nothing produced.
pub proof fn run_starts_with_the_history(
    system: Seq<char>,
    history: Seq<MessageView>,
    tools: Seq<(Seq<char>, bool)>,
    specs: Seq<ToolSpecView>,
    limit: nat,
)
    ensures
        ({
            let s = AgentState::start(system, history, tools, specs, limit);
            &&& s.messages.len() == 1 + history.len()
            &&& s.messages[0].role == Role::System
            &&& s.messages[0].parts == seq![ContentPartView::Text { text: system }]
            &&& s.messages.skip(1) == history
            &&& s.prelude == s.messages
            &&& s.produced.len() == 0
            &&& s.tools == tools && s.specs == specs
            &&& s.limit == limit && s.left == limit
            &&& s.text.len() == 0 && s.calls.len() == 0 && s.results.len() == 0
            &&& s.phase == Phase::Turn
            &&& s.error is None
        }),
{
    let s = AgentState::start(system, history, tools, specs, limit);
    assert(s.messages.skip(1) =~= history);
}

/// The system prompt tells where the workspace is, which tools there are, and whether they wait
/// for the user.
pub proof fn prompt_tells_of_workspace_and_tools(root: Seq<char>, names: Seq<Seq<char>>)
    ensures
        prompt(root, ApprovalMode::Manual, names)
            == "You are Supergravity, a coding agent.\nWorkspace root: "@ + root
            + "\nAvailable tools: "@ + text::joined(names, seq![',', ' ']) + GUIDE@
            + "File writes and shell commands require explicit user approval before executing."@,
        prompt(root, ApprovalMode::Auto, names)
            == "You are Supergravity, a coding agent.\nWorkspace root: "@ + root
            + "\nAvailable tools: "@ + text::joined(names, seq![',', ' ']) + GUIDE@
            + "You may write files and run shell commands without user approval."@,
        DEFAULT_MAX_ITERATIONS == 50,
{
    reveal_strlit(", ");
    assert(", "@ =~= seq![',', ' ']);
}

/// The tools that change files are `write_file` and `edit_file`. Before such a call the file that
/// it names is kept, where it lies in the workspace.
pub proof fn changed_file_is_kept(root: Seq<char>, name: Seq<char>, args: Option<JsonView>)
    ensures
        changes_file(name) <==> name == "write_file"@ || name == "edit_file"@,
        backup_target_of(root, args) is Some <==> (args matches Some(v) && v.str_field(
            "path"@,
        ) matches Some(p) && tools::resolved(root, p) is Ok),
        backup_target_of(root, args) matches Some((p, abs)) ==> args->0.str_field("path"@)
            == Some(p) && tools::resolved(root, p) == Ok::<Seq<char>, ErrorView>(abs),
{
}

} // verus!
