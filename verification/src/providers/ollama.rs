//! The local Ollama service (`/api/chat`, one JSON value per line, no API key).
use crate::json::{Json, JsonView};
use crate::providers::{Request, RequestView};
use crate::types::{ChatEvent, ChatEventView, ContentPart, ContentPartView, Message, MessageView, Role, ToolSpec, ToolSpecView};
use crate::{ids, json, providers, text, types};
use vstd::prelude::*;
use vstd::string::*;

verus! {

/// Ollama local backend (`/api/chat`, NDJSON streaming, no API key).
pub struct OllamaProvider {
    pub base_url: String,
}

impl OllamaProvider {
    pub fn new(base_url: Option<&str>) -> (r: Self)
        ensures
            r.base_url@ == providers::base(
                providers::opt_str(base_url),
                "http://localhost:11434"@,
            ),
    {
        OllamaProvider { base_url: providers::base_of(base_url, "http://localhost:11434") }
    }

    /// The request for one turn of the assistant.
    pub fn request(&self, model: &str, messages: &[Message], tools: &[ToolSpec]) -> (r: Request)
        ensures
            r@ == (RequestView {
                url: self.base_url@ + "/api/chat"@,
                headers: Seq::empty(),
                body: body(model@, types::message_views(messages@), types::spec_views(tools@)),
            }),
    {
        let headers: Vec<(String, String)> = Vec::new();
        assert(providers::header_views(headers@) =~= Seq::<(Seq<char>, Seq<char>)>::empty());
        let url = text::concat2(self.base_url.as_str(), "/api/chat");
        Request { url, headers, body: build_body(model, messages, tools) }
    }
}

/// A tool call of an assistant message.
pub open spec fn call_entry(p: ContentPartView) -> Option<JsonView> {
    match p {
        ContentPartView::ToolCall { id, name, args_json } => Some(
            providers::obj(
                map![
                    "type"@ => providers::jstr("function"@),
                    "function"@ => providers::obj(map![
                        "name"@ => providers::jstr(name),
                        "arguments"@ => providers::args_value(args_json),
                    ]),
                ],
            ),
        ),
        _ => None,
    }
}

/// A tool result as a message of its own.
pub open spec fn result_entry(p: ContentPartView) -> Option<JsonView> {
    match p {
        ContentPartView::ToolResult { tool_call_id, content, is_error } => Some(
            providers::obj(
                map![
                    "role"@ => providers::jstr("tool"@),
                    "content"@ => providers::jstr(content),
                ],
            ),
        ),
        _ => None,
    }
}

/// A text message, with tool calls where there are any.
pub open spec fn message(role: Seq<char>, parts: Seq<ContentPartView>, with_calls: bool) -> JsonView {
    let calls = providers::picked(parts, |p: ContentPartView| call_entry(p));
    let m = map![
        "role"@ => providers::jstr(role),
        "content"@ => providers::jstr(providers::text_of(parts)),
    ];
    if with_calls && calls.len() > 0 {
        providers::obj(m.insert("tool_calls"@, JsonView::Array(calls)))
    } else {
        providers::obj(m)
    }
}

/// The entries for one message; each tool result is one of its own.
pub open spec fn message_entries(m: MessageView) -> Seq<JsonView> {
    match m.role {
        Role::System => seq![message("system"@, m.parts, false)],
        Role::User => seq![message("user"@, m.parts, false)],
        Role::Assistant => seq![message("assistant"@, m.parts, true)],
        Role::Tool => providers::picked(m.parts, |p: ContentPartView| result_entry(p)),
    }
}

/// The entries for the messages.
pub open spec fn all_entries(msgs: Seq<MessageView>) -> Seq<JsonView>
    decreases msgs.len(),
{
    if msgs.len() == 0 {
        Seq::empty()
    } else {
        all_entries(msgs.drop_last()) + message_entries(msgs.last())
    }
}

/// The body of a request.
pub open spec fn body(
    model: Seq<char>,
    msgs: Seq<MessageView>,
    tools: Seq<ToolSpecView>,
) -> JsonView {
    let m = map![
        "model"@ => providers::jstr(model),
        "stream"@ => JsonView::Bool(true),
        "messages"@ => JsonView::Array(all_entries(msgs)),
    ];
    if tools.len() == 0 {
        providers::obj(m)
    } else {
        providers::obj(
            m.insert("tools"@, JsonView::Array(providers::function_tool_list(tools))),
        )
    }
}

fn call_entries(m: &Message) -> (r: Vec<Json>)
    ensures
        json::array_view(r@) == providers::picked(m@.parts, |p: ContentPartView| call_entry(p)),
{
    let mut out: Vec<Json> = Vec::new();
    let mut i: usize = 0;
    while i < m.parts.len()
        invariant
            i <= m.parts.len(),
            json::array_view(out@) == providers::picked(
                types::part_views(m.parts@.take(i as int)),
                |p: ContentPartView| call_entry(p),
            ),
        decreases m.parts.len() - i,
    {
        proof {
            types::lemma_part_views_take(m.parts@, i as int);
        }
        if let ContentPart::ToolCall { id: _, name, args_json } = &m.parts[i] {
            let f = Json::object().with("name", Json::str(name.as_str())).with(
                "arguments",
                providers::parse_args(args_json.as_str()),
            );
            let c = Json::object().with("type", Json::str("function")).with("function", f);
            proof {
                json::lemma_array_view_push(out@, c);
            }
            out.push(c);
        }
        i += 1;
    }
    assert(m.parts@.take(m.parts.len() as int) =~= m.parts@);
    out
}

fn push_results(m: &Message, out: &mut Vec<Json>)
    ensures
        json::array_view(final(out)@) == json::array_view(old(out)@) + providers::picked(
            m@.parts,
            |p: ContentPartView| result_entry(p),
        ),
{
    let mut i: usize = 0;
    assert(json::array_view(out@) + Seq::<JsonView>::empty() =~= json::array_view(out@));
    while i < m.parts.len()
        invariant
            i <= m.parts.len(),
            json::array_view(out@) == json::array_view(old(out)@) + providers::picked(
                types::part_views(m.parts@.take(i as int)),
                |p: ContentPartView| result_entry(p),
            ),
        decreases m.parts.len() - i,
    {
        proof {
            types::lemma_part_views_take(m.parts@, i as int);
        }
        if let ContentPart::ToolResult { tool_call_id: _, content, is_error: _ } = &m.parts[i] {
            let c = Json::object().with("role", Json::str("tool")).with(
                "content",
                Json::str(content.as_str()),
            );
            proof {
                json::lemma_array_view_push(out@, c);
                let before = providers::picked(
                    types::part_views(m.parts@.take(i as int)),
                    |p: ContentPartView| result_entry(p),
                );
                assert(json::array_view(old(out)@) + before.push(c@) =~= (json::array_view(
                    old(out)@,
                ) + before).push(c@));
            }
            out.push(c);
        }
        i += 1;
    }
    assert(m.parts@.take(m.parts.len() as int) =~= m.parts@);
}

fn message_json(role: &str, m: &Message, with_calls: bool) -> (r: Json)
    ensures
        r@ == message(role@, m@.parts, with_calls),
{
    let t = providers::concat_text(m);
    let msg = Json::object().with("role", Json::str(role)).with("content", Json::Str(t));
    if with_calls {
        let calls = call_entries(m);
        proof {
            json::lemma_array_view(calls@);
        }
        if calls.len() > 0 {
            return msg.with("tool_calls", Json::Array(calls));
        }
    }
    msg
}

/// The entries for the messages.
pub fn ollama_messages(messages: &[Message]) -> (r: Vec<Json>)
    ensures
        json::array_view(r@) == all_entries(types::message_views(messages@)),
{
    let mut out: Vec<Json> = Vec::new();
    let mut i: usize = 0;
    while i < messages.len()
        invariant
            i <= messages.len(),
            json::array_view(out@) == all_entries(types::message_views(messages@.take(i as int))),
        decreases messages.len() - i,
    {
        let m = &messages[i];
        let ghost before = json::array_view(out@);
        proof {
            types::lemma_message_views_take(messages@, i as int);
        }
        match m.role {
            Role::Tool => {
                push_results(m, &mut out);
            },
            _ => {
                let j = match m.role {
                    Role::System => message_json("system", m, false),
                    Role::User => message_json("user", m, false),
                    _ => message_json("assistant", m, true),
                };
                proof {
                    json::lemma_array_view_push(out@, j);
                    assert(before.push(j@) =~= before + seq![j@]);
                }
                out.push(j);
            },
        }
        i += 1;
    }
    assert(messages@.take(messages.len() as int) =~= messages@);
    out
}

/// The body of a request.
pub fn build_body(model: &str, messages: &[Message], tools: &[ToolSpec]) -> (r: Json)
    ensures
        r@ == body(model@, types::message_views(messages@), types::spec_views(tools@)),
{
    let b = Json::object().with("model", Json::str(model)).with("stream", Json::Bool(true)).with(
        "messages",
        Json::Array(ollama_messages(messages)),
    );
    if tools.len() == 0 {
        b
    } else {
        b.with("tools", providers::function_tools(tools))
    }
}

/// A call as an event, yet without an identifier.
pub open spec fn call_event(call: JsonView) -> ChatEventView {
    let f = call.at("function"@);
    ChatEventView::ToolCall {
        id: Seq::empty(),
        name: providers::or_text(f.str_field("name"@), Seq::empty()),
        args_json: match f.field("arguments"@) {
            Some(a) => json::json_text(a),
            None => "{}"@,
        },
    }
}

/// The calls as events.
pub open spec fn call_events(calls: Seq<JsonView>) -> Seq<ChatEventView> {
    calls.map_values(|c: JsonView| call_event(c))
}

/// The usage of an answer.
pub open spec fn usage_event(v: JsonView) -> ChatEventView {
    ChatEventView::Usage {
        input_tokens: providers::or_zero(v.at("prompt_eval_count"@).as_u64()),
        output_tokens: providers::or_zero(v.at("eval_count"@).as_u64()),
    }
}

/// An answer under way: whether the end of the stream adds no `Done`, and whether an error came.
pub struct OllamaState {
    pub done: bool,
    pub failed: bool,
}

impl OllamaState {
    /// An answer at its start.
    pub open spec fn start() -> OllamaState {
        OllamaState { done: false, failed: false }
    }

    /// The end of the stream: a `Done` where none came and no error did.
    pub open spec fn end(self) -> (OllamaState, Seq<ChatEventView>) {
        (
            OllamaState { done: true, ..self },
            if self.done {
                Seq::empty()
            } else {
                seq![ChatEventView::Done]
            },
        )
    }
}

/// What a line that parses does: the state then, and the events that it gives. Each line that
/// says so ends the answer, with its usage; but no `Done` follows an error.
pub open spec fn value_step(st: OllamaState, v: JsonView) -> (OllamaState, Seq<ChatEventView>) {
    match v.str_field("error"@) {
        Some(e) => (
            OllamaState { done: true, failed: true },
            seq![ChatEventView::Error(e)],
        ),
        None => {
            let m = v.at("message"@);
            let said = providers::text_event(m.str_field("content"@));
            let called = match m.at("tool_calls"@).as_array() {
                Some(calls) => call_events(calls),
                None => Seq::empty(),
            };
            if v.at("done"@).as_bool() == Some(true) {
                (
                    OllamaState { done: true, ..st },
                    said + called + if st.failed {
                        seq![usage_event(v)]
                    } else {
                        seq![usage_event(v), ChatEventView::Done]
                    },
                )
            } else {
                (st, said + called)
            }
        },
    }
}

/// What a line does. What does not parse is skipped, blank lines among it.
pub open spec fn line_step(st: OllamaState, line: Seq<char>) -> (
    OllamaState,
    Seq<ChatEventView>,
) {
    let t = text::trimmed(line);
    if t.len() == 0 {
        (st, Seq::empty())
    } else {
        match json::json_parsed(t) {
            Ok(v) => value_step(st, v),
            Err(_) => (st, Seq::empty()),
        }
    }
}

/// Assembles Ollama NDJSON lines into [`ChatEvent`]s.
pub struct OllamaAssembler {
    done_emitted: bool,
    failed: bool,
}

impl OllamaAssembler {
    /// The state of the answer.
    pub closed spec fn state(self) -> OllamaState {
        OllamaState { done: self.done_emitted, failed: self.failed }
    }

    /// Takes a line in; returns the events that it gives, each call with an identifier of its
    /// own.
    pub fn push_line(&mut self, line: &str) -> (r: Vec<ChatEvent>)
        ensures
            final(self).state() == line_step(old(self).state(), line@).0,
            ids::all_identified(
                "ollama-"@,
                line_step(old(self).state(), line@).1,
                types::chat_views(r@),
            ),
    {
        let t = text::trim(line);
        if t.as_str().is_empty() {
            return Vec::new();
        }
        match json::parse(t.as_str()) {
            Ok(v) => {
                let drafts = self.push_value(&v);
                ids::identify("ollama-", drafts)
            },
            Err(_) => Vec::new(),
        }
    }

    /// Takes a line in that parsed to `v`; returns the events that it gives, the calls yet
    /// without identifiers.
    pub fn push_value(&mut self, v: &Json) -> (r: Vec<ChatEvent>)
        ensures
            final(self).state() == value_step(old(self).state(), v@).0,
            types::chat_views(r@) == value_step(old(self).state(), v@).1,
    {
        let mut out: Vec<ChatEvent> = Vec::new();
        assert(types::chat_views(out@) =~= Seq::<ChatEventView>::empty());
        if let Some(e) = v.str_field("error") {
            self.done_emitted = true;
            self.failed = true;
            providers::emit(&mut out, ChatEvent::Error(e.to_owned()));
            assert(types::chat_views(out@) =~= value_step(old(self).state(), v@).1);
            return out;
        }
        let ghost m = v@.at("message"@);
        let ghost said = providers::text_event(m.str_field("content"@));
        let ghost called = match m.at("tool_calls"@).as_array() {
            Some(calls) => call_events(calls),
            None => Seq::empty(),
        };
        if let Some(msg) = v.get("message") {
            providers::emit_text(&mut out, msg.str_field("content"));
            assert(types::chat_views(out@) =~= said);
            if let Some(cs) = msg.get("tool_calls") {
                if let Some(calls) = cs.as_array() {
                    push_calls(calls, &mut out);
                }
            }
        }
        assert(types::chat_views(out@) =~= said + called);
        if let Some(d) = v.get("done") {
            if d.as_bool() == Some(true) {
                self.done_emitted = true;
                let input_tokens = providers::number_at(v, "prompt_eval_count");
                let output_tokens = providers::number_at(v, "eval_count");
                providers::emit(&mut out, ChatEvent::Usage { input_tokens, output_tokens });
                if !self.failed {
                    providers::emit(&mut out, ChatEvent::Done);
                }
            }
        }
        assert(types::chat_views(out@) =~= value_step(old(self).state(), v@).1);
        out
    }

    /// Ends the stream.
    pub fn finish(&mut self) -> (r: Vec<ChatEvent>)
        ensures
            final(self).state() == old(self).state().end().0,
            types::chat_views(r@) == old(self).state().end().1,
    {
        let mut out: Vec<ChatEvent> = Vec::new();
        if !self.done_emitted {
            self.done_emitted = true;
            out.push(ChatEvent::Done);
        }
        assert(types::chat_views(out@) =~= old(self).state().end().1);
        out
    }
}

impl Default for OllamaAssembler {
    fn default() -> (r: Self)
        ensures
            r.state() == OllamaState::start(),
    {
        OllamaAssembler { done_emitted: false, failed: false }
    }
}

fn push_calls(calls: &Vec<Json>, out: &mut Vec<ChatEvent>)
    ensures
        types::chat_views(final(out)@) == types::chat_views(old(out)@) + call_events(
            json::array_view(calls@),
        ),
{
    let ghost all = json::array_view(calls@);
    let ghost start = types::chat_views(out@);
    let mut i: usize = 0;
    proof {
        json::lemma_array_view(calls@);
        assert(start + call_events(all).take(0) =~= start);
    }
    while i < calls.len()
        invariant
            i <= calls.len(),
            all == json::array_view(calls@),
            all.len() == calls.len(),
            forall|k: int|
                0 <= k < calls.len() ==> #[trigger] json::array_view(calls@)[k]
                    == calls@[k].view(),
            types::chat_views(out@) == start + call_events(all).take(i as int),
        decreases calls.len() - i,
    {
        let ghost before = types::chat_views(out@);
        let call = &calls[i];
        assert(all[i as int] == call@);
        let mut name = String::new();
        let mut args_json = "{}".to_owned();
        if let Some(f) = call.get("function") {
            if let Some(n) = f.str_field("name") {
                name = n.to_owned();
            }
            if let Some(a) = f.get("arguments") {
                args_json = json::render(a);
            }
        }
        providers::emit(out, ChatEvent::ToolCall { id: String::new(), name, args_json });
        assert(call_events(all)[i as int] == call_event(call@));
        assert(types::chat_views(out@) =~= start + call_events(all).take(i + 1));
        i += 1;
    }
    assert(call_events(all).take(calls.len() as int) =~= call_events(all));
}

/// What the lines of a stream do, one after the other.
pub open spec fn all_lines(lines: Seq<Seq<char>>) -> (OllamaState, Seq<ChatEventView>)
    decreases lines.len(),
{
    if lines.len() == 0 {
        (OllamaState::start(), Seq::empty())
    } else {
        let (st, before) = all_lines(lines.drop_last());
        let (now, events) = line_step(st, lines.last());
        (now, before + events)
    }
}

/// Whether a line reports an error.
pub open spec fn is_error_line(line: Seq<char>) -> bool {
    let t = text::trimmed(line);
    t.len() > 0 && (json::json_parsed(t) matches Ok(v) && v.str_field("error"@) is Some)
}

/// Whether a line says that the answer is done.
pub open spec fn is_done_line(line: Seq<char>) -> bool {
    let t = text::trimmed(line);
    t.len() > 0 && (json::json_parsed(t) matches Ok(v) && v.str_field("error"@) is None && v.at(
        "done"@,
    ).as_bool() == Some(true))
}

/// Whether one of the lines reports an error.
pub open spec fn any_error_line(lines: Seq<Seq<char>>) -> bool {
    exists|i: int| 0 <= i < lines.len() && is_error_line(#[trigger] lines[i])
}

/// How many lines say that the answer is done, without an error before them.
pub open spec fn done_lines(lines: Seq<Seq<char>>) -> nat
    decreases lines.len(),
{
    if lines.len() == 0 {
        0
    } else {
        done_lines(lines.drop_last()) + if is_done_line(lines.last()) && !any_error_line(
            lines.drop_last(),
        ) {
            1nat
        } else {
            0
        }
    }
}

proof fn lemma_line(st: OllamaState, line: Seq<char>)
    requires
        st.failed ==> st.done,
    ensures
        ({
            let (now, events) = line_step(st, line);
            &&& now.failed == (st.failed || is_error_line(line))
            &&& now.done == (st.done || is_error_line(line) || is_done_line(line))
            &&& providers::dones(events) == (if is_done_line(line) && !st.failed {
                1nat
            } else {
                0
            })
            &&& st.failed ==> forall|i: int|
                0 <= i < events.len() ==> !((#[trigger] events[i]) is Done)
            &&& providers::has_error(events) ==> now.failed && events.len() == 1
        }),
{
    reveal_with_fuel(providers::dones, 3);
    let t = text::trimmed(line);
    if t.len() > 0 && json::json_parsed(t) is Ok {
        let v = json::json_parsed(t)->Ok_0;
        let (now, events) = value_step(st, v);
        match v.str_field("error"@) {
            Some(e) => {
                providers::lemma_no_dones(events);
            },
            None => {
                let m = v.at("message"@);
                let said = providers::text_event(m.str_field("content"@));
                let called = match m.at("tool_calls"@).as_array() {
                    Some(calls) => call_events(calls),
                    None => Seq::empty(),
                };
                providers::lemma_no_dones(said + called);
                if is_done_line(line) && !st.failed {
                    let last = seq![usage_event(v), ChatEventView::Done];
                    providers::lemma_dones_concat(said + called, last);
                    assert(last.drop_last() =~= seq![last[0]]);
                    assert(last.drop_last().drop_last() =~= Seq::<ChatEventView>::empty());
                } else {
                    providers::lemma_no_dones(events);
                }
                assert(!providers::has_error(events));
            },
        }
    }
}

proof fn lemma_all_lines(lines: Seq<Seq<char>>)
    ensures
        ({
            let (st, events) = all_lines(lines);
            &&& st.failed == any_error_line(lines)
            &&& st.done == (st.failed || done_lines(lines) > 0)
            &&& providers::dones(events) == done_lines(lines)
            &&& providers::no_end_behind_an_error(events)
            &&& providers::has_error(events) ==> st.failed
        }),
    decreases lines.len(),
{
    if lines.len() > 0 {
        let head = lines.drop_last();
        lemma_all_lines(head);
        let (before, sofar) = all_lines(head);
        let (now, more) = line_step(before, lines.last());
        lemma_line(before, lines.last());
        providers::lemma_dones_concat(sofar, more);
        providers::lemma_error_order(sofar, before.failed, more, now.failed);
        if any_error_line(head) {
            let i = choose|i: int| 0 <= i < head.len() && is_error_line(#[trigger] head[i]);
            assert(is_error_line(lines[i]));
        }
        if any_error_line(lines) {
            let i = choose|i: int| 0 <= i < lines.len() && is_error_line(#[trigger] lines[i]);
            if i < head.len() {
                assert(is_error_line(head[i]));
            }
        }
        assert(lines[lines.len() - 1] == lines.last());
    }
}

/// Behind an error no `Done` follows, whatever arrives. Each line before it that says that the
/// answer is done gives one; and where there is neither such a line nor an error, the end of the
/// stream does.
pub proof fn stream_ends_unless_it_failed(lines: Seq<Seq<char>>)
    ensures
        ({
            let (st, events) = all_lines(lines);
            let all = events + st.end().1;
            &&& providers::no_end_behind_an_error(all)
            &&& providers::dones(all) == (if done_lines(lines) == 0 && !any_error_line(lines) {
                1
            } else {
                done_lines(lines)
            })
        }),
{
    lemma_all_lines(lines);
    let (st, events) = all_lines(lines);
    let last = st.end().1;
    providers::lemma_dones_concat(events, last);
    reveal_with_fuel(providers::dones, 2);
    assert(!st.done ==> last.drop_last() =~= Seq::<ChatEventView>::empty());
    providers::lemma_error_order(events, st.failed, last, true);
}

/// The text that the lines of a stream hold, one after the other: what stands under `content` in
/// their messages; an error holds none.
pub open spec fn all_text(lines: Seq<Seq<char>>) -> Seq<char>
    decreases lines.len(),
{
    if lines.len() == 0 {
        Seq::empty()
    } else {
        let t = text::trimmed(lines.last());
        all_text(lines.drop_last()) + if t.len() == 0 {
            Seq::empty()
        } else {
            match json::json_parsed(t) {
                Ok(v) => match (v.at("error"@), v.at("message"@).at("content"@)) {
                    (JsonView::Str(_), _) => Seq::empty(),
                    (_, JsonView::Str(s)) => s,
                    _ => Seq::empty(),
                },
                Err(_) => Seq::empty(),
            }
        }
    }
}

/// The answer says all that the lines hold and nothing else: the text deltas of a stream, put
/// together, are the contents of its messages, in the order in which they arrived and as soon as
/// they arrive. The end of the stream says nothing more.
pub proof fn answer_says_all_that_arrived(lines: Seq<Seq<char>>)
    ensures
        types::said(all_lines(lines).1) == all_text(lines),
        types::said(all_lines(lines).1 + all_lines(lines).0.end().1) == all_text(lines),
    decreases lines.len(),
{
    let (st, events) = all_lines(lines);
    if lines.len() > 0 {
        answer_says_all_that_arrived(lines.drop_last());
        let (before, sofar) = all_lines(lines.drop_last());
        let t = text::trimmed(lines.last());
        let more = line_step(before, lines.last()).1;
        types::said_in_order(sofar, more, ChatEventView::Done);
        if t.len() > 0 && json::json_parsed(t) is Ok {
            let v = json::json_parsed(t)->Ok_0;
            if v.at("error"@) is Str {
                types::lemma_nothing_said(more);
            } else {
                let content = v.at("message"@).str_field("content"@);
                let text = providers::text_event(content);
                providers::text_is_passed_on_whole(content);
                let rest = more.skip(text.len() as int);
                assert(more =~= text + rest);
                types::lemma_nothing_said(rest);
                types::said_in_order(text, rest, ChatEventView::Done);
                assert(types::said(text) + Seq::<char>::empty() =~= types::said(text));
            }
        }
    }
    types::lemma_nothing_said(st.end().1);
    types::said_in_order(events, st.end().1, ChatEventView::Done);
    assert(types::said(events) + Seq::<char>::empty() =~= types::said(events));
}

/// Every call of a message is given out, in order, with its name and its arguments as they print;
/// an empty object stands for arguments that are missing.
pub proof fn every_call_is_given_out(calls: Seq<JsonView>, i: int)
    requires
        0 <= i < calls.len(),
    ensures
        call_events(calls).len() == calls.len(),
        call_events(calls)[i] == (ChatEventView::ToolCall {
            id: Seq::empty(),
            name: match calls[i].at("function"@).at("name"@) {
                JsonView::Str(n) => n,
                _ => Seq::empty(),
            },
            args_json: match calls[i].at("function"@).field("arguments"@) {
                Some(a) => json::json_text(a),
                None => seq!['{', '}'],
            },
        }),
{
    reveal_strlit("{}");
    assert("{}"@ =~= seq!['{', '}']);
}

/// A line is an error, a chunk of the answer, or noise. An error is reported and ends the answer;
/// a chunk gives its text, then its calls, and the last chunk then the usage and the end, unless
/// an error came before; noise does nothing. The end of the stream ends an answer that has not
/// ended.
pub proof fn lines_do_what_they_say(st: OllamaState, line: Seq<char>)
    ensures
        ({
            let t = text::trimmed(line);
            let nothing = Seq::<ChatEventView>::empty();
            if t.len() == 0 || json::json_parsed(t) is Err {
                line_step(st, line) == (st, nothing)
            } else {
                let v = json::json_parsed(t)->Ok_0;
                match v.at("error"@) {
                    JsonView::Str(e) => line_step(st, line) == (
                        OllamaState { done: true, failed: true },
                        seq![ChatEventView::Error(e)],
                    ),
                    _ => {
                        let text = match v.at("message"@).at("content"@) {
                            JsonView::Str(s) => if s.len() > 0 {
                                seq![ChatEventView::TextDelta(s)]
                            } else {
                                nothing
                            },
                            _ => nothing,
                        };
                        let called = match v.at("message"@).at("tool_calls"@) {
                            JsonView::Array(calls) => call_events(calls),
                            _ => nothing,
                        };
                        let usage = ChatEventView::Usage {
                            input_tokens: match v.at("prompt_eval_count"@).as_u64() {
                                Some(n) => n,
                                None => 0,
                            },
                            output_tokens: match v.at("eval_count"@).as_u64() {
                                Some(n) => n,
                                None => 0,
                            },
                        };
                        if v.at("done"@) == JsonView::Bool(true) {
                            &&& line_step(st, line).0 == (OllamaState {
                                done: true,
                                failed: st.failed,
                            })
                            &&& st.failed ==> line_step(st, line).1 == text + called + seq![usage]
                            &&& !st.failed ==> line_step(st, line).1 == text + called + seq![
                                usage,
                                ChatEventView::Done,
                            ]
                        } else {
                            line_step(st, line) == (st, text + called)
                        }
                    },
                }
            }
        }),
        st.end().0 == (OllamaState { done: true, failed: st.failed }),
        st.done ==> st.end().1.len() == 0,
        !st.done ==> st.end().1 == seq![ChatEventView::Done],
        OllamaState::start() == (OllamaState { done: false, failed: false }),
{
}

proof fn lemma_request_keys()
    ensures
        "role"@ != "content"@ && "role"@ != "tool_calls"@ && "content"@ != "tool_calls"@,
        "type"@ != "function"@ && "name"@ != "arguments"@,
        "model"@ != "stream"@ && "model"@ != "messages"@ && "model"@ != "tools"@,
        "stream"@ != "messages"@ && "stream"@ != "tools"@ && "messages"@ != "tools"@,
{
    reveal_strlit("role");
    reveal_strlit("content");
    reveal_strlit("tool_calls");
    reveal_strlit("type");
    reveal_strlit("function");
    reveal_strlit("name");
    reveal_strlit("arguments");
    reveal_strlit("model");
    reveal_strlit("stream");
    reveal_strlit("messages");
    reveal_strlit("tools");
    assert("role"@.len() == 4 && "content"@.len() == 7 && "tool_calls"@.len() == 10);
    assert("type"@.len() == 4 && "function"@.len() == 8 && "name"@.len() == 4);
    assert("arguments"@.len() == 9 && "stream"@.len() == 6 && "messages"@.len() == 8);
    assert("model"@[0] == 'm' && "tools"@[0] == 't');
    assert("model"@.len() == 5 && "tools"@.len() == 5);
}

/// The messages are sent in order, each one with everything that it holds.
pub proof fn messages_are_sent_in_order(a: Seq<MessageView>, b: Seq<MessageView>, m: MessageView)
    ensures
        all_entries(a + b) == all_entries(a) + all_entries(b),
        all_entries(Seq::empty()).len() == 0,
        all_entries(seq![m]) == message_entries(m),
    decreases b.len(),
{
    reveal_with_fuel(all_entries, 2);
    assert(seq![m].drop_last() =~= Seq::<MessageView>::empty());
    assert(seq![m].last() == m);
    assert(all_entries(seq![m]) =~= message_entries(m));
    if b.len() == 0 {
        assert(a + b =~= a);
        assert(all_entries(a) + all_entries(b) =~= all_entries(a));
    } else {
        messages_are_sent_in_order(a, b.drop_last(), m);
        assert((a + b).drop_last() =~= a + b.drop_last());
        assert((a + b).last() == b.last());
        assert(all_entries(a + b) =~= all_entries(a) + all_entries(b));
    }
}

/// A message of the system, the user or the assistant is one entry with its role and its whole
/// text; one of the assistant with calls lists them.
pub proof fn messages_keep_role_and_text(m: MessageView)
    requires
        m.role != Role::Tool,
    ensures
        ({
            let e = message_entries(m)[0];
            let calls = providers::picked(m.parts, |p: ContentPartView| call_entry(p));
            &&& message_entries(m).len() == 1
            &&& e.str_field("role"@) == Some(
                match m.role {
                    Role::System => "system"@,
                    Role::User => "user"@,
                    _ => "assistant"@,
                },
            )
            &&& e.str_field("content"@) == Some(providers::text_of(m.parts))
            &&& m.role == Role::Assistant && calls.len() > 0 ==> e.field("tool_calls"@) == Some(
                JsonView::Array(calls),
            )
            &&& m.role != Role::Assistant || calls.len() == 0 ==> e.field("tool_calls"@) is None
        }),
{
    lemma_request_keys();
}

/// A call is sent with its name and its arguments; a result is sent as a message of its own, with
/// its whole content, and the results of a message in order.
pub proof fn calls_and_results_are_sent_whole(
    id: Seq<char>,
    name: Seq<char>,
    args: Seq<char>,
    content: Seq<char>,
    is_error: bool,
    a: Seq<ContentPartView>,
    b: Seq<ContentPartView>,
)
    ensures
        call_entry(ContentPartView::ToolCall { id, name, args_json: args }) matches Some(c) && {
            &&& c.str_field("type"@) == Some("function"@)
            &&& c.at("function"@).str_field("name"@) == Some(name)
            &&& c.at("function"@).field("arguments"@) == Some(providers::args_value(args))
        },
        call_entry(ContentPartView::Text { text: content }) is None,
        ({
            let p = ContentPartView::ToolResult { tool_call_id: id, content, is_error };
            let one = message_entries(MessageView { role: Role::Tool, parts: seq![p] });
            &&& call_entry(p) is None
            &&& one.len() == 1
            &&& one[0].str_field("role"@) == Some("tool"@)
            &&& one[0].str_field("content"@) == Some(content)
        }),
        message_entries(MessageView { role: Role::Tool, parts: a + b }) == message_entries(
            MessageView { role: Role::Tool, parts: a },
        ) + message_entries(MessageView { role: Role::Tool, parts: b }),
{
    lemma_request_keys();
    let p = ContentPartView::ToolResult { tool_call_id: id, content, is_error };
    providers::parts_are_picked_in_order(a, b, p, |p: ContentPartView| result_entry(p));
}

/// A request names the model, asks for a stream, and carries every message and every tool.
pub proof fn request_carries_everything(
    model: Seq<char>,
    msgs: Seq<MessageView>,
    tools: Seq<ToolSpecView>,
)
    ensures
        ({
            let b = body(model, msgs, tools);
            &&& b.str_field("model"@) == Some(model)
            &&& b.field("stream"@) == Some(JsonView::Bool(true))
            &&& b.field("messages"@) == Some(JsonView::Array(all_entries(msgs)))
            &&& tools.len() > 0 ==> b.field("tools"@) == Some(
                JsonView::Array(providers::function_tool_list(tools)),
            )
            &&& tools.len() == 0 ==> b.field("tools"@) is None
        }),
{
    lemma_request_keys();
}

} // verus!
