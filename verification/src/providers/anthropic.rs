//! The Anthropic Messages API.
use crate::json::{Json, JsonView};
use crate::providers::calls::{CallBuf, CallView, Calls};
use crate::providers::{Request, RequestView};
use crate::providers::sse::{SseEvent, SseEventView};
use crate::types::{ChatEvent, ChatEventView, ContentPart, ContentPartView, Message, MessageView, Role, ToolSpec, ToolSpecView};
use crate::{json, providers, text, types};
use vstd::prelude::*;
use vstd::string::*;

verus! {

/// The bound on the length of an answer that a request asks for.
pub const DEFAULT_MAX_TOKENS: u64 = 8096;

/// Anthropic Messages API backend.
pub struct AnthropicProvider {
    pub base_url: String,
    pub api_key: String,
}

impl AnthropicProvider {
    pub fn new(base_url: Option<&str>, api_key: String) -> (r: Self)
        ensures
            r.base_url@ == providers::base(
                providers::opt_str(base_url),
                "https://api.anthropic.com"@,
            ),
            r.api_key == api_key,
    {
        AnthropicProvider {
            base_url: providers::base_of(base_url, "https://api.anthropic.com"),
            api_key,
        }
    }

    /// The request for one turn of the assistant.
    pub fn request(&self, model: &str, messages: &[Message], tools: &[ToolSpec]) -> (r: Request)
        ensures
            r@ == (RequestView {
                url: self.base_url@ + "/v1/messages"@,
                headers: seq![
                    ("x-api-key"@, self.api_key@),
                    ("anthropic-version"@, "2023-06-01"@),
                ],
                body: body(model@, types::message_views(messages@), types::spec_views(tools@)),
            }),
    {
        let mut headers: Vec<(String, String)> = Vec::new();
        providers::add_header(&mut headers, "x-api-key", self.api_key.as_str());
        providers::add_header(&mut headers, "anthropic-version", "2023-06-01");
        assert(providers::header_views(headers@) =~= seq![
            ("x-api-key"@, self.api_key@),
            ("anthropic-version"@, "2023-06-01"@),
        ]);
        let url = text::concat2(self.base_url.as_str(), "/v1/messages");
        Request { url, headers, body: build_body(model, messages, tools) }
    }
}

/// A text block.
pub open spec fn text_block_view(t: Seq<char>) -> JsonView {
    providers::obj(
        map!["type"@ => providers::jstr("text"@), "text"@ => providers::jstr(t)],
    )
}

/// The block of a user message for one of its parts.
pub open spec fn user_block(p: ContentPartView) -> Option<JsonView> {
    match p {
        ContentPartView::Text { text } => Some(text_block_view(text)),
        _ => None,
    }
}

/// The block of an assistant message for one of its parts.
pub open spec fn assistant_block(p: ContentPartView) -> Option<JsonView> {
    match p {
        ContentPartView::Text { text } => Some(text_block_view(text)),
        ContentPartView::ToolCall { id, name, args_json } => Some(
            providers::obj(
                map![
                    "type"@ => providers::jstr("tool_use"@),
                    "id"@ => providers::jstr(id),
                    "name"@ => providers::jstr(name),
                    "input"@ => providers::args_value(args_json),
                ],
            ),
        ),
        ContentPartView::ToolResult { .. } => None,
    }
}

/// The block of a message of tool results for one of its parts.
pub open spec fn tool_block(p: ContentPartView) -> Option<JsonView> {
    match p {
        ContentPartView::ToolResult { tool_call_id, content, is_error } => Some(
            providers::obj(
                map![
                    "type"@ => providers::jstr("tool_result"@),
                    "tool_use_id"@ => providers::jstr(tool_call_id),
                    "content"@ => providers::jstr(content),
                    "is_error"@ => JsonView::Bool(is_error),
                ],
            ),
        ),
        _ => None,
    }
}

/// Whether a message speaks for the assistant, and its blocks; none for a system message.
pub open spec fn blocks(m: MessageView) -> Option<(bool, Seq<JsonView>)> {
    match m.role {
        Role::System => None,
        Role::User => Some(
            (false, providers::picked(m.parts, |p: ContentPartView| user_block(p))),
        ),
        Role::Assistant => Some(
            (true, providers::picked(m.parts, |p: ContentPartView| assistant_block(p))),
        ),
        Role::Tool => Some(
            (false, providers::picked(m.parts, |p: ContentPartView| tool_block(p))),
        ),
    }
}

/// The turns with one more message taken in. Anthropic rejects empty content, so a message
/// without blocks is left out; it requires alternating roles, so a message of the role of the
/// last turn is merged into that turn.
pub open spec fn with_message(turns: Seq<(bool, Seq<JsonView>)>, m: MessageView) -> Seq<
    (bool, Seq<JsonView>),
> {
    match blocks(m) {
        None => turns,
        Some((assistant, bs)) => if bs.len() == 0 {
            turns
        } else if turns.len() > 0 && turns.last().0 == assistant {
            turns.drop_last().push((assistant, turns.last().1 + bs))
        } else {
            turns.push((assistant, bs))
        },
    }
}

/// The turns that the messages make.
pub open spec fn turns(msgs: Seq<MessageView>) -> Seq<(bool, Seq<JsonView>)>
    decreases msgs.len(),
{
    if msgs.len() == 0 {
        Seq::empty()
    } else {
        with_message(turns(msgs.drop_last()), msgs.last())
    }
}

/// The name of a role.
pub open spec fn role_name(assistant: bool) -> Seq<char> {
    if assistant {
        "assistant"@
    } else {
        "user"@
    }
}

/// A turn as a message.
pub open spec fn turn_entry(t: (bool, Seq<JsonView>)) -> JsonView {
    providers::obj(
        map![
            "role"@ => providers::jstr(role_name(t.0)),
            "content"@ => JsonView::Array(t.1),
        ],
    )
}

/// The turns as messages.
pub open spec fn turn_entries(ts: Seq<(bool, Seq<JsonView>)>) -> Seq<JsonView> {
    ts.map_values(|t: (bool, Seq<JsonView>)| turn_entry(t))
}

/// A tool.
pub open spec fn tool_entry(t: ToolSpecView) -> JsonView {
    providers::obj(
        map![
            "name"@ => providers::jstr(t.name),
            "description"@ => providers::jstr(t.description),
            "input_schema"@ => t.params_schema,
        ],
    )
}

/// The tools.
pub open spec fn tool_entries(tools: Seq<ToolSpecView>) -> Seq<JsonView> {
    tools.map_values(|t: ToolSpecView| tool_entry(t))
}

/// The body of a request.
pub open spec fn body(
    model: Seq<char>,
    msgs: Seq<MessageView>,
    tools: Seq<ToolSpecView>,
) -> JsonView {
    let system = text::joined(providers::system_texts(msgs), "\n"@);
    let m = map![
        "model"@ => providers::jstr(model),
        "max_tokens"@ => JsonView::Number(json::unsigned_number(DEFAULT_MAX_TOKENS)),
        "stream"@ => JsonView::Bool(true),
        "messages"@ => JsonView::Array(turn_entries(turns(msgs))),
    ];
    let with_system = if system.len() == 0 {
        m
    } else {
        m.insert("system"@, providers::jstr(system))
    };
    if tools.len() == 0 {
        providers::obj(with_system)
    } else {
        providers::obj(with_system.insert("tools"@, JsonView::Array(tool_entries(tools))))
    }
}

/// No two turns in a row are of the same role, and none is empty.
pub open spec fn alternating(ts: Seq<(bool, Seq<JsonView>)>) -> bool {
    &&& forall|i: int| 0 < i < ts.len() ==> (#[trigger] ts[i]).0 != ts[i - 1].0
    &&& forall|i: int| 0 <= i < ts.len() ==> (#[trigger] ts[i]).1.len() > 0
}

/// Whatever the history is, the messages of a request alternate between the two roles, and none
/// has empty content.
pub proof fn turns_alternate(msgs: Seq<MessageView>)
    ensures
        alternating(turns(msgs)),
    decreases msgs.len(),
{
    if msgs.len() > 0 {
        turns_alternate(msgs.drop_last());
        let before = turns(msgs.drop_last());
        let after = turns(msgs);
        assert forall|i: int| 0 < i < after.len() implies (#[trigger] after[i]).0 != after[i
            - 1].0 by {
            if i < before.len() {
                assert(before[i].0 != before[i - 1].0);
            }
        }
        assert forall|i: int| 0 <= i < after.len() implies (#[trigger] after[i]).1.len() > 0 by {
            if i < before.len() {
                assert(before[i].1.len() > 0);
            }
        }
    }
}

/// Every block of the history stands in a turn: the blocks of the turns, one after the other,
/// are those of the messages.
pub proof fn turns_keep_every_block(msgs: Seq<MessageView>)
    ensures
        turn_blocks(turns(msgs)) == message_blocks_of(msgs),
    decreases msgs.len(),
{
    if msgs.len() > 0 {
        turns_keep_every_block(msgs.drop_last());
        let before = turns(msgs.drop_last());
        match blocks(msgs.last()) {
            None => {},
            Some((assistant, bs)) => {
                if bs.len() == 0 {
                    assert(turn_blocks(before) + bs =~= turn_blocks(before));
                } else if before.len() > 0 && before.last().0 == assistant {
                    let t = (assistant, before.last().1 + bs);
                    assert(before.drop_last().push(t).drop_last() =~= before.drop_last());
                    assert(turn_blocks(before.drop_last()) + (before.last().1 + bs) =~= turn_blocks(
                        before.drop_last(),
                    ) + before.last().1 + bs);
                } else {
                    assert(before.push((assistant, bs)).drop_last() =~= before);
                }
            },
        }
    }
}

/// The blocks of the turns, one after the other.
pub open spec fn turn_blocks(ts: Seq<(bool, Seq<JsonView>)>) -> Seq<JsonView>
    decreases ts.len(),
{
    if ts.len() == 0 {
        Seq::empty()
    } else {
        turn_blocks(ts.drop_last()) + ts.last().1
    }
}

/// The blocks of the messages, one after the other.
pub open spec fn message_blocks_of(msgs: Seq<MessageView>) -> Seq<JsonView>
    decreases msgs.len(),
{
    if msgs.len() == 0 {
        Seq::empty()
    } else {
        match blocks(msgs.last()) {
            Some((_, bs)) => message_blocks_of(msgs.drop_last()) + bs,
            None => message_blocks_of(msgs.drop_last()),
        }
    }
}

/// A text block.
pub fn text_block(t: &str) -> (r: Json)
    ensures
        r@ == text_block_view(t@),
{
    Json::object().with("type", Json::str("text")).with("text", Json::str(t))
}

fn part_block(role: Role, p: &ContentPart) -> (r: Option<Json>)
    ensures
        types::opt_json(r) == (match role {
            Role::System => None,
            Role::User => user_block(p@),
            Role::Assistant => assistant_block(p@),
            Role::Tool => tool_block(p@),
        }),
{
    match role {
        Role::System => None,
        Role::User => match p {
            ContentPart::Text { text } => Some(text_block(text.as_str())),
            _ => None,
        },
        Role::Assistant => match p {
            ContentPart::Text { text } => Some(text_block(text.as_str())),
            ContentPart::ToolCall { id, name, args_json } => Some(
                Json::object().with("type", Json::str("tool_use")).with(
                    "id",
                    Json::str(id.as_str()),
                ).with("name", Json::str(name.as_str())).with(
                    "input",
                    providers::parse_args(args_json.as_str()),
                ),
            ),
            _ => None,
        },
        Role::Tool => match p {
            ContentPart::ToolResult { tool_call_id, content, is_error } => Some(
                Json::object().with("type", Json::str("tool_result")).with(
                    "tool_use_id",
                    Json::str(tool_call_id.as_str()),
                ).with("content", Json::str(content.as_str())).with(
                    "is_error",
                    Json::Bool(*is_error),
                ),
            ),
            _ => None,
        },
    }
}

/// What the blocks of a message are.
pub open spec fn block_view(r: Option<(bool, Vec<Json>)>) -> Option<(bool, Seq<JsonView>)> {
    match r {
        Some((a, bs)) => Some((a, json::array_view(bs@))),
        None => None,
    }
}

/// Whether a message speaks for the assistant, and its blocks; none for a system message.
pub fn message_blocks(m: &Message) -> (r: Option<(bool, Vec<Json>)>)
    ensures
        block_view(r) == blocks(m@),
{
    if m.role == Role::System {
        return None;
    }
    let mut out: Vec<Json> = Vec::new();
    let mut i: usize = 0;
    let ghost f = match m.role {
        Role::User => |p: ContentPartView| user_block(p),
        Role::Assistant => |p: ContentPartView| assistant_block(p),
        _ => |p: ContentPartView| tool_block(p),
    };
    while i < m.parts.len()
        invariant
            i <= m.parts.len(),
            m.role != Role::System,
            f == (match m.role {
                Role::User => |p: ContentPartView| user_block(p),
                Role::Assistant => |p: ContentPartView| assistant_block(p),
                _ => |p: ContentPartView| tool_block(p),
            }),
            json::array_view(out@) == providers::picked(
                types::part_views(m.parts@.take(i as int)),
                f,
            ),
        decreases m.parts.len() - i,
    {
        proof {
            types::lemma_part_views_take(m.parts@, i as int);
        }
        if let Some(b) = part_block(m.role, &m.parts[i]) {
            proof {
                json::lemma_array_view_push(out@, b);
            }
            out.push(b);
        }
        i += 1;
    }
    assert(m.parts@.take(m.parts.len() as int) =~= m.parts@);
    Some((m.role == Role::Assistant, out))
}

/// A turn under construction.
pub struct Turn {
    pub assistant: bool,
    pub content: Vec<Json>,
}

/// What the turns of a list are.
pub open spec fn turn_views(v: Seq<Turn>) -> Seq<(bool, Seq<JsonView>)> {
    v.map_values(|t: Turn| (t.assistant, json::array_view(t.content@)))
}

fn append_blocks(a: &mut Vec<Json>, b: Vec<Json>)
    ensures
        json::array_view(final(a)@) == json::array_view(old(a)@) + json::array_view(b@),
{
    let ghost more = b@;
    let mut b = b;
    a.append(&mut b);
    proof {
        json::lemma_array_view(a@);
        json::lemma_array_view(old(a)@);
        json::lemma_array_view(more);
        assert forall|i: int| 0 <= i < a@.len() implies json::array_view(a@)[i] == (
        json::array_view(old(a)@) + json::array_view(more))[i] by {
            assert(json::array_view(a@)[i] == a@[i].view());
            if i < old(a)@.len() {
                assert(json::array_view(old(a)@)[i] == old(a)@[i].view());
            } else {
                assert(json::array_view(more)[i - old(a)@.len()] == more[i - old(a)@.len()].view());
            }
        }
        assert(json::array_view(a@) =~= json::array_view(old(a)@) + json::array_view(more));
    }
}

/// The turns that the messages make.
pub fn merge_turns(messages: &[Message]) -> (r: Vec<Turn>)
    ensures
        turn_views(r@) == turns(types::message_views(messages@)),
{
    let mut out: Vec<Turn> = Vec::new();
    let mut i: usize = 0;
    assert(turn_views(out@) =~= Seq::<(bool, Seq<JsonView>)>::empty());
    while i < messages.len()
        invariant
            i <= messages.len(),
            turn_views(out@) == turns(types::message_views(messages@.take(i as int))),
        decreases messages.len() - i,
    {
        proof {
            types::lemma_message_views_take(messages@, i as int);
        }
        let ghost before = turn_views(out@);
        if let Some((assistant, bs)) = message_blocks(&messages[i]) {
            proof {
                json::lemma_array_view(bs@);
            }
            if bs.len() > 0 {
                let ghost more = json::array_view(bs@);
                match out.pop() {
                    Some(mut last) => {
                        let ghost held = json::array_view(last.content@);
                        assert(before.last() == (last.assistant, held));
                        assert(turn_views(out@) =~= before.drop_last());
                        if last.assistant == assistant {
                            append_blocks(&mut last.content, bs);
                            out.push(last);
                            assert(turn_views(out@) =~= before.drop_last().push(
                                (assistant, held + more),
                            ));
                        } else {
                            out.push(last);
                            out.push(Turn { assistant, content: bs });
                            assert(turn_views(out@) =~= before.push((assistant, more)));
                        }
                    },
                    None => {
                        out.push(Turn { assistant, content: bs });
                        assert(turn_views(out@) =~= before.push((assistant, more)));
                    },
                }
            }
        }
        i += 1;
    }
    assert(messages@.take(messages.len() as int) =~= messages@);
    out
}

fn turns_json(ts: Vec<Turn>) -> (r: Json)
    ensures
        r@ == JsonView::Array(turn_entries(turn_views(ts@))),
{
    let ghost all = ts@;
    let mut out = Json::array();
    for t in it: ts.into_iter()
        invariant
            it.seq() == all,
            out@ is Array,
            out@->Array_0 =~= turn_entries(turn_views(all)).take(it.index()),
    {
        let role = if t.assistant {
            "assistant"
        } else {
            "user"
        };
        let ghost tv = (t.assistant, json::array_view(t.content@));
        let j = Json::object().with("role", Json::str(role)).with("content", Json::Array(t.content));
        proof {
            assert(turn_views(all)[it.index()] == tv);
            assert(j@ == turn_entry(tv));
            assert(turn_entries(turn_views(all))[it.index()] == j@);
        }
        out = out.and(j);
    }
    assert(out@->Array_0 =~= turn_entries(turn_views(all)));
    out
}

fn tools_json(tools: &[ToolSpec]) -> (r: Json)
    ensures
        r@ == JsonView::Array(tool_entries(types::spec_views(tools@))),
{
    let mut out = Json::array();
    let mut i: usize = 0;
    while i < tools.len()
        invariant
            i <= tools.len(),
            out@ is Array,
            out@->Array_0 =~= tool_entries(types::spec_views(tools@)).take(i as int),
        decreases tools.len() - i,
    {
        let t = Json::object().with("name", Json::str(tools[i].name.as_str())).with(
            "description",
            Json::str(tools[i].description.as_str()),
        ).with("input_schema", tools[i].params_schema.copy());
        assert(t@ == tool_entry(types::spec_views(tools@)[i as int]));
        out = out.and(t);
        i += 1;
    }
    assert(out@->Array_0 =~= tool_entries(types::spec_views(tools@)));
    out
}

/// The body of a request.
pub fn build_body(model: &str, messages: &[Message], tools: &[ToolSpec]) -> (r: Json)
    ensures
        r@ == body(model@, types::message_views(messages@), types::spec_views(tools@)),
{
    let system = providers::system_text(messages);
    let mut b = Json::object().with("model", Json::str(model)).with(
        "max_tokens",
        Json::unsigned(DEFAULT_MAX_TOKENS),
    ).with("stream", Json::Bool(true)).with("messages", turns_json(merge_turns(messages)));
    if !system.as_str().is_empty() {
        b = b.with("system", Json::Str(system));
    }
    if tools.len() > 0 {
        b = b.with("tools", tools_json(tools));
    }
    b
}

/// What an assembler remembers.
#[verifier::ext_equal]
pub struct AnthropicState {
    pub blocks: Seq<(u64, CallView)>,
    pub input_tokens: u64,
    pub output_tokens: u64,
    pub started: bool,
    pub done: bool,
}

/// The arguments of a complete call: an empty object where none arrived.
pub open spec fn complete(c: CallView) -> ChatEventView {
    ChatEventView::ToolCall {
        id: c.id,
        name: c.name,
        args_json: if c.args.len() == 0 {
            "{}"@
        } else {
            c.args
        },
    }
}

impl AnthropicState {
    /// Nothing has arrived.
    pub open spec fn start() -> AnthropicState {
        AnthropicState {
            blocks: Seq::empty(),
            input_tokens: 0,
            output_tokens: 0,
            started: false,
            done: false,
        }
    }

    /// What the start of a tool-use block does.
    pub open spec fn block_start(self, v: JsonView) -> AnthropicState {
        let idx = providers::or_zero(v.at("index"@).as_u64());
        let cb = v.at("content_block"@);
        if cb.str_field("type"@) == Some("tool_use"@) {
            AnthropicState {
                blocks: providers::calls::slot_set(
                    self.blocks,
                    idx,
                    CallView {
                        id: providers::or_text(cb.str_field("id"@), Seq::empty()),
                        name: providers::or_text(cb.str_field("name"@), Seq::empty()),
                        args: Seq::empty(),
                    },
                ),
                ..self
            }
        } else {
            self
        }
    }

    /// What a piece of a block does: a text is given out, a piece of arguments is kept.
    pub open spec fn block_delta(self, v: JsonView) -> (AnthropicState, Seq<ChatEventView>) {
        let idx = providers::or_zero(v.at("index"@).as_u64());
        let delta = v.at("delta"@);
        let kind = delta.str_field("type"@);
        if kind == Some("text_delta"@) {
            (self, providers::text_event(delta.str_field("text"@)))
        } else if kind == Some("input_json_delta"@) {
            match (providers::calls::slot(self.blocks, idx), delta.str_field("partial_json"@)) {
                (Some(c), Some(pj)) => (
                    AnthropicState {
                        blocks: providers::calls::slot_set(
                            self.blocks,
                            idx,
                            CallView { id: c.id, name: c.name, args: c.args + pj },
                        ),
                        ..self
                    },
                    Seq::empty(),
                ),
                _ => (self, Seq::empty()),
            }
        } else {
            (self, Seq::empty())
        }
    }

    /// What the end of a block does: its call is complete.
    pub open spec fn block_stop(self, v: JsonView) -> (AnthropicState, Seq<ChatEventView>) {
        let idx = providers::or_zero(v.at("index"@).as_u64());
        (
            AnthropicState {
                blocks: providers::calls::slot_removed(self.blocks, idx),
                ..self
            },
            match providers::calls::slot(self.blocks, idx) {
                Some(c) => seq![complete(c)],
                None => Seq::empty(),
            },
        )
    }

    /// What the end of the message does: usage and the end of the answer, once.
    pub open spec fn stop(self) -> (AnthropicState, Seq<ChatEventView>) {
        if self.done {
            (self, Seq::empty())
        } else {
            (
                AnthropicState { done: true, ..self },
                seq![
                    ChatEventView::Usage {
                        input_tokens: self.input_tokens,
                        output_tokens: self.output_tokens,
                    },
                    ChatEventView::Done,
                ],
            )
        }
    }

    /// What an event does whose data parse.
    pub open spec fn value(self, kind: Seq<char>, v: JsonView) -> (
        AnthropicState,
        Seq<ChatEventView>,
    ) {
        if kind == "message_start"@ {
            (
                AnthropicState {
                    started: true,
                    input_tokens: providers::or_zero(
                        v.at("message"@).at("usage"@).at("input_tokens"@).as_u64(),
                    ),
                    ..self
                },
                Seq::empty(),
            )
        } else if kind == "content_block_start"@ {
            (self.block_start(v), Seq::empty())
        } else if kind == "content_block_delta"@ {
            self.block_delta(v)
        } else if kind == "content_block_stop"@ {
            self.block_stop(v)
        } else if kind == "message_delta"@ {
            (
                AnthropicState {
                    output_tokens: match v.at("usage"@).at("output_tokens"@).as_u64() {
                        Some(n) => n,
                        None => self.output_tokens,
                    },
                    ..self
                },
                Seq::empty(),
            )
        } else if kind == "message_stop"@ {
            self.stop()
        } else if kind == "error"@ {
            (
                AnthropicState { done: true, ..self },
                seq![
                    ChatEventView::Error(
                        providers::or_text(
                            v.at("error"@).str_field("message"@),
                            "unknown anthropic error"@,
                        ),
                    ),
                ],
            )
        } else {
            (self, Seq::empty())
        }
    }

    /// What an event does. What does not parse is skipped.
    pub open spec fn event(self, ev: SseEventView) -> (AnthropicState, Seq<ChatEventView>) {
        match json::json_parsed(ev.data) {
            Ok(v) => self.value(providers::or_text(ev.event, Seq::empty()), v),
            Err(_) => (self, Seq::empty()),
        }
    }

    /// What the end of the stream does: a started answer that did not end ends.
    pub open spec fn end(self) -> (AnthropicState, Seq<ChatEventView>) {
        if self.started && !self.done {
            (AnthropicState { done: true, ..self }, seq![ChatEventView::Done])
        } else {
            (self, Seq::empty())
        }
    }

    /// What a list of events does.
    pub open spec fn events(self, evs: Seq<SseEventView>) -> (AnthropicState, Seq<ChatEventView>)
        decreases evs.len(),
    {
        if evs.len() == 0 {
            (self, Seq::empty())
        } else {
            let (before, out) = self.events(evs.drop_last());
            let (after, more) = before.event(evs.last());
            (after, out + more)
        }
    }
}

/// Assembles Anthropic SSE events into [`ChatEvent`]s.
pub struct AnthropicAssembler {
    blocks: Calls,
    input_tokens: u64,
    output_tokens: u64,
    started: bool,
    done_emitted: bool,
}

impl AnthropicAssembler {
    /// What the assembler remembers.
    pub closed spec fn state(self) -> AnthropicState {
        AnthropicState {
            blocks: self.blocks@,
            input_tokens: self.input_tokens,
            output_tokens: self.output_tokens,
            started: self.started,
            done: self.done_emitted,
        }
    }

    /// The blocks are in the order of their indices.
    pub open spec fn wf(self) -> bool {
        providers::calls::ordered(self.state().blocks)
    }

    /// Takes an event in; returns the events that it gives.
    pub fn push(&mut self, ev: &SseEvent) -> (r: Vec<ChatEvent>)
        requires
            old(self).wf(),
        ensures
            final(self).wf(),
            final(self).state() == old(self).state().event(ev@).0,
            types::chat_views(r@) == old(self).state().event(ev@).1,
    {
        match json::parse(ev.data.as_str()) {
            Ok(v) => match &ev.event {
                Some(kind) => self.push_value(kind.as_str(), &v),
                None => {
                    proof {
                        reveal_strlit("");
                        assert(""@ =~= Seq::<char>::empty());
                    }
                    self.push_value("", &v)
                },
            },
            Err(_) => {
                let out: Vec<ChatEvent> = Vec::new();
                assert(types::chat_views(out@) =~= Seq::<ChatEventView>::empty());
                out
            },
        }
    }

    /// Takes an event in whose data parsed to `v`; returns the events that it gives.
    pub fn push_value(&mut self, kind: &str, v: &Json) -> (r: Vec<ChatEvent>)
        requires
            old(self).wf(),
        ensures
            final(self).wf(),
            final(self).state() == old(self).state().value(kind@, v@).0,
            types::chat_views(r@) == old(self).state().value(kind@, v@).1,
    {
        let mut out: Vec<ChatEvent> = Vec::new();
        assert(types::chat_views(out@) =~= Seq::<ChatEventView>::empty());
        if text::str_eq(kind, "message_start") {
            self.started = true;
            self.input_tokens = match v.get("message") {
                Some(m) => match m.get("usage") {
                    Some(u) => providers::number_at(u, "input_tokens"),
                    None => 0,
                },
                None => 0,
            };
        } else if text::str_eq(kind, "content_block_start") {
            self.block_start(v);
        } else if text::str_eq(kind, "content_block_delta") {
            self.block_delta(v, &mut out);
            assert(types::chat_views(out@) =~= old(self).state().block_delta(v@).1);
        } else if text::str_eq(kind, "content_block_stop") {
            let idx = providers::number_at(v, "index");
            if let Some(buf) = self.blocks.remove(idx) {
                let args_json = if buf.args.as_str().is_empty() {
                    "{}".to_owned()
                } else {
                    buf.args
                };
                providers::emit(
                    &mut out,
                    ChatEvent::ToolCall { id: buf.id, name: buf.name, args_json },
                );
            }
            assert(types::chat_views(out@) =~= old(self).state().block_stop(v@).1);
        } else if text::str_eq(kind, "message_delta") {
            if let Some(u) = v.get("usage") {
                if let Some(n) = u.get("output_tokens") {
                    if let Some(n) = n.as_u64() {
                        self.output_tokens = n;
                    }
                }
            }
        } else if text::str_eq(kind, "message_stop") {
            if !self.done_emitted {
                self.done_emitted = true;
                providers::emit(
                    &mut out,
                    ChatEvent::Usage {
                        input_tokens: self.input_tokens,
                        output_tokens: self.output_tokens,
                    },
                );
                providers::emit(&mut out, ChatEvent::Done);
            }
            assert(types::chat_views(out@) =~= old(self).state().stop().1);
        } else if text::str_eq(kind, "error") {
            self.done_emitted = true;
            let msg = match v.get("error") {
                Some(e) => match e.str_field("message") {
                    Some(m) => m.to_owned(),
                    None => "unknown anthropic error".to_owned(),
                },
                None => "unknown anthropic error".to_owned(),
            };
            providers::emit(&mut out, ChatEvent::Error(msg));
            assert(types::chat_views(out@) =~= old(self).state().value(kind@, v@).1);
        }
        assert(self.state() =~= old(self).state().value(kind@, v@).0);
        out
    }

    fn block_start(&mut self, v: &Json)
        requires
            old(self).wf(),
        ensures
            final(self).wf(),
            final(self).state() == old(self).state().block_start(v@),
    {
        let idx = providers::number_at(v, "index");
        if let Some(cb) = v.get("content_block") {
            if let Some(kind) = cb.str_field("type") {
                if text::str_eq(kind, "tool_use") {
                    let mut buf = CallBuf::new();
                    if let Some(id) = cb.str_field("id") {
                        buf.id = id.to_owned();
                    }
                    if let Some(name) = cb.str_field("name") {
                        buf.name = name.to_owned();
                    }
                    self.blocks.set(idx, buf);
                }
            }
        }
        assert(self.state() =~= old(self).state().block_start(v@));
    }

    fn block_delta(&mut self, v: &Json, out: &mut Vec<ChatEvent>)
        requires
            old(self).wf(),
        ensures
            final(self).wf(),
            final(self).state() == old(self).state().block_delta(v@).0,
            types::chat_views(final(out)@) == types::chat_views(old(out)@)
                + old(self).state().block_delta(v@).1,
    {
        let idx = providers::number_at(v, "index");
        assert(types::chat_views(out@) + Seq::<ChatEventView>::empty() =~= types::chat_views(out@));
        proof {
            reveal_strlit("text_delta");
            reveal_strlit("input_json_delta");
        }
        if let Some(delta) = v.get("delta") {
            if let Some(kind) = delta.str_field("type") {
                if text::str_eq(kind, "text_delta") {
                    providers::emit_text(out, delta.str_field("text"));
                } else if text::str_eq(kind, "input_json_delta") {
                    if let Some(mut buf) = self.blocks.get(idx) {
                        if let Some(pj) = delta.str_field("partial_json") {
                            buf.args.append(pj);
                            self.blocks.set(idx, buf);
                        }
                    }
                }
            }
        }
        assert(self.state() =~= old(self).state().block_delta(v@).0);
    }

    /// Emits `Done` when a started stream ended without `message_stop`.
    pub fn finish(&mut self) -> (r: Vec<ChatEvent>)
        requires
            old(self).wf(),
        ensures
            final(self).wf(),
            final(self).state() == old(self).state().end().0,
            types::chat_views(r@) == old(self).state().end().1,
    {
        let mut out: Vec<ChatEvent> = Vec::new();
        assert(types::chat_views(out@) =~= Seq::<ChatEventView>::empty());
        if self.started && !self.done_emitted {
            self.done_emitted = true;
            providers::emit(&mut out, ChatEvent::Done);
            assert(types::chat_views(out@) =~= seq![ChatEventView::Done]);
        }
        assert(self.state() =~= old(self).state().end().0);
        out
    }
}

impl Default for AnthropicAssembler {
    fn default() -> (r: Self)
        ensures
            r.wf(),
            r.state() == AnthropicState::start(),
    {
        AnthropicAssembler {
            blocks: Calls::new(),
            input_tokens: 0,
            output_tokens: 0,
            started: false,
            done_emitted: false,
        }
    }
}

proof fn lemma_event_dones(st: AnthropicState, ev: SseEventView)
    ensures
        st.done ==> st.event(ev).0.done && providers::dones(st.event(ev).1) == 0,
        !st.done && !st.event(ev).0.done ==> providers::dones(st.event(ev).1) == 0,
        providers::dones(st.event(ev).1) <= 1,
{
    reveal_with_fuel(providers::dones, 3);
    match json::json_parsed(ev.data) {
        Ok(v) => {
            let kind = providers::or_text(ev.event, Seq::empty());
            if kind == "content_block_delta"@ {
                providers::lemma_no_dones(st.block_delta(v).1);
            } else if kind == "message_stop"@ {
                let out = st.stop().1;
                if !st.done {
                    assert(out.drop_last() =~= seq![out[0]]);
                    assert(out.drop_last().drop_last() =~= Seq::<ChatEventView>::empty());
                }
            } else {
                let out = st.value(kind, v).1;
                assert(out.len() > 0 ==> out.drop_last() =~= Seq::<ChatEventView>::empty());
            }
        },
        Err(_) => {},
    }
}

/// A stream ends at most once, whatever arrives; and after an `error` event, or another end, no
/// `Done` follows.
pub proof fn stream_ends_at_most_once(evs: Seq<SseEventView>)
    ensures
        ({
            let (st, out) = AnthropicState::start().events(evs);
            &&& providers::dones(out + st.end().1) <= 1
            &&& !st.done ==> providers::dones(out) == 0
            &&& st.done ==> st.end().1.len() == 0
        }),
    decreases evs.len(),
{
    let (st, out) = AnthropicState::start().events(evs);
    if evs.len() > 0 {
        stream_ends_at_most_once(evs.drop_last());
        let (before, o) = AnthropicState::start().events(evs.drop_last());
        lemma_event_dones(before, evs.last());
        providers::lemma_dones_concat(o, before.event(evs.last()).1);
        providers::lemma_dones_concat(o, before.end().1);
    }
    providers::lemma_dones_concat(out, st.end().1);
    reveal_with_fuel(providers::dones, 2);
    assert(st.end().1.len() > 0 ==> st.end().1.drop_last() =~= Seq::<ChatEventView>::empty());
}

proof fn lemma_events_error_order(evs: Seq<SseEventView>)
    ensures
        ({
            let (st, out) = AnthropicState::start().events(evs);
            &&& providers::no_end_behind_an_error(out)
            &&& providers::has_error(out) ==> st.done
        }),
    decreases evs.len(),
{
    if evs.len() > 0 {
        lemma_events_error_order(evs.drop_last());
        let (before, sofar) = AnthropicState::start().events(evs.drop_last());
        let (after, more) = before.event(evs.last());
        providers::lemma_error_order(sofar, before.done, more, after.done);
    }
}

/// Behind an `error` event no `Done` follows, whatever arrives.
pub proof fn no_end_follows_an_error(evs: Seq<SseEventView>)
    ensures
        ({
            let (st, out) = AnthropicState::start().events(evs);
            providers::no_end_behind_an_error(out + st.end().1)
        }),
{
    lemma_events_error_order(evs);
    let (st, out) = AnthropicState::start().events(evs);
    providers::lemma_error_order(out, st.done, st.end().1, true);
}

/// The text that an event holds: what stands under `text` in a text delta.
pub open spec fn event_text(ev: SseEventView) -> Seq<char> {
    match json::json_parsed(ev.data) {
        Ok(v) => if ev.event == Some("content_block_delta"@) && v.at("delta"@).at("type"@)
            == JsonView::Str("text_delta"@) {
            match v.at("delta"@).at("text"@) {
                JsonView::Str(s) => s,
                _ => Seq::empty(),
            }
        } else {
            Seq::empty()
        },
        Err(_) => Seq::empty(),
    }
}

/// The text that events hold, one after the other.
pub open spec fn all_text(evs: Seq<SseEventView>) -> Seq<char>
    decreases evs.len(),
{
    if evs.len() == 0 {
        Seq::empty()
    } else {
        all_text(evs.drop_last()) + event_text(evs.last())
    }
}

proof fn lemma_event_kinds()
    ensures
        "message_start"@ != "content_block_start"@ && "message_start"@ != "content_block_delta"@,
        "message_start"@ != "content_block_stop"@ && "message_start"@ != "message_delta"@,
        "message_start"@ != "message_stop"@ && "message_start"@ != "error"@,
        "content_block_start"@ != "content_block_delta"@,
        "content_block_start"@ != "content_block_stop"@,
        "content_block_start"@ != "message_delta"@ && "content_block_start"@ != "message_stop"@,
        "content_block_start"@ != "error"@ && "content_block_delta"@ != "content_block_stop"@,
        "content_block_delta"@ != "message_delta"@ && "content_block_delta"@ != "message_stop"@,
        "content_block_delta"@ != "error"@ && "content_block_stop"@ != "message_delta"@,
        "content_block_stop"@ != "message_stop"@ && "content_block_stop"@ != "error"@,
        "message_delta"@ != "message_stop"@ && "message_delta"@ != "error"@,
        "message_stop"@ != "error"@ && "text_delta"@ != "input_json_delta"@,
        "content_block_delta"@.len() > 0,
{
    reveal_strlit("message_start");
    reveal_strlit("content_block_start");
    reveal_strlit("content_block_delta");
    reveal_strlit("content_block_stop");
    reveal_strlit("message_delta");
    reveal_strlit("message_stop");
    reveal_strlit("error");
    reveal_strlit("text_delta");
    reveal_strlit("input_json_delta");
    assert("message_start"@.len() == 13 && "content_block_start"@.len() == 19);
    assert("content_block_delta"@.len() == 19 && "content_block_stop"@.len() == 18);
    assert("message_delta"@.len() == 13 && "message_stop"@.len() == 12 && "error"@.len() == 5);
    assert("content_block_start"@[14] == 's' && "content_block_delta"@[14] == 'd');
    assert("message_start"@[8] == 's' && "message_delta"@[8] == 'd');
    assert("text_delta"@.len() == 10 && "input_json_delta"@.len() == 16);
}

/// The answer says all that the events hold and nothing else: the text deltas of a stream, put
/// together, are the texts of its text deltas, in the order in which they arrived and as soon as
/// they arrive. The end of the stream says nothing more.
pub proof fn answer_says_all_that_arrived(evs: Seq<SseEventView>)
    ensures
        types::said(AnthropicState::start().events(evs).1) == all_text(evs),
        ({
            let (st, out) = AnthropicState::start().events(evs);
            types::said(out + st.end().1) == all_text(evs)
        }),
    decreases evs.len(),
{
    let (st, out) = AnthropicState::start().events(evs);
    if evs.len() > 0 {
        answer_says_all_that_arrived(evs.drop_last());
        let (before, sofar) = AnthropicState::start().events(evs.drop_last());
        let ev = evs.last();
        let more = before.event(ev).1;
        types::said_in_order(sofar, more, ChatEventView::Done);
        lemma_event_kinds();
        let kind = providers::or_text(ev.event, Seq::empty());
        if json::json_parsed(ev.data) is Ok && kind == "content_block_delta"@ {
            let v = json::json_parsed(ev.data)->Ok_0;
            providers::text_is_passed_on_whole(v.at("delta"@).str_field("text"@));
            if !(v.at("delta"@).str_field("type"@) == Some("text_delta"@)) {
                types::lemma_nothing_said(more);
            }
        } else {
            types::lemma_nothing_said(more);
        }
    }
    types::lemma_nothing_said(st.end().1);
    types::said_in_order(out, st.end().1, ChatEventView::Done);
    assert(types::said(out) + Seq::<char>::empty() =~= types::said(out));
}

/// Whether a value belongs to the block with an index, which is zero where it gives none.
pub open spec fn of_block(v: JsonView, k: u64) -> bool {
    match v.at("index"@).as_u64() {
        Some(n) => n == k,
        None => k == 0,
    }
}

/// The start of a block that uses a tool begins a call with its identifier and name; each piece of
/// its input goes behind the pieces so far; and the end of the block gives the call out with all
/// of its input, and with an empty object where there was none. No other call changes.
pub proof fn call_is_put_together_from_its_block(st: AnthropicState, v: JsonView, k: u64, j: u64)
    requires
        of_block(v, k),
        j != k,
    ensures
        v.at("content_block"@).at("type"@) == JsonView::Str("tool_use"@) ==> ({
            let b = st.value("content_block_start"@, v).0.blocks;
            let cb = v.at("content_block"@);
            &&& st.value("content_block_start"@, v).1.len() == 0
            &&& providers::calls::slot(b, k) matches Some(c) && c.id == (match cb.at("id"@) {
                JsonView::Str(s) => s,
                _ => Seq::<char>::empty(),
            }) && c.name == (match cb.at("name"@) {
                JsonView::Str(s) => s,
                _ => Seq::<char>::empty(),
            }) && c.args.len() == 0
            &&& providers::calls::slot(b, j) == providers::calls::slot(st.blocks, j)
        }),
        v.at("content_block"@).at("type"@) != JsonView::Str("tool_use"@) ==> st.value(
            "content_block_start"@,
            v,
        ) == (st, Seq::<ChatEventView>::empty()),
        v.at("delta"@).at("type"@) == JsonView::Str("input_json_delta"@) ==> ({
            let (after, out) = st.value("content_block_delta"@, v);
            &&& out.len() == 0
            &&& match (providers::calls::slot(st.blocks, k), v.at("delta"@).at("partial_json"@)) {
                (Some(c), JsonView::Str(s)) => providers::calls::slot(after.blocks, k) == Some(
                    CallView { id: c.id, name: c.name, args: c.args + s },
                ),
                _ => after == st,
            }
            &&& providers::calls::slot(after.blocks, j) == providers::calls::slot(st.blocks, j)
        }),
        ({
            let (after, out) = st.value("content_block_stop"@, v);
            &&& after.blocks == providers::calls::slot_removed(st.blocks, k)
            &&& match providers::calls::slot(st.blocks, k) {
                None => out.len() == 0,
                Some(c) => out == seq![
                    ChatEventView::ToolCall {
                        id: c.id,
                        name: c.name,
                        args_json: if c.args.len() == 0 {
                            seq!['{', '}']
                        } else {
                            c.args
                        },
                    },
                ],
            }
        }),
{
    lemma_event_kinds();
    reveal_strlit("{}");
    assert("{}"@ =~= seq!['{', '}']);
    let cb = v.at("content_block"@);
    providers::calls::lemma_slot_set(
        st.blocks,
        k,
        CallView {
            id: providers::or_text(cb.str_field("id"@), Seq::empty()),
            name: providers::or_text(cb.str_field("name"@), Seq::empty()),
            args: Seq::empty(),
        },
    );
    if providers::calls::slot(st.blocks, k) is Some {
        let c = providers::calls::slot(st.blocks, k)->0;
        let pj = providers::or_text(v.at("delta"@).str_field("partial_json"@), Seq::empty());
        providers::calls::lemma_slot_set(
            st.blocks,
            k,
            CallView { id: c.id, name: c.name, args: c.args + pj },
        );
    }
}

/// The end of the message reports the input that its start counted and the output that was last
/// counted, and ends the answer, once; an error is reported with its message and ends the answer.
pub proof fn usage_is_what_was_counted(st: AnthropicState, v: JsonView)
    ensures
        st.value("message_start"@, v).0 == (AnthropicState {
            started: true,
            input_tokens: match v.at("message"@).at("usage"@).at("input_tokens"@).as_u64() {
                Some(n) => n,
                None => 0,
            },
            ..st
        }),
        st.value("message_start"@, v).1.len() == 0,
        st.value("message_delta"@, v).0 == (AnthropicState {
            output_tokens: match v.at("usage"@).at("output_tokens"@).as_u64() {
                Some(n) => n,
                None => st.output_tokens,
            },
            ..st
        }),
        st.value("message_delta"@, v).1.len() == 0,
        !st.done ==> st.value("message_stop"@, v).0 == (AnthropicState { done: true, ..st })
            && st.value("message_stop"@, v).1 == seq![
            ChatEventView::Usage {
                input_tokens: st.input_tokens,
                output_tokens: st.output_tokens,
            },
            ChatEventView::Done,
        ],
        st.done ==> st.value("message_stop"@, v) == (st, Seq::<ChatEventView>::empty()),
        st.value("error"@, v).0 == (AnthropicState { done: true, ..st }),
        st.value("error"@, v).1 == seq![
            ChatEventView::Error(
                match v.at("error"@).at("message"@) {
                    JsonView::Str(m) => m,
                    _ => "unknown anthropic error"@,
                },
            ),
        ],
        st.end() == (if st.started && !st.done {
            (AnthropicState { done: true, ..st }, seq![ChatEventView::Done])
        } else {
            (st, Seq::<ChatEventView>::empty())
        }),
        AnthropicState::start() == (AnthropicState {
            blocks: Seq::empty(),
            input_tokens: 0,
            output_tokens: 0,
            started: false,
            done: false,
        }),
{
    lemma_event_kinds();
}

/// An event does what its name says with the value that its data parse to; what does not parse,
/// or has another name, does nothing.
pub proof fn events_do_what_they_say(st: AnthropicState, ev: SseEventView, v: JsonView)
    ensures
        json::json_parsed(ev.data) is Err ==> st.event(ev) == (st, Seq::<ChatEventView>::empty()),
        json::json_parsed(ev.data) == Ok::<JsonView, Seq<char>>(v) ==> match ev.event {
            Some(kind) => st.event(ev) == st.value(kind, v),
            None => st.event(ev) == st.value(Seq::empty(), v),
        },
        forall|kind: Seq<char>|
            kind != "message_start"@ && kind != "content_block_start"@ && kind
                != "content_block_delta"@ && kind != "content_block_stop"@ && kind
                != "message_delta"@ && kind != "message_stop"@ && kind != "error"@ ==> (
            #[trigger] st.value(kind, v)) == (st, Seq::<ChatEventView>::empty()),
        v.at("delta"@).at("type"@) != JsonView::Str("text_delta"@) && v.at("delta"@).at("type"@)
            != JsonView::Str("input_json_delta"@) ==> st.value("content_block_delta"@, v) == (
            st,
            Seq::<ChatEventView>::empty(),
        ),
        v.at("delta"@).at("type"@) == JsonView::Str("text_delta"@) ==> st.value(
            "content_block_delta"@,
            v,
        ).0 == st,
{
    lemma_event_kinds();
}

proof fn lemma_request_keys()
    ensures
        "type"@ != "text"@ && "type"@ != "id"@ && "type"@ != "name"@ && "type"@ != "input"@,
        "id"@ != "name"@ && "id"@ != "input"@ && "name"@ != "input"@,
        "type"@ != "tool_use_id"@ && "type"@ != "content"@ && "type"@ != "is_error"@,
        "tool_use_id"@ != "content"@ && "tool_use_id"@ != "is_error"@,
        "content"@ != "is_error"@ && "role"@ != "content"@,
        "name"@ != "description"@ && "name"@ != "input_schema"@,
        "description"@ != "input_schema"@,
        "model"@ != "max_tokens"@ && "model"@ != "stream"@ && "model"@ != "messages"@,
        "model"@ != "system"@ && "model"@ != "tools"@ && "max_tokens"@ != "stream"@,
        "max_tokens"@ != "messages"@ && "max_tokens"@ != "system"@ && "max_tokens"@ != "tools"@,
        "stream"@ != "messages"@ && "stream"@ != "system"@ && "stream"@ != "tools"@,
        "messages"@ != "system"@ && "messages"@ != "tools"@ && "system"@ != "tools"@,
{
    reveal_strlit("type");
    reveal_strlit("text");
    reveal_strlit("id");
    reveal_strlit("name");
    reveal_strlit("input");
    reveal_strlit("tool_use_id");
    reveal_strlit("content");
    reveal_strlit("is_error");
    reveal_strlit("role");
    reveal_strlit("description");
    reveal_strlit("input_schema");
    reveal_strlit("model");
    reveal_strlit("max_tokens");
    reveal_strlit("stream");
    reveal_strlit("messages");
    reveal_strlit("system");
    reveal_strlit("tools");
    assert("type"@[1] == 'y' && "text"@[1] == 'e' && "name"@[1] == 'a');
    assert("type"@.len() == 4 && "id"@.len() == 2 && "name"@.len() == 4 && "input"@.len() == 5);
    assert("tool_use_id"@.len() == 11 && "content"@.len() == 7 && "is_error"@.len() == 8);
    assert("role"@.len() == 4 && "description"@.len() == 11 && "input_schema"@.len() == 12);
    assert("model"@.len() == 5 && "max_tokens"@.len() == 10 && "stream"@.len() == 6);
    assert("messages"@.len() == 8 && "system"@.len() == 6 && "tools"@.len() == 5);
    assert("model"@[0] == 'm' && "tools"@[0] == 't');
    assert("stream"@[1] == 't' && "system"@[1] == 'y');
}

/// A part of a message is a block that holds all of it: a text, a call with its identifier, name
/// and input, or a result with the identifier of its call, its content and whether it failed.
pub proof fn blocks_hold_their_parts(
    t: Seq<char>,
    id: Seq<char>,
    name: Seq<char>,
    args: Seq<char>,
    is_error: bool,
)
    ensures
        ({
            let text = ContentPartView::Text { text: t };
            let call = ContentPartView::ToolCall { id, name, args_json: args };
            let result = ContentPartView::ToolResult { tool_call_id: id, content: t, is_error };
            &&& user_block(text) matches Some(b) && b.str_field("type"@) == Some("text"@)
                && b.str_field("text"@) == Some(t)
            &&& user_block(call) is None && user_block(result) is None
            &&& assistant_block(text) == user_block(text)
            &&& assistant_block(call) matches Some(b) && b.str_field("type"@) == Some("tool_use"@)
                && b.str_field("id"@) == Some(id) && b.str_field("name"@) == Some(name) && b.field(
                "input"@,
            ) == Some(providers::args_value(args))
            &&& assistant_block(result) is None
            &&& tool_block(text) is None && tool_block(call) is None
            &&& tool_block(result) matches Some(b) && b.str_field("type"@) == Some("tool_result"@)
                && b.str_field("tool_use_id"@) == Some(id) && b.str_field("content"@) == Some(t)
                && b.field("is_error"@) == Some(JsonView::Bool(is_error))
        }),
{
    lemma_request_keys();
}

/// The blocks of a message are those of its parts, in order: the assistant speaks with its texts
/// and calls, the user with texts and with the results of tools, and system messages are no turns.
pub proof fn messages_are_blocks_in_order(
    a: Seq<ContentPartView>,
    b: Seq<ContentPartView>,
    p: ContentPartView,
    role: Role,
)
    ensures
        blocks(MessageView { role: Role::System, parts: a }) is None,
        role != Role::System ==> ({
            let whole = blocks(MessageView { role, parts: a + b });
            let first = blocks(MessageView { role, parts: a });
            let rest = blocks(MessageView { role, parts: b });
            let one = blocks(MessageView { role, parts: seq![p] });
            let assistant = role == Role::Assistant;
            &&& first matches Some((by, x)) && by == assistant && (rest matches Some((_, y))
                && whole == Some((assistant, x + y)))
            &&& one == Some(
                (
                    assistant,
                    match (match role {
                        Role::User => user_block(p),
                        Role::Assistant => assistant_block(p),
                        _ => tool_block(p),
                    }) {
                        Some(v) => seq![v],
                        None => Seq::<JsonView>::empty(),
                    },
                ),
            )
            &&& blocks(MessageView { role, parts: Seq::empty() }) == Some(
                (assistant, Seq::<JsonView>::empty()),
            )
        }),
{
    providers::parts_are_picked_in_order(a, b, p, |p: ContentPartView| user_block(p));
    providers::parts_are_picked_in_order(a, b, p, |p: ContentPartView| assistant_block(p));
    providers::parts_are_picked_in_order(a, b, p, |p: ContentPartView| tool_block(p));
}

/// A message begins a turn of its own, unless it speaks for the same side as the last turn, which
/// then goes on; one without blocks leaves the turns as they are.
pub proof fn messages_take_turns(msgs: Seq<MessageView>, m: MessageView)
    ensures
        turns(Seq::empty()).len() == 0,
        ({
            let before = turns(msgs);
            let after = turns(msgs.push(m));
            match blocks(m) {
                None => after == before,
                Some((assistant, bs)) => {
                    &&& bs.len() == 0 ==> after == before
                    &&& bs.len() > 0 && (before.len() == 0 || before.last().0 != assistant)
                        ==> after == before + seq![(assistant, bs)]
                    &&& bs.len() > 0 && before.len() > 0 && before.last().0 == assistant ==> after
                        == before.drop_last() + seq![(assistant, before.last().1 + bs)]
                },
            }
        }),
{
    assert(msgs.push(m).drop_last() =~= msgs);
}

/// A request names the model and its limit, asks for a stream, and carries every turn, every tool,
/// and the texts of all system messages, where there are any.
pub proof fn request_carries_everything(
    model: Seq<char>,
    msgs: Seq<MessageView>,
    tools: Seq<ToolSpecView>,
)
    ensures
        ({
            let b = body(model, msgs, tools);
            let system = text::joined(providers::system_texts(msgs), seq!['\n']);
            let sent = b.at("messages"@);
            &&& b.str_field("model"@) == Some(model)
            &&& b.field("max_tokens"@) == Some(JsonView::Number(json::unsigned_number(8096)))
            &&& b.field("stream"@) == Some(JsonView::Bool(true))
            &&& system.len() > 0 ==> b.str_field("system"@) == Some(system)
            &&& system.len() == 0 ==> b.field("system"@) is None
            &&& sent is Array && sent->Array_0.len() == turns(msgs).len()
            &&& forall|i: int|
                0 <= i < turns(msgs).len() ==> (#[trigger] sent->Array_0[i]).str_field("role"@)
                    == Some(
                    if turns(msgs)[i].0 {
                        "assistant"@
                    } else {
                        "user"@
                    },
                ) && sent->Array_0[i].field("content"@) == Some(JsonView::Array(turns(msgs)[i].1))
            &&& tools.len() == 0 ==> b.field("tools"@) is None
            &&& tools.len() > 0 ==> b.at("tools"@) is Array && b.at("tools"@)->Array_0.len()
                == tools.len()
            &&& forall|i: int|
                0 <= i < tools.len() ==> (#[trigger] b.at("tools"@)->Array_0[i]).str_field("name"@)
                    == Some(tools[i].name) && b.at("tools"@)->Array_0[i].str_field("description"@)
                    == Some(tools[i].description) && b.at("tools"@)->Array_0[i].field(
                    "input_schema"@,
                ) == Some(tools[i].params_schema)
        }),
{
    lemma_request_keys();
    reveal_strlit("\n");
    assert("\n"@ =~= seq!['\n']);
    assert(DEFAULT_MAX_TOKENS == 8096);
    let b = body(model, msgs, tools);
    if tools.len() > 0 {
        assert(b.at("tools"@) == JsonView::Array(tool_entries(tools)));
    }
    assert(b.at("messages"@) == JsonView::Array(turn_entries(turns(msgs))));
}

} // verus!
