//! Messages, events and configurations that the parts of the library exchange.
use crate::json::{Json, JsonView};
use crate::{json, text};
use vstd::prelude::*;
use vstd::string::*;

verus! {

/// Who a message is from.
#[derive(Debug, Clone, Copy, PartialEq, Eq, Structural)]
pub enum Role {
    System,
    User,
    Assistant,
    Tool,
}

/// One part of a message.
#[derive(Debug, Clone, PartialEq)]
pub enum ContentPart {
    Text { text: String },
    ToolCall { id: String, name: String, args_json: String },
    ToolResult { tool_call_id: String, content: String, is_error: bool },
}

/// What a part of a message holds.
pub enum ContentPartView {
    Text { text: Seq<char> },
    ToolCall { id: Seq<char>, name: Seq<char>, args_json: Seq<char> },
    ToolResult { tool_call_id: Seq<char>, content: Seq<char>, is_error: bool },
}

impl ContentPart {
    pub open spec fn view(self) -> ContentPartView {
        match self {
            ContentPart::Text { text } => ContentPartView::Text { text: text@ },
            ContentPart::ToolCall { id, name, args_json } => ContentPartView::ToolCall {
                id: id@,
                name: name@,
                args_json: args_json@,
            },
            ContentPart::ToolResult { tool_call_id, content, is_error } =>
                ContentPartView::ToolResult {
                tool_call_id: tool_call_id@,
                content: content@,
                is_error,
            },
        }
    }

    /// An equal part.
    pub fn copy(&self) -> (r: ContentPart)
        ensures
            r@ == self@,
    {
        match self {
            ContentPart::Text { text } => ContentPart::Text { text: text.clone() },
            ContentPart::ToolCall { id, name, args_json } => ContentPart::ToolCall {
                id: id.clone(),
                name: name.clone(),
                args_json: args_json.clone(),
            },
            ContentPart::ToolResult { tool_call_id, content, is_error } => ContentPart::ToolResult {
                tool_call_id: tool_call_id.clone(),
                content: content.clone(),
                is_error: *is_error,
            },
        }
    }
}

/// What the parts of a list hold.
pub open spec fn part_views(parts: Seq<ContentPart>) -> Seq<ContentPartView> {
    parts.map_values(|p: ContentPart| p@)
}

/// One more part.
pub proof fn lemma_part_views_push(v: Seq<ContentPart>, x: ContentPart)
    ensures
        part_views(v.push(x)) == part_views(v).push(x@),
{
    assert(part_views(v.push(x)) =~= part_views(v).push(x@));
}

/// The first parts, and one more.
pub proof fn lemma_part_views_take(v: Seq<ContentPart>, i: int)
    requires
        0 <= i < v.len(),
    ensures
        part_views(v.take(i + 1)) == part_views(v.take(i)).push(v[i]@),
        part_views(v).take(i + 1) == part_views(v).take(i).push(v[i]@),
        part_views(v.take(i + 1)).drop_last() == part_views(v.take(i)),
        part_views(v.take(i + 1)).last() == v[i]@,
{
    assert(part_views(v.take(i + 1)) =~= part_views(v.take(i)).push(v[i]@));
    assert(part_views(v).take(i + 1) =~= part_views(v).take(i).push(v[i]@));
    assert(part_views(v.take(i + 1)).drop_last() =~= part_views(v.take(i)));
}

/// One message of a conversation.
#[derive(Debug, Clone, PartialEq)]
pub struct Message {
    pub role: Role,
    pub parts: Vec<ContentPart>,
}

/// What a message holds.
#[verifier::ext_equal]
pub struct MessageView {
    pub role: Role,
    pub parts: Seq<ContentPartView>,
}

impl MessageView {
    /// A message that is one text.
    pub open spec fn text(role: Role, text: Seq<char>) -> MessageView {
        MessageView { role, parts: seq![ContentPartView::Text { text }] }
    }
}

impl Message {
    pub open spec fn view(self) -> MessageView {
        MessageView { role: self.role, parts: part_views(self.parts@) }
    }

    /// A message that is one text.
    pub fn text(role: Role, text: &str) -> (r: Self)
        ensures
            r@ == MessageView::text(role, text@),
    {
        let mut parts: Vec<ContentPart> = Vec::new();
        parts.push(ContentPart::Text { text: text.to_owned() });
        let r = Message { role, parts };
        assert(r@ =~= MessageView::text(role, text@));
        r
    }

    /// An equal message.
    pub fn copy(&self) -> (r: Message)
        ensures
            r@ == self@,
    {
        let mut parts: Vec<ContentPart> = Vec::new();
        let mut i: usize = 0;
        while i < self.parts.len()
            invariant
                i <= self.parts.len(),
                part_views(parts@) =~= part_views(self.parts@.take(i as int)),
            decreases self.parts.len() - i,
        {
            let p = self.parts[i].copy();
            proof {
                lemma_part_views_push(parts@, p);
                lemma_part_views_take(self.parts@, i as int);
            }
            parts.push(p);
            i += 1;
        }
        assert(self.parts@.take(self.parts.len() as int) =~= self.parts@);
        Message { role: self.role, parts }
    }
}

/// What the messages of a list hold.
pub open spec fn message_views(msgs: Seq<Message>) -> Seq<MessageView> {
    msgs.map_values(|m: Message| m@)
}

/// One more message.
pub proof fn lemma_message_views_push(v: Seq<Message>, x: Message)
    ensures
        message_views(v.push(x)) == message_views(v).push(x@),
{
    assert(message_views(v.push(x)) =~= message_views(v).push(x@));
}

/// The first messages, and one more.
pub proof fn lemma_message_views_take(v: Seq<Message>, i: int)
    requires
        0 <= i < v.len(),
    ensures
        message_views(v.take(i + 1)) == message_views(v.take(i)).push(v[i]@),
        message_views(v).take(i + 1) == message_views(v).take(i).push(v[i]@),
        message_views(v.take(i + 1)).drop_last() == message_views(v.take(i)),
        message_views(v.take(i + 1)).last() == v[i]@,
{
    assert(message_views(v.take(i + 1)) =~= message_views(v.take(i)).push(v[i]@));
    assert(message_views(v).take(i + 1) =~= message_views(v).take(i).push(v[i]@));
    assert(message_views(v.take(i + 1)).drop_last() =~= message_views(v.take(i)));
}

/// A tool as a provider is told of it.
pub struct ToolSpec {
    pub name: String,
    pub description: String,
    pub params_schema: Json,
}

/// What a tool description holds.
pub struct ToolSpecView {
    pub name: Seq<char>,
    pub description: Seq<char>,
    pub params_schema: JsonView,
}

impl ToolSpec {
    pub open spec fn view(self) -> ToolSpecView {
        ToolSpecView {
            name: self.name@,
            description: self.description@,
            params_schema: self.params_schema@,
        }
    }
}

/// What the tool descriptions of a list hold.
pub open spec fn spec_views(specs: Seq<ToolSpec>) -> Seq<ToolSpecView> {
    specs.map_values(|s: ToolSpec| s@)
}

/// One more description.
pub proof fn lemma_spec_views_push(v: Seq<ToolSpec>, x: ToolSpec)
    ensures
        spec_views(v.push(x)) == spec_views(v).push(x@),
{
    assert(spec_views(v.push(x)) =~= spec_views(v).push(x@));
}

/// Tool-call arguments as one JSON object: the text itself where it is one, else the first value
/// in it where that is an object, else an empty object.
pub open spec fn sanitized(
    raw: Seq<char>,
    whole: Option<JsonView>,
    first: Option<JsonView>,
) -> Seq<char> {
    if whole matches Some(JsonView::Object(_)) {
        raw
    } else if first matches Some(JsonView::Object(_)) {
        json::json_text(first->0)
    } else {
        "{}"@
    }
}

/// What the values of an optional tree are.
pub open spec fn opt_json(o: Option<Json>) -> Option<JsonView> {
    match o {
        Some(j) => Some(j@),
        None => None,
    }
}

/// Picks the arguments from what the text parses to as a whole, and its first value. An object
/// that is printed is read back from what is returned.
pub fn sanitize_parsed(raw: &str, whole: Option<Json>, first: Option<Json>) -> (r: String)
    ensures
        r@ == sanitized(raw@, opt_json(whole), opt_json(first)),
        !(opt_json(whole) matches Some(JsonView::Object(_))) ==> match opt_json(first) {
            Some(JsonView::Object(m)) => json::nests(
                JsonView::Object(m),
                json::MAX_NESTING as nat,
            ) ==> json::reads_back(JsonView::Object(m), r@),
            _ => json::reads_back(JsonView::Object(Map::empty()), r@),
        },
{
    if let Some(v) = whole {
        if v.is_object() {
            return raw.to_owned();
        }
    }
    if let Some(v) = first {
        if v.is_object() {
            return json::render(&v);
        }
    }
    json::render(&Json::object())
}

/// Tool-call arguments must be one valid JSON object. Weak models sometimes emit truncated or
/// concatenated JSON (`{"a":1}{"a":2}`); keep the first valid object when there is one, else
/// fall back to `{}` so tools and provider chat templates never choke on garbage downstream.
///
/// Whatever came in, what is returned parses as one object, which is the one that was kept, and
/// sanitizing it again changes nothing.
pub fn sanitize_args_json(raw: &str) -> (r: String)
    ensures
        r@ == sanitized(raw@, json::parsed(raw@), json::json_first(raw@)),
        json::parsed(r@) matches Some(JsonView::Object(_)),
        !(json::parsed(raw@) matches Some(JsonView::Object(_))) ==> json::reads_back(
            match json::json_first(raw@) {
                Some(JsonView::Object(m)) => JsonView::Object(m),
                _ => JsonView::Object(Map::empty()),
            },
            r@,
        ),
        sanitized(r@, json::parsed(r@), json::json_first(r@)) == r@,
{
    let whole = match json::parse(raw) {
        Ok(v) => Some(v),
        Err(_) => None,
    };
    let first = json::parse_first(raw);
    sanitize_parsed(raw, whole, first)
}

/// Arguments that are one object stay as they are, however often they are sanitized; others
/// become the print of the object that they begin with, and `{}` where they begin with none.
pub proof fn sanitizing_keeps_the_first_object(raw: Seq<char>)
    ensures
        ({
            let r = sanitized(raw, json::parsed(raw), json::json_first(raw));
            if json::parsed(raw) matches Some(JsonView::Object(_)) {
                r == raw && sanitized(r, json::parsed(r), json::json_first(r)) == raw
            } else {
                match json::json_first(raw) {
                    Some(JsonView::Object(m)) => r == json::json_text(JsonView::Object(m)),
                    _ => r == "{}"@,
                }
            }
        }),
{
}

/// One event from a provider's streaming chat response.
#[derive(Debug, Clone, PartialEq)]
pub enum ChatEvent {
    TextDelta(String),
    ToolCall { id: String, name: String, args_json: String },
    Usage { input_tokens: u64, output_tokens: u64 },
    /// Server-sent error frame (Anthropic `error` events, OpenAI error payloads).
    Error(String),
    Done,
}

/// What a chat event holds.
pub enum ChatEventView {
    TextDelta(Seq<char>),
    ToolCall { id: Seq<char>, name: Seq<char>, args_json: Seq<char> },
    Usage { input_tokens: u64, output_tokens: u64 },
    Error(Seq<char>),
    Done,
}

impl ChatEvent {
    pub open spec fn view(self) -> ChatEventView {
        match self {
            ChatEvent::TextDelta(t) => ChatEventView::TextDelta(t@),
            ChatEvent::ToolCall { id, name, args_json } => ChatEventView::ToolCall {
                id: id@,
                name: name@,
                args_json: args_json@,
            },
            ChatEvent::Usage { input_tokens, output_tokens } => ChatEventView::Usage {
                input_tokens,
                output_tokens,
            },
            ChatEvent::Error(m) => ChatEventView::Error(m@),
            ChatEvent::Done => ChatEventView::Done,
        }
    }
}

/// What the chat events of a list hold.
pub open spec fn chat_views(v: Seq<ChatEvent>) -> Seq<ChatEventView> {
    v.map_values(|e: ChatEvent| e@)
}

/// One more event.
pub proof fn lemma_chat_views_push(v: Seq<ChatEvent>, x: ChatEvent)
    ensures
        chat_views(v.push(x)) == chat_views(v).push(x@),
{
    assert(chat_views(v.push(x)) =~= chat_views(v).push(x@));
}

/// Whether tool calls wait for the user.
#[derive(Debug, Clone, Copy, PartialEq, Eq, Structural)]
pub enum ApprovalMode {
    Manual,
    Auto,
}

/// One event from the agent loop toward the UI.
#[derive(Debug, Clone, PartialEq)]
pub enum AgentEvent {
    TextDelta(String),
    ToolCallProposed { tool_call_id: String, name: String, args_json: String },
    ApprovalRequested {
        request_id: String,
        tool_call_id: String,
        name: String,
        args_json: String,
    },
    ToolCallFinished { tool_call_id: String, ok: bool, summary: String },
    MessageDone,
    Error(String),
    Cancelled,
}

/// What an agent event holds.
pub enum AgentEventView {
    TextDelta(Seq<char>),
    ToolCallProposed { tool_call_id: Seq<char>, name: Seq<char>, args_json: Seq<char> },
    ApprovalRequested {
        request_id: Seq<char>,
        tool_call_id: Seq<char>,
        name: Seq<char>,
        args_json: Seq<char>,
    },
    ToolCallFinished { tool_call_id: Seq<char>, ok: bool, summary: Seq<char> },
    MessageDone,
    Error(Seq<char>),
    Cancelled,
}

impl AgentEvent {
    pub open spec fn view(self) -> AgentEventView {
        match self {
            AgentEvent::TextDelta(t) => AgentEventView::TextDelta(t@),
            AgentEvent::ToolCallProposed { tool_call_id, name, args_json } =>
                AgentEventView::ToolCallProposed {
                tool_call_id: tool_call_id@,
                name: name@,
                args_json: args_json@,
            },
            AgentEvent::ApprovalRequested { request_id, tool_call_id, name, args_json } =>
                AgentEventView::ApprovalRequested {
                request_id: request_id@,
                tool_call_id: tool_call_id@,
                name: name@,
                args_json: args_json@,
            },
            AgentEvent::ToolCallFinished { tool_call_id, ok, summary } =>
                AgentEventView::ToolCallFinished {
                tool_call_id: tool_call_id@,
                ok,
                summary: summary@,
            },
            AgentEvent::MessageDone => AgentEventView::MessageDone,
            AgentEvent::Error(m) => AgentEventView::Error(m@),
            AgentEvent::Cancelled => AgentEventView::Cancelled,
        }
    }
}

/// What the agent events of a list hold.
pub open spec fn agent_views(v: Seq<AgentEvent>) -> Seq<AgentEventView> {
    v.map_values(|e: AgentEvent| e@)
}

/// One more event.
pub proof fn lemma_agent_views_push(v: Seq<AgentEvent>, x: AgentEvent)
    ensures
        agent_views(v.push(x)) == agent_views(v).push(x@),
{
    assert(agent_views(v.push(x)) =~= agent_views(v).push(x@));
}

/// The protocols that providers speak.
#[derive(Debug, Clone, Copy, PartialEq, Eq, Structural)]
pub enum ProviderKind {
    OpenAi,
    Anthropic,
    Gemini,
    Ollama,
    OpenAiCompatible,
}

/// One configured provider.
#[derive(Debug, Clone, PartialEq)]
pub struct ProviderConfig {
    pub id: String,
    pub label: String,
    pub kind: ProviderKind,
    pub base_url: Option<String>,
    /// True when an API key exists in the OS keychain (keys never live in the DB/TOML).
    pub has_key: bool,
    pub models: Vec<String>,
    /// Models hidden from the picker (they still work where already assigned).
    pub disabled_models: Vec<String>,
    pub extra_headers: Vec<(String, String)>,
}

/// All that the text deltas among events say.
pub open spec fn said(events: Seq<ChatEventView>) -> Seq<char>
    decreases events.len(),
{
    if events.len() == 0 {
        Seq::empty()
    } else {
        match events.last() {
            ChatEventView::TextDelta(d) => said(events.drop_last()) + d,
            _ => said(events.drop_last()),
        }
    }
}

/// What is said by one list of events and then by another: both, in order; a text delta says its
/// text, and every other event says nothing.
pub proof fn said_in_order(a: Seq<ChatEventView>, b: Seq<ChatEventView>, e: ChatEventView)
    ensures
        said(a + b) == said(a) + said(b),
        said(Seq::empty()) == Seq::<char>::empty(),
        said(seq![e]) == (match e {
            ChatEventView::TextDelta(d) => d,
            _ => Seq::<char>::empty(),
        }),
        said(a.push(e)) == said(a) + said(seq![e]),
    decreases b.len(),
{
    reveal_with_fuel(said, 2);
    assert(seq![e].drop_last() =~= Seq::<ChatEventView>::empty());
    assert(seq![e].last() == e);
    assert(a.push(e).drop_last() =~= a);
    assert(said(seq![e]) =~= (match e {
        ChatEventView::TextDelta(d) => d,
        _ => Seq::<char>::empty(),
    }));
    assert(said(a.push(e)) =~= said(a) + said(seq![e]));
    if b.len() == 0 {
        assert(a + b =~= a);
        assert(said(a) + said(b) =~= said(a));
    } else {
        said_in_order(a, b.drop_last(), e);
        assert((a + b).drop_last() =~= a + b.drop_last());
        assert((a + b).last() == b.last());
        assert(said(a + b) =~= said(a) + said(b));
    }
}

/// What a part, a message and an event hold is all of it.
pub proof fn views_hold_everything(a: String, b: String, c: String, flag: bool, m: Message)
    ensures
        (ContentPart::Text { text: a })@ == (ContentPartView::Text { text: a@ }),
        (ContentPart::ToolCall { id: a, name: b, args_json: c })@ == (ContentPartView::ToolCall {
            id: a@,
            name: b@,
            args_json: c@,
        }),
        (ContentPart::ToolResult { tool_call_id: a, content: b, is_error: flag })@ == (
        ContentPartView::ToolResult { tool_call_id: a@, content: b@, is_error: flag }),
        m@.role == m.role && m@.parts.len() == m.parts@.len(),
        forall|i: int| 0 <= i < m.parts@.len() ==> #[trigger] m@.parts[i] == m.parts@[i]@,
        ChatEvent::TextDelta(a)@ == ChatEventView::TextDelta(a@),
        (ChatEvent::ToolCall { id: a, name: b, args_json: c })@ == (ChatEventView::ToolCall {
            id: a@,
            name: b@,
            args_json: c@,
        }),
        AgentEvent::TextDelta(a)@ == AgentEventView::TextDelta(a@),
        (AgentEvent::ToolCallFinished { tool_call_id: a, ok: flag, summary: b })@ == (
        AgentEventView::ToolCallFinished { tool_call_id: a@, ok: flag, summary: b@ }),
        (AgentEvent::ToolCallProposed { tool_call_id: a, name: b, args_json: c })@ == (
        AgentEventView::ToolCallProposed { tool_call_id: a@, name: b@, args_json: c@ }),
        AgentEvent::Error(a)@ == AgentEventView::Error(a@),
{
}

/// What a list holds is what each of its items holds, in order.
pub proof fn lists_hold_every_item(
    m: Seq<Message>,
    t: Seq<ToolSpec>,
    c: Seq<ChatEvent>,
    a: Seq<AgentEvent>,
    i: int,
)
    ensures
        message_views(m).len() == m.len(),
        spec_views(t).len() == t.len(),
        chat_views(c).len() == c.len(),
        agent_views(a).len() == a.len(),
        0 <= i < m.len() ==> message_views(m)[i] == m[i]@,
        0 <= i < t.len() ==> spec_views(t)[i].name == t[i].name@ && spec_views(t)[i].description
            == t[i].description@ && spec_views(t)[i].params_schema == t[i].params_schema@,
        0 <= i < c.len() ==> chat_views(c)[i] == c[i]@,
        0 <= i < a.len() ==> agent_views(a)[i] == a[i]@,
{
}

/// Events that are no text deltas.
pub proof fn lemma_nothing_said(a: Seq<ChatEventView>)
    requires
        forall|i: int| 0 <= i < a.len() ==> !((#[trigger] a[i]) is TextDelta),
    ensures
        said(a) == Seq::<char>::empty(),
    decreases a.len(),
{
    if a.len() > 0 {
        let t = a.drop_last();
        assert forall|i: int| 0 <= i < t.len() implies !((#[trigger] t[i]) is TextDelta) by {
            assert(t[i] == a[i]);
        }
        lemma_nothing_said(t);
        assert(!(a[a.len() - 1] is TextDelta));
    }
}

} // verus!
