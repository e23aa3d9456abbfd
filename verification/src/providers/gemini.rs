//! The Google Gemini (Generative Language) API.
use crate::json::{Json, JsonView};
use crate::providers::{Request, RequestView};
use crate::types::{ChatEvent, ChatEventView, ContentPart, ContentPartView, Message, MessageView, Role, ToolSpec, ToolSpecView};
use crate::{ids, json, providers, text, types};
use vstd::prelude::*;
use vstd::string::*;

verus! {

/// Google Gemini (Generative Language API) backend.
pub struct GeminiProvider {
    pub base_url: String,
    pub api_key: String,
}

impl GeminiProvider {
    pub fn new(base_url: Option<&str>, api_key: String) -> (r: Self)
        ensures
            r.base_url@ == providers::base(
                providers::opt_str(base_url),
                "https://generativelanguage.googleapis.com"@,
            ),
            r.api_key == api_key,
    {
        GeminiProvider {
            base_url: providers::base_of(base_url, "https://generativelanguage.googleapis.com"),
            api_key,
        }
    }

    /// The request for one turn of the assistant.
    pub fn request(&self, model: &str, messages: &[Message], tools: &[ToolSpec]) -> (r: Request)
        ensures
            r@ == (RequestView {
                url: self.base_url@ + "/v1beta/models/"@ + model@
                    + ":streamGenerateContent?alt=sse"@,
                headers: seq![("x-goog-api-key"@, self.api_key@)],
                body: body(types::message_views(messages@), types::spec_views(tools@)),
            }),
    {
        let mut headers: Vec<(String, String)> = Vec::new();
        providers::add_header(&mut headers, "x-goog-api-key", self.api_key.as_str());
        assert(providers::header_views(headers@) =~= seq![("x-goog-api-key"@, self.api_key@)]);
        let mut url = text::concat3(self.base_url.as_str(), "/v1beta/models/", model);
        url.append(":streamGenerateContent?alt=sse");
        Request { url, headers, body: build_body(messages, tools) }
    }
}

/// The name of the last of the parts that is a tool call with the given identifier.
pub open spec fn name_in_parts(parts: Seq<ContentPartView>, id: Seq<char>) -> Option<Seq<char>>
    decreases parts.len(),
{
    if parts.len() == 0 {
        None
    } else if parts.last() is ToolCall && parts.last()->ToolCall_id == id {
        Some(parts.last()->ToolCall_name)
    } else {
        name_in_parts(parts.drop_last(), id)
    }
}

/// The name of the function that a tool result answers: that of the last tool call with its
/// identifier.
pub open spec fn call_name(msgs: Seq<MessageView>, id: Seq<char>) -> Option<Seq<char>>
    decreases msgs.len(),
{
    if msgs.len() == 0 {
        None
    } else {
        match name_in_parts(msgs.last().parts, id) {
            Some(n) => Some(n),
            None => call_name(msgs.drop_last(), id),
        }
    }
}

/// The part of a user message for one of its parts.
pub open spec fn user_part(p: ContentPartView) -> Option<JsonView> {
    match p {
        ContentPartView::Text { text } => Some(
            providers::obj(map!["text"@ => providers::jstr(text)]),
        ),
        _ => None,
    }
}

/// The part of a model message for one of its parts.
pub open spec fn model_part(p: ContentPartView) -> Option<JsonView> {
    match p {
        ContentPartView::Text { text } => Some(
            providers::obj(map!["text"@ => providers::jstr(text)]),
        ),
        ContentPartView::ToolCall { id, name, args_json } => Some(
            providers::obj(
                map![
                    "functionCall"@ => providers::obj(map![
                        "name"@ => providers::jstr(name),
                        "args"@ => providers::args_value(args_json),
                    ]),
                ],
            ),
        ),
        ContentPartView::ToolResult { .. } => None,
    }
}

/// The part of a message of tool results for one of its parts, in a history.
pub open spec fn response_part(history: Seq<MessageView>, p: ContentPartView) -> Option<JsonView> {
    match p {
        ContentPartView::ToolResult { tool_call_id, content, .. } => Some(
            providers::obj(
                map![
                    "functionResponse"@ => providers::obj(map![
                        "name"@ => providers::jstr(providers::or_text(
                            call_name(history, tool_call_id),
                            "unknown"@,
                        )),
                        "response"@ => providers::obj(map!["result"@ => providers::jstr(content)]),
                    ]),
                ],
            ),
        ),
        _ => None,
    }
}

/// What one part of a message of the given role becomes.
pub open spec fn part_json(history: Seq<MessageView>, role: Role, p: ContentPartView) -> Option<
    JsonView,
> {
    match role {
        Role::System => None,
        Role::User => user_part(p),
        Role::Assistant => model_part(p),
        Role::Tool => response_part(history, p),
    }
}

/// The entry for one message, in a history; none where it would have no parts.
pub open spec fn entry(history: Seq<MessageView>, m: MessageView) -> Seq<JsonView> {
    let parts = providers::picked(m.parts, |p: ContentPartView| part_json(history, m.role, p));
    if parts.len() == 0 {
        Seq::empty()
    } else {
        seq![
            providers::obj(
                map![
                    "role"@ => providers::jstr(if m.role == Role::Assistant { "model"@ } else { "user"@ }),
                    "parts"@ => JsonView::Array(parts),
                ],
            ),
        ]
    }
}

/// The entries for the messages, in a history.
pub open spec fn entries(history: Seq<MessageView>, msgs: Seq<MessageView>) -> Seq<JsonView>
    decreases msgs.len(),
{
    if msgs.len() == 0 {
        Seq::empty()
    } else {
        entries(history, msgs.drop_last()) + entry(history, msgs.last())
    }
}

/// A tool.
pub open spec fn declaration(t: ToolSpecView) -> JsonView {
    providers::obj(
        map![
            "name"@ => providers::jstr(t.name),
            "description"@ => providers::jstr(t.description),
            "parameters"@ => t.params_schema,
        ],
    )
}

/// The tools.
pub open spec fn declarations(tools: Seq<ToolSpecView>) -> Seq<JsonView> {
    tools.map_values(|t: ToolSpecView| declaration(t))
}

/// The body of a request.
pub open spec fn body(msgs: Seq<MessageView>, tools: Seq<ToolSpecView>) -> JsonView {
    let system = text::joined(providers::system_texts(msgs), "\n"@);
    let m = map!["contents"@ => JsonView::Array(entries(msgs, msgs))];
    let with_system = if system.len() == 0 {
        m
    } else {
        m.insert(
            "systemInstruction"@,
            providers::obj(
                map![
                    "parts"@ => JsonView::Array(
                        seq![providers::obj(map!["text"@ => providers::jstr(system)])],
                    ),
                ],
            ),
        )
    };
    if tools.len() == 0 {
        providers::obj(with_system)
    } else {
        providers::obj(
            with_system.insert(
                "tools"@,
                JsonView::Array(
                    seq![
                        providers::obj(
                            map!["functionDeclarations"@ => JsonView::Array(declarations(tools))],
                        ),
                    ],
                ),
            ),
        )
    }
}

/// A result names the function of its call: where exactly one call of the history has the
/// identifier, the function is that of this call.
pub proof fn result_names_its_call(
    msgs: Seq<MessageView>,
    i: int,
    j: int,
    id: Seq<char>,
)
    requires
        0 <= i < msgs.len(),
        0 <= j < msgs[i].parts.len(),
        msgs[i].parts[j] is ToolCall,
        msgs[i].parts[j]->ToolCall_id == id,
        forall|a: int, b: int|
            0 <= a < msgs.len() && 0 <= b < msgs[a].parts.len() && (
            #[trigger] msgs[a].parts[b]) is ToolCall && msgs[a].parts[b]->ToolCall_id == id ==> a
                == i && b == j,
    ensures
        call_name(msgs, id) == Some(msgs[i].parts[j]->ToolCall_name),
    decreases msgs.len(),
{
    let last = msgs.len() - 1;
    if i == last {
        lemma_name_in_parts(msgs[i].parts, j, id);
    } else {
        assert forall|b: int| 0 <= b < msgs[last].parts.len() implies !((
        #[trigger] msgs[last].parts[b]) is ToolCall && msgs[last].parts[b]->ToolCall_id == id) by {
        }
        lemma_no_name_in_parts(msgs[last].parts, id);
        let t = msgs.drop_last();
        assert forall|a: int, b: int|
            0 <= a < t.len() && 0 <= b < t[a].parts.len() && (#[trigger] t[a].parts[b]) is ToolCall
                && t[a].parts[b]->ToolCall_id == id implies a == i && b == j by {
            assert(t[a] == msgs[a]);
            assert(msgs[a].parts[b] is ToolCall);
        }
        result_names_its_call(t, i, j, id);
    }
}

proof fn lemma_name_in_parts(parts: Seq<ContentPartView>, j: int, id: Seq<char>)
    requires
        0 <= j < parts.len(),
        parts[j] is ToolCall,
        parts[j]->ToolCall_id == id,
        forall|b: int|
            0 <= b < parts.len() && (#[trigger] parts[b]) is ToolCall && parts[b]->ToolCall_id
                == id ==> b == j,
    ensures
        name_in_parts(parts, id) == Some(parts[j]->ToolCall_name),
    decreases parts.len(),
{
    if j < parts.len() - 1 {
        let t = parts.drop_last();
        assert forall|b: int|
            0 <= b < t.len() && (#[trigger] t[b]) is ToolCall && t[b]->ToolCall_id == id implies b
            == j by {
            assert(t[b] == parts[b]);
        }
        assert(!(parts[parts.len() - 1] is ToolCall && parts[parts.len() - 1]->ToolCall_id == id));
        lemma_name_in_parts(t, j, id);
    }
}

proof fn lemma_no_name_in_parts(parts: Seq<ContentPartView>, id: Seq<char>)
    requires
        forall|b: int|
            0 <= b < parts.len() ==> !((#[trigger] parts[b]) is ToolCall && parts[b]->ToolCall_id
                == id),
    ensures
        name_in_parts(parts, id) is None,
    decreases parts.len(),
{
    if parts.len() > 0 {
        let t = parts.drop_last();
        assert forall|b: int| 0 <= b < t.len() implies !((#[trigger] t[b]) is ToolCall
            && t[b]->ToolCall_id == id) by {
            assert(t[b] == parts[b]);
        }
        lemma_no_name_in_parts(t, id);
    }
}

fn find_in_parts(m: &Message, id: &str) -> (r: Option<String>)
    ensures
        text::opt_view(r) == name_in_parts(m@.parts, id@),
{
    let mut i: usize = m.parts.len();
    assert(m.parts@.take(i as int) =~= m.parts@);
    while i > 0
        invariant
            i <= m.parts.len(),
            name_in_parts(m@.parts, id@) == name_in_parts(
                types::part_views(m.parts@.take(i as int)),
                id@,
            ),
        decreases i,
    {
        i -= 1;
        proof {
            types::lemma_part_views_take(m.parts@, i as int);
        }
        if let ContentPart::ToolCall { id: call_id, name, args_json: _ } = &m.parts[i] {
            if text::str_eq(call_id.as_str(), id) {
                return Some(name.clone());
            }
        }
    }
    None
}

/// The name of the function that a tool result answers: that of the last tool call with its
/// identifier.
pub fn find_call_name(messages: &[Message], id: &str) -> (r: Option<String>)
    ensures
        text::opt_view(r) == call_name(types::message_views(messages@), id@),
{
    let mut i: usize = messages.len();
    assert(messages@.take(i as int) =~= messages@);
    while i > 0
        invariant
            i <= messages.len(),
            call_name(types::message_views(messages@), id@) == call_name(
                types::message_views(messages@.take(i as int)),
                id@,
            ),
        decreases i,
    {
        i -= 1;
        proof {
            types::lemma_message_views_take(messages@, i as int);
        }
        if let Some(n) = find_in_parts(&messages[i], id) {
            return Some(n);
        }
    }
    None
}

fn make_part(history: &[Message], role: Role, p: &ContentPart) -> (r: Option<Json>)
    ensures
        types::opt_json(r) == part_json(types::message_views(history@), role, p@),
{
    match role {
        Role::System => None,
        Role::User => match p {
            ContentPart::Text { text } => Some(
                Json::object().with("text", Json::str(text.as_str())),
            ),
            _ => None,
        },
        Role::Assistant => match p {
            ContentPart::Text { text } => Some(
                Json::object().with("text", Json::str(text.as_str())),
            ),
            ContentPart::ToolCall { id: _, name, args_json } => {
                let call = Json::object().with("name", Json::str(name.as_str())).with(
                    "args",
                    providers::parse_args(args_json.as_str()),
                );
                Some(Json::object().with("functionCall", call))
            },
            _ => None,
        },
        Role::Tool => match p {
            ContentPart::ToolResult { tool_call_id, content, is_error: _ } => {
                let name = match find_call_name(history, tool_call_id.as_str()) {
                    Some(n) => n,
                    None => "unknown".to_owned(),
                };
                let response = Json::object().with("result", Json::str(content.as_str()));
                let f = Json::object().with("name", Json::Str(name)).with("response", response);
                Some(Json::object().with("functionResponse", f))
            },
            _ => None,
        },
    }
}

fn make_parts(history: &[Message], m: &Message) -> (r: Vec<Json>)
    ensures
        json::array_view(r@) == providers::picked(
            m@.parts,
            |p: ContentPartView| part_json(types::message_views(history@), m@.role, p),
        ),
{
    let mut out: Vec<Json> = Vec::new();
    let mut i: usize = 0;
    while i < m.parts.len()
        invariant
            i <= m.parts.len(),
            json::array_view(out@) == providers::picked(
                types::part_views(m.parts@.take(i as int)),
                |p: ContentPartView| part_json(types::message_views(history@), m@.role, p),
            ),
        decreases m.parts.len() - i,
    {
        proof {
            types::lemma_part_views_take(m.parts@, i as int);
        }
        if let Some(j) = make_part(history, m.role, &m.parts[i]) {
            proof {
                json::lemma_array_view_push(out@, j);
            }
            out.push(j);
        }
        i += 1;
    }
    assert(m.parts@.take(m.parts.len() as int) =~= m.parts@);
    out
}

/// The entries for the messages.
pub fn gemini_contents(messages: &[Message]) -> (r: Vec<Json>)
    ensures
        json::array_view(r@) == entries(
            types::message_views(messages@),
            types::message_views(messages@),
        ),
{
    let ghost history = types::message_views(messages@);
    let mut out: Vec<Json> = Vec::new();
    let mut i: usize = 0;
    while i < messages.len()
        invariant
            i <= messages.len(),
            history == types::message_views(messages@),
            json::array_view(out@) == entries(
                history,
                types::message_views(messages@.take(i as int)),
            ),
        decreases messages.len() - i,
    {
        proof {
            types::lemma_message_views_take(messages@, i as int);
        }
        let ghost before = json::array_view(out@);
        let parts = make_parts(messages, &messages[i]);
        proof {
            json::lemma_array_view(parts@);
            assert(before + Seq::<JsonView>::empty() =~= before);
        }
        if parts.len() > 0 {
            let role = if messages[i].role == Role::Assistant {
                "model"
            } else {
                "user"
            };
            let j = Json::object().with("role", Json::str(role)).with("parts", Json::Array(parts));
            proof {
                json::lemma_array_view_push(out@, j);
                assert(before.push(j@) =~= before + seq![j@]);
            }
            out.push(j);
        }
        i += 1;
    }
    assert(messages@.take(messages.len() as int) =~= messages@);
    out
}

fn declare(tools: &[ToolSpec]) -> (r: Json)
    ensures
        r@ == JsonView::Array(declarations(types::spec_views(tools@))),
{
    let mut out = Json::array();
    let mut i: usize = 0;
    while i < tools.len()
        invariant
            i <= tools.len(),
            out@ is Array,
            out@->Array_0 =~= declarations(types::spec_views(tools@)).take(i as int),
        decreases tools.len() - i,
    {
        let t = Json::object().with("name", Json::str(tools[i].name.as_str())).with(
            "description",
            Json::str(tools[i].description.as_str()),
        ).with("parameters", tools[i].params_schema.copy());
        assert(t@ == declaration(types::spec_views(tools@)[i as int]));
        out = out.and(t);
        i += 1;
    }
    assert(out@->Array_0 =~= declarations(types::spec_views(tools@)));
    out
}

/// The body of a request.
pub fn build_body(messages: &[Message], tools: &[ToolSpec]) -> (r: Json)
    ensures
        r@ == body(types::message_views(messages@), types::spec_views(tools@)),
{
    let system = providers::system_text(messages);
    let mut b = Json::object().with("contents", Json::Array(gemini_contents(messages)));
    if !system.as_str().is_empty() {
        let t = Json::object().with("text", Json::Str(system));
        let parts = Json::array().and(t);
        assert(parts@->Array_0 =~= seq![t@]);
        b = b.with("systemInstruction", Json::object().with("parts", parts));
    }
    if tools.len() > 0 {
        let d = Json::object().with("functionDeclarations", declare(tools));
        let list = Json::array().and(d);
        assert(list@->Array_0 =~= seq![d@]);
        b = b.with("tools", list);
    }
    b
}

/// The events that one part of an answer gives; calls are yet without identifiers.
pub open spec fn part_events(part: JsonView) -> Seq<ChatEventView> {
    providers::text_event(part.str_field("text"@)) + match part.field("functionCall"@) {
        Some(fc) => seq![
            ChatEventView::ToolCall {
                id: Seq::empty(),
                name: providers::or_text(fc.str_field("name"@), Seq::empty()),
                args_json: match fc.field("args"@) {
                    Some(a) => json::json_text(a),
                    None => "{}"@,
                },
            },
        ],
        None => Seq::<ChatEventView>::empty(),
    }
}

/// The events that the parts of an answer give.
pub open spec fn parts_events(parts: Seq<JsonView>) -> Seq<ChatEventView>
    decreases parts.len(),
{
    if parts.len() == 0 {
        Seq::empty()
    } else {
        parts_events(parts.drop_last()) + part_events(parts.last())
    }
}

/// The events that a candidate gives.
pub open spec fn candidate_events(cand: JsonView) -> Seq<ChatEventView> {
    match cand.at("content"@).at("parts"@).as_array() {
        Some(parts) => parts_events(parts),
        None => Seq::empty(),
    }
}

/// The events that the candidates give.
pub open spec fn candidates_events(cands: Seq<JsonView>) -> Seq<ChatEventView>
    decreases cands.len(),
{
    if cands.len() == 0 {
        Seq::empty()
    } else {
        candidates_events(cands.drop_last()) + candidate_events(cands.last())
    }
}

/// The usage that a payload reports, where it does.
pub open spec fn usage_event(v: JsonView) -> Seq<ChatEventView> {
    match v.field("usageMetadata"@) {
        Some(u) => seq![
            ChatEventView::Usage {
                input_tokens: providers::or_zero(u.at("promptTokenCount"@).as_u64()),
                output_tokens: providers::or_zero(u.at("candidatesTokenCount"@).as_u64()),
            },
        ],
        None => Seq::empty(),
    }
}

/// What a payload that parses does: whether the answer has ended then, and the events that it
/// gives. An error frame ends the stream, and no `Done` follows it.
pub open spec fn value_step(done: bool, v: JsonView) -> (bool, Seq<ChatEventView>) {
    match providers::openai::payload_error(v, "unknown gemini error"@) {
        Some(m) => (true, seq![ChatEventView::Error(m)]),
        None => (
            done,
            (match v.at("candidates"@).as_array() {
                Some(cands) => candidates_events(cands),
                None => Seq::empty(),
            }) + usage_event(v),
        ),
    }
}

/// What a payload does. What does not parse is skipped.
pub open spec fn data_step(done: bool, data: Seq<char>) -> (bool, Seq<ChatEventView>) {
    match json::json_parsed(text::trimmed(data)) {
        Ok(v) => value_step(done, v),
        Err(_) => (done, Seq::empty()),
    }
}

/// What the end of the stream does.
pub open spec fn end_step(done: bool) -> (bool, Seq<ChatEventView>) {
    (
        true,
        if done {
            Seq::empty()
        } else {
            seq![ChatEventView::Done]
        },
    )
}

/// Assembles Gemini SSE `data:` payloads into [`ChatEvent`]s.
pub struct GeminiAssembler {
    done_emitted: bool,
}

impl GeminiAssembler {
    /// Whether the answer has ended.
    pub closed spec fn done(self) -> bool {
        self.done_emitted
    }

    /// Takes a payload in; returns the events that it gives, each call with an identifier of
    /// its own.
    pub fn push_data(&mut self, data: &str) -> (r: Vec<ChatEvent>)
        ensures
            final(self).done() == data_step(old(self).done(), data@).0,
            ids::all_identified(
                "gemini-"@,
                data_step(old(self).done(), data@).1,
                types::chat_views(r@),
            ),
    {
        let t = text::trim(data);
        match json::parse(t.as_str()) {
            Ok(v) => {
                let drafts = self.push_value(&v);
                ids::identify("gemini-", drafts)
            },
            Err(_) => Vec::new(),
        }
    }

    /// Takes a payload in that parsed to `v`; returns the events that it gives, the calls yet
    /// without identifiers.
    pub fn push_value(&mut self, v: &Json) -> (r: Vec<ChatEvent>)
        ensures
            final(self).done() == value_step(old(self).done(), v@).0,
            types::chat_views(r@) == value_step(old(self).done(), v@).1,
    {
        let mut out: Vec<ChatEvent> = Vec::new();
        assert(types::chat_views(out@) =~= Seq::<ChatEventView>::empty());
        if let Some(m) = providers::openai::error_text(v, "unknown gemini error") {
            self.done_emitted = true;
            providers::emit(&mut out, ChatEvent::Error(m));
            assert(types::chat_views(out@) =~= value_step(old(self).done(), v@).1);
            return out;
        }
        if let Some(cs) = v.get("candidates") {
            if let Some(cands) = cs.as_array() {
                push_candidates(cands, &mut out);
                assert(types::chat_views(out@) =~= candidates_events(json::array_view(cands@)));
            }
        }
        let ghost before = types::chat_views(out@);
        if let Some(u) = v.get("usageMetadata") {
            let input_tokens = providers::number_at(u, "promptTokenCount");
            let output_tokens = providers::number_at(u, "candidatesTokenCount");
            providers::emit(&mut out, ChatEvent::Usage { input_tokens, output_tokens });
        }
        assert(types::chat_views(out@) =~= before + usage_event(v@));
        out
    }

    /// Ends the stream.
    pub fn finish(&mut self) -> (r: Vec<ChatEvent>)
        ensures
            final(self).done() == end_step(old(self).done()).0,
            types::chat_views(r@) == end_step(old(self).done()).1,
    {
        let mut out: Vec<ChatEvent> = Vec::new();
        if !self.done_emitted {
            self.done_emitted = true;
            out.push(ChatEvent::Done);
        }
        assert(types::chat_views(out@) =~= end_step(old(self).done()).1);
        out
    }
}

impl Default for GeminiAssembler {
    fn default() -> (r: Self)
        ensures
            !r.done(),
    {
        GeminiAssembler { done_emitted: false }
    }
}

fn push_candidates(cands: &Vec<Json>, out: &mut Vec<ChatEvent>)
    ensures
        types::chat_views(final(out)@) == types::chat_views(old(out)@) + candidates_events(
            json::array_view(cands@),
        ),
{
    let ghost all = json::array_view(cands@);
    let ghost start = types::chat_views(out@);
    let mut i: usize = 0;
    proof {
        json::lemma_array_view(cands@);
        assert(all.take(0) =~= Seq::<JsonView>::empty());
        assert(start + Seq::<ChatEventView>::empty() =~= start);
    }
    while i < cands.len()
        invariant
            i <= cands.len(),
            all == json::array_view(cands@),
            all.len() == cands.len(),
            forall|k: int|
                0 <= k < cands.len() ==> #[trigger] json::array_view(cands@)[k]
                    == cands@[k].view(),
            types::chat_views(out@) == start + candidates_events(all.take(i as int)),
        decreases cands.len() - i,
    {
        let ghost before = types::chat_views(out@);
        proof {
            assert(all.take(i + 1).drop_last() =~= all.take(i as int));
            assert(all.take(i + 1).last() == cands@[i as int].view());
        }
        if let Some(content) = cands[i].get("content") {
            if let Some(ps) = content.get("parts") {
                if let Some(parts) = ps.as_array() {
                    push_parts(parts, out);
                }
            }
        }
        assert(types::chat_views(out@) =~= before + candidate_events(cands@[i as int].view()));
        assert(types::chat_views(out@) =~= start + candidates_events(all.take(i + 1)));
        i += 1;
    }
    assert(all.take(cands.len() as int) =~= all);
}

fn push_parts(parts: &Vec<Json>, out: &mut Vec<ChatEvent>)
    ensures
        types::chat_views(final(out)@) == types::chat_views(old(out)@) + parts_events(
            json::array_view(parts@),
        ),
{
    let ghost all = json::array_view(parts@);
    let ghost start = types::chat_views(out@);
    let mut i: usize = 0;
    proof {
        json::lemma_array_view(parts@);
        assert(all.take(0) =~= Seq::<JsonView>::empty());
        assert(start + Seq::<ChatEventView>::empty() =~= start);
    }
    while i < parts.len()
        invariant
            i <= parts.len(),
            all == json::array_view(parts@),
            all.len() == parts.len(),
            forall|k: int|
                0 <= k < parts.len() ==> #[trigger] json::array_view(parts@)[k]
                    == parts@[k].view(),
            types::chat_views(out@) == start + parts_events(all.take(i as int)),
        decreases parts.len() - i,
    {
        let part = &parts[i];
        let ghost before = types::chat_views(out@);
        proof {
            assert(all.take(i + 1).drop_last() =~= all.take(i as int));
            assert(all.take(i + 1).last() == part@);
        }
        providers::emit_text(out, part.str_field("text"));
        if let Some(fc) = part.get("functionCall") {
            let name = match fc.str_field("name") {
                Some(n) => n.to_owned(),
                None => String::new(),
            };
            let args_json = match fc.get("args") {
                Some(a) => json::render(a),
                None => "{}".to_owned(),
            };
            providers::emit(out, ChatEvent::ToolCall { id: String::new(), name, args_json });
        }
        assert(types::chat_views(out@) =~= before + part_events(part@));
        assert(types::chat_views(out@) =~= start + parts_events(all.take(i + 1)));
        i += 1;
    }
    assert(all.take(parts.len() as int) =~= all);
}

/// What the payloads of a stream do, one after the other.
pub open spec fn all_data(data: Seq<Seq<char>>) -> (bool, Seq<ChatEventView>)
    decreases data.len(),
{
    if data.len() == 0 {
        (false, Seq::empty())
    } else {
        let (done, before) = all_data(data.drop_last());
        let (now, events) = data_step(done, data.last());
        (now, before + events)
    }
}

proof fn lemma_parts_no_dones(parts: Seq<JsonView>)
    ensures
        providers::dones(parts_events(parts)) == 0,
    decreases parts.len(),
{
    if parts.len() > 0 {
        lemma_parts_no_dones(parts.drop_last());
        providers::lemma_no_dones(part_events(parts.last()));
        providers::lemma_dones_concat(parts_events(parts.drop_last()), part_events(parts.last()));
    }
}

proof fn lemma_candidates_no_dones(cands: Seq<JsonView>)
    ensures
        providers::dones(candidates_events(cands)) == 0,
    decreases cands.len(),
{
    if cands.len() > 0 {
        lemma_candidates_no_dones(cands.drop_last());
        if let Some(parts) = cands.last().at("content"@).at("parts"@).as_array() {
            lemma_parts_no_dones(parts);
        }
        providers::lemma_dones_concat(
            candidates_events(cands.drop_last()),
            candidate_events(cands.last()),
        );
    }
}

proof fn lemma_data_no_dones(done: bool, data: Seq<char>)
    ensures
        providers::dones(data_step(done, data).1) == 0,
{
    if let Ok(v) = json::json_parsed(text::trimmed(data)) {
        let said = match v.at("candidates"@).as_array() {
            Some(cands) => candidates_events(cands),
            None => Seq::empty(),
        };
        if let Some(cands) = v.at("candidates"@).as_array() {
            lemma_candidates_no_dones(cands);
        }
        providers::lemma_no_dones(usage_event(v));
        providers::lemma_dones_concat(said, usage_event(v));
        if let Some(m) = providers::openai::payload_error(v, "unknown gemini error"@) {
            providers::lemma_no_dones(seq![ChatEventView::Error(m)]);
        }
    }
}

/// A stream ends with one `Done`, when it is over, unless an error frame came: then there is
/// none.
pub proof fn stream_ends_unless_it_failed(data: Seq<Seq<char>>)
    ensures
        ({
            let (failed, events) = all_data(data);
            &&& providers::dones(events) == 0
            &&& providers::dones(events + end_step(failed).1) == (if failed {
                0nat
            } else {
                1
            })
        }),
    decreases data.len(),
{
    let (failed, events) = all_data(data);
    if data.len() > 0 {
        stream_ends_unless_it_failed(data.drop_last());
        let (before, sofar) = all_data(data.drop_last());
        lemma_data_no_dones(before, data.last());
        providers::lemma_dones_concat(sofar, data_step(before, data.last()).1);
    }
    providers::lemma_dones_concat(events, end_step(failed).1);
    reveal_with_fuel(providers::dones, 2);
    assert(!failed ==> end_step(failed).1.drop_last() =~= Seq::<ChatEventView>::empty());
}

proof fn lemma_parts_no_errors(parts: Seq<JsonView>)
    ensures
        forall|i: int|
            0 <= i < parts_events(parts).len() ==> !((#[trigger] parts_events(parts)[i]) is Error)
                && !(parts_events(parts)[i] is Done),
    decreases parts.len(),
{
    if parts.len() > 0 {
        lemma_parts_no_errors(parts.drop_last());
        let before = parts_events(parts.drop_last());
        let all = parts_events(parts);
        assert forall|i: int| 0 <= i < all.len() implies !((#[trigger] all[i]) is Error) && !(
        all[i] is Done) by {
            if i < before.len() {
                assert(all[i] == before[i]);
            } else {
                assert(all[i] == part_events(parts.last())[i - before.len()]);
            }
        }
    }
}

proof fn lemma_candidates_no_errors(cands: Seq<JsonView>)
    ensures
        forall|i: int|
            0 <= i < candidates_events(cands).len() ==> !((
            #[trigger] candidates_events(cands)[i]) is Error) && !(candidates_events(cands)[i]
                is Done),
    decreases cands.len(),
{
    if cands.len() > 0 {
        lemma_candidates_no_errors(cands.drop_last());
        let before = candidates_events(cands.drop_last());
        let all = candidates_events(cands);
        if let Some(parts) = cands.last().at("content"@).at("parts"@).as_array() {
            lemma_parts_no_errors(parts);
        }
        assert forall|i: int| 0 <= i < all.len() implies !((#[trigger] all[i]) is Error) && !(
        all[i] is Done) by {
            if i < before.len() {
                assert(all[i] == before[i]);
            } else {
                assert(all[i] == candidate_events(cands.last())[i - before.len()]);
            }
        }
    }
}

proof fn lemma_all_data_error_order(data: Seq<Seq<char>>)
    ensures
        ({
            let (failed, events) = all_data(data);
            &&& providers::no_end_behind_an_error(events)
            &&& providers::has_error(events) ==> failed
        }),
    decreases data.len(),
{
    if data.len() > 0 {
        lemma_all_data_error_order(data.drop_last());
        let (before, sofar) = all_data(data.drop_last());
        let (now, more) = data_step(before, data.last());
        if let Ok(v) = json::json_parsed(text::trimmed(data.last())) {
            if let Some(cands) = v.at("candidates"@).as_array() {
                lemma_candidates_no_errors(cands);
                let said = candidates_events(cands);
                if providers::openai::payload_error(v, "unknown gemini error"@) is None {
                    assert forall|i: int| 0 <= i < more.len() implies !((#[trigger] more[i])
                        is Error) && !(more[i] is Done) by {
                        if i < said.len() {
                            assert(more[i] == said[i]);
                        }
                    }
                }
            }
        }
        providers::lemma_error_order(sofar, before, more, now);
    }
}

/// Behind an error frame no `Done` follows, whatever arrives.
pub proof fn no_end_follows_an_error(data: Seq<Seq<char>>)
    ensures
        ({
            let (failed, events) = all_data(data);
            providers::no_end_behind_an_error(events + end_step(failed).1)
        }),
{
    lemma_all_data_error_order(data);
    let (failed, events) = all_data(data);
    providers::lemma_error_order(events, failed, end_step(failed).1, true);
}

/// The text that parts hold, one after the other.
pub open spec fn parts_text(parts: Seq<JsonView>) -> Seq<char>
    decreases parts.len(),
{
    if parts.len() == 0 {
        Seq::empty()
    } else {
        parts_text(parts.drop_last()) + match parts.last().at("text"@) {
            JsonView::Str(s) => s,
            _ => Seq::empty(),
        }
    }
}

/// The text that candidates hold, one after the other.
pub open spec fn candidates_text(cands: Seq<JsonView>) -> Seq<char>
    decreases cands.len(),
{
    if cands.len() == 0 {
        Seq::empty()
    } else {
        candidates_text(cands.drop_last()) + match cands.last().at("content"@).at("parts"@) {
            JsonView::Array(parts) => parts_text(parts),
            _ => Seq::empty(),
        }
    }
}

/// The text that the payloads of a stream hold, one after the other; an error holds none.
pub open spec fn all_text(data: Seq<Seq<char>>) -> Seq<char>
    decreases data.len(),
{
    if data.len() == 0 {
        Seq::empty()
    } else {
        all_text(data.drop_last()) + match json::json_parsed(text::trimmed(data.last())) {
            Ok(v) => match (v.at("error"@), v.at("candidates"@)) {
                (JsonView::Null, JsonView::Array(cands)) => candidates_text(cands),
                _ => Seq::empty(),
            },
            Err(_) => Seq::empty(),
        }
    }
}

proof fn lemma_parts_said(parts: Seq<JsonView>)
    ensures
        types::said(parts_events(parts)) == parts_text(parts),
    decreases parts.len(),
{
    if parts.len() > 0 {
        lemma_parts_said(parts.drop_last());
        let p = parts.last();
        let text = providers::text_event(p.str_field("text"@));
        providers::text_is_passed_on_whole(p.str_field("text"@));
        let called = part_events(p).skip(text.len() as int);
        assert(part_events(p) =~= text + called);
        types::lemma_nothing_said(called);
        types::said_in_order(text, called, ChatEventView::Done);
        assert(types::said(text) + Seq::<char>::empty() =~= types::said(text));
        types::said_in_order(parts_events(parts.drop_last()), part_events(p), ChatEventView::Done);
    }
}

proof fn lemma_candidates_said(cands: Seq<JsonView>)
    ensures
        types::said(candidates_events(cands)) == candidates_text(cands),
    decreases cands.len(),
{
    if cands.len() > 0 {
        lemma_candidates_said(cands.drop_last());
        let c = cands.last();
        if let JsonView::Array(parts) = c.at("content"@).at("parts"@) {
            lemma_parts_said(parts);
        }
        types::said_in_order(
            candidates_events(cands.drop_last()),
            candidate_events(c),
            ChatEventView::Done,
        );
    }
}

/// The answer says all that the payloads hold and nothing else: the text deltas of a stream, put
/// together, are the texts of the parts of its candidates, in the order in which they arrived and
/// as soon as they arrive. The end of the stream says nothing more.
pub proof fn answer_says_all_that_arrived(data: Seq<Seq<char>>)
    ensures
        types::said(all_data(data).1) == all_text(data),
        types::said(all_data(data).1 + end_step(all_data(data).0).1) == all_text(data),
    decreases data.len(),
{
    let (done, events) = all_data(data);
    if data.len() > 0 {
        answer_says_all_that_arrived(data.drop_last());
        let (before, sofar) = all_data(data.drop_last());
        let more = data_step(before, data.last()).1;
        types::said_in_order(sofar, more, ChatEventView::Done);
        match json::json_parsed(text::trimmed(data.last())) {
            Ok(v) => {
                if v.at("error"@) is Null {
                    assert(providers::openai::payload_error(v, "unknown gemini error"@) is None);
                    let first = match v.at("candidates"@).as_array() {
                        Some(cands) => candidates_events(cands),
                        None => Seq::empty(),
                    };
                    if let Some(cands) = v.at("candidates"@).as_array() {
                        lemma_candidates_said(cands);
                    }
                    types::lemma_nothing_said(usage_event(v));
                    types::said_in_order(first, usage_event(v), ChatEventView::Done);
                    assert(types::said(first) + Seq::<char>::empty() =~= types::said(first));
                } else {
                    types::lemma_nothing_said(more);
                }
            },
            Err(_) => {},
        }
    }
    types::lemma_nothing_said(end_step(done).1);
    types::said_in_order(events, end_step(done).1, ChatEventView::Done);
    assert(types::said(events) + Seq::<char>::empty() =~= types::said(events));
}

/// Every part of every candidate gives its text and then its call, in order: the call with its
/// name and its arguments as they print, an empty object where there are none.
pub proof fn parts_give_text_and_call(a: Seq<JsonView>, b: Seq<JsonView>, part: JsonView)
    ensures
        parts_events(a + b) == parts_events(a) + parts_events(b),
        parts_events(Seq::empty()).len() == 0,
        ({
            let text = match part.at("text"@) {
                JsonView::Str(s) => if s.len() > 0 {
                    seq![ChatEventView::TextDelta(s)]
                } else {
                    Seq::<ChatEventView>::empty()
                },
                _ => Seq::<ChatEventView>::empty(),
            };
            parts_events(seq![part]) == text + match part.field("functionCall"@) {
                Some(f) => seq![
                    ChatEventView::ToolCall {
                        id: Seq::empty(),
                        name: match f.at("name"@) {
                            JsonView::Str(n) => n,
                            _ => Seq::empty(),
                        },
                        args_json: match f.field("args"@) {
                            Some(x) => json::json_text(x),
                            None => seq!['{', '}'],
                        },
                    },
                ],
                None => Seq::<ChatEventView>::empty(),
            }
        }),
    decreases b.len(),
{
    reveal_with_fuel(parts_events, 2);
    reveal_strlit("{}");
    assert("{}"@ =~= seq!['{', '}']);
    assert(seq![part].drop_last() =~= Seq::<JsonView>::empty());
    assert(seq![part].last() == part);
    assert(Seq::<ChatEventView>::empty() + part_events(part) =~= part_events(part));
    if b.len() == 0 {
        assert(a + b =~= a);
        assert(parts_events(a) + parts_events(b) =~= parts_events(a));
    } else {
        parts_give_text_and_call(a, b.drop_last(), part);
        assert((a + b).drop_last() =~= a + b.drop_last());
        assert((a + b).last() == b.last());
        assert(parts_events(a + b) =~= parts_events(a) + parts_events(b));
    }
}

/// The candidates give what their parts give, in order.
pub proof fn candidates_give_their_parts(a: Seq<JsonView>, b: Seq<JsonView>, cand: JsonView)
    ensures
        candidates_events(a + b) == candidates_events(a) + candidates_events(b),
        candidates_events(Seq::empty()).len() == 0,
        candidates_events(seq![cand]) == (match cand.at("content"@).at("parts"@) {
            JsonView::Array(parts) => parts_events(parts),
            _ => Seq::<ChatEventView>::empty(),
        }),
    decreases b.len(),
{
    reveal_with_fuel(candidates_events, 2);
    assert(seq![cand].drop_last() =~= Seq::<JsonView>::empty());
    assert(seq![cand].last() == cand);
    assert(Seq::<ChatEventView>::empty() + candidate_events(cand) =~= candidate_events(cand));
    if b.len() == 0 {
        assert(a + b =~= a);
        assert(candidates_events(a) + candidates_events(b) =~= candidates_events(a));
    } else {
        candidates_give_their_parts(a, b.drop_last(), cand);
        assert((a + b).drop_last() =~= a + b.drop_last());
        assert((a + b).last() == b.last());
        assert(candidates_events(a + b) =~= candidates_events(a) + candidates_events(b));
    }
}

/// A payload is an error, a chunk of the answer, or noise. An error is reported with its message
/// and ends the answer; a chunk gives what its candidates hold and then the usage that it reports;
/// and noise does nothing. The end of the stream ends the answer once.
pub proof fn payloads_do_what_they_say(done: bool, data: Seq<char>)
    ensures
        match json::json_parsed(text::trimmed(data)) {
            Err(_) => data_step(done, data) == (done, Seq::<ChatEventView>::empty()),
            Ok(v) => match v.at("error"@) {
                JsonView::Null => data_step(done, data) == (
                    done,
                    (match v.at("candidates"@) {
                        JsonView::Array(cands) => candidates_events(cands),
                        _ => Seq::<ChatEventView>::empty(),
                    }) + (match v.field("usageMetadata"@) {
                        Some(u) => seq![
                            ChatEventView::Usage {
                                input_tokens: match u.at("promptTokenCount"@).as_u64() {
                                    Some(n) => n,
                                    None => 0,
                                },
                                output_tokens: match u.at("candidatesTokenCount"@).as_u64() {
                                    Some(n) => n,
                                    None => 0,
                                },
                            },
                        ],
                        None => Seq::<ChatEventView>::empty(),
                    }),
                ),
                e => data_step(done, data) == (
                    true,
                    seq![
                        ChatEventView::Error(
                            match e.at("message"@) {
                                JsonView::Str(m) => m,
                                _ => "unknown gemini error"@,
                            },
                        ),
                    ],
                ),
            },
        },
        end_step(done).0,
        done ==> end_step(done).1.len() == 0,
        !done ==> end_step(done).1 == seq![ChatEventView::Done],
{
}

proof fn lemma_request_keys()
    ensures
        "name"@ != "args"@ && "name"@ != "response"@ && "role"@ != "parts"@,
        "name"@ != "description"@ && "name"@ != "parameters"@ && "description"@ != "parameters"@,
        "contents"@ != "systemInstruction"@ && "contents"@ != "tools"@,
        "systemInstruction"@ != "tools"@ && "text"@ != "functionCall"@,
        "text"@ != "functionResponse"@ && "functionCall"@ != "functionResponse"@,
{
    reveal_strlit("name");
    reveal_strlit("args");
    reveal_strlit("response");
    reveal_strlit("role");
    reveal_strlit("parts");
    reveal_strlit("description");
    reveal_strlit("parameters");
    reveal_strlit("contents");
    reveal_strlit("systemInstruction");
    reveal_strlit("tools");
    reveal_strlit("text");
    reveal_strlit("functionCall");
    reveal_strlit("functionResponse");
    assert("name"@[0] == 'n' && "args"@[0] == 'a' && "response"@.len() == 8);
    assert("name"@.len() == 4 && "args"@.len() == 4 && "role"@.len() == 4 && "parts"@.len() == 5);
    assert("description"@.len() == 11 && "parameters"@.len() == 10 && "contents"@.len() == 8);
    assert("systemInstruction"@.len() == 17 && "tools"@.len() == 5 && "text"@.len() == 4);
    assert("functionCall"@.len() == 12 && "functionResponse"@.len() == 16);
}

/// A part of a message is sent with all that it holds: a text, a call with its name and
/// arguments, or a result with its whole content, under the name of the tool that was called.
pub proof fn parts_are_sent_whole(
    history: Seq<MessageView>,
    t: Seq<char>,
    id: Seq<char>,
    name: Seq<char>,
    args: Seq<char>,
    is_error: bool,
)
    ensures
        ({
            let text = ContentPartView::Text { text: t };
            let call = ContentPartView::ToolCall { id, name, args_json: args };
            let result = ContentPartView::ToolResult { tool_call_id: id, content: t, is_error };
            &&& part_json(history, Role::User, text) matches Some(p) && p.str_field("text"@)
                == Some(t)
            &&& part_json(history, Role::User, call) is None && part_json(
                history,
                Role::User,
                result,
            ) is None
            &&& part_json(history, Role::Assistant, text) == part_json(history, Role::User, text)
            &&& part_json(history, Role::Assistant, call) matches Some(p) && p.at(
                "functionCall"@,
            ).str_field("name"@) == Some(name) && p.at("functionCall"@).field("args"@) == Some(
                providers::args_value(args),
            )
            &&& part_json(history, Role::Assistant, result) is None
            &&& part_json(history, Role::Tool, text) is None && part_json(
                history,
                Role::Tool,
                call,
            ) is None
            &&& part_json(history, Role::Tool, result) matches Some(p) && p.at(
                "functionResponse"@,
            ).str_field("name"@) == Some(
                match call_name(history, id) {
                    Some(n) => n,
                    None => "unknown"@,
                },
            ) && p.at("functionResponse"@).at("response"@).str_field("result"@) == Some(t)
            &&& part_json(history, Role::System, text) is None
        }),
{
    lemma_request_keys();
}

/// The messages are sent in order, each with its role and its parts in order; one of which no part
/// is sent is left out.
pub proof fn messages_are_sent_in_order(
    history: Seq<MessageView>,
    a: Seq<MessageView>,
    b: Seq<MessageView>,
    m: MessageView,
)
    ensures
        entries(history, a + b) == entries(history, a) + entries(history, b),
        entries(history, Seq::empty()).len() == 0,
        ({
            let parts = providers::picked(
                m.parts,
                |p: ContentPartView| part_json(history, m.role, p),
            );
            let one = entries(history, seq![m]);
            &&& parts.len() == 0 ==> one.len() == 0
            &&& parts.len() > 0 ==> one.len() == 1 && one[0].str_field("role"@) == Some(
                if m.role == Role::Assistant {
                    "model"@
                } else {
                    "user"@
                },
            ) && one[0].field("parts"@) == Some(JsonView::Array(parts))
        }),
    decreases b.len(),
{
    reveal_with_fuel(entries, 2);
    lemma_request_keys();
    assert(seq![m].drop_last() =~= Seq::<MessageView>::empty());
    assert(seq![m].last() == m);
    assert(Seq::<JsonView>::empty() + entry(history, m) =~= entry(history, m));
    if b.len() == 0 {
        assert(a + b =~= a);
        assert(entries(history, a) + entries(history, b) =~= entries(history, a));
    } else {
        messages_are_sent_in_order(history, a, b.drop_last(), m);
        assert((a + b).drop_last() =~= a + b.drop_last());
        assert((a + b).last() == b.last());
        assert(entries(history, a + b) =~= entries(history, a) + entries(history, b));
    }
}

/// A request carries every message, every tool, and the texts of all system messages, where there
/// are any.
pub proof fn request_carries_everything(msgs: Seq<MessageView>, tools: Seq<ToolSpecView>)
    ensures
        ({
            let b = body(msgs, tools);
            let system = text::joined(providers::system_texts(msgs), seq!['\n']);
            let sys = b.at("systemInstruction"@).at("parts"@);
            let list = b.at("tools"@);
            let decls = list->Array_0[0].at("functionDeclarations"@);
            &&& b.field("contents"@) == Some(JsonView::Array(entries(msgs, msgs)))
            &&& system.len() == 0 ==> b.field("systemInstruction"@) is None
            &&& system.len() > 0 ==> sys is Array && sys->Array_0.len() == 1
                && sys->Array_0[0].str_field("text"@) == Some(system)
            &&& tools.len() == 0 ==> b.field("tools"@) is None
            &&& tools.len() > 0 ==> list is Array && list->Array_0.len() == 1 && decls is Array
                && decls->Array_0.len() == tools.len()
            &&& forall|i: int|
                0 <= i < tools.len() ==> (#[trigger] decls->Array_0[i]).str_field("name"@) == Some(
                    tools[i].name,
                ) && decls->Array_0[i].str_field("description"@) == Some(tools[i].description)
                    && decls->Array_0[i].field("parameters"@) == Some(tools[i].params_schema)
        }),
{
    lemma_request_keys();
    reveal_strlit("\n");
    assert("\n"@ =~= seq!['\n']);
    let b = body(msgs, tools);
    if tools.len() > 0 {
        assert(b.at("tools"@)->Array_0[0].at("functionDeclarations"@) == JsonView::Array(
            declarations(tools),
        ));
    }
}

} // verus!
