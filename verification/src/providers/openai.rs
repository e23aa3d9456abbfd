//! OpenAI Chat Completions, and the many services that speak its protocol.
use crate::json::{Json, JsonView};
use crate::providers::calls::{CallBuf, CallView, Calls};
use crate::providers::{Request, RequestView};
use crate::types::{ChatEvent, ChatEventView, ContentPart, ContentPartView, Message, MessageView, Role, ToolSpec};
use crate::{json, providers, text, types};
use vstd::prelude::*;
use vstd::string::*;

verus! {

/// OpenAI Chat Completions backend. With a custom `base_url` it also serves any
/// OpenAI-compatible endpoint (OpenRouter, Groq, Mistral, Together, llama.cpp, vLLM…).
pub struct OpenAiProvider {
    pub base_url: String,
    pub api_key: Option<String>,
    pub extra_headers: Vec<(String, String)>,
}

impl OpenAiProvider {
    pub fn new(
        base_url: Option<&str>,
        api_key: Option<String>,
        extra_headers: Vec<(String, String)>,
    ) -> (r: Self)
        ensures
            r.base_url@ == providers::base(
                providers::opt_str(base_url),
                "https://api.openai.com/v1"@,
            ),
            r.api_key == api_key,
            r.extra_headers == extra_headers,
    {
        OpenAiProvider {
            base_url: providers::base_of(base_url, "https://api.openai.com/v1"),
            api_key,
            extra_headers,
        }
    }

    /// The request for one turn of the assistant.
    pub fn request(&self, model: &str, messages: &[Message], tools: &[ToolSpec]) -> (r: Request)
        ensures
            r@ == (RequestView {
                url: self.base_url@ + "/chat/completions"@,
                headers: (match self.api_key {
                    Some(k) => seq![("Authorization"@, "Bearer "@ + k@)],
                    None => Seq::empty(),
                }) + providers::header_views(self.extra_headers@),
                body: body(model@, types::message_views(messages@), types::spec_views(tools@)),
            }),
    {
        let mut headers: Vec<(String, String)> = Vec::new();
        assert(providers::header_views(headers@) =~= Seq::<(Seq<char>, Seq<char>)>::empty());
        if let Some(k) = &self.api_key {
            let v = text::concat2("Bearer ", k.as_str());
            providers::add_header(&mut headers, "Authorization", v.as_str());
            assert(providers::header_views(headers@) =~= seq![
                ("Authorization"@, "Bearer "@ + k@),
            ]);
        }
        let ghost auth = providers::header_views(headers@);
        let ghost extra = providers::header_views(self.extra_headers@);
        let mut i: usize = 0;
        assert(auth + extra.take(0) =~= auth);
        while i < self.extra_headers.len()
            invariant
                i <= self.extra_headers.len(),
                extra == providers::header_views(self.extra_headers@),
                providers::header_views(headers@) == auth + extra.take(i as int),
            decreases self.extra_headers.len() - i,
        {
            let ghost before = providers::header_views(headers@);
            providers::add_header(
                &mut headers,
                self.extra_headers[i].0.as_str(),
                self.extra_headers[i].1.as_str(),
            );
            assert(providers::header_views(headers@) =~= auth + extra.take(i + 1));
            i += 1;
        }
        assert(extra.take(self.extra_headers.len() as int) =~= extra);
        let url = text::concat2(self.base_url.as_str(), "/chat/completions");
        Request { url, headers, body: build_body(model, messages, tools) }
    }
}

/// A tool call of an assistant message. History may contain malformed arguments from older
/// runs, on which chat templates fail, so they are sanitized.
pub open spec fn call_entry(p: ContentPartView) -> Option<JsonView> {
    match p {
        ContentPartView::ToolCall { id, name, args_json } => Some(
            providers::obj(
                map![
                    "id"@ => providers::jstr(id),
                    "type"@ => providers::jstr("function"@),
                    "function"@ => providers::obj(map![
                        "name"@ => providers::jstr(name),
                        "arguments"@ => providers::jstr(types::sanitized(
                            args_json,
                            json::parsed(args_json),
                            json::json_first(args_json),
                        )),
                    ]),
                ],
            ),
        ),
        _ => None,
    }
}

/// A tool result as a message of its own.
pub open spec fn result_entry(p: ContentPartView) -> Option<JsonView> {
    match p {
        ContentPartView::ToolResult { tool_call_id, content, .. } => Some(
            providers::obj(
                map![
                    "role"@ => providers::jstr("tool"@),
                    "tool_call_id"@ => providers::jstr(tool_call_id),
                    "content"@ => providers::jstr(content),
                ],
            ),
        ),
        _ => None,
    }
}

/// A text message.
pub open spec fn text_message(role: Seq<char>, parts: Seq<ContentPartView>) -> JsonView {
    providers::obj(
        map![
            "role"@ => providers::jstr(role),
            "content"@ => providers::jstr(providers::text_of(parts)),
        ],
    )
}

/// A message of the assistant: its text, null where it has none, and its tool calls.
pub open spec fn assistant_message(parts: Seq<ContentPartView>) -> JsonView {
    let text = providers::text_of(parts);
    let calls = providers::picked(parts, |p: ContentPartView| call_entry(p));
    let m = map![
        "role"@ => providers::jstr("assistant"@),
        "content"@ => if text.len() == 0 { JsonView::Null } else { providers::jstr(text) },
    ];
    if calls.len() == 0 {
        providers::obj(m)
    } else {
        providers::obj(m.insert("tool_calls"@, JsonView::Array(calls)))
    }
}

/// The entries for one message; each tool result is one of its own.
pub open spec fn message_entries(m: MessageView) -> Seq<JsonView> {
    match m.role {
        Role::System => seq![text_message("system"@, m.parts)],
        Role::User => seq![text_message("user"@, m.parts)],
        Role::Assistant => seq![assistant_message(m.parts)],
        Role::Tool => providers::picked(m.parts, |p: ContentPartView| result_entry(p)),
    }
}

/// The entries for the messages.
pub open spec fn all_entries(msgs: Seq<MessageView>) -> Seq<JsonView>
    decreases msgs.len(),
{
    if msgs.len() == 0 {
        Seq::empty()
    } else {
        all_entries(msgs.drop_last()) + message_entries(msgs.last())
    }
}

/// The body of a request.
pub open spec fn body(
    model: Seq<char>,
    msgs: Seq<MessageView>,
    tools: Seq<types::ToolSpecView>,
) -> JsonView {
    let m = map![
        "model"@ => providers::jstr(model),
        "stream"@ => JsonView::Bool(true),
        "stream_options"@ => providers::obj(map!["include_usage"@ => JsonView::Bool(true)]),
        "messages"@ => JsonView::Array(all_entries(msgs)),
    ];
    if tools.len() == 0 {
        providers::obj(m)
    } else {
        providers::obj(
            m.insert(
                "tools"@,
                JsonView::Array(providers::function_tool_list(tools)),
            ).insert("tool_choice"@, providers::jstr("auto"@)),
        )
    }
}

fn call_entries(m: &Message) -> (r: Vec<Json>)
    ensures
        json::array_view(r@) == providers::picked(m@.parts, |p: ContentPartView| call_entry(p)),
{
    let mut out: Vec<Json> = Vec::new();
    let mut i: usize = 0;
    while i < m.parts.len()
        invariant
            i <= m.parts.len(),
            json::array_view(out@) == providers::picked(
                types::part_views(m.parts@.take(i as int)),
                |p: ContentPartView| call_entry(p),
            ),
        decreases m.parts.len() - i,
    {
        proof {
            types::lemma_part_views_take(m.parts@, i as int);
        }
        if let ContentPart::ToolCall { id, name, args_json } = &m.parts[i] {
            let args = types::sanitize_args_json(args_json.as_str());
            let f = Json::object().with("name", Json::str(name.as_str())).with(
                "arguments",
                Json::Str(args),
            );
            let c = Json::object().with("id", Json::str(id.as_str())).with(
                "type",
                Json::str("function"),
            ).with("function", f);
            proof {
                json::lemma_array_view_push(out@, c);
            }
            out.push(c);
        }
        i += 1;
    }
    assert(m.parts@.take(m.parts.len() as int) =~= m.parts@);
    out
}

fn push_results(m: &Message, out: &mut Vec<Json>)
    ensures
        json::array_view(final(out)@) == json::array_view(old(out)@) + providers::picked(
            m@.parts,
            |p: ContentPartView| result_entry(p),
        ),
{
    let mut i: usize = 0;
    assert(json::array_view(out@) + Seq::<JsonView>::empty() =~= json::array_view(out@));
    while i < m.parts.len()
        invariant
            i <= m.parts.len(),
            json::array_view(out@) == json::array_view(old(out)@) + providers::picked(
                types::part_views(m.parts@.take(i as int)),
                |p: ContentPartView| result_entry(p),
            ),
        decreases m.parts.len() - i,
    {
        proof {
            types::lemma_part_views_take(m.parts@, i as int);
        }
        if let ContentPart::ToolResult { tool_call_id, content, is_error: _ } = &m.parts[i] {
            let c = Json::object().with("role", Json::str("tool")).with(
                "tool_call_id",
                Json::str(tool_call_id.as_str()),
            ).with("content", Json::str(content.as_str()));
            proof {
                json::lemma_array_view_push(out@, c);
                let before = providers::picked(
                    types::part_views(m.parts@.take(i as int)),
                    |p: ContentPartView| result_entry(p),
                );
                assert(json::array_view(old(out)@) + before.push(c@) =~= (json::array_view(
                    old(out)@,
                ) + before).push(c@));
            }
            out.push(c);
        }
        i += 1;
    }
    assert(m.parts@.take(m.parts.len() as int) =~= m.parts@);
}

fn text_json(role: &str, m: &Message) -> (r: Json)
    ensures
        r@ == text_message(role@, m@.parts),
{
    let t = providers::concat_text(m);
    Json::object().with("role", Json::str(role)).with("content", Json::Str(t))
}

fn assistant_json(m: &Message) -> (r: Json)
    ensures
        r@ == assistant_message(m@.parts),
{
    let t = providers::concat_text(m);
    let content = if t.as_str().is_empty() {
        Json::Null
    } else {
        Json::Str(t)
    };
    let msg = Json::object().with("role", Json::str("assistant")).with("content", content);
    let calls = call_entries(m);
    proof {
        json::lemma_array_view(calls@);
    }
    if calls.len() > 0 {
        msg.with("tool_calls", Json::Array(calls))
    } else {
        msg
    }
}

/// The entries for the messages.
pub fn openai_messages(messages: &[Message]) -> (r: Vec<Json>)
    ensures
        json::array_view(r@) == all_entries(types::message_views(messages@)),
{
    let mut out: Vec<Json> = Vec::new();
    let mut i: usize = 0;
    while i < messages.len()
        invariant
            i <= messages.len(),
            json::array_view(out@) == all_entries(types::message_views(messages@.take(i as int))),
        decreases messages.len() - i,
    {
        let m = &messages[i];
        let ghost before = json::array_view(out@);
        proof {
            types::lemma_message_views_take(messages@, i as int);
        }
        match m.role {
            Role::Tool => {
                push_results(m, &mut out);
            },
            _ => {
                let j = match m.role {
                    Role::System => text_json("system", m),
                    Role::User => text_json("user", m),
                    _ => assistant_json(m),
                };
                proof {
                    json::lemma_array_view_push(out@, j);
                    assert(before.push(j@) =~= before + seq![j@]);
                }
                out.push(j);
            },
        }
        i += 1;
    }
    assert(messages@.take(messages.len() as int) =~= messages@);
    out
}

/// The body of a request.
pub fn build_body(model: &str, messages: &[Message], tools: &[ToolSpec]) -> (r: Json)
    ensures
        r@ == body(model@, types::message_views(messages@), types::spec_views(tools@)),
{
    let options = Json::object().with("include_usage", Json::Bool(true));
    let b = Json::object().with("model", Json::str(model)).with("stream", Json::Bool(true)).with(
        "stream_options",
        options,
    ).with("messages", Json::Array(openai_messages(messages)));
    if tools.len() == 0 {
        b
    } else {
        b.with("tools", providers::function_tools(tools)).with("tool_choice", Json::str("auto"))
    }
}

/// What an assembler remembers: the calls under assembly, and whether the end was emitted.
#[verifier::ext_equal]
pub struct OpenAiState {
    pub calls: Seq<(u64, CallView)>,
    pub done: bool,
}

/// The call that a piece of one belongs to, with the piece taken in.
pub open spec fn with_piece(c: CallView, tc: JsonView) -> CallView {
    let f = tc.at("function"@);
    CallView {
        id: providers::or_text(tc.str_field("id"@), c.id),
        name: providers::or_text(f.str_field("name"@), c.name),
        args: c.args + providers::or_text(f.str_field("arguments"@), Seq::empty()),
    }
}

/// The calls with one piece taken in.
pub open spec fn piece(calls: Seq<(u64, CallView)>, tc: JsonView) -> Seq<(u64, CallView)> {
    let idx = providers::or_zero(tc.at("index"@).as_u64());
    let c = match providers::calls::slot(calls, idx) {
        Some(c) => c,
        None => CallView::none(),
    };
    providers::calls::slot_set(calls, idx, with_piece(c, tc))
}

/// The calls with the pieces taken in.
pub open spec fn pieces(calls: Seq<(u64, CallView)>, tcs: Seq<JsonView>) -> Seq<(u64, CallView)>
    decreases tcs.len(),
{
    if tcs.len() == 0 {
        calls
    } else {
        piece(pieces(calls, tcs.drop_last()), tcs.last())
    }
}

/// What one choice of a chunk does to the calls, and the events that it gives: its text, and all
/// calls where it tells that they are complete.
pub open spec fn choice_step(calls: Seq<(u64, CallView)>, choice: JsonView) -> (
    Seq<(u64, CallView)>,
    Seq<ChatEventView>,
) {
    let delta = choice.at("delta"@);
    let said = providers::text_event(delta.str_field("content"@));
    let taken = match delta.at("tool_calls"@).as_array() {
        Some(tcs) => pieces(calls, tcs),
        None => calls,
    };
    if choice.str_field("finish_reason"@) == Some("tool_calls"@) {
        (Seq::empty(), said + providers::calls::call_events(taken))
    } else {
        (taken, said)
    }
}

/// What the choices of a chunk do.
pub open spec fn choices_step(calls: Seq<(u64, CallView)>, choices: Seq<JsonView>) -> (
    Seq<(u64, CallView)>,
    Seq<ChatEventView>,
)
    decreases choices.len(),
{
    if choices.len() == 0 {
        (calls, Seq::empty())
    } else {
        let (before, events) = choices_step(calls, choices.drop_last());
        let (after, more) = choice_step(before, choices.last());
        (after, events + more)
    }
}

/// The error that a payload reports, where it does.
pub open spec fn payload_error(v: JsonView, unknown: Seq<char>) -> Option<Seq<char>> {
    match v.field("error"@) {
        Some(JsonView::Null) => None,
        Some(e) => Some(providers::or_text(e.str_field("message"@), unknown)),
        None => None,
    }
}

/// The usage that a payload reports, where it does.
pub open spec fn usage_event(v: JsonView) -> Seq<ChatEventView> {
    match v.field("usage"@) {
        Some(JsonView::Null) => Seq::empty(),
        Some(u) => seq![
            ChatEventView::Usage {
                input_tokens: providers::or_zero(u.at("prompt_tokens"@).as_u64()),
                output_tokens: providers::or_zero(u.at("completion_tokens"@).as_u64()),
            },
        ],
        None => Seq::empty(),
    }
}

impl OpenAiState {
    /// Nothing has arrived.
    pub open spec fn start() -> OpenAiState {
        OpenAiState { calls: Seq::empty(), done: false }
    }

    /// What a payload that parses does: an error frame is reported and does nothing else.
    pub open spec fn value(self, v: JsonView) -> (OpenAiState, Seq<ChatEventView>) {
        match payload_error(v, "unknown provider error"@) {
            Some(m) => (self, seq![ChatEventView::Error(m)]),
            None => match v.at("choices"@).as_array() {
                Some(choices) => {
                    let (calls, events) = choices_step(self.calls, choices);
                    (OpenAiState { calls, done: self.done }, usage_event(v) + events)
                },
                None => (self, usage_event(v)),
            },
        }
    }

    /// What a payload does. `[DONE]` ends the answer; what does not parse is skipped.
    pub open spec fn data(self, data: Seq<char>) -> (OpenAiState, Seq<ChatEventView>) {
        let t = text::trimmed(data);
        if t == "[DONE]"@ {
            (
                OpenAiState { calls: self.calls, done: true },
                if self.done {
                    Seq::empty()
                } else {
                    seq![ChatEventView::Done]
                },
            )
        } else {
            match json::json_parsed(t) {
                Ok(v) => self.value(v),
                Err(_) => (self, Seq::empty()),
            }
        }
    }

    /// What the end of the stream does: the calls are complete, and the answer has ended.
    pub open spec fn end(self) -> (OpenAiState, Seq<ChatEventView>) {
        (
            OpenAiState { calls: Seq::empty(), done: true },
            providers::calls::call_events(self.calls) + if self.done {
                Seq::<ChatEventView>::empty()
            } else {
                seq![ChatEventView::Done]
            },
        )
    }

    /// What a list of payloads does.
    pub open spec fn all_data(self, data: Seq<Seq<char>>) -> (OpenAiState, Seq<ChatEventView>)
        decreases data.len(),
    {
        if data.len() == 0 {
            (self, Seq::empty())
        } else {
            let (before, events) = self.all_data(data.drop_last());
            let (after, more) = before.data(data.last());
            (after, events + more)
        }
    }
}

/// Assembles OpenAI SSE `data:` payloads into [`ChatEvent`]s. Tool calls arrive as fragments
/// indexed by `index`; they are emitted when `finish_reason` is `"tool_calls"`. Malformed chunks
/// are skipped.
pub struct OpenAiAssembler {
    tool_calls: Calls,
    done_emitted: bool,
}

impl OpenAiAssembler {
    /// What the assembler remembers.
    pub closed spec fn state(self) -> OpenAiState {
        OpenAiState { calls: self.tool_calls@, done: self.done_emitted }
    }

    /// The calls are in the order of their indices.
    pub open spec fn wf(self) -> bool {
        providers::calls::ordered(self.state().calls)
    }

    /// Takes a payload in; returns the events that it gives.
    pub fn push_data(&mut self, data: &str) -> (r: Vec<ChatEvent>)
        requires
            old(self).wf(),
        ensures
            final(self).wf(),
            final(self).state() == old(self).state().data(data@).0,
            types::chat_views(r@) == old(self).state().data(data@).1,
    {
        let trimmed = text::trim(data);
        if text::str_eq(trimmed.as_str(), "[DONE]") {
            let mut out: Vec<ChatEvent> = Vec::new();
            assert(types::chat_views(out@) =~= Seq::<ChatEventView>::empty());
            if !self.done_emitted {
                self.done_emitted = true;
                providers::emit(&mut out, ChatEvent::Done);
                assert(types::chat_views(out@) =~= seq![ChatEventView::Done]);
            }
            return out;
        }
        match json::parse(trimmed.as_str()) {
            Ok(v) => self.push_value(&v),
            Err(_) => {
                let out: Vec<ChatEvent> = Vec::new();
                assert(types::chat_views(out@) =~= Seq::<ChatEventView>::empty());
                out
            },
        }
    }

    /// Takes a payload in that parsed to `v`; returns the events that it gives.
    pub fn push_value(&mut self, v: &Json) -> (r: Vec<ChatEvent>)
        requires
            old(self).wf(),
        ensures
            final(self).wf(),
            final(self).state() == old(self).state().value(v@).0,
            types::chat_views(r@) == old(self).state().value(v@).1,
    {
        let mut out: Vec<ChatEvent> = Vec::new();
        assert(types::chat_views(out@) =~= Seq::<ChatEventView>::empty());
        if let Some(m) = error_text(v, "unknown provider error") {
            providers::emit(&mut out, ChatEvent::Error(m));
            assert(types::chat_views(out@) =~= old(self).state().value(v@).1);
            return out;
        }
        if let Some(u) = v.get("usage") {
            if !u.is_null() {
                let input_tokens = providers::number_at(u, "prompt_tokens");
                let output_tokens = providers::number_at(u, "completion_tokens");
                providers::emit(&mut out, ChatEvent::Usage { input_tokens, output_tokens });
            }
        }
        assert(types::chat_views(out@) =~= usage_event(v@));
        if let Some(cs) = v.get("choices") {
            if let Some(choices) = cs.as_array() {
                let ghost events = types::chat_views(out@);
                let mut i: usize = 0;
                proof {
                    json::lemma_array_view(choices@);
                    assert(json::array_view(choices@).take(0) =~= Seq::<JsonView>::empty());
                    assert(events + Seq::<ChatEventView>::empty() =~= events);
                }
                while i < choices.len()
                    invariant
                        i <= choices.len(),
                        self.wf(),
                        json::array_view(choices@).len() == choices.len(),
                        forall|k: int|
                            0 <= k < choices.len() ==> #[trigger] json::array_view(choices@)[k]
                                == choices@[k].view(),
                        self.state().done == old(self).state().done,
                        self.state().calls == choices_step(
                            old(self).state().calls,
                            json::array_view(choices@).take(i as int),
                        ).0,
                        types::chat_views(out@) == events + choices_step(
                            old(self).state().calls,
                            json::array_view(choices@).take(i as int),
                        ).1,
                    decreases choices.len() - i,
                {
                    proof {
                        let all = json::array_view(choices@);
                        assert(all.take(i + 1).drop_last() =~= all.take(i as int));
                        assert(all.take(i + 1).last() == choices@[i as int].view());
                    }
                    let ghost before = types::chat_views(out@);
                    self.push_choice(&choices[i], &mut out);
                    assert(types::chat_views(out@) =~= events + choices_step(
                        old(self).state().calls,
                        json::array_view(choices@).take(i + 1),
                    ).1);
                    i += 1;
                }
                assert(json::array_view(choices@).take(choices.len() as int) =~= json::array_view(
                    choices@,
                ));
            }
        }
        assert(self.state() =~= old(self).state().value(v@).0);
        out
    }

    fn push_choice(&mut self, choice: &Json, out: &mut Vec<ChatEvent>)
        requires
            old(self).wf(),
        ensures
            final(self).wf(),
            final(self).state().done == old(self).state().done,
            final(self).state().calls == choice_step(old(self).state().calls, choice@).0,
            types::chat_views(final(out)@) == types::chat_views(old(out)@) + choice_step(
                old(self).state().calls,
                choice@,
            ).1,
    {
        let ghost before = types::chat_views(out@);
        assert(before + Seq::<ChatEventView>::empty() =~= before);
        if let Some(delta) = choice.get("delta") {
            providers::emit_text(out, delta.str_field("content"));
            if let Some(tcs) = delta.get("tool_calls") {
                if let Some(tcs) = tcs.as_array() {
                    self.push_pieces(tcs);
                }
            }
        }
        if let Some(reason) = choice.str_field("finish_reason") {
            if text::str_eq(reason, "tool_calls") {
                let calls = self.tool_calls.flush();
                providers::emit_all(out, calls);
            }
        }
        assert(types::chat_views(out@) =~= before + choice_step(
            old(self).state().calls,
            choice@,
        ).1);
    }

    fn push_pieces(&mut self, tcs: &Vec<Json>)
        requires
            old(self).wf(),
        ensures
            final(self).wf(),
            final(self).state().done == old(self).state().done,
            final(self).state().calls == pieces(old(self).state().calls, json::array_view(tcs@)),
    {
        let ghost all = json::array_view(tcs@);
        let mut i: usize = 0;
        proof {
            json::lemma_array_view(tcs@);
            assert(all.take(0) =~= Seq::<JsonView>::empty());
        }
        while i < tcs.len()
            invariant
                i <= tcs.len(),
                self.wf(),
                all == json::array_view(tcs@),
                all.len() == tcs.len(),
                forall|k: int|
                    0 <= k < tcs.len() ==> #[trigger] json::array_view(tcs@)[k]
                        == tcs@[k].view(),
                self.state().done == old(self).state().done,
                self.state().calls == pieces(old(self).state().calls, all.take(i as int)),
            decreases tcs.len() - i,
        {
            let tc = &tcs[i];
            proof {
                assert(all.take(i + 1).drop_last() =~= all.take(i as int));
                assert(all.take(i + 1).last() == tc@);
            }
            let idx = providers::number_at(tc, "index");
            let mut buf = match self.tool_calls.get(idx) {
                Some(c) => c,
                None => CallBuf::new(),
            };
            let ghost c0 = buf@;
            if let Some(id) = tc.str_field("id") {
                buf.id = id.to_owned();
            }
            assert(c0.args + Seq::<char>::empty() =~= c0.args);
            if let Some(f) = tc.get("function") {
                if let Some(n) = f.str_field("name") {
                    buf.name = n.to_owned();
                }
                if let Some(a) = f.str_field("arguments") {
                    buf.args.append(a);
                }
            }
            assert(buf@ =~= with_piece(c0, tc@));
            self.tool_calls.set(idx, buf);
            i += 1;
        }
        assert(all.take(tcs.len() as int) =~= all);
    }

    /// Call when the byte stream ends; flushes any buffered tool calls (some OpenAI-compatible
    /// servers never send `finish_reason: "tool_calls"`) and emits `Done` if `[DONE]` never
    /// arrived.
    pub fn finish(&mut self) -> (r: Vec<ChatEvent>)
        requires
            old(self).wf(),
        ensures
            final(self).wf(),
            final(self).state() == old(self).state().end().0,
            types::chat_views(r@) == old(self).state().end().1,
    {
        let mut out = self.tool_calls.flush();
        if !self.done_emitted {
            self.done_emitted = true;
            providers::emit(&mut out, ChatEvent::Done);
        }
        assert(types::chat_views(out@) =~= old(self).state().end().1);
        assert(self.state() =~= old(self).state().end().0);
        out
    }
}

impl Default for OpenAiAssembler {
    fn default() -> (r: Self)
        ensures
            r.wf(),
            r.state() == OpenAiState::start(),
    {
        OpenAiAssembler { tool_calls: Calls::new(), done_emitted: false }
    }
}

/// The error that a payload reports, where it does.
pub(crate) fn error_text(v: &Json, unknown: &str) -> (r: Option<String>)
    ensures
        text::opt_view(r) == payload_error(v@, unknown@),
{
    match v.get("error") {
        Some(e) => if e.is_null() {
            None
        } else {
            match e.str_field("message") {
                Some(m) => Some(m.to_owned()),
                None => Some(unknown.to_owned()),
            }
        },
        None => None,
    }
}

proof fn lemma_choices_no_dones(calls: Seq<(u64, CallView)>, choices: Seq<JsonView>)
    ensures
        providers::dones(choices_step(calls, choices).1) == 0,
    decreases choices.len(),
{
    if choices.len() > 0 {
        lemma_choices_no_dones(calls, choices.drop_last());
        let (before, events) = choices_step(calls, choices.drop_last());
        let more = choice_step(before, choices.last()).1;
        providers::lemma_no_dones(more);
        providers::lemma_dones_concat(events, more);
    }
}

proof fn lemma_data_dones(st: OpenAiState, data: Seq<char>)
    ensures
        st.done ==> st.data(data).0.done,
        providers::dones(st.data(data).1) == (if !st.done && st.data(data).0.done {
            1nat
        } else {
            0
        }),
{
    reveal_with_fuel(providers::dones, 2);
    let t = text::trimmed(data);
    if t != "[DONE]"@ && json::json_parsed(t) is Ok {
        let v = json::json_parsed(t)->Ok_0;
        providers::lemma_no_dones(usage_event(v));
        if v.at("choices"@) is Array {
            let choices = v.at("choices"@)->Array_0;
            lemma_choices_no_dones(st.calls, choices);
            providers::lemma_dones_concat(usage_event(v), choices_step(st.calls, choices).1);
        }
    }
}

/// However many payloads arrive, and whatever they hold, a stream ends exactly once: the events
/// of the payloads and of the end of the stream hold one `Done`.
pub proof fn stream_ends_once(data: Seq<Seq<char>>)
    ensures
        ({
            let (st, events) = OpenAiState::start().all_data(data);
            providers::dones(events + st.end().1) == 1
        }),
{
    lemma_all_data_dones(data);
    let (st, events) = OpenAiState::start().all_data(data);
    let last: Seq<ChatEventView> = if st.done { Seq::empty() } else { seq![ChatEventView::Done] };
    providers::lemma_no_dones(providers::calls::call_events(st.calls));
    providers::lemma_dones_concat(providers::calls::call_events(st.calls), last);
    providers::lemma_dones_concat(events, st.end().1);
    reveal_with_fuel(providers::dones, 2);
}

proof fn lemma_all_data_dones(data: Seq<Seq<char>>)
    ensures
        providers::dones(OpenAiState::start().all_data(data).1) == (if OpenAiState::start().all_data(
            data,
        ).0.done {
            1nat
        } else {
            0
        }),
    decreases data.len(),
{
    if data.len() > 0 {
        lemma_all_data_dones(data.drop_last());
        let (before, events) = OpenAiState::start().all_data(data.drop_last());
        lemma_data_dones(before, data.last());
        providers::lemma_dones_concat(events, before.data(data.last()).1);
    }
}

/// The index of a piece of a call.
pub open spec fn piece_index(tc: JsonView) -> u64 {
    providers::or_zero(tc.at("index"@).as_u64())
}

/// The arguments of the pieces with an index, one after the other.
pub open spec fn arguments_under(tcs: Seq<JsonView>, k: u64) -> Seq<char>
    decreases tcs.len(),
{
    if tcs.len() == 0 {
        Seq::empty()
    } else if piece_index(tcs.last()) == k {
        arguments_under(tcs.drop_last(), k) + providers::or_text(
            tcs.last().at("function"@).str_field("arguments"@),
            Seq::empty(),
        )
    } else {
        arguments_under(tcs.drop_last(), k)
    }
}

/// Whether a piece has an index.
pub open spec fn has_index(tcs: Seq<JsonView>, k: u64) -> bool {
    exists|i: int| 0 <= i < tcs.len() && piece_index(#[trigger] tcs[i]) == k
}

/// Pieces make one call for each index that they carry, in the order of the indices and whatever
/// the order in which they arrived; the arguments of a call are those of its pieces.
pub proof fn pieces_make_one_call_per_index(tcs: Seq<JsonView>, k: u64)
    ensures
        ({
            let calls = pieces(Seq::empty(), tcs);
            &&& providers::calls::ordered(calls)
            &&& providers::calls::slot(calls, k) is Some <==> has_index(tcs, k)
            &&& providers::calls::slot(calls, k) matches Some(c) ==> c.args == arguments_under(
                tcs,
                k,
            )
            &&& providers::calls::slot(calls, k) is None ==> arguments_under(tcs, k).len() == 0
        }),
    decreases tcs.len(),
{
    if tcs.len() > 0 {
        let t = tcs.drop_last();
        let before = pieces(Seq::empty(), t);
        let idx = piece_index(tcs.last());
        pieces_make_one_call_per_index(t, k);
        pieces_make_one_call_per_index(t, idx);
        let c = match providers::calls::slot(before, idx) {
            Some(c) => c,
            None => CallView::none(),
        };
        let v = with_piece(c, tcs.last());
        providers::calls::lemma_slot_set(before, idx, v);
        let now = providers::calls::slot(providers::calls::slot_set(before, idx, v), k);
        assert(tcs[tcs.len() - 1] == tcs.last());
        if has_index(t, k) {
            let i = choose|i: int| 0 <= i < t.len() && piece_index(#[trigger] t[i]) == k;
            assert(piece_index(tcs[i]) == k);
        }
        if has_index(tcs, k) && idx != k {
            let i = choose|i: int| 0 <= i < tcs.len() && piece_index(#[trigger] tcs[i]) == k;
            assert(piece_index(t[i]) == k);
        }
        if idx == k {
            assert(now == Some(v));
            if providers::calls::slot(before, idx) is None {
                assert(arguments_under(t, k) =~= Seq::<char>::empty());
            }
        }
    }
}

/// The pieces of calls that arrived: those of the calls that were given out, group by group, and
/// those of the calls that wait.
#[verifier::ext_equal]
pub struct Arrived {
    pub given: Seq<Seq<JsonView>>,
    pub waiting: Seq<JsonView>,
}

impl Arrived {
    /// Nothing has arrived.
    pub open spec fn start() -> Arrived {
        Arrived { given: Seq::empty(), waiting: Seq::empty() }
    }

    /// One choice: its pieces wait, until one tells that the calls are complete.
    pub open spec fn choice(self, choice: JsonView) -> Arrived {
        let now = match choice.at("delta"@).at("tool_calls"@).as_array() {
            Some(tcs) => self.waiting + tcs,
            None => self.waiting,
        };
        if choice.str_field("finish_reason"@) == Some("tool_calls"@) {
            Arrived { given: self.given.push(now), waiting: Seq::empty() }
        } else {
            Arrived { given: self.given, waiting: now }
        }
    }

    /// The choices of a payload.
    pub open spec fn choices(self, choices: Seq<JsonView>) -> Arrived
        decreases choices.len(),
    {
        if choices.len() == 0 {
            self
        } else {
            self.choices(choices.drop_last()).choice(choices.last())
        }
    }

    /// A payload.
    pub open spec fn data(self, data: Seq<char>) -> Arrived {
        match payload_choices(data) {
            Some(choices) => self.choices(choices),
            None => self,
        }
    }

    /// The payloads of a stream.
    pub open spec fn all_data(self, data: Seq<Seq<char>>) -> Arrived
        decreases data.len(),
    {
        if data.len() == 0 {
            self
        } else {
            self.all_data(data.drop_last()).data(data.last())
        }
    }
}

/// The choices of a payload, where it has some: it is not the end mark, parses, and reports no
/// error.
pub open spec fn payload_choices(data: Seq<char>) -> Option<Seq<JsonView>> {
    let t = text::trimmed(data);
    if t == "[DONE]"@ {
        None
    } else {
        match json::json_parsed(t) {
            Ok(v) => if payload_error(v, "unknown provider error"@) is Some {
                None
            } else {
                v.at("choices"@).as_array()
            },
            Err(_) => None,
        }
    }
}

/// The tool calls among events.
pub open spec fn calls_among(events: Seq<ChatEventView>) -> Seq<ChatEventView>
    decreases events.len(),
{
    if events.len() == 0 {
        Seq::empty()
    } else if events.last() is ToolCall {
        calls_among(events.drop_last()).push(events.last())
    } else {
        calls_among(events.drop_last())
    }
}

/// The calls that groups of pieces make, group by group.
pub open spec fn calls_of(groups: Seq<Seq<JsonView>>) -> Seq<ChatEventView>
    decreases groups.len(),
{
    if groups.len() == 0 {
        Seq::empty()
    } else {
        calls_of(groups.drop_last()) + providers::calls::call_events(
            pieces(Seq::empty(), groups.last()),
        )
    }
}

proof fn lemma_calls_among_concat(a: Seq<ChatEventView>, b: Seq<ChatEventView>)
    ensures
        calls_among(a + b) == calls_among(a) + calls_among(b),
    decreases b.len(),
{
    if b.len() == 0 {
        assert(a + b =~= a);
        assert(calls_among(a) + calls_among(b) =~= calls_among(a));
    } else {
        assert((a + b).drop_last() =~= a + b.drop_last());
        lemma_calls_among_concat(a, b.drop_last());
        assert(calls_among(a + b) =~= calls_among(a) + calls_among(b));
    }
}

proof fn lemma_no_calls(a: Seq<ChatEventView>)
    requires
        forall|i: int| 0 <= i < a.len() ==> !((#[trigger] a[i]) is ToolCall),
    ensures
        calls_among(a) == Seq::<ChatEventView>::empty(),
    decreases a.len(),
{
    if a.len() > 0 {
        let t = a.drop_last();
        assert forall|i: int| 0 <= i < t.len() implies !((#[trigger] t[i]) is ToolCall) by {
            assert(t[i] == a[i]);
        }
        lemma_no_calls(t);
        assert(!(a[a.len() - 1] is ToolCall));
    }
}

proof fn lemma_only_calls(a: Seq<ChatEventView>)
    requires
        forall|i: int| 0 <= i < a.len() ==> (#[trigger] a[i]) is ToolCall,
    ensures
        calls_among(a) == a,
    decreases a.len(),
{
    if a.len() > 0 {
        let t = a.drop_last();
        assert forall|i: int| 0 <= i < t.len() implies (#[trigger] t[i]) is ToolCall by {
            assert(t[i] == a[i]);
        }
        lemma_only_calls(t);
        assert(a[a.len() - 1] is ToolCall);
        assert(t.push(a.last()) =~= a);
    }
}

proof fn lemma_pieces_concat(calls: Seq<(u64, CallView)>, a: Seq<JsonView>, b: Seq<JsonView>)
    ensures
        pieces(calls, a + b) == pieces(pieces(calls, a), b),
    decreases b.len(),
{
    if b.len() == 0 {
        assert(a + b =~= a);
    } else {
        assert((a + b).drop_last() =~= a + b.drop_last());
        lemma_pieces_concat(calls, a, b.drop_last());
    }
}

proof fn lemma_choice_calls(f: Arrived, choice: JsonView)
    ensures
        ({
            let (calls, events) = choice_step(pieces(Seq::empty(), f.waiting), choice);
            let g = f.choice(choice);
            &&& calls == pieces(Seq::empty(), g.waiting)
            &&& calls_of(g.given) == calls_of(f.given) + calls_among(events)
        }),
{
    let delta = choice.at("delta"@);
    let said = providers::text_event(delta.str_field("content"@));
    let before = pieces(Seq::empty(), f.waiting);
    let now = match delta.at("tool_calls"@).as_array() {
        Some(tcs) => f.waiting + tcs,
        None => f.waiting,
    };
    if let Some(tcs) = delta.at("tool_calls"@).as_array() {
        lemma_pieces_concat(Seq::empty(), f.waiting, tcs);
    }
    lemma_no_calls(said);
    let events = choice_step(before, choice).1;
    if choice.str_field("finish_reason"@) == Some("tool_calls"@) {
        let out = providers::calls::call_events(pieces(Seq::empty(), now));
        lemma_only_calls(out);
        lemma_calls_among_concat(said, out);
        assert(calls_among(said) + out =~= out);
        assert(f.given.push(now).drop_last() =~= f.given);
    } else {
        assert(calls_of(f.given) + calls_among(events) =~= calls_of(f.given));
    }
}

proof fn lemma_choices_calls(f: Arrived, choices: Seq<JsonView>)
    ensures
        ({
            let (calls, events) = choices_step(pieces(Seq::empty(), f.waiting), choices);
            let g = f.choices(choices);
            &&& calls == pieces(Seq::empty(), g.waiting)
            &&& calls_of(g.given) == calls_of(f.given) + calls_among(events)
        }),
    decreases choices.len(),
{
    let start = pieces(Seq::empty(), f.waiting);
    if choices.len() == 0 {
        assert(calls_of(f.given) + Seq::<ChatEventView>::empty() =~= calls_of(f.given));
    } else {
        let t = choices.drop_last();
        lemma_choices_calls(f, t);
        let (before, events) = choices_step(start, t);
        lemma_choice_calls(f.choices(t), choices.last());
        let more = choice_step(before, choices.last()).1;
        lemma_calls_among_concat(events, more);
        assert(calls_of(f.given) + calls_among(events) + calls_among(more) =~= calls_of(f.given) + (
        calls_among(events) + calls_among(more)));
    }
}

proof fn lemma_data_calls(f: Arrived, st: OpenAiState, data: Seq<char>)
    requires
        st.calls == pieces(Seq::empty(), f.waiting),
    ensures
        st.data(data).0.calls == pieces(Seq::empty(), f.data(data).waiting),
        calls_of(f.data(data).given) == calls_of(f.given) + calls_among(st.data(data).1),
{
    let t = text::trimmed(data);
    let events = st.data(data).1;
    match payload_choices(data) {
        Some(choices) => {
            let v = json::json_parsed(t)->Ok_0;
            lemma_choices_calls(f, choices);
            lemma_no_calls(usage_event(v));
            let more = choices_step(st.calls, choices).1;
            lemma_calls_among_concat(usage_event(v), more);
            assert(calls_among(usage_event(v)) + calls_among(more) =~= calls_among(more));
        },
        None => {
            lemma_no_calls(events);
            assert(calls_of(f.given) + calls_among(events) =~= calls_of(f.given));
        },
    }
}

/// Over a whole stream every call comes out exactly once: the calls among the events are those
/// that the groups of pieces make, up to each point at which the calls were complete, and behind
/// the end of the stream those that still waited; none waits then, and a second end gives nothing.
pub proof fn every_call_comes_out_once(data: Seq<Seq<char>>)
    ensures
        ({
            let (st, events) = OpenAiState::start().all_data(data);
            let f = Arrived::start().all_data(data);
            &&& st.calls == pieces(Seq::empty(), f.waiting)
            &&& calls_among(events) == calls_of(f.given)
            &&& calls_among(events + st.end().1) == calls_of(f.given.push(f.waiting))
            &&& st.end().0.end().1 == Seq::<ChatEventView>::empty()
        }),
    decreases data.len(),
{
    let (st, events) = OpenAiState::start().all_data(data);
    let f = Arrived::start().all_data(data);
    if data.len() > 0 {
        every_call_comes_out_once(data.drop_last());
        let (before, sofar) = OpenAiState::start().all_data(data.drop_last());
        lemma_data_calls(Arrived::start().all_data(data.drop_last()), before, data.last());
        lemma_calls_among_concat(sofar, before.data(data.last()).1);
    }
    let out = providers::calls::call_events(st.calls);
    let last: Seq<ChatEventView> = if st.done { Seq::empty() } else { seq![ChatEventView::Done] };
    lemma_only_calls(out);
    lemma_no_calls(last);
    lemma_calls_among_concat(out, last);
    assert(out + Seq::<ChatEventView>::empty() =~= out);
    lemma_calls_among_concat(events, st.end().1);
    assert(f.given.push(f.waiting).drop_last() =~= f.given);
    assert(st.end().0.end().1 =~= Seq::<ChatEventView>::empty());
}

/// The pieces of calls that a choice holds.
pub open spec fn choice_pieces(choice: JsonView) -> Seq<JsonView> {
    match choice.at("delta"@).at("tool_calls"@).as_array() {
        Some(tcs) => tcs,
        None => Seq::empty(),
    }
}

/// The pieces of calls that choices hold, one after the other.
pub open spec fn choices_pieces(choices: Seq<JsonView>) -> Seq<JsonView>
    decreases choices.len(),
{
    if choices.len() == 0 {
        Seq::empty()
    } else {
        choices_pieces(choices.drop_last()) + choice_pieces(choices.last())
    }
}

/// The pieces of calls that the payloads of a stream hold, one after the other.
pub open spec fn all_pieces(data: Seq<Seq<char>>) -> Seq<JsonView>
    decreases data.len(),
{
    if data.len() == 0 {
        Seq::empty()
    } else {
        all_pieces(data.drop_last()) + match payload_choices(data.last()) {
            Some(choices) => choices_pieces(choices),
            None => Seq::empty(),
        }
    }
}

/// The pieces of groups, one after the other.
pub open spec fn grouped(groups: Seq<Seq<JsonView>>) -> Seq<JsonView>
    decreases groups.len(),
{
    if groups.len() == 0 {
        Seq::empty()
    } else {
        grouped(groups.drop_last()) + groups.last()
    }
}

proof fn lemma_choices_keep(f: Arrived, choices: Seq<JsonView>)
    ensures
        grouped(f.choices(choices).given) + f.choices(choices).waiting == grouped(f.given)
            + f.waiting + choices_pieces(choices),
    decreases choices.len(),
{
    let all = grouped(f.given) + f.waiting;
    if choices.len() == 0 {
        assert(all + choices_pieces(choices) =~= all);
    } else {
        lemma_choices_keep(f, choices.drop_last());
        let g = f.choices(choices.drop_last());
        let h = g.choice(choices.last());
        let more = choice_pieces(choices.last());
        assert(g.given.push(g.waiting + more).drop_last() =~= g.given);
        assert(g.waiting + Seq::<JsonView>::empty() =~= g.waiting);
        assert(grouped(h.given) + h.waiting =~= grouped(g.given) + g.waiting + more);
        assert(all + choices_pieces(choices.drop_last()) + more =~= all + choices_pieces(choices));
    }
}

/// No piece of a call is lost or repeated: the groups whose calls were given out, and the pieces
/// that wait, are all pieces of the stream in their order.
pub proof fn every_piece_counts_once(data: Seq<Seq<char>>)
    ensures
        ({
            let f = Arrived::start().all_data(data);
            grouped(f.given.push(f.waiting)) == all_pieces(data)
        }),
    decreases data.len(),
{
    let f = Arrived::start().all_data(data);
    assert(f.given.push(f.waiting).drop_last() =~= f.given);
    if data.len() == 0 {
        assert(grouped(f.given) + f.waiting =~= Seq::<JsonView>::empty());
    } else {
        every_piece_counts_once(data.drop_last());
        let before = Arrived::start().all_data(data.drop_last());
        assert(before.given.push(before.waiting).drop_last() =~= before.given);
        match payload_choices(data.last()) {
            Some(choices) => {
                lemma_choices_keep(before, choices);
            },
            None => {
                assert(all_pieces(data) =~= all_pieces(data.drop_last()));
            },
        }
    }
}

/// The text that choices hold, one after the other: what stands under `content` in the delta of
/// each.
pub open spec fn choices_text(choices: Seq<JsonView>) -> Seq<char>
    decreases choices.len(),
{
    if choices.len() == 0 {
        Seq::empty()
    } else {
        choices_text(choices.drop_last()) + match choices.last().at("delta"@).at("content"@) {
            JsonView::Str(s) => s,
            _ => Seq::empty(),
        }
    }
}

/// The text that the payloads of a stream hold, one after the other.
pub open spec fn all_text(data: Seq<Seq<char>>) -> Seq<char>
    decreases data.len(),
{
    if data.len() == 0 {
        Seq::empty()
    } else {
        all_text(data.drop_last()) + match payload_choices(data.last()) {
            Some(choices) => choices_text(choices),
            None => Seq::empty(),
        }
    }
}

proof fn lemma_choices_said(calls: Seq<(u64, CallView)>, choices: Seq<JsonView>)
    ensures
        types::said(choices_step(calls, choices).1) == choices_text(choices),
    decreases choices.len(),
{
    if choices.len() > 0 {
        let t = choices.drop_last();
        lemma_choices_said(calls, t);
        let (before, events) = choices_step(calls, t);
        let c = choices.last();
        let (after, more) = choice_step(before, c);
        let content = c.at("delta"@).str_field("content"@);
        providers::text_is_passed_on_whole(content);
        let text = providers::text_event(content);
        let taken = match c.at("delta"@).at("tool_calls"@).as_array() {
            Some(tcs) => pieces(before, tcs),
            None => before,
        };
        let out = providers::calls::call_events(taken);
        types::lemma_nothing_said(out);
        types::said_in_order(text, out, ChatEventView::Done);
        assert(types::said(text) + Seq::<char>::empty() =~= types::said(text));
        types::said_in_order(events, more, ChatEventView::Done);
    }
}

/// The answer says all that the payloads hold and nothing else: the text deltas of a stream, put
/// together, are the contents of the choices, in the order in which they arrived and as soon as
/// they arrive. The end of the stream says nothing more.
pub proof fn answer_says_all_that_arrived(data: Seq<Seq<char>>)
    ensures
        types::said(OpenAiState::start().all_data(data).1) == all_text(data),
        ({
            let (st, events) = OpenAiState::start().all_data(data);
            types::said(events + st.end().1) == all_text(data)
        }),
    decreases data.len(),
{
    let (st, events) = OpenAiState::start().all_data(data);
    if data.len() > 0 {
        answer_says_all_that_arrived(data.drop_last());
        let (before, sofar) = OpenAiState::start().all_data(data.drop_last());
        let more = before.data(data.last()).1;
        types::said_in_order(sofar, more, ChatEventView::Done);
        match payload_choices(data.last()) {
            Some(choices) => {
                let v = json::json_parsed(text::trimmed(data.last()))->Ok_0;
                lemma_choices_said(before.calls, choices);
                types::lemma_nothing_said(usage_event(v));
                types::said_in_order(
                    usage_event(v),
                    choices_step(before.calls, choices).1,
                    ChatEventView::Done,
                );
                assert(Seq::<char>::empty() + choices_text(choices) =~= choices_text(choices));
            },
            None => {
                types::lemma_nothing_said(more);
            },
        }
    }
    types::lemma_nothing_said(st.end().1);
    types::said_in_order(events, st.end().1, ChatEventView::Done);
    assert(types::said(events) + Seq::<char>::empty() =~= types::said(events));
}

/// A piece is taken into the call with its index, which is zero where it has none: an identifier
/// or a name that it gives replaces the one before, and its arguments go behind those so far. No
/// other call changes.
pub proof fn piece_goes_into_its_call(
    calls: Seq<(u64, CallView)>,
    tcs: Seq<JsonView>,
    tc: JsonView,
    k: u64,
)
    ensures
        pieces(calls, Seq::empty()) == calls,
        pieces(calls, tcs.push(tc)) == piece(pieces(calls, tcs), tc),
        ({
            let idx = match tc.at("index"@).as_u64() {
                Some(n) => n,
                None => 0u64,
            };
            let old_call = providers::calls::slot(calls, idx);
            let f = tc.at("function"@);
            &&& providers::calls::slot(piece(calls, tc), idx) matches Some(c) && {
                &&& c.id == (match tc.at("id"@) {
                    JsonView::Str(s) => s,
                    _ => match old_call {
                        Some(o) => o.id,
                        None => Seq::empty(),
                    },
                })
                &&& c.name == (match f.at("name"@) {
                    JsonView::Str(s) => s,
                    _ => match old_call {
                        Some(o) => o.name,
                        None => Seq::empty(),
                    },
                })
                &&& c.args == (match old_call {
                    Some(o) => o.args,
                    None => Seq::empty(),
                }) + (match f.at("arguments"@) {
                    JsonView::Str(s) => s,
                    _ => Seq::empty(),
                })
            }
            &&& k != idx ==> providers::calls::slot(piece(calls, tc), k)
                == providers::calls::slot(calls, k)
            &&& providers::calls::ordered(calls) ==> providers::calls::ordered(piece(calls, tc))
        }),
{
    assert(tcs.push(tc).drop_last() =~= tcs);
    let idx = providers::or_zero(tc.at("index"@).as_u64());
    let c = match providers::calls::slot(calls, idx) {
        Some(c) => c,
        None => CallView::none(),
    };
    providers::calls::lemma_slot_set(calls, idx, with_piece(c, tc));
}

/// A choice gives its text first, and then, where it tells that the calls are complete, every
/// call that has arrived; then none is left.
pub proof fn choice_gives_text_and_complete_calls(
    calls: Seq<(u64, CallView)>,
    choices: Seq<JsonView>,
    choice: JsonView,
)
    ensures
        ({
            let content = match choice.at("delta"@).at("content"@) {
                JsonView::Str(s) => s,
                _ => Seq::empty(),
            };
            let text = if content.len() > 0 {
                seq![ChatEventView::TextDelta(content)]
            } else {
                Seq::<ChatEventView>::empty()
            };
            let taken = match choice.at("delta"@).at("tool_calls"@) {
                JsonView::Array(tcs) => pieces(calls, tcs),
                _ => calls,
            };
            let (after, events) = choice_step(calls, choice);
            if choice.at("finish_reason"@) == JsonView::Str("tool_calls"@) {
                &&& after.len() == 0
                &&& events == text + providers::calls::call_events(taken)
            } else {
                &&& after == taken
                &&& events == text
            }
        }),
        choices_step(calls, Seq::empty()) == (calls, Seq::<ChatEventView>::empty()),
        ({
            let (before, sofar) = choices_step(calls, choices);
            let (after, more) = choice_step(before, choice);
            choices_step(calls, choices.push(choice)) == (after, sofar + more)
        }),
{
    assert(choices.push(choice).drop_last() =~= choices);
}

/// A payload is the end mark, an error, a chunk of the answer, or noise. The end mark ends the
/// answer once; an error is reported, with its message, and changes nothing; a chunk gives the
/// usage that it reports and what its choices hold; and noise does nothing.
pub proof fn payloads_do_what_they_say(st: OpenAiState, data: Seq<char>)
    ensures
        text::trimmed(data) == "[DONE]"@ ==> ({
            &&& st.data(data).0 == (OpenAiState { calls: st.calls, done: true })
            &&& st.done ==> st.data(data).1.len() == 0
            &&& !st.done ==> st.data(data).1 == seq![ChatEventView::Done]
        }),
        text::trimmed(data) != "[DONE]"@ ==> ({
            match json::json_parsed(text::trimmed(data)) {
                Err(_) => st.data(data) == (st, Seq::<ChatEventView>::empty()),
                Ok(v) => match v.at("error"@) {
                    JsonView::Null => {
                        let usage = match v.at("usage"@) {
                            JsonView::Null => Seq::<ChatEventView>::empty(),
                            u => seq![
                                ChatEventView::Usage {
                                    input_tokens: match u.at("prompt_tokens"@).as_u64() {
                                        Some(n) => n,
                                        None => 0,
                                    },
                                    output_tokens: match u.at("completion_tokens"@).as_u64() {
                                        Some(n) => n,
                                        None => 0,
                                    },
                                },
                            ],
                        };
                        match v.at("choices"@) {
                            JsonView::Array(choices) => {
                                let (calls, events) = choices_step(st.calls, choices);
                                &&& st.data(data).0 == (OpenAiState { calls, done: st.done })
                                &&& st.data(data).1 == usage + events
                            },
                            _ => st.data(data) == (st, usage),
                        }
                    },
                    e => st.data(data) == (
                        st,
                        seq![
                            ChatEventView::Error(
                                match e.at("message"@) {
                                    JsonView::Str(m) => m,
                                    _ => "unknown provider error"@,
                                },
                            ),
                        ],
                    ),
                },
            }
        }),
        ({
            let (after, events) = st.end();
            &&& after.calls.len() == 0 && after.done
            &&& st.done ==> events == providers::calls::call_events(st.calls)
            &&& !st.done ==> events == providers::calls::call_events(st.calls).push(
                ChatEventView::Done,
            )
        }),
{
    if text::trimmed(data) != "[DONE]"@ && json::json_parsed(text::trimmed(data)) is Ok {
        let v = json::json_parsed(text::trimmed(data))->Ok_0;
        assert(v.at("error"@) is Null ==> payload_error(v, "unknown provider error"@) is None);
        assert(usage_event(v) =~= (match v.at("usage"@) {
            JsonView::Null => Seq::<ChatEventView>::empty(),
            u => seq![
                ChatEventView::Usage {
                    input_tokens: match u.at("prompt_tokens"@).as_u64() {
                        Some(n) => n,
                        None => 0,
                    },
                    output_tokens: match u.at("completion_tokens"@).as_u64() {
                        Some(n) => n,
                        None => 0,
                    },
                },
            ],
        }));
    }
    let calls = providers::calls::call_events(st.calls);
    assert(calls + Seq::<ChatEventView>::empty() =~= calls);
    assert(calls + seq![ChatEventView::Done] =~= calls.push(ChatEventView::Done));
}

proof fn lemma_request_keys()
    ensures
        "role"@ != "content"@ && "role"@ != "tool_calls"@ && "content"@ != "tool_calls"@,
        "role"@ != "tool_call_id"@ && "content"@ != "tool_call_id"@,
        "id"@ != "type"@ && "id"@ != "function"@ && "type"@ != "function"@,
        "name"@ != "arguments"@,
        "model"@ != "stream"@ && "model"@ != "stream_options"@ && "model"@ != "messages"@,
        "model"@ != "tools"@ && "model"@ != "tool_choice"@ && "stream"@ != "stream_options"@,
        "stream"@ != "messages"@ && "stream"@ != "tools"@ && "stream"@ != "tool_choice"@,
        "stream_options"@ != "messages"@ && "stream_options"@ != "tools"@,
        "stream_options"@ != "tool_choice"@ && "messages"@ != "tools"@,
        "messages"@ != "tool_choice"@ && "tools"@ != "tool_choice"@,
{
    reveal_strlit("role");
    reveal_strlit("content");
    reveal_strlit("tool_calls");
    reveal_strlit("tool_call_id");
    reveal_strlit("id");
    reveal_strlit("type");
    reveal_strlit("function");
    reveal_strlit("name");
    reveal_strlit("arguments");
    reveal_strlit("model");
    reveal_strlit("stream");
    reveal_strlit("stream_options");
    reveal_strlit("messages");
    reveal_strlit("tools");
    reveal_strlit("tool_choice");
    assert("role"@.len() == 4 && "content"@.len() == 7 && "tool_calls"@.len() == 10);
    assert("tool_call_id"@.len() == 12 && "id"@.len() == 2 && "type"@.len() == 4);
    assert("function"@.len() == 8 && "name"@.len() == 4 && "arguments"@.len() == 9);
    assert("model"@.len() == 5 && "stream"@.len() == 6 && "stream_options"@.len() == 14);
    assert("messages"@.len() == 8 && "tools"@.len() == 5 && "tool_choice"@.len() == 11);
    assert("model"@[0] == 'm' && "tools"@[0] == 't');
}

/// The messages are sent in order, each one with everything that it holds.
pub proof fn messages_are_sent_in_order(a: Seq<MessageView>, b: Seq<MessageView>, m: MessageView)
    ensures
        all_entries(a + b) == all_entries(a) + all_entries(b),
        all_entries(Seq::empty()).len() == 0,
        all_entries(seq![m]) == message_entries(m),
    decreases b.len(),
{
    reveal_with_fuel(all_entries, 2);
    assert(seq![m].drop_last() =~= Seq::<MessageView>::empty());
    assert(seq![m].last() == m);
    assert(all_entries(seq![m]) =~= message_entries(m));
    if b.len() == 0 {
        assert(a + b =~= a);
        assert(all_entries(a) + all_entries(b) =~= all_entries(a));
    } else {
        messages_are_sent_in_order(a, b.drop_last(), m);
        assert((a + b).drop_last() =~= a + b.drop_last());
        assert((a + b).last() == b.last());
        assert(all_entries(a + b) =~= all_entries(a) + all_entries(b));
    }
}

/// A message of the system, the user or the assistant is one entry with its role and its whole
/// text; an assistant's without text has null in its place, and one with calls lists them.
pub proof fn messages_keep_role_and_text(m: MessageView)
    requires
        m.role != Role::Tool,
    ensures
        ({
            let e = message_entries(m)[0];
            let text = providers::text_of(m.parts);
            let calls = providers::picked(m.parts, |p: ContentPartView| call_entry(p));
            &&& message_entries(m).len() == 1
            &&& e.str_field("role"@) == Some(
                match m.role {
                    Role::System => "system"@,
                    Role::User => "user"@,
                    _ => "assistant"@,
                },
            )
            &&& m.role != Role::Assistant || text.len() > 0 ==> e.str_field("content"@) == Some(
                text,
            )
            &&& m.role == Role::Assistant && text.len() == 0 ==> e.field("content"@) == Some(
                JsonView::Null,
            )
            &&& m.role == Role::Assistant && calls.len() > 0 ==> e.field("tool_calls"@) == Some(
                JsonView::Array(calls),
            )
            &&& m.role != Role::Assistant || calls.len() == 0 ==> e.field("tool_calls"@) is None
        }),
{
    lemma_request_keys();
}

/// A call is sent with its identifier, its name and its arguments made one object; a result is
/// sent as a message of its own, with the identifier of its call and its whole content, and the
/// results of a message in order.
pub proof fn calls_and_results_are_sent_whole(
    id: Seq<char>,
    name: Seq<char>,
    args: Seq<char>,
    content: Seq<char>,
    is_error: bool,
    a: Seq<ContentPartView>,
    b: Seq<ContentPartView>,
)
    ensures
        call_entry(ContentPartView::ToolCall { id, name, args_json: args }) matches Some(c) && {
            &&& c.str_field("id"@) == Some(id)
            &&& c.str_field("type"@) == Some("function"@)
            &&& c.at("function"@).str_field("name"@) == Some(name)
            &&& c.at("function"@).str_field("arguments"@) == Some(
                types::sanitized(args, json::parsed(args), json::json_first(args)),
            )
        },
        call_entry(ContentPartView::Text { text: content }) is None,
        ({
            let p = ContentPartView::ToolResult { tool_call_id: id, content, is_error };
            let one = message_entries(MessageView { role: Role::Tool, parts: seq![p] });
            &&& call_entry(p) is None
            &&& one.len() == 1
            &&& one[0].str_field("role"@) == Some("tool"@)
            &&& one[0].str_field("tool_call_id"@) == Some(id)
            &&& one[0].str_field("content"@) == Some(content)
        }),
        message_entries(MessageView { role: Role::Tool, parts: a + b }) == message_entries(
            MessageView { role: Role::Tool, parts: a },
        ) + message_entries(MessageView { role: Role::Tool, parts: b }),
{
    lemma_request_keys();
    let p = ContentPartView::ToolResult { tool_call_id: id, content, is_error };
    let f = |p: ContentPartView| result_entry(p);
    providers::parts_are_picked_in_order(a, b, p, f);
}

/// A request names the model, carries every message and every tool, asks for a stream that
/// reports its usage, and lets the model choose among the tools, where there are any.
pub proof fn request_carries_everything(
    model: Seq<char>,
    msgs: Seq<MessageView>,
    tools: Seq<types::ToolSpecView>,
)
    ensures
        ({
            let b = body(model, msgs, tools);
            &&& b.str_field("model"@) == Some(model)
            &&& b.field("stream"@) == Some(JsonView::Bool(true))
            &&& b.at("stream_options"@).field("include_usage"@) == Some(JsonView::Bool(true))
            &&& b.field("messages"@) == Some(JsonView::Array(all_entries(msgs)))
            &&& tools.len() > 0 ==> b.field("tools"@) == Some(
                JsonView::Array(providers::function_tool_list(tools)),
            ) && b.str_field("tool_choice"@) == Some("auto"@)
            &&& tools.len() == 0 ==> b.field("tools"@) is None && b.field("tool_choice"@) is None
        }),
{
    lemma_request_keys();
}

} // verus!
