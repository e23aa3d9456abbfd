//! Chat providers: the requests that they are sent, and the streams that they answer with.
use crate::error::{Error, ErrorView};
use crate::json::{Json, JsonView};
use crate::providers::anthropic::AnthropicProvider;
use crate::providers::gemini::GeminiProvider;
use crate::providers::ollama::OllamaProvider;
use crate::providers::openai::OpenAiProvider;
use crate::types::{ProviderConfig, ProviderKind};
use crate::types::{ChatEvent, ChatEventView, ContentPart, ContentPartView, Message, MessageView, Role, ToolSpec, ToolSpecView};
use crate::{json, text, types};
use vstd::prelude::*;
use vstd::string::*;

pub mod anthropic;
pub mod calls;
pub mod gemini;
pub mod http;
pub mod mock;
pub mod ollama;
pub mod openai;
pub mod sse;
pub mod stream;

verus! {

/// A JSON object.
pub open spec fn obj(m: Map<Seq<char>, JsonView>) -> JsonView {
    JsonView::Object(m)
}

/// A JSON string.
pub open spec fn jstr(s: Seq<char>) -> JsonView {
    JsonView::Str(s)
}

/// The texts of a message's parts, one after the other.
pub open spec fn text_of(parts: Seq<ContentPartView>) -> Seq<char>
    decreases parts.len(),
{
    if parts.len() == 0 {
        Seq::empty()
    } else {
        match parts.last() {
            ContentPartView::Text { text } => text_of(parts.drop_last()) + text,
            _ => text_of(parts.drop_last()),
        }
    }
}

/// The texts of a message's parts.
pub open spec fn texts_of(parts: Seq<ContentPartView>) -> Seq<Seq<char>>
    decreases parts.len(),
{
    if parts.len() == 0 {
        Seq::empty()
    } else {
        match parts.last() {
            ContentPartView::Text { text } => texts_of(parts.drop_last()).push(text),
            _ => texts_of(parts.drop_last()),
        }
    }
}

/// The texts of the system messages.
pub open spec fn system_texts(msgs: Seq<MessageView>) -> Seq<Seq<char>>
    decreases msgs.len(),
{
    if msgs.len() == 0 {
        Seq::empty()
    } else if msgs.last().role == Role::System {
        system_texts(msgs.drop_last()) + texts_of(msgs.last().parts)
    } else {
        system_texts(msgs.drop_last())
    }
}

/// What `f` makes of the parts, without those that it makes nothing of.
pub open spec fn picked(
    parts: Seq<ContentPartView>,
    f: spec_fn(ContentPartView) -> Option<JsonView>,
) -> Seq<JsonView>
    decreases parts.len(),
{
    if parts.len() == 0 {
        Seq::empty()
    } else {
        match f(parts.last()) {
            Some(v) => picked(parts.drop_last(), f).push(v),
            None => picked(parts.drop_last(), f),
        }
    }
}

/// Tool-call arguments as a value: what they parse to, or an empty object.
pub open spec fn args_value(args: Seq<char>) -> JsonView {
    match json::json_parsed(args) {
        Ok(v) => v,
        Err(_) => JsonView::Object(Map::empty()),
    }
}

/// Tool-call arguments as a value: what they parse to, or an empty object.
pub fn parse_args(args: &str) -> (r: Json)
    ensures
        r@ == args_value(args@),
{
    match json::parse(args) {
        Ok(v) => v,
        Err(_) => Json::object(),
    }
}

/// The texts of a message's parts, one after the other.
pub fn concat_text(m: &Message) -> (r: String)
    ensures
        r@ == text_of(m@.parts),
{
    let mut out = String::new();
    let mut i: usize = 0;
    while i < m.parts.len()
        invariant
            i <= m.parts.len(),
            out@ == text_of(types::part_views(m.parts@.take(i as int))),
        decreases m.parts.len() - i,
    {
        proof {
            types::lemma_part_views_take(m.parts@, i as int);
        }
        if let ContentPart::Text { text } = &m.parts[i] {
            out.append(text.as_str());
        }
        i += 1;
    }
    assert(m.parts@.take(m.parts.len() as int) =~= m.parts@);
    out
}

/// The texts of the system messages, one per line.
pub fn system_text(messages: &[Message]) -> (r: String)
    ensures
        r@ == text::joined(system_texts(types::message_views(messages@)), "\n"@),
{
    let mut texts: Vec<String> = Vec::new();
    let mut i: usize = 0;
    assert(text::views(texts@) =~= Seq::<Seq<char>>::empty());
    while i < messages.len()
        invariant
            i <= messages.len(),
            text::views(texts@) == system_texts(types::message_views(messages@.take(i as int))),
        decreases messages.len() - i,
    {
        proof {
            types::lemma_message_views_take(messages@, i as int);
        }
        if messages[i].role == Role::System {
            push_texts(&messages[i], &mut texts);
        }
        i += 1;
    }
    assert(messages@.take(messages.len() as int) =~= messages@);
    text::join(&texts, "\n")
}

fn push_texts(m: &Message, texts: &mut Vec<String>)
    ensures
        text::views(final(texts)@) == text::views(old(texts)@) + texts_of(m@.parts),
{
    let mut i: usize = 0;
    assert(text::views(texts@) + Seq::<Seq<char>>::empty() =~= text::views(texts@));
    while i < m.parts.len()
        invariant
            i <= m.parts.len(),
            text::views(texts@) == text::views(old(texts)@) + texts_of(
                types::part_views(m.parts@.take(i as int)),
            ),
        decreases m.parts.len() - i,
    {
        proof {
            types::lemma_part_views_take(m.parts@, i as int);
        }
        if let ContentPart::Text { text } = &m.parts[i] {
            let t = text.clone();
            proof {
                text::lemma_views_push(texts@, t);
                let before = texts_of(types::part_views(m.parts@.take(i as int)));
                assert(text::views(old(texts)@) + before.push(t@) =~= (text::views(old(texts)@)
                    + before).push(t@));
            }
            texts.push(t);
        }
        i += 1;
    }
    assert(m.parts@.take(m.parts.len() as int) =~= m.parts@);
}

/// A tool as the OpenAI protocol and those like it describe it.
pub open spec fn function_tool(t: ToolSpecView) -> JsonView {
    obj(
        map![
            "type"@ => jstr("function"@),
            "function"@ => obj(map![
                "name"@ => jstr(t.name),
                "description"@ => jstr(t.description),
                "parameters"@ => t.params_schema,
            ]),
        ],
    )
}

/// The tools as the OpenAI protocol and those like it describe them.
pub open spec fn function_tool_list(tools: Seq<ToolSpecView>) -> Seq<JsonView> {
    tools.map_values(|t: ToolSpecView| function_tool(t))
}

/// The tools as the OpenAI protocol and those like it describe them.
pub fn function_tools(tools: &[ToolSpec]) -> (r: Json)
    ensures
        r@ == JsonView::Array(function_tool_list(types::spec_views(tools@))),
{
    let mut out = Json::array();
    let mut i: usize = 0;
    while i < tools.len()
        invariant
            i <= tools.len(),
            out@ is Array,
            out@->Array_0 =~= function_tool_list(types::spec_views(tools@)).take(i as int),
        decreases tools.len() - i,
    {
        let f = Json::object().with("name", Json::str(tools[i].name.as_str())).with(
            "description",
            Json::str(tools[i].description.as_str()),
        ).with("parameters", tools[i].params_schema.copy());
        let t = Json::object().with("type", Json::str("function")).with("function", f);
        assert(t@ == function_tool(types::spec_views(tools@)[i as int]));
        out = out.and(t);
        i += 1;
    }
    assert(out@->Array_0 =~= function_tool_list(types::spec_views(tools@)));
    out
}

/// A text as an event, where there is any.
pub open spec fn text_event(t: Option<Seq<char>>) -> Seq<ChatEventView> {
    match t {
        Some(s) => if s.len() > 0 {
            seq![ChatEventView::TextDelta(s)]
        } else {
            Seq::empty()
        },
        None => Seq::empty(),
    }
}

/// The number, or zero.
pub open spec fn or_zero(n: Option<u64>) -> u64 {
    match n {
        Some(k) => k,
        None => 0,
    }
}

/// The text, or another.
pub open spec fn or_text(t: Option<Seq<char>>, other: Seq<char>) -> Seq<char> {
    match t {
        Some(s) => s,
        None => other,
    }
}

/// Appends an event.
pub(crate) fn emit(out: &mut Vec<ChatEvent>, e: ChatEvent)
    ensures
        types::chat_views(final(out)@) == types::chat_views(old(out)@) + seq![e@],
{
    out.push(e);
    assert(types::chat_views(out@) =~= types::chat_views(old(out)@) + seq![e@]);
}

/// Appends events.
pub(crate) fn emit_all(out: &mut Vec<ChatEvent>, more: Vec<ChatEvent>)
    ensures
        types::chat_views(final(out)@) == types::chat_views(old(out)@) + types::chat_views(more@),
{
    let mut more = more;
    let ghost m = more@;
    out.append(&mut more);
    assert(types::chat_views(out@) =~= types::chat_views(old(out)@) + types::chat_views(m));
}

/// Appends a text as an event, where there is any.
pub(crate) fn emit_text(out: &mut Vec<ChatEvent>, t: Option<&str>)
    ensures
        types::chat_views(final(out)@) == types::chat_views(old(out)@) + text_event(
            match t {
                Some(s) => Some(s@),
                None => None,
            },
        ),
{
    assert(types::chat_views(out@) + Seq::<ChatEventView>::empty() =~= types::chat_views(out@));
    if let Some(s) = t {
        if !s.is_empty() {
            emit(out, ChatEvent::TextDelta(s.to_owned()));
        }
    }
}

/// The value under two keys, one inside the other; null where there is none.
pub(crate) fn number_at(v: &Json, key: &str) -> (r: u64)
    ensures
        r == or_zero(v@.at(key@).as_u64()),
{
    match v.get(key) {
        Some(x) => match x.as_u64() {
            Some(n) => n,
            None => 0,
        },
        None => 0,
    }
}

/// A request to a provider: a JSON body that is posted to an address.
pub struct Request {
    pub url: String,
    pub headers: Vec<(String, String)>,
    pub body: Json,
}

/// What a request holds.
#[verifier::ext_equal]
pub struct RequestView {
    pub url: Seq<char>,
    pub headers: Seq<(Seq<char>, Seq<char>)>,
    pub body: JsonView,
}

/// What the headers of a list hold.
pub open spec fn header_views(v: Seq<(String, String)>) -> Seq<(Seq<char>, Seq<char>)> {
    v.map_values(|h: (String, String)| (h.0@, h.1@))
}

impl Request {
    pub open spec fn view(self) -> RequestView {
        RequestView { url: self.url@, headers: header_views(self.headers@), body: self.body@ }
    }
}

/// Appends a header.
pub(crate) fn add_header(headers: &mut Vec<(String, String)>, name: &str, value: &str)
    ensures
        header_views(final(headers)@) == header_views(old(headers)@).push((name@, value@)),
{
    headers.push((name.to_owned(), value.to_owned()));
    assert(header_views(headers@) =~= header_views(old(headers)@).push((name@, value@)));
}

/// An address without slashes at its end; a default where none is given.
pub open spec fn base(url: Option<Seq<char>>, default: Seq<char>) -> Seq<char> {
    match url {
        Some(u) => text::trimmed_end_of(u, '/'),
        None => text::trimmed_end_of(default, '/'),
    }
}

/// What an optional string slice holds.
pub open spec fn opt_str(o: Option<&str>) -> Option<Seq<char>> {
    match o {
        Some(s) => Some(s@),
        None => None,
    }
}

/// An address without slashes at its end; a default where none is given.
pub(crate) fn base_of(url: Option<&str>, default: &str) -> (r: String)
    ensures
        r@ == base(opt_str(url), default@),
{
    match url {
        Some(u) => text::trim_end_of(u, '/'),
        None => text::trim_end_of(default, '/'),
    }
}

/// A configured provider.
pub enum AnyProvider {
    OpenAi(OpenAiProvider),
    Anthropic(AnthropicProvider),
    Gemini(GeminiProvider),
    Ollama(OllamaProvider),
}

/// A slice of an optional string.
pub(crate) fn as_deref(o: &Option<String>) -> (r: Option<&str>)
    ensures
        opt_str(r) == text::opt_view(*o),
{
    match o {
        Some(s) => Some(s.as_str()),
        None => None,
    }
}

fn copy_headers(v: &Vec<(String, String)>) -> (r: Vec<(String, String)>)
    ensures
        header_views(r@) == header_views(v@),
{
    let mut out: Vec<(String, String)> = Vec::new();
    let mut i: usize = 0;
    while i < v.len()
        invariant
            i <= v.len(),
            header_views(out@) =~= header_views(v@).take(i as int),
        decreases v.len() - i,
    {
        add_header(&mut out, v[i].0.as_str(), v[i].1.as_str());
        i += 1;
    }
    out
}

/// The provider that a configuration stands for. Anthropic and Gemini need a key.
pub fn build_provider(cfg: &ProviderConfig, api_key: Option<String>) -> (r: Result<
    AnyProvider,
    Error,
>)
    ensures
        r is Err <==> ((cfg.kind == ProviderKind::Anthropic || cfg.kind == ProviderKind::Gemini)
            && api_key is None),
        match r {
            Err(e) => e@ == ErrorView::Config(
                "provider '"@ + cfg.id@ + "' requires an API key"@,
            ),
            Ok(AnyProvider::OpenAi(p)) => {
                &&& cfg.kind == ProviderKind::OpenAi || cfg.kind == ProviderKind::OpenAiCompatible
                &&& p.base_url@ == base(
                    text::opt_view(cfg.base_url),
                    "https://api.openai.com/v1"@,
                )
                &&& p.api_key == api_key
                &&& header_views(p.extra_headers@) == header_views(cfg.extra_headers@)
            },
            Ok(AnyProvider::Anthropic(p)) => {
                &&& cfg.kind == ProviderKind::Anthropic
                &&& p.base_url@ == base(
                    text::opt_view(cfg.base_url),
                    "https://api.anthropic.com"@,
                )
                &&& api_key == Some(p.api_key)
            },
            Ok(AnyProvider::Gemini(p)) => {
                &&& cfg.kind == ProviderKind::Gemini
                &&& p.base_url@ == base(
                    text::opt_view(cfg.base_url),
                    "https://generativelanguage.googleapis.com"@,
                )
                &&& api_key == Some(p.api_key)
            },
            Ok(AnyProvider::Ollama(p)) => {
                &&& cfg.kind == ProviderKind::Ollama
                &&& p.base_url@ == base(text::opt_view(cfg.base_url), "http://localhost:11434"@)
            },
        },
{
    let url = as_deref(&cfg.base_url);
    match cfg.kind {
        ProviderKind::OpenAi | ProviderKind::OpenAiCompatible => Ok(
            AnyProvider::OpenAi(
                OpenAiProvider::new(url, api_key, copy_headers(&cfg.extra_headers)),
            ),
        ),
        ProviderKind::Anthropic => match api_key {
            Some(k) => Ok(AnyProvider::Anthropic(AnthropicProvider::new(url, k))),
            None => Err(missing_key(cfg.id.as_str())),
        },
        ProviderKind::Gemini => match api_key {
            Some(k) => Ok(AnyProvider::Gemini(GeminiProvider::new(url, k))),
            None => Err(missing_key(cfg.id.as_str())),
        },
        ProviderKind::Ollama => Ok(AnyProvider::Ollama(OllamaProvider::new(url))),
    }
}

fn missing_key(id: &str) -> (r: Error)
    ensures
        r@ == ErrorView::Config("provider '"@ + id@ + "' requires an API key"@),
{
    Error::Config(text::concat3("provider '", id, "' requires an API key"))
}

/// A configuration without models, keys and headers.
pub open spec fn is_preset(
    p: ProviderConfig,
    id: Seq<char>,
    label: Seq<char>,
    kind: ProviderKind,
    base_url: Seq<char>,
) -> bool {
    &&& p.id@ == id
    &&& p.label@ == label
    &&& p.kind == kind
    &&& text::opt_view(p.base_url) == Some(base_url)
    &&& !p.has_key
    &&& p.models@.len() == 0
    &&& p.disabled_models@.len() == 0
    &&& p.extra_headers@.len() == 0
}

/// The configurations that a first run begins with: the known providers under their usual
/// addresses.
pub fn presets() -> (r: Vec<ProviderConfig>)
    ensures
        r.len() == 4,
        is_preset(
            r[0],
            "openai"@,
            "OpenAI"@,
            ProviderKind::OpenAi,
            "https://api.openai.com/v1"@,
        ),
        is_preset(
            r[1],
            "anthropic"@,
            "Anthropic"@,
            ProviderKind::Anthropic,
            "https://api.anthropic.com"@,
        ),
        is_preset(
            r[2],
            "gemini"@,
            "Gemini"@,
            ProviderKind::Gemini,
            "https://generativelanguage.googleapis.com"@,
        ),
        is_preset(
            r[3],
            "ollama"@,
            "Ollama"@,
            ProviderKind::Ollama,
            "http://localhost:11434"@,
        ),
{
    let mut out: Vec<ProviderConfig> = Vec::new();
    out.push(preset("openai", "OpenAI", ProviderKind::OpenAi, "https://api.openai.com/v1"));
    out.push(
        preset("anthropic", "Anthropic", ProviderKind::Anthropic, "https://api.anthropic.com"),
    );
    out.push(
        preset(
            "gemini",
            "Gemini",
            ProviderKind::Gemini,
            "https://generativelanguage.googleapis.com",
        ),
    );
    out.push(preset("ollama", "Ollama", ProviderKind::Ollama, "http://localhost:11434"));
    out
}

fn preset(id: &str, label: &str, kind: ProviderKind, base_url: &str) -> (r: ProviderConfig)
    ensures
        is_preset(r, id@, label@, kind, base_url@),
{
    ProviderConfig {
        id: id.to_owned(),
        label: label.to_owned(),
        kind,
        base_url: Some(base_url.to_owned()),
        has_key: false,
        models: Vec::new(),
        disabled_models: Vec::new(),
        extra_headers: Vec::new(),
    }
}

/// How many of the events end the answer.
pub open spec fn dones(events: Seq<ChatEventView>) -> nat
    decreases events.len(),
{
    if events.len() == 0 {
        0
    } else if events.last() is Done {
        dones(events.drop_last()) + 1
    } else {
        dones(events.drop_last())
    }
}

/// Whether no end comes behind an error.
pub open spec fn no_end_behind_an_error(events: Seq<ChatEventView>) -> bool {
    forall|i: int, j: int|
        0 <= i < j < events.len() && (#[trigger] events[i]) is Error ==> !((
        #[trigger] events[j]) is Done)
}

/// Whether an error is among the events.
pub open spec fn has_error(events: Seq<ChatEventView>) -> bool {
    exists|i: int| 0 <= i < events.len() && (#[trigger] events[i]) is Error
}

/// The ends of two lists of events add up.
pub proof fn lemma_dones_concat(a: Seq<ChatEventView>, b: Seq<ChatEventView>)
    ensures
        dones(a + b) == dones(a) + dones(b),
    decreases b.len(),
{
    if b.len() == 0 {
        assert(a + b =~= a);
    } else {
        assert((a + b).drop_last() =~= a + b.drop_last());
        lemma_dones_concat(a, b.drop_last());
    }
}

/// Events that are no ends.
pub proof fn lemma_no_dones(a: Seq<ChatEventView>)
    requires
        forall|i: int| 0 <= i < a.len() ==> !((#[trigger] a[i]) is Done),
    ensures
        dones(a) == 0,
    decreases a.len(),
{
    if a.len() > 0 {
        let t = a.drop_last();
        assert forall|i: int| 0 <= i < t.len() implies !((#[trigger] t[i]) is Done) by {
            assert(t[i] == a[i]);
        }
        lemma_no_dones(t);
    }
}

/// Where errors end a stream, none that has not ended holds one, and what comes behind the end
/// holds no other end.
pub proof fn lemma_error_order(
    sofar: Seq<ChatEventView>,
    ended: bool,
    more: Seq<ChatEventView>,
    now: bool,
)
    requires
        no_end_behind_an_error(sofar),
        has_error(sofar) ==> ended,
        ended ==> now && forall|i: int| 0 <= i < more.len() ==> !((#[trigger] more[i]) is Done),
        has_error(more) ==> now && more.len() == 1,
    ensures
        no_end_behind_an_error(sofar + more),
        has_error(sofar + more) ==> now,
{
    let all = sofar + more;
    assert forall|i: int, j: int| 0 <= i < j < all.len() && (#[trigger] all[i]) is Error implies !((
    #[trigger] all[j]) is Done) by {
        if j < sofar.len() {
            assert(sofar[i] is Error);
            assert(!(sofar[j] is Done));
        } else if i < sofar.len() {
            assert(sofar[i] is Error);
            assert(more[j - sofar.len()] == all[j]);
        } else {
            assert(more[i - sofar.len()] is Error);
        }
    }
    if has_error(all) {
        let i = choose|i: int| 0 <= i < all.len() && (#[trigger] all[i]) is Error;
        if i < sofar.len() {
            assert(sofar[i] is Error);
        } else {
            assert(more[i - sofar.len()] is Error);
        }
    }
}

/// The texts of a message are put together whole and in order, and nothing else is among them.
pub proof fn texts_are_put_together(
    a: Seq<ContentPartView>,
    b: Seq<ContentPartView>,
    p: ContentPartView,
)
    ensures
        text_of(a + b) == text_of(a) + text_of(b),
        texts_of(a + b) == texts_of(a) + texts_of(b),
        text_of(Seq::empty()).len() == 0 && texts_of(Seq::empty()).len() == 0,
        p matches ContentPartView::Text { text } ==> text_of(seq![p]) == text && texts_of(seq![p])
            == seq![text],
        !(p is Text) ==> text_of(seq![p]).len() == 0 && texts_of(seq![p]).len() == 0,
    decreases b.len(),
{
    reveal_with_fuel(text_of, 2);
    reveal_with_fuel(texts_of, 2);
    let one = seq![p];
    assert(one.drop_last() =~= Seq::<ContentPartView>::empty());
    assert(one.last() == p);
    if let ContentPartView::Text { text } = p {
        assert(text_of(one) =~= text);
        assert(texts_of(one) =~= seq![text]);
    }
    if b.len() == 0 {
        assert(a + b =~= a);
        assert(text_of(a) + text_of(b) =~= text_of(a));
        assert(texts_of(a) + texts_of(b) =~= texts_of(a));
    } else {
        texts_are_put_together(a, b.drop_last(), p);
        assert((a + b).drop_last() =~= a + b.drop_last());
        assert((a + b).last() == b.last());
        assert(text_of(a + b) =~= text_of(a) + text_of(b));
        assert(texts_of(a + b) =~= texts_of(a) + texts_of(b));
    }
}

/// The texts of all system messages are gathered in order, and those of no other message.
pub proof fn system_messages_are_gathered(a: Seq<MessageView>, b: Seq<MessageView>, m: MessageView)
    ensures
        system_texts(a + b) == system_texts(a) + system_texts(b),
        system_texts(Seq::empty()).len() == 0,
        m.role == Role::System ==> system_texts(seq![m]) == texts_of(m.parts),
        m.role != Role::System ==> system_texts(seq![m]).len() == 0,
    decreases b.len(),
{
    reveal_with_fuel(system_texts, 2);
    let one = seq![m];
    assert(one.drop_last() =~= Seq::<MessageView>::empty());
    assert(one.last() == m);
    assert(Seq::<Seq<char>>::empty() + texts_of(m.parts) =~= texts_of(m.parts));
    if b.len() == 0 {
        assert(a + b =~= a);
        assert(system_texts(a) + system_texts(b) =~= system_texts(a));
    } else {
        system_messages_are_gathered(a, b.drop_last(), m);
        assert((a + b).drop_last() =~= a + b.drop_last());
        assert((a + b).last() == b.last());
        assert(system_texts(a + b) =~= system_texts(a) + system_texts(b));
    }
}

/// What is made of parts stands in their order, one thing for each part that something is made of.
pub proof fn parts_are_picked_in_order(
    a: Seq<ContentPartView>,
    b: Seq<ContentPartView>,
    p: ContentPartView,
    f: spec_fn(ContentPartView) -> Option<JsonView>,
)
    ensures
        picked(a + b, f) == picked(a, f) + picked(b, f),
        picked(Seq::empty(), f).len() == 0,
        picked(seq![p], f) == (match f(p) {
            Some(v) => seq![v],
            None => Seq::<JsonView>::empty(),
        }),
    decreases b.len(),
{
    reveal_with_fuel(picked, 2);
    let one = seq![p];
    assert(one.drop_last() =~= Seq::<ContentPartView>::empty());
    assert(one.last() == p);
    assert(picked(one, f) =~= (match f(p) {
        Some(v) => seq![v],
        None => Seq::<JsonView>::empty(),
    }));
    if b.len() == 0 {
        assert(a + b =~= a);
        assert(picked(a, f) + picked(b, f) =~= picked(a, f));
    } else {
        parts_are_picked_in_order(a, b.drop_last(), p, f);
        assert((a + b).drop_last() =~= a + b.drop_last());
        assert((a + b).last() == b.last());
        assert(picked(a + b, f) =~= picked(a, f) + picked(b, f));
    }
}

/// Arguments are passed on as the value that they parse to; an empty object stands for those that
/// do not parse.
pub proof fn arguments_are_what_they_parse_to(args: Seq<char>, v: JsonView)
    ensures
        json::json_parsed(args) == Ok::<JsonView, Seq<char>>(v) ==> args_value(args) == v,
        json::json_parsed(args) is Err ==> args_value(args) == JsonView::Object(Map::empty()),
{
}

/// Every tool is described, in order, by its name, its description and its parameters.
pub proof fn every_tool_is_described(tools: Seq<ToolSpecView>, i: int)
    requires
        0 <= i < tools.len(),
    ensures
        function_tool_list(tools).len() == tools.len(),
        ({
            let t = function_tool_list(tools)[i];
            &&& t.str_field("type"@) == Some("function"@)
            &&& t.at("function"@).str_field("name"@) == Some(tools[i].name)
            &&& t.at("function"@).str_field("description"@) == Some(tools[i].description)
            &&& t.at("function"@).field("parameters"@) == Some(tools[i].params_schema)
        }),
{
    reveal_strlit("type");
    reveal_strlit("function");
    reveal_strlit("name");
    reveal_strlit("description");
    reveal_strlit("parameters");
    assert("type"@.len() == 4 && "function"@.len() == 8 && "name"@.len() == 4);
    assert("description"@.len() == 11 && "parameters"@.len() == 10);
}

/// A text gives one event that holds all of it; an empty text, or none, gives nothing.
pub proof fn text_is_passed_on_whole(t: Option<Seq<char>>)
    ensures
        types::said(text_event(t)) == (match t {
            Some(s) => s,
            None => Seq::<char>::empty(),
        }),
        t matches Some(s) && s.len() > 0 ==> text_event(t) == seq![ChatEventView::TextDelta(t->0)],
        t is None || t->0.len() == 0 ==> text_event(t).len() == 0,
{
    reveal_with_fuel(types::said, 2);
    if let Some(s) = t {
        if s.len() > 0 {
            let one = seq![ChatEventView::TextDelta(s)];
            assert(one.drop_last() =~= Seq::<ChatEventView>::empty());
            assert(one.last() == ChatEventView::TextDelta(s));
            assert(types::said(one) =~= s);
        } else {
            assert(s =~= Seq::<char>::empty());
        }
    }
}

/// What is given counts: the default of a number is zero, and that of a text is the one named.
pub proof fn given_values_count(n: u64, t: Seq<char>, other: Seq<char>)
    ensures
        or_zero(Some(n)) == n && or_zero(None) == 0,
        or_text(Some(t), other) == t && or_text(None, other) == other,
{
}

/// An address loses the slashes at its end and nothing else; the default stands in only where no
/// address is given.
pub proof fn address_loses_its_last_slashes(url: Seq<char>, default: Seq<char>)
    ensures
        base(Some(url), default).is_prefix_of(url),
        forall|i: int|
            base(Some(url), default).len() <= i < url.len() ==> #[trigger] url[i] == '/',
        base(Some(url), default).len() > 0 ==> base(Some(url), default).last() != '/',
        base(None, default) == base(Some(default), url),
{
    text::only_the_character_is_cut(url, '/');
}

/// A configuration to begin with has the given identifier, label, protocol and address, and no
/// key, models or headers.
pub proof fn presets_are_bare(
    p: ProviderConfig,
    id: Seq<char>,
    label: Seq<char>,
    kind: ProviderKind,
    url: Seq<char>,
)
    ensures
        is_preset(p, id, label, kind, url) <==> p.id@ == id && p.label@ == label && p.kind == kind
            && (p.base_url matches Some(u) && u@ == url) && !p.has_key && p.models@.len() == 0
            && p.disabled_models@.len() == 0 && p.extra_headers@.len() == 0,
{
}

} // verus!
