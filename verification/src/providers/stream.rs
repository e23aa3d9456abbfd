//! From the text of an answer, as it arrives in chunks, to its events.
use crate::ids;
use crate::providers::anthropic::{AnthropicAssembler, AnthropicState};
use crate::providers::gemini::GeminiAssembler;
use crate::providers::ollama::{OllamaAssembler, OllamaState};
use crate::providers::openai::{OpenAiAssembler, OpenAiState};
use crate::providers::sse::{LineDecoder, SseDecoder, SseEvent, SseEventView, SsePending};
use crate::providers::{gemini, ollama, sse, AnyProvider};
use crate::types::{ChatEvent, ChatEventView};
use crate::{text, types};
use vstd::prelude::*;
use vstd::string::*;

verus! {

/// A line as an event without a name.
pub open spec fn line_event(line: Seq<char>) -> SseEventView {
    SseEventView { event: None, data: line }
}

/// Lines as events without names.
pub open spec fn line_events(lines: Seq<Seq<char>>) -> Seq<SseEventView> {
    lines.map_values(|l: Seq<char>| line_event(l))
}

/// A text under way: the line that was begun and not yet ended, and of Server-Sent Events the
/// fields of the event that was begun and not yet dispatched.
pub enum SplitState {
    Events { open: Seq<char>, pending: SsePending },
    Lines { open: Seq<char> },
}

impl SplitState {
    /// A chunk arrives: the state then, and the events or lines that it completes.
    pub open spec fn fed(self, chunk: Seq<char>) -> (SplitState, Seq<SseEventView>) {
        match self {
            SplitState::Events { open, pending } => {
                let (after, events) = pending.lines(text::complete_lines(open + chunk));
                (SplitState::Events { open: text::open_line(open + chunk), pending: after }, events)
            },
            SplitState::Lines { open } => (
                SplitState::Lines { open: text::open_line(open + chunk) },
                line_events(text::complete_lines(open + chunk)),
            ),
        }
    }

    /// The text ends: what was begun counts as complete.
    pub open spec fn ended(self) -> Seq<SseEventView> {
        match self {
            SplitState::Events { open, pending } => if open.len() == 0 {
                pending.dispatched()
            } else {
                pending.line(open).1 + pending.line(open).0.dispatched()
            },
            SplitState::Lines { open } => if open.len() == 0 {
                Seq::empty()
            } else {
                seq![line_event(open)]
            },
        }
    }

    /// A text that has not begun.
    pub open spec fn fresh(self) -> SplitState {
        match self {
            SplitState::Events { .. } => SplitState::Events {
                open: Seq::empty(),
                pending: SsePending::none(),
            },
            SplitState::Lines { .. } => SplitState::Lines { open: Seq::empty() },
        }
    }
}

/// What cuts the text of an answer: into Server-Sent Events, or into lines.
pub enum Splitter {
    Events(SseDecoder),
    Lines(LineDecoder),
}

impl Splitter {
    /// The text under way.
    pub open spec fn state(self) -> SplitState {
        match self {
            Splitter::Events(d) => SplitState::Events { open: d.open_line(), pending: d.pending() },
            Splitter::Lines(d) => SplitState::Lines { open: d.pending() },
        }
    }

    /// What is pending holds no complete line.
    pub open spec fn wf(self) -> bool {
        match self {
            Splitter::Events(d) => d.wf(),
            Splitter::Lines(d) => d.wf(),
        }
    }

    /// Feeds a chunk; returns what it completes, a line as an event without a name.
    pub fn push(&mut self, chunk: &str) -> (r: Vec<SseEvent>)
        requires
            old(self).wf(),
        ensures
            final(self).wf(),
            final(self).state() == old(self).state().fed(chunk@).0,
            sse::event_views(r@) == old(self).state().fed(chunk@).1,
    {
        match self {
            Splitter::Events(d) => d.push(chunk),
            Splitter::Lines(d) => as_events(d.push(chunk)),
        }
    }

    /// Ends the text; returns what was begun.
    pub fn finish(&mut self) -> (r: Vec<SseEvent>)
        requires
            old(self).wf(),
        ensures
            final(self).wf(),
            final(self).state() == old(self).state().fresh(),
            sse::event_views(r@) == old(self).state().ended(),
    {
        match self {
            Splitter::Events(d) => d.finish(),
            Splitter::Lines(d) => {
                let mut lines: Vec<String> = Vec::new();
                let ghost open = d.pending();
                if let Some(line) = d.finish() {
                    lines.push(line);
                }
                let ghost all = text::views(lines@);
                assert(line_events(all) =~= SplitState::Lines { open }.ended());
                as_events(lines)
            },
        }
    }
}

fn as_events(lines: Vec<String>) -> (r: Vec<SseEvent>)
    ensures
        sse::event_views(r@) == line_events(text::views(lines@)),
{
    let ghost all = lines@;
    let mut out: Vec<SseEvent> = Vec::new();
    for l in it: lines.into_iter()
        invariant
            it.seq() == all,
            sse::event_views(out@) == line_events(text::views(all.take(it.index()))),
    {
        let ghost before = all.take(it.index());
        let ghost made = sse::event_views(out@);
        proof {
            assert(all.take(it.index() + 1) =~= before.push(l));
            text::lemma_views_push(before, l);
        }
        let e = SseEvent { event: None, data: l };
        assert(e@ =~= line_event(l@));
        out.push(e);
        proof {
            assert(sse::event_views(out@) =~= made.push(e@));
            assert(line_events(text::views(before).push(l@)) =~= line_events(
                text::views(before),
            ).push(line_event(l@)));
        }
    }
    assert(all.take(all.len() as int) =~= all);
    out
}

/// An answer under way.
pub enum AnswerState {
    OpenAi(OpenAiState),
    Anthropic(AnthropicState),
    Gemini(bool),
    Ollama(OllamaState),
}

impl AnswerState {
    /// What an event of the text does: the state then, and the events that it gives.
    pub open spec fn event(self, ev: SseEventView) -> (AnswerState, Seq<ChatEventView>) {
        match self {
            AnswerState::OpenAi(s) => (AnswerState::OpenAi(s.data(ev.data).0), s.data(ev.data).1),
            AnswerState::Anthropic(s) => (AnswerState::Anthropic(s.event(ev).0), s.event(ev).1),
            AnswerState::Gemini(done) => (
                AnswerState::Gemini(gemini::data_step(done, ev.data).0),
                gemini::data_step(done, ev.data).1,
            ),
            AnswerState::Ollama(s) => (
                AnswerState::Ollama(ollama::line_step(s, ev.data).0),
                ollama::line_step(s, ev.data).1,
            ),
        }
    }

    /// What events of the text do, one after the other.
    pub open spec fn events(self, evs: Seq<SseEventView>) -> (AnswerState, Seq<ChatEventView>)
        decreases evs.len(),
    {
        if evs.len() == 0 {
            (self, Seq::empty())
        } else {
            let (before, out) = self.events(evs.drop_last());
            let (after, more) = before.event(evs.last());
            (after, out + more)
        }
    }

    /// What the end of the stream does.
    pub open spec fn end(self) -> (AnswerState, Seq<ChatEventView>) {
        match self {
            AnswerState::OpenAi(s) => (AnswerState::OpenAi(s.end().0), s.end().1),
            AnswerState::Anthropic(s) => (AnswerState::Anthropic(s.end().0), s.end().1),
            AnswerState::Gemini(done) => (
                AnswerState::Gemini(gemini::end_step(done).0),
                gemini::end_step(done).1,
            ),
            AnswerState::Ollama(s) => (AnswerState::Ollama(s.end().0), s.end().1),
        }
    }

    /// Whether events are the given ones: the very same, where the provider identifies its tool
    /// calls, and else with an identifier of its own for each tool call.
    pub open spec fn told(self, drafts: Seq<ChatEventView>, es: Seq<ChatEventView>) -> bool {
        match self {
            AnswerState::OpenAi(_) | AnswerState::Anthropic(_) => es == drafts,
            AnswerState::Gemini(_) => ids::all_identified("gemini-"@, drafts, es),
            AnswerState::Ollama(_) => ids::all_identified("ollama-"@, drafts, es),
        }
    }

    /// Whether two answers come from the same kind of provider.
    pub open spec fn same_kind(self, other: AnswerState) -> bool {
        match self {
            AnswerState::OpenAi(_) => other is OpenAi,
            AnswerState::Anthropic(_) => other is Anthropic,
            AnswerState::Gemini(_) => other is Gemini,
            AnswerState::Ollama(_) => other is Ollama,
        }
    }
}

/// What makes the events of an answer.
pub enum Assembler {
    OpenAi(OpenAiAssembler),
    Anthropic(AnthropicAssembler),
    Gemini(GeminiAssembler),
    Ollama(OllamaAssembler),
}

impl Assembler {
    /// The answer under way.
    pub open spec fn state(self) -> AnswerState {
        match self {
            Assembler::OpenAi(a) => AnswerState::OpenAi(a.state()),
            Assembler::Anthropic(a) => AnswerState::Anthropic(a.state()),
            Assembler::Gemini(a) => AnswerState::Gemini(a.done()),
            Assembler::Ollama(a) => AnswerState::Ollama(a.state()),
        }
    }

    /// The tool calls that are buffered are in order.
    pub open spec fn wf(self) -> bool {
        match self {
            Assembler::OpenAi(a) => a.wf(),
            Assembler::Anthropic(a) => a.wf(),
            _ => true,
        }
    }

    /// Takes an event of the text in; returns the events that it gives.
    pub fn push(&mut self, ev: &SseEvent) -> (r: Vec<ChatEvent>)
        requires
            old(self).wf(),
        ensures
            final(self).wf(),
            final(self).state() == old(self).state().event(ev@).0,
            old(self).state().told(old(self).state().event(ev@).1, types::chat_views(r@)),
    {
        match self {
            Assembler::OpenAi(a) => a.push_data(ev.data.as_str()),
            Assembler::Anthropic(a) => a.push(ev),
            Assembler::Gemini(a) => a.push_data(ev.data.as_str()),
            Assembler::Ollama(a) => a.push_line(ev.data.as_str()),
        }
    }

    /// Takes events of the text in, one after the other; returns the events that they give.
    pub fn push_all(&mut self, evs: &Vec<SseEvent>) -> (r: Vec<ChatEvent>)
        requires
            old(self).wf(),
        ensures
            final(self).wf(),
            final(self).state() == old(self).state().events(sse::event_views(evs@)).0,
            old(self).state().told(
                old(self).state().events(sse::event_views(evs@)).1,
                types::chat_views(r@),
            ),
    {
        let ghost start = self.state();
        let ghost all = sse::event_views(evs@);
        let mut out: Vec<ChatEvent> = Vec::new();
        let mut i: usize = 0;
        proof {
            assert(all.take(0) =~= Seq::<SseEventView>::empty());
            assert(types::chat_views(out@) =~= Seq::<ChatEventView>::empty());
        }
        while i < evs.len()
            invariant
                i <= evs.len(),
                all == sse::event_views(evs@),
                self.wf(),
                self.state() == start.events(all.take(i as int)).0,
                start.same_kind(self.state()),
                start.told(start.events(all.take(i as int)).1, types::chat_views(out@)),
            decreases evs.len() - i,
        {
            let ghost before = self.state();
            let ghost sofar = types::chat_views(out@);
            let mut more = self.push(&evs[i]);
            let ghost new = types::chat_views(more@);
            out.append(&mut more);
            proof {
                let now = all.take(i + 1);
                assert(now.drop_last() =~= all.take(i as int));
                assert(now.last() == evs@[i as int]@);
                assert(types::chat_views(out@) =~= sofar + new);
                lemma_told(
                    start,
                    start.events(all.take(i as int)).1,
                    sofar,
                    before.event(now.last()).1,
                    new,
                );
            }
            i += 1;
        }
        assert(all.take(evs.len() as int) =~= all);
        out
    }

    /// Ends the answer; returns the events that the end gives.
    pub fn finish(&mut self) -> (r: Vec<ChatEvent>)
        requires
            old(self).wf(),
        ensures
            final(self).wf(),
            final(self).state() == old(self).state().end().0,
            old(self).state().told(old(self).state().end().1, types::chat_views(r@)),
    {
        match self {
            Assembler::OpenAi(a) => a.finish(),
            Assembler::Anthropic(a) => a.finish(),
            Assembler::Gemini(a) => a.finish(),
            Assembler::Ollama(a) => a.finish(),
        }
    }
}

proof fn lemma_told(
    st: AnswerState,
    a: Seq<ChatEventView>,
    x: Seq<ChatEventView>,
    b: Seq<ChatEventView>,
    y: Seq<ChatEventView>,
)
    requires
        st.told(a, x),
        st.told(b, y),
    ensures
        st.told(a + b, x + y),
{
    if st is Gemini || st is Ollama {
        let prefix = if st is Gemini {
            "gemini-"@
        } else {
            "ollama-"@
        };
        assert forall|i: int| 0 <= i < (x + y).len() implies ids::identified(
            prefix,
            (a + b)[i],
            #[trigger] (x + y)[i],
        ) by {
            if i < x.len() {
                assert((x + y)[i] == x[i]);
            } else {
                assert((x + y)[i] == y[i - x.len()]);
            }
        }
    }
}

proof fn lemma_kind_stays(st: AnswerState, evs: Seq<SseEventView>)
    ensures
        st.same_kind(st.events(evs).0),
    decreases evs.len(),
{
    if evs.len() > 0 {
        lemma_kind_stays(st, evs.drop_last());
    }
}

proof fn lemma_events_concat(st: AnswerState, a: Seq<SseEventView>, b: Seq<SseEventView>)
    ensures
        st.events(a + b).0 == st.events(a).0.events(b).0,
        st.events(a + b).1 == st.events(a).1 + st.events(a).0.events(b).1,
    decreases b.len(),
{
    if b.len() == 0 {
        assert(a + b =~= a);
        assert(st.events(a).1 + Seq::<ChatEventView>::empty() =~= st.events(a).1);
    } else {
        lemma_events_concat(st, a, b.drop_last());
        assert((a + b).drop_last() =~= a + b.drop_last());
        assert((a + b).last() == b.last());
        let more = st.events(a + b.drop_last()).0.event(b.last()).1;
        assert(st.events(a + b).1 =~= st.events(a).1 + (st.events(a).0.events(b.drop_last()).1
            + more));
    }
}

/// The stream of an answer under way.
pub struct StreamState {
    pub text: SplitState,
    pub answer: AnswerState,
}

impl StreamState {
    /// A chunk of text arrives: the state then, and the events that it gives.
    pub open spec fn fed(self, chunk: Seq<char>) -> (StreamState, Seq<ChatEventView>) {
        let (text, evs) = self.text.fed(chunk);
        let (answer, out) = self.answer.events(evs);
        (StreamState { text, answer }, out)
    }

    /// The stream ends: what was begun of the text counts, and then the answer ends.
    pub open spec fn ended(self) -> (StreamState, Seq<ChatEventView>) {
        let (answer, out) = self.answer.events(self.text.ended());
        let (last, more) = answer.end();
        (StreamState { text: self.text.fresh(), answer: last }, out + more)
    }
}

/// The stream that a provider answers with, before anything arrived.
pub open spec fn stream_start(p: AnyProvider) -> StreamState {
    let events = SplitState::Events { open: Seq::empty(), pending: SsePending::none() };
    match p {
        AnyProvider::OpenAi(_) => StreamState {
            text: events,
            answer: AnswerState::OpenAi(OpenAiState::start()),
        },
        AnyProvider::Anthropic(_) => StreamState {
            text: events,
            answer: AnswerState::Anthropic(AnthropicState::start()),
        },
        AnyProvider::Gemini(_) => StreamState { text: events, answer: AnswerState::Gemini(false) },
        AnyProvider::Ollama(_) => StreamState {
            text: SplitState::Lines { open: Seq::empty() },
            answer: AnswerState::Ollama(OllamaState::start()),
        },
    }
}

/// Turns the text of an answer into events, chunk by chunk.
pub struct StreamDecoder {
    splitter: Splitter,
    assembler: Assembler,
}

impl StreamDecoder {
    /// The stream under way.
    pub closed spec fn state(self) -> StreamState {
        StreamState { text: self.splitter.state(), answer: self.assembler.state() }
    }

    /// Its parts are in order.
    pub closed spec fn wf(self) -> bool {
        self.splitter.wf() && self.assembler.wf()
    }

    /// For an answer of the provider: Ollama answers in lines, the others in Server-Sent Events.
    pub fn new(p: &AnyProvider) -> (r: StreamDecoder)
        ensures
            r.wf(),
            r.state() == stream_start(*p),
    {
        match p {
            AnyProvider::OpenAi(_) => StreamDecoder {
                splitter: Splitter::Events(SseDecoder::new()),
                assembler: Assembler::OpenAi(OpenAiAssembler::default()),
            },
            AnyProvider::Anthropic(_) => StreamDecoder {
                splitter: Splitter::Events(SseDecoder::new()),
                assembler: Assembler::Anthropic(AnthropicAssembler::default()),
            },
            AnyProvider::Gemini(_) => StreamDecoder {
                splitter: Splitter::Events(SseDecoder::new()),
                assembler: Assembler::Gemini(GeminiAssembler::default()),
            },
            AnyProvider::Ollama(_) => StreamDecoder {
                splitter: Splitter::Lines(LineDecoder::new()),
                assembler: Assembler::Ollama(OllamaAssembler::default()),
            },
        }
    }

    /// Feeds a chunk; returns the events that it gives.
    pub fn push(&mut self, chunk: &str) -> (r: Vec<ChatEvent>)
        requires
            old(self).wf(),
        ensures
            final(self).wf(),
            final(self).state() == old(self).state().fed(chunk@).0,
            old(self).state().answer.told(
                old(self).state().fed(chunk@).1,
                types::chat_views(r@),
            ),
    {
        let evs = self.splitter.push(chunk);
        self.assembler.push_all(&evs)
    }

    /// Ends the stream; returns the events that were still to come.
    pub fn finish(&mut self) -> (r: Vec<ChatEvent>)
        requires
            old(self).wf(),
        ensures
            final(self).wf(),
            final(self).state() == old(self).state().ended().0,
            old(self).state().answer.told(
                old(self).state().ended().1,
                types::chat_views(r@),
            ),
    {
        let ghost st = self.assembler.state();
        let evs = self.splitter.finish();
        let ghost all = sse::event_views(evs@);
        let mut out = self.assembler.push_all(&evs);
        let mut more = self.assembler.finish();
        let ghost x = types::chat_views(out@);
        let ghost y = types::chat_views(more@);
        out.append(&mut more);
        proof {
            lemma_kind_stays(st, all);
            assert(types::chat_views(out@) =~= x + y);
            lemma_told(st, st.events(all).1, x, st.events(all).0.end().1, y);
        }
        out
    }
}

/// However the text of an answer is cut into chunks, its events are the same: feeding `a` and
/// then `b` leads where feeding `a + b` does, and gives the same events.
pub proof fn answer_does_not_depend_on_chunks(s: StreamState, a: Seq<char>, b: Seq<char>)
    ensures
        s.fed(a + b).0 == s.fed(a).0.fed(b).0,
        s.fed(a + b).1 == s.fed(a).1 + s.fed(a).0.fed(b).1,
{
    let (t, first) = s.text.fed(a);
    let second = t.fed(b).1;
    match s.text {
        SplitState::Events { open, pending } => {
            sse::events_do_not_depend_on_chunks(open, pending, a, b);
            sse::lines_do_not_depend_on_chunks(open, a, b);
        },
        SplitState::Lines { open } => {
            sse::lines_do_not_depend_on_chunks(open, a, b);
            assert(s.text.fed(a + b).1 =~= first + second);
        },
    }
    lemma_events_concat(s.answer, first, second);
}

/// The events of a text reach the protocol of the provider, each of them and in order: OpenAI,
/// Gemini and Ollama read their data, and Anthropic their names too.
pub proof fn events_reach_the_provider(s: OpenAiState, a: AnthropicState, evs: Seq<SseEventView>)
    ensures
        ({
            let data = evs.map_values(|e: SseEventView| e.data);
            &&& AnswerState::OpenAi(s).events(evs) == (
                AnswerState::OpenAi(s.all_data(data).0),
                s.all_data(data).1,
            )
            &&& AnswerState::Anthropic(a).events(evs) == (
                AnswerState::Anthropic(a.events(evs).0),
                a.events(evs).1,
            )
            &&& AnswerState::Gemini(false).events(evs) == (
                AnswerState::Gemini(gemini::all_data(data).0),
                gemini::all_data(data).1,
            )
            &&& AnswerState::Ollama(OllamaState::start()).events(evs) == (
                AnswerState::Ollama(ollama::all_lines(data).0),
                ollama::all_lines(data).1,
            )
        }),
    decreases evs.len(),
{
    let f = |e: SseEventView| e.data;
    let data = evs.map_values(f);
    if evs.len() > 0 {
        events_reach_the_provider(s, a, evs.drop_last());
        assert(data.drop_last() =~= evs.drop_last().map_values(f));
        assert(data.last() == evs.last().data);
    }
}

/// The end of a stream is the end of the answer; what was begun of the text counts before it.
pub proof fn answer_ends_with_the_stream(
    s: OpenAiState,
    a: AnthropicState,
    done: bool,
    o: OllamaState,
    st: StreamState,
)
    ensures
        AnswerState::OpenAi(s).end() == (AnswerState::OpenAi(s.end().0), s.end().1),
        AnswerState::Anthropic(a).end() == (AnswerState::Anthropic(a.end().0), a.end().1),
        AnswerState::Gemini(done).end() == (
            AnswerState::Gemini(gemini::end_step(done).0),
            gemini::end_step(done).1,
        ),
        AnswerState::Ollama(o).end() == (AnswerState::Ollama(o.end().0), o.end().1),
        ({
            let begun = match st.text {
                SplitState::Events { open, pending } => if open.len() == 0 {
                    pending.line(Seq::empty()).1
                } else {
                    pending.line(open).1 + pending.line(open).0.line(Seq::empty()).1
                },
                SplitState::Lines { open } => if open.len() == 0 {
                    Seq::<SseEventView>::empty()
                } else {
                    seq![SseEventView { event: None, data: open }]
                },
            };
            let (answer, out) = st.answer.events(begun);
            &&& st.ended().0.answer == answer.end().0
            &&& st.ended().1 == out + answer.end().1
        }),
{
}

/// The text of an answer is split where its lines end: Ollama's lines each hold one value, and the
/// lines of the others make up Server-Sent Events.
pub proof fn text_is_split_at_its_lines(
    open: Seq<char>,
    pending: SsePending,
    chunk: Seq<char>,
    i: int,
)
    ensures
        ({
            let lines = text::complete_lines(open + chunk);
            let rest = text::open_line(open + chunk);
            let (after, events) = (SplitState::Events { open, pending }).fed(chunk);
            let (next, each) = (SplitState::Lines { open }).fed(chunk);
            &&& after == (SplitState::Events { open: rest, pending: pending.lines(lines).0 })
            &&& events == pending.lines(lines).1
            &&& next == (SplitState::Lines { open: rest })
            &&& each.len() == lines.len()
            &&& 0 <= i < lines.len() ==> each[i] == (SseEventView { event: None, data: lines[i] })
        }),
{
}

/// Every stream starts with nothing, in the form and the protocol of its provider.
pub proof fn streams_start_with_nothing(p: AnyProvider)
    ensures
        p is Ollama <==> stream_start(p).text is Lines,
        (match stream_start(p).text {
            SplitState::Events { open, pending } => open.len() == 0 && pending.event is None
                && pending.data.len() == 0,
            SplitState::Lines { open } => open.len() == 0,
        }),
        (match (p, stream_start(p).answer) {
            (AnyProvider::OpenAi(_), AnswerState::OpenAi(s)) => s.calls.len() == 0 && !s.done,
            (AnyProvider::Anthropic(_), AnswerState::Anthropic(s)) => s.blocks.len() == 0
                && s.input_tokens == 0 && s.output_tokens == 0 && !s.started && !s.done,
            (AnyProvider::Gemini(_), AnswerState::Gemini(done)) => !done,
            (AnyProvider::Ollama(_), AnswerState::Ollama(s)) => !s.done && !s.failed,
            _ => false,
        }),
{
}

/// What the caller is told says what the drafts say, with as many events.
pub proof fn drafts_are_told(st: AnswerState, drafts: Seq<ChatEventView>, es: Seq<ChatEventView>)
    requires
        st.told(drafts, es),
    ensures
        es.len() == drafts.len(),
        types::said(es) == types::said(drafts),
        forall|i: int|
            0 <= i < es.len() && !((#[trigger] es[i]) is ToolCall) ==> es[i] == drafts[i],
        forall|i: int|
            0 <= i < es.len() && (#[trigger] es[i]) is ToolCall ==> drafts[i] is ToolCall
                && es[i]->name == drafts[i]->name && es[i]->args_json == drafts[i]->args_json,
        st is OpenAi || st is Anthropic ==> es == drafts,
{
    if st is Gemini || st is Ollama {
        let prefix = if st is Gemini {
            "gemini-"@
        } else {
            "ollama-"@
        };
        ids::identifying_changes_identifiers_only(prefix, drafts, es);
        assert forall|i: int| 0 <= i < es.len() && (#[trigger] es[i]) is ToolCall implies drafts[i]
            is ToolCall && es[i]->name == drafts[i]->name && es[i]->args_json
            == drafts[i]->args_json by {
            assert(ids::identified(prefix, drafts[i], es[i]));
        }
        assert forall|i: int| 0 <= i < es.len() && !((#[trigger] es[i]) is ToolCall) implies es[i]
            == drafts[i] by {
            assert(ids::identified(prefix, drafts[i], es[i]));
        }
    }
}

} // verus!
