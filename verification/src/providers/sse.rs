//! Line and Server-Sent-Events decoding of a text stream that arrives in chunks.
use crate::text;
use vstd::prelude::*;
use vstd::string::*;

verus! {

/// Incremental line splitter. Feed string chunks; get back complete lines without
/// terminators. Handles `\n` and `\r\n`.
pub struct LineDecoder {
    buf: Vec<char>,
}

impl LineDecoder {
    /// The line that was begun and not yet ended.
    pub closed spec fn pending(self) -> Seq<char> {
        self.buf@
    }

    /// The pending text holds no line feed.
    pub open spec fn wf(self) -> bool {
        text::open_line(self.pending()) == self.pending()
    }

    /// A decoder that holds nothing.
    pub fn new() -> (r: Self)
        ensures
            r.wf(),
            r.pending() == Seq::<char>::empty(),
    {
        LineDecoder { buf: Vec::new() }
    }

    /// Feeds a chunk; returns the lines that it completes.
    pub fn push(&mut self, chunk: &str) -> (r: Vec<String>)
        requires
            old(self).wf(),
        ensures
            final(self).wf(),
            text::views(r@) == text::complete_lines(old(self).pending() + chunk@),
            final(self).pending() == text::open_line(old(self).pending() + chunk@),
    {
        let r = text::take_lines(&mut self.buf, chunk);
        proof {
            text::lemma_open_line_is_open(old(self).pending() + chunk@);
        }
        r
    }

    /// Flushes a trailing unterminated line, if any.
    pub fn finish(&mut self) -> (r: Option<String>)
        requires
            old(self).wf(),
        ensures
            final(self).wf(),
            final(self).pending() == Seq::<char>::empty(),
            text::opt_view(r) == (if old(self).pending().len() == 0 {
                None
            } else {
                Some(old(self).pending())
            }),
    {
        if self.buf.len() == 0 {
            assert(self.buf@ =~= Seq::<char>::empty());
            None
        } else {
            let line = text::string_of(&self.buf, 0, self.buf.len());
            assert(self.buf@.subrange(0, self.buf.len() as int) =~= self.buf@);
            self.buf.clear();
            Some(line)
        }
    }
}

impl Default for LineDecoder {
    fn default() -> (r: Self)
        ensures
            r.wf(),
            r.pending() == Seq::<char>::empty(),
    {
        LineDecoder::new()
    }
}

/// One parsed Server-Sent-Events block.
#[derive(Debug, Clone, PartialEq)]
pub struct SseEvent {
    pub event: Option<String>,
    pub data: String,
}

/// What an event holds.
#[verifier::ext_equal]
pub struct SseEventView {
    pub event: Option<Seq<char>>,
    pub data: Seq<char>,
}

impl SseEvent {
    pub open spec fn view(self) -> SseEventView {
        SseEventView { event: text::opt_view(self.event), data: self.data@ }
    }
}

/// What the events of a list hold.
pub open spec fn event_views(v: Seq<SseEvent>) -> Seq<SseEventView> {
    v.map_values(|e: SseEvent| e@)
}

/// The fields of an event that was begun and not yet dispatched.
#[verifier::ext_equal]
pub struct SsePending {
    pub event: Option<Seq<char>>,
    pub data: Seq<Seq<char>>,
}

impl SsePending {
    /// No field was seen.
    pub open spec fn none() -> SsePending {
        SsePending { event: None, data: Seq::empty() }
    }

    /// The event that a blank line dispatches: none, where no field was seen.
    pub open spec fn dispatched(self) -> Seq<SseEventView> {
        if self.event is None && self.data.len() == 0 {
            Seq::empty()
        } else {
            seq![SseEventView { event: self.event, data: text::joined(self.data, "\n"@) }]
        }
    }

    /// The value of the field `name`, where `line` has it: what follows the name, less one space.
    pub open spec fn field(line: Seq<char>, name: Seq<char>) -> Option<Seq<char>> {
        match text::without_prefix(line, name) {
            Some(v) => match text::without_prefix(v, " "@) {
                Some(w) => Some(w),
                None => Some(v),
            },
            None => None,
        }
    }

    /// The pending fields after one more line, and the event that this line dispatches.
    pub open spec fn line(self, line: Seq<char>) -> (SsePending, Seq<SseEventView>) {
        if line.len() == 0 {
            (SsePending::none(), self.dispatched())
        } else if line[0] == ':' {
            (self, Seq::empty())
        } else if let Some(data) = SsePending::field(line, "data:"@) {
            (SsePending { event: self.event, data: self.data.push(data) }, Seq::empty())
        } else if let Some(ev) = SsePending::field(line, "event:"@) {
            (SsePending { event: Some(ev), data: self.data }, Seq::empty())
        } else {
            (self, Seq::empty())
        }
    }

    /// The pending fields after the given lines, and the events that these dispatch.
    pub open spec fn lines(self, lines: Seq<Seq<char>>) -> (SsePending, Seq<SseEventView>)
        decreases lines.len(),
    {
        if lines.len() == 0 {
            (self, Seq::empty())
        } else {
            let (before, events) = self.lines(lines.drop_last());
            let (after, more) = before.line(lines.last());
            (after, events + more)
        }
    }
}

/// Feeding lines in two parts is feeding them at once.
pub proof fn lemma_sse_lines_concat(st: SsePending, a: Seq<Seq<char>>, b: Seq<Seq<char>>)
    ensures
        st.lines(a + b).0 == st.lines(a).0.lines(b).0,
        st.lines(a + b).1 == st.lines(a).1 + st.lines(a).0.lines(b).1,
    decreases b.len(),
{
    if b.len() == 0 {
        assert(a + b =~= a);
        assert(st.lines(a).1 + Seq::<SseEventView>::empty() =~= st.lines(a).1);
    } else {
        lemma_sse_lines_concat(st, a, b.drop_last());
        assert((a + b).drop_last() =~= a + b.drop_last());
        assert((a + b).last() == b.last());
        let more = st.lines(a + b.drop_last()).0.line(b.last()).1;
        assert(st.lines(a + b).1 =~= st.lines(a).1 + (st.lines(a).0.lines(b.drop_last()).1 + more));
    }
}

/// Incremental SSE parser built on [`LineDecoder`]. Events are dispatched on blank lines;
/// `:` comment lines and `id:`/`retry:` fields are ignored.
pub struct SseDecoder {
    lines: LineDecoder,
    cur_event: Option<String>,
    cur_data: Vec<String>,
}

impl SseDecoder {
    /// The line that was begun and not yet ended.
    pub closed spec fn open_line(self) -> Seq<char> {
        self.lines.pending()
    }

    /// The fields of the event that was begun and not yet dispatched.
    pub closed spec fn pending(self) -> SsePending {
        SsePending { event: text::opt_view(self.cur_event), data: text::views(self.cur_data@) }
    }

    /// The open line holds no line feed.
    pub open spec fn wf(self) -> bool {
        text::open_line(self.open_line()) == self.open_line()
    }

    /// A decoder that holds nothing.
    pub fn new() -> (r: Self)
        ensures
            r.wf(),
            r.open_line() == Seq::<char>::empty(),
            r.pending() == SsePending::none(),
    {
        let r = SseDecoder { lines: LineDecoder::new(), cur_event: None, cur_data: Vec::new() };
        assert(r.pending() =~= SsePending::none());
        r
    }

    /// Feeds a chunk; returns the events that it dispatches.
    pub fn push(&mut self, chunk: &str) -> (r: Vec<SseEvent>)
        requires
            old(self).wf(),
        ensures
            final(self).wf(),
            final(self).open_line() == text::open_line(old(self).open_line() + chunk@),
            final(self).pending() == old(self).pending().lines(
                text::complete_lines(old(self).open_line() + chunk@),
            ).0,
            event_views(r@) == old(self).pending().lines(
                text::complete_lines(old(self).open_line() + chunk@),
            ).1,
    {
        let mut out: Vec<SseEvent> = Vec::new();
        let lines = self.lines.push(chunk);
        let mut i: usize = 0;
        assert(event_views(out@) =~= Seq::<SseEventView>::empty());
        assert(self.pending() =~= old(self).pending());
        while i < lines.len()
            invariant
                i <= lines.len(),
                self.wf(),
                self.open_line() == text::open_line(old(self).open_line() + chunk@),
                self.pending() == old(self).pending().lines(text::views(lines@.take(i as int))).0,
                event_views(out@) == old(self).pending().lines(
                    text::views(lines@.take(i as int)),
                ).1,
            decreases lines.len() - i,
        {
            proof {
                let now = text::views(lines@.take(i + 1));
                assert(now.drop_last() =~= text::views(lines@.take(i as int)));
                assert(now.last() == lines@[i as int]@);
            }
            self.process_line(&lines[i], &mut out);
            i += 1;
        }
        assert(lines@.take(lines.len() as int) =~= lines@);
        out
    }

    /// Ends the stream: a trailing unterminated line counts as a line, and what is pending is
    /// dispatched.
    pub fn finish(&mut self) -> (r: Vec<SseEvent>)
        requires
            old(self).wf(),
        ensures
            final(self).wf(),
            final(self).open_line() == Seq::<char>::empty(),
            final(self).pending() == SsePending::none(),
            event_views(r@) == (if old(self).open_line().len() == 0 {
                old(self).pending().dispatched()
            } else {
                old(self).pending().line(old(self).open_line()).1
                    + old(self).pending().line(old(self).open_line()).0.dispatched()
            }),
    {
        let mut out: Vec<SseEvent> = Vec::new();
        assert(event_views(out@) =~= Seq::<SseEventView>::empty());
        let tail = self.lines.finish();
        assert(self.pending() =~= old(self).pending());
        if let Some(line) = tail {
            self.process_line(&line, &mut out);
        }
        self.dispatch(&mut out);
        out
    }

    /// Takes one line in.
    pub fn process_line(&mut self, line: &String, out: &mut Vec<SseEvent>)
        ensures
            final(self).open_line() == old(self).open_line(),
            final(self).pending() == old(self).pending().line(line@).0,
            event_views(final(out)@) == event_views(old(out)@) + old(self).pending().line(line@).1,
    {
        let cs = text::chars_of(line.as_str());
        assert(event_views(out@) + Seq::<SseEventView>::empty() =~= event_views(out@));
        if cs.len() == 0 {
            self.dispatch(out);
        } else if cs[0] == ':' {
        } else if let Some(data) = field_value(line.as_str(), "data:") {
            proof {
                text::lemma_views_push(self.cur_data@, data);
            }
            self.cur_data.push(data);
        } else if let Some(ev) = field_value(line.as_str(), "event:") {
            self.cur_event = Some(ev);
        }
    }

    /// Dispatches the pending event, if there is one.
    pub fn dispatch(&mut self, out: &mut Vec<SseEvent>)
        ensures
            final(self).open_line() == old(self).open_line(),
            final(self).pending() == SsePending::none(),
            event_views(final(out)@) == event_views(old(out)@) + old(self).pending().dispatched(),
    {
        if self.cur_data.len() == 0 && self.cur_event.is_none() {
            assert(self.pending() =~= SsePending::none());
            assert(event_views(out@) + Seq::<SseEventView>::empty() =~= event_views(out@));
            return ;
        }
        let data = text::join(&self.cur_data, "\n");
        let event = self.cur_event.take();
        self.cur_data.clear();
        let ev = SseEvent { event, data };
        out.push(ev);
        assert(self.pending() =~= SsePending::none());
        assert(event_views(out@) =~= event_views(old(out)@) + old(self).pending().dispatched());
    }
}

impl Default for SseDecoder {
    fn default() -> (r: Self)
        ensures
            r.wf(),
            r.open_line() == Seq::<char>::empty(),
            r.pending() == SsePending::none(),
    {
        SseDecoder::new()
    }
}

/// The value of the field `name`, where `line` has it: what follows the name, less one space.
fn field_value(line: &str, name: &str) -> (r: Option<String>)
    ensures
        text::opt_view(r) == SsePending::field(line@, name@),
{
    match text::strip_prefix(line, name) {
        Some(v) => match text::strip_prefix(v.as_str(), " ") {
            Some(w) => Some(w),
            None => Some(v),
        },
        None => None,
    }
}

/// However a stream is cut into chunks, the lines are the same: feeding `a` and then `b` to a
/// line decoder gives the lines of `a + b`, and leaves the same text pending.
pub proof fn lines_do_not_depend_on_chunks(pending: Seq<char>, a: Seq<char>, b: Seq<char>)
    ensures
        text::complete_lines(pending + (a + b)) == text::complete_lines(pending + a)
            + text::complete_lines(text::open_line(pending + a) + b),
        text::open_line(pending + (a + b)) == text::open_line(text::open_line(pending + a) + b),
{
    assert(pending + (a + b) =~= (pending + a) + b);
    text::lemma_lines_concat(pending + a, b);
}

/// However a stream is cut into chunks, the events are the same: feeding `a` and then `b` to an
/// SSE decoder dispatches the events of `a + b`, and leaves the same fields pending.
pub proof fn events_do_not_depend_on_chunks(
    open: Seq<char>,
    st: SsePending,
    a: Seq<char>,
    b: Seq<char>,
)
    ensures
        ({
            let first = st.lines(text::complete_lines(open + a));
            let second = first.0.lines(text::complete_lines(text::open_line(open + a) + b));
            let whole = st.lines(text::complete_lines(open + (a + b)));
            &&& whole.0 == second.0
            &&& whole.1 == first.1 + second.1
        }),
{
    lines_do_not_depend_on_chunks(open, a, b);
    lemma_sse_lines_concat(
        st,
        text::complete_lines(open + a),
        text::complete_lines(text::open_line(open + a) + b),
    );
}

/// A line adds the field that it names, as it stands behind the name and one space that may be
/// there; a blank line dispatches the event with its name and all of its data, one per line, where
/// there is any of it; comments and other fields do nothing.
pub proof fn fields_are_taken_as_they_stand(st: SsePending, v: Seq<char>, line: Seq<char>)
    ensures
        st.line("data: "@ + v) == (
            SsePending { event: st.event, data: st.data.push(v) },
            Seq::<SseEventView>::empty(),
        ),
        st.line("event: "@ + v) == (
            SsePending { event: Some(v), data: st.data },
            Seq::<SseEventView>::empty(),
        ),
        v.len() == 0 || v[0] != ' ' ==> st.line("data:"@ + v) == (
            SsePending { event: st.event, data: st.data.push(v) },
            Seq::<SseEventView>::empty(),
        ),
        v.len() == 0 || v[0] != ' ' ==> st.line("event:"@ + v) == (
            SsePending { event: Some(v), data: st.data },
            Seq::<SseEventView>::empty(),
        ),
        st.line(Seq::empty()).0 == (SsePending { event: None, data: Seq::empty() }),
        st.event is None && st.data.len() == 0 ==> st.line(Seq::empty()).1.len() == 0,
        st.event is Some || st.data.len() > 0 ==> st.line(Seq::empty()).1 == seq![
            SseEventView { event: st.event, data: text::joined(st.data, seq!['\n']) },
        ],
        line.len() > 0 && (line[0] == ':' || !"data:"@.is_prefix_of(line)
            && !"event:"@.is_prefix_of(line)) ==> st.line(line) == (
            st,
            Seq::<SseEventView>::empty(),
        ),
        SsePending::none() == (SsePending { event: None, data: Seq::empty() }),
{
    reveal_strlit("data: ");
    reveal_strlit("event: ");
    reveal_strlit("data:");
    reveal_strlit("event:");
    reveal_strlit(" ");
    reveal_strlit("\n");
    assert("\n"@ =~= seq!['\n']);
    assert("data: "@ =~= "data:"@ + " "@);
    assert("event: "@ =~= "event:"@ + " "@);
    assert("data:"@[0] == 'd' && "event:"@[0] == 'e');
    let d = "data: "@ + v;
    let e = "event: "@ + v;
    assert(d.skip(5) =~= " "@ + v);
    assert(e.skip(6) =~= " "@ + v);
    assert((" "@ + v).skip(1) =~= v);
    assert(d.take(5) =~= "data:"@);
    assert(e.take(6) =~= "event:"@);
    assert((" "@ + v).take(1) =~= " "@);
    let d2 = "data:"@ + v;
    let e2 = "event:"@ + v;
    assert(d2.skip(5) =~= v && d2.take(5) =~= "data:"@);
    assert(e2.skip(6) =~= v && e2.take(6) =~= "event:"@);
    assert(" "@[0] == ' ');
    assert(d[0] == 'd' && d2[0] == 'd' && e[0] == 'e' && e2[0] == 'e');
}

proof fn lemma_data_lines(st: SsePending, data: Seq<Seq<char>>)
    ensures
        st.lines(data.map_values(|d: Seq<char>| "data: "@ + d)) == (
            SsePending { event: st.event, data: st.data + data },
            Seq::<SseEventView>::empty(),
        ),
    decreases data.len(),
{
    let f = |d: Seq<char>| "data: "@ + d;
    let lines = data.map_values(f);
    if data.len() == 0 {
        assert(st.data + data =~= st.data);
        assert(SsePending { event: st.event, data: st.data + data } =~= st);
    } else {
        lemma_data_lines(st, data.drop_last());
        assert(lines.drop_last() =~= data.drop_last().map_values(f));
        assert(lines.last() == "data: "@ + data.last());
        let before = st.lines(lines.drop_last()).0;
        fields_are_taken_as_they_stand(before, data.last(), Seq::empty());
        assert((st.data + data.drop_last()).push(data.last()) =~= st.data + data);
    }
}

/// An event is read as it was written: its name on one line, each line of its data on one, and a
/// blank line at the end give one event with that name and those data, and leave nothing pending.
pub proof fn event_is_read_as_written(name: Seq<char>, data: Seq<Seq<char>>)
    ensures
        SsePending::none().lines(
            seq!["event: "@ + name] + data.map_values(|d: Seq<char>| "data: "@ + d)
                + seq![Seq::<char>::empty()],
        ) == (
            SsePending::none(),
            seq![SseEventView { event: Some(name), data: text::joined(data, seq!['\n']) }],
        ),
{
    let first = seq!["event: "@ + name];
    let rest = data.map_values(|d: Seq<char>| "data: "@ + d);
    let end = seq![Seq::<char>::empty()];
    let none = SsePending::none();
    reveal_with_fuel(SsePending::lines, 2);
    fields_are_taken_as_they_stand(none, name, Seq::empty());
    assert(first.drop_last() =~= Seq::<Seq<char>>::empty());
    assert(first.last() == "event: "@ + name);
    let st = none.lines(first).0;
    assert(none.lines(first).1 =~= Seq::<SseEventView>::empty());
    lemma_data_lines(st, data);
    assert(st.data + data =~= data);
    lemma_sse_lines_concat(none, first, rest);
    let both = st.lines(rest).0;
    fields_are_taken_as_they_stand(both, name, Seq::empty());
    assert(end.drop_last() =~= Seq::<Seq<char>>::empty());
    assert(end.last() == Seq::<char>::empty());
    lemma_sse_lines_concat(none, first + rest, end);
    assert(none.lines(first + rest).1 =~= Seq::<SseEventView>::empty());
    assert(both.lines(end).1 =~= both.line(Seq::empty()).1);
    assert(none.lines(first + rest + end).1 =~= both.line(Seq::empty()).1);
}

/// The lines are taken one after the other.
pub proof fn lines_are_taken_in_order(st: SsePending, lines: Seq<Seq<char>>, line: Seq<char>)
    ensures
        st.lines(Seq::empty()) == (st, Seq::<SseEventView>::empty()),
        st.lines(lines.push(line)).0 == st.lines(lines).0.line(line).0,
        st.lines(lines.push(line)).1 == st.lines(lines).1 + st.lines(lines).0.line(line).1,
{
    assert(lines.push(line).drop_last() =~= lines);
}

} // verus!
