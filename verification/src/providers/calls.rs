//! Tool calls that arrive in pieces, each under the index that its pieces carry.
use crate::types::{ChatEvent, ChatEventView};
use crate::{text, types};
use vstd::prelude::*;
use vstd::string::*;

verus! {

/// What has arrived of one tool call.
pub struct CallBuf {
    pub id: String,
    pub name: String,
    pub args: String,
}

/// What has arrived of one tool call.
#[verifier::ext_equal]
pub struct CallView {
    pub id: Seq<char>,
    pub name: Seq<char>,
    pub args: Seq<char>,
}

impl CallView {
    /// Nothing has arrived.
    pub open spec fn none() -> CallView {
        CallView { id: Seq::empty(), name: Seq::empty(), args: Seq::empty() }
    }

    /// The complete call as an event.
    pub open spec fn event(self) -> ChatEventView {
        ChatEventView::ToolCall { id: self.id, name: self.name, args_json: self.args }
    }
}

impl CallBuf {
    pub open spec fn view(self) -> CallView {
        CallView { id: self.id@, name: self.name@, args: self.args@ }
    }

    /// Nothing has arrived.
    pub fn new() -> (r: CallBuf)
        ensures
            r@ == CallView::none(),
    {
        CallBuf { id: String::new(), name: String::new(), args: String::new() }
    }

    /// An equal buffer.
    pub fn copy(&self) -> (r: CallBuf)
        ensures
            r@ == self@,
    {
        CallBuf { id: self.id.clone(), name: self.name.clone(), args: self.args.clone() }
    }
}

/// The indices increase.
pub open spec fn ordered(s: Seq<(u64, CallView)>) -> bool {
    forall|i: int, j: int| 0 <= i < j < s.len() ==> (#[trigger] s[i]).0 < (#[trigger] s[j]).0
}

/// The call under an index, where there is one.
pub open spec fn slot(s: Seq<(u64, CallView)>, k: u64) -> Option<CallView>
    decreases s.len(),
{
    if s.len() == 0 {
        None
    } else if s[0].0 == k {
        Some(s[0].1)
    } else {
        slot(s.drop_first(), k)
    }
}

/// The calls with the one under an index set: it replaces the call there, or goes before the
/// first call with a greater index.
pub open spec fn slot_set(s: Seq<(u64, CallView)>, k: u64, v: CallView) -> Seq<(u64, CallView)>
    decreases s.len(),
{
    if s.len() == 0 {
        seq![(k, v)]
    } else if s[0].0 == k {
        seq![(k, v)] + s.drop_first()
    } else if s[0].0 > k {
        seq![(k, v)] + s
    } else {
        seq![s[0]] + slot_set(s.drop_first(), k, v)
    }
}

/// The calls without the one under an index.
pub open spec fn slot_removed(s: Seq<(u64, CallView)>, k: u64) -> Seq<(u64, CallView)> {
    s.filter(|e: (u64, CallView)| e.0 != k)
}

/// The calls as events, in the order of their indices.
pub open spec fn call_events(s: Seq<(u64, CallView)>) -> Seq<ChatEventView> {
    s.map_values(|e: (u64, CallView)| e.1.event())
}

/// Where `k` belongs in a list of calls: behind `p` smaller indices, before none.
spec fn place(s: Seq<(u64, CallView)>, k: u64, p: int) -> bool {
    &&& 0 <= p <= s.len()
    &&& forall|i: int| 0 <= i < p ==> (#[trigger] s[i]).0 < k
    &&& forall|i: int| p <= i < s.len() ==> (#[trigger] s[i]).0 >= k
}

proof fn lemma_place(s: Seq<(u64, CallView)>, k: u64, v: CallView, p: int)
    requires
        ordered(s),
        place(s, k, p),
    ensures
        slot(s, k) == (if p < s.len() && s[p].0 == k {
            Some(s[p].1)
        } else {
            None
        }),
        slot_set(s, k, v) == (if p < s.len() && s[p].0 == k {
            s.update(p, (k, v))
        } else {
            s.insert(p, (k, v))
        }),
    decreases s.len(),
{
    if s.len() == 0 {
        assert(slot_set(s, k, v) =~= s.insert(p, (k, v)));
    } else if p == 0 {
        if s[0].0 == k {
            assert(slot_set(s, k, v) =~= s.update(p, (k, v)));
        } else {
            assert(slot_set(s, k, v) =~= s.insert(p, (k, v)));
            let t = s.drop_first();
            assert forall|i: int| 0 <= i < t.len() implies (#[trigger] t[i]).0 >= k by {
                assert(t[i] == s[i + 1]);
            }
            assert(ordered(t)) by {
                assert forall|i: int, j: int| 0 <= i < j < t.len() implies (#[trigger] t[i]).0 < (
                #[trigger] t[j]).0 by {
                    assert(t[i] == s[i + 1] && t[j] == s[j + 1]);
                }
            }
            lemma_place(t, k, v, 0);
            assert(t.len() > 0 ==> s[0].0 < s[1].0 && t[0] == s[1]);
        }
    } else {
        let t = s.drop_first();
        assert(ordered(t)) by {
            assert forall|i: int, j: int| 0 <= i < j < t.len() implies (#[trigger] t[i]).0 < (
            #[trigger] t[j]).0 by {
                assert(t[i] == s[i + 1] && t[j] == s[j + 1]);
            }
        }
        assert(place(t, k, p - 1)) by {
            assert forall|i: int| 0 <= i < p - 1 implies (#[trigger] t[i]).0 < k by {
                assert(t[i] == s[i + 1]);
            }
            assert forall|i: int| p - 1 <= i < t.len() implies (#[trigger] t[i]).0 >= k by {
                assert(t[i] == s[i + 1]);
            }
        }
        lemma_place(t, k, v, p - 1);
        assert(s[0].0 < k);
        if p < s.len() && s[p].0 == k {
            assert(slot_set(s, k, v) =~= s.update(p, (k, v)));
        } else {
            assert(slot_set(s, k, v) =~= s.insert(p, (k, v)));
        }
    }
}

/// Tool calls under assembly.
pub struct Calls {
    entries: Vec<(u64, CallBuf)>,
}

impl Calls {
    pub closed spec fn view(self) -> Seq<(u64, CallView)> {
        self.entries@.map_values(|e: (u64, CallBuf)| (e.0, e.1@))
    }

    /// The indices increase.
    pub open spec fn wf(self) -> bool {
        ordered(self@)
    }

    /// No calls.
    pub fn new() -> (r: Calls)
        ensures
            r.wf(),
            r@ == Seq::<(u64, CallView)>::empty(),
    {
        let r = Calls { entries: Vec::new() };
        assert(r@ =~= Seq::<(u64, CallView)>::empty());
        r
    }

    fn find(&self, k: u64) -> (p: usize)
        requires
            self.wf(),
        ensures
            place(self@, k, p as int),
            p <= self.entries.len(),
    {
        let mut p: usize = 0;
        while p < self.entries.len() && self.entries[p].0 < k
            invariant
                p <= self.entries.len(),
                forall|i: int| 0 <= i < p ==> (#[trigger] self@[i]).0 < k,
            decreases self.entries.len() - p,
        {
            assert(self@[p as int].0 < k);
            p += 1;
        }
        assert forall|i: int| p <= i < self@.len() implies (#[trigger] self@[i]).0 >= k by {
            assert(self@[p as int].0 >= k);
        }
        p
    }

    /// The call under an index, where there is one.
    pub fn get(&self, k: u64) -> (r: Option<CallBuf>)
        requires
            self.wf(),
        ensures
            match r {
                Some(c) => slot(self@, k) == Some(c@),
                None => slot(self@, k) is None,
            },
    {
        let p = self.find(k);
        proof {
            lemma_place(self@, k, CallView::none(), p as int);
        }
        if p < self.entries.len() && self.entries[p].0 == k {
            Some(self.entries[p].1.copy())
        } else {
            None
        }
    }

    /// Sets the call under an index.
    pub fn set(&mut self, k: u64, v: CallBuf)
        requires
            old(self).wf(),
        ensures
            final(self).wf(),
            final(self)@ == slot_set(old(self)@, k, v@),
    {
        let p = self.find(k);
        let ghost before = self@;
        proof {
            lemma_place(before, k, v@, p as int);
        }
        if p < self.entries.len() && self.entries[p].0 == k {
            self.entries.set(p, (k, v));
            assert(self@ =~= before.update(p as int, (k, v@)));
        } else {
            self.entries.insert(p, (k, v));
            assert(self@ =~= before.insert(p as int, (k, v@)));
        }
        proof {
            assert forall|i: int, j: int| 0 <= i < j < self@.len() implies (#[trigger] self@[i]).0
                < (#[trigger] self@[j]).0 by {
                if self@.len() == before.len() {
                    assert(before[i].0 < before[j].0);
                } else {
                    if i < p {
                        assert(before[i] == self@[i]);
                    } else if i > p {
                        assert(before[i - 1] == self@[i]);
                    }
                    if j < p {
                        assert(before[j] == self@[j]);
                    } else if j > p {
                        assert(before[j - 1] == self@[j]);
                    }
                }
            }
        }
    }

    /// Removes and returns the call under an index.
    pub fn remove(&mut self, k: u64) -> (r: Option<CallBuf>)
        requires
            old(self).wf(),
        ensures
            final(self).wf(),
            final(self)@ == slot_removed(old(self)@, k),
            match r {
                Some(c) => slot(old(self)@, k) == Some(c@),
                None => slot(old(self)@, k) is None,
            },
    {
        let p = self.find(k);
        let ghost before = self@;
        proof {
            lemma_place(before, k, CallView::none(), p as int);
        }
        if p < self.entries.len() && self.entries[p].0 == k {
            let (_, c) = self.entries.remove(p);
            proof {
                assert(self@ =~= before.remove(p as int));
                lemma_removed(before, k, p as int);
                assert forall|i: int, j: int| 0 <= i < j < self@.len() implies (
                #[trigger] self@[i]).0 < (#[trigger] self@[j]).0 by {
                    let a = if i < p { i } else { i + 1 };
                    let b = if j < p { j } else { j + 1 };
                    assert(before[a].0 < before[b].0);
                }
            }
            Some(c)
        } else {
            proof {
                lemma_not_removed(before, k, p as int);
            }
            None
        }
    }

    /// Removes all calls, and returns them as events in the order of their indices.
    pub fn flush(&mut self) -> (r: Vec<ChatEvent>)
        ensures
            final(self).wf(),
            final(self)@ == Seq::<(u64, CallView)>::empty(),
            types::chat_views(r@) == call_events(old(self)@),
    {
        let mut out: Vec<ChatEvent> = Vec::new();
        let mut i: usize = 0;
        while i < self.entries.len()
            invariant
                i <= self.entries.len(),
                *self == *old(self),
                types::chat_views(out@) =~= call_events(self@).take(i as int),
            decreases self.entries.len() - i,
        {
            let c = self.entries[i].1.copy();
            let e = ChatEvent::ToolCall { id: c.id, name: c.name, args_json: c.args };
            proof {
                types::lemma_chat_views_push(out@, e);
                assert(call_events(self@)[i as int] == e@);
            }
            out.push(e);
            i += 1;
        }
        self.entries.clear();
        assert(self@ =~= Seq::<(u64, CallView)>::empty());
        out
    }
}

proof fn lemma_not_removed(s: Seq<(u64, CallView)>, k: u64, p: int)
    requires
        ordered(s),
        place(s, k, p),
        p < s.len() ==> s[p].0 != k,
    ensures
        slot_removed(s, k) == s,
{
    assert forall|i: int| 0 <= i < s.len() implies (#[trigger] s[i]).0 != k by {
        if i > p {
            assert(s[p].0 < s[i].0);
        }
    }
    lemma_filter_all(s, k);
}

proof fn lemma_filter_all(s: Seq<(u64, CallView)>, k: u64)
    requires
        forall|i: int| 0 <= i < s.len() ==> (#[trigger] s[i]).0 != k,
    ensures
        slot_removed(s, k) == s,
    decreases s.len(),
{
    reveal(Seq::filter);
    if s.len() > 0 {
        let t = s.drop_last();
        assert forall|i: int| 0 <= i < t.len() implies (#[trigger] t[i]).0 != k by {
            assert(t[i] == s[i]);
        }
        lemma_filter_all(t, k);
        assert(t.push(s.last()) =~= s);
    }
}

proof fn lemma_removed(s: Seq<(u64, CallView)>, k: u64, p: int)
    requires
        ordered(s),
        0 <= p < s.len(),
        s[p].0 == k,
    ensures
        slot_removed(s, k) == s.remove(p),
    decreases s.len(),
{
    reveal(Seq::filter);
    let t = s.drop_last();
    assert forall|i: int, j: int| 0 <= i < j < t.len() implies (#[trigger] t[i]).0 < (
    #[trigger] t[j]).0 by {
        assert(t[i] == s[i] && t[j] == s[j]);
    }
    if p == s.len() - 1 {
        assert forall|i: int| 0 <= i < t.len() implies (#[trigger] t[i]).0 != k by {
            assert(s[i].0 < s[p].0);
        }
        lemma_filter_all(t, k);
        assert(s.remove(p) =~= t);
    } else {
        assert(s[p].0 < s[s.len() - 1].0);
        lemma_removed(t, k, p);
        assert(s.remove(p) =~= t.remove(p).push(s.last()));
    }
}

proof fn lemma_slot_set_bound(s: Seq<(u64, CallView)>, k: u64, v: CallView, low: u64)
    requires
        low < k,
        forall|i: int| 0 <= i < s.len() ==> low < (#[trigger] s[i]).0,
    ensures
        forall|i: int|
            0 <= i < slot_set(s, k, v).len() ==> low < (#[trigger] slot_set(s, k, v)[i]).0,
    decreases s.len(),
{
    if s.len() > 0 && s[0].0 < k {
        let t = s.drop_first();
        assert forall|i: int| 0 <= i < t.len() implies low < (#[trigger] t[i]).0 by {
            assert(t[i] == s[i + 1]);
        }
        lemma_slot_set_bound(t, k, v, low);
        assert forall|i: int| 0 <= i < slot_set(s, k, v).len() implies low < (
        #[trigger] slot_set(s, k, v)[i]).0 by {
            if i > 0 {
                assert(slot_set(s, k, v)[i] == slot_set(t, k, v)[i - 1]);
            }
        }
    }
}

/// Setting a call leaves the others, and keeps the order of the indices.
pub proof fn lemma_slot_set(s: Seq<(u64, CallView)>, k: u64, v: CallView)
    ensures
        ordered(s) ==> ordered(slot_set(s, k, v)),
        forall|j: u64|
            #![trigger slot(slot_set(s, k, v), j)]
            slot(slot_set(s, k, v), j) == (if j == k {
                Some(v)
            } else {
                slot(s, j)
            }),
    decreases s.len(),
{
    let r = slot_set(s, k, v);
    if s.len() == 0 {
        assert(r.drop_first() =~= s);
    } else if s[0].0 == k {
        assert(r.drop_first() =~= s.drop_first());
    } else if s[0].0 > k {
        assert(r.drop_first() =~= s);
    } else {
        let t = s.drop_first();
        lemma_slot_set(t, k, v);
        assert(r.drop_first() =~= slot_set(t, k, v));
    }
    if ordered(s) && s.len() > 0 && s[0].0 < k {
        let t = s.drop_first();
        assert forall|i: int, j: int| 0 <= i < j < t.len() implies (#[trigger] t[i]).0 < (
        #[trigger] t[j]).0 by {
            assert(t[i] == s[i + 1] && t[j] == s[j + 1]);
        }
        assert forall|i: int| 0 <= i < t.len() implies s[0].0 < (#[trigger] t[i]).0 by {
            assert(t[i] == s[i + 1]);
        }
        lemma_slot_set_bound(t, k, v, s[0].0);
        assert forall|i: int, j: int| 0 <= i < j < r.len() implies (#[trigger] r[i]).0 < (
        #[trigger] r[j]).0 by {
            assert(r[j] == slot_set(t, k, v)[j - 1]);
            if i > 0 {
                assert(r[i] == slot_set(t, k, v)[i - 1]);
            }
        }
    } else if ordered(s) {
        assert forall|i: int, j: int| 0 <= i < j < r.len() implies (#[trigger] r[i]).0 < (
        #[trigger] r[j]).0 by {
            if r.len() == s.len() {
                assert(s[i].0 < s[j].0);
            } else if s.len() > 0 {
                assert(r[j] == s[j - 1]);
                if i > 0 {
                    assert(r[i] == s[i - 1]);
                } else if j > 1 {
                    assert(s[0].0 < s[j - 1].0);
                }
            }
        }
    }
}

/// The call under an index is the one that stands with it; the first, where more do.
pub proof fn call_stands_under_its_index(s: Seq<(u64, CallView)>, k: u64)
    ensures
        slot(s, k) is None <==> (forall|i: int| 0 <= i < s.len() ==> (#[trigger] s[i]).0 != k),
        slot(s, k) matches Some(c) ==> s.contains((k, c)),
        forall|i: int|
            ordered(s) && 0 <= i < s.len() && (#[trigger] s[i]).0 == k ==> slot(s, k) == Some(
                s[i].1,
            ),
    decreases s.len(),
{
    if s.len() > 0 {
        let t = s.drop_first();
        call_stands_under_its_index(t, k);
        assert forall|i: int| 0 <= i < t.len() implies #[trigger] t[i] == s[i + 1] by {}
        if s[0].0 == k {
            assert(s[0] == (k, s[0].1));
            assert(s.contains(s[0]));
        } else if slot(t, k) is Some {
            let c = slot(t, k)->0;
            let i = choose|i: int| 0 <= i < t.len() && t[i] == (k, c);
            assert(s[i + 1] == (k, c));
        } else {
            assert forall|i: int| 0 <= i < s.len() implies (#[trigger] s[i]).0 != k by {
                if i > 0 {
                    assert(t[i - 1] == s[i]);
                }
            }
        }
        if ordered(s) {
            assert forall|i: int, j: int| 0 <= i < j < t.len() implies (#[trigger] t[i]).0 < (
            #[trigger] t[j]).0 by {
                assert(t[i] == s[i + 1] && t[j] == s[j + 1]);
            }
            assert forall|i: int| 0 <= i < s.len() && (#[trigger] s[i]).0 == k implies slot(s, k)
                == Some(s[i].1) by {
                if i > 0 {
                    assert(s[0].0 < s[i].0);
                    assert(t[i - 1] == s[i]);
                }
            }
        }
    }
}

/// Removing a call leaves every other one in its place.
pub proof fn other_calls_stay(s: Seq<(u64, CallView)>, k: u64, i: int)
    requires
        ordered(s),
    ensures
        slot(s, k) is None ==> slot_removed(s, k) == s,
        0 <= i < s.len() && s[i].0 == k ==> slot_removed(s, k) == s.take(i) + s.skip(i + 1),
{
    call_stands_under_its_index(s, k);
    if slot(s, k) is None {
        lemma_filter_all(s, k);
    }
    if 0 <= i < s.len() && s[i].0 == k {
        lemma_removed(s, k, i);
        assert(s.remove(i) =~= s.take(i) + s.skip(i + 1));
    }
}

/// Each call comes out with its identifier, its name and all of its arguments, in the order of the
/// indices; one of which nothing has arrived has none of them.
pub proof fn calls_come_out_whole(s: Seq<(u64, CallView)>, i: int)
    requires
        0 <= i < s.len(),
    ensures
        call_events(s).len() == s.len(),
        call_events(s)[i] == (ChatEventView::ToolCall {
            id: s[i].1.id,
            name: s[i].1.name,
            args_json: s[i].1.args,
        }),
        CallView::none().id.len() == 0 && CallView::none().name.len() == 0
            && CallView::none().args.len() == 0,
{
}

} // verus!
