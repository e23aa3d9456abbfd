//! The agents that run, one per conversation, and what precedes a run.
use crate::approvals::ExternalPolicy;
use crate::error::{Error, ErrorView};
use crate::tools::ToolInfo;
use crate::{approvals, text, tools};
use vstd::prelude::*;
use vstd::string::*;

verus! {

/// What runs, by conversation. A conversation has at most one agent.
pub struct Registry<T> {
    entries: Vec<(String, T)>,
}

/// What the entries of a list hold, by conversation.
pub open spec fn entry_map<T>(v: Seq<(String, T)>) -> Map<Seq<char>, T>
    decreases v.len(),
{
    if v.len() == 0 {
        Map::empty()
    } else {
        entry_map(v.drop_last()).insert(v.last().0@, v.last().1)
    }
}

/// Whether no two entries are of the same conversation.
pub open spec fn distinct<T>(v: Seq<(String, T)>) -> bool {
    forall|i: int, j: int| 0 <= i < j < v.len() ==> (#[trigger] v[i]).0@ != (#[trigger] v[j]).0@
}

proof fn lemma_entry<T>(v: Seq<(String, T)>, i: int)
    requires
        distinct(v),
        0 <= i < v.len(),
    ensures
        entry_map(v).contains_key(v[i].0@),
        entry_map(v)[v[i].0@] == v[i].1,
    decreases v.len(),
{
    if i < v.len() - 1 {
        assert(distinct(v.drop_last()));
        lemma_entry(v.drop_last(), i);
        assert(v[i].0@ != v[v.len() - 1].0@);
    }
}

proof fn lemma_no_entry<T>(v: Seq<(String, T)>, id: Seq<char>)
    requires
        forall|i: int| 0 <= i < v.len() ==> (#[trigger] v[i]).0@ != id,
    ensures
        !entry_map(v).contains_key(id),
    decreases v.len(),
{
    if v.len() > 0 {
        let t = v.drop_last();
        assert forall|i: int| 0 <= i < t.len() implies (#[trigger] t[i]).0@ != id by {
            assert(t[i] == v[i]);
        }
        lemma_no_entry(t, id);
        assert(v[v.len() - 1].0@ != id);
    }
}

proof fn lemma_entry_removed<T>(v: Seq<(String, T)>, i: int)
    requires
        distinct(v),
        0 <= i < v.len(),
    ensures
        entry_map(v.remove(i)) == entry_map(v).remove(v[i].0@),
    decreases v.len(),
{
    let t = v.drop_last();
    let id = v[i].0@;
    if i == v.len() - 1 {
        assert(v.remove(i) =~= t);
        assert forall|k: int| 0 <= k < t.len() implies (#[trigger] t[k]).0@ != id by {
            assert(v[k].0@ != v[i].0@);
        }
        lemma_no_entry(t, id);
        assert(entry_map(t) =~= entry_map(v).remove(id));
    } else {
        assert(distinct(t));
        lemma_entry_removed(t, i);
        assert(v.remove(i).drop_last() =~= t.remove(i));
        assert(v[i].0@ != v[v.len() - 1].0@);
        assert(entry_map(v.remove(i)) =~= entry_map(v).remove(id));
    }
}

impl<T> Registry<T> {
    /// What runs, by conversation.
    pub closed spec fn view(self) -> Map<Seq<char>, T> {
        entry_map(self.entries@)
    }

    /// No conversation has two agents.
    pub closed spec fn wf(self) -> bool {
        distinct(self.entries@)
    }

    /// Nothing runs.
    pub fn new() -> (r: Self)
        ensures
            r.wf(),
            r@ == Map::<Seq<char>, T>::empty(),
    {
        Registry { entries: Vec::new() }
    }

    fn find(&self, id: &str) -> (r: Option<usize>)
        requires
            self.wf(),
        ensures
            self@.contains_key(id@) <==> r is Some,
            match r {
                Some(i) => i < self.entries.len() && self.entries@[i as int].0@ == id@
                    && self.entries@[i as int].1 == self@[id@],
                None => forall|k: int|
                    0 <= k < self.entries.len() ==> (#[trigger] self.entries@[k]).0@ != id@,
            },
    {
        let mut i: usize = 0;
        while i < self.entries.len()
            invariant
                i <= self.entries.len(),
                self.wf(),
                forall|k: int| 0 <= k < i ==> (#[trigger] self.entries@[k]).0@ != id@,
            decreases self.entries.len() - i,
        {
            if text::str_eq(self.entries[i].0.as_str(), id) {
                proof {
                    lemma_entry(self.entries@, i as int);
                }
                return Some(i);
            }
            i += 1;
        }
        proof {
            lemma_no_entry(self.entries@, id@);
        }
        None
    }

    /// Reserves a conversation for an agent; refused where one runs already.
    pub fn reserve(&mut self, id: &str, agent: T) -> (r: Result<(), Error>)
        requires
            old(self).wf(),
        ensures
            final(self).wf(),
            r is Err <==> old(self)@.contains_key(id@),
            match r {
                Ok(_) => final(self)@ == old(self)@.insert(id@, agent),
                Err(e) => final(self)@ == old(self)@ && e@ == ErrorView::Tool(
                    "an agent is already running in this conversation"@,
                ),
            },
    {
        if self.find(id).is_some() {
            return Err(
                Error::Tool("an agent is already running in this conversation".to_owned()),
            );
        }
        let e = (id.to_owned(), agent);
        assert(self.entries@.push(e).drop_last() =~= self.entries@);
        self.entries.push(e);
        Ok(())
    }

    /// The agent of a conversation; an error where none runs.
    pub fn get(&self, id: &str) -> (r: Result<&T, Error>)
        requires
            self.wf(),
        ensures
            match r {
                Ok(a) => self@.contains_key(id@) && *a == self@[id@],
                Err(e) => !self@.contains_key(id@) && e@ == ErrorView::Tool(
                    "no agent running in this conversation"@,
                ),
            },
    {
        match self.find(id) {
            Some(i) => Ok(&self.entries[i].1),
            None => Err(Error::Tool("no agent running in this conversation".to_owned())),
        }
    }

    /// Frees a conversation, if an agent runs in it.
    pub fn release(&mut self, id: &str)
        requires
            old(self).wf(),
        ensures
            final(self).wf(),
            final(self)@ == old(self)@.remove(id@),
    {
        if let Some(i) = self.find(id) {
            proof {
                lemma_entry_removed(self.entries@, i as int);
            }
            let _ = self.entries.remove(i);
        } else {
            assert(self@.remove(id@) =~= self@);
        }
    }
}

/// A conversation that was reserved and is then freed leaves all as it was, and can be reserved
/// again; while it is reserved, the agents of other conversations stay.
pub proof fn releasing_undoes_reserving<T>(
    running: Map<Seq<char>, T>,
    id: Seq<char>,
    agent: T,
    other: Seq<char>,
)
    requires
        !running.contains_key(id),
        running.contains_key(other),
    ensures
        running.insert(id, agent).remove(id) == running,
        running.insert(id, agent).contains_key(other),
        running.insert(id, agent)[other] == running[other],
{
    assert(running.insert(id, agent).remove(id) =~= running);
}

/// The words of a text.
pub open spec fn words(s: Seq<char>) -> Seq<Seq<char>>
    decreases s.len(),
{
    if s.len() == 0 {
        Seq::empty()
    } else if text::is_white(s.last()) {
        words(s.drop_last())
    } else if s.len() == 1 || text::is_white(s[s.len() - 2]) {
        words(s.drop_last()).push(seq![s.last()])
    } else {
        let before = words(s.drop_last());
        before.drop_last().push(before.last().push(s.last()))
    }
}

proof fn lemma_words_nonempty(s: Seq<char>)
    requires
        s.len() > 0,
        !text::is_white(s.last()),
    ensures
        words(s).len() > 0,
    decreases s.len(),
{
    if s.len() > 1 && !text::is_white(s[s.len() - 2]) {
        lemma_words_nonempty(s.drop_last());
    }
}

/// The words of a text.
pub fn split_words(s: &str) -> (r: Vec<String>)
    ensures
        text::views(r@) == words(s@),
{
    let cs = text::chars_of(s);
    let mut out: Vec<String> = Vec::new();
    let mut i: usize = 0;
    assert(text::views(out@) =~= words(s@.take(0)));
    while i < cs.len()
        invariant
            i <= cs.len(),
            cs@ == s@,
            text::views(out@) == words(s@.take(i as int)),
        decreases cs.len() - i,
    {
        let c = cs[i];
        let ghost now = s@.take(i + 1);
        let ghost before = words(s@.take(i as int));
        proof {
            assert(now.drop_last() =~= s@.take(i as int));
            assert(now.last() == c);
        }
        if !text::is_whitespace(c) {
            if i == 0 || text::is_whitespace(cs[i - 1]) {
                let mut w = String::new();
                w.push(c);
                proof {
                    assert(w@ =~= seq![c]);
                    text::lemma_views_push(out@, w);
                }
                out.push(w);
            } else {
                proof {
                    lemma_words_nonempty(s@.take(i as int));
                }
                match out.pop() {
                    Some(w) => {
                        let mut w = w;
                        assert(w@ == before.last());
                        assert(text::views(out@) =~= before.drop_last());
                        w.push(c);
                        proof {
                            text::lemma_views_push(out@, w);
                        }
                        out.push(w);
                    },
                    None => {},
                }
            }
        }
        i += 1;
    }
    assert(s@.take(cs.len() as int) =~= s@);
    out
}

/// The length that a title taken from a message may have.
pub const MAX_TITLE: usize = 40;

/// The title that a conversation gets from its first message; none where it has a title of its
/// own.
pub open spec fn title_from(title: Seq<char>, message: Seq<char>) -> Option<Seq<char>> {
    if title == "New Conversation"@ || text::trimmed(title).len() == 0 {
        Some(text::first_chars(text::joined(words(message), " "@), MAX_TITLE as int))
    } else {
        None
    }
}

/// The title that a conversation gets from its first message; none where it has a title of its
/// own.
pub fn auto_title(title: &str, message: &str) -> (r: Option<String>)
    ensures
        text::opt_view(r) == title_from(title@, message@),
{
    let t = text::trim(title);
    if text::str_eq(title, "New Conversation") || t.as_str().is_empty() {
        let ws = split_words(message);
        let joined = text::join(&ws, " ");
        Some(text::take_chars(joined.as_str(), MAX_TITLE))
    } else {
        None
    }
}

/// The tools of a list that do not cross the sandbox.
pub open spec fn inside_only(v: Seq<ToolInfo>) -> Seq<ToolInfo> {
    v.filter(|t: ToolInfo| !approvals::crosses_sandbox(t.spec.name@))
}

/// The tools that a run is offered: under the `Block` policy, none that crosses the sandbox.
pub fn offered_tools(policy: ExternalPolicy, all: Vec<ToolInfo>) -> (r: Vec<ToolInfo>)
    ensures
        r@ == (if policy == ExternalPolicy::Block {
            inside_only(all@)
        } else {
            all@
        }),
{
    if policy != ExternalPolicy::Block {
        return all;
    }
    let ghost seq = all@;
    let mut out: Vec<ToolInfo> = Vec::new();
    proof {
        reveal(Seq::filter);
        assert(out@ =~= inside_only(seq.take(0)));
    }
    for t in it: all.into_iter()
        invariant
            it.seq() == seq,
            out@ == inside_only(seq.take(it.index())),
    {
        proof {
            reveal(Seq::filter);
            assert(seq.take(it.index() + 1).drop_last() =~= seq.take(it.index()));
            assert(seq.take(it.index() + 1).last() == t);
        }
        if !approvals::is_external(t.spec.name.as_str()) {
            out.push(t);
        }
    }
    assert(seq.take(seq.len() as int) =~= seq);
    out
}

/// Under the `Block` policy no tool that crosses the sandbox is offered, and every other tool is.
pub proof fn blocked_tools_are_not_offered(v: Seq<ToolInfo>, t: ToolInfo)
    ensures
        inside_only(v).contains(t) <==> v.contains(t) && !approvals::crosses_sandbox(t.spec.name@),
    decreases v.len(),
{
    reveal(Seq::filter);
    if v.len() > 0 {
        let head = v.drop_last();
        blocked_tools_are_not_offered(head, t);
        assert(head.push(v.last()) =~= v);
        let kept = inside_only(head);
        if head.contains(t) {
            let i = choose|i: int| 0 <= i < head.len() && head[i] == t;
            assert(v[i] == t);
        }
        if v.contains(t) && v.last() != t {
            let i = choose|i: int| 0 <= i < v.len() && v[i] == t;
            assert(head[i] == t);
        }
        assert(v[v.len() - 1] == v.last());
        if !approvals::crosses_sandbox(v.last().spec.name@) {
            assert(inside_only(v) == kept.push(v.last()));
            assert(kept.push(v.last())[kept.len() as int] == v.last());
            if kept.contains(t) {
                let i = choose|i: int| 0 <= i < kept.len() && kept[i] == t;
                assert(kept.push(v.last())[i] == t);
            }
            if kept.push(v.last()).contains(t) && v.last() != t {
                let i = choose|i: int| 0 <= i < kept.len() + 1 && kept.push(v.last())[i] == t;
                assert(kept[i] == t);
            }
        }
    }
}

/// The directory above the one that a path leads to, with a name below it; nothing where there
/// is none above.
pub open spec fn beside(path: Seq<char>, below: Seq<Seq<char>>) -> Option<Seq<char>> {
    let names = tools::names_of(path);
    if names.len() == 0 {
        None
    } else {
        Some(tools::path_text(tools::absolute(path), names.drop_last() + below))
    }
}

/// The Workshop of a conversation: a directory beside the configuration file; none where that
/// has a relative path.
pub fn workshop_dir(config_path: &str, conversation_id: &str) -> (r: Option<String>)
    ensures
        text::opt_view(r) == (if tools::absolute(config_path@) {
            beside(config_path@, seq!["workshops"@, conversation_id@])
        } else {
            None
        }),
{
    if !tools::is_absolute(config_path) {
        return None;
    }
    let mut names = tools::names(config_path);
    if names.len() == 0 {
        return None;
    }
    let ghost all = text::views(names@);
    let _ = names.pop();
    names.push("workshops".to_owned());
    names.push(conversation_id.to_owned());
    assert(text::views(names@) =~= all.drop_last() + seq!["workshops"@, conversation_id@]);
    Some(tools::write_path(true, &names))
}

/// The directory of all Workshops, beside the configuration file; empty where there is none.
pub fn workshops_dir(config_path: &str) -> (r: String)
    ensures
        r@ == (match beside(config_path@, seq!["workshops"@]) {
            Some(d) => d,
            None => Seq::empty(),
        }),
{
    let abs = tools::is_absolute(config_path);
    let mut names = tools::names(config_path);
    if names.len() == 0 {
        return String::new();
    }
    let ghost all = text::views(names@);
    let _ = names.pop();
    names.push("workshops".to_owned());
    assert(text::views(names@) =~= all.drop_last() + seq!["workshops"@]);
    tools::write_path(abs, &names)
}

/// The words of a text are what stands between its whitespace: a text of one word is that word,
/// nothing has no words, and the words of two texts with whitespace between them are those of the
/// one and then those of the other.
pub proof fn words_stand_between_whitespace(a: Seq<char>, c: char, b: Seq<char>)
    requires
        text::is_white(c),
    ensures
        words(a + seq![c] + b) == words(a) + words(b),
        a.len() == 0 ==> words(a) == Seq::<Seq<char>>::empty(),
        a.len() > 0 && (forall|i: int| 0 <= i < a.len() ==> !text::is_white(#[trigger] a[i]))
            ==> words(a) == seq![a],
    decreases b.len(),
{
    if a.len() > 0 && (forall|i: int| 0 <= i < a.len() ==> !text::is_white(#[trigger] a[i])) {
        lemma_one_word(a);
    }
    let s = a + seq![c] + b;
    if b.len() == 0 {
        assert(s.drop_last() =~= a);
        assert(words(a) + words(b) =~= words(a));
    } else {
        let t = b.drop_last();
        words_stand_between_whitespace(a, c, t);
        assert(s.drop_last() =~= a + seq![c] + t);
        assert(s.last() == b.last());
        let x = words(a);
        let y = words(t);
        if !text::is_white(b.last()) {
            if b.len() == 1 {
                assert(s[s.len() - 2] == c);
                assert(t =~= Seq::<char>::empty());
                assert(words(s) =~= words(a) + words(b));
            } else {
                assert(s[s.len() - 2] == b[b.len() - 2]);
                if text::is_white(b[b.len() - 2]) {
                    assert(words(s) =~= words(a) + words(b));
                } else {
                    lemma_words_nonempty(t);
                    assert((x + y).drop_last() =~= x + y.drop_last());
                    assert((x + y).last() == y.last());
                    assert(words(s) =~= words(a) + words(b));
                }
            }
        }
    }
}

proof fn lemma_one_word(a: Seq<char>)
    requires
        a.len() > 0,
        forall|i: int| 0 <= i < a.len() ==> !text::is_white(#[trigger] a[i]),
    ensures
        words(a) == seq![a],
    decreases a.len(),
{
    reveal_with_fuel(words, 2);
    assert(!text::is_white(a[a.len() - 1]));
    let t = a.drop_last();
    if a.len() == 1 {
        assert(t =~= Seq::<char>::empty());
        assert(seq![a.last()] =~= a);
        assert(words(a) =~= seq![a]);
    } else {
        assert(!text::is_white(a[a.len() - 2]));
        assert forall|i: int| 0 <= i < t.len() implies !text::is_white(#[trigger] t[i]) by {
            assert(t[i] == a[i]);
        }
        lemma_one_word(t);
        assert(t.push(a.last()) =~= a);
        assert(seq![t].last() == t);
        assert(words(a) =~= seq![a]);
    }
}

/// A conversation without a title of its own gets the first forty characters of its message, with
/// one space between the words; one with a title keeps it.
pub proof fn title_is_the_beginning_of_the_message(title: Seq<char>, message: Seq<char>)
    ensures
        title_from(title, message) is Some <==> title == "New Conversation"@ || text::all_white(
            title,
        ),
        title_from(title, message) is Some ==> ({
            let t = title_from(title, message)->0;
            let all = text::joined(words(message), seq![' ']);
            &&& t.is_prefix_of(all)
            &&& t.len() <= 40
            &&& all.len() <= 40 ==> t == all
            &&& all.len() > 40 ==> t.len() == 40
        }),
{
    reveal_strlit(" ");
    assert(" "@ =~= seq![' ']);
    text::trimming_takes_whitespace_only(title);
    let m = text::trimmed(title);
    let (a, b) = choose|a: Seq<char>, b: Seq<char>| #[trigger]
        (a + m + b) == title && text::all_white(a) && text::all_white(b);
    if m.len() == 0 {
        assert forall|i: int| 0 <= i < title.len() implies text::is_white(#[trigger] title[i]) by {
            if i < a.len() {
                assert(title[i] == a[i]);
            } else {
                assert(title[i] == b[i - a.len()]);
            }
        }
    } else {
        assert(title[a.len() as int] == m[0]);
    }
    text::first_characters_are_the_beginning(text::joined(words(message), " "@), 40);
}

/// The Workshop of a conversation lies beside the configuration file, in a directory of its own
/// under that of all Workshops.
pub proof fn workshop_lies_beside_the_configuration(config: Seq<char>, id: Seq<char>)
    requires
        tools::absolute(config),
        tools::names_of(config).len() > 0,
        tools::plain(seq![id]),
    ensures
        ({
            let up = tools::names_of(config).take(tools::names_of(config).len() - 1);
            let all = beside(config, seq!["workshops"@]);
            let one = beside(config, seq!["workshops"@, id]);
            &&& all is Some && tools::absolute(all->0)
            &&& tools::names_of(all->0) == up + seq!["workshops"@]
            &&& one is Some && tools::absolute(one->0)
            &&& tools::names_of(one->0) == up + seq!["workshops"@, id]
            &&& tools::inside(all->0, one->0)
        }),
{
    reveal_strlit("workshops");
    reveal_strlit(".");
    reveal_strlit("..");
    let names = tools::names_of(config);
    let up = names.drop_last();
    assert(up =~= names.take(names.len() - 1));
    tools::normalizing_keeps_the_place(config);
    let a = up + seq!["workshops"@];
    let b = up + seq!["workshops"@, id];
    assert("workshops"@.len() == 9 && "."@.len() == 1 && ".."@.len() == 2);
    assert(!"workshops"@.contains('/'));
    assert(seq![id][0] == id);
    assert(tools::plain(a)) by {
        assert forall|i: int| 0 <= i < a.len() implies (#[trigger] a[i]).len() > 0 && a[i] != "."@
            && a[i] != ".."@ && !a[i].contains('/') by {
            if i < up.len() {
                assert(a[i] == names[i]);
            }
        }
    }
    assert(tools::plain(b)) by {
        assert forall|i: int| 0 <= i < b.len() implies (#[trigger] b[i]).len() > 0 && b[i] != "."@
            && b[i] != ".."@ && !b[i].contains('/') by {
            if i < up.len() {
                assert(b[i] == names[i]);
            }
        }
    }
    tools::lemma_path_text_names(a);
    tools::lemma_path_text_names(b);
    assert(b.take(a.len() as int) =~= a);
}

} // verus!
