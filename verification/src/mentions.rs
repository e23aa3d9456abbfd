//! `@path` mention expansion: user messages can reference workspace files. Before the message is
//! persisted, each resolvable mention gets its contents appended as an `<attached>` block so
//! follow-up turns keep the context.
use crate::providers::http;
use crate::text;
use vstd::prelude::*;
use vstd::string::*;
use vstd::utf8::*;

verus! {

/// Per-file attachment cap, in bytes; larger files are truncated with a note.
pub const MAX_ATTACH: usize = 51200;

/// Whether a character is ASCII whitespace.
pub open spec fn ascii_white(c: char) -> bool {
    c == ' ' || c == '\t' || c == '\n' || c == '\x0c' || c == '\r'
}

/// Where the word that begins at `i` ends: at the next whitespace, or with the text.
pub open spec fn word_end(t: Seq<char>, i: int) -> int
    decreases t.len() - i,
{
    if i < 0 || i >= t.len() || ascii_white(t[i]) {
        i
    } else {
        word_end(t, i + 1)
    }
}

/// The words behind the `@` signs of a text, from an index on. A word goes on to the next
/// whitespace; an empty one counts for nothing.
pub open spec fn mentioned(t: Seq<char>, i: int) -> Seq<Seq<char>>
    decreases t.len() - i,
{
    if i < 0 || i >= t.len() {
        Seq::empty()
    } else if t[i] == '@' {
        let end = word_end(t, i + 1);
        if end < i + 1 || end > t.len() {
            Seq::empty()
        } else if end == i + 1 {
            mentioned(t, end)
        } else {
            seq![t.subrange(i + 1, end)] + mentioned(t, end)
        }
    } else {
        mentioned(t, i + 1)
    }
}

proof fn lemma_word_end(t: Seq<char>, i: int)
    requires
        0 <= i <= t.len(),
    ensures
        i <= word_end(t, i) <= t.len(),
    decreases t.len() - i,
{
    if i < t.len() && !ascii_white(t[i]) {
        lemma_word_end(t, i + 1);
    }
}

/// The mentions of a message, in order.
pub fn mentions(message: &str) -> (r: Vec<String>)
    ensures
        text::views(r@) == mentioned(message@, 0),
{
    let cs = text::chars_of(message);
    let ghost t = message@;
    let mut out: Vec<String> = Vec::new();
    let mut i: usize = 0;
    assert(text::views(out@) + mentioned(t, 0) =~= mentioned(t, 0));
    while i < cs.len()
        invariant
            i <= cs.len(),
            cs@ == t,
            text::views(out@) + mentioned(t, i as int) == mentioned(t, 0),
        decreases cs.len() - i,
    {
        if cs[i] == '@' {
            let start: usize = i + 1;
            let mut end: usize = start;
            while end < cs.len() && !(cs[end] == ' ' || cs[end] == '\t' || cs[end] == '\n'
                || cs[end] == '\x0c' || cs[end] == '\r')
                invariant
                    start <= end <= cs.len(),
                    cs@ == t,
                    word_end(t, start as int) == word_end(t, end as int),
                decreases cs.len() - end,
            {
                end += 1;
            }
            if end > start {
                let word = text::string_of(&cs, start, end);
                let ghost before = text::views(out@);
                proof {
                    text::lemma_views_push(out@, word);
                    assert(before + (seq![word@] + mentioned(t, end as int)) =~= before.push(word@)
                        + mentioned(t, end as int));
                }
                out.push(word);
            }
            i = end;
        } else {
            i += 1;
        }
    }
    assert(text::views(out@) + Seq::<Seq<char>>::empty() =~= text::views(out@));
    out
}

/// The mentions to attach, each with its contents, among the first `n`: those that have contents,
/// each once.
pub open spec fn attachments(
    words: Seq<Seq<char>>,
    contents: Seq<Option<Seq<char>>>,
    n: int,
) -> Seq<(Seq<char>, Seq<char>)>
    decreases n,
{
    if n <= 0 {
        Seq::empty()
    } else {
        let before = attachments(words, contents, n - 1);
        let w = words[n - 1];
        match contents[n - 1] {
            Some(c) => if attached(before, w) {
                before
            } else {
                before.push((w, c))
            },
            None => before,
        }
    }
}

/// Whether a word is attached already.
pub open spec fn attached(list: Seq<(Seq<char>, Seq<char>)>, w: Seq<char>) -> bool {
    exists|i: int| 0 <= i < list.len() && (#[trigger] list[i]).0 == w
}

/// The blocks of the attachments.
pub open spec fn blocks(list: Seq<(Seq<char>, Seq<char>)>) -> Seq<char>
    decreases list.len(),
{
    if list.len() == 0 {
        Seq::empty()
    } else {
        blocks(list.drop_last()) + "\n\n<attached path=\""@ + list.last().0 + "\">\n"@
            + list.last().1 + "\n</attached>"@
    }
}

/// What the contents of a list are.
pub open spec fn content_views(v: Seq<Option<String>>) -> Seq<Option<Seq<char>>> {
    v.map_values(|c: Option<String>| text::opt_view(c))
}

/// A message with the contents of its mentions attached; `contents` holds, for each mention,
/// what is to be attached for it (nothing, where it names no file of the workspace: the mention
/// then stays literal text, e.g. an email address).
pub fn expand(message: &str, contents: &Vec<Option<String>>) -> (r: String)
    requires
        contents.len() == mentioned(message@, 0).len(),
    ensures
        r@ == message@ + blocks(
            attachments(
                mentioned(message@, 0),
                content_views(contents@),
                contents.len() as int,
            ),
        ),
{
    let words = mentions(message);
    let ghost ws = mentioned(message@, 0);
    let ghost cs = content_views(contents@);
    let mut out = message.to_owned();
    let mut done: Vec<usize> = Vec::new();
    let mut i: usize = 0;
    assert(message@ + blocks(attachments(ws, cs, 0)) =~= message@);
    while i < words.len()
        invariant
            i <= words.len(),
            words.len() == contents.len(),
            text::views(words@) == ws,
            cs == content_views(contents@),
            out@ == message@ + blocks(attachments(ws, cs, i as int)),
            done@.len() == attachments(ws, cs, i as int).len(),
            forall|k: int|
                0 <= k < done@.len() ==> (#[trigger] done@[k]) < words.len() && attachments(
                    ws,
                    cs,
                    i as int,
                )[k].0 == words@[done@[k] as int]@,
        decreases words.len() - i,
    {
        let ghost before = attachments(ws, cs, i as int);
        let ghost old_done = done@;
        assert(cs[i as int] == text::opt_view(contents@[i as int]));
        if let Some(c) = &contents[i] {
            let mut seen = false;
            let mut k: usize = 0;
            while k < done.len()
                invariant
                    k <= done.len(),
                    i < words.len(),
                    done@.len() == before.len(),
                    forall|k: int|
                        0 <= k < done@.len() ==> (#[trigger] done@[k]) < words.len() && before[k].0
                            == words@[done@[k] as int]@,
                    seen == (exists|j: int|
                        0 <= j < k && (#[trigger] before[j]).0 == words@[i as int]@),
                decreases done.len() - k,
            {
                let d = done[k];
                if text::str_eq(words[d].as_str(), words[i].as_str()) {
                    assert(before[k as int].0 == words@[i as int]@);
                    seen = true;
                }
                k += 1;
            }
            assert(seen == attached(before, words@[i as int]@));
            if !seen {
                out.append("\n\n<attached path=\"");
                out.append(words[i].as_str());
                out.append("\">\n");
                out.append(c.as_str());
                out.append("\n</attached>");
                done.push(i);
                proof {
                    let now = before.push((words@[i as int]@, c@));
                    assert(now.drop_last() =~= before);
                    assert(attachments(ws, cs, i + 1) == now);
                    assert(out@ =~= message@ + blocks(now));
                    assert forall|k: int| 0 <= k < done@.len() implies (#[trigger] done@[k])
                        < words.len() && now[k].0 == words@[done@[k] as int]@ by {
                        if k < old_done.len() {
                            assert(done@[k] == old_done[k]);
                        }
                    }
                }
            }
        }
        i += 1;
    }
    out
}

/// What is attached for the bytes of a file. A binary file attaches a note instead of its
/// contents; of a file that is too large the longest valid beginning is attached, with a note.
pub open spec fn attachment(bytes: Seq<u8>) -> Seq<char> {
    if bytes.contains(0) {
        "[binary file - contents not attached]"@
    } else if bytes.len() > MAX_ATTACH {
        let n = http::valid_prefix(bytes.take(MAX_ATTACH as int));
        decode_utf8(bytes.take(n)) + "\n…[truncated: "@ + text::decimal(n as nat) + " of "@
            + text::decimal(bytes.len()) + " bytes shown]"@
    } else {
        http::utf8_lossy(bytes)
    }
}

fn holds_nul(bytes: &[u8]) -> (r: bool)
    ensures
        r == bytes@.contains(0),
{
    let mut i: usize = 0;
    while i < bytes.len()
        invariant
            i <= bytes.len(),
            forall|k: int| 0 <= k < i ==> bytes@[k] != 0,
        decreases bytes.len() - i,
    {
        if bytes[i] == 0 {
            assert(bytes@[i as int] == 0);
            return true;
        }
        i += 1;
    }
    false
}

/// What is attached for the bytes of a file.
pub fn attachment_of(bytes: &[u8]) -> (r: String)
    ensures
        r@ == attachment(bytes@),
{
    if holds_nul(bytes) {
        return "[binary file - contents not attached]".to_owned();
    }
    if bytes.len() <= MAX_ATTACH {
        return http::decode_lossy(bytes);
    }
    let head = vstd::slice::slice_subrange(bytes, 0, MAX_ATTACH);
    let ghost all = bytes@.take(MAX_ATTACH as int);
    assert(head@ =~= all);
    let end: usize = match http::check_utf8(head) {
        Ok(_) => {
            assert(all.take(MAX_ATTACH as int) =~= all);
            assert(http::is_valid_prefix(all, MAX_ATTACH as int));
            MAX_ATTACH
        },
        Err((valid, _)) => valid,
    };
    proof {
        http::lemma_valid_prefix_unique(all, end as int);
        assert(all.take(end as int) =~= bytes@.take(end as int));
    }
    let shown = vstd::slice::slice_subrange(bytes, 0, end);
    assert(shown@ =~= bytes@.take(end as int));
    let mut out = http::decode_lossy(shown);
    let n = text::decimal_of(end as u64);
    let total = text::decimal_of(bytes.len() as u64);
    out.append("\n…[truncated: ");
    out.append(n.as_str());
    out.append(" of ");
    out.append(total.as_str());
    out.append(" bytes shown]");
    out
}

/// The note for a file that cannot be read, on one line.
pub open spec fn unreadable(reason: Seq<char>) -> Seq<char> {
    "[cannot read file: "@ + text::with_char(text::with_char(reason, '\n', ' '), '\r', ' ') + "]"@
}

/// What is attached for a mention, given what reading it gave: nothing where it names no file,
/// the contents of a file, or a note with the reason where the file cannot be read.
pub fn attachment_for(read: Option<Result<Vec<u8>, String>>) -> (r: Option<String>)
    ensures
        text::opt_view(r) == (match read {
            Some(Ok(bytes)) => Some(attachment(bytes@)),
            Some(Err(reason)) => Some(unreadable(reason@)),
            None => None,
        }),
{
    match read {
        Some(Ok(bytes)) => Some(attachment_of(bytes.as_slice())),
        Some(Err(reason)) => {
            let line = text::replace_char(reason.as_str(), '\n', ' ');
            let line = text::replace_char(line.as_str(), '\r', ' ');
            Some(text::concat3("[cannot read file: ", line.as_str(), "]"))
        },
        None => None,
    }
}

/// A message stays as it is at its beginning, whatever is attached; and with nothing to attach it
/// stays as it is.
pub proof fn expanded_message_begins_with_itself(
    message: Seq<char>,
    contents: Seq<Option<Seq<char>>>,
)
    ensures
        message.is_prefix_of(
            message + blocks(
                attachments(mentioned(message, 0), contents, contents.len() as int),
            ),
        ),
        (forall|i: int| 0 <= i < contents.len() ==> (#[trigger] contents[i]) is None) ==> message
            + blocks(attachments(mentioned(message, 0), contents, contents.len() as int))
            == message,
{
    let b = blocks(attachments(mentioned(message, 0), contents, contents.len() as int));
    assert((message + b).take(message.len() as int) =~= message);
    if forall|i: int| 0 <= i < contents.len() ==> (#[trigger] contents[i]) is None {
        lemma_nothing_attached(mentioned(message, 0), contents, contents.len() as int);
        assert(message + Seq::<char>::empty() =~= message);
    }
}

proof fn lemma_nothing_attached(
    words: Seq<Seq<char>>,
    contents: Seq<Option<Seq<char>>>,
    n: int,
)
    requires
        n <= contents.len(),
        forall|i: int| 0 <= i < contents.len() ==> (#[trigger] contents[i]) is None,
    ensures
        attachments(words, contents, n).len() == 0,
    decreases n,
{
    if n > 0 {
        lemma_nothing_attached(words, contents, n - 1);
        assert(contents[n - 1] is None);
    }
}

/// A file that is mentioned twice is attached once.
pub proof fn mentions_are_attached_once(
    words: Seq<Seq<char>>,
    contents: Seq<Option<Seq<char>>>,
    n: int,
)
    ensures
        forall|i: int, j: int|
            0 <= i < j < attachments(words, contents, n).len() ==> (#[trigger] attachments(
                words,
                contents,
                n,
            )[i]).0 != (#[trigger] attachments(words, contents, n)[j]).0,
    decreases n,
{
    if n > 0 {
        mentions_are_attached_once(words, contents, n - 1);
        let before = attachments(words, contents, n - 1);
        let after = attachments(words, contents, n);
        assert forall|i: int, j: int| 0 <= i < j < after.len() implies (#[trigger] after[i]).0 != (
        #[trigger] after[j]).0 by {
            if j < before.len() {
                assert(before[i].0 != before[j].0);
            } else {
                assert(after[i] == before[i]);
            }
        }
    }
}

/// Whitespace that ends a word: the space, the tab, the line feed, the form feed and the carriage
/// return.
pub proof fn whitespace_that_ends_a_word(c: char)
    ensures
        ascii_white(c) <==> c as u32 == 32 || c as u32 == 9 || c as u32 == 10 || c as u32 == 12
            || c as u32 == 13,
{
}

proof fn lemma_word_end_at(t: Seq<char>, i: int, k: int)
    requires
        0 <= i <= k <= t.len(),
        forall|j: int| i <= j < k ==> !ascii_white(#[trigger] t[j]),
        k < t.len() ==> ascii_white(t[k]),
    ensures
        word_end(t, i) == k,
    decreases k - i,
{
    if i < k {
        assert(!ascii_white(t[i]));
        lemma_word_end_at(t, i + 1, k);
    }
}

proof fn lemma_word_end_shift(a: Seq<char>, b: Seq<char>, i: int)
    requires
        0 <= i <= b.len(),
    ensures
        word_end(a + b, a.len() + i) == a.len() + word_end(b, i),
    decreases b.len() - i,
{
    if i < b.len() {
        assert((a + b)[a.len() + i] == b[i]);
        if !ascii_white(b[i]) {
            lemma_word_end_shift(a, b, i + 1);
        }
    }
}

proof fn lemma_mentioned_shift(a: Seq<char>, b: Seq<char>, i: int)
    requires
        0 <= i <= b.len(),
    ensures
        mentioned(a + b, a.len() + i) == mentioned(b, i),
    decreases b.len() - i,
{
    if i < b.len() {
        let t = a + b;
        assert(t[a.len() + i] == b[i]);
        if b[i] == '@' {
            lemma_word_end(b, i + 1);
            lemma_word_end_shift(a, b, i + 1);
            let end = word_end(b, i + 1);
            lemma_mentioned_shift(a, b, end);
            assert(t.subrange(a.len() + i + 1, a.len() + end) =~= b.subrange(i + 1, end));
        } else {
            lemma_mentioned_shift(a, b, i + 1);
        }
    }
}

proof fn lemma_nothing_mentioned(t: Seq<char>, i: int, k: int)
    requires
        0 <= i <= k <= t.len(),
        forall|j: int| i <= j < k ==> #[trigger] t[j] != '@',
    ensures
        mentioned(t, i) == mentioned(t, k),
    decreases k - i,
{
    if i < k {
        assert(t[i] != '@');
        lemma_nothing_mentioned(t, i + 1, k);
    }
}

/// Each word behind an `@` is mentioned, in order: a text without the sign mentions nothing, and
/// a text with one mentions the word behind its first sign, up to the next whitespace, and then
/// what the rest of the text mentions.
pub proof fn words_behind_the_sign_are_mentioned(
    before: Seq<char>,
    word: Seq<char>,
    rest: Seq<char>,
)
    requires
        !before.contains('@'),
        forall|i: int| 0 <= i < word.len() ==> !ascii_white(#[trigger] word[i]),
        rest.len() > 0 ==> ascii_white(rest[0]),
    ensures
        mentioned(before, 0) == Seq::<Seq<char>>::empty(),
        mentioned(before + seq!['@'] + word + rest, 0) == (if word.len() == 0 {
            mentioned(rest, 0)
        } else {
            seq![word] + mentioned(rest, 0)
        }),
{
    assert forall|j: int| 0 <= j < before.len() implies #[trigger] before[j] != '@' by {
        assert(before.contains(before[j]));
    }
    lemma_nothing_mentioned(before, 0, before.len() as int);
    let t = before + seq!['@'] + word + rest;
    let n = before.len() as int;
    assert forall|j: int| 0 <= j < n implies #[trigger] t[j] != '@' by {
        assert(t[j] == before[j]);
    }
    lemma_nothing_mentioned(t, 0, n);
    assert(t[n] == '@');
    let end = n + 1 + word.len();
    assert forall|j: int| n + 1 <= j < end implies !ascii_white(#[trigger] t[j]) by {
        assert(t[j] == word[j - n - 1]);
    }
    assert(end < t.len() ==> t[end] == rest[0]);
    lemma_word_end_at(t, n + 1, end);
    assert(t.subrange(n + 1, end) =~= word);
    let head = before + seq!['@'] + word;
    assert(t =~= head + rest);
    lemma_mentioned_shift(head, rest, 0);
}

/// The blocks stand one after the other, each with the path and the whole contents of its file.
pub proof fn blocks_hold_the_contents(
    a: Seq<(Seq<char>, Seq<char>)>,
    b: Seq<(Seq<char>, Seq<char>)>,
    path: Seq<char>,
    contents: Seq<char>,
)
    ensures
        blocks(Seq::empty()).len() == 0,
        blocks(a + b) == blocks(a) + blocks(b),
        blocks(seq![(path, contents)]) == "\n\n<attached path=\""@ + path + "\">\n"@ + contents
            + "\n</attached>"@,
    decreases b.len(),
{
    reveal_with_fuel(blocks, 2);
    let one = seq![(path, contents)];
    assert(one.drop_last() =~= Seq::<(Seq<char>, Seq<char>)>::empty());
    assert(one.last() == (path, contents));
    assert(blocks(one) =~= "\n\n<attached path=\""@ + path + "\">\n"@ + contents
        + "\n</attached>"@);
    if b.len() == 0 {
        assert(a + b =~= a);
        assert(blocks(a) + blocks(b) =~= blocks(a));
    } else {
        blocks_hold_the_contents(a, b.drop_last(), path, contents);
        assert((a + b).drop_last() =~= a + b.drop_last());
        assert((a + b).last() == b.last());
        assert(blocks(a + b) =~= blocks(a) + blocks(b));
    }
}

/// Every mention that has contents is attached, with the contents of its first mention that has
/// any, and nothing else is; the files come in the order in which they are first mentioned.
pub proof fn every_mention_with_contents_is_attached(
    words: Seq<Seq<char>>,
    contents: Seq<Option<Seq<char>>>,
    n: int,
) -> (at: Seq<int>)
    requires
        0 <= n <= words.len(),
        n <= contents.len(),
    ensures
        at.len() == attachments(words, contents, n).len(),
        forall|k: int| 0 <= k < at.len() ==> 0 <= #[trigger] at[k] < n,
        forall|j: int, k: int| 0 <= j < k < at.len() ==> #[trigger] at[j] < #[trigger] at[k],
        forall|k: int|
            0 <= k < at.len() ==> contents[#[trigger] at[k]] is Some && attachments(
                words,
                contents,
                n,
            )[k] == (words[at[k]], contents[at[k]]->0),
        forall|i: int|
            0 <= i < n && (#[trigger] contents[i]) is Some ==> exists|k: int|
                0 <= k < at.len() && #[trigger] at[k] <= i && words[at[k]] == words[i],
    decreases n,
{
    if n == 0 {
        Seq::empty()
    } else {
        let before = every_mention_with_contents_is_attached(words, contents, n - 1);
        let list = attachments(words, contents, n - 1);
        let w = words[n - 1];
        let new = contents[n - 1] is Some && !attached(list, w);
        let at = if new {
            before.push(n - 1)
        } else {
            before
        };
        assert forall|k: int| 0 <= k < at.len() implies contents[#[trigger] at[k]] is Some
            && attachments(words, contents, n)[k] == (words[at[k]], contents[at[k]]->0) by {
            if k < before.len() {
                assert(at[k] == before[k]);
            }
        }
        assert forall|i: int| 0 <= i < n && (#[trigger] contents[i]) is Some implies exists|k: int|
            0 <= k < at.len() && #[trigger] at[k] <= i && words[at[k]] == words[i] by {
            if i < n - 1 {
                let k = choose|k: int|
                    0 <= k < before.len() && #[trigger] before[k] <= i && words[before[k]]
                        == words[i];
                assert(at[k] == before[k]);
            } else if new {
                assert(at[before.len() as int] == n - 1);
            } else {
                let k = choose|k: int| 0 <= k < list.len() && (#[trigger] list[k]).0 == w;
                assert(at[k] == before[k]);
                assert(list[k] == (words[before[k]], contents[before[k]]->0));
            }
        }
        at
    }
}

/// A file without a NUL byte that is not too large is attached whole; of one that is too large the
/// longest beginning is, that is valid UTF-8 and not longer than fifty kibibytes, with a note; and
/// a file with a NUL byte only as a note.
pub proof fn files_are_attached_up_to_the_limit(bytes: Seq<u8>)
    ensures
        bytes.contains(0) ==> attachment(bytes) == "[binary file - contents not attached]"@,
        !bytes.contains(0) && bytes.len() <= 50 * 1024 ==> attachment(bytes) == http::utf8_lossy(
            bytes,
        ),
        !bytes.contains(0) && bytes.len() > 50 * 1024 ==> exists|n: int|
            {
                &&& 0 <= n <= 50 * 1024
                &&& attachment(bytes) == decode_utf8(#[trigger] bytes.take(n))
                    + "\n…[truncated: "@ + text::decimal(n as nat) + " of "@ + text::decimal(
                    bytes.len(),
                ) + " bytes shown]"@
                &&& valid_utf8(bytes.take(n))
                &&& forall|m: int|
                    n < m <= 50 * 1024 ==> !valid_utf8(#[trigger] bytes.take(m))
            },
{
    if !bytes.contains(0) && bytes.len() > 50 * 1024 {
        let head = bytes.take(MAX_ATTACH as int);
        http::longest_valid_beginning_exists(head);
        let n = http::valid_prefix(head);
        assert(head.take(n) =~= bytes.take(n));
        assert forall|m: int| n < m <= 50 * 1024 implies !valid_utf8(#[trigger] bytes.take(m)) by {
            assert(head.take(m) =~= bytes.take(m));
            assert(!valid_utf8(head.take(m)));
        }
    }
}

/// The note for a file that cannot be read holds the reason and stands on one line.
pub proof fn unreadable_files_are_noted_on_one_line(reason: Seq<char>)
    ensures
        unreadable(reason).len() == 19 + reason.len() + 1,
        forall|i: int|
            0 <= i < reason.len() ==> #[trigger] unreadable(reason)[19 + i] == (if reason[i]
                == '\n' || reason[i] == '\r' {
                ' '
            } else {
                reason[i]
            }),
        !unreadable(reason).contains('\n'),
{
    reveal_strlit("[cannot read file: ");
    reveal_strlit("]");
    let u = unreadable(reason);
    assert forall|i: int| 0 <= i < reason.len() implies #[trigger] u[19 + i] == (if reason[i]
        == '\n' || reason[i] == '\r' {
        ' '
    } else {
        reason[i]
    }) by {}
    assert forall|i: int| 0 <= i < u.len() implies u[i] != '\n' by {
        if 19 <= i < 19 + reason.len() {
            assert(u[19 + (i - 19)] != '\n');
        }
    }
}

} // verus!
