//! Decoding of the bytes of a response body that arrive in chunks.
use crate::error::{Error, ErrorView};
use crate::text;
use vstd::prelude::*;
use vstd::utf8::*;

verus! {

/// Whether `bytes` can be continued to valid UTF-8.
pub open spec fn completable(bytes: Seq<u8>) -> bool {
    exists|rest: Seq<u8>| #[trigger] valid_utf8(bytes + rest)
}

/// Whether the first `n` bytes are the longest valid UTF-8 that `bytes` begins with.
pub open spec fn is_valid_prefix(bytes: Seq<u8>, n: int) -> bool {
    &&& 0 <= n <= bytes.len()
    &&& valid_utf8(bytes.take(n))
    &&& forall|m: int| n < m <= bytes.len() ==> !valid_utf8(#[trigger] bytes.take(m))
}

/// The length of the longest valid UTF-8 that `bytes` begins with.
pub open spec fn valid_prefix(bytes: Seq<u8>) -> int {
    choose|n: int| is_valid_prefix(bytes, n)
}

/// The text that `String::from_utf8_lossy` makes of `bytes`.
pub uninterp spec fn utf8_lossy(bytes: Seq<u8>) -> Seq<char>;

/// `std::str::from_utf8` accepts exactly valid UTF-8. Of other input its error tells where the
/// longest valid prefix ends (`valid_up_to`), and whether the input merely ended too early
/// (`error_len` is `None`), in which case some continuation makes it valid, or holds an
/// unexpected byte, in which case none does.
#[verifier::external_body]
pub(crate) fn check_utf8(bytes: &[u8]) -> (r: Result<(), (usize, Option<usize>)>)
    ensures
        r is Ok <==> valid_utf8(bytes@),
        r matches Err(e) ==> is_valid_prefix(bytes@, e.0 as int),
        r matches Err(e) ==> (e.1 is None <==> completable(bytes@)),
{
    match std::str::from_utf8(bytes) {
        Ok(_) => Ok(()),
        Err(e) => Err((e.valid_up_to(), e.error_len())),
    }
}

/// `String::from_utf8_lossy` decodes valid UTF-8 exactly; the replacement characters that it
/// puts in place of invalid sequences are left to the name.
#[verifier::external_body]
pub(crate) fn decode_lossy(bytes: &[u8]) -> (r: String)
    ensures
        r@ == utf8_lossy(bytes@),
        valid_utf8(bytes@) ==> r@ == decode_utf8(bytes@),
{
    String::from_utf8_lossy(bytes).into_owned()
}

/// How much of the body of a refusal is kept, in characters.
pub const MAX_ERROR_BODY: usize = 500;

/// The error of a request that a provider refused: the status, and the beginning of the body.
pub fn provider_error(status: u16, body: &str, keep: usize) -> (r: Error)
    ensures
        r@ == (ErrorView::Provider { status, body: text::first_chars(body@, keep as int) }),
{
    Error::Provider { status, body: text::take_chars(body, keep) }
}

/// Whether `t` is the beginning of a character and no more: it can be continued to valid UTF-8,
/// and no part of it at its beginning is valid yet.
pub open spec fn is_incomplete(t: Seq<u8>) -> bool {
    &&& t.len() > 0
    &&& completable(t)
    &&& forall|m: int| 0 < m <= t.len() ==> !valid_utf8(#[trigger] t.take(m))
}

/// Where the longest incomplete character at the end of `bytes` begins, from `k` on; the end,
/// where there is none.
pub open spec fn open_from(bytes: Seq<u8>, k: int) -> int
    decreases bytes.len() - k,
{
    if k < 0 || k >= bytes.len() {
        bytes.len() as int
    } else if is_incomplete(bytes.skip(k)) {
        k
    } else {
        open_from(bytes, k + 1)
    }
}

/// The text that bytes are decoded to: exactly where they are valid UTF-8, lossily elsewhere.
pub open spec fn lossy_text(bytes: Seq<u8>) -> Seq<char> {
    if valid_utf8(bytes) {
        decode_utf8(bytes)
    } else {
        utf8_lossy(bytes)
    }
}

/// The text that a decoder with the bytes `held` gives out for `chunk`, and the bytes that it
/// then holds. An incomplete character at the end is kept; all before it is decoded.
pub open spec fn utf8_step(held: Seq<u8>, chunk: Seq<u8>) -> (Seq<u8>, Seq<char>) {
    let all = held + chunk;
    let k = open_from(all, 0);
    (all.skip(k), lossy_text(all.take(k)))
}

/// `Some`, unless there is no text.
pub open spec fn non_empty(s: Seq<char>) -> Option<Seq<char>> {
    if s.len() == 0 {
        None
    } else {
        Some(s)
    }
}

/// Incremental UTF-8 decoder for raw byte chunks. Multi-byte characters split across chunk
/// boundaries are held back until complete.
pub struct Utf8Buf {
    buf: Vec<u8>,
}

impl Utf8Buf {
    /// The bytes held back.
    pub closed spec fn held(self) -> Seq<u8> {
        self.buf@
    }

    /// A decoder that holds nothing back.
    pub fn new() -> (r: Self)
        ensures
            r.held() == Seq::<u8>::empty(),
    {
        Utf8Buf { buf: Vec::new() }
    }

    /// Feeds raw bytes. Returns the newly decodable text, if any.
    pub fn push(&mut self, chunk: &[u8]) -> (r: Option<String>)
        ensures
            final(self).held() == utf8_step(old(self).held(), chunk@).0,
            text::opt_view(r) == non_empty(utf8_step(old(self).held(), chunk@).1),
    {
        self.buf.extend_from_slice(chunk);
        let ghost all = self.buf@;
        assert(all =~= old(self).held() + chunk@);
        let emitted: usize = open_tail(self.buf.as_slice());
        let rest = self.buf.split_off(emitted);
        let text = decode_lossy(self.buf.as_slice());
        proof {
            assert(all.subrange(0, emitted as int) =~= all.take(emitted as int));
            assert(rest@ =~= all.skip(emitted as int));
        }
        self.buf = rest;
        if text.as_str().is_empty() {
            None
        } else {
            Some(text)
        }
    }

    /// Flushes at the end of the stream; an incomplete trailing sequence is decoded lossily.
    pub fn finish(&mut self) -> (r: Option<String>)
        ensures
            final(self).held() == Seq::<u8>::empty(),
            text::opt_view(r) == (if old(self).held().len() == 0 {
                None
            } else {
                Some(utf8_lossy(old(self).held()))
            }),
    {
        if self.buf.len() == 0 {
            assert(self.buf@ =~= Seq::<u8>::empty());
            None
        } else {
            let s = decode_lossy(self.buf.as_slice());
            self.buf.clear();
            Some(s)
        }
    }
}

/// Where the incomplete character at the end of `bytes` begins; the end, where there is none.
fn open_tail(bytes: &[u8]) -> (r: usize)
    ensures
        r == open_from(bytes@, 0),
        r <= bytes.len(),
{
    let n: usize = bytes.len();
    let mut k: usize = if n > 3 {
        n - 3
    } else {
        0
    };
    proof {
        assert forall|j: int| 0 <= j < k implies !is_incomplete(#[trigger] bytes@.skip(j)) by {
            if is_incomplete(bytes@.skip(j)) {
                lemma_incomplete_is_short(bytes@.skip(j));
            }
        }
        lemma_open_from_later(bytes@, 0, k as int);
    }
    while k < n
        invariant
            k <= n,
            n == bytes.len(),
            open_from(bytes@, 0) == open_from(bytes@, k as int),
        decreases n - k,
    {
        let tail = vstd::slice::slice_subrange(bytes, k, n);
        let ghost t = bytes@.skip(k as int);
        assert(tail@ =~= t);
        match check_utf8(tail) {
            Ok(_) => {
                assert(t.take(t.len() as int) =~= t);
            },
            Err((valid, error_len)) => {
                if valid == 0 && error_len.is_none() {
                    assert(is_incomplete(t));
                    return k;
                }
                assert(!is_incomplete(t)) by {
                    if valid > 0 {
                        assert(valid_utf8(t.take(valid as int)));
                    }
                }
            },
        }
        k += 1;
    }
    n
}

proof fn lemma_incomplete_is_short(t: Seq<u8>)
    requires
        is_incomplete(t),
    ensures
        t.len() <= 3,
{
    let rest = choose|rest: Seq<u8>| #[trigger] valid_utf8(t + rest);
    let all = t + rest;
    let n = length_of_first_scalar(all);
    reveal_with_fuel(valid_utf8, 2);
    assert(1 <= n <= 4);
    if n <= t.len() {
        let first = t.take(n);
        assert(first[0] == all[0]);
        assert(n >= 2 ==> first[1] == all[1]);
        assert(n >= 3 ==> first[2] == all[2]);
        assert(n >= 4 ==> first[3] == all[3]);
        assert(valid_first_scalar(first));
        assert(pop_first_scalar(first) =~= Seq::<u8>::empty());
        assert(valid_utf8(first));
    }
}

proof fn lemma_open_from_later(bytes: Seq<u8>, i: int, k: int)
    requires
        0 <= i <= k <= bytes.len(),
        forall|j: int| i <= j < k ==> !is_incomplete(#[trigger] bytes.skip(j)),
    ensures
        open_from(bytes, i) == open_from(bytes, k),
    decreases k - i,
{
    if i < k {
        assert(!is_incomplete(bytes.skip(i)));
        lemma_open_from_later(bytes, i + 1, k);
    }
}

proof fn lemma_open_from_range(bytes: Seq<u8>, i: int)
    requires
        0 <= i <= bytes.len(),
    ensures
        i <= open_from(bytes, i) <= bytes.len(),
        open_from(bytes, i) < bytes.len() ==> is_incomplete(bytes.skip(open_from(bytes, i))),
    decreases bytes.len() - i,
{
    if i < bytes.len() && !is_incomplete(bytes.skip(i)) {
        lemma_open_from_range(bytes, i + 1);
    }
}

proof fn lemma_open_from_completable(all: Seq<u8>)
    requires
        completable(all),
    ensures
        is_valid_prefix(all, open_from(all, 0)),
{
    let rest = choose|rest: Seq<u8>| #[trigger] valid_utf8(all + rest);
    assert(forall|m: int| all.len() < m <= all.len() ==> !valid_utf8(#[trigger] all.take(m)));
    lemma_valid_prefix_exists(all, all.len() as int);
    let n = valid_prefix(all);
    let a = all.take(n);
    assert(all + rest =~= a + (all.skip(n) + rest));
    lemma_split_valid(a, all.skip(n) + rest);
    assert forall|j: int| 0 <= j < n implies !is_incomplete(#[trigger] all.skip(j)) by {
        let t = all.skip(j);
        is_char_boundary_iff_not_is_continuation_byte(a, j);
        assert(t[0] == a[j]);
        if is_continuation_byte(a[j]) {
            if completable(t) {
                let more = choose|more: Seq<u8>| #[trigger] valid_utf8(t + more);
                assert((t + more)[0] == t[0]);
                assert(valid_first_scalar(t + more));
            }
        } else {
            valid_utf8_split(a, j);
            assert(a.subrange(j, n) =~= t.take(n - j));
        }
    }
    lemma_open_from_later(all, 0, n);
    if n < all.len() {
        let t = all.skip(n);
        assert(valid_utf8(t + rest));
        assert forall|m: int| 0 < m <= t.len() implies !valid_utf8(#[trigger] t.take(m)) by {
            if valid_utf8(t.take(m)) {
                valid_utf8_concat(a, t.take(m));
                assert(a + t.take(m) =~= all.take(n + m));
            }
        }
        assert(is_incomplete(t));
    }
}

/// There is one longest valid prefix.
pub proof fn lemma_valid_prefix_unique(bytes: Seq<u8>, n: int)
    requires
        is_valid_prefix(bytes, n),
    ensures
        valid_prefix(bytes) == n,
{
    let v = valid_prefix(bytes);
    assert(is_valid_prefix(bytes, v));
    if v < n {
        assert(!valid_utf8(bytes.take(n)));
    } else if n < v {
        assert(!valid_utf8(bytes.take(v)));
    }
}

/// Every byte sequence begins with some longest valid UTF-8 (the empty one, if no other).
proof fn lemma_valid_prefix_exists(bytes: Seq<u8>, k: int)
    requires
        0 <= k <= bytes.len(),
        forall|m: int| k < m <= bytes.len() ==> !valid_utf8(#[trigger] bytes.take(m)),
    ensures
        is_valid_prefix(bytes, valid_prefix(bytes)),
    decreases k,
{
    if valid_utf8(bytes.take(k)) {
        assert(is_valid_prefix(bytes, k));
    } else if k > 0 {
        lemma_valid_prefix_exists(bytes, k - 1);
    } else {
        assert(bytes.take(0) =~= Seq::<u8>::empty());
    }
}

/// Valid UTF-8 that begins with valid UTF-8 `a` is `a` followed by valid UTF-8, and decodes so.
proof fn lemma_split_valid(a: Seq<u8>, b: Seq<u8>)
    requires
        valid_utf8(a),
        valid_utf8(a + b),
    ensures
        valid_utf8(b),
        decode_utf8(a + b) == decode_utf8(a) + decode_utf8(b),
    decreases a.len(),
{
    if a.len() == 0 {
        assert(a + b =~= b);
        assert(decode_utf8(a) + decode_utf8(b) =~= decode_utf8(b));
    } else {
        let n = length_of_first_scalar(a);
        assert((a + b)[0] == a[0]);
        assert(n >= 2 ==> (a + b)[1] == a[1]);
        assert(n >= 3 ==> (a + b)[2] == a[2]);
        assert(n >= 4 ==> (a + b)[3] == a[3]);
        assert(pop_first_scalar(a + b) =~= pop_first_scalar(a) + b);
        lemma_split_valid(pop_first_scalar(a), b);
        assert(decode_utf8(a + b) =~= decode_utf8(a) + decode_utf8(b));
    }
}

/// While the stream is valid UTF-8, one step loses nothing: what is given out, followed by the
/// decoding of what is held and of what is still to come, is the decoding of the whole.
pub proof fn utf8_step_is_lossless(held: Seq<u8>, chunk: Seq<u8>, rest: Seq<u8>)
    requires
        valid_utf8(held + (chunk + rest)),
    ensures
        valid_utf8(utf8_step(held, chunk).0 + rest),
        decode_utf8(held + (chunk + rest)) == utf8_step(held, chunk).1 + decode_utf8(
            utf8_step(held, chunk).0 + rest,
        ),
{
    let all = held + chunk;
    assert(held + (chunk + rest) =~= all + rest);
    assert(completable(all));
    lemma_open_from_completable(all);
    let n = open_from(all, 0);
    assert(all + rest =~= all.take(n) + (all.skip(n) + rest));
    lemma_split_valid(all.take(n), all.skip(n) + rest);
}

/// What a decoder that holds `held` gives out for a list of chunks, and what it holds then.
pub open spec fn utf8_run(held: Seq<u8>, chunks: Seq<Seq<u8>>) -> (Seq<u8>, Seq<char>)
    decreases chunks.len(),
{
    if chunks.len() == 0 {
        (held, Seq::empty())
    } else {
        let (h, out) = utf8_step(held, chunks[0]);
        let (h2, out2) = utf8_run(h, chunks.drop_first());
        (h2, out + out2)
    }
}

/// The chunks one after the other.
pub open spec fn all_bytes(chunks: Seq<Seq<u8>>) -> Seq<u8>
    decreases chunks.len(),
{
    if chunks.len() == 0 {
        Seq::empty()
    } else {
        chunks[0] + all_bytes(chunks.drop_first())
    }
}

/// A stream of valid UTF-8, however it is cut into chunks, decodes to the same text as at once,
/// and leaves nothing held back.
pub proof fn text_does_not_depend_on_chunks(held: Seq<u8>, chunks: Seq<Seq<u8>>)
    requires
        valid_utf8(held + all_bytes(chunks)),
        chunks.len() > 0 || held.len() == 0,
    ensures
        utf8_run(held, chunks).0 == Seq::<u8>::empty(),
        utf8_run(held, chunks).1 == decode_utf8(held + all_bytes(chunks)),
    decreases chunks.len(),
{
    if chunks.len() == 0 {
        assert(held + all_bytes(chunks) =~= Seq::<u8>::empty());
    } else {
        let rest = all_bytes(chunks.drop_first());
        let (h, out) = utf8_step(held, chunks[0]);
        utf8_step_is_lossless(held, chunks[0], rest);
        if chunks.len() == 1 {
            let all = held + chunks[0];
            assert(held + all_bytes(chunks) =~= all);
            assert(all + Seq::<u8>::empty() =~= all);
            assert(all.take(all.len() as int) =~= all);
            lemma_open_from_completable(all);
            lemma_valid_prefix_unique(all, all.len() as int);
            lemma_valid_prefix_unique(all, open_from(all, 0));
            assert(h =~= Seq::<u8>::empty());
            text_does_not_depend_on_chunks(h, chunks.drop_first());
        } else {
            text_does_not_depend_on_chunks(h, chunks.drop_first());
        }
    }
}

/// A character that is split across chunks is held back until it is complete, whatever came
/// before it: what is held is the beginning of a character or nothing, and with the rest of the
/// character it is decoded to it.
pub proof fn split_character_is_completed(held: Seq<u8>, chunk: Seq<u8>, rest: Seq<u8>)
    ensures
        utf8_step(held, chunk).0.len() > 0 ==> is_incomplete(utf8_step(held, chunk).0),
        held + chunk == (held + chunk).take(open_from(held + chunk, 0)) + utf8_step(held, chunk).0,
        valid_utf8(utf8_step(held, chunk).0 + rest) ==> utf8_step(utf8_step(held, chunk).0, rest)
            == (Seq::<u8>::empty(), decode_utf8(utf8_step(held, chunk).0 + rest)),
{
    let all = held + chunk;
    lemma_open_from_range(all, 0);
    assert(all =~= all.take(open_from(all, 0)) + utf8_step(held, chunk).0);
    let t = utf8_step(held, chunk).0 + rest;
    if valid_utf8(t) {
        assert(t + Seq::<u8>::empty() =~= t);
        assert(t.take(t.len() as int) =~= t);
        lemma_open_from_completable(t);
        lemma_valid_prefix_unique(t, t.len() as int);
        lemma_valid_prefix_unique(t, open_from(t, 0));
        assert(t.skip(t.len() as int) =~= Seq::<u8>::empty());
    }
}

/// Every byte sequence begins with a longest valid UTF-8.
pub proof fn longest_valid_beginning_exists(bytes: Seq<u8>)
    ensures
        0 <= valid_prefix(bytes) <= bytes.len(),
        valid_utf8(bytes.take(valid_prefix(bytes))),
        forall|m: int|
            valid_prefix(bytes) < m <= bytes.len() ==> !valid_utf8(#[trigger] bytes.take(m)),
{
    lemma_valid_prefix_exists(bytes, bytes.len() as int);
}

/// Text that was decoded is handed out whole, where there is any.
pub proof fn decoded_text_is_handed_out(s: Seq<char>)
    ensures
        s.len() > 0 ==> non_empty(s) == Some(s),
        s.len() == 0 ==> non_empty(s) is None,
{
}

} // verus!
