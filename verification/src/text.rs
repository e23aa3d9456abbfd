//! Text primitives: comparison, searching, splitting and building of strings,
//! each stated over the sequence of characters that a string holds.
use vstd::prelude::*;
use vstd::string::*;
use vstd::utf8::*;

verus! {

/// `String::push` appends the given character to the end of the string.
pub assume_specification[ String::push ](s: &mut String, c: char)
    ensures
        final(s)@ == old(s)@.push(c),
;

/// Two strings with the same bytes hold the same characters.
pub proof fn lemma_bytes_determine_chars(a: Seq<char>, b: Seq<char>)
    requires
        encode_utf8(a) == encode_utf8(b),
    ensures
        a == b,
{
    encode_utf8_decode_utf8(a);
    encode_utf8_decode_utf8(b);
}

/// Whether two strings are equal.
pub fn str_eq(a: &str, b: &str) -> (r: bool)
    ensures
        r == (a@ == b@),
{
    let x = a.as_bytes();
    let y = b.as_bytes();
    if x.len() != y.len() {
        return false;
    }
    let mut i: usize = 0;
    while i < x.len()
        invariant
            x@ == encode_utf8(a@),
            y@ == encode_utf8(b@),
            x.len() == y.len(),
            i <= x.len(),
            forall|j: int| 0 <= j < i ==> x@[j] == y@[j],
        decreases x.len() - i,
    {
        if x[i] != y[i] {
            return false;
        }
        i += 1;
    }
    proof {
        assert(x@ =~= y@);
        lemma_bytes_determine_chars(a@, b@);
    }
    true
}

/// The characters of a string.
pub fn chars_of(s: &str) -> (r: Vec<char>)
    ensures
        r@ == s@,
{
    let mut out: Vec<char> = Vec::new();
    for c in it: s.chars()
        invariant
            it.seq() == s@,
            out@ == s@.take(it.index()),
    {
        out.push(c);
        assert(s@.take(it.index() + 1) == s@.take(it.index()).push(c));
    }
    assert(s@.take(s@.len() as int) == s@);
    out
}

/// The string that holds the characters from `from` up to `to`.
pub fn string_of(cs: &Vec<char>, from: usize, to: usize) -> (r: String)
    requires
        from <= to <= cs.len(),
    ensures
        r@ == cs@.subrange(from as int, to as int),
{
    let mut out = String::new();
    let mut i: usize = from;
    while i < to
        invariant
            from <= i <= to <= cs.len(),
            out@ == cs@.subrange(from as int, i as int),
        decreases to - i,
    {
        out.push(cs[i]);
        i += 1;
        assert(cs@.subrange(from as int, i as int) == cs@.subrange(from as int, i - 1).push(cs@[i - 1]));
    }
    out
}

/// Whether `p` stands in `s` at index `i`.
pub open spec fn matches_at(s: Seq<char>, p: Seq<char>, i: int) -> bool {
    0 <= i && i + p.len() <= s.len() && s.subrange(i, i + p.len()) == p
}

/// The first index, from `from` on, at which `p` stands in `s`.
pub open spec fn find_from(s: Seq<char>, p: Seq<char>, from: int) -> Option<int>
    decreases s.len() + 1 - from,
{
    if from < 0 || from + p.len() > s.len() {
        None
    } else if matches_at(s, p, from) {
        Some(from)
    } else {
        find_from(s, p, from + 1)
    }
}

/// Whether `p` stands somewhere in `s`.
pub open spec fn contains_text(s: Seq<char>, p: Seq<char>) -> bool {
    exists|i: int| matches_at(s, p, i)
}

/// A found index is a match, no earlier one is, and `None` means that there is none.
pub proof fn lemma_find_from(s: Seq<char>, p: Seq<char>, from: int)
    requires
        0 <= from,
    ensures
        match find_from(s, p, from) {
            Some(k) => from <= k && matches_at(s, p, k) && forall|i: int|
                from <= i < k ==> !matches_at(s, p, i),
            None => forall|i: int| from <= i ==> !matches_at(s, p, i),
        },
    decreases s.len() + 1 - from,
{
    if from + p.len() <= s.len() && !matches_at(s, p, from) {
        lemma_find_from(s, p, from + 1);
    }
}

/// Whether `p` stands in `s` at index `i`.
pub fn is_match_at(s: &Vec<char>, p: &Vec<char>, i: usize) -> (r: bool)
    ensures
        r == matches_at(s@, p@, i as int),
{
    if i > s.len() || p.len() > s.len() - i {
        return false;
    }
    let mut k: usize = 0;
    while k < p.len()
        invariant
            k <= p.len(),
            i + p.len() <= s.len(),
            forall|j: int| 0 <= j < k ==> s@[i + j] == p@[j],
        decreases p.len() - k,
    {
        if s[i + k] != p[k] {
            assert(s@.subrange(i as int, i + p.len())[k as int] != p@[k as int]);
            return false;
        }
        k += 1;
    }
    assert(s@.subrange(i as int, i + p.len()) =~= p@);
    true
}

/// The first index, from `from` on, at which `p` stands in `s`.
pub fn find_chars(s: &Vec<char>, p: &Vec<char>, from: usize) -> (r: Option<usize>)
    ensures
        match r {
            Some(k) => find_from(s@, p@, from as int) == Some(k as int) && from <= k && k + p.len()
                <= s.len(),
            None => find_from(s@, p@, from as int) is None,
        },
{
    let mut i: usize = from;
    while i <= s.len() && p.len() <= s.len() - i
        invariant
            from <= i,
            find_from(s@, p@, from as int) == find_from(s@, p@, i as int),
        decreases s.len() + 1 - i,
    {
        if is_match_at(s, p, i) {
            return Some(i);
        }
        if i == s.len() {
            assert(find_from(s@, p@, i as int) == find_from(s@, p@, i + 1));
            return None;
        }
        i += 1;
    }
    None
}

/// Whether `p` stands somewhere in `s`.
pub fn contains(s: &str, p: &str) -> (r: bool)
    ensures
        r == contains_text(s@, p@),
{
    let sc = chars_of(s);
    let pc = chars_of(p);
    let found = find_chars(&sc, &pc, 0);
    proof {
        lemma_find_from(s@, p@, 0);
    }
    found.is_some()
}

/// Whether `s` begins with `p`.
pub fn starts_with(s: &str, p: &str) -> (r: bool)
    ensures
        r == p@.is_prefix_of(s@),
{
    let sc = chars_of(s);
    let pc = chars_of(p);
    is_match_at(&sc, &pc, 0)
}

/// What follows the prefix `p`, where `s` begins with it.
pub open spec fn without_prefix(s: Seq<char>, p: Seq<char>) -> Option<Seq<char>> {
    if p.is_prefix_of(s) {
        Some(s.skip(p.len() as int))
    } else {
        None
    }
}

/// What follows the prefix `p`, where `s` begins with it.
pub fn strip_prefix(s: &str, p: &str) -> (r: Option<String>)
    ensures
        match r {
            Some(t) => without_prefix(s@, p@) == Some(t@),
            None => without_prefix(s@, p@) is None,
        },
{
    let sc = chars_of(s);
    let pc = chars_of(p);
    if is_match_at(&sc, &pc, 0) {
        assert(s@.subrange(p@.len() as int, s@.len() as int) == s@.skip(p@.len() as int));
        Some(string_of(&sc, pc.len(), sc.len()))
    } else {
        None
    }
}

/// How often the non-empty `p` stands in `s` from `from` on, where the places do not overlap
/// and each is the first one possible.
pub open spec fn occurrences(s: Seq<char>, p: Seq<char>, from: int) -> nat
    decreases s.len() + 1 - from,
{
    match find_from(s, p, from) {
        Some(k) => if p.len() > 0 && from <= k && k + p.len() <= s.len() {
            1 + occurrences(s, p, k + p.len())
        } else {
            0
        },
        None => 0,
    }
}

/// `s` from `from` on, with the first `n` of those places of `p` replaced by `with`.
pub open spec fn replaced_from(
    s: Seq<char>,
    p: Seq<char>,
    with: Seq<char>,
    n: nat,
    from: int,
) -> Seq<char>
    decreases n,
{
    if n == 0 {
        s.skip(from)
    } else {
        match find_from(s, p, from) {
            Some(k) => s.subrange(from, k) + with + replaced_from(
                s,
                p,
                with,
                (n - 1) as nat,
                k + p.len(),
            ),
            None => s.skip(from),
        }
    }
}

/// How often the non-empty `p` stands in `s`, counted without overlaps.
pub fn count_matches(s: &str, p: &str) -> (r: usize)
    requires
        p@.len() > 0,
    ensures
        r == occurrences(s@, p@, 0),
{
    let sc = chars_of(s);
    let pc = chars_of(p);
    let mut from: usize = 0;
    let mut n: usize = 0;
    while from <= sc.len()
        invariant_except_break
            n + occurrences(s@, p@, from as int) == occurrences(s@, p@, 0),
        invariant
            sc@ == s@,
            pc@ == p@,
            p@.len() > 0,
            n <= from <= sc.len(),
        ensures
            n == occurrences(s@, p@, 0),
        decreases sc.len() + 1 - from,
    {
        match find_chars(&sc, &pc, from) {
            Some(k) => {
                n += 1;
                from = k + pc.len();
            },
            None => {
                break;
            },
        }
    }
    n
}

/// `s` with the first `n` places of the non-empty `p` replaced by `with`.
pub fn replace_n(s: &str, p: &str, with: &str, n: usize) -> (r: String)
    requires
        p@.len() > 0,
    ensures
        r@ == replaced_from(s@, p@, with@, n as nat, 0),
{
    let sc = chars_of(s);
    let pc = chars_of(p);
    let mut out = String::new();
    let mut from: usize = 0;
    let mut left: usize = n;
    assert(replaced_from(s@, p@, with@, n as nat, 0) == out@ + replaced_from(s@, p@, with@, n as nat, 0));
    while left > 0
        invariant_except_break
            replaced_from(s@, p@, with@, n as nat, 0) == out@ + replaced_from(
                s@,
                p@,
                with@,
                left as nat,
                from as int,
            ),
        invariant
            sc@ == s@,
            pc@ == p@,
            p@.len() > 0,
            from <= sc.len(),
        ensures
            replaced_from(s@, p@, with@, n as nat, 0) == out@ + s@.skip(from as int),
        decreases left,
    {
        match find_chars(&sc, &pc, from) {
            Some(k) => {
                let ghost before = out@;
                let kept = string_of(&sc, from, k);
                out.append(kept.as_str());
                out.append(with);
                proof {
                    let rest = replaced_from(s@, p@, with@, (left - 1) as nat, k + p@.len());
                    assert(before + (s@.subrange(from as int, k as int) + with@ + rest) == before + s@.subrange(from as int, k as int) + with@ + rest);
                }
                from = k + pc.len();
                left -= 1;
            },
            None => {
                break;
            },
        }
    }
    let rest = string_of(&sc, from, sc.len());
    assert(s@.subrange(from as int, s@.len() as int) == s@.skip(from as int));
    out.append(rest.as_str());
    out
}

/// What the strings of a list hold.
pub open spec fn views(v: Seq<String>) -> Seq<Seq<char>> {
    v.map_values(|s: String| s@)
}

/// What an optional string holds.
pub open spec fn opt_view(o: Option<String>) -> Option<Seq<char>> {
    match o {
        Some(s) => Some(s@),
        None => None,
    }
}

/// The views of a list with one string more.
pub proof fn lemma_views_push(v: Seq<String>, s: String)
    ensures
        views(v.push(s)) == views(v).push(s@),
{
    assert(views(v.push(s)) =~= views(v).push(s@));
}

/// The concatenation of two string slices.
pub fn concat2(a: &str, b: &str) -> (r: String)
    ensures
        r@ == a@ + b@,
{
    let mut out = a.to_owned();
    out.append(b);
    out
}

/// The concatenation of three string slices.
pub fn concat3(a: &str, b: &str, c: &str) -> (r: String)
    ensures
        r@ == a@ + b@ + c@,
{
    let mut out = a.to_owned();
    out.append(b);
    out.append(c);
    out
}

/// The parts with `sep` between each two of them.
pub open spec fn joined(parts: Seq<Seq<char>>, sep: Seq<char>) -> Seq<char>
    decreases parts.len(),
{
    if parts.len() == 0 {
        Seq::empty()
    } else if parts.len() == 1 {
        parts[0]
    } else {
        joined(parts.drop_last(), sep) + sep + parts.last()
    }
}

/// The strings with `sep` between each two of them.
pub fn join(parts: &Vec<String>, sep: &str) -> (r: String)
    ensures
        r@ == joined(views(parts@), sep@),
{
    let mut out = String::new();
    let mut i: usize = 0;
    while i < parts.len()
        invariant
            i <= parts.len(),
            out@ == joined(views(parts@.take(i as int)), sep@),
        decreases parts.len() - i,
    {
        if i > 0 {
            out.append(sep);
        }
        out.append(parts[i].as_str());
        proof {
            let now = views(parts@.take(i + 1));
            assert(now.drop_last() =~= views(parts@.take(i as int)));
            assert(now.last() == parts@[i as int]@);
            if i == 0 {
                assert(out@ =~= now[0]);
            }
        }
        i += 1;
    }
    assert(parts@.take(parts.len() as int) =~= parts@);
    out
}

/// A line without the carriage return that ends it, if one does.
pub open spec fn strip_cr(s: Seq<char>) -> Seq<char> {
    if s.len() > 0 && s.last() == '\r' {
        s.drop_last()
    } else {
        s
    }
}

/// The lines that a line feed ends in `s`, each without its terminator (`\n` or `\r\n`).
pub open spec fn complete_lines(s: Seq<char>) -> Seq<Seq<char>>
    decreases s.len(),
{
    if s.len() == 0 {
        Seq::empty()
    } else if s.last() == '\n' {
        complete_lines(s.drop_last()).push(strip_cr(open_line(s.drop_last())))
    } else {
        complete_lines(s.drop_last())
    }
}

/// What follows the last line feed of `s`.
pub open spec fn open_line(s: Seq<char>) -> Seq<char>
    decreases s.len(),
{
    if s.len() == 0 || s.last() == '\n' {
        Seq::empty()
    } else {
        open_line(s.drop_last()).push(s.last())
    }
}

/// The lines of `s`; an unterminated last one counts where it is not empty.
pub open spec fn all_lines(s: Seq<char>) -> Seq<Seq<char>> {
    if open_line(s).len() == 0 {
        complete_lines(s)
    } else {
        complete_lines(s).push(open_line(s))
    }
}

/// Splitting `a + b` gives the lines of `a`, and then those of its open line continued by `b`.
pub proof fn lemma_lines_concat(a: Seq<char>, b: Seq<char>)
    ensures
        complete_lines(a + b) == complete_lines(a) + complete_lines(open_line(a) + b),
        open_line(a + b) == open_line(open_line(a) + b),
    decreases b.len(),
{
    if b.len() == 0 {
        assert(a + b =~= a);
        assert(open_line(a) + b =~= open_line(a));
        lemma_open_line_is_open(a);
        assert(complete_lines(a) + Seq::<Seq<char>>::empty() =~= complete_lines(a));
    } else {
        lemma_lines_concat(a, b.drop_last());
        assert((a + b).drop_last() =~= a + b.drop_last());
        assert((open_line(a) + b).drop_last() =~= open_line(a) + b.drop_last());
        assert((a + b).last() == b.last());
        assert((open_line(a) + b).last() == b.last());
        if b.last() == '\n' {
            let l = strip_cr(open_line(a + b.drop_last()));
            assert(complete_lines(a + b) =~= (complete_lines(a) + complete_lines(
                open_line(a) + b.drop_last(),
            )).push(l));
            assert(complete_lines(open_line(a) + b) =~= complete_lines(
                open_line(a) + b.drop_last(),
            ).push(l));
            assert(complete_lines(a + b) =~= complete_lines(a) + complete_lines(open_line(a) + b));
        }
    }
}

/// An open line holds no line feed: it splits into nothing but itself.
pub proof fn lemma_open_line_is_open(s: Seq<char>)
    ensures
        complete_lines(open_line(s)) == Seq::<Seq<char>>::empty(),
        open_line(open_line(s)) == open_line(s),
    decreases s.len(),
{
    if s.len() > 0 && s.last() != '\n' {
        lemma_open_line_is_open(s.drop_last());
        assert(open_line(s).drop_last() =~= open_line(s.drop_last()));
    }
}

/// The line that `line` holds, without a carriage return at its end.
pub fn without_cr(line: &Vec<char>) -> (r: String)
    ensures
        r@ == strip_cr(line@),
{
    if line.len() > 0 && line[line.len() - 1] == '\r' {
        assert(line@.subrange(0, line.len() - 1) =~= line@.drop_last());
        string_of(line, 0, line.len() - 1)
    } else {
        assert(line@.subrange(0, line.len() as int) =~= line@);
        string_of(line, 0, line.len())
    }
}

/// Splits `held` continued by `chunk` into its complete lines, and leaves its open line in `held`.
pub fn take_lines(held: &mut Vec<char>, chunk: &str) -> (r: Vec<String>)
    requires
        open_line(old(held)@) == old(held)@,
    ensures
        views(r@) == complete_lines(old(held)@ + chunk@),
        final(held)@ == open_line(old(held)@ + chunk@),
{
    let cs = chars_of(chunk);
    let mut out: Vec<String> = Vec::new();
    let mut i: usize = 0;
    proof {
        lemma_open_line_is_open(held@);
        assert(held@ + chunk@.take(0) =~= held@);
        assert(views(out@) =~= Seq::<Seq<char>>::empty());
    }
    while i < cs.len()
        invariant
            i <= cs.len(),
            cs@ == chunk@,
            views(out@) == complete_lines(old(held)@ + chunk@.take(i as int)),
            held@ == open_line(old(held)@ + chunk@.take(i as int)),
        decreases cs.len() - i,
    {
        let c = cs[i];
        proof {
            let now = old(held)@ + chunk@.take(i + 1);
            assert(now.drop_last() =~= old(held)@ + chunk@.take(i as int));
            assert(now.last() == c);
        }
        if c == '\n' {
            let line = without_cr(held);
            proof {
                lemma_views_push(out@, line);
            }
            out.push(line);
            held.clear();
        } else {
            held.push(c);
        }
        i += 1;
    }
    assert(chunk@.take(cs.len() as int) =~= chunk@);
    out
}

/// The lines of `s`; an unterminated last one counts where it is not empty.
pub fn lines(s: &str) -> (r: Vec<String>)
    ensures
        views(r@) == all_lines(s@),
{
    let mut held: Vec<char> = Vec::new();
    let mut out = take_lines(&mut held, s);
    assert(Seq::<char>::empty() + s@ =~= s@);
    if held.len() > 0 {
        let last = string_of(&held, 0, held.len());
        proof {
            assert(held@.subrange(0, held.len() as int) =~= held@);
            lemma_views_push(out@, last);
        }
        out.push(last);
    }
    out
}

/// The decimal digit for a number below ten.
pub open spec fn digit(d: nat) -> char {
    (48 + d) as char
}

/// The decimal representation of a number.
pub open spec fn decimal(n: nat) -> Seq<char>
    decreases n,
{
    if n < 10 {
        seq![digit(n)]
    } else {
        decimal(n / 10).push(digit(n % 10))
    }
}

/// The decimal representation of a number.
pub fn decimal_of(n: u64) -> (r: String)
    ensures
        r@ == decimal(n as nat),
    decreases n,
{
    let d: u8 = (n % 10) as u8;
    let c = (48u8 + d) as char;
    let mut out = if n < 10 {
        String::new()
    } else {
        decimal_of(n / 10)
    };
    out.push(c);
    assert(n < 10 ==> out@ =~= seq![digit(n as nat)]);
    out
}

/// Whether a character has the Unicode property White_Space.
pub open spec fn is_white(c: char) -> bool {
    ||| 0x9 <= c as u32 <= 0xd
    ||| c as u32 == 0x20
    ||| c as u32 == 0x85
    ||| c as u32 == 0xa0
    ||| c as u32 == 0x1680
    ||| 0x2000 <= c as u32 <= 0x200a
    ||| c as u32 == 0x2028
    ||| c as u32 == 0x2029
    ||| c as u32 == 0x202f
    ||| c as u32 == 0x205f
    ||| c as u32 == 0x3000
}

/// Whether a character has the Unicode property White_Space.
pub fn is_whitespace(c: char) -> (r: bool)
    ensures
        r == is_white(c),
{
    let n: u32 = c as u32;
    (n >= 0x9 && n <= 0xd) || n == 0x20 || n == 0x85 || n == 0xa0 || n == 0x1680 || (n >= 0x2000
        && n <= 0x200a) || n == 0x2028 || n == 0x2029 || n == 0x202f || n == 0x205f || n == 0x3000
}

/// A text without the whitespace that it begins with.
pub open spec fn trimmed_start(s: Seq<char>) -> Seq<char>
    decreases s.len(),
{
    if s.len() > 0 && is_white(s[0]) {
        trimmed_start(s.drop_first())
    } else {
        s
    }
}

/// A text without the whitespace that it ends with.
pub open spec fn trimmed_end(s: Seq<char>) -> Seq<char>
    decreases s.len(),
{
    if s.len() > 0 && is_white(s.last()) {
        trimmed_end(s.drop_last())
    } else {
        s
    }
}

/// A text without the whitespace around it.
pub open spec fn trimmed(s: Seq<char>) -> Seq<char> {
    trimmed_end(trimmed_start(s))
}

/// A text without the whitespace that it begins with.
pub fn trim_start(s: &str) -> (r: String)
    ensures
        r@ == trimmed_start(s@),
{
    let cs = chars_of(s);
    let mut i: usize = 0;
    assert(s@.skip(0) =~= s@);
    while i < cs.len() && is_whitespace(cs[i])
        invariant
            i <= cs.len(),
            cs@ == s@,
            trimmed_start(s@) == trimmed_start(s@.skip(i as int)),
        decreases cs.len() - i,
    {
        assert(s@.skip(i as int).drop_first() =~= s@.skip(i + 1));
        i += 1;
    }
    assert(s@.subrange(i as int, s@.len() as int) =~= s@.skip(i as int));
    string_of(&cs, i, cs.len())
}

/// A text without the whitespace that it ends with.
pub fn trim_end(s: &str) -> (r: String)
    ensures
        r@ == trimmed_end(s@),
{
    let cs = chars_of(s);
    let mut n: usize = cs.len();
    assert(s@.take(n as int) =~= s@);
    while n > 0 && is_whitespace(cs[n - 1])
        invariant
            n <= cs.len(),
            cs@ == s@,
            trimmed_end(s@) == trimmed_end(s@.take(n as int)),
        decreases n,
    {
        assert(s@.take(n as int).drop_last() =~= s@.take(n - 1));
        n -= 1;
    }
    assert(s@.subrange(0, n as int) =~= s@.take(n as int));
    string_of(&cs, 0, n)
}

/// A text without the whitespace around it.
pub fn trim(s: &str) -> (r: String)
    ensures
        r@ == trimmed(s@),
{
    let t = trim_start(s);
    trim_end(t.as_str())
}

/// A text without the characters `c` that it ends with.
pub open spec fn trimmed_end_of(s: Seq<char>, c: char) -> Seq<char>
    decreases s.len(),
{
    if s.len() > 0 && s.last() == c {
        trimmed_end_of(s.drop_last(), c)
    } else {
        s
    }
}

/// A text without the characters `c` that it ends with.
pub fn trim_end_of(s: &str, c: char) -> (r: String)
    ensures
        r@ == trimmed_end_of(s@, c),
{
    let cs = chars_of(s);
    let mut n: usize = cs.len();
    assert(s@.take(n as int) =~= s@);
    while n > 0 && cs[n - 1] == c
        invariant
            n <= cs.len(),
            cs@ == s@,
            trimmed_end_of(s@, c) == trimmed_end_of(s@.take(n as int), c),
        decreases n,
    {
        assert(s@.take(n as int).drop_last() =~= s@.take(n - 1));
        n -= 1;
    }
    assert(s@.subrange(0, n as int) =~= s@.take(n as int));
    string_of(&cs, 0, n)
}

/// At most the first `n` characters of a text.
pub open spec fn first_chars(s: Seq<char>, n: int) -> Seq<char> {
    if n < s.len() {
        s.take(n)
    } else {
        s
    }
}

/// At most the first `n` characters of a text.
pub fn take_chars(s: &str, n: usize) -> (r: String)
    ensures
        r@ == first_chars(s@, n as int),
{
    let cs = chars_of(s);
    let m: usize = if n < cs.len() {
        n
    } else {
        cs.len()
    };
    assert(s@.subrange(0, m as int) =~= first_chars(s@, n as int));
    string_of(&cs, 0, m)
}

/// A text with every character `a` replaced by `b`.
pub open spec fn with_char(s: Seq<char>, a: char, b: char) -> Seq<char> {
    s.map_values(
        |c: char|
            if c == a {
                b
            } else {
                c
            },
    )
}

/// A text with every character `a` replaced by `b`.
pub fn replace_char(s: &str, a: char, b: char) -> (r: String)
    ensures
        r@ == with_char(s@, a, b),
{
    let cs = chars_of(s);
    let mut out = String::new();
    let mut i: usize = 0;
    while i < cs.len()
        invariant
            i <= cs.len(),
            cs@ == s@,
            out@ =~= with_char(s@, a, b).take(i as int),
        decreases cs.len() - i,
    {
        if cs[i] == a {
            out.push(b);
        } else {
            out.push(cs[i]);
        }
        i += 1;
    }
    out
}

/// The pieces of a text between the characters `c`.
pub open spec fn split_on(s: Seq<char>, c: char) -> Seq<Seq<char>>
    decreases s.len(),
{
    if s.len() == 0 {
        seq![Seq::empty()]
    } else if s.last() == c {
        split_on(s.drop_last(), c).push(Seq::empty())
    } else {
        let before = split_on(s.drop_last(), c);
        before.drop_last().push(before.last().push(s.last()))
    }
}

/// There is always a piece.
pub proof fn lemma_split_on_len(s: Seq<char>, c: char)
    ensures
        split_on(s, c).len() >= 1,
    decreases s.len(),
{
    if s.len() > 0 {
        lemma_split_on_len(s.drop_last(), c);
    }
}

/// A piece without `c`, behind a `c`, is one more piece.
pub proof fn lemma_split_on_append(a: Seq<char>, b: Seq<char>, c: char)
    requires
        !b.contains(c),
    ensures
        split_on(a.push(c) + b, c) == split_on(a, c).push(b),
    decreases b.len(),
{
    if b.len() == 0 {
        assert(a.push(c) + b =~= a.push(c));
        assert(a.push(c).drop_last() =~= a);
        assert(b =~= Seq::<char>::empty());
    } else {
        let t = b.drop_last();
        assert(!t.contains(c)) by {
            if t.contains(c) {
                let i = choose|i: int| 0 <= i < t.len() && t[i] == c;
                assert(b[i] == c);
            }
        }
        lemma_split_on_append(a, t, c);
        assert((a.push(c) + b).drop_last() =~= a.push(c) + t);
        assert((a.push(c) + b).last() == b.last());
        assert(b[b.len() - 1] != c);
        let before = split_on(a, c).push(t);
        assert(before.drop_last() =~= split_on(a, c));
        assert(t.push(b.last()) =~= b);
    }
}

/// The pieces of a text between the characters `c`.
pub fn split(s: &str, c: char) -> (r: Vec<String>)
    ensures
        views(r@) == split_on(s@, c),
{
    let cs = chars_of(s);
    let mut out: Vec<String> = Vec::new();
    let mut cur = String::new();
    let mut i: usize = 0;
    assert(views(out@).push(cur@) =~= split_on(s@.take(0), c));
    while i < cs.len()
        invariant
            i <= cs.len(),
            cs@ == s@,
            views(out@).push(cur@) == split_on(s@.take(i as int), c),
        decreases cs.len() - i,
    {
        let ghost before = views(out@).push(cur@);
        proof {
            assert(s@.take(i + 1).drop_last() =~= s@.take(i as int));
            assert(s@.take(i + 1).last() == cs@[i as int]);
            assert(before.last() == cur@);
            assert(before.drop_last() =~= views(out@));
        }
        if cs[i] == c {
            proof {
                lemma_views_push(out@, cur);
            }
            out.push(cur);
            cur = String::new();
        } else {
            cur.push(cs[i]);
        }
        i += 1;
    }
    proof {
        assert(s@.take(cs.len() as int) =~= s@);
        lemma_views_push(out@, cur);
    }
    out.push(cur);
    out
}

/// Whether `a` comes before `b` in the order of code points, letter by letter; a text comes
/// before its continuations.
pub open spec fn before(a: Seq<char>, b: Seq<char>) -> bool
    decreases a.len(),
{
    if b.len() == 0 {
        false
    } else if a.len() == 0 {
        true
    } else if a[0] == b[0] {
        before(a.drop_first(), b.drop_first())
    } else {
        a[0] < b[0]
    }
}

/// Whether `a` comes before `b`.
pub fn comes_before(a: &str, b: &str) -> (r: bool)
    ensures
        r == before(a@, b@),
{
    let x = chars_of(a);
    let y = chars_of(b);
    let mut i: usize = 0;
    assert(a@.skip(0) =~= a@ && b@.skip(0) =~= b@);
    while i < x.len() && i < y.len() && x[i] == y[i]
        invariant
            i <= x.len(),
            i <= y.len(),
            x@ == a@,
            y@ == b@,
            before(a@, b@) == before(a@.skip(i as int), b@.skip(i as int)),
        decreases x.len() - i,
    {
        assert(a@.skip(i as int).drop_first() =~= a@.skip(i + 1));
        assert(b@.skip(i as int).drop_first() =~= b@.skip(i + 1));
        i += 1;
    }
    if i >= y.len() {
        false
    } else if i >= x.len() {
        true
    } else {
        x[i] < y[i]
    }
}

proof fn lemma_before_transitive(a: Seq<char>, b: Seq<char>, c: Seq<char>)
    requires
        before(a, b),
        !before(c, b),
    ensures
        before(a, c),
    decreases a.len(),
{
    if a.len() > 0 && b.len() > 0 && c.len() > 0 && a[0] == b[0] && b[0] == c[0] {
        lemma_before_transitive(a.drop_first(), b.drop_first(), c.drop_first());
    }
}

proof fn lemma_before_asymmetric(a: Seq<char>, b: Seq<char>)
    requires
        before(a, b),
    ensures
        !before(b, a),
    decreases a.len(),
{
    if a.len() > 0 && b.len() > 0 && a[0] == b[0] {
        lemma_before_asymmetric(a.drop_first(), b.drop_first());
    }
}

/// A list with one more item, which goes before the first item with a greater key.
pub open spec fn inserted<A>(s: Seq<A>, x: A, key: spec_fn(A) -> Seq<char>) -> Seq<A>
    decreases s.len(),
{
    if s.len() == 0 {
        seq![x]
    } else if before(key(x), key(s[0])) {
        seq![x] + s
    } else {
        seq![s[0]] + inserted(s.drop_first(), x, key)
    }
}

/// The items in the order of their keys; items with the same key stay in their order.
pub open spec fn sorted_by<A>(s: Seq<A>, key: spec_fn(A) -> Seq<char>) -> Seq<A>
    decreases s.len(),
{
    if s.len() == 0 {
        Seq::empty()
    } else {
        inserted(sorted_by(s.drop_last(), key), s.last(), key)
    }
}

/// Whether the keys do not decrease.
pub open spec fn in_order<A>(s: Seq<A>, key: spec_fn(A) -> Seq<char>) -> bool {
    forall|i: int, j: int|
        0 <= i < j < s.len() ==> !before(key(#[trigger] s[j]), key(#[trigger] s[i]))
}

/// Where the new item goes.
pub proof fn lemma_inserted_at<A>(s: Seq<A>, x: A, key: spec_fn(A) -> Seq<char>, p: int)
    requires
        0 <= p <= s.len(),
        forall|i: int| 0 <= i < p ==> !before(key(x), key(#[trigger] s[i])),
        p < s.len() ==> before(key(x), key(s[p])),
    ensures
        inserted(s, x, key) == s.insert(p, x),
    decreases s.len(),
{
    if s.len() == 0 {
        assert(inserted(s, x, key) =~= s.insert(p, x));
    } else if p == 0 {
        assert(inserted(s, x, key) =~= s.insert(p, x));
    } else {
        let t = s.drop_first();
        assert forall|i: int| 0 <= i < p - 1 implies !before(key(x), key(#[trigger] t[i])) by {
            assert(t[i] == s[i + 1]);
        }
        assert(!before(key(x), key(s[0])));
        lemma_inserted_at(t, x, key, p - 1);
        assert(inserted(s, x, key) =~= s.insert(p, x));
    }
}

proof fn lemma_place_of<A>(s: Seq<A>, x: A, key: spec_fn(A) -> Seq<char>, k: int) -> (p: int)
    requires
        0 <= k <= s.len(),
        forall|i: int| 0 <= i < k ==> !before(key(x), key(#[trigger] s[i])),
    ensures
        0 <= p <= s.len(),
        forall|i: int| 0 <= i < p ==> !before(key(x), key(#[trigger] s[i])),
        p < s.len() ==> before(key(x), key(s[p])),
    decreases s.len() - k,
{
    if k == s.len() || before(key(x), key(s[k])) {
        k
    } else {
        lemma_place_of(s, x, key, k + 1)
    }
}

/// Sorting orders the items, and neither loses nor invents one.
pub proof fn sorting_orders_and_keeps<A>(s: Seq<A>, key: spec_fn(A) -> Seq<char>)
    ensures
        in_order(sorted_by(s, key), key),
        sorted_by(s, key).to_multiset() == s.to_multiset(),
        sorted_by(s, key).len() == s.len(),
    decreases s.len(),
{
    if s.len() == 0 {
        assert(s =~= Seq::<A>::empty());
    } else {
        let x = s.last();
        let t = sorted_by(s.drop_last(), key);
        sorting_orders_and_keeps(s.drop_last(), key);
        let p = lemma_place_of(t, x, key, 0);
        lemma_inserted_at(t, x, key, p);
        let r = t.insert(p, x);
        vstd::seq_lib::to_multiset_insert(t, p, x);
        vstd::seq_lib::to_multiset_build(s.drop_last(), x);
        assert(s.drop_last().push(x) =~= s);
        assert forall|i: int, j: int| 0 <= i < j < r.len() implies !before(
            key(#[trigger] r[j]),
            key(#[trigger] r[i]),
        ) by {
            if i < p && j < p {
                assert(r[i] == t[i] && r[j] == t[j]);
            } else if i < p && j == p {
                assert(r[i] == t[i]);
            } else if i < p && j > p {
                assert(r[i] == t[i] && r[j] == t[j - 1]);
            } else if i == p {
                assert(r[j] == t[j - 1]);
                if j - 1 == p {
                    lemma_before_asymmetric(key(x), key(t[p]));
                } else {
                    assert(!before(key(t[j - 1]), key(t[p])));
                    lemma_before_transitive(key(x), key(t[p]), key(t[j - 1]));
                    lemma_before_asymmetric(key(x), key(t[j - 1]));
                }
            } else {
                assert(r[i] == t[i - 1] && r[j] == t[j - 1]);
            }
        }
    }
}

/// Texts in order.
pub open spec fn sorted_texts(s: Seq<Seq<char>>) -> Seq<Seq<char>> {
    sorted_by(s, |t: Seq<char>| t)
}

/// Sorts strings.
pub fn sort_strings(v: Vec<String>) -> (r: Vec<String>)
    ensures
        views(r@) == sorted_texts(views(v@)),
{
    let ghost all = v@;
    let ghost key = |t: Seq<char>| t;
    let mut out: Vec<String> = Vec::new();
    assert(views(out@) =~= sorted_texts(views(all.take(0))));
    for x in it: v.into_iter()
        invariant
            it.seq() == all,
            key == (|t: Seq<char>| t),
            views(out@) == sorted_texts(views(all.take(it.index()))),
    {
        let mut p: usize = 0;
        while p < out.len() && !comes_before(x.as_str(), out[p].as_str())
            invariant
                p <= out.len(),
                forall|i: int| 0 <= i < p ==> !before(x@, #[trigger] views(out@)[i]),
            decreases out.len() - p,
        {
            assert(views(out@)[p as int] == out@[p as int]@);
            p += 1;
        }
        proof {
            let before_v = views(out@);
            assert(p < out.len() ==> before_v[p as int] == out@[p as int]@);
            lemma_inserted_at(before_v, x@, key, p as int);
            assert(views(all.take(it.index() + 1)).drop_last() =~= views(all.take(it.index())));
            assert(views(all.take(it.index() + 1)).last() == x@);
            assert(views(out@.insert(p as int, x)) =~= before_v.insert(p as int, x@));
        }
        out.insert(p, x);
    }
    assert(all.take(all.len() as int) =~= all);
    out
}

/// The first `n` items of a list, or all where there are fewer.
pub open spec fn capped<A>(s: Seq<A>, n: int) -> Seq<A> {
    if n < s.len() {
        s.take(n)
    } else {
        s
    }
}

/// The decimal representation of an integer.
pub open spec fn signed_decimal(n: int) -> Seq<char> {
    if n < 0 {
        "-"@ + decimal((-n) as nat)
    } else {
        decimal(n as nat)
    }
}

/// The decimal representation of an integer.
pub fn signed_decimal_of(n: i32) -> (r: String)
    ensures
        r@ == signed_decimal(n as int),
{
    if n < 0 {
        let m: i64 = -(n as i64);
        let d = decimal_of(m as u64);
        concat2("-", d.as_str())
    } else {
        decimal_of(n as u64)
    }
}

/// `p` stands in `s` at an index exactly where each of its characters does.
pub proof fn match_is_letter_by_letter(s: Seq<char>, p: Seq<char>, i: int)
    ensures
        matches_at(s, p, i) <==> 0 <= i && i + p.len() <= s.len() && forall|j: int|
            0 <= j < p.len() ==> s[i + j] == #[trigger] p[j],
{
    if 0 <= i && i + p.len() <= s.len() {
        let t = s.subrange(i, i + p.len());
        if forall|j: int| 0 <= j < p.len() ==> s[i + j] == #[trigger] p[j] {
            assert(t =~= p);
        }
        if matches_at(s, p, i) {
            assert forall|j: int| 0 <= j < p.len() implies s[i + j] == #[trigger] p[j] by {
                assert(t[j] == p[j]);
            }
        }
    }
}

/// A text contains `p` exactly where it is `p` with something before and something behind it.
pub proof fn containing_is_standing_between(s: Seq<char>, p: Seq<char>)
    ensures
        contains_text(s, p) <==> exists|a: Seq<char>, b: Seq<char>| s == #[trigger] (a + p + b),
{
    if contains_text(s, p) {
        let i = choose|i: int| matches_at(s, p, i);
        let a = s.take(i);
        let b = s.skip(i + p.len());
        assert(s.subrange(i, i + p.len()) == p);
        assert(s =~= a + p + b) by {
            assert forall|k: int| 0 <= k < s.len() implies s[k] == (a + p + b)[k] by {
                if i <= k < i + p.len() {
                    assert(p[k - i] == s[k]);
                }
            }
        }
    }
    if exists|a: Seq<char>, b: Seq<char>| s == #[trigger] (a + p + b) {
        let (a, b) = choose|a: Seq<char>, b: Seq<char>| s == #[trigger] (a + p + b);
        assert(s.subrange(a.len() as int, (a.len() + p.len()) as int) =~= p);
        assert(matches_at(s, p, a.len() as int));
    }
}

/// What follows a prefix is what is to be put behind the prefix to get the text.
pub proof fn prefix_and_rest_make_the_text(s: Seq<char>, p: Seq<char>, t: Seq<char>)
    ensures
        without_prefix(s, p) == Some(t) <==> s == p + t,
{
    if s == p + t {
        assert(s.take(p.len() as int) =~= p);
        assert(s.skip(p.len() as int) =~= t);
    }
    if without_prefix(s, p) == Some(t) {
        assert(s =~= p + t);
    }
}

/// One part is itself, and joined parts with `sep` and more joined parts behind them are all of
/// them joined: nothing is lost, added or moved.
pub proof fn joining_keeps_every_part(a: Seq<Seq<char>>, b: Seq<Seq<char>>, sep: Seq<char>)
    requires
        a.len() > 0,
        b.len() > 0,
    ensures
        joined(a + b, sep) == joined(a, sep) + sep + joined(b, sep),
        a.len() == 1 ==> joined(a, sep) == a[0],
    decreases b.len(),
{
    if b.len() == 1 {
        assert((a + b).drop_last() =~= a);
        assert((a + b).last() == b[0]);
    } else {
        joining_keeps_every_part(a, b.drop_last(), sep);
        assert((a + b).drop_last() =~= a + b.drop_last());
        assert((a + b).last() == b.last());
        assert(joined(a, sep) + sep + joined(b.drop_last(), sep) + sep + b.last() =~= joined(a, sep)
            + sep + (joined(b.drop_last(), sep) + sep + b.last()));
    }
}

/// Nothing joined is nothing.
pub proof fn joining_nothing_gives_nothing(sep: Seq<char>)
    ensures
        joined(Seq::empty(), sep).len() == 0,
{
}

/// The pieces of a text hold no separator, there is one at least, and with the separator between
/// them they are the text again.
pub proof fn pieces_make_the_text(s: Seq<char>, c: char)
    ensures
        split_on(s, c).len() >= 1,
        forall|i: int| 0 <= i < split_on(s, c).len() ==> !(#[trigger] split_on(s, c)[i]).contains(c),
        joined(split_on(s, c), seq![c]) == s,
    decreases s.len(),
{
    let r = split_on(s, c);
    if s.len() == 0 {
        assert(joined(r, seq![c]) =~= s);
        assert(!r[0].contains(c));
    } else {
        let t = s.drop_last();
        pieces_make_the_text(t, c);
        let before = split_on(t, c);
        if s.last() == c {
            assert(r.drop_last() =~= before);
            assert(joined(r, seq![c]) =~= s);
            assert forall|i: int| 0 <= i < r.len() implies !(#[trigger] r[i]).contains(c) by {
                if i < before.len() {
                    assert(!before[i].contains(c));
                }
            }
        } else {
            let last = before.last().push(s.last());
            assert(r.drop_last() =~= before.drop_last());
            assert(s =~= t.push(s.last()));
            if before.len() == 1 {
                assert(joined(r, seq![c]) =~= s);
            } else {
                let head = joined(before.drop_last(), seq![c]) + seq![c];
                assert(head + before.last() == t);
                assert(head + last =~= (head + before.last()).push(s.last()));
                assert(joined(r, seq![c]) =~= s);
            }
            assert forall|i: int| 0 <= i < r.len() implies !(#[trigger] r[i]).contains(c) by {
                if i < before.len() - 1 {
                    assert(!before[i].contains(c));
                } else {
                    assert(!before[before.len() - 1].contains(c));
                    if last.contains(c) {
                        let k = choose|k: int| 0 <= k < last.len() && last[k] == c;
                        assert(before.last()[k] == c);
                    }
                }
            }
        }
    }
}

/// A line that a line feed ends is the first line, without a carriage return before the line
/// feed; the other lines are those of what follows. A text without a line feed is one line that
/// was not ended.
pub proof fn lines_come_one_after_the_other(a: Seq<char>, b: Seq<char>)
    requires
        !a.contains('\n'),
    ensures
        ({
            let first = if a.len() > 0 && a[a.len() - 1] == '\r' {
                a.take(a.len() - 1)
            } else {
                a
            };
            &&& complete_lines(a) == Seq::<Seq<char>>::empty()
            &&& open_line(a) == a
            &&& all_lines(a) == (if a.len() == 0 {
                Seq::<Seq<char>>::empty()
            } else {
                seq![a]
            })
            &&& complete_lines(a + seq!['\n'] + b) == seq![first] + complete_lines(b)
            &&& open_line(a + seq!['\n'] + b) == open_line(b)
            &&& all_lines(a + seq!['\n'] + b) == seq![first] + all_lines(b)
        }),
{
    lemma_no_line_feed(a);
    let l = a + seq!['\n'];
    assert(l.drop_last() =~= a);
    let first = if a.len() > 0 && a[a.len() - 1] == '\r' {
        a.take(a.len() - 1)
    } else {
        a
    };
    assert(a.len() > 0 ==> a.drop_last() =~= a.take(a.len() - 1));
    assert(complete_lines(l) =~= seq![first]);
    assert(open_line(l) =~= Seq::<char>::empty());
    lemma_lines_concat(l, b);
    assert(open_line(l) + b =~= b);
    assert(all_lines(l + b) =~= seq![first] + all_lines(b));
    assert(all_lines(a) =~= (if a.len() == 0 {
        Seq::<Seq<char>>::empty()
    } else {
        seq![a]
    }));
}

proof fn lemma_no_line_feed(a: Seq<char>)
    requires
        !a.contains('\n'),
    ensures
        complete_lines(a) == Seq::<Seq<char>>::empty(),
        open_line(a) == a,
    decreases a.len(),
{
    if a.len() > 0 {
        let t = a.drop_last();
        assert(a[a.len() - 1] != '\n');
        assert(!t.contains('\n')) by {
            if t.contains('\n') {
                let i = choose|i: int| 0 <= i < t.len() && t[i] == '\n';
                assert(a[i] == '\n');
            }
        }
        lemma_no_line_feed(t);
        assert(t.push(a.last()) =~= a);
    }
}

/// Decimal digits: a number below ten is its digit, and a digit behind a number is ten times the
/// number and the digit.
pub proof fn decimal_digits_count_ten_times(n: nat, d: nat)
    requires
        d < 10,
    ensures
        decimal(d).len() == 1,
        decimal(d)[0] as int == 48 + d,
        n > 0 ==> decimal(10 * n + d) == decimal(n) + decimal(d),
{
    if n > 0 {
        assert((10 * n + d) / 10 == n && (10 * n + d) % 10 == d) by (nonlinear_arith)
            requires
                d < 10,
        ;
        assert(decimal(n).push(digit(d)) =~= decimal(n) + decimal(d));
    }
}

/// A negative number is written with a minus sign before its absolute value.
pub proof fn sign_stands_before_the_digits(n: nat)
    ensures
        signed_decimal(n as int) == decimal(n),
        n > 0 ==> signed_decimal(-(n as int)) == "-"@ + decimal(n),
{
}

/// Of the characters below 128, the tab, the line feed, the vertical tab, the form feed, the
/// carriage return and the space are whitespace.
pub proof fn ascii_whitespace(c: char)
    requires
        (c as u32) < 128,
    ensures
        is_white(c) <==> c == ' ' || c == '\t' || c == '\n' || c == '\x0b' || c == '\x0c' || c
            == '\r',
{
}

/// What trimming takes away is whitespace, all of it on that side, and nothing else.
pub proof fn trimming_takes_whitespace_only(s: Seq<char>)
    ensures
        exists|a: Seq<char>| #[trigger] (a + trimmed_start(s)) == s && all_white(a),
        trimmed_start(s).len() > 0 ==> !is_white(trimmed_start(s)[0]),
        exists|b: Seq<char>| #[trigger] (trimmed_end(s) + b) == s && all_white(b),
        trimmed_end(s).len() > 0 ==> !is_white(trimmed_end(s)[trimmed_end(s).len() - 1]),
        exists|a: Seq<char>, b: Seq<char>| #[trigger]
            (a + trimmed(s) + b) == s && all_white(a) && all_white(b),
        trimmed(s).len() > 0 ==> !is_white(trimmed(s)[0]) && !is_white(
            trimmed(s)[trimmed(s).len() - 1],
        ),
{
    let a = lemma_trimmed_start(s);
    let b = lemma_trimmed_end(s);
    let m = trimmed_start(s);
    let e = lemma_trimmed_end(m);
    assert(a + trimmed_start(s) == s);
    assert(trimmed_end(s) + b == s);
    assert(a + trimmed(s) + e =~= s);
    if trimmed(s).len() > 0 {
        assert(trimmed(s)[0] == m[0]);
    }
}

/// Whether a text holds whitespace only.
pub open spec fn all_white(s: Seq<char>) -> bool {
    forall|i: int| 0 <= i < s.len() ==> is_white(#[trigger] s[i])
}

proof fn lemma_trimmed_start(s: Seq<char>) -> (a: Seq<char>)
    ensures
        a + trimmed_start(s) == s,
        all_white(a),
        trimmed_start(s).len() > 0 ==> !is_white(trimmed_start(s)[0]),
    decreases s.len(),
{
    if s.len() > 0 && is_white(s[0]) {
        let t = lemma_trimmed_start(s.drop_first());
        let a = seq![s[0]] + t;
        assert(a + trimmed_start(s) =~= s) by {
            assert(s =~= seq![s[0]] + s.drop_first());
        }
        a
    } else {
        assert(Seq::<char>::empty() + s =~= s);
        Seq::empty()
    }
}

proof fn lemma_trimmed_end(s: Seq<char>) -> (b: Seq<char>)
    ensures
        trimmed_end(s) + b == s,
        all_white(b),
        trimmed_end(s).len() > 0 ==> !is_white(trimmed_end(s)[trimmed_end(s).len() - 1]),
    decreases s.len(),
{
    if s.len() > 0 && is_white(s.last()) {
        let t = lemma_trimmed_end(s.drop_last());
        let b = t.push(s.last());
        assert(trimmed_end(s) + b =~= s) by {
            assert(s =~= s.drop_last().push(s.last()));
        }
        b
    } else {
        assert(s + Seq::<char>::empty() =~= s);
        Seq::empty()
    }
}

/// What is taken from the end of a text is the given character only, all of it there.
pub proof fn only_the_character_is_cut(s: Seq<char>, c: char)
    ensures
        trimmed_end_of(s, c).is_prefix_of(s),
        forall|i: int| trimmed_end_of(s, c).len() <= i < s.len() ==> #[trigger] s[i] == c,
        trimmed_end_of(s, c).len() > 0 ==> trimmed_end_of(s, c)[trimmed_end_of(s, c).len() - 1]
            != c,
    decreases s.len(),
{
    if s.len() > 0 && s.last() == c {
        only_the_character_is_cut(s.drop_last(), c);
        let r = trimmed_end_of(s, c);
        assert(s.take(r.len() as int) =~= s.drop_last().take(r.len() as int));
        assert forall|i: int| r.len() <= i < s.len() implies #[trigger] s[i] == c by {
            if i < s.len() - 1 {
                assert(s.drop_last()[i] == c);
            }
        }
    } else {
        assert(s.take(s.len() as int) =~= s);
    }
}

/// The first characters of a text are its beginning, as many as asked for or as there are.
pub proof fn first_characters_are_the_beginning(s: Seq<char>, n: int)
    requires
        0 <= n,
    ensures
        first_chars(s, n).is_prefix_of(s),
        first_chars(s, n).len() == (if n < s.len() {
            n
        } else {
            s.len() as int
        }),
{
}

/// The first items of a list are its beginning, as many as asked for or as there are.
pub proof fn capping_keeps_the_beginning<A>(s: Seq<A>, n: int)
    requires
        0 <= n,
    ensures
        capped(s, n).is_prefix_of(s),
        capped(s, n).len() == (if n < s.len() {
            n
        } else {
            s.len() as int
        }),
{
}

/// Replacing a character changes every place where it stands, and no other.
pub proof fn every_such_character_is_replaced(s: Seq<char>, a: char, b: char)
    ensures
        with_char(s, a, b).len() == s.len(),
        forall|i: int|
            0 <= i < s.len() ==> #[trigger] with_char(s, a, b)[i] == (if s[i] == a {
                b
            } else {
                s[i]
            }),
{
}

/// A text comes before another where it is a proper beginning of it, or at the first place where
/// they differ its character is the smaller one.
pub proof fn first_difference_decides(a: Seq<char>, b: Seq<char>)
    ensures
        before(a, b) <==> exists|k: int|
            {
                &&& 0 <= k <= a.len()
                &&& k < b.len()
                &&& #[trigger] a.take(k) == b.take(k)
                &&& k < a.len() ==> a[k] < b[k]
            },
    decreases a.len(),
{
    if a.len() == 0 {
        assert(a.take(0) =~= b.take(0));
    } else if b.len() > 0 {
        if a[0] == b[0] {
            let x = a.drop_first();
            let y = b.drop_first();
            first_difference_decides(x, y);
            if before(a, b) {
                let k = choose|k: int|
                    {
                        &&& 0 <= k <= x.len()
                        &&& k < y.len()
                        &&& #[trigger] x.take(k) == y.take(k)
                        &&& k < x.len() ==> x[k] < y[k]
                    };
                assert(a.take(k + 1) =~= seq![a[0]] + x.take(k));
                assert(b.take(k + 1) =~= seq![b[0]] + y.take(k));
            }
            if exists|k: int|
                {
                    &&& 0 <= k <= a.len()
                    &&& k < b.len()
                    &&& #[trigger] a.take(k) == b.take(k)
                    &&& k < a.len() ==> a[k] < b[k]
                } {
                let k = choose|k: int|
                    {
                        &&& 0 <= k <= a.len()
                        &&& k < b.len()
                        &&& #[trigger] a.take(k) == b.take(k)
                        &&& k < a.len() ==> a[k] < b[k]
                    };
                assert(k > 0);
                assert(x.take(k - 1) =~= a.take(k).drop_first());
                assert(y.take(k - 1) =~= b.take(k).drop_first());
                assert(x.take(k - 1) == y.take(k - 1));
            }
        } else {
            assert(a.take(0) =~= b.take(0));
            assert forall|k: int| 0 < k <= a.len() && k < b.len() implies #[trigger] a.take(k)
                != b.take(k) by {
                assert(a.take(k)[0] != b.take(k)[0]);
            }
        }
    }
}

/// Replacing makes of a text what its pieces between the places of the non-empty `p` are with
/// `with` between them. Each place is the first one behind the place before it, and none is left
/// where as many are replaced as there are.
pub proof fn replacing_joins_the_pieces(s: Seq<char>, p: Seq<char>, with: Seq<char>, n: nat)
    requires
        p.len() > 0,
        n <= occurrences(s, p, 0),
    ensures
        exists|pieces: Seq<Seq<char>>|
            {
                &&& #[trigger] joined(pieces, p) == s
                &&& pieces.len() == n + 1
                &&& joined(pieces, with) == replaced_from(s, p, with, n, 0)
                &&& forall|i: int, j: int|
                    0 <= i < n && 0 <= j < pieces[i].len() ==> !(#[trigger] matches_at(
                        pieces[i] + p,
                        p,
                        j,
                    ))
                &&& n == occurrences(s, p, 0) <==> !contains_text(pieces[n as int], p)
            },
        replaced_from(s, p, with, n, 0).len() == s.len() + n * (with.len() - p.len()),
{
    let pieces = lemma_pieces(s, p, with, n, 0);
    lemma_replaced_len(s, p, with, n, 0);
    assert(s.skip(0) =~= s);
    assert(joined(pieces, p) == s);
    assert forall|i: int, j: int| 0 <= i < n && 0 <= j < pieces[i].len() implies !(
    #[trigger] matches_at(pieces[i] + p, p, j)) by {
        assert(first_behind(pieces[i], p));
    }
}

/// No more places are replaced than there are.
pub proof fn replacing_stops_with_the_last_place(
    s: Seq<char>,
    p: Seq<char>,
    with: Seq<char>,
    n: nat,
    from: int,
)
    requires
        p.len() > 0,
        0 <= from <= s.len(),
        n >= occurrences(s, p, from),
    ensures
        replaced_from(s, p, with, n, from) == replaced_from(
            s,
            p,
            with,
            occurrences(s, p, from),
            from,
        ),
    decreases n,
{
    lemma_find_from(s, p, from);
    if n > 0 {
        if let Some(k) = find_from(s, p, from) {
            replacing_stops_with_the_last_place(s, p, with, (n - 1) as nat, k + p.len());
        }
    }
}

proof fn lemma_match_behind(s: Seq<char>, p: Seq<char>, from: int)
    requires
        0 <= from <= s.len(),
    ensures
        contains_text(s.skip(from), p) <==> exists|i: int| from <= i && matches_at(s, p, i),
{
    let t = s.skip(from);
    assert forall|j: int| 0 <= j implies matches_at(t, p, j) == #[trigger] matches_at(
        s,
        p,
        from + j,
    ) by {
        if from + j + p.len() <= s.len() {
            assert(t.subrange(j, j + p.len()) =~= s.subrange(from + j, from + j + p.len()));
        }
    }
    if contains_text(t, p) {
        let j = choose|j: int| matches_at(t, p, j);
        assert(matches_at(s, p, from + j));
    }
    if exists|i: int| from <= i && matches_at(s, p, i) {
        let i = choose|i: int| from <= i && matches_at(s, p, i);
        assert(matches_at(s, p, from + (i - from)));
        assert(matches_at(t, p, i - from));
    }
}

/// Whether the first place of `p` in a piece with `p` behind it is the one behind the piece.
spec fn first_behind(piece: Seq<char>, p: Seq<char>) -> bool {
    forall|j: int| 0 <= j < piece.len() ==> !(#[trigger] matches_at(piece + p, p, j))
}

proof fn lemma_first_piece(s: Seq<char>, p: Seq<char>, from: int, k: int)
    requires
        p.len() > 0,
        0 <= from <= k,
        matches_at(s, p, k),
        forall|i: int| from <= i < k ==> !matches_at(s, p, i),
    ensures
        first_behind(s.subrange(from, k), p),
        s.subrange(from, k) + p + s.skip(k + p.len()) == s.skip(from),
{
    let first = s.subrange(from, k);
    match_is_letter_by_letter(s, p, k);
    let all = first + p + s.skip(k + p.len());
    assert forall|i: int| 0 <= i < all.len() implies all[i] == s.skip(from)[i] by {
        if first.len() <= i < first.len() + p.len() {
            assert(p[i - first.len()] == s[from + i]);
        }
    }
    assert(all =~= s.skip(from));
    assert forall|j: int| 0 <= j < first.len() implies !(#[trigger] matches_at(first + p, p, j)) by {
        lemma_no_earlier_place(s, p, from, k, j);
    }
}

proof fn lemma_no_earlier_place(s: Seq<char>, p: Seq<char>, from: int, k: int, j: int)
    requires
        p.len() > 0,
        0 <= from <= k,
        0 <= j < k - from,
        matches_at(s, p, k),
        !matches_at(s, p, from + j),
    ensures
        !matches_at(s.subrange(from, k) + p, p, j),
{
    let n = p.len() as int;
    let t = s.subrange(from, k) + s.subrange(k, k + n);
    assert(s.subrange(k, k + n) == p);
    assert(t =~= s.subrange(from, k + n));
    assert(s.subrange(from, k + n).subrange(j, j + n) =~= s.subrange(from + j, from + j + n));
}

proof fn lemma_pieces(s: Seq<char>, p: Seq<char>, with: Seq<char>, n: nat, from: int) -> (pieces:
    Seq<Seq<char>>)
    requires
        p.len() > 0,
        0 <= from <= s.len(),
        n <= occurrences(s, p, from),
    ensures
        pieces.len() == n + 1,
        joined(pieces, p) == s.skip(from),
        joined(pieces, with) == replaced_from(s, p, with, n, from),
        forall|i: int| 0 <= i < n ==> first_behind(#[trigger] pieces[i], p),
        n == occurrences(s, p, from) <==> !contains_text(pieces[n as int], p),
    decreases n,
{
    lemma_find_from(s, p, from);
    if n == 0 {
        let pieces = seq![s.skip(from)];
        lemma_match_behind(s, p, from);
        if let Some(k) = find_from(s, p, from) {
            assert(matches_at(s, p, k));
        }
        pieces
    } else {
        let k = find_from(s, p, from)->0;
        let first = s.subrange(from, k);
        lemma_first_piece(s, p, from, k);
        let rest = lemma_pieces(s, p, with, (n - 1) as nat, k + p.len());
        let pieces = seq![first] + rest;
        joining_keeps_every_part(seq![first], rest, p);
        joining_keeps_every_part(seq![first], rest, with);
        assert forall|i: int| 0 <= i < n implies first_behind(#[trigger] pieces[i], p) by {
            if i > 0 {
                assert(pieces[i] == rest[i - 1]);
            }
        }
        assert(pieces[n as int] == rest[n - 1]);
        pieces
    }
}

proof fn lemma_replaced_len(s: Seq<char>, p: Seq<char>, with: Seq<char>, n: nat, from: int)
    requires
        p.len() > 0,
        0 <= from <= s.len(),
        n <= occurrences(s, p, from),
    ensures
        replaced_from(s, p, with, n, from).len() == s.len() - from + n * (with.len() - p.len()),
    decreases n,
{
    lemma_find_from(s, p, from);
    if n > 0 {
        let k = find_from(s, p, from)->0;
        lemma_replaced_len(s, p, with, (n - 1) as nat, k + p.len());
        let d = with.len() - p.len();
        let m = (n - 1) as nat;
        assert(m * d + d == n * d) by (nonlinear_arith)
            requires
                n == m + 1,
        ;
        assert(replaced_from(s, p, with, n, from).len() == (k - from) + with.len() + replaced_from(
            s,
            p,
            with,
            m,
            k + p.len(),
        ).len());
    } else {
        assert(n * (with.len() - p.len()) == 0) by (nonlinear_arith)
            requires
                n == 0,
        ;
    }
}

/// A text without the separator is one piece, and the pieces of two texts with the separator
/// between them are those of the one and then those of the other.
pub proof fn pieces_come_one_after_the_other(a: Seq<char>, b: Seq<char>, c: char)
    ensures
        !a.contains(c) ==> split_on(a, c) == seq![a],
        split_on(a + seq![c] + b, c) == split_on(a, c) + split_on(b, c),
    decreases a.len() + b.len(),
{
    if !a.contains(c) {
        if a.len() == 0 {
            assert(a =~= Seq::<char>::empty());
            assert(split_on(a, c) =~= seq![a]);
        } else {
            let t = a.drop_last();
            assert(a[a.len() - 1] != c);
            assert(!t.contains(c)) by {
                if t.contains(c) {
                    let i = choose|i: int| 0 <= i < t.len() && t[i] == c;
                    assert(a[i] == c);
                }
            }
            pieces_come_one_after_the_other(t, Seq::empty(), c);
            assert(t.push(a.last()) =~= a);
            assert(seq![t].drop_last() =~= Seq::<Seq<char>>::empty());
            assert(seq![t].last() == t);
            assert(a.last() != c);
            assert(split_on(a, c) =~= seq![a]);
        }
    }
    let s = a + seq![c] + b;
    if b.len() == 0 {
        assert(s.drop_last() =~= a);
        assert(split_on(s, c) =~= split_on(a, c) + split_on(b, c));
    } else {
        let t = b.drop_last();
        pieces_come_one_after_the_other(a, t, c);
        lemma_split_on_len(t, c);
        assert(s.drop_last() =~= a + seq![c] + t);
        assert(s.last() == b.last());
        let x = split_on(a, c);
        let y = split_on(t, c);
        assert((x + y).drop_last() =~= x + y.drop_last());
        assert((x + y).last() == y.last());
        assert(split_on(s, c) =~= split_on(a, c) + split_on(b, c));
    }
}

} // verus!
