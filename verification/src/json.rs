//! JSON values: a plain tree that the logic reads and builds, and its exchange with
//! `serde_json`, which parses and prints.
use crate::text;
use vstd::prelude::*;
use vstd::string::*;

verus! {

/// A `serde_json::Value`, opaque.
#[verifier::external_type_specification]
#[verifier::external_body]
pub struct ExValue(serde_json::Value);

/// A `serde_json::Number`, opaque.
#[verifier::external_type_specification]
#[verifier::external_body]
pub struct ExNumber(serde_json::Number);

/// A JSON value. Of the entries of an object that have the same key the last one counts.
pub enum Json {
    Null,
    Bool(bool),
    Number(serde_json::Number),
    Str(String),
    Array(Vec<Json>),
    Object(Vec<(String, Json)>),
}

/// What a JSON value is: an object is a map from keys to values.
pub enum JsonView {
    Null,
    Bool(bool),
    Number(serde_json::Number),
    Str(Seq<char>),
    Array(Seq<JsonView>),
    Object(Map<Seq<char>, JsonView>),
}

impl JsonView {
    /// The text of a string.
    pub open spec fn as_str(self) -> Option<Seq<char>> {
        match self {
            JsonView::Str(s) => Some(s),
            _ => None,
        }
    }

    /// The value of a number that is an unsigned 64-bit integer.
    pub open spec fn as_u64(self) -> Option<u64> {
        match self {
            JsonView::Number(n) => as_unsigned(n),
            _ => None,
        }
    }

    /// The value of a boolean.
    pub open spec fn as_bool(self) -> Option<bool> {
        match self {
            JsonView::Bool(b) => Some(b),
            _ => None,
        }
    }

    /// The items of an array.
    pub open spec fn as_array(self) -> Option<Seq<JsonView>> {
        match self {
            JsonView::Array(a) => Some(a),
            _ => None,
        }
    }

    /// The value under `key`, where this is an object that has the key.
    pub open spec fn field(self, key: Seq<char>) -> Option<JsonView> {
        match self {
            JsonView::Object(m) => if m.contains_key(key) {
                Some(m[key])
            } else {
                None
            },
            _ => None,
        }
    }

    /// The value under `key`; null where there is none.
    pub open spec fn at(self, key: Seq<char>) -> JsonView {
        match self.field(key) {
            Some(v) => v,
            None => JsonView::Null,
        }
    }

    /// The text under `key`, where there is a string.
    pub open spec fn str_field(self, key: Seq<char>) -> Option<Seq<char>> {
        self.at(key).as_str()
    }
}

/// What the items of an array are.
pub open spec fn array_view(items: Seq<Json>) -> Seq<JsonView>
    decreases items,
{
    if items.len() == 0 {
        Seq::empty()
    } else {
        array_view(items.drop_last()).push(items.last().view())
    }
}

/// What the entries of an object are: a later entry replaces an earlier one with its key.
pub open spec fn object_view(pairs: Seq<(String, Json)>) -> Map<Seq<char>, JsonView>
    decreases pairs,
{
    if pairs.len() == 0 {
        Map::empty()
    } else {
        object_view(pairs.drop_last()).insert(pairs.last().0@, pairs.last().1.view())
    }
}

/// The items of `array_view`, one by one.
pub proof fn lemma_array_view(items: Seq<Json>)
    ensures
        array_view(items).len() == items.len(),
        forall|i: int| 0 <= i < items.len() ==> #[trigger] array_view(items)[i] == items[i].view(),
    decreases items.len(),
{
    if items.len() > 0 {
        lemma_array_view(items.drop_last());
        assert forall|i: int| 0 <= i < items.len() implies #[trigger] array_view(items)[i]
            == items[i].view() by {
            if i < items.len() - 1 {
                assert(array_view(items.drop_last())[i] == items.drop_last()[i].view());
            }
        }
    }
}

/// One more item.
pub proof fn lemma_array_view_push(items: Seq<Json>, j: Json)
    ensures
        array_view(items.push(j)) == array_view(items).push(j.view()),
{
    assert(items.push(j).drop_last() =~= items);
}

/// One more entry.
pub proof fn lemma_object_view_push(pairs: Seq<(String, Json)>, p: (String, Json))
    ensures
        object_view(pairs.push(p)) == object_view(pairs).insert(p.0@, p.1.view()),
{
    assert(pairs.push(p).drop_last() =~= pairs);
}

impl Json {
    pub open spec fn view(self) -> JsonView
        decreases self,
    {
        match self {
            Json::Null => JsonView::Null,
            Json::Bool(b) => JsonView::Bool(b),
            Json::Number(n) => JsonView::Number(n),
            Json::Str(s) => JsonView::Str(s@),
            Json::Array(items) => JsonView::Array(array_view(items@)),
            Json::Object(pairs) => JsonView::Object(object_view(pairs@)),
        }
    }

    /// An object without entries.
    pub fn object() -> (r: Json)
        ensures
            r@ == JsonView::Object(Map::empty()),
    {
        Json::Object(Vec::new())
    }

    /// An array without items.
    pub fn array() -> (r: Json)
        ensures
            r@ == JsonView::Array(Seq::empty()),
    {
        Json::Array(Vec::new())
    }

    /// A string.
    pub fn str(s: &str) -> (r: Json)
        ensures
            r@ == JsonView::Str(s@),
    {
        Json::Str(s.to_owned())
    }

    /// An unsigned integer.
    pub fn unsigned(n: u64) -> (r: Json)
        ensures
            r@ == JsonView::Number(unsigned_number(n)),
            r@.as_u64() == Some(n),
    {
        Json::Number(number_from_u64(n))
    }

    /// This object with one more entry.
    pub fn with(self, key: &str, value: Json) -> (r: Json)
        requires
            self@ is Object,
        ensures
            r@ == JsonView::Object(self@->Object_0.insert(key@, value@)),
    {
        match self {
            Json::Object(mut pairs) => {
                let k = key.to_owned();
                proof {
                    lemma_object_view_push(pairs@, (k, value));
                }
                pairs.push((k, value));
                Json::Object(pairs)
            },
            _ => self,
        }
    }

    /// This array with one more item.
    pub fn and(self, value: Json) -> (r: Json)
        requires
            self@ is Array,
        ensures
            r@ == JsonView::Array(self@->Array_0.push(value@)),
    {
        match self {
            Json::Array(mut items) => {
                proof {
                    lemma_array_view_push(items@, value);
                }
                items.push(value);
                Json::Array(items)
            },
            _ => self,
        }
    }

    /// Whether this is an object.
    pub fn is_object(&self) -> (r: bool)
        ensures
            r == (self@ is Object),
    {
        match self {
            Json::Object(_) => true,
            _ => false,
        }
    }

    /// Whether this is null.
    pub fn is_null(&self) -> (r: bool)
        ensures
            r == (self@ is Null),
    {
        match self {
            Json::Null => true,
            _ => false,
        }
    }

    /// The text of a string.
    pub fn as_str(&self) -> (r: Option<&str>)
        ensures
            match r {
                Some(s) => self@.as_str() == Some(s@),
                None => self@.as_str() is None,
            },
    {
        match self {
            Json::Str(s) => Some(s.as_str()),
            _ => None,
        }
    }

    /// The value of a boolean.
    pub fn as_bool(&self) -> (r: Option<bool>)
        ensures
            r == self@.as_bool(),
    {
        match self {
            Json::Bool(b) => Some(*b),
            _ => None,
        }
    }

    /// The value of a number that is an unsigned 64-bit integer.
    pub fn as_u64(&self) -> (r: Option<u64>)
        ensures
            r == self@.as_u64(),
    {
        match self {
            Json::Number(n) => number_as_u64(n),
            _ => None,
        }
    }

    /// The items of an array.
    pub fn as_array(&self) -> (r: Option<&Vec<Json>>)
        ensures
            match r {
                Some(a) => self@.as_array() == Some(array_view(a@)),
                None => self@.as_array() is None,
            },
    {
        match self {
            Json::Array(a) => Some(a),
            _ => None,
        }
    }

    /// The value under `key`, where this is an object that has the key.
    pub fn get(&self, key: &str) -> (r: Option<&Json>)
        ensures
            match r {
                Some(v) => self@.field(key@) == Some(v@),
                None => self@.field(key@) is None,
            },
    {
        match self {
            Json::Object(pairs) => {
                let mut i: usize = pairs.len();
                assert(pairs@.take(i as int) =~= pairs@);
                while i > 0
                    invariant
                        i <= pairs.len(),
                        self == Json::Object(*pairs),
                        object_view(pairs@).contains_key(key@) == object_view(
                            pairs@.take(i as int),
                        ).contains_key(key@),
                        object_view(pairs@).contains_key(key@) ==> object_view(pairs@)[key@]
                            == object_view(pairs@.take(i as int))[key@],
                    decreases i,
                {
                    i -= 1;
                    assert(pairs@.take(i + 1).drop_last() =~= pairs@.take(i as int));
                    assert(pairs@.take(i + 1).last() == pairs@[i as int]);
                    if text::str_eq(pairs[i].0.as_str(), key) {
                        return Some(&pairs[i].1);
                    }
                }
                None
            },
            _ => None,
        }
    }

    /// The text under `key`, where there is a string.
    pub fn str_field(&self, key: &str) -> (r: Option<&str>)
        ensures
            match r {
                Some(s) => self@.str_field(key@) == Some(s@),
                None => self@.str_field(key@) is None,
            },
    {
        match self.get(key) {
            Some(v) => v.as_str(),
            None => None,
        }
    }

    /// An equal value.
    pub fn copy(&self) -> (r: Json)
        ensures
            r@ == self@,
        decreases self,
    {
        match self {
            Json::Null => Json::Null,
            Json::Bool(b) => Json::Bool(*b),
            Json::Number(n) => Json::Number(copy_number(n)),
            Json::Str(s) => Json::Str(s.clone()),
            Json::Array(items) => {
                let mut out: Vec<Json> = Vec::new();
                let mut i: usize = 0;
                while i < items.len()
                    invariant
                        i <= items.len(),
                        self == Json::Array(*items),
                        array_view(out@) == array_view(items@.take(i as int)),
                    decreases items.len() - i,
                {
                    assert(decreases_to!(self => self->Array_0));
                assert(decreases_to!(self->Array_0 => self->Array_0@));
                    assert(decreases_to!(items@ => items@[i as int]));
                    let c = items[i].copy();
                    proof {
                        assert(items@.take(i + 1).drop_last() =~= items@.take(i as int));
                        lemma_array_view_push(out@, c);
                    }
                    out.push(c);
                    i += 1;
                }
                assert(items@.take(items.len() as int) =~= items@);
                Json::Array(out)
            },
            Json::Object(pairs) => {
                let mut out: Vec<(String, Json)> = Vec::new();
                let mut i: usize = 0;
                while i < pairs.len()
                    invariant
                        i <= pairs.len(),
                        self == Json::Object(*pairs),
                        object_view(out@) == object_view(pairs@.take(i as int)),
                    decreases pairs.len() - i,
                {
                    assert(decreases_to!(self => self->Object_0));
                assert(decreases_to!(self->Object_0 => self->Object_0@));
                    assert(decreases_to!(pairs@ => pairs@[i as int]));
                    assert(decreases_to!(pairs@[i as int] => pairs@[i as int].1));
                    let c = pairs[i].1.copy();
                    let k = pairs[i].0.clone();
                    proof {
                        assert(pairs@.take(i + 1).drop_last() =~= pairs@.take(i as int));
                        lemma_object_view_push(out@, (k, c));
                    }
                    out.push((k, c));
                    i += 1;
                }
                assert(pairs@.take(pairs.len() as int) =~= pairs@);
                Json::Object(out)
            },
        }
    }
}

/// What a `serde_json::Value` is.
pub uninterp spec fn contents(v: serde_json::Value) -> JsonView;

/// The number that `serde_json::Number::from` makes of an unsigned integer.
pub uninterp spec fn unsigned_number(n: u64) -> serde_json::Number;

/// What `serde_json::Number::as_u64` returns.
pub uninterp spec fn as_unsigned(n: serde_json::Number) -> Option<u64>;

/// What `serde_json::from_str` makes of a text: a value, or the message of the error.
pub uninterp spec fn json_parsed(s: Seq<char>) -> Result<JsonView, Seq<char>>;

/// The first value of the stream of JSON values that a text holds, where it begins with a
/// complete one.
pub uninterp spec fn json_first(s: Seq<char>) -> Option<JsonView>;

/// The text that `serde_json` prints a value as.
pub uninterp spec fn json_text(v: JsonView) -> Seq<char>;

/// How many arrays and objects may lie in each other for `serde_json` to read them.
pub const MAX_NESTING: usize = 127;

/// Whether at most `n` arrays and objects lie in each other.
pub open spec fn nests(v: JsonView, n: nat) -> bool
    decreases n,
{
    match v {
        JsonView::Array(items) => n > 0 && forall|i: int|
            0 <= i < items.len() ==> nests(#[trigger] items[i], (n - 1) as nat),
        JsonView::Object(m) => n > 0 && forall|k: Seq<char>| #[trigger]
            m.contains_key(k) ==> nests(m[k], (n - 1) as nat),
        _ => true,
    }
}

/// Whether two values with at most `n` arrays and objects in each other differ at most in numbers
/// that are no unsigned integers.
pub open spec fn alike(v: JsonView, w: JsonView, n: nat) -> bool
    decreases n,
{
    match (v, w) {
        (JsonView::Number(a), JsonView::Number(b)) => as_unsigned(a) is Some ==> a == b,
        (JsonView::Array(a), JsonView::Array(b)) => n > 0 && a.len() == b.len() && forall|i: int|
            0 <= i < a.len() ==> alike(#[trigger] a[i], b[i], (n - 1) as nat),
        (JsonView::Object(a), JsonView::Object(b)) => n > 0 && a.dom() == b.dom() && forall|
            k: Seq<char>,
        | #[trigger]
            a.contains_key(k) ==> alike(a[k], b[k], (n - 1) as nat),
        _ => v == w,
    }
}

/// Whether a text parses to a value, but for numbers that are no unsigned integers.
pub open spec fn reads_back(v: JsonView, t: Seq<char>) -> bool {
    json_parsed(t) matches Ok(w) && alike(v, w, MAX_NESTING as nat)
}

/// A value opened by one level.
pub enum Node {
    Null,
    Bool(bool),
    Number(serde_json::Number),
    Str(String),
    Array(Vec<serde_json::Value>),
    Object(Vec<(String, serde_json::Value)>),
}

/// What the values of a list are.
pub open spec fn values_view(items: Seq<serde_json::Value>) -> Seq<JsonView> {
    items.map_values(|v: serde_json::Value| contents(v))
}

/// What a list of entries is: a later entry replaces an earlier one with its key.
pub open spec fn entries_view(pairs: Seq<(String, serde_json::Value)>) -> Map<Seq<char>, JsonView>
    decreases pairs.len(),
{
    if pairs.len() == 0 {
        Map::empty()
    } else {
        entries_view(pairs.drop_last()).insert(pairs.last().0@, contents(pairs.last().1))
    }
}

/// No key occurs twice.
pub open spec fn distinct_keys(pairs: Seq<(String, serde_json::Value)>) -> bool {
    forall|i: int, j: int|
        0 <= i < j < pairs.len() ==> (#[trigger] pairs[i]).0@ != (#[trigger] pairs[j]).0@
}

impl Node {
    pub open spec fn view(self) -> JsonView {
        match self {
            Node::Null => JsonView::Null,
            Node::Bool(b) => JsonView::Bool(b),
            Node::Number(n) => JsonView::Number(n),
            Node::Str(s) => JsonView::Str(s@),
            Node::Array(items) => JsonView::Array(values_view(items@)),
            Node::Object(pairs) => JsonView::Object(entries_view(pairs@)),
        }
    }

    /// The entries of an object have distinct keys.
    pub open spec fn wf(self) -> bool {
        match self {
            Node::Object(pairs) => distinct_keys(pairs@),
            _ => true,
        }
    }
}

/// Takes a `serde_json::Value` apart by one level, one variant for one variant. The entries of
/// an object come from a `serde_json::Map`, which holds each key once.
#[verifier::external_body]
fn open_value(v: serde_json::Value) -> (n: Node)
    ensures
        n@ == contents(v),
        n.wf(),
{
    match v {
        serde_json::Value::Null => Node::Null,
        serde_json::Value::Bool(b) => Node::Bool(b),
        serde_json::Value::Number(n) => Node::Number(n),
        serde_json::Value::String(s) => Node::Str(s),
        serde_json::Value::Array(a) => Node::Array(a),
        serde_json::Value::Object(o) => Node::Object(o.into_iter().collect()),
    }
}

/// Puts a `serde_json::Value` together from one level, one variant for one variant; the entries
/// of an object, whose keys differ, go into a `serde_json::Map`.
#[verifier::external_body]
fn close_value(n: Node) -> (v: serde_json::Value)
    requires
        n.wf(),
    ensures
        contents(v) == n@,
{
    match n {
        Node::Null => serde_json::Value::Null,
        Node::Bool(b) => serde_json::Value::Bool(b),
        Node::Number(n) => serde_json::Value::Number(n),
        Node::Str(s) => serde_json::Value::String(s),
        Node::Array(a) => serde_json::Value::Array(a),
        Node::Object(o) => serde_json::Value::Object(o.into_iter().collect()),
    }
}

/// `serde_json::Number::from` makes a number of an unsigned integer, which `as_u64` gives back.
#[verifier::external_body]
fn number_from_u64(n: u64) -> (r: serde_json::Number)
    ensures
        r == unsigned_number(n),
        as_unsigned(r) == Some(n),
{
    serde_json::Number::from(n)
}

/// `serde_json::Number::as_u64` gives the value of a number that is an unsigned 64-bit integer.
#[verifier::external_body]
fn number_as_u64(n: &serde_json::Number) -> (r: Option<u64>)
    ensures
        r == as_unsigned(*n),
{
    n.as_u64()
}

/// `serde_json::Number::clone` gives an equal number.
#[verifier::external_body]
fn copy_number(n: &serde_json::Number) -> (r: serde_json::Number)
    ensures
        r == *n,
{
    n.clone()
}

/// `serde_json::from_str` makes a value of a text, or an error, of which the message is kept.
#[verifier::external_body]
fn value_from_text(s: &str) -> (r: Result<serde_json::Value, String>)
    ensures
        match r {
            Ok(v) => json_parsed(s@) == Ok::<JsonView, Seq<char>>(contents(v)),
            Err(e) => json_parsed(s@) == Err::<JsonView, Seq<char>>(e@),
        },
{
    serde_json::from_str::<serde_json::Value>(s).map_err(|e| e.to_string())
}

/// The first item of a `serde_json::StreamDeserializer` over a text, where it is a value. The
/// recursion limit of the deserializer bounds how deep the value nests.
#[verifier::external_body]
fn first_value(s: &str) -> (r: Option<serde_json::Value>)
    ensures
        match r {
            Some(v) => json_first(s@) == Some(contents(v)) && nests(
                contents(v),
                MAX_NESTING as nat,
            ),
            None => json_first(s@) is None,
        },
{
    match serde_json::Deserializer::from_str(s).into_iter::<serde_json::Value>().next() {
        Some(Ok(v)) => Some(v),
        Some(Err(_)) => None,
        None => None,
    }
}

/// `serde_json::Value` as text: the compact form that its `Display` prints, which depends on
/// nothing but what the value is. An empty object is `{}`. `serde_json::from_str` reads the text
/// back to the value, unless the value nests deeper than the recursion limit allows. Of a number
/// that is no unsigned integer no more is said than that it is read as a number: a float is
/// printed in its shortest form, which is never out of range, but may be read as a neighbour.
#[verifier::external_body]
fn value_text(v: &serde_json::Value) -> (r: String)
    ensures
        r@ == json_text(contents(*v)),
        nests(contents(*v), MAX_NESTING as nat) ==> reads_back(contents(*v), r@),
        contents(*v) == JsonView::Object(Map::empty()) ==> r@ == "{}"@,
{
    v.to_string()
}

/// Every key of an entry list is one of its map, which is finite and has no other keys; where
/// the keys differ, each maps to the value beside it.
proof fn lemma_entries_view(pairs: Seq<(String, serde_json::Value)>)
    ensures
        entries_view(pairs).dom().finite(),
        forall|k: Seq<char>| #[trigger]
            entries_view(pairs).contains_key(k) ==> exists|i: int|
                0 <= i < pairs.len() && (#[trigger] pairs[i]).0@ == k,
        forall|i: int|
            0 <= i < pairs.len() ==> entries_view(pairs).contains_key((#[trigger] pairs[i]).0@),
        distinct_keys(pairs) ==> forall|i: int|
            0 <= i < pairs.len() ==> entries_view(pairs)[(#[trigger] pairs[i]).0@] == contents(
                pairs[i].1,
            ),
    decreases pairs.len(),
{
    if pairs.len() > 0 {
        let p = pairs.drop_last();
        lemma_entries_view(p);
        assert forall|k: Seq<char>| #[trigger] entries_view(pairs).contains_key(k) implies exists|
            i: int,
        |
            0 <= i < pairs.len() && (#[trigger] pairs[i]).0@ == k by {
            if k == pairs.last().0@ {
                assert(pairs[pairs.len() - 1].0@ == k);
            } else {
                assert(entries_view(p).contains_key(k));
                let i = choose|i: int| 0 <= i < p.len() && (#[trigger] p[i]).0@ == k;
                assert(pairs[i].0@ == k);
            }
        }
        assert forall|i: int| 0 <= i < pairs.len() implies entries_view(pairs).contains_key(
            (#[trigger] pairs[i]).0@,
        ) by {
            if i < p.len() {
                assert(p[i] == pairs[i]);
            }
        }
        if distinct_keys(pairs) {
            assert forall|i: int, j: int| 0 <= i < j < p.len() implies (#[trigger] p[i]).0@ != (
            #[trigger] p[j]).0@ by {
                assert(p[i] == pairs[i] && p[j] == pairs[j]);
            }
            assert forall|i: int| 0 <= i < pairs.len() implies entries_view(pairs)[(
            #[trigger] pairs[i]).0@] == contents(pairs[i].1) by {
                if i < p.len() {
                    assert(p[i] == pairs[i]);
                    assert(pairs[i].0@ != pairs[pairs.len() - 1].0@);
                }
            }
        }
    }
}

/// Reads a `serde_json::Value` into a tree.
pub fn read_value(v: serde_json::Value) -> (j: Json)
    ensures
        j@ == contents(v),
    decreases contents(v),
{
    match open_value(v) {
        Node::Null => Json::Null,
        Node::Bool(b) => Json::Bool(b),
        Node::Number(n) => Json::Number(n),
        Node::Str(s) => Json::Str(s),
        Node::Array(items) => {
            let ghost all = items@;
            let mut out: Vec<Json> = Vec::new();
            for x in it: items.into_iter()
                invariant
                    contents(v) == JsonView::Array(values_view(all)),
                    it.seq() == all,
                    array_view(out@) == values_view(all).take(it.index()),
            {
                assert(contents(x) == values_view(all)[it.index()]);
                assert(decreases_to!(contents(v) => contents(v)->Array_0));
                assert(decreases_to!(contents(v)->Array_0 => contents(v)->Array_0[it.index()]));
                let j = read_value(x);
                proof {
                    lemma_array_view_push(out@, j);
                    assert(values_view(all).take(it.index() + 1) =~= values_view(all).take(
                        it.index(),
                    ).push(contents(x)));
                }
                out.push(j);
            }
            assert(values_view(all).take(all.len() as int) =~= values_view(all));
            Json::Array(out)
        },
        Node::Object(pairs) => {
            let ghost all = pairs@;
            let mut out: Vec<(String, Json)> = Vec::new();
            proof {
                lemma_entries_view(all);
                assert(all.take(0) =~= Seq::empty());
            }
            for p in it: pairs.into_iter()
                invariant
                    contents(v) == JsonView::Object(entries_view(all)),
                    it.seq() == all,
                    entries_view(all).dom().finite(),
                    forall|i: int|
                        0 <= i < all.len() ==> entries_view(all).contains_key(
                            (#[trigger] all[i]).0@,
                        ),
                    forall|i: int|
                        0 <= i < all.len() ==> entries_view(all)[(#[trigger] all[i]).0@]
                            == contents(all[i].1),
                    object_view(out@) == entries_view(all.take(it.index())),
            {
                let (k, x) = p;
                proof {
                    assert(all[it.index()] == (k, x));
                    assert(all.take(it.index() + 1).drop_last() =~= all.take(it.index()));
                    assert(decreases_to!(contents(v) => contents(v)->Object_0));
                    vstd::map::axiom_map_index_decreases_finite(contents(v)->Object_0, k@);
                    assert(decreases_to!(contents(v)->Object_0 => contents(x)));
                }
                let j = read_value(x);
                proof {
                    lemma_object_view_push(out@, (k, j));
                }
                out.push((k, j));
            }
            assert(all.take(all.len() as int) =~= all);
            Json::Object(out)
        },
    }
}

/// Sets the value under `key` in an entry list that holds each key once.
fn put_entry(pairs: &mut Vec<(String, serde_json::Value)>, key: String, value: serde_json::Value)
    requires
        distinct_keys(old(pairs)@),
    ensures
        distinct_keys(final(pairs)@),
        entries_view(final(pairs)@) == entries_view(old(pairs)@).insert(key@, contents(value)),
{
    let ghost before = pairs@;
    let mut i: usize = 0;
    while i < pairs.len()
        invariant
            i <= pairs.len(),
            pairs@ == before,
            distinct_keys(before),
            old(pairs)@ == before,
            forall|j: int| 0 <= j < i ==> (#[trigger] before[j]).0@ != key@,
        decreases pairs.len() - i,
    {
        if text::str_eq(pairs[i].0.as_str(), key.as_str()) {
            proof {
                lemma_replace_entry(before, i as int, (key, value));
            }
            pairs.set(i, (key, value));
            return ;
        }
        i += 1;
    }
    pairs.push((key, value));
    proof {
        let after = pairs@;
        assert(after.drop_last() =~= before);
        assert forall|a: int, b: int| 0 <= a < b < after.len() implies (#[trigger] after[a]).0@ != (
        #[trigger] after[b]).0@ by {
            assert(after[a] == before[a]);
            if b < before.len() {
                assert(after[b] == before[b]);
            }
        }
    }
}

/// Replacing the value beside a key, in an entry list that holds each key once.
proof fn lemma_replace_entry(
    before: Seq<(String, serde_json::Value)>,
    i: int,
    p: (String, serde_json::Value),
)
    requires
        distinct_keys(before),
        0 <= i < before.len(),
        before[i].0@ == p.0@,
    ensures
        distinct_keys(before.update(i, p)),
        entries_view(before.update(i, p)) == entries_view(before).insert(p.0@, contents(p.1)),
{
    let after = before.update(i, p);
    assert forall|a: int, b: int| 0 <= a < b < after.len() implies (#[trigger] after[a]).0@ != (
    #[trigger] after[b]).0@ by {
        assert(before[a].0@ != before[b].0@);
    }
    lemma_entries_view(before);
    lemma_entries_view(after);
    let m = entries_view(before).insert(p.0@, contents(p.1));
    assert forall|k: Seq<char>| #[trigger]
        entries_view(after).contains_key(k) == m.contains_key(k) by {
        if entries_view(after).contains_key(k) {
            let j = choose|j: int| 0 <= j < after.len() && (#[trigger] after[j]).0@ == k;
            assert(before[j].0@ == k);
        }
        if m.contains_key(k) {
            if k == p.0@ {
                assert(after[i].0@ == k);
            } else {
                let j = choose|j: int| 0 <= j < before.len() && (#[trigger] before[j]).0@ == k;
                assert(after[j].0@ == k);
            }
        }
    }
    assert forall|k: Seq<char>| m.contains_key(k) implies #[trigger] entries_view(after)[k]
        == m[k] by {
        if k == p.0@ {
            assert(after[i].0@ == k);
        } else {
            let j = choose|j: int| 0 <= j < before.len() && (#[trigger] before[j]).0@ == k;
            assert(after[j] == before[j]);
        }
    }
    assert(entries_view(after) =~= m);
}

/// Writes a tree as a `serde_json::Value`.
pub fn write_value(j: &Json) -> (v: serde_json::Value)
    ensures
        contents(v) == j@,
    decreases j,
{
    match j {
        Json::Null => close_value(Node::Null),
        Json::Bool(b) => close_value(Node::Bool(*b)),
        Json::Number(n) => close_value(Node::Number(copy_number(n))),
        Json::Str(s) => close_value(Node::Str(s.clone())),
        Json::Array(items) => {
            let mut out: Vec<serde_json::Value> = Vec::new();
            let mut i: usize = 0;
            assert(values_view(out@) =~= array_view(items@.take(0)));
            while i < items.len()
                invariant
                    i <= items.len(),
                    j == Json::Array(*items),
                    values_view(out@) == array_view(items@.take(i as int)),
                decreases items.len() - i,
            {
                assert(decreases_to!(j => j->Array_0));
                assert(decreases_to!(j->Array_0 => j->Array_0@));
                assert(decreases_to!(items@ => items@[i as int]));
                let v = write_value(&items[i]);
                proof {
                    assert(items@.take(i + 1).drop_last() =~= items@.take(i as int));
                    assert(values_view(out@.push(v)) =~= values_view(out@).push(contents(v)));
                }
                out.push(v);
                i += 1;
            }
            assert(items@.take(items.len() as int) =~= items@);
            close_value(Node::Array(out))
        },
        Json::Object(pairs) => {
            let mut out: Vec<(String, serde_json::Value)> = Vec::new();
            let mut i: usize = 0;
            while i < pairs.len()
                invariant
                    i <= pairs.len(),
                    j == Json::Object(*pairs),
                    distinct_keys(out@),
                    entries_view(out@) == object_view(pairs@.take(i as int)),
                decreases pairs.len() - i,
            {
                assert(decreases_to!(j => j->Object_0));
                assert(decreases_to!(j->Object_0 => j->Object_0@));
                assert(decreases_to!(pairs@ => pairs@[i as int]));
                assert(decreases_to!(pairs@[i as int] => pairs@[i as int].1));
                let v = write_value(&pairs[i].1);
                let k = pairs[i].0.clone();
                assert(pairs@.take(i + 1).drop_last() =~= pairs@.take(i as int));
                put_entry(&mut out, k, v);
                i += 1;
            }
            assert(pairs@.take(pairs.len() as int) =~= pairs@);
            close_value(Node::Object(out))
        },
    }
}

/// Parses a text that holds one JSON value; where it does not, tells why.
pub fn parse(s: &str) -> (r: Result<Json, String>)
    ensures
        match r {
            Ok(j) => json_parsed(s@) == Ok::<JsonView, Seq<char>>(j@),
            Err(e) => json_parsed(s@) == Err::<JsonView, Seq<char>>(e@),
        },
{
    match value_from_text(s) {
        Ok(v) => Ok(read_value(v)),
        Err(e) => Err(e),
    }
}

/// Parses the first of the JSON values that a text holds.
pub fn parse_first(s: &str) -> (r: Option<Json>)
    ensures
        match r {
            Some(j) => json_first(s@) == Some(j@) && nests(j@, MAX_NESTING as nat),
            None => json_first(s@) is None,
        },
{
    match first_value(s) {
        Some(v) => Some(read_value(v)),
        None => None,
    }
}

/// Prints a value. Parsing gives it back, but for floats, unless it nests too deep to be read.
pub fn render(j: &Json) -> (r: String)
    ensures
        r@ == json_text(j@),
        nests(j@, MAX_NESTING as nat) ==> reads_back(j@, r@),
        j@ == JsonView::Object(Map::empty()) ==> r@ == "{}"@,
{
    let v = write_value(j);
    value_text(&v)
}

/// The value that a text parses to, where it does.
pub open spec fn parsed(s: Seq<char>) -> Option<JsonView> {
    match json_parsed(s) {
        Ok(v) => Some(v),
        Err(_) => None,
    }
}

/// A value is read as it is: the text of a string, the items of an array, the value of a boolean,
/// and of an object what stands under a key; nothing is read from a value of another kind.
pub proof fn values_are_read_as_they_are(
    s: Seq<char>,
    items: Seq<JsonView>,
    m: Map<Seq<char>, JsonView>,
    key: Seq<char>,
    b: bool,
)
    ensures
        JsonView::Str(s).as_str() == Some(s),
        JsonView::Array(items).as_array() == Some(items),
        JsonView::Bool(b).as_bool() == Some(b),
        m.contains_key(key) ==> JsonView::Object(m).field(key) == Some(m[key])
            && JsonView::Object(m).at(key) == m[key] && JsonView::Object(m).str_field(key)
            == m[key].as_str(),
        !m.contains_key(key) ==> JsonView::Object(m).field(key) is None && JsonView::Object(m).at(
            key,
        ) == JsonView::Null,
        JsonView::Null.as_str() is None && JsonView::Bool(b).as_str() is None && JsonView::Array(
            items,
        ).as_str() is None && JsonView::Object(m).as_str() is None,
        JsonView::Null.as_array() is None && JsonView::Str(s).as_array() is None
            && JsonView::Object(m).as_array() is None,
        JsonView::Null.as_bool() is None && JsonView::Str(s).as_bool() is None,
        JsonView::Str(s).as_u64() is None && JsonView::Null.as_u64() is None && JsonView::Array(
            items,
        ).as_u64() is None,
        JsonView::Null.field(key) is None && JsonView::Str(s).field(key) is None
            && JsonView::Array(items).field(key) is None,
{
}

} // verus!
