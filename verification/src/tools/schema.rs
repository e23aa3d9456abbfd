//! JSON schemas of tool parameters.
use crate::json::{Json, JsonView};
use crate::providers;
use vstd::prelude::*;
use vstd::string::*;

verus! {

/// A parameter of a type.
pub open spec fn typed_view(kind: Seq<char>) -> JsonView {
    providers::obj(map!["type"@ => providers::jstr(kind)])
}

/// A parameter of a type, with a description.
pub open spec fn described_view(kind: Seq<char>, description: Seq<char>) -> JsonView {
    providers::obj(
        map!["type"@ => providers::jstr(kind), "description"@ => providers::jstr(description)],
    )
}

/// A string parameter that is one of the given words.
pub open spec fn choice_view(words: Seq<JsonView>) -> JsonView {
    providers::obj(
        map!["type"@ => providers::jstr("string"@), "enum"@ => JsonView::Array(words)],
    )
}

/// An object with the given parameters, of which the given ones are required.
pub open spec fn object_view(
    properties: Map<Seq<char>, JsonView>,
    required: Seq<JsonView>,
) -> JsonView {
    let m = map!["type"@ => providers::jstr("object"@), "properties"@ => providers::obj(properties)];
    if required.len() == 0 {
        providers::obj(m)
    } else {
        providers::obj(m.insert("required"@, JsonView::Array(required)))
    }
}

/// A parameter of a type.
pub(crate) fn typed(kind: &str) -> (r: Json)
    ensures
        r@ == typed_view(kind@),
{
    Json::object().with("type", Json::str(kind))
}

/// A parameter of a type, with a description.
pub(crate) fn described(kind: &str, description: &str) -> (r: Json)
    ensures
        r@ == described_view(kind@, description@),
{
    Json::object().with("type", Json::str(kind)).with("description", Json::str(description))
}

/// A string parameter that is one of the given words.
pub(crate) fn choice(words: Json) -> (r: Json)
    requires
        words@ is Array,
    ensures
        r@ == choice_view(words@->Array_0),
{
    Json::object().with("type", Json::str("string")).with("enum", words)
}

/// An object with the given parameters, of which the given ones are required.
pub(crate) fn object(properties: Json, required: Json) -> (r: Json)
    requires
        properties@ is Object,
        required@ is Array,
    ensures
        r@ == object_view(properties@->Object_0, required@->Array_0),
{
    let o = Json::object().with("type", Json::str("object")).with("properties", properties);
    let any = match required.as_array() {
        Some(a) => {
            proof {
                crate::json::lemma_array_view(a@);
            }
            a.len() > 0
        },
        None => false,
    };
    if any {
        o.with("required", required)
    } else {
        o
    }
}

} // verus!
