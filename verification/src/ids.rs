//! Fresh identifiers.
use crate::text;
use crate::types::{ChatEvent, ChatEventView};
use crate::types;
use vstd::prelude::*;
use vstd::string::*;

verus! {

/// Whether a character is a hexadecimal digit in lower case.
pub open spec fn is_hex(c: char) -> bool {
    '0' <= c <= '9' || 'a' <= c <= 'f'
}

/// Whether a text has the form of a UUID: 32 hexadecimal digits in lower case in five groups,
/// with hyphens between them.
pub open spec fn is_uuid(s: Seq<char>) -> bool {
    &&& s.len() == 36
    &&& forall|i: int|
        0 <= i < 36 ==> if i == 8 || i == 13 || i == 18 || i == 23 {
            #[trigger] s[i] == '-'
        } else {
            is_hex(s[i])
        }
}

/// `uuid::Uuid::new_v4` draws a random UUID, which its `Display` prints in hyphenated form.
/// That two draws differ is likely and not certain, and is not stated.
#[verifier::external_body]
pub(crate) fn new_uuid() -> (r: String)
    ensures
        is_uuid(r@),
{
    uuid::Uuid::new_v4().to_string()
}

/// A tool call without an identifier becomes one with the prefix and a UUID; any other event
/// stays as it is.
pub open spec fn identified(prefix: Seq<char>, draft: ChatEventView, e: ChatEventView) -> bool {
    match draft {
        ChatEventView::ToolCall { id, name, args_json } => {
            &&& e is ToolCall
            &&& e->name == name
            &&& e->args_json == args_json
            &&& prefix.is_prefix_of(e->id)
            &&& is_uuid(e->id.skip(prefix.len() as int))
        },
        _ => e == draft,
    }
}

/// The events one by one.
pub open spec fn all_identified(
    prefix: Seq<char>,
    drafts: Seq<ChatEventView>,
    es: Seq<ChatEventView>,
) -> bool {
    &&& es.len() == drafts.len()
    &&& forall|i: int| 0 <= i < es.len() ==> identified(prefix, drafts[i], #[trigger] es[i])
}

/// The event with the given identifier, where it is a tool call.
pub fn with_id(e: ChatEvent, call_id: String) -> (r: ChatEvent)
    ensures
        r@ == (match e@ {
            ChatEventView::ToolCall { id, name, args_json } => ChatEventView::ToolCall {
                id: call_id@,
                name,
                args_json,
            },
            other => other,
        }),
{
    match e {
        ChatEvent::ToolCall { id: _, name, args_json } => ChatEvent::ToolCall {
            id: call_id,
            name,
            args_json,
        },
        other => other,
    }
}

/// Gives each tool call a fresh identifier: a counter that starts anew with each answer would
/// collide across the turns of a history.
pub fn identify(prefix: &str, drafts: Vec<ChatEvent>) -> (r: Vec<ChatEvent>)
    ensures
        all_identified(prefix@, types::chat_views(drafts@), types::chat_views(r@)),
{
    let ghost all = drafts@;
    let mut out: Vec<ChatEvent> = Vec::new();
    for e in it: drafts.into_iter()
        invariant
            it.seq() == all,
            out@.len() == it.index(),
            forall|i: int|
                0 <= i < it.index() ==> identified(
                    prefix@,
                    types::chat_views(all)[i],
                    #[trigger] types::chat_views(out@)[i],
                ),
    {
        let u = new_uuid();
        let id = text::concat2(prefix, u.as_str());
        proof {
            assert(id@.take(prefix@.len() as int) =~= prefix@);
            assert(id@.skip(prefix@.len() as int) =~= u@);
        }
        let ghost before = types::chat_views(out@);
        let ghost draft = e@;
        let e = with_id(e, id);
        proof {
            types::lemma_chat_views_push(out@, e);
            assert(types::chat_views(all)[it.index()] == draft);
        }
        out.push(e);
        assert forall|i: int| 0 <= i < it.index() + 1 implies identified(
            prefix@,
            types::chat_views(all)[i],
            #[trigger] types::chat_views(out@)[i],
        ) by {
            if i < it.index() {
                assert(types::chat_views(out@)[i] == before[i]);
            }
        }
    }
    out
}

/// Identifying changes the identifiers of calls and nothing else: every event stays in its place,
/// a call keeps its name and arguments and gets an identifier made of the prefix and thirty-six
/// characters, and what is said stays the same.
pub proof fn identifying_changes_identifiers_only(
    prefix: Seq<char>,
    drafts: Seq<ChatEventView>,
    es: Seq<ChatEventView>,
)
    requires
        all_identified(prefix, drafts, es),
    ensures
        es.len() == drafts.len(),
        forall|i: int|
            0 <= i < es.len() ==> match drafts[i] {
                ChatEventView::ToolCall { id, name, args_json } => {
                    &&& #[trigger] es[i] == (ChatEventView::ToolCall {
                        id: es[i]->id,
                        name,
                        args_json,
                    })
                    &&& es[i]->id.len() == prefix.len() + 36
                    &&& es[i]->id.take(prefix.len() as int) == prefix
                },
                _ => es[i] == drafts[i],
            },
        types::said(es) == types::said(drafts),
    decreases es.len(),
{
    assert forall|i: int| 0 <= i < es.len() implies match drafts[i] {
        ChatEventView::ToolCall { id, name, args_json } => {
            &&& #[trigger] es[i] == (ChatEventView::ToolCall { id: es[i]->id, name, args_json })
            &&& es[i]->id.len() == prefix.len() + 36
            &&& es[i]->id.take(prefix.len() as int) == prefix
        },
        _ => es[i] == drafts[i],
    } by {
        assert(identified(prefix, drafts[i], es[i]));
        if drafts[i] is ToolCall {
            assert(es[i]->id.skip(prefix.len() as int).len() == 36);
            assert(es[i]->id.take(prefix.len() as int) =~= prefix);
        }
    }
    if es.len() > 0 {
        let a = drafts.drop_last();
        let b = es.drop_last();
        assert forall|i: int| 0 <= i < b.len() implies identified(prefix, a[i], #[trigger] b[i]) by {
            assert(b[i] == es[i] && a[i] == drafts[i]);
        }
        identifying_changes_identifiers_only(prefix, a, b);
        assert(identified(prefix, drafts.last(), es[es.len() - 1]));
    }
}

/// An identifier has four hyphens, between digits that are hexadecimal.
pub proof fn identifiers_have_their_form(s: Seq<char>, i: int)
    requires
        is_uuid(s),
        0 <= i < s.len(),
    ensures
        s.len() == 36,
        s[8] == '-' && s[13] == '-' && s[18] == '-' && s[23] == '-',
        i != 8 && i != 13 && i != 18 && i != 23 ==> '0' <= s[i] <= '9' || 'a' <= s[i] <= 'f',
{
}

} // verus!
