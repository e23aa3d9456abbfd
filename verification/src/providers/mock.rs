//! A scripted provider for tests and UI development without API keys.
use crate::error::{Error, ErrorView};
use crate::types::{ChatEvent, Message, MessageView, ToolSpec, ToolSpecView};
use crate::types;
use vstd::prelude::*;
use vstd::string::*;

verus! {

/// One recorded `stream_chat` invocation.
pub struct RecordedCall {
    pub model: String,
    pub messages: Vec<Message>,
    pub tools: Vec<ToolSpec>,
}

/// One recorded invocation.
#[verifier::ext_equal]
pub struct RecordedView {
    pub model: Seq<char>,
    pub messages: Seq<MessageView>,
    pub tools: Seq<ToolSpecView>,
}

impl RecordedCall {
    pub open spec fn view(self) -> RecordedView {
        RecordedView {
            model: self.model@,
            messages: types::message_views(self.messages@),
            tools: types::spec_views(self.tools@),
        }
    }
}

/// What the recorded invocations of a list are.
pub open spec fn recorded_views(v: Seq<RecordedCall>) -> Seq<RecordedView> {
    v.map_values(|c: RecordedCall| c@)
}

/// Scripted provider. Each `stream_chat` call pops one turn (a Vec of events) from the script.
pub struct MockProvider {
    pub calls: Vec<RecordedCall>,
    /// The turns left, the next one first.
    pub script: Vec<Vec<Result<ChatEvent, Error>>>,
}

fn copy_messages(v: &[Message]) -> (r: Vec<Message>)
    ensures
        types::message_views(r@) == types::message_views(v@),
{
    let mut out: Vec<Message> = Vec::new();
    let mut i: usize = 0;
    while i < v.len()
        invariant
            i <= v.len(),
            types::message_views(out@) =~= types::message_views(v@).take(i as int),
        decreases v.len() - i,
    {
        let m = v[i].copy();
        proof {
            types::lemma_message_views_push(out@, m);
        }
        out.push(m);
        i += 1;
    }
    out
}

fn copy_specs(v: &[ToolSpec]) -> (r: Vec<ToolSpec>)
    ensures
        types::spec_views(r@) == types::spec_views(v@),
{
    let mut out: Vec<ToolSpec> = Vec::new();
    let mut i: usize = 0;
    while i < v.len()
        invariant
            i <= v.len(),
            types::spec_views(out@) =~= types::spec_views(v@).take(i as int),
        decreases v.len() - i,
    {
        let t = ToolSpec {
            name: v[i].name.clone(),
            description: v[i].description.clone(),
            params_schema: v[i].params_schema.copy(),
        };
        proof {
            types::lemma_spec_views_push(out@, t);
        }
        out.push(t);
        i += 1;
    }
    out
}

impl MockProvider {
    /// A provider that answers with the turns of a script.
    pub fn new(script: Vec<Vec<Result<ChatEvent, Error>>>) -> (r: Self)
        ensures
            r.script == script,
            r.calls@.len() == 0,
    {
        MockProvider { calls: Vec::new(), script }
    }

    /// Records the call, and answers with the next turn; an error where none is left.
    pub fn stream_chat(&mut self, model: &str, messages: &[Message], tools: &[ToolSpec]) -> (r:
        Result<Vec<Result<ChatEvent, Error>>, Error>)
        ensures
            recorded_views(final(self).calls@) == recorded_views(old(self).calls@).push(
                RecordedView {
                    model: model@,
                    messages: types::message_views(messages@),
                    tools: types::spec_views(tools@),
                },
            ),
            match r {
                Ok(turn) => {
                    &&& old(self).script@.len() > 0
                    &&& turn == old(self).script@[0]
                    &&& final(self).script@ == old(self).script@.drop_first()
                },
                Err(e) => {
                    &&& old(self).script@.len() == 0
                    &&& final(self).script@ == old(self).script@
                    &&& e@ is Provider
                    &&& e@->status == 0
                    &&& e@->body == "mock script exhausted"@
                },
            },
    {
        let c = RecordedCall {
            model: model.to_owned(),
            messages: copy_messages(messages),
            tools: copy_specs(tools),
        };
        self.calls.push(c);
        assert(recorded_views(self.calls@) =~= recorded_views(old(self).calls@).push(c@));
        if self.script.len() == 0 {
            return Err(Error::Provider { status: 0, body: "mock script exhausted".to_owned() });
        }
        let turn = self.script.remove(0);
        assert(self.script@ =~= old(self).script@.drop_first());
        Ok(turn)
    }
}

} // verus!
