use vstd::prelude::*;
use crate::strip::{contains_status, has_status_in, status_in};
use crate::ts::{
    ContextNode, ContextView, MessageNode, MessageView, TSNode, TSView, TranslationNode,
    TranslationType, messages_view, contexts_view,
};

verus! {

/// Whether a translation exists and has one of the wanted statuses.
pub fn translation_is_wanted(translation_node: Option<&TranslationNode>, wanted_types: &[TranslationType]) -> (r: bool)
    ensures
        r == match translation_node {
            Some(t) => match t.translation_type {
                Some(status) => wanted_types@.contains(status),
                None => false,
            },
            None => false,
        },
{
    match translation_node {
        Some(t) => match t.translation_type {
            Some(status) => contains_status(wanted_types, status),
            None => false,
        },
        None => false,
    }
}

/// The messages whose translation has one of the wanted statuses, in order.
pub open spec fn retained_messages(ms: Seq<MessageView>, types: Seq<TranslationType>) -> Seq<MessageView> {
    ms.filter(|m: MessageView| has_status_in(m, types))
}

/// A context with only its wanted messages.
pub open spec fn retained_context(c: ContextView, types: Seq<TranslationType>) -> ContextView {
    ContextView { messages: retained_messages(c.messages, types), ..c }
}

/// The contexts with only their wanted messages, leaving out those left empty.
pub open spec fn retained_contexts(cs: Seq<ContextView>, types: Seq<TranslationType>) -> Seq<ContextView> {
    cs.map_values(|c: ContextView| retained_context(c, types)).filter(|c: ContextView| c.messages.len() > 0)
}

/// Keeps the wanted messages of a list.
fn retain_messages(ms: Vec<MessageNode>, wanted_types: &[TranslationType]) -> (r: Vec<MessageNode>)
    ensures
        messages_view(r@) == retained_messages(messages_view(ms@), wanted_types@),
{
    let ghost vs = messages_view(ms@);
    let ghost wanted = |m: MessageView| has_status_in(m, wanted_types@);
    let mut out: Vec<MessageNode> = Vec::new();
    let mut rest = ms;
    let ghost mut i: int = 0;
    while rest.len() > 0
        invariant
            0 <= i <= vs.len(),
            rest@.len() == vs.len() - i,
            messages_view(rest@) == vs.skip(i),
            wanted == (|m: MessageView| has_status_in(m, wanted_types@)),
            messages_view(out@) == vs.take(i).filter(wanted),
        decreases rest@.len(),
    {
        assert(messages_view(rest@)[0] == rest@[0]@);
        let ghost old_rest = rest@;
        let m = rest.remove(0);
        proof {
            assert(rest@ =~= old_rest.skip(1));
            assert(messages_view(rest@) =~= messages_view(old_rest).skip(1));
            assert(vs.take(i + 1) =~= vs.take(i).push(vs[i]));
            vs.take(i).lemma_filter_push(vs[i], wanted);
        }
        if status_in(&m, wanted_types) {
            let ghost old_out = out@;
            let ghost mv = m@;
            out.push(m);
            assert(messages_view(out@) =~= messages_view(old_out).push(mv));
        }
        proof {
            i = i + 1;
        }
    }
    assert(vs.take(vs.len() as int) =~= vs);
    out
}

/// Keeps only the messages whose translation has one of `wanted_types`, and the contexts that
/// still hold a message.
pub fn retain_ts_node(ts_node: &mut TSNode, wanted_types: &[TranslationType])
    ensures
        final(ts_node)@ == (TSView {
            contexts: retained_contexts(old(ts_node)@.contexts, wanted_types@),
            messages: retained_messages(old(ts_node)@.messages, wanted_types@),
            ..old(ts_node)@
        }),
{
    let ghost types = wanted_types@;
    let ghost cvs = contexts_view(ts_node.contexts@);
    let ghost mapped = cvs.map_values(|c: ContextView| retained_context(c, types));
    let ghost nonempty = |c: ContextView| c.messages.len() > 0;
    let mut contexts: Vec<ContextNode> = Vec::new();
    core::mem::swap(&mut contexts, &mut ts_node.contexts);
    let mut out: Vec<ContextNode> = Vec::new();
    let ghost mut i: int = 0;
    while contexts.len() > 0
        invariant
            0 <= i <= cvs.len(),
            contexts@.len() == cvs.len() - i,
            contexts_view(contexts@) == cvs.skip(i),
            mapped == cvs.map_values(|c: ContextView| retained_context(c, types)),
            nonempty == (|c: ContextView| c.messages.len() > 0),
            contexts_view(out@) == mapped.take(i).filter(nonempty),
            types == wanted_types@,
        decreases contexts@.len(),
    {
        assert(contexts_view(contexts@)[0] == contexts@[0]@);
        let ghost old_rest = contexts@;
        let c = contexts.remove(0);
        proof {
            assert(contexts@ =~= old_rest.skip(1));
            assert(contexts_view(contexts@) =~= contexts_view(old_rest).skip(1));
            assert(mapped.take(i + 1) =~= mapped.take(i).push(mapped[i]));
            mapped.take(i).lemma_filter_push(mapped[i], nonempty);
        }
        let ContextNode { name, messages, comment, encoding } = c;
        let messages = retain_messages(messages, wanted_types);
        let c = ContextNode { name, messages, comment, encoding };
        assert(c@ == mapped[i]);
        if c.messages.len() > 0 {
            let ghost old_out = out@;
            out.push(c);
            assert(contexts_view(out@) =~= contexts_view(old_out).push(mapped[i]));
        }
        proof {
            i = i + 1;
        }
    }
    assert(mapped.take(cvs.len() as int) =~= mapped);
    ts_node.contexts = out;
    let mut messages: Vec<MessageNode> = Vec::new();
    core::mem::swap(&mut messages, &mut ts_node.messages);
    ts_node.messages = retain_messages(messages, wanted_types);
}

} // verus!
