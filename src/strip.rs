use vstd::prelude::*;
use crate::ts::{
    ContextNode, ContextView, MessageNode, MessageView, TSNode, TSView, TranslationType,
    messages_view, contexts_view,
};

verus! {

/// Translation statuses that a command can select.
#[derive(Debug, Clone, Copy, PartialEq, Eq, Structural)]
pub enum TranslationTypeArg {
    Obsolete,
    Unfinished,
    Vanished,
}

/// The translation status that an argument selects.
pub open spec fn spec_translation_type(value: TranslationTypeArg) -> TranslationType {
    match value {
        TranslationTypeArg::Obsolete => TranslationType::Obsolete,
        TranslationTypeArg::Unfinished => TranslationType::Unfinished,
        TranslationTypeArg::Vanished => TranslationType::Vanished,
    }
}

/// The translation status that an argument selects.
pub fn to_translation_type(value: &TranslationTypeArg) -> (r: TranslationType)
    ensures
        r == spec_translation_type(*value),
{
    match value {
        TranslationTypeArg::Obsolete => TranslationType::Obsolete,
        TranslationTypeArg::Unfinished => TranslationType::Unfinished,
        TranslationTypeArg::Vanished => TranslationType::Vanished,
    }
}

impl From<TranslationTypeArg> for TranslationType {
    fn from(value: TranslationTypeArg) -> (r: TranslationType)
        ensures
            r == spec_translation_type(value),
    {
        to_translation_type(&value)
    }
}

impl vstd::std_specs::convert::FromSpecImpl<TranslationTypeArg> for TranslationType {
    open spec fn obeys_from_spec() -> bool {
        true
    }

    open spec fn from_spec(v: TranslationTypeArg) -> TranslationType {
        spec_translation_type(v)
    }
}

/// The status of a message's translation, when it has a translation with a status.
pub open spec fn status_of(m: MessageView) -> Option<TranslationType> {
    match m.translation {
        Some(t) => t.translation_type,
        None => None,
    }
}

/// Whether the message's translation has one of the given statuses.
pub open spec fn has_status_in(m: MessageView, types: Seq<TranslationType>) -> bool {
    match status_of(m) {
        Some(t) => types.contains(t),
        None => false,
    }
}

/// A message with its translation removed when the translation has one of the statuses.
pub open spec fn stripped(m: MessageView, types: Seq<TranslationType>) -> MessageView {
    if has_status_in(m, types) {
        MessageView { translation: None, ..m }
    } else {
        m
    }
}

/// Messages stripped one by one.
pub open spec fn stripped_all(ms: Seq<MessageView>, types: Seq<TranslationType>) -> Seq<MessageView> {
    ms.map_values(|m: MessageView| stripped(m, types))
}

/// A context with its messages stripped.
pub open spec fn stripped_context(c: ContextView, types: Seq<TranslationType>) -> ContextView {
    ContextView { messages: stripped_all(c.messages, types), ..c }
}

/// Whether `status` is one of `types`.
pub fn contains_status(types: &[TranslationType], status: TranslationType) -> (r: bool)
    ensures
        r == types@.contains(status),
{
    let mut i: usize = 0;
    while i < types.len()
        invariant
            i <= types@.len(),
            forall|k: int| 0 <= k < i ==> types@[k] != status,
        decreases types@.len() - i,
    {
        if types[i] == status {
            assert(types@[i as int] == status);
            return true;
        }
        i = i + 1;
    }
    false
}

/// Whether `m`'s translation has one of the statuses in `types`.
pub fn status_in(m: &MessageNode, types: &[TranslationType]) -> (r: bool)
    ensures
        r == has_status_in(m@, types@),
{
    match &m.translation {
        Some(t) => match t.translation_type {
            Some(status) => contains_status(types, status),
            None => false,
        },
        None => false,
    }
}

/// Strips the messages of a list.
fn strip_messages(ms: Vec<MessageNode>, types: &[TranslationType]) -> (r: Vec<MessageNode>)
    ensures
        messages_view(r@) == stripped_all(messages_view(ms@), types@),
{
    let ghost vs = messages_view(ms@);
    let mut out: Vec<MessageNode> = Vec::new();
    let mut rest = ms;
    let ghost mut i: int = 0;
    while rest.len() > 0
        invariant
            0 <= i <= vs.len(),
            rest@.len() == vs.len() - i,
            messages_view(rest@) == vs.skip(i),
            messages_view(out@) == stripped_all(vs.take(i), types@),
        decreases rest@.len(),
    {
        assert(messages_view(rest@)[0] == rest@[0]@);
        let ghost old_rest = rest@;
        let mut m = rest.remove(0);
        proof {
            assert(rest@ =~= old_rest.skip(1));
            assert(messages_view(rest@) =~= messages_view(old_rest).skip(1));
        }
        if status_in(&m, types) {
            m.translation = None;
        }
        let ghost old_out = out@;
        assert(m@ == stripped(vs[i], types@));
        out.push(m);
        proof {
            assert(messages_view(out@) =~= messages_view(old_out).push(stripped(vs[i], types@)));
            assert(vs.take(i + 1) =~= vs.take(i).push(vs[i]));
            assert(messages_view(out@) =~= stripped_all(vs.take(i + 1), types@));
            i = i + 1;
        }
    }
    assert(vs.take(vs.len() as int) =~= vs);
    out
}

/// Removes the translations whose status is one of `translation_type_filter`, in every context
/// and among the messages without context.
pub fn strip_nodes(nodes: &mut TSNode, translation_type_filter: &[TranslationType])
    ensures
        final(nodes)@ == (TSView {
            contexts: old(nodes)@.contexts.map_values(|c: ContextView| stripped_context(c, translation_type_filter@)),
            messages: stripped_all(old(nodes)@.messages, translation_type_filter@),
            ..old(nodes)@
        }),
{
    let ghost types = translation_type_filter@;
    let ghost cvs = contexts_view(nodes.contexts@);
    let mut contexts: Vec<ContextNode> = Vec::new();
    core::mem::swap(&mut contexts, &mut nodes.contexts);
    let mut out: Vec<ContextNode> = Vec::new();
    let ghost mut i: int = 0;
    while contexts.len() > 0
        invariant
            0 <= i <= cvs.len(),
            contexts@.len() == cvs.len() - i,
            contexts_view(contexts@) == cvs.skip(i),
            contexts_view(out@) == cvs.take(i).map_values(|c: ContextView| stripped_context(c, types)),
            types == translation_type_filter@,
        decreases contexts@.len(),
    {
        assert(contexts_view(contexts@)[0] == contexts@[0]@);
        let ghost old_rest = contexts@;
        let c = contexts.remove(0);
        proof {
            assert(contexts@ =~= old_rest.skip(1));
            assert(contexts_view(contexts@) =~= contexts_view(old_rest).skip(1));
        }
        let ContextNode { name, messages, comment, encoding } = c;
        let messages = strip_messages(messages, translation_type_filter);
        let c = ContextNode { name, messages, comment, encoding };
        let ghost old_out = out@;
        assert(c@ == stripped_context(cvs[i], types));
        out.push(c);
        proof {
            assert(contexts_view(out@) =~= contexts_view(old_out).push(stripped_context(cvs[i], types)));
            assert(cvs.take(i + 1) =~= cvs.take(i).push(cvs[i]));
            assert(contexts_view(out@) =~= cvs.take(i + 1).map_values(|c: ContextView| stripped_context(c, types)));
            i = i + 1;
        }
    }
    assert(cvs.take(cvs.len() as int) =~= cvs);
    nodes.contexts = out;
    let mut messages: Vec<MessageNode> = Vec::new();
    core::mem::swap(&mut messages, &mut nodes.messages);
    nodes.messages = strip_messages(messages, translation_type_filter);
}

} // verus!
