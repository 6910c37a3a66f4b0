use vstd::prelude::*;
use crate::ts::{
    ContextNode, ContextView, LocationNode, MessageNode, MessageView, TSNode, TSView, text_of,
    messages_view, contexts_view, same_text, copy_text, copy_locations, copy_translation,
};

verus! {

/// How the merge decides that a base message and an incoming message are the same message.
///
/// When both messages carry an identifier, the identifiers decide under either rule.
#[derive(Debug, Clone, Copy, PartialEq, Eq, Structural)]
pub enum IdentityRule {
    /// Otherwise the source texts must be equal.
    SourceText,
    /// Otherwise the source texts and the recorded locations must be equal.
    SourceTextAndLocations,
}

/// What identifies a location: its file name's text and its line.
pub open spec fn location_identity(l: LocationNode) -> (Option<Seq<char>>, Option<u32>) {
    (text_of(l.filename), l.line)
}

/// Whether two location lists record the same places, in the same order.
pub open spec fn same_locations(a: Seq<LocationNode>, b: Seq<LocationNode>) -> bool {
    a.map_values(|l: LocationNode| location_identity(l)) == b.map_values(|l: LocationNode| location_identity(l))
}

/// The identity rule: base message `a` and incoming message `b` are the same message.
pub open spec fn same_message(rule: IdentityRule, a: MessageView, b: MessageView) -> bool {
    if a.id is Some && b.id is Some {
        a.id.unwrap()@ == b.id.unwrap()@
    } else {
        &&& text_of(a.source) == text_of(b.source)
        &&& (rule == IdentityRule::SourceTextAndLocations ==> same_locations(a.locations, b.locations))
    }
}

/// `rs[j]` is the first message of `rs` that is the same message as `m`.
pub open spec fn is_first_match(rule: IdentityRule, m: MessageView, rs: Seq<MessageView>, j: int) -> bool {
    &&& 0 <= j < rs.len()
    &&& same_message(rule, m, rs[j])
    &&& forall|k: int| 0 <= k < j ==> !same_message(rule, m, #[trigger] rs[k])
}

/// Whether some message of `rs` is the same message as `m`.
pub open spec fn has_match(rule: IdentityRule, m: MessageView, rs: Seq<MessageView>) -> bool {
    exists|j: int| 0 <= j < rs.len() && same_message(rule, m, #[trigger] rs[j])
}

/// A base message `m` updated from its incoming counterpart `r`.
pub open spec fn merged_pair(m: MessageView, r: MessageView, keep_translation: bool) -> MessageView {
    let source_changed = text_of(m.source) != text_of(r.source);
    let comment_changed = text_of(m.comment) != text_of(r.comment);
    MessageView {
        source: if source_changed { r.source } else { m.source },
        old_source: if source_changed { m.source } else { m.old_source },
        comment: if comment_changed { r.comment } else { m.comment },
        old_comment: if comment_changed { m.comment } else { m.old_comment },
        locations: r.locations,
        translation: if keep_translation { m.translation } else { r.translation },
        translator_comment: if keep_translation { m.translator_comment } else { r.translator_comment },
        ..m
    }
}

/// A base message after the merge: updated from its first match in `rs`, or unchanged.
pub open spec fn update_from(rule: IdentityRule, m: MessageView, rs: Seq<MessageView>, keep_translation: bool) -> MessageView {
    if exists|j: int| is_first_match(rule, m, rs, j) {
        merged_pair(m, rs[choose|j: int| is_first_match(rule, m, rs, j)], keep_translation)
    } else {
        m
    }
}

/// An incoming message that no base message of `ls` matches.
pub open spec fn is_incoming_only(rule: IdentityRule, ls: Seq<MessageView>, r: MessageView) -> bool {
    forall|i: int| 0 <= i < ls.len() ==> !same_message(rule, #[trigger] ls[i], r)
}

/// The merged message list: every base message in base order, each updated from its
/// first match, then the incoming messages that match no base message, in incoming order.
pub open spec fn merged_messages(rule: IdentityRule, ls: Seq<MessageView>, rs: Seq<MessageView>, keep_translation: bool) -> Seq<MessageView> {
    ls.map_values(|m: MessageView| update_from(rule, m, rs, keep_translation))
        + rs.filter(|r: MessageView| is_incoming_only(rule, ls, r))
}

/// `cs[i]` is the first context of `cs` with the given name.
pub open spec fn is_first_named(cs: Seq<ContextView>, name: Seq<char>, i: int) -> bool {
    &&& 0 <= i < cs.len()
    &&& cs[i].name@ == name
    &&& forall|k: int| 0 <= k < i ==> (#[trigger] cs[k]).name@ != name
}

/// A base context merged with an incoming context of the same name.
pub open spec fn merged_context(rule: IdentityRule, c: ContextView, rc: ContextView, keep_translation: bool) -> ContextView {
    ContextView {
        name: c.name,
        messages: merged_messages(rule, c.messages, rc.messages, keep_translation),
        comment: if keep_translation { c.comment } else { rc.comment },
        encoding: if keep_translation { c.encoding } else { rc.encoding },
    }
}

/// The context list after taking in one incoming context: merged into the first context
/// of that name, or appended unchanged when there is none.
pub open spec fn absorb_context(rule: IdentityRule, cs: Seq<ContextView>, rc: ContextView, keep_translation: bool) -> Seq<ContextView> {
    if exists|i: int| is_first_named(cs, rc.name@, i) {
        let i = choose|i: int| is_first_named(cs, rc.name@, i);
        cs.update(i, merged_context(rule, cs[i], rc, keep_translation))
    } else {
        cs.push(rc)
    }
}

/// The context list after taking in the incoming contexts `rcs`, in order.
pub open spec fn contexts_after(rule: IdentityRule, cs: Seq<ContextView>, rcs: Seq<ContextView>, keep_translation: bool) -> Seq<ContextView>
    decreases rcs.len(),
{
    if rcs.len() == 0 {
        cs
    } else {
        absorb_context(rule, contexts_after(rule, cs, rcs.drop_last(), keep_translation), rcs.last(), keep_translation)
    }
}

/// The merged catalog: the base catalog's own fields, its messages and its contexts merged
/// with the incoming ones.
pub open spec fn merged_catalog(rule: IdentityRule, base: TSView, incoming: TSView, keep_translation: bool) -> TSView {
    TSView {
        messages: merged_messages(rule, base.messages, incoming.messages, keep_translation),
        contexts: contexts_after(rule, base.contexts, incoming.contexts, keep_translation),
        ..base
    }
}

proof fn lemma_first_match_unique(rule: IdentityRule, m: MessageView, rs: Seq<MessageView>, j: int)
    requires
        is_first_match(rule, m, rs, j),
    ensures
        (choose|k: int| is_first_match(rule, m, rs, k)) == j,
{
    let c = choose|k: int| is_first_match(rule, m, rs, k);
    assert(is_first_match(rule, m, rs, c));
    if c < j {
        assert(!same_message(rule, m, rs[c]));
    } else if c > j {
        assert(!same_message(rule, m, rs[j]));
    }
}

proof fn lemma_first_named_unique(cs: Seq<ContextView>, name: Seq<char>, i: int)
    requires
        is_first_named(cs, name, i),
    ensures
        (choose|k: int| is_first_named(cs, name, k)) == i,
{
    let c = choose|k: int| is_first_named(cs, name, k);
    assert(is_first_named(cs, name, c));
    if c < i {
        assert(cs[c].name@ != name);
    } else if c > i {
        assert(cs[i].name@ != name);
    }
}

/// Whether two location lists record the same places.
fn same_location_list(a: &Vec<LocationNode>, b: &Vec<LocationNode>) -> (r: bool)
    ensures
        r == same_locations(a@, b@),
{
    let ghost fa = a@.map_values(|l: LocationNode| location_identity(l));
    let ghost fb = b@.map_values(|l: LocationNode| location_identity(l));
    if a.len() != b.len() {
        assert(fa.len() != fb.len());
        return false;
    }
    let mut i: usize = 0;
    while i < a.len()
        invariant
            a@.len() == b@.len(),
            i <= a@.len(),
            fa == a@.map_values(|l: LocationNode| location_identity(l)),
            fb == b@.map_values(|l: LocationNode| location_identity(l)),
            forall|k: int| 0 <= k < i ==> fa[k] == fb[k],
        decreases a@.len() - i,
    {
        if !same_text(&a[i].filename, &b[i].filename) || a[i].line != b[i].line {
            assert(fa[i as int] != fb[i as int]);
            return false;
        }
        i = i + 1;
    }
    assert(fa =~= fb);
    true
}

/// Whether base message `a` and incoming message `b` are the same message under `rule`.
pub fn messages_match(rule: IdentityRule, a: &MessageNode, b: &MessageNode) -> (r: bool)
    ensures
        r == same_message(rule, a@, b@),
{
    if let (Some(x), Some(y)) = (&a.id, &b.id) {
        return x.eq(y);
    }
    if !same_text(&a.source, &b.source) {
        return false;
    }
    match rule {
        IdentityRule::SourceText => true,
        IdentityRule::SourceTextAndLocations => same_location_list(&a.locations, &b.locations),
    }
}

/// The index of the first message of `rs` that is the same message as `m`, if any.
fn find_match(rule: IdentityRule, m: &MessageNode, rs: &Vec<MessageNode>) -> (r: Option<usize>)
    ensures
        match r {
            Some(j) => is_first_match(rule, m@, messages_view(rs@), j as int),
            None => !has_match(rule, m@, messages_view(rs@)),
        },
{
    let ghost vs = messages_view(rs@);
    let mut j: usize = 0;
    while j < rs.len()
        invariant
            j <= rs@.len(),
            vs == messages_view(rs@),
            forall|k: int| 0 <= k < j ==> !same_message(rule, m@, #[trigger] vs[k]),
        decreases rs@.len() - j,
    {
        if messages_match(rule, m, &rs[j]) {
            return Some(j);
        }
        j = j + 1;
    }
    None
}

/// Base message `m` updated from its incoming counterpart `r`.
fn merge_pair(m: MessageNode, r: &MessageNode, keep_translation: bool) -> (res: MessageNode)
    ensures
        res@ == merged_pair(m@, r@, keep_translation),
{
    let mut m = m;
    if !same_text(&r.source, &m.source) {
        m.old_source = copy_text(&m.source);
        m.source = copy_text(&r.source);
    }
    if !same_text(&r.comment, &m.comment) {
        m.old_comment = copy_text(&m.comment);
        m.comment = copy_text(&r.comment);
    }
    m.locations = copy_locations(&r.locations);
    if !keep_translation {
        m.translation = copy_translation(&r.translation);
        m.translator_comment = copy_text(&r.translator_comment);
    }
    m
}

/// Merges two message lists: see `merged_messages`.
pub fn merge_messages(left: Vec<MessageNode>, right: Vec<MessageNode>, keep_translation: bool, rule: IdentityRule) -> (r: Vec<MessageNode>)
    ensures
        messages_view(r@) == merged_messages(rule, messages_view(left@), messages_view(right@), keep_translation),
{
    let ghost ls = messages_view(left@);
    let ghost rs = messages_view(right@);
    let ghost incoming_only = |x: MessageView| is_incoming_only(rule, ls, x);
    let ghost update = |m: MessageView| update_from(rule, m, rs, keep_translation);

    // Which incoming messages no base message matches.
    let mut wanted: Vec<bool> = Vec::new();
    let mut j: usize = 0;
    while j < right.len()
        invariant
            j <= right@.len(),
            wanted@.len() == j,
            ls == messages_view(left@),
            rs == messages_view(right@),
            forall|k: int| 0 <= k < j ==> wanted@[k] == is_incoming_only(rule, ls, #[trigger] rs[k]),
        decreases right@.len() - j,
    {
        let mut found = false;
        let mut i: usize = 0;
        while i < left.len()
            invariant
                i <= left@.len(),
                j < right@.len(),
                ls == messages_view(left@),
                rs == messages_view(right@),
                found == exists|k: int| 0 <= k < i && same_message(rule, #[trigger] ls[k], rs[j as int]),
            decreases left@.len() - i,
        {
            let same = messages_match(rule, &left[i], &right[j]);
            assert(ls[i as int] == left@[i as int]@);
            assert(rs[j as int] == right@[j as int]@);
            if same {
                found = true;
            }
            i = i + 1;
        }
        wanted.push(!found);
        j = j + 1;
    }

    // Every base message, updated from its first match.
    let mut result: Vec<MessageNode> = Vec::new();
    let mut rest = left;
    let ghost n = ls.len();
    let ghost mut i: int = 0;
    while rest.len() > 0
        invariant
            0 <= i <= n,
            n == ls.len(),
            messages_view(rest@) == ls.skip(i),
            rest@.len() == n - i,
            rs == messages_view(right@),
            messages_view(result@) == ls.take(i).map_values(update),
            update == (|m: MessageView| update_from(rule, m, rs, keep_translation)),
        decreases rest@.len(),
    {
        assert(messages_view(rest@)[0] == rest@[0]@);
        let ghost old_rest = rest@;
        let m = rest.remove(0);
        assert(m@ == ls[i]);
        proof {
            assert(rest@ =~= old_rest.skip(1));
            assert(messages_view(rest@) =~= messages_view(old_rest).skip(1));
        }
        let merged = match find_match(rule, &m, &right) {
            Some(k) => {
                proof {
                    lemma_first_match_unique(rule, m@, rs, k as int);
                }
                merge_pair(m, &right[k], keep_translation)
            },
            None => m,
        };
        assert(merged@ == update(ls[i]));
        let ghost old_result = result@;
        result.push(merged);
        assert(messages_view(result@) =~= messages_view(old_result).push(merged@));
        proof {
            assert(messages_view(rest@) =~= ls.skip(i + 1));
            assert(ls.take(i + 1) =~= ls.take(i).push(ls[i]));
            assert(messages_view(result@) =~= ls.take(i + 1).map_values(update));
        }
        proof {
            i = i + 1;
        }
    }
    assert(ls.take(n as int) =~= ls);

    // Then the incoming messages that no base message matches.
    let ghost head = messages_view(result@);
    let mut rest = right;
    let mut j: usize = 0;
    while rest.len() > 0
        invariant
            j <= rs.len(),
            wanted@.len() == rs.len(),
            messages_view(rest@) == rs.skip(j as int),
            rest@.len() == rs.len() - j,
            forall|k: int| 0 <= k < rs.len() ==> wanted@[k] == is_incoming_only(rule, ls, #[trigger] rs[k]),
            messages_view(result@) == head + rs.take(j as int).filter(incoming_only),
            incoming_only == (|x: MessageView| is_incoming_only(rule, ls, x)),
        decreases rest@.len(),
    {
        assert(messages_view(rest@)[0] == rest@[0]@);
        let ghost old_rest = rest@;
        let m = rest.remove(0);
        assert(m@ == rs[j as int]);
        proof {
            assert(rest@ =~= old_rest.skip(1));
            assert(messages_view(rest@) =~= messages_view(old_rest).skip(1));
        }
        proof {
            assert(rs.take(j as int + 1) =~= rs.take(j as int).push(rs[j as int]));
            rs.take(j as int).lemma_filter_push(rs[j as int], incoming_only);
            assert(messages_view(rest@) =~= rs.skip(j as int + 1));
        }
        assert(j < wanted.len());
        if wanted[j] {
            let ghost old_result = result@;
            let ghost mv = m@;
            result.push(m);
            assert(messages_view(result@) =~= messages_view(old_result).push(mv));
            assert(messages_view(result@) =~= head + rs.take(j as int + 1).filter(incoming_only));
        }
        j = j + 1;
    }
    assert(rs.take(rs.len() as int) =~= rs);
    assert(ls.map_values(update) =~= ls.map_values(|m: MessageView| update_from(rule, m, rs, keep_translation)));
    result
}

/// The index of the first context of `cs` named `name`, if any.
fn find_context(cs: &Vec<ContextNode>, name: &String) -> (r: Option<usize>)
    ensures
        match r {
            Some(i) => is_first_named(contexts_view(cs@), name@, i as int),
            None => !exists|i: int| is_first_named(contexts_view(cs@), name@, i),
        },
{
    let ghost vs = contexts_view(cs@);
    let mut i: usize = 0;
    while i < cs.len()
        invariant
            i <= cs@.len(),
            vs == contexts_view(cs@),
            forall|k: int| 0 <= k < i ==> (#[trigger] vs[k]).name@ != name@,
        decreases cs@.len() - i,
    {
        if cs[i].name.eq(name) {
            return Some(i);
        }
        i = i + 1;
    }
    None
}

/// Merges the incoming contexts into the base contexts: see `contexts_after`.
pub fn merge_contexts(left: Vec<ContextNode>, right: Vec<ContextNode>, keep_translation: bool, rule: IdentityRule) -> (r: Vec<ContextNode>)
    ensures
        contexts_view(r@) == contexts_after(rule, contexts_view(left@), contexts_view(right@), keep_translation),
{
    let ghost ls = contexts_view(left@);
    let ghost rcs = contexts_view(right@);
    let mut result = left;
    let mut rest = right;
    let ghost mut j: int = 0;
    while rest.len() > 0
        invariant
            0 <= j <= rcs.len(),
            contexts_view(rest@) == rcs.skip(j),
            rest@.len() == rcs.len() - j,
            contexts_view(result@) == contexts_after(rule, ls, rcs.take(j), keep_translation),
        decreases rest@.len(),
    {
        assert(contexts_view(rest@)[0] == rest@[0]@);
        let ghost old_rest = rest@;
        let rc = rest.remove(0);
        proof {
            assert(rest@ =~= old_rest.skip(1));
            assert(contexts_view(rest@) =~= contexts_view(old_rest).skip(1));
        }
        assert(rc@ == rcs[j]);
        let ghost before = contexts_view(result@);
        proof {
            assert(rcs.take(j + 1).drop_last() =~= rcs.take(j));
            assert(contexts_view(rest@) =~= rcs.skip(j + 1));
        }
        match find_context(&result, &rc.name) {
            Some(i) => {
                proof {
                    lemma_first_named_unique(before, rc.name@, i as int);
                }
                let c = result.remove(i);
                assert(c@ == before[i as int]);
                let ContextNode { name, messages, comment, encoding } = c;
                let ContextNode { name: _, messages: incoming, comment: rcomment, encoding: rencoding } = rc;
                let merged_msgs = merge_messages(messages, incoming, keep_translation, rule);
                let merged = if keep_translation {
                    ContextNode { name, messages: merged_msgs, comment, encoding }
                } else {
                    ContextNode { name, messages: merged_msgs, comment: rcomment, encoding: rencoding }
                };
                assert(merged@ == merged_context(rule, before[i as int], rcs[j], keep_translation));
                result.insert(i, merged);
                assert(contexts_view(result@) =~= before.update(i as int, merged@));
            },
            None => {
                result.push(rc);
                assert(contexts_view(result@) =~= before.push(rcs[j]));
            },
        }
        proof {
            j = j + 1;
        }
    }
    assert(rcs.take(rcs.len() as int) =~= rcs);
    result
}

/// Merges `right` into `left` with the given identity rule: see `merged_catalog`.
pub fn merge_ts_nodes_with_rule(left: TSNode, right: TSNode, keep_translation: bool, rule: IdentityRule) -> (r: TSNode)
    ensures
        r@ == merged_catalog(rule, left@, right@, keep_translation),
{
    let TSNode {
        version, source_language, language, contexts, messages, dependencies, comment, old_comment,
        extra_comment, translator_comment, po_msg_id_plural, po_old_msg_id_plural, loc_flags,
        loc_layout_id, loc_feature, loc_blank,
    } = left;
    let TSNode { contexts: right_contexts, messages: right_messages, .. } = right;
    let messages = merge_messages(messages, right_messages, keep_translation, rule);
    let contexts = merge_contexts(contexts, right_contexts, keep_translation, rule);
    TSNode {
        version, source_language, language, contexts, messages, dependencies, comment, old_comment,
        extra_comment, translator_comment, po_msg_id_plural, po_old_msg_id_plural, loc_flags,
        loc_layout_id, loc_feature, loc_blank,
    }
}

/// Merges `right` into `left`, matching messages by identifier, else by source text.
pub fn merge_ts_nodes(left: TSNode, right: TSNode, keep_translation: bool) -> (r: TSNode)
    ensures
        r@ == merged_catalog(IdentityRule::SourceText, left@, right@, keep_translation),
{
    merge_ts_nodes_with_rule(left, right, keep_translation, IdentityRule::SourceText)
}

/// No two messages of the list are the same message under `rule`.
pub open spec fn distinct_messages(rule: IdentityRule, ms: Seq<MessageView>) -> bool {
    forall|i: int, j: int|
        0 <= i < ms.len() && 0 <= j < ms.len() && i != j ==> !same_message(rule, #[trigger] ms[i], #[trigger] ms[j])
}

/// No two contexts of the list share a name, and no context holds the same message twice.
pub open spec fn distinct_contexts(rule: IdentityRule, cs: Seq<ContextView>) -> bool {
    &&& forall|i: int, j: int|
        0 <= i < cs.len() && 0 <= j < cs.len() && i != j ==> (#[trigger] cs[i]).name@ != (#[trigger] cs[j]).name@
    &&& forall|i: int| 0 <= i < cs.len() ==> distinct_messages(rule, (#[trigger] cs[i]).messages)
}

proof fn lemma_merge_messages_idempotent(rule: IdentityRule, ms: Seq<MessageView>, keep_translation: bool)
    requires
        distinct_messages(rule, ms),
    ensures
        merged_messages(rule, ms, ms, keep_translation) == ms,
{
    let update = |m: MessageView| update_from(rule, m, ms, keep_translation);
    let incoming_only = |r: MessageView| is_incoming_only(rule, ms, r);
    assert forall|i: int| 0 <= i < ms.len() implies update(ms[i]) == ms[i] by {
        assert(same_message(rule, ms[i], ms[i]));
        assert(is_first_match(rule, ms[i], ms, i));
        lemma_first_match_unique(rule, ms[i], ms, i);
    }
    assert(ms.map_values(update) =~= ms);
    assert forall|j: int| 0 <= j < ms.len() implies !incoming_only(ms[j]) by {
        assert(same_message(rule, ms[j], ms[j]));
    }
    ms.lemma_all_neg_filter_empty(incoming_only);
    assert(ms.map_values(update) + ms.filter(incoming_only) =~= ms);
}

proof fn lemma_contexts_idempotent(rule: IdentityRule, cs: Seq<ContextView>, keep_translation: bool, k: int)
    requires
        distinct_contexts(rule, cs),
        0 <= k <= cs.len(),
    ensures
        contexts_after(rule, cs, cs.take(k), keep_translation) == cs,
    decreases k,
{
    if k > 0 {
        lemma_contexts_idempotent(rule, cs, keep_translation, k - 1);
        assert(cs.take(k).drop_last() =~= cs.take(k - 1));
        let c = cs[k - 1];
        assert(is_first_named(cs, c.name@, k - 1));
        lemma_first_named_unique(cs, c.name@, k - 1);
        lemma_merge_messages_idempotent(rule, c.messages, keep_translation);
        assert(merged_context(rule, c, c, keep_translation) == c);
        assert(cs.update(k - 1, c) =~= cs);
    }
}

/// Merging a catalog with itself gives the catalog back, provided that no list of it holds
/// the same message twice and no two of its contexts share a name.
pub proof fn lemma_merge_idempotent(rule: IdentityRule, c: TSView, keep_translation: bool)
    requires
        distinct_messages(rule, c.messages),
        distinct_contexts(rule, c.contexts),
    ensures
        merged_catalog(rule, c, c, keep_translation) == c,
{
    lemma_merge_messages_idempotent(rule, c.messages, keep_translation);
    lemma_contexts_idempotent(rule, c.contexts, keep_translation, c.contexts.len() as int);
    assert(c.contexts.take(c.contexts.len() as int) =~= c.contexts);
}

/// When a base message meets its incoming match with another source text, the merged message
/// keeps the base source as its old source and takes the incoming source; when the source
/// texts agree and the base message had no old source, the merged message has none either.
pub proof fn lemma_merge_keeps_history(rule: IdentityRule, ls: Seq<MessageView>, rs: Seq<MessageView>, keep_translation: bool, i: int, j: int)
    requires
        0 <= i < ls.len(),
        is_first_match(rule, ls[i], rs, j),
    ensures
        ({
            let out = merged_messages(rule, ls, rs, keep_translation)[i];
            &&& text_of(ls[i].source) != text_of(rs[j].source) ==> out.old_source == ls[i].source && out.source == rs[j].source
            &&& text_of(ls[i].source) == text_of(rs[j].source) && ls[i].old_source is None ==> out.old_source is None
        }),
{
    lemma_first_match_unique(rule, ls[i], rs, j);
}

/// The merged list holds one message for each base message and one for each incoming message
/// that matches no base message; every incoming message is matched or kept.
pub proof fn lemma_merge_complete(rule: IdentityRule, ls: Seq<MessageView>, rs: Seq<MessageView>, keep_translation: bool)
    ensures
        ({
            let out = merged_messages(rule, ls, rs, keep_translation);
            let incoming_only = |r: MessageView| is_incoming_only(rule, ls, r);
            &&& out.len() == ls.len() + rs.filter(incoming_only).len()
            &&& forall|j: int| 0 <= j < rs.len() ==> has_match(rule, rs[j], ls) || out.contains(#[trigger] rs[j])
        }),
{
    let out = merged_messages(rule, ls, rs, keep_translation);
    let incoming_only = |r: MessageView| is_incoming_only(rule, ls, r);
    let update = |m: MessageView| update_from(rule, m, rs, keep_translation);
    assert forall|j: int| 0 <= j < rs.len() implies has_match(rule, rs[j], ls) || out.contains(#[trigger] rs[j]) by {
        if !incoming_only(rs[j]) {
            let i = choose|i: int| 0 <= i < ls.len() && same_message(rule, ls[i], rs[j]);
            assert(same_message(rule, rs[j], ls[i]));
        } else {
            rs.filter_lemma(incoming_only);
            assert(rs.filter(incoming_only).contains(rs[j]));
            let k = choose|k: int| 0 <= k < rs.filter(incoming_only).len() && rs.filter(incoming_only)[k] == rs[j];
            assert(out[ls.len() + k] == rs[j]);
        }
    }
}

/// Merging keeps every translation well formed: when all base and incoming messages hold a
/// single text or plural forms (not both, not neither), so do all merged messages.
pub proof fn lemma_merge_keeps_translations_well_formed(rule: IdentityRule, ls: Seq<MessageView>, rs: Seq<MessageView>, keep_translation: bool)
    requires
        forall|i: int| 0 <= i < ls.len() ==> (#[trigger] ls[i]).wf(),
        forall|j: int| 0 <= j < rs.len() ==> (#[trigger] rs[j]).wf(),
    ensures
        forall|k: int| 0 <= k < merged_messages(rule, ls, rs, keep_translation).len()
            ==> (#[trigger] merged_messages(rule, ls, rs, keep_translation)[k]).wf(),
{
    let out = merged_messages(rule, ls, rs, keep_translation);
    let incoming_only = |r: MessageView| is_incoming_only(rule, ls, r);
    let tail = rs.filter(incoming_only);
    rs.filter_lemma(incoming_only);
    assert forall|k: int| 0 <= k < out.len() implies (#[trigger] out[k]).wf() by {
        if k < ls.len() {
            let m = ls[k];
            if exists|j: int| is_first_match(rule, m, rs, j) {
                let j = choose|j: int| is_first_match(rule, m, rs, j);
                assert(rs[j].wf());
            }
        } else {
            let x = tail[k - ls.len()];
            assert(out[k] == x);
            assert(tail.contains(x));
            rs.lemma_filter_contains_rev(incoming_only, x);
            let j = choose|j: int| 0 <= j < rs.len() && rs[j] == x;
            assert(rs[j].wf());
        }
    }
}

} // verus!
