use vstd::prelude::*;
use crate::encode::{
    be32, field, utf16_be, utf8_of, push_be32, push_all, push_field, push_utf16,
};
use crate::hash::{SysVHasher, sysv_hash};
use crate::order::{bytes_lt, bytes_less, strict_total_order, strictly_sorted, lemma_bytes_lt_irreflexive, lemma_bytes_lt_transitive, lemma_bytes_lt_total, lemma_sorted_unique, lemma_insert_sorted, lemma_sorted_indices_exist};
use crate::ts::{
    ContextNode, ContextView, MessageNode, MessageView, NumerusFormNode, TSNode, TSView,
    TranslationNode, TranslationType, TranslationView, YesNo, contexts_view, messages_view,
};

verus! {

/// Block tag of the language block.
pub const TAG_LANGUAGE: u8 = 0xa7;
/// Block tag of the hash index.
pub const TAG_HASHES: u8 = 0x42;
/// Block tag of the message records.
pub const TAG_MESSAGES: u8 = 0x69;
/// Block tag of the plural-form rules.
pub const TAG_NUMERUS_RULES: u8 = 0x88;

/// Field tag of a translation text.
pub const TAG_TRANSLATION: u8 = 0x03;
/// Field tag of the source text.
pub const TAG_SOURCE: u8 = 0x06;
/// Tag that ends a message record.
pub const TAG_END: u8 = 0x01;
/// Field tag of the context name.
pub const TAG_CONTEXT: u8 = 0x07;
/// Field tag of the comment.
pub const TAG_COMMENT: u8 = 0x08;

/// Length written for a message without translation.
pub const NO_TRANSLATION: u32 = 0xffff_ffff;

/// Why a catalog cannot be compiled.
#[derive(Debug, Clone, Copy, PartialEq, Eq, Structural)]
pub enum CompileError {
    /// The catalog names no language.
    MissingLanguage,
    /// A message that would be compiled has no source text.
    MissingSource,
    /// A block does not fit the format's 32-bit lengths.
    TooLarge,
}

/// The fixed magic bytes that open every compiled file.
pub open spec fn qm_header() -> Seq<u8> {
    seq![0x3cu8, 0xb8, 0x64, 0x18, 0xca, 0xef, 0x9c, 0x95, 0xcd, 0x21, 0x1c, 0xbf, 0x60, 0xa1, 0xbd, 0xdd]
}

/// A message is compiled unless its translation is obsolete or vanished.
pub open spec fn is_compiled(m: MessageView) -> bool {
    match m.translation {
        Some(t) => t.translation_type != Some(TranslationType::Obsolete)
            && t.translation_type != Some(TranslationType::Vanished),
        None => true,
    }
}

/// A message marked as having plural forms.
pub open spec fn is_numerus(m: MessageView) -> bool {
    m.numerus == Some(YesNo::Yes)
}

/// One translation field per plural form, in form order.
pub open spec fn numerus_fields(forms: Seq<NumerusFormNode>) -> Seq<u8>
    decreases forms.len(),
{
    if forms.len() == 0 {
        Seq::empty()
    } else {
        numerus_fields(forms.drop_last()) + field(TAG_TRANSLATION, utf16_be(forms.last().text@))
    }
}

/// The translation fields of a record: the no-translation marker, one field per plural form,
/// or one field with the single text (empty when the translation holds none).
pub open spec fn translation_fields(t: Option<TranslationView>) -> Seq<u8> {
    match t {
        None => seq![TAG_TRANSLATION] + be32(NO_TRANSLATION),
        Some(t) => if t.numerus_forms.len() > 0 {
            numerus_fields(t.numerus_forms)
        } else {
            match t.translation_simple {
                Some(s) => field(TAG_TRANSLATION, utf16_be(s@)),
                None => field(TAG_TRANSLATION, Seq::empty()),
            }
        },
    }
}

/// The payload of the comment field: the message's comment when comments are compiled.
pub open spec fn comment_payload(m: MessageView, with_comments: bool) -> Seq<u8> {
    match m.comment {
        Some(c) if with_comments => utf8_of(c),
        _ => Seq::empty(),
    }
}

/// The UTF-8 bytes of the source text (none when there is no source).
pub open spec fn source_bytes(m: MessageView) -> Seq<u8> {
    match m.source {
        Some(s) => utf8_of(s),
        None => Seq::empty(),
    }
}

/// The record of one message of the context named `name`.
pub open spec fn message_record(name: String, m: MessageView, with_comments: bool) -> Seq<u8> {
    translation_fields(m.translation) + field(TAG_COMMENT, comment_payload(m, with_comments))
        + field(TAG_SOURCE, source_bytes(m)) + field(TAG_CONTEXT, utf8_of(name)) + seq![TAG_END]
}

/// The messages of a context, each with the context's name.
pub open spec fn named_messages(c: ContextView) -> Seq<(String, MessageView)> {
    c.messages.map_values(|m: MessageView| (c.name, m))
}

/// A compiled message with plural forms.
pub open spec fn compiled_numerus(e: (String, MessageView)) -> bool {
    is_compiled(e.1) && is_numerus(e.1)
}

/// A compiled message without plural forms.
pub open spec fn compiled_plain(e: (String, MessageView)) -> bool {
    is_compiled(e.1) && !is_numerus(e.1)
}

/// The compiled messages of a context in production order: those with plural forms first,
/// then the others, each group in the context's order.
pub open spec fn context_entries(c: ContextView) -> Seq<(String, MessageView)> {
    named_messages(c).filter(|e: (String, MessageView)| compiled_numerus(e))
        + named_messages(c).filter(|e: (String, MessageView)| compiled_plain(e))
}

/// The compiled messages of a list of contexts, context after context.
pub open spec fn production(cs: Seq<ContextView>) -> Seq<(String, MessageView)>
    decreases cs.len(),
{
    if cs.len() == 0 {
        Seq::empty()
    } else {
        production(cs.drop_last()) + context_entries(cs.last())
    }
}

/// The payload of the messages block: the records in production order.
pub open spec fn messages_block(ps: Seq<(String, MessageView)>, with_comments: bool) -> Seq<u8>
    decreases ps.len(),
{
    if ps.len() == 0 {
        Seq::empty()
    } else {
        messages_block(ps.drop_last(), with_comments) + message_record(ps.last().0, ps.last().1, with_comments)
    }
}

/// The hash of each record's source and the offset of the record in the messages block.
pub open spec fn hash_entries(ps: Seq<(String, MessageView)>, with_comments: bool) -> Seq<(u32, u32)>
    decreases ps.len(),
{
    if ps.len() == 0 {
        Seq::empty()
    } else {
        hash_entries(ps.drop_last(), with_comments).push(
            (sysv_hash(source_bytes(ps.last().1)), messages_block(ps.drop_last(), with_comments).len() as u32),
        )
    }
}

/// Order of hash entries: by hash, equal hashes in production order.
pub open spec fn hash_lt(es: Seq<(u32, u32)>) -> spec_fn(usize, usize) -> bool {
    |i: usize, j: usize| es[i as int].0 < es[j as int].0 || (es[i as int].0 == es[j as int].0 && i < j)
}

/// `ord` lists every index of `es` once, sorted by `hash_lt`.
pub open spec fn is_hash_order(es: Seq<(u32, u32)>, ord: Seq<usize>) -> bool {
    &&& strictly_sorted(ord, hash_lt(es))
    &&& forall|i: usize| ord.contains(i) <==> i < es.len()
}

/// The hash index: the entries sorted by hash, equal hashes in production order.
pub open spec fn hash_table(es: Seq<(u32, u32)>) -> Seq<(u32, u32)> {
    let ord = choose|ord: Seq<usize>| is_hash_order(es, ord);
    ord.map_values(|i: usize| es[i as int])
}

/// The payload of the hashes block: each entry as big-endian hash, then offset.
pub open spec fn table_bytes(t: Seq<(u32, u32)>) -> Seq<u8>
    decreases t.len(),
{
    if t.len() == 0 {
        Seq::empty()
    } else {
        table_bytes(t.drop_last()) + be32(t.last().0) + be32(t.last().1)
    }
}

/// Order of contexts: by the bytes of their names, equal names in catalog order.
pub open spec fn name_lt(cs: Seq<ContextView>) -> spec_fn(usize, usize) -> bool {
    |i: usize, j: usize| bytes_lt(utf8_of(cs[i as int].name), utf8_of(cs[j as int].name))
        || (utf8_of(cs[i as int].name) == utf8_of(cs[j as int].name) && i < j)
}

/// `ord` lists every index of `cs` once, sorted by `name_lt`.
pub open spec fn is_context_order(cs: Seq<ContextView>, ord: Seq<usize>) -> bool {
    &&& strictly_sorted(ord, name_lt(cs))
    &&& forall|i: usize| ord.contains(i) <==> i < cs.len()
}

/// The contexts sorted by name, equal names in catalog order.
pub open spec fn sorted_contexts(cs: Seq<ContextView>) -> Seq<ContextView> {
    let ord = choose|ord: Seq<usize>| is_context_order(cs, ord);
    ord.map_values(|i: usize| cs[i as int])
}

/// Some message that would be compiled has no source text.
pub open spec fn missing_source(cs: Seq<ContextView>) -> bool {
    exists|i: int, j: int|
        0 <= i < cs.len() && 0 <= j < cs[i].messages.len() && is_compiled(#[trigger] cs[i].messages[j])
            && cs[i].messages[j].source is None
}

/// Rules that pick the singular for exactly one item.
pub open spec fn rules_one() -> Seq<u8> {
    seq![0x01u8, 0x01]
}

/// Rules that pick the singular for zero or one item.
pub open spec fn rules_zero_or_one() -> Seq<u8> {
    seq![0x03u8, 0x01]
}

/// The plural-selection program for a language, by exact language string; empty when the
/// language is not in the table.
pub open spec fn numerus_rules(lang: Seq<char>) -> Seq<u8> {
    if lang == seq!['e', 'n'] || lang == seq!['e', 'n', '_', 'U', 'S'] || lang == seq!['e', 'n', '_', 'G', 'B']
        || lang == seq!['d', 'e'] || lang == seq!['d', 'e', '_', 'D', 'E'] || lang == seq!['n', 'l']
        || lang == seq!['s', 'v'] || lang == seq!['s', 'v', '_', 'S', 'E'] || lang == seq!['i', 't']
        || lang == seq!['e', 's'] || lang == seq!['d', 'a'] || lang == seq!['f', 'i'] {
        rules_one()
    } else if lang == seq!['f', 'r'] || lang == seq!['f', 'r', '_', 'F', 'R'] {
        rules_zero_or_one()
    } else {
        Seq::empty()
    }
}

/// The compiled form of a catalog, or why there is none.
pub open spec fn compiled(data: TSView, with_comments: bool) -> Result<Seq<u8>, CompileError> {
    match data.language {
        None => Err(CompileError::MissingLanguage),
        Some(lang) => if missing_source(data.contexts) {
            Err(CompileError::MissingSource)
        } else {
            let ps = production(sorted_contexts(data.contexts));
            let block = messages_block(ps, with_comments);
            if utf8_of(lang).len() > u32::MAX || block.len() > u32::MAX {
                Err(CompileError::TooLarge)
            } else {
                Ok(qm_header() + field(TAG_LANGUAGE, utf8_of(lang))
                    + field(TAG_HASHES, table_bytes(hash_table(hash_entries(ps, with_comments))))
                    + field(TAG_MESSAGES, block) + field(TAG_NUMERUS_RULES, numerus_rules(lang@)))
            }
        },
    }
}

/// The value of a compile result.
pub open spec fn result_view(r: Result<Vec<u8>, CompileError>) -> Result<Seq<u8>, CompileError> {
    match r {
        Ok(v) => Ok(v@),
        Err(e) => Err(e),
    }
}

/// The UTF-8 bytes of a string.
fn utf8_bytes(s: &String) -> (r: &[u8])
    ensures
        r@ == utf8_of(*s),
{
    s.as_str().as_bytes()
}

/// Appends one translation field holding the UTF-16 big-endian encoding of `text`.
fn push_translation_text(out: &mut Vec<u8>, text: &String)
    ensures
        final(out)@ == old(out)@ + field(TAG_TRANSLATION, utf16_be(text@)),
{
    let mut payload: Vec<u8> = Vec::new();
    push_utf16(&mut payload, text.as_str());
    assert(payload@ =~= utf16_be(text@));
    push_field(out, TAG_TRANSLATION, payload.as_slice());
}

/// Appends the translation fields of a record.
fn push_translation_fields(out: &mut Vec<u8>, t: &Option<TranslationNode>)
    ensures
        final(out)@ == old(out)@ + translation_fields(crate::ts::translation_view(*t)),
{
    match t {
        None => {
            out.push(TAG_TRANSLATION);
            push_be32(out, NO_TRANSLATION);
            assert(final(out)@ =~= old(out)@ + translation_fields(crate::ts::translation_view(*t)));
        },
        Some(t) => {
            if t.numerus_forms.len() > 0 {
                let ghost start = out@;
                let mut i: usize = 0;
                while i < t.numerus_forms.len()
                    invariant
                        i <= t.numerus_forms@.len(),
                        out@ == start + numerus_fields(t.numerus_forms@.take(i as int)),
                    decreases t.numerus_forms@.len() - i,
                {
                    push_translation_text(out, &t.numerus_forms[i].text);
                    proof {
                        let forms = t.numerus_forms@.take(i as int + 1);
                        assert(forms.drop_last() =~= t.numerus_forms@.take(i as int));
                        assert(out@ =~= start + numerus_fields(forms));
                    }
                    i = i + 1;
                }
                assert(t.numerus_forms@.take(t.numerus_forms@.len() as int) =~= t.numerus_forms@);
            } else {
                match &t.translation_simple {
                    Some(s) => push_translation_text(out, s),
                    None => {
                        let empty: Vec<u8> = Vec::new();
                        push_field(out, TAG_TRANSLATION, empty.as_slice());
                        assert(empty@ =~= Seq::<u8>::empty());
                    },
                }
            }
        },
    }
}

/// The record of message `m` of the context named `name`.
fn message_record_bytes(name: &String, m: &MessageNode, with_comments: bool) -> (r: Vec<u8>)
    ensures
        r@ == message_record(*name, m@, with_comments),
{
    let mut out: Vec<u8> = Vec::new();
    push_translation_fields(&mut out, &m.translation);
    let ghost after_translation = out@;
    match &m.comment {
        Some(c) if with_comments => push_field(&mut out, TAG_COMMENT, utf8_bytes(c)),
        _ => {
            let empty: Vec<u8> = Vec::new();
            push_field(&mut out, TAG_COMMENT, empty.as_slice());
            assert(empty@ =~= Seq::<u8>::empty());
        },
    }
    assert(out@ == after_translation + field(TAG_COMMENT, comment_payload(m@, with_comments)));
    match &m.source {
        Some(s) => push_field(&mut out, TAG_SOURCE, utf8_bytes(s)),
        None => {
            let empty: Vec<u8> = Vec::new();
            push_field(&mut out, TAG_SOURCE, empty.as_slice());
            assert(empty@ =~= Seq::<u8>::empty());
        },
    }
    push_field(&mut out, TAG_CONTEXT, utf8_bytes(name));
    out.push(TAG_END);
    assert(out@ =~= message_record(*name, m@, with_comments));
    out
}

proof fn lemma_name_order_total(cs: Seq<ContextView>)
    ensures
        strict_total_order(name_lt(cs)),
{
    let lt = name_lt(cs);
    assert forall|x: usize| !(#[trigger] lt(x, x)) by {
        lemma_bytes_lt_irreflexive(utf8_of(cs[x as int].name));
    }
    assert forall|x: usize, y: usize, z: usize| #[trigger] lt(x, y) && #[trigger] lt(y, z) implies lt(x, z) by {
        let (a, b, c) = (utf8_of(cs[x as int].name), utf8_of(cs[y as int].name), utf8_of(cs[z as int].name));
        if bytes_lt(a, b) && bytes_lt(b, c) {
            lemma_bytes_lt_transitive(a, b, c);
        }
    }
    assert forall|x: usize, y: usize| x != y implies #[trigger] lt(x, y) || #[trigger] lt(y, x) by {
        let (a, b) = (utf8_of(cs[x as int].name), utf8_of(cs[y as int].name));
        if a != b {
            lemma_bytes_lt_total(a, b);
        }
    }
}

proof fn lemma_hash_order_total(es: Seq<(u32, u32)>)
    ensures
        strict_total_order(hash_lt(es)),
{
}

/// The indices of `cs`, sorted by context name, equal names in catalog order.
fn context_order(cs: &Vec<ContextNode>) -> (ord: Vec<usize>)
    ensures
        is_context_order(contexts_view(cs@), ord@),
{
    let ghost vs = contexts_view(cs@);
    let ghost lt = name_lt(vs);
    proof {
        lemma_name_order_total(vs);
    }
    let mut ord: Vec<usize> = Vec::new();
    let mut k: usize = 0;
    while k < cs.len()
        invariant
            k <= cs@.len(),
            vs == contexts_view(cs@),
            lt == name_lt(vs),
            strict_total_order(lt),
            strictly_sorted(ord@, lt),
            forall|i: usize| ord@.contains(i) <==> i < k,
        decreases cs@.len() - k,
    {
        let key = utf8_bytes(&cs[k].name);
        assert(key@ == utf8_of(vs[k as int].name));
        let mut p: usize = ord.len();
        assert forall|q: int| 0 <= q < ord@.len() implies #[trigger] ord@[q] < k by {
            assert(ord@.contains(ord@[q]));
        }
        while p > 0 && bytes_less(key, utf8_bytes(&cs[ord[p - 1]].name))
            invariant
                p <= ord@.len(),
                k < cs@.len(),
                vs == contexts_view(cs@),
                key@ == utf8_of(vs[k as int].name),
                forall|q: int| 0 <= q < ord@.len() ==> #[trigger] ord@[q] < k,
                forall|q: int| p <= q < ord@.len() ==> bytes_lt(key@, utf8_of(vs[ord@[q] as int].name)),
            decreases p,
        {
            p = p - 1;
        }
        proof {
            assert forall|q: int| p <= q < ord@.len() implies lt(k, #[trigger] ord@[q]) by {}
            if p > 0 {
                let prev = ord@[p - 1];
                assert(ord@.contains(prev));
                assert(prev < k);
                let (a, b) = (utf8_of(vs[prev as int].name), key@);
                if a != b {
                    lemma_bytes_lt_total(a, b);
                }
                assert(lt(prev, k));
                assert forall|q: int| 0 <= q < p implies lt(#[trigger] ord@[q], k) by {
                    if q < p - 1 {
                        assert(lt(ord@[q], prev));
                    }
                }
            }
        }
        let ghost before = ord@;
        ord.insert(p, k);
        proof {
            assert(ord@ == before.insert(p as int, k));
            lemma_insert_sorted(before, k, p as int, lt);
            assert forall|i: usize| ord@.contains(i) <==> i < k + 1 by {
                assert(ord@.contains(i) <==> (before.contains(i) || i == k));
            }
        }
        k = k + 1;
    }
    ord
}

/// The indices of `es`, sorted by hash, equal hashes in production order.
fn hash_order(es: &Vec<(u32, u32)>) -> (ord: Vec<usize>)
    ensures
        is_hash_order(es@, ord@),
{
    let ghost lt = hash_lt(es@);
    proof {
        lemma_hash_order_total(es@);
    }
    let mut ord: Vec<usize> = Vec::new();
    let mut k: usize = 0;
    while k < es.len()
        invariant
            k <= es@.len(),
            lt == hash_lt(es@),
            strict_total_order(lt),
            strictly_sorted(ord@, lt),
            forall|i: usize| ord@.contains(i) <==> i < k,
        decreases es@.len() - k,
    {
        let key = es[k].0;
        let mut p: usize = ord.len();
        assert forall|q: int| 0 <= q < ord@.len() implies #[trigger] ord@[q] < k by {
            assert(ord@.contains(ord@[q]));
        }
        while p > 0 && key < es[ord[p - 1]].0
            invariant
                p <= ord@.len(),
                k < es@.len(),
                key == es@[k as int].0,
                forall|q: int| 0 <= q < ord@.len() ==> #[trigger] ord@[q] < k,
                forall|q: int| p <= q < ord@.len() ==> key < es@[ord@[q] as int].0,
            decreases p,
        {
            p = p - 1;
        }
        proof {
            assert forall|q: int| p <= q < ord@.len() implies lt(k, #[trigger] ord@[q]) by {}
            if p > 0 {
                let prev = ord@[p - 1];
                assert(lt(prev, k));
                assert forall|q: int| 0 <= q < p implies lt(#[trigger] ord@[q], k) by {
                    if q < p - 1 {
                        assert(lt(ord@[q], prev));
                    }
                }
            }
        }
        let ghost before = ord@;
        ord.insert(p, k);
        proof {
            assert(ord@ == before.insert(p as int, k));
            lemma_insert_sorted(before, k, p as int, lt);
            assert forall|i: usize| ord@.contains(i) <==> i < k + 1 by {
                assert(ord@.contains(i) <==> (before.contains(i) || i == k));
            }
        }
        k = k + 1;
    }
    ord
}

/// Whether some message that would be compiled has no source text.
fn has_missing_source(cs: &Vec<ContextNode>) -> (r: bool)
    ensures
        r == missing_source(contexts_view(cs@)),
{
    let ghost vs = contexts_view(cs@);
    let mut i: usize = 0;
    while i < cs.len()
        invariant
            i <= cs@.len(),
            vs == contexts_view(cs@),
            forall|a: int, b: int| 0 <= a < i && 0 <= b < vs[a].messages.len()
                ==> !(is_compiled(#[trigger] vs[a].messages[b]) && vs[a].messages[b].source is None),
        decreases cs@.len() - i,
    {
        let msgs = &cs[i].messages;
        assert(vs[i as int].messages == messages_view(msgs@));
        let mut j: usize = 0;
        while j < msgs.len()
            invariant
                j <= msgs@.len(),
                i < cs@.len(),
                vs == contexts_view(cs@),
                vs[i as int].messages == messages_view(msgs@),
                forall|a: int, b: int| 0 <= a < i && 0 <= b < vs[a].messages.len()
                    ==> !(is_compiled(#[trigger] vs[a].messages[b]) && vs[a].messages[b].source is None),
                forall|b: int| 0 <= b < j
                    ==> !(is_compiled(#[trigger] vs[i as int].messages[b]) && vs[i as int].messages[b].source is None),
            decreases msgs@.len() - j,
        {
            let m = &msgs[j];
            assert(vs[i as int].messages[j as int] == m@);
            if compiles(m) && m.source.is_none() {
                return true;
            }
            j = j + 1;
        }
        i = i + 1;
    }
    false
}

/// Whether message `m` is compiled.
fn compiles(m: &MessageNode) -> (r: bool)
    ensures
        r == is_compiled(m@),
{
    match &m.translation {
        Some(t) => !matches!(t.translation_type, Some(TranslationType::Obsolete) | Some(TranslationType::Vanished)),
        None => true,
    }
}

/// Appends one message to the messages block and its entry to the hash entries.
fn push_message(name: &String, m: &MessageNode, with_comments: bool, block: &mut Vec<u8>, entries: &mut Vec<(u32, u32)>, Ghost(ps): Ghost<Seq<(String, MessageView)>>)
    requires
        old(block)@ == messages_block(ps, with_comments),
        old(entries)@ == hash_entries(ps, with_comments),
    ensures
        final(block)@ == messages_block(ps.push((*name, m@)), with_comments),
        final(entries)@ == hash_entries(ps.push((*name, m@)), with_comments),
{
    let ghost next = ps.push((*name, m@));
    assert(next.drop_last() =~= ps);
    let record = message_record_bytes(name, m, with_comments);
    let hash = match &m.source {
        Some(s) => SysVHasher::new().hash(utf8_bytes(s)).compute(),
        None => {
            let empty: Vec<u8> = Vec::new();
            assert(empty@ =~= Seq::<u8>::empty());
            SysVHasher::new().hash(empty.as_slice()).compute()
        },
    };
    entries.push((hash, block.len() as u32));
    push_all(block, record.as_slice());
}

/// Appends the compiled messages of context `c`, plural ones first.
fn push_context(c: &ContextNode, with_comments: bool, block: &mut Vec<u8>, entries: &mut Vec<(u32, u32)>, Ghost(ps): Ghost<Seq<(String, MessageView)>>)
    requires
        old(block)@ == messages_block(ps, with_comments),
        old(entries)@ == hash_entries(ps, with_comments),
    ensures
        final(block)@ == messages_block(ps + context_entries(c@), with_comments),
        final(entries)@ == hash_entries(ps + context_entries(c@), with_comments),
{
    let ghost named = named_messages(c@);
    let ghost first = |e: (String, MessageView)| compiled_numerus(e);
    let ghost second = |e: (String, MessageView)| compiled_plain(e);
    let ghost mut done = ps;
    let mut j: usize = 0;
    while j < c.messages.len()
        invariant
            j <= c.messages@.len(),
            named == named_messages(c@),
            first == (|e: (String, MessageView)| compiled_numerus(e)),
            done == ps + named.take(j as int).filter(first),
            block@ == messages_block(done, with_comments),
            entries@ == hash_entries(done, with_comments),
        decreases c.messages@.len() - j,
    {
        let m = &c.messages[j];
        proof {
            assert(named[j as int] == (c.name, m@));
            assert(named.take(j as int + 1) =~= named.take(j as int).push(named[j as int]));
            named.take(j as int).lemma_filter_push(named[j as int], first);
        }
        if compiles(m) && matches!(m.numerus, Some(YesNo::Yes)) {
            push_message(&c.name, m, with_comments, block, entries, Ghost(done));
            proof {
                assert(done.push((c.name, m@)) =~= ps + named.take(j as int + 1).filter(first));
                done = done.push((c.name, m@));
            }
        }
        j = j + 1;
    }
    assert(named.take(c.messages@.len() as int) =~= named);
    let ghost mid = done;
    let mut j: usize = 0;
    while j < c.messages.len()
        invariant
            j <= c.messages@.len(),
            named == named_messages(c@),
            second == (|e: (String, MessageView)| compiled_plain(e)),
            done == mid + named.take(j as int).filter(second),
            block@ == messages_block(done, with_comments),
            entries@ == hash_entries(done, with_comments),
        decreases c.messages@.len() - j,
    {
        let m = &c.messages[j];
        proof {
            assert(named[j as int] == (c.name, m@));
            assert(named.take(j as int + 1) =~= named.take(j as int).push(named[j as int]));
            named.take(j as int).lemma_filter_push(named[j as int], second);
        }
        if compiles(m) && !matches!(m.numerus, Some(YesNo::Yes)) {
            push_message(&c.name, m, with_comments, block, entries, Ghost(done));
            proof {
                assert(done.push((c.name, m@)) =~= mid + named.take(j as int + 1).filter(second));
                done = done.push((c.name, m@));
            }
        }
        j = j + 1;
    }
    assert(done =~= ps + context_entries(c@));
}

/// Whether the text of `s` is `lit`.
fn text_is(s: &String, lit: &str) -> (r: bool)
    ensures
        r == (s@ == lit@),
{
    let a = s.as_str().as_bytes();
    let b = lit.as_bytes();
    assert(a@ == vstd::utf8::encode_utf8(s@));
    assert(b@ == vstd::utf8::encode_utf8(lit@));
    proof {
        vstd::utf8::encode_utf8_decode_utf8(s@);
        vstd::utf8::encode_utf8_decode_utf8(lit@);
    }
    if a.len() != b.len() {
        return false;
    }
    let mut i: usize = 0;
    while i < a.len()
        invariant
            a@.len() == b@.len(),
            a@ == vstd::utf8::encode_utf8(s@),
            b@ == vstd::utf8::encode_utf8(lit@),
            i <= a@.len(),
            forall|k: int| 0 <= k < i ==> a@[k] == b@[k],
        decreases a@.len() - i,
    {
        if a[i] != b[i] {
            proof {
                if s@ == lit@ {
                    assert(a@ == b@);
                    assert(a@[i as int] == b@[i as int]);
                }
            }
            return false;
        }
        i = i + 1;
    }
    assert(a@ =~= b@);
    true
}

/// The plural-selection program for `lang`.
fn numerus_rules_for(lang: &String) -> (r: Vec<u8>)
    ensures
        r@ == numerus_rules(lang@),
{
    proof {
        reveal_strlit("en");
        assert("en"@ =~= seq!['e', 'n']);
        reveal_strlit("en_US");
        assert("en_US"@ =~= seq!['e', 'n', '_', 'U', 'S']);
        reveal_strlit("en_GB");
        assert("en_GB"@ =~= seq!['e', 'n', '_', 'G', 'B']);
        reveal_strlit("de");
        assert("de"@ =~= seq!['d', 'e']);
        reveal_strlit("de_DE");
        assert("de_DE"@ =~= seq!['d', 'e', '_', 'D', 'E']);
        reveal_strlit("nl");
        assert("nl"@ =~= seq!['n', 'l']);
        reveal_strlit("sv");
        assert("sv"@ =~= seq!['s', 'v']);
        reveal_strlit("sv_SE");
        assert("sv_SE"@ =~= seq!['s', 'v', '_', 'S', 'E']);
        reveal_strlit("it");
        assert("it"@ =~= seq!['i', 't']);
        reveal_strlit("es");
        assert("es"@ =~= seq!['e', 's']);
        reveal_strlit("da");
        assert("da"@ =~= seq!['d', 'a']);
        reveal_strlit("fi");
        assert("fi"@ =~= seq!['f', 'i']);
        reveal_strlit("fr");
        assert("fr"@ =~= seq!['f', 'r']);
        reveal_strlit("fr_FR");
        assert("fr_FR"@ =~= seq!['f', 'r', '_', 'F', 'R']);
    }
    if text_is(lang, "en") || text_is(lang, "en_US") || text_is(lang, "en_GB") || text_is(lang, "de")
        || text_is(lang, "de_DE") || text_is(lang, "nl") || text_is(lang, "sv") || text_is(lang, "sv_SE")
        || text_is(lang, "it") || text_is(lang, "es") || text_is(lang, "da") || text_is(lang, "fi") {
        let r = vec![0x01u8, 0x01u8];
        assert(r@ =~= rules_one());
        r
    } else if text_is(lang, "fr") || text_is(lang, "fr_FR") {
        let r = vec![0x03u8, 0x01u8];
        assert(r@ =~= rules_zero_or_one());
        r
    } else {
        Vec::new()
    }
}

/// Appends the magic header.
fn push_header(out: &mut Vec<u8>)
    ensures
        final(out)@ == old(out)@ + qm_header(),
{
    let header = vec![0x3cu8, 0xb8, 0x64, 0x18, 0xca, 0xef, 0x9c, 0x95, 0xcd, 0x21, 0x1c, 0xbf, 0x60, 0xa1, 0xbd, 0xdd];
    assert(header@ =~= qm_header());
    push_all(out, header.as_slice());
}

/// The payload of the hashes block for the entries taken in the order `ord`.
fn table_payload(es: &Vec<(u32, u32)>, ord: &Vec<usize>) -> (r: Vec<u8>)
    requires
        forall|q: int| 0 <= q < ord@.len() ==> #[trigger] ord@[q] < es@.len(),
    ensures
        r@ == table_bytes(ord@.map_values(|i: usize| es@[i as int])),
{
    let ghost t = ord@.map_values(|i: usize| es@[i as int]);
    let mut out: Vec<u8> = Vec::new();
    let mut k: usize = 0;
    while k < ord.len()
        invariant
            k <= ord@.len(),
            t == ord@.map_values(|i: usize| es@[i as int]),
            forall|q: int| 0 <= q < ord@.len() ==> #[trigger] ord@[q] < es@.len(),
            out@ == table_bytes(t.take(k as int)),
        decreases ord@.len() - k,
    {
        let (hash, offset) = es[ord[k]];
        push_be32(&mut out, hash);
        push_be32(&mut out, offset);
        assert(t.take(k as int + 1).drop_last() =~= t.take(k as int));
        k = k + 1;
    }
    assert(t.take(ord@.len() as int) =~= t);
    out
}

/// Compiles a catalog into the binary release format; comments are compiled when
/// `with_comments` is set, else every comment field is empty.
///
/// Only the messages of contexts are compiled, contexts sorted by name; obsolete and vanished
/// messages are left out.
pub fn compile_with_comments(data: &TSNode, with_comments: bool) -> (r: Result<Vec<u8>, CompileError>)
    ensures
        result_view(r) == compiled(data@, with_comments),
{
    let ghost vs = contexts_view(data.contexts@);
    let lang = match &data.language {
        Some(l) => l,
        None => return Err(CompileError::MissingLanguage),
    };
    if has_missing_source(&data.contexts) {
        return Err(CompileError::MissingSource);
    }
    let ord = context_order(&data.contexts);
    let ghost sorted = ord@.map_values(|i: usize| vs[i as int]);
    proof {
        let chosen = choose|o: Seq<usize>| is_context_order(vs, o);
        lemma_name_order_total(vs);
        lemma_sorted_unique(ord@, chosen, name_lt(vs));
        assert(sorted == sorted_contexts(vs));
    }
    assert forall|q: int| 0 <= q < ord@.len() implies #[trigger] ord@[q] < data.contexts@.len() by {
        assert(ord@.contains(ord@[q]));
    }
    let mut block: Vec<u8> = Vec::new();
    let mut entries: Vec<(u32, u32)> = Vec::new();
    let ghost mut done: Seq<(String, MessageView)> = Seq::empty();
    let mut k: usize = 0;
    while k < ord.len()
        invariant
            k <= ord@.len(),
            vs == contexts_view(data.contexts@),
            sorted == ord@.map_values(|i: usize| vs[i as int]),
            forall|q: int| 0 <= q < ord@.len() ==> #[trigger] ord@[q] < data.contexts@.len(),
            done == production(sorted.take(k as int)),
            block@ == messages_block(done, with_comments),
            entries@ == hash_entries(done, with_comments),
        decreases ord@.len() - k,
    {
        let c = &data.contexts[ord[k]];
        assert(c@ == sorted[k as int]);
        push_context(c, with_comments, &mut block, &mut entries, Ghost(done));
        proof {
            assert(sorted.take(k as int + 1).drop_last() =~= sorted.take(k as int));
            done = done + context_entries(c@);
        }
        k = k + 1;
    }
    assert(sorted.take(ord@.len() as int) =~= sorted);
    let lang_bytes = utf8_bytes(lang);
    if lang_bytes.len() > 0xffff_ffff || block.len() > 0xffff_ffff {
        return Err(CompileError::TooLarge);
    }
    let hord = hash_order(&entries);
    proof {
        let chosen = choose|o: Seq<usize>| is_hash_order(entries@, o);
        lemma_hash_order_total(entries@);
        lemma_sorted_unique(hord@, chosen, hash_lt(entries@));
    }
    assert forall|q: int| 0 <= q < hord@.len() implies #[trigger] hord@[q] < entries@.len() by {
        assert(hord@.contains(hord@[q]));
    }
    let table = table_payload(&entries, &hord);
    let rules = numerus_rules_for(lang);
    let mut out: Vec<u8> = Vec::new();
    push_header(&mut out);
    push_field(&mut out, TAG_LANGUAGE, lang_bytes);
    push_field(&mut out, TAG_HASHES, table.as_slice());
    push_field(&mut out, TAG_MESSAGES, block.as_slice());
    push_field(&mut out, TAG_NUMERUS_RULES, rules.as_slice());
    assert(out@ =~= compiled(data@, with_comments)->Ok_0);
    Ok(out)
}

/// Compiles a catalog into the binary release format, with empty comment fields.
pub fn compile_to_buffer(data: &TSNode) -> (r: Result<Vec<u8>, CompileError>)
    ensures
        result_view(r) == compiled(data@, false),
{
    compile_with_comments(data, false)
}

proof fn lemma_block_len(ps: Seq<(String, MessageView)>, with_comments: bool)
    ensures
        messages_block(ps, with_comments).len() >= ps.len(),
        hash_entries(ps, with_comments).len() == ps.len(),
    decreases ps.len(),
{
    if ps.len() > 0 {
        lemma_block_len(ps.drop_last(), with_comments);
    }
}

proof fn lemma_table_bytes(t: Seq<(u32, u32)>)
    ensures
        table_bytes(t).len() == 8 * t.len(),
        forall|k: int| 0 <= k < t.len() ==> table_bytes(t).subrange(8 * k, 8 * k + 4) == be32(#[trigger] t[k].0),
    decreases t.len(),
{
    if t.len() > 0 {
        let rest = t.drop_last();
        lemma_table_bytes(rest);
        assert forall|k: int| 0 <= k < t.len() implies table_bytes(t).subrange(8 * k, 8 * k + 4) == be32(#[trigger] t[k].0) by {
            if k < t.len() - 1 {
                assert(rest[k] == t[k]);
                assert(table_bytes(t).subrange(8 * k, 8 * k + 4) =~= table_bytes(rest).subrange(8 * k, 8 * k + 4));
            } else {
                assert(table_bytes(t).subrange(8 * k, 8 * k + 4) =~= be32(t.last().0));
            }
        }
    }
}

/// In every compiled output the hashes block lists the hash values in non-decreasing order:
/// its payload is eight bytes per entry, the entry's big-endian hash first.
pub proof fn lemma_hash_index_sorted(data: TSView, with_comments: bool)
    requires
        compiled(data, with_comments) is Ok,
    ensures
        ({
            let ps = production(sorted_contexts(data.contexts));
            let table = hash_table(hash_entries(ps, with_comments));
            let payload = table_bytes(table);
            &&& compiled(data, with_comments)->Ok_0 == qm_header() + field(TAG_LANGUAGE, utf8_of(data.language->Some_0))
                + field(TAG_HASHES, payload) + field(TAG_MESSAGES, messages_block(ps, with_comments))
                + field(TAG_NUMERUS_RULES, numerus_rules(data.language->Some_0@))
            &&& payload.len() == 8 * table.len()
            &&& forall|k: int| 0 <= k < table.len() ==> payload.subrange(8 * k, 8 * k + 4) == be32(#[trigger] table[k].0)
            &&& forall|i: int, j: int| 0 <= i <= j < table.len() ==> (#[trigger] table[i]).0 <= (#[trigger] table[j]).0
        }),
{
    let ps = production(sorted_contexts(data.contexts));
    let es = hash_entries(ps, with_comments);
    lemma_block_len(ps, with_comments);
    lemma_hash_order_total(es);
    lemma_sorted_indices_exist(es.len(), hash_lt(es));
    let w = choose|s: Seq<usize>| strictly_sorted(s, hash_lt(es)) && forall|i: usize| #[trigger] s.contains(i) <==> i < es.len();
    assert(is_hash_order(es, w));
    let ord = choose|ord: Seq<usize>| is_hash_order(es, ord);
    assert(is_hash_order(es, ord));
    let table = hash_table(es);
    assert forall|i: int, j: int| 0 <= i <= j < table.len() implies (#[trigger] table[i]).0 <= (#[trigger] table[j]).0 by {
        if i < j {
            assert(hash_lt(es)(ord[i], ord[j]));
        }
    }
    lemma_table_bytes(table);
}

proof fn lemma_production_empty(cs: Seq<ContextView>)
    requires
        forall|i: int, j: int| 0 <= i < cs.len() && 0 <= j < cs[i].messages.len() ==> !is_compiled(#[trigger] cs[i].messages[j]),
    ensures
        production(cs).len() == 0,
    decreases cs.len(),
{
    if cs.len() > 0 {
        let rest = cs.drop_last();
        assert forall|i: int, j: int| 0 <= i < rest.len() && 0 <= j < rest[i].messages.len() implies !is_compiled(#[trigger] rest[i].messages[j]) by {
            assert(rest[i] == cs[i]);
        }
        lemma_production_empty(rest);
        let c = cs.last();
        let named = named_messages(c);
        let first = |e: (String, MessageView)| compiled_numerus(e);
        let second = |e: (String, MessageView)| compiled_plain(e);
        assert forall|j: int| 0 <= j < named.len() implies !first(named[j]) && !second(named[j]) by {
            assert(!is_compiled(cs[cs.len() - 1].messages[j]));
        }
        named.lemma_all_neg_filter_empty(first);
        named.lemma_all_neg_filter_empty(second);
    }
}

/// A catalog whose context messages are all obsolete or vanished compiles to an empty
/// messages block and an empty hashes block.
pub proof fn lemma_dropped_messages_compile_empty(data: TSNode, with_comments: bool)
    requires
        data.language is Some,
        forall|i: int, j: int| 0 <= i < data@.contexts.len() && 0 <= j < data@.contexts[i].messages.len()
            ==> !is_compiled(#[trigger] data@.contexts[i].messages[j]),
    ensures
        ({
            let lang = data.language->Some_0;
            compiled(data@, with_comments) == if utf8_of(lang).len() > u32::MAX {
                Err(CompileError::TooLarge)
            } else {
                Ok(qm_header() + field(TAG_LANGUAGE, utf8_of(lang)) + field(TAG_HASHES, Seq::empty())
                    + field(TAG_MESSAGES, Seq::empty()) + field(TAG_NUMERUS_RULES, numerus_rules(lang@)))
            }
        }),
{
    let cs = data@.contexts;
    assert(cs.len() == data.contexts.len());
    assert(!missing_source(cs));
    lemma_name_order_total(cs);
    lemma_sorted_indices_exist(cs.len(), name_lt(cs));
    let w = choose|s: Seq<usize>| strictly_sorted(s, name_lt(cs)) && forall|i: usize| #[trigger] s.contains(i) <==> i < cs.len();
    assert(is_context_order(cs, w));
    let ord = choose|ord: Seq<usize>| is_context_order(cs, ord);
    assert(is_context_order(cs, ord));
    let sorted = sorted_contexts(cs);
    assert forall|i: int, j: int| 0 <= i < sorted.len() && 0 <= j < sorted[i].messages.len() implies !is_compiled(#[trigger] sorted[i].messages[j]) by {
        assert(ord.contains(ord[i]));
        assert(sorted[i] == cs[ord[i] as int]);
    }
    lemma_production_empty(sorted);
    let ps = production(sorted);
    assert(ps =~= Seq::<(String, MessageView)>::empty());
    let es = hash_entries(ps, with_comments);
    lemma_hash_order_total(es);
    lemma_sorted_indices_exist(0, hash_lt(es));
    let w2 = choose|s: Seq<usize>| strictly_sorted(s, hash_lt(es)) && forall|i: usize| #[trigger] s.contains(i) <==> i < 0;
    assert(is_hash_order(es, w2));
    let hord = choose|o: Seq<usize>| is_hash_order(es, o);
    assert(is_hash_order(es, hord));
    if hord.len() > 0 {
        assert(hord.contains(hord[0]));
    }
    assert(hash_table(es) =~= Seq::<(u32, u32)>::empty());
    assert(table_bytes(hash_table(es)) =~= Seq::<u8>::empty());
}

} // verus!
