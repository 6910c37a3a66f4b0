use vstd::prelude::*;
use vstd::string::StringExecFns;
use crate::encode::utf8_of;
use crate::order::{
    bytes_less, bytes_order, lex_lt, usize_lt, stable_sort, stable_sorted, strict_total_order,
    lemma_bytes_order_total, lemma_usize_order_total, lemma_lex_total,
};
use crate::ts::{LocationNode, MessageNode, MessageView, TSNode, TSView, TranslationType, text_of, messages_view};

verus! {

/// Statistics of one source file, over the locations that name it.
#[derive(Debug, Clone, Default, PartialEq, Eq, PartialOrd, Ord)]
pub struct FileStats {
    pub filepath: String,
    pub unfinished_translations: usize,
    pub vanished_translations: usize,
    pub obsolete_translations: usize,
    pub finished_translation: usize,
    /// Number of locations that name the file.
    pub total_translations: usize,
}

/// Statistics of a whole catalog.
#[derive(Debug, Clone, Default, PartialEq, Eq)]
pub struct TotalStats {
    pub total_missing_translations: usize,
    pub total_vanished_translations: usize,
    pub total_obsolete_translations: usize,
    /// Number of messages that have a translation.
    pub total_unique_translations: usize,
    /// Number of locations over all messages.
    pub total_translations_references: usize,
    pub total_contexts: usize,
    pub total_messages: usize,
    pub total_context_less_messages: usize,
    /// Statistics by file.
    pub files: Vec<FileStats>,
}

/// The tally of one file key (`None` for locations without a file name).
pub struct FileTally {
    pub key: Option<Seq<char>>,
    pub unfinished: nat,
    pub vanished: nat,
    pub obsolete: nat,
    pub finished: nat,
    pub total: nat,
}

/// The messages of the contexts, context after context.
pub open spec fn context_messages(cs: Seq<crate::ts::ContextView>) -> Seq<MessageView>
    decreases cs.len(),
{
    if cs.len() == 0 {
        Seq::empty()
    } else {
        context_messages(cs.drop_last()) + cs.last().messages
    }
}

/// All messages of a catalog: those without context, then those of each context in order.
pub open spec fn all_messages(data: TSView) -> Seq<MessageView> {
    data.messages + context_messages(data.contexts)
}

/// Number of messages and locations: every counter stays below it.
pub open spec fn catalog_size(data: TSView) -> nat {
    all_messages(data).len() + location_count(all_messages(data))
}

/// How many messages of `ms` satisfy `p`.
pub open spec fn count(ms: Seq<MessageView>, p: spec_fn(MessageView) -> bool) -> nat {
    ms.filter(p).len()
}

/// The status of a message's translation, when it has one with a status.
pub open spec fn status(m: MessageView) -> Option<TranslationType> {
    match m.translation {
        Some(t) => t.translation_type,
        None => None,
    }
}

/// Total number of locations of the messages.
pub open spec fn location_count(ms: Seq<MessageView>) -> nat
    decreases ms.len(),
{
    if ms.len() == 0 {
        0
    } else {
        location_count(ms.drop_last()) + ms.last().locations.len()
    }
}

/// One location counted for its file: `None` file name, or the name's text.
pub open spec fn file_key(l: LocationNode) -> Option<Seq<char>> {
    text_of(l.filename)
}

/// A tally updated with one more location of a message.
pub open spec fn bump(t: FileTally, m: MessageView) -> FileTally {
    FileTally {
        total: t.total + 1,
        unfinished: if m.translation is None || status(m) == Some(TranslationType::Unfinished) { t.unfinished + 1 } else { t.unfinished },
        finished: if status(m) == Some(TranslationType::Finished) { t.finished + 1 } else { t.finished },
        obsolete: if status(m) == Some(TranslationType::Obsolete) { t.obsolete + 1 } else { t.obsolete },
        vanished: if status(m) == Some(TranslationType::Vanished) { t.vanished + 1 } else { t.vanished },
        ..t
    }
}

/// The first tally of `ts` for `key`, if any.
pub open spec fn is_first_key(ts: Seq<FileTally>, key: Option<Seq<char>>, i: int) -> bool {
    0 <= i < ts.len() && ts[i].key == key && forall|k: int| 0 <= k < i ==> (#[trigger] ts[k]).key != key
}

/// Tallies after counting one location of message `m`.
pub open spec fn count_location(ts: Seq<FileTally>, l: LocationNode, m: MessageView) -> Seq<FileTally> {
    let key = file_key(l);
    if exists|i: int| is_first_key(ts, key, i) {
        let i = choose|i: int| is_first_key(ts, key, i);
        ts.update(i, bump(ts[i], m))
    } else {
        ts.push(bump(FileTally { key, unfinished: 0, vanished: 0, obsolete: 0, finished: 0, total: 0 }, m))
    }
}

/// Tallies after counting the first `n` locations of message `m`.
pub open spec fn count_locations(ts: Seq<FileTally>, m: MessageView, n: nat) -> Seq<FileTally>
    decreases n,
{
    if n == 0 || n > m.locations.len() {
        ts
    } else {
        count_location(count_locations(ts, m, (n - 1) as nat), m.locations[n - 1], m)
    }
}

/// Tallies of the files named by the locations of the messages, in order of first mention.
pub open spec fn tallies(ms: Seq<MessageView>) -> Seq<FileTally>
    decreases ms.len(),
{
    if ms.len() == 0 {
        Seq::empty()
    } else {
        count_locations(tallies(ms.drop_last()), ms.last(), ms.last().locations.len())
    }
}

/// The path reported for a file key.
pub open spec fn path_of(key: Option<Seq<char>>) -> Seq<char> {
    match key {
        Some(k) => k,
        None => seq!['i', 'n', 'v', 'a', 'l', 'i', 'd'],
    }
}

/// Each count of a tally is at most its total, and the total at most `bound`.
pub open spec fn bounded(t: FileTally, bound: nat) -> bool {
    &&& t.unfinished <= t.total
    &&& t.vanished <= t.total
    &&& t.obsolete <= t.total
    &&& t.finished <= t.total
    &&& t.total <= bound
}

/// `f` reports tally `t`.
pub open spec fn reports(f: FileStats, t: FileTally) -> bool {
    &&& f.filepath@ == path_of(t.key)
    &&& f.unfinished_translations == t.unfinished
    &&& f.vanished_translations == t.vanished
    &&& f.obsolete_translations == t.obsolete
    &&& f.finished_translation == t.finished
    &&& f.total_translations == t.total
}

/// What file statistics are sorted by: the path's bytes, then the counts in field order.
pub open spec fn file_key_of(f: FileStats) -> (Seq<u8>, (usize, (usize, (usize, (usize, usize))))) {
    (utf8_of(f.filepath), (f.unfinished_translations, (f.vanished_translations, (f.obsolete_translations, (f.finished_translation, f.total_translations)))))
}

/// Order of file statistics keys.
pub open spec fn file_order() -> spec_fn((Seq<u8>, (usize, (usize, (usize, (usize, usize))))), (Seq<u8>, (usize, (usize, (usize, (usize, usize)))))) -> bool {
    lex_lt(bytes_order(), lex_lt(usize_lt(), lex_lt(usize_lt(), lex_lt(usize_lt(), lex_lt(usize_lt(), usize_lt())))))
}

proof fn lemma_file_order_total()
    ensures
        strict_total_order(file_order()),
{
    lemma_bytes_order_total();
    lemma_usize_order_total();
    lemma_lex_total(usize_lt(), usize_lt());
    lemma_lex_total(usize_lt(), lex_lt(usize_lt(), usize_lt()));
    lemma_lex_total(usize_lt(), lex_lt(usize_lt(), lex_lt(usize_lt(), usize_lt())));
    lemma_lex_total(usize_lt(), lex_lt(usize_lt(), lex_lt(usize_lt(), lex_lt(usize_lt(), usize_lt()))));
    lemma_lex_total(bytes_order(), lex_lt(usize_lt(), lex_lt(usize_lt(), lex_lt(usize_lt(), lex_lt(usize_lt(), usize_lt())))));
}

/// `a` is a prefix of `b`.
pub open spec fn is_prefix(a: Seq<MessageView>, b: Seq<MessageView>) -> bool {
    a.len() <= b.len() && b.take(a.len() as int) == a
}

proof fn lemma_prefix_location_count(a: Seq<MessageView>, b: Seq<MessageView>)
    requires
        is_prefix(a, b),
    ensures
        location_count(a) <= location_count(b),
    decreases b.len(),
{
    if a.len() < b.len() {
        assert(b.drop_last().take(a.len() as int) =~= a);
        lemma_prefix_location_count(a, b.drop_last());
    } else {
        assert(b.take(b.len() as int) =~= b);
    }
}

proof fn lemma_context_messages_prefix(cs: Seq<crate::ts::ContextView>, k: int)
    requires
        0 <= k <= cs.len(),
    ensures
        is_prefix(context_messages(cs.take(k)), context_messages(cs)),
    decreases cs.len(),
{
    if k == cs.len() {
        assert(cs.take(k) =~= cs);
        assert(context_messages(cs).take(context_messages(cs).len() as int) =~= context_messages(cs));
    } else {
        let rest = cs.drop_last();
        assert(rest.take(k) =~= cs.take(k));
        lemma_context_messages_prefix(rest, k);
        let a = context_messages(cs.take(k));
        let b = context_messages(rest);
        assert((b + cs.last().messages).take(a.len() as int) =~= b.take(a.len() as int));
    }
}

/// Whether the message's translation has the given status.
fn has_status(m: &MessageNode, wanted: TranslationType) -> (r: bool)
    ensures
        r == (status(m@) == Some(wanted)),
{
    match &m.translation {
        Some(t) => match t.translation_type {
            Some(x) => x == wanted,
            None => false,
        },
        None => false,
    }
}

/// Counts one location of message `m` in the file tallies.
fn count_one_location(
    files: &mut Vec<FileStats>,
    keys: &mut Vec<Option<String>>,
    l: &LocationNode,
    m: &MessageNode,
    Ghost(ts): Ghost<Seq<FileTally>>,
    Ghost(seen): Ghost<nat>,
)
    requires
        old(files)@.len() == ts.len(),
        old(keys)@.len() == ts.len(),
        forall|i: int| 0 <= i < ts.len() ==> reports(#[trigger] old(files)@[i], ts[i]),
        forall|i: int| 0 <= i < ts.len() ==> text_of(#[trigger] old(keys)@[i]) == ts[i].key,
        forall|i: int| 0 <= i < ts.len() ==> bounded(#[trigger] ts[i], seen),
        seen < usize::MAX,
    ensures
        ({
            let next = count_location(ts, *l, m@);
            &&& final(files)@.len() == next.len()
            &&& final(keys)@.len() == next.len()
            &&& forall|i: int| 0 <= i < next.len() ==> reports(#[trigger] final(files)@[i], next[i])
            &&& forall|i: int| 0 <= i < next.len() ==> text_of(#[trigger] final(keys)@[i]) == next[i].key
            &&& forall|i: int| 0 <= i < next.len() ==> bounded(#[trigger] next[i], seen + 1)
        }),
{
    let ghost key = file_key(*l);
    let mut i: usize = 0;
    while i < keys.len()
        invariant
            i <= keys@.len(),
            keys@.len() == ts.len(),
            key == file_key(*l),
            forall|j: int| 0 <= j < ts.len() ==> text_of(#[trigger] keys@[j]) == ts[j].key,
            forall|k: int| 0 <= k < i ==> (#[trigger] ts[k]).key != key,
        ensures
            i <= keys@.len(),
            i < keys@.len() ==> text_of(keys@[i as int]) == key,
            forall|k: int| 0 <= k < i ==> (#[trigger] ts[k]).key != key,
        decreases keys@.len() - i,
    {
        if crate::ts::same_text(&keys[i], &l.filename) {
            break;
        }
        i = i + 1;
    }
    let unfinished = m.translation.is_none() || has_status(m, TranslationType::Unfinished);
    let finished = has_status(m, TranslationType::Finished);
    let obsolete = has_status(m, TranslationType::Obsolete);
    let vanished = has_status(m, TranslationType::Vanished);
    if i < keys.len() {
        proof {
            assert(is_first_key(ts, key, i as int));
            let c = choose|c: int| is_first_key(ts, key, c);
            if c < i {
                assert(ts[c].key != key);
            } else if c > i {
                assert(ts[i as int].key != key);
            }
        }
        let old_stats = files.remove(i);
        assert(reports(old_stats, ts[i as int]));
        assert(bounded(ts[i as int], seen));
        let stats = FileStats {
            filepath: old_stats.filepath,
            unfinished_translations: if unfinished { old_stats.unfinished_translations + 1 } else { old_stats.unfinished_translations },
            vanished_translations: if vanished { old_stats.vanished_translations + 1 } else { old_stats.vanished_translations },
            obsolete_translations: if obsolete { old_stats.obsolete_translations + 1 } else { old_stats.obsolete_translations },
            finished_translation: if finished { old_stats.finished_translation + 1 } else { old_stats.finished_translation },
            total_translations: old_stats.total_translations + 1,
        };
        files.insert(i, stats);
        proof {
            let next = count_location(ts, *l, m@);
            assert(next == ts.update(i as int, bump(ts[i as int], m@)));
            assert forall|j: int| 0 <= j < next.len() implies reports(#[trigger] files@[j], next[j]) by {
                if j != i {
                    assert(files@[j] == old(files)@[j]);
                }
            }
        }
    } else {
        let filepath = match &l.filename {
            Some(f) => f.clone(),
            None => {
                proof {
                    reveal_strlit("invalid");
                }
                assert("invalid"@ =~= seq!['i', 'n', 'v', 'a', 'l', 'i', 'd']);
                String::from_str("invalid")
            },
        };
        let stats = FileStats {
            filepath,
            unfinished_translations: if unfinished { 1 } else { 0 },
            vanished_translations: if vanished { 1 } else { 0 },
            obsolete_translations: if obsolete { 1 } else { 0 },
            finished_translation: if finished { 1 } else { 0 },
            total_translations: 1,
        };
        files.push(stats);
        keys.push(crate::ts::copy_text(&l.filename));
        proof {
            assert(!exists|c: int| is_first_key(ts, key, c));
            let next = count_location(ts, *l, m@);
            assert forall|j: int| 0 <= j < next.len() implies reports(#[trigger] files@[j], next[j]) by {
                if j < ts.len() {
                    assert(files@[j] == old(files)@[j]);
                }
            }
            assert forall|j: int| 0 <= j < next.len() implies text_of(#[trigger] keys@[j]) == next[j].key by {
                if j < ts.len() {
                    assert(keys@[j] == old(keys)@[j]);
                }
            }
        }
    }
}

/// Messages that have a translation.
pub open spec fn translated() -> spec_fn(MessageView) -> bool {
    |m: MessageView| m.translation is Some
}

/// Messages whose translation has status `t`.
pub open spec fn with_status(t: TranslationType) -> spec_fn(MessageView) -> bool {
    |m: MessageView| status(m) == Some(t)
}

/// The running totals of `s` are those of the messages `done`.
pub open spec fn totals_of(s: TotalStats, done: Seq<MessageView>) -> bool {
    &&& s.total_unique_translations == count(done, translated())
    &&& s.total_translations_references == location_count(done)
    &&& s.total_obsolete_translations == count(done, with_status(TranslationType::Obsolete))
    &&& s.total_vanished_translations == count(done, with_status(TranslationType::Vanished))
    &&& s.total_missing_translations == count(done, with_status(TranslationType::Unfinished))
}

/// The file statistics and keys report the tallies `ts`, each bounded by `bound`.
pub open spec fn tallies_of(files: Seq<FileStats>, keys: Seq<Option<String>>, ts: Seq<FileTally>, bound: nat) -> bool {
    &&& files.len() == ts.len()
    &&& keys.len() == ts.len()
    &&& forall|i: int| 0 <= i < ts.len() ==> reports(#[trigger] files[i], ts[i])
    &&& forall|i: int| 0 <= i < ts.len() ==> text_of(#[trigger] keys[i]) == ts[i].key
    &&& forall|i: int| 0 <= i < ts.len() ==> bounded(#[trigger] ts[i], bound)
}

proof fn lemma_count_push(s: Seq<MessageView>, m: MessageView, p: spec_fn(MessageView) -> bool)
    ensures
        count(s.push(m), p) == count(s, p) + if p(m) { 1nat } else { 0nat },
        count(s, p) <= s.len(),
{
    s.lemma_filter_push(m, p);
    s.lemma_filter_len(p);
}

/// `s` holds the statistics of `data`: the totals over all its messages, and one entry per
/// file tally in the order of `file_order`.
pub open spec fn describes(s: TotalStats, data: TSView) -> bool {
    &&& s.total_contexts == data.contexts.len()
    &&& s.total_context_less_messages == data.messages.len()
    &&& s.total_messages == all_messages(data).len()
    &&& totals_of(s, all_messages(data))
    &&& exists|unsorted: Seq<FileStats>| {
        &&& #[trigger] reports_all(unsorted, tallies(all_messages(data)))
        &&& s.files@ == stable_sorted(unsorted, |f: FileStats| file_key_of(f), file_order())
    }
}

/// `fs` reports the tallies `ts`, one for one.
pub open spec fn reports_all(fs: Seq<FileStats>, ts: Seq<FileTally>) -> bool {
    &&& fs.len() == ts.len()
    &&& forall|i: int| 0 <= i < fs.len() ==> reports(#[trigger] fs[i], ts[i])
}

/// Adds the statistics of `messages` to the running totals and file tallies.
fn stats_for_messages(
    messages: &Vec<MessageNode>,
    stats: &mut TotalStats,
    files: &mut Vec<FileStats>,
    keys: &mut Vec<Option<String>>,
    Ghost(done): Ghost<Seq<MessageView>>,
    Ghost(all): Ghost<Seq<MessageView>>,
)
    requires
        is_prefix(done + messages_view(messages@), all),
        all.len() + location_count(all) <= usize::MAX,
        totals_of(*old(stats), done),
        tallies_of(old(files)@, old(keys)@, tallies(done), location_count(done)),
    ensures
        totals_of(*final(stats), done + messages_view(messages@)),
        tallies_of(final(files)@, final(keys)@, tallies(done + messages_view(messages@)), location_count(done + messages_view(messages@))),
        final(stats).total_contexts == old(stats).total_contexts,
        final(stats).total_messages == old(stats).total_messages,
        final(stats).total_context_less_messages == old(stats).total_context_less_messages,
{
    let ghost mv = messages_view(messages@);
    let ghost mut cur = done;
    let mut j: usize = 0;
    while j < messages.len()
        invariant
            j <= messages@.len(),
            mv == messages_view(messages@),
            cur == done + mv.take(j as int),
            is_prefix(done + mv, all),
            all.len() + location_count(all) <= usize::MAX,
            totals_of(*stats, cur),
            tallies_of(files@, keys@, tallies(cur), location_count(cur)),
            stats.total_contexts == old(stats).total_contexts,
            stats.total_messages == old(stats).total_messages,
            stats.total_context_less_messages == old(stats).total_context_less_messages,
        decreases messages@.len() - j,
    {
        let m = &messages[j];
        let ghost next = cur.push(m@);
        proof {
            assert(mv[j as int] == m@);
            assert(next =~= done + mv.take(j as int + 1));
            assert(all.take(next.len() as int) =~= next) by {
                assert((done + mv).take(next.len() as int) =~= next);
            }
            lemma_prefix_location_count(next, all);
            assert(location_count(next) == location_count(cur) + m@.locations.len()) by {
                assert(next.drop_last() =~= cur);
            }
            lemma_count_push(cur, m@, translated());
            lemma_count_push(cur, m@, with_status(TranslationType::Obsolete));
            lemma_count_push(cur, m@, with_status(TranslationType::Vanished));
            lemma_count_push(cur, m@, with_status(TranslationType::Unfinished));
            lemma_count_push(next, m@, translated());
        }
        if m.translation.is_some() {
            stats.total_unique_translations = stats.total_unique_translations + 1;
        }
        let ghost base_refs = stats.total_translations_references;
        stats.total_translations_references = stats.total_translations_references + m.locations.len();
        let ghost start = tallies(cur);
        let mut l: usize = 0;
        while l < m.locations.len()
            invariant
                l <= m@.locations.len(),
                location_count(cur) + m@.locations.len() <= usize::MAX,
                tallies_of(files@, keys@, count_locations(start, m@, l as nat), (location_count(cur) + l) as nat),
            decreases m@.locations.len() - l,
        {
            count_one_location(files, keys, &m.locations[l], m, Ghost(count_locations(start, m@, l as nat)), Ghost((location_count(cur) + l) as nat));
            l = l + 1;
        }
        assert(tallies(next) == count_locations(start, m@, m@.locations.len())) by {
            assert(next.drop_last() =~= cur);
        }
        if has_status(m, TranslationType::Obsolete) {
            stats.total_obsolete_translations = stats.total_obsolete_translations + 1;
        } else if has_status(m, TranslationType::Vanished) {
            stats.total_vanished_translations = stats.total_vanished_translations + 1;
        } else if has_status(m, TranslationType::Unfinished) {
            stats.total_missing_translations = stats.total_missing_translations + 1;
        }
        proof {
            cur = next;
        }
        j = j + 1;
    }
    assert(mv.take(messages@.len() as int) =~= mv);
}

/// The statistics of a catalog: totals over all messages, and one entry per file named by
/// a location (locations without file name count as "invalid"), sorted by path, then counts.
pub fn stats_ts_node(ts_node: &TSNode) -> (r: TotalStats)
    requires
        catalog_size(ts_node@) <= usize::MAX,
    ensures
        describes(r, ts_node@),
{
    let ghost all = all_messages(ts_node@);
    let ghost cvs = ts_node@.contexts;
    let mut stats = TotalStats {
        total_missing_translations: 0,
        total_vanished_translations: 0,
        total_obsolete_translations: 0,
        total_unique_translations: 0,
        total_translations_references: 0,
        total_contexts: ts_node.contexts.len(),
        total_messages: ts_node.messages.len(),
        total_context_less_messages: ts_node.messages.len(),
        files: Vec::new(),
    };
    let mut files: Vec<FileStats> = Vec::new();
    let mut keys: Vec<Option<String>> = Vec::new();
    proof {
        let e = Seq::<MessageView>::empty();
        assert(e.filter(translated()) =~= e) by { reveal(Seq::filter); }
        assert(e.filter(with_status(TranslationType::Obsolete)) =~= e) by { reveal(Seq::filter); }
        assert(e.filter(with_status(TranslationType::Vanished)) =~= e) by { reveal(Seq::filter); }
        assert(e.filter(with_status(TranslationType::Unfinished)) =~= e) by { reveal(Seq::filter); }
        assert(all.take(ts_node@.messages.len() as int) =~= ts_node@.messages);
        assert(e + ts_node@.messages =~= ts_node@.messages);
    }
    stats_for_messages(&ts_node.messages, &mut stats, &mut files, &mut keys, Ghost(Seq::empty()), Ghost(all));
    let mut k: usize = 0;
    while k < ts_node.contexts.len()
        invariant
            k <= ts_node.contexts@.len(),
            cvs == ts_node@.contexts,
            all == all_messages(ts_node@),
            all.len() + location_count(all) <= usize::MAX,
            totals_of(stats, ts_node@.messages + context_messages(cvs.take(k as int))),
            tallies_of(files@, keys@, tallies(ts_node@.messages + context_messages(cvs.take(k as int))), location_count(ts_node@.messages + context_messages(cvs.take(k as int)))),
            stats.total_contexts == ts_node.contexts@.len(),
            stats.total_context_less_messages == ts_node.messages@.len(),
            stats.total_messages == ts_node@.messages.len() + context_messages(cvs.take(k as int)).len(),
        decreases ts_node.contexts@.len() - k,
    {
        let c = &ts_node.contexts[k];
        let ghost done = ts_node@.messages + context_messages(cvs.take(k as int));
        proof {
            assert(cvs[k as int] == c@);
            assert(cvs.take(k as int + 1).drop_last() =~= cvs.take(k as int));
            lemma_context_messages_prefix(cvs, k + 1);
            let p = context_messages(cvs.take(k as int + 1));
            let q = context_messages(cvs);
            assert(done + messages_view(c.messages@) =~= ts_node@.messages + p);
            assert(all.take((ts_node@.messages + p).len() as int) =~= ts_node@.messages + p) by {
                assert(q.take(p.len() as int) == p);
            }
            assert(p.len() <= q.len());
        }
        stats.total_messages = stats.total_messages + c.messages.len();
        stats_for_messages(&c.messages, &mut stats, &mut files, &mut keys, Ghost(done), Ghost(all));
        k = k + 1;
    }
    assert(cvs.take(cvs.len() as int) =~= cvs);
    assert(ts_node@.messages + context_messages(cvs.take(cvs.len() as int)) == all);
    let ghost unsorted = files@;
    assert(reports_all(unsorted, tallies(all)));
    proof {
        lemma_file_order_total();
    }
    stable_sort::<FileStats, (Seq<u8>, (usize, (usize, (usize, (usize, usize))))), _>(&mut files, file_less, Ghost(|f: FileStats| file_key_of(f)), Ghost(file_order()));
    stats.files = files;
    assert(stats.files@ == stable_sorted(unsorted, |f: FileStats| file_key_of(f), file_order()));
    assert(describes(stats, ts_node@));
    stats
}

/// Whether file statistics `a` sort strictly before `b`.
pub fn file_less(a: &FileStats, b: &FileStats) -> (r: bool)
    ensures
        r == file_order()(file_key_of(*a), file_key_of(*b)),
{
    let pa = a.filepath.as_str().as_bytes();
    let pb = b.filepath.as_str().as_bytes();
    if bytes_less(pa, pb) {
        return true;
    }
    if bytes_less(pb, pa) {
        return false;
    }
    proof {
        crate::order::lemma_bytes_order_total();
        assert(!bytes_order()(pa@, pb@) && !bytes_order()(pb@, pa@));
    }
    assert(pa@ == pb@);
    let ka = (a.unfinished_translations, a.vanished_translations, a.obsolete_translations, a.finished_translation, a.total_translations);
    let kb = (b.unfinished_translations, b.vanished_translations, b.obsolete_translations, b.finished_translation, b.total_translations);
    if ka.0 != kb.0 {
        ka.0 < kb.0
    } else if ka.1 != kb.1 {
        ka.1 < kb.1
    } else if ka.2 != kb.2 {
        ka.2 < kb.2
    } else if ka.3 != kb.3 {
        ka.3 < kb.3
    } else {
        ka.4 < kb.4
    }
}

/// Number of messages plus number of locations of `done + ms`, if it fits in a `usize`.
fn weigh(ms: &Vec<MessageNode>, acc: usize, Ghost(done): Ghost<Seq<MessageView>>, Ghost(all): Ghost<Seq<MessageView>>) -> (r: Option<usize>)
    requires
        is_prefix(done + messages_view(ms@), all),
        acc == done.len() + location_count(done),
    ensures
        r matches Some(w) ==> w == (done + messages_view(ms@)).len() + location_count(done + messages_view(ms@)),
        r is None ==> all.len() + location_count(all) > usize::MAX,
{
    let ghost mv = messages_view(ms@);
    let ghost mut cur = done;
    let mut acc = acc;
    let mut j: usize = 0;
    while j < ms.len()
        invariant
            j <= ms@.len(),
            mv == messages_view(ms@),
            cur == done + mv.take(j as int),
            is_prefix(done + mv, all),
            acc == cur.len() + location_count(cur),
        decreases ms@.len() - j,
    {
        let ghost next = cur.push(ms@[j as int]@);
        proof {
            assert(mv[j as int] == ms@[j as int]@);
            assert(next =~= done + mv.take(j as int + 1));
            assert(next.drop_last() =~= cur);
            assert(all.take(next.len() as int) =~= next) by {
                assert((done + mv).take(next.len() as int) =~= next);
            }
        }
        let n = ms[j].locations.len();
        if acc > usize::MAX - 1 || acc + 1 > usize::MAX - n {
            proof {
                lemma_prefix_location_count(next, all);
            }
            return None;
        }
        acc = acc + 1 + n;
        proof {
            cur = next;
        }
        j = j + 1;
    }
    assert(mv.take(ms@.len() as int) =~= mv);
    Some(acc)
}

/// The statistics of a catalog, or `None` when it holds more messages and locations than
/// the counters can hold.
pub fn checked_stats(ts_node: &TSNode) -> (r: Option<TotalStats>)
    ensures
        r is Some <==> catalog_size(ts_node@) <= usize::MAX,
        r matches Some(s) ==> describes(s, ts_node@),
{
    let ghost all = all_messages(ts_node@);
    let ghost cvs = ts_node@.contexts;
    proof {
        assert(all.take(ts_node@.messages.len() as int) =~= ts_node@.messages);
        assert(Seq::<MessageView>::empty() + ts_node@.messages =~= ts_node@.messages);
    }
    let mut acc = match weigh(&ts_node.messages, 0, Ghost(Seq::empty()), Ghost(all)) {
        Some(w) => w,
        None => return None,
    };
    let mut k: usize = 0;
    while k < ts_node.contexts.len()
        invariant
            k <= ts_node.contexts@.len(),
            cvs == ts_node@.contexts,
            all == all_messages(ts_node@),
            acc == (ts_node@.messages + context_messages(cvs.take(k as int))).len()
                + location_count(ts_node@.messages + context_messages(cvs.take(k as int))),
        decreases ts_node.contexts@.len() - k,
    {
        let c = &ts_node.contexts[k];
        let ghost done = ts_node@.messages + context_messages(cvs.take(k as int));
        proof {
            assert(cvs[k as int] == c@);
            assert(cvs.take(k as int + 1).drop_last() =~= cvs.take(k as int));
            lemma_context_messages_prefix(cvs, k + 1);
            let p = context_messages(cvs.take(k as int + 1));
            let q = context_messages(cvs);
            assert(done + messages_view(c.messages@) =~= ts_node@.messages + p);
            assert(all.take((ts_node@.messages + p).len() as int) =~= ts_node@.messages + p) by {
                assert(q.take(p.len() as int) == p);
            }
        }
        acc = match weigh(&c.messages, acc, Ghost(done), Ghost(all)) {
            Some(w) => w,
            None => return None,
        };
        k = k + 1;
    }
    assert(cvs.take(cvs.len() as int) =~= cvs);
    Some(stats_ts_node(ts_node))
}

} // verus!
