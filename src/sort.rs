use vstd::prelude::*;
use crate::encode::utf8_of;
use crate::order::{
    bytes_lt, bytes_less, bytes_order, lex_lt, none_first_lt, none_last_lt, rev_lt, u32_lt,
    stable_sort, stable_sorted, strict_total_order, lemma_bytes_order_total, lemma_u32_order_total,
    lemma_lex_total, lemma_none_first_total, lemma_none_last_total, lemma_rev_total,
};
use crate::ts::{ContextNode, ContextView, LocationNode, MessageNode, MessageView, TSNode, TSView, contexts_view, messages_view};
use vstd::utf8::encode_utf8;

verus! {

/// The lower-case form of a text, as `str::to_lowercase` computes it.
pub uninterp spec fn lower_of(s: Seq<char>) -> Seq<char>;

/// Relies on `str::to_lowercase`: the result depends on the characters alone.
#[verifier::external_body]
fn lowercase(s: &str) -> (r: String)
    ensures
        r@ == lower_of(s@),
{
    s.to_lowercase()
}

/// What contexts are sorted by: the bytes of the lower-case name.
pub open spec fn context_key(c: ContextNode) -> Seq<u8> {
    encode_utf8(lower_of(c.name@))
}

/// The text of an optional file name, empty when absent.
pub open spec fn filename_text(l: LocationNode) -> Seq<char> {
    match l.filename {
        Some(f) => f@,
        None => Seq::empty(),
    }
}

/// What locations are sorted by: the bytes of the lower-case file name, then the line.
pub open spec fn location_key(l: LocationNode) -> (Seq<u8>, Option<u32>) {
    (encode_utf8(lower_of(filename_text(l))), l.line)
}

/// Order of location keys.
pub open spec fn location_order() -> spec_fn((Seq<u8>, Option<u32>), (Seq<u8>, Option<u32>)) -> bool {
    lex_lt(bytes_order(), none_first_lt(u32_lt()))
}

/// A place as file name bytes and line, each possibly absent.
pub open spec fn place_of(l: LocationNode) -> (Option<Seq<u8>>, Option<u32>) {
    (
        match l.filename {
            Some(f) => Some(utf8_of(f)),
            None => None,
        },
        l.line,
    )
}

/// Order of places: absent before present, file name bytes first.
pub open spec fn place_order() -> spec_fn((Option<Seq<u8>>, Option<u32>), (Option<Seq<u8>>, Option<u32>)) -> bool {
    lex_lt(none_first_lt(bytes_order()), none_first_lt(u32_lt()))
}

/// The least place among the locations; no file and no line when there is none.
pub open spec fn first_place(locs: Seq<LocationNode>) -> (Option<Seq<u8>>, Option<u32>)
    decreases locs.len(),
{
    if locs.len() == 0 {
        (None, None)
    } else if locs.len() == 1 {
        place_of(locs[0])
    } else {
        let m = first_place(locs.drop_last());
        let k = place_of(locs.last());
        if place_order()(k, m) {
            k
        } else {
            m
        }
    }
}

/// The identifier's bytes, if any.
pub open spec fn id_bytes(m: MessageNode) -> Option<Seq<u8>> {
    match m.id {
        Some(id) => Some(utf8_of(id)),
        None => None,
    }
}

/// What messages are sorted by: the identifier, then the least place.
pub open spec fn message_key(m: MessageNode) -> (Option<Seq<u8>>, (Option<Seq<u8>>, Option<u32>)) {
    (id_bytes(m), first_place(m.locations@))
}

/// Order of message keys: identifiers in descending order with identified messages first,
/// then the least place, messages without a file name last.
pub open spec fn message_order() -> spec_fn(
    (Option<Seq<u8>>, (Option<Seq<u8>>, Option<u32>)),
    (Option<Seq<u8>>, (Option<Seq<u8>>, Option<u32>)),
) -> bool {
    lex_lt(rev_lt(none_first_lt(bytes_order())), lex_lt(none_last_lt(bytes_order()), none_first_lt(u32_lt())))
}

proof fn lemma_orders_total()
    ensures
        strict_total_order(bytes_order()),
        strict_total_order(location_order()),
        strict_total_order(place_order()),
        strict_total_order(message_order()),
{
    lemma_bytes_order_total();
    lemma_u32_order_total();
    lemma_none_first_total(u32_lt());
    lemma_none_first_total(bytes_order());
    lemma_none_last_total(bytes_order());
    lemma_rev_total(none_first_lt(bytes_order()));
    lemma_lex_total(bytes_order(), none_first_lt(u32_lt()));
    lemma_lex_total(none_first_lt(bytes_order()), none_first_lt(u32_lt()));
    lemma_lex_total(none_last_lt(bytes_order()), none_first_lt(u32_lt()));
    lemma_lex_total(rev_lt(none_first_lt(bytes_order())), lex_lt(none_last_lt(bytes_order()), none_first_lt(u32_lt())));
}

/// Whether two byte strings are equal.
fn bytes_equal(a: &[u8], b: &[u8]) -> (r: bool)
    ensures
        r == (a@ == b@),
{
    if a.len() != b.len() {
        return false;
    }
    let mut i: usize = 0;
    while i < a.len()
        invariant
            a@.len() == b@.len(),
            i <= a@.len(),
            forall|k: int| 0 <= k < i ==> a@[k] == b@[k],
        decreases a@.len() - i,
    {
        if a[i] != b[i] {
            return false;
        }
        i = i + 1;
    }
    assert(a@ =~= b@);
    true
}

/// Whether an optional line sorts strictly before another, absent first.
fn line_less(a: Option<u32>, b: Option<u32>) -> (r: bool)
    ensures
        r == none_first_lt(u32_lt())(a, b),
{
    match (a, b) {
        (None, Some(_)) => true,
        (Some(x), Some(y)) => x < y,
        _ => false,
    }
}

/// The bytes of an optional string.
fn opt_bytes(s: &Option<String>) -> (r: Option<&[u8]>)
    ensures
        opt_view(r) == match *s {
            Some(t) => Some(utf8_of(t)),
            None => None,
        },
{
    match s {
        Some(t) => Some(t.as_str().as_bytes()),
        None => None,
    }
}

/// Whether optional bytes sort strictly before others, absent first.
fn opt_bytes_less(a: Option<&[u8]>, b: Option<&[u8]>, absent_first: bool) -> (r: bool)
    ensures
        r == if absent_first {
            none_first_lt(bytes_order())(opt_view(a), opt_view(b))
        } else {
            none_last_lt(bytes_order())(opt_view(a), opt_view(b))
        },
{
    match (a, b) {
        (None, Some(_)) => absent_first,
        (Some(_), None) => !absent_first,
        (Some(x), Some(y)) => bytes_less(x, y),
        (None, None) => false,
    }
}

/// Whether optional bytes are equal.
fn opt_bytes_equal(a: Option<&[u8]>, b: Option<&[u8]>) -> (r: bool)
    ensures
        r == (opt_view(a) == opt_view(b)),
{
    match (a, b) {
        (Some(x), Some(y)) => bytes_equal(x, y),
        (None, None) => true,
        _ => false,
    }
}

/// The value of optional bytes.
pub open spec fn opt_view(a: Option<&[u8]>) -> Option<Seq<u8>> {
    match a {
        Some(x) => Some(x@),
        None => None,
    }
}

/// Whether context `a` sorts strictly before context `b`.
pub fn context_less(a: &ContextNode, b: &ContextNode) -> (r: bool)
    ensures
        r == bytes_lt(context_key(*a), context_key(*b)),
{
    let la = lowercase(a.name.as_str());
    let lb = lowercase(b.name.as_str());
    bytes_less(la.as_str().as_bytes(), lb.as_str().as_bytes())
}

/// The lower-case file name of a location, empty when absent.
fn lower_filename(l: &LocationNode) -> (r: String)
    ensures
        r@ == lower_of(filename_text(*l)),
{
    match &l.filename {
        Some(f) => lowercase(f.as_str()),
        None => {
            proof {
                reveal_strlit("");
            }
            assert(""@ =~= Seq::<char>::empty());
            lowercase("")
        },
    }
}

/// Whether location `a` sorts strictly before location `b`.
pub fn location_less(a: &LocationNode, b: &LocationNode) -> (r: bool)
    ensures
        r == location_order()(location_key(*a), location_key(*b)),
{
    let fa = lower_filename(a);
    let fb = lower_filename(b);
    let ba = fa.as_str().as_bytes();
    let bb = fb.as_str().as_bytes();
    if bytes_less(ba, bb) {
        true
    } else if bytes_equal(ba, bb) {
        line_less(a.line, b.line)
    } else {
        false
    }
}

/// Whether place `a` sorts strictly before place `b`.
fn place_less(a: (Option<&[u8]>, Option<u32>), b: (Option<&[u8]>, Option<u32>), absent_first: bool) -> (r: bool)
    ensures
        r == if absent_first {
            place_order()((opt_view(a.0), a.1), (opt_view(b.0), b.1))
        } else {
            lex_lt(none_last_lt(bytes_order()), none_first_lt(u32_lt()))((opt_view(a.0), a.1), (opt_view(b.0), b.1))
        },
{
    if opt_bytes_less(a.0, b.0, absent_first) {
        true
    } else if opt_bytes_equal(a.0, b.0) {
        line_less(a.1, b.1)
    } else {
        false
    }
}

/// The least place among the locations.
fn least_place(locs: &Vec<LocationNode>) -> (r: (Option<&[u8]>, Option<u32>))
    ensures
        (opt_view(r.0), r.1) == first_place(locs@),
{
    if locs.len() == 0 {
        return (None, None);
    }
    let mut best: (Option<&[u8]>, Option<u32>) = (opt_bytes(&locs[0].filename), locs[0].line);
    assert((opt_view(best.0), best.1) == place_of(locs@[0]));
    assert(locs@.take(1).drop_last().len() == 0);
    assert(first_place(locs@.take(1)) == place_of(locs@.take(1)[0]));
    let mut i: usize = 1;
    while i < locs.len()
        invariant
            1 <= i <= locs@.len(),
            (opt_view(best.0), best.1) == first_place(locs@.take(i as int)),
        decreases locs@.len() - i,
    {
        let next = (opt_bytes(&locs[i].filename), locs[i].line);
        assert((opt_view(next.0), next.1) == place_of(locs@[i as int]));
        assert(locs@.take(i as int + 1).drop_last() =~= locs@.take(i as int));
        if place_less(next, best, true) {
            best = next;
        }
        i = i + 1;
    }
    assert(locs@.take(locs@.len() as int) =~= locs@);
    best
}

/// Whether message `a` sorts strictly before message `b`.
pub fn message_less(a: &MessageNode, b: &MessageNode) -> (r: bool)
    ensures
        r == message_order()(message_key(*a), message_key(*b)),
{
    let ia = opt_bytes(&a.id);
    let ib = opt_bytes(&b.id);
    assert(opt_view(ia) == id_bytes(*a));
    assert(opt_view(ib) == id_bytes(*b));
    if opt_bytes_less(ib, ia, true) {
        true
    } else if opt_bytes_equal(ia, ib) {
        place_less(least_place(&a.locations), least_place(&b.locations), false)
    } else {
        false
    }
}

/// A message with its locations sorted.
pub open spec fn with_sorted_locations(m: MessageNode) -> MessageView {
    MessageView { locations: stable_sorted(m.locations@, |l: LocationNode| location_key(l), location_order()), ..m@ }
}

/// A context with its messages sorted, and the locations of each message sorted.
pub open spec fn sorted_context(c: ContextNode) -> ContextView {
    ContextView {
        messages: stable_sorted(c.messages@, |m: MessageNode| message_key(m), message_order()).map_values(
            |m: MessageNode| with_sorted_locations(m),
        ),
        ..c@
    }
}

/// Sorts the locations of each message of a list.
fn sort_locations(ms: Vec<MessageNode>) -> (r: Vec<MessageNode>)
    ensures
        messages_view(r@) == ms@.map_values(|m: MessageNode| with_sorted_locations(m)),
{
    proof {
        lemma_orders_total();
    }
    let ghost s = ms@;
    let ghost f = |m: MessageNode| with_sorted_locations(m);
    let mut out: Vec<MessageNode> = Vec::new();
    let mut rest = ms;
    let ghost mut i: int = 0;
    while rest.len() > 0
        invariant
            0 <= i <= s.len(),
            rest@.len() == s.len() - i,
            rest@ == s.skip(i),
            f == (|m: MessageNode| with_sorted_locations(m)),
            strict_total_order(location_order()),
            messages_view(out@) == s.take(i).map_values(f),
        decreases rest@.len(),
    {
        let ghost old_rest = rest@;
        let mut m = rest.remove(0);
        assert(m == s[i]);
        assert(rest@ =~= s.skip(i + 1));
        stable_sort::<LocationNode, (Seq<u8>, Option<u32>), _>(&mut m.locations, location_less, Ghost(|l: LocationNode| location_key(l)), Ghost(location_order()));
        assert(m@ == f(s[i]));
        let ghost old_out = out@;
        out.push(m);
        proof {
            assert(messages_view(out@) =~= messages_view(old_out).push(f(s[i])));
            assert(s.take(i + 1) =~= s.take(i).push(s[i]));
            assert(messages_view(out@) =~= s.take(i + 1).map_values(f));
            i = i + 1;
        }
    }
    assert(s.take(s.len() as int) =~= s);
    out
}

/// Sorts the catalog: contexts by lower-case name, the messages of each context by
/// identifier and least location, and the locations of each message by lower-case file name
/// and line; every sort keeps the order of equal elements.
pub fn sort_ts_node(ts_node: &mut TSNode)
    ensures
        final(ts_node)@ == (TSView {
            contexts: stable_sorted(old(ts_node).contexts@, |c: ContextNode| context_key(c), bytes_order()).map_values(
                |c: ContextNode| sorted_context(c),
            ),
            ..old(ts_node)@
        }),
{
    proof {
        lemma_orders_total();
    }
    let mut contexts: Vec<ContextNode> = Vec::new();
    core::mem::swap(&mut contexts, &mut ts_node.contexts);
    stable_sort::<ContextNode, Seq<u8>, _>(&mut contexts, context_less, Ghost(|c: ContextNode| context_key(c)), Ghost(bytes_order()));
    let ghost s = contexts@;
    let ghost f = |c: ContextNode| sorted_context(c);
    let mut out: Vec<ContextNode> = Vec::new();
    let ghost mut i: int = 0;
    while contexts.len() > 0
        invariant
            0 <= i <= s.len(),
            contexts@.len() == s.len() - i,
            contexts@ == s.skip(i),
            f == (|c: ContextNode| sorted_context(c)),
            strict_total_order(message_order()),
            strict_total_order(location_order()),
            contexts_view(out@) == s.take(i).map_values(f),
        decreases contexts@.len(),
    {
        let c = contexts.remove(0);
        assert(c == s[i]);
        assert(contexts@ =~= s.skip(i + 1));
        let ContextNode { name, messages, comment, encoding } = c;
        let mut messages = messages;
        stable_sort::<MessageNode, (Option<Seq<u8>>, (Option<Seq<u8>>, Option<u32>)), _>(&mut messages, message_less, Ghost(|m: MessageNode| message_key(m)), Ghost(message_order()));
        let messages = sort_locations(messages);
        let c = ContextNode { name, messages, comment, encoding };
        assert(c@ == f(s[i]));
        let ghost old_out = out@;
        out.push(c);
        proof {
            assert(contexts_view(out@) =~= contexts_view(old_out).push(f(s[i])));
            assert(s.take(i + 1) =~= s.take(i).push(s[i]));
            assert(contexts_view(out@) =~= s.take(i + 1).map_values(f));
            i = i + 1;
        }
    }
    assert(s.take(s.len() as int) =~= s);
    ts_node.contexts = out;
}

} // verus!
