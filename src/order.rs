use vstd::prelude::*;

verus! {

/// Byte-wise lexicographic order: `a` sorts strictly before `b`.
pub open spec fn bytes_lt(a: Seq<u8>, b: Seq<u8>) -> bool
    decreases a.len(),
{
    if a.len() == 0 {
        b.len() > 0
    } else if b.len() == 0 {
        false
    } else if a[0] != b[0] {
        a[0] < b[0]
    } else {
        bytes_lt(a.drop_first(), b.drop_first())
    }
}

pub proof fn lemma_bytes_lt_irreflexive(a: Seq<u8>)
    ensures
        !bytes_lt(a, a),
    decreases a.len(),
{
    if a.len() > 0 {
        lemma_bytes_lt_irreflexive(a.drop_first());
    }
}

pub proof fn lemma_bytes_lt_transitive(a: Seq<u8>, b: Seq<u8>, c: Seq<u8>)
    requires
        bytes_lt(a, b),
        bytes_lt(b, c),
    ensures
        bytes_lt(a, c),
    decreases a.len(),
{
    if a.len() > 0 && b.len() > 0 && c.len() > 0 && a[0] == b[0] && b[0] == c[0] {
        lemma_bytes_lt_transitive(a.drop_first(), b.drop_first(), c.drop_first());
    }
}

pub proof fn lemma_bytes_lt_total(a: Seq<u8>, b: Seq<u8>)
    requires
        a != b,
    ensures
        bytes_lt(a, b) || bytes_lt(b, a),
    decreases a.len(),
{
    if a.len() > 0 && b.len() > 0 && a[0] == b[0] {
        if a.drop_first() == b.drop_first() {
            assert(a =~= seq![a[0]] + a.drop_first());
            assert(b =~= seq![b[0]] + b.drop_first());
        }
        lemma_bytes_lt_total(a.drop_first(), b.drop_first());
    } else if a.len() == 0 && b.len() == 0 {
        assert(a =~= b);
    }
}

/// Whether `a` sorts strictly before `b`, byte for byte.
pub fn bytes_less(a: &[u8], b: &[u8]) -> (r: bool)
    ensures
        r == bytes_lt(a@, b@),
{
    let mut i: usize = 0;
    assert(a@.skip(0) =~= a@);
    assert(b@.skip(0) =~= b@);
    while i < a.len() && i < b.len()
        invariant
            i <= a@.len(),
            i <= b@.len(),
            bytes_lt(a@, b@) == bytes_lt(a@.skip(i as int), b@.skip(i as int)),
        decreases a@.len() - i,
    {
        if a[i] != b[i] {
            return a[i] < b[i];
        }
        assert(a@.skip(i as int).drop_first() =~= a@.skip(i as int + 1));
        assert(b@.skip(i as int).drop_first() =~= b@.skip(i as int + 1));
        i = i + 1;
    }
    i == a.len() && i < b.len()
}

/// A strict total order on the values of `T`.
pub open spec fn strict_total_order<T>(lt: spec_fn(T, T) -> bool) -> bool {
    &&& forall|x: T| !(#[trigger] lt(x, x))
    &&& forall|x: T, y: T, z: T| #[trigger] lt(x, y) && #[trigger] lt(y, z) ==> lt(x, z)
    &&& forall|x: T, y: T| x != y ==> #[trigger] lt(x, y) || #[trigger] lt(y, x)
}

/// Each element of `s` sorts strictly before every later one.
pub open spec fn strictly_sorted<T>(s: Seq<T>, lt: spec_fn(T, T) -> bool) -> bool {
    forall|i: int, j: int| 0 <= i < j < s.len() ==> lt(#[trigger] s[i], #[trigger] s[j])
}

/// Two sequences, each strictly sorted under the same strict total order, that hold the same
/// elements are equal: the sorted arrangement of a set is unique.
pub proof fn lemma_sorted_unique<T>(a: Seq<T>, b: Seq<T>, lt: spec_fn(T, T) -> bool)
    requires
        strict_total_order(lt),
        strictly_sorted(a, lt),
        strictly_sorted(b, lt),
        forall|x: T| a.contains(x) <==> b.contains(x),
    ensures
        a == b,
    decreases a.len(),
{
    if a.len() == 0 {
        if b.len() > 0 {
            assert(b.contains(b[0]));
        }
        assert(a =~= b);
    } else {
        assert(a.contains(a[0]));
        assert(b.contains(a[0]));
        let k = choose|k: int| 0 <= k < b.len() && b[k] == a[0];
        assert(b.contains(b[0]));
        let m = choose|m: int| 0 <= m < a.len() && a[m] == b[0];
        if a[0] != b[0] {
            assert(k > 0);
            assert(m > 0);
            assert(lt(b[0], b[k]));
            assert(lt(a[0], a[m]));
            assert(lt(a[0], a[0]));
        }
        let a1 = a.drop_first();
        let b1 = b.drop_first();
        assert forall|x: T| a1.contains(x) <==> b1.contains(x) by {
            if a1.contains(x) {
                let i = choose|i: int| 0 <= i < a1.len() && a1[i] == x;
                assert(lt(a[0], a[i + 1]));
                assert(x != a[0]);
                assert(a.contains(x));
                let j = choose|j: int| 0 <= j < b.len() && b[j] == x;
                assert(j != 0);
                assert(b1[j - 1] == x);
            }
            if b1.contains(x) {
                let i = choose|i: int| 0 <= i < b1.len() && b1[i] == x;
                assert(lt(b[0], b[i + 1]));
                assert(x != b[0]);
                assert(b.contains(x));
                let j = choose|j: int| 0 <= j < a.len() && a[j] == x;
                assert(j != 0);
                assert(a1[j - 1] == x);
            }
        }
        lemma_sorted_unique(a1, b1, lt);
        assert(a =~= seq![a[0]] + a1);
        assert(b =~= seq![b[0]] + b1);
    }
}

/// Where `k` goes in the sorted sequence `s`: after every element that sorts before it.
pub open spec fn insert_pos<T>(s: Seq<T>, k: T, lt: spec_fn(T, T) -> bool) -> int
    decreases s.len(),
{
    if s.len() == 0 {
        0
    } else if lt(s.last(), k) {
        s.len() as int
    } else {
        insert_pos(s.drop_last(), k, lt)
    }
}

pub proof fn lemma_insert_pos<T>(s: Seq<T>, k: T, lt: spec_fn(T, T) -> bool)
    requires
        strict_total_order(lt),
        strictly_sorted(s, lt),
        !s.contains(k),
    ensures
        0 <= insert_pos(s, k, lt) <= s.len(),
        forall|q: int| 0 <= q < insert_pos(s, k, lt) ==> lt(#[trigger] s[q], k),
        forall|q: int| insert_pos(s, k, lt) <= q < s.len() ==> lt(k, #[trigger] s[q]),
    decreases s.len(),
{
    if s.len() > 0 {
        let last = s.last();
        if lt(last, k) {
            assert forall|q: int| 0 <= q < s.len() implies lt(#[trigger] s[q], k) by {
                if q < s.len() - 1 {
                    assert(lt(s[q], last));
                }
            }
        } else {
            assert(s.contains(last));
            assert(lt(k, last));
            let rest = s.drop_last();
            assert forall|x: T| rest.contains(x) implies s.contains(x) by {
                let i = choose|i: int| 0 <= i < rest.len() && rest[i] == x;
                assert(s[i] == x);
            }
            lemma_insert_pos(rest, k, lt);
            let p = insert_pos(rest, k, lt);
            assert(insert_pos(s, k, lt) == p);
            assert forall|q: int| 0 <= q < p implies lt(#[trigger] s[q], k) by {
                assert(s[q] == rest[q]);
            }
            assert forall|q: int| p <= q < s.len() implies lt(k, #[trigger] s[q]) by {
                if q < s.len() - 1 {
                    assert(s[q] == rest[q]);
                }
            }
        }
    }
}

/// Inserting `k` at a position where everything before sorts before it and everything after
/// sorts after it keeps the sequence strictly sorted.
pub proof fn lemma_insert_sorted<T>(s: Seq<T>, k: T, p: int, lt: spec_fn(T, T) -> bool)
    requires
        strict_total_order(lt),
        strictly_sorted(s, lt),
        0 <= p <= s.len(),
        forall|q: int| 0 <= q < p ==> lt(#[trigger] s[q], k),
        forall|q: int| p <= q < s.len() ==> lt(k, #[trigger] s[q]),
    ensures
        strictly_sorted(s.insert(p, k), lt),
        forall|x: T| s.insert(p, k).contains(x) <==> (s.contains(x) || x == k),
{
    let t = s.insert(p, k);
    assert forall|i: int, j: int| 0 <= i < j < t.len() implies lt(#[trigger] t[i], #[trigger] t[j]) by {
        if j < p {
            assert(lt(s[i], s[j]));
        } else if i < p && j == p {
        } else if i < p {
            assert(lt(s[i], s[j - 1]));
        } else if i == p {
            assert(lt(k, s[j - 1]));
        } else {
            assert(lt(s[i - 1], s[j - 1]));
        }
    }
    assert forall|x: T| t.contains(x) <==> (s.contains(x) || x == k) by {
        if t.contains(x) {
            let j = choose|j: int| 0 <= j < t.len() && t[j] == x;
            if j < p {
                assert(s[j] == x);
            } else if j > p {
                assert(s[j - 1] == x);
            }
        }
        if s.contains(x) {
            let j = choose|j: int| 0 <= j < s.len() && s[j] == x;
            if j < p {
                assert(t[j] == x);
            } else {
                assert(t[j + 1] == x);
            }
        }
        if x == k {
            assert(t[p] == x);
        }
    }
}

/// The indices below `n` can be listed in strictly sorted order.
pub proof fn lemma_sorted_indices_exist(n: nat, lt: spec_fn(usize, usize) -> bool)
    requires
        strict_total_order(lt),
        n <= usize::MAX + 1,
    ensures
        exists|s: Seq<usize>| strictly_sorted(s, lt) && forall|i: usize| #[trigger] s.contains(i) <==> i < n,
    decreases n,
{
    if n == 0 {
        let s = Seq::<usize>::empty();
        assert(strictly_sorted(s, lt) && forall|i: usize| #[trigger] s.contains(i) <==> i < n);
    } else {
        lemma_sorted_indices_exist((n - 1) as nat, lt);
        let s = choose|s: Seq<usize>| strictly_sorted(s, lt) && forall|i: usize| #[trigger] s.contains(i) <==> i < n - 1;
        let k = (n - 1) as usize;
        assert(!s.contains(k));
        lemma_insert_pos(s, k, lt);
        let p = insert_pos(s, k, lt);
        lemma_insert_sorted(s, k, p, lt);
        let t = s.insert(p, k);
        assert forall|i: usize| #[trigger] t.contains(i) <==> i < n by {
            assert(t.contains(i) <==> (s.contains(i) || i == k));
            assert(s.contains(i) <==> i < n - 1);
        }
        assert(strictly_sorted(t, lt) && forall|i: usize| #[trigger] t.contains(i) <==> i < n);
    }
}

/// Lexicographic order on pairs.
pub open spec fn lex_lt<A, B>(lta: spec_fn(A, A) -> bool, ltb: spec_fn(B, B) -> bool) -> spec_fn((A, B), (A, B)) -> bool {
    |x: (A, B), y: (A, B)| lta(x.0, y.0) || (x.0 == y.0 && ltb(x.1, y.1))
}

/// Order on options with the absent value first.
pub open spec fn none_first_lt<A>(lt: spec_fn(A, A) -> bool) -> spec_fn(Option<A>, Option<A>) -> bool {
    |x: Option<A>, y: Option<A>| match (x, y) {
        (None, Some(_)) => true,
        (Some(a), Some(b)) => lt(a, b),
        _ => false,
    }
}

/// Order on options with the absent value last.
pub open spec fn none_last_lt<A>(lt: spec_fn(A, A) -> bool) -> spec_fn(Option<A>, Option<A>) -> bool {
    |x: Option<A>, y: Option<A>| match (x, y) {
        (Some(_), None) => true,
        (Some(a), Some(b)) => lt(a, b),
        _ => false,
    }
}

/// The reverse of an order.
pub open spec fn rev_lt<A>(lt: spec_fn(A, A) -> bool) -> spec_fn(A, A) -> bool {
    |x: A, y: A| lt(y, x)
}

/// The natural order of `u32`.
pub open spec fn u32_lt() -> spec_fn(u32, u32) -> bool {
    |x: u32, y: u32| x < y
}

/// The byte-wise order as a function value.
pub open spec fn bytes_order() -> spec_fn(Seq<u8>, Seq<u8>) -> bool {
    |x: Seq<u8>, y: Seq<u8>| bytes_lt(x, y)
}

pub proof fn lemma_bytes_order_total()
    ensures
        strict_total_order(bytes_order()),
{
    let lt = bytes_order();
    assert forall|x: Seq<u8>| !(#[trigger] lt(x, x)) by {
        lemma_bytes_lt_irreflexive(x);
    }
    assert forall|x: Seq<u8>, y: Seq<u8>, z: Seq<u8>| #[trigger] lt(x, y) && #[trigger] lt(y, z) implies lt(x, z) by {
        lemma_bytes_lt_transitive(x, y, z);
    }
    assert forall|x: Seq<u8>, y: Seq<u8>| x != y implies #[trigger] lt(x, y) || #[trigger] lt(y, x) by {
        lemma_bytes_lt_total(x, y);
    }
}

pub proof fn lemma_u32_order_total()
    ensures
        strict_total_order(u32_lt()),
{
}

pub proof fn lemma_lex_total<A, B>(lta: spec_fn(A, A) -> bool, ltb: spec_fn(B, B) -> bool)
    requires
        strict_total_order(lta),
        strict_total_order(ltb),
    ensures
        strict_total_order(lex_lt(lta, ltb)),
{
    let lt = lex_lt(lta, ltb);
    assert forall|x: (A, B), y: (A, B), z: (A, B)| #[trigger] lt(x, y) && #[trigger] lt(y, z) implies lt(x, z) by {
        if lta(x.0, y.0) && lta(y.0, z.0) {
        } else if lta(x.0, y.0) {
        } else if lta(y.0, z.0) {
        } else {
            assert(ltb(x.1, y.1) && ltb(y.1, z.1));
        }
    }
    assert forall|x: (A, B), y: (A, B)| x != y implies #[trigger] lt(x, y) || #[trigger] lt(y, x) by {
        if x.0 == y.0 {
            assert(x.1 != y.1);
        }
    }
}

pub proof fn lemma_none_first_total<A>(lt: spec_fn(A, A) -> bool)
    requires
        strict_total_order(lt),
    ensures
        strict_total_order(none_first_lt(lt)),
{
    let o = none_first_lt(lt);
    assert forall|x: Option<A>, y: Option<A>, z: Option<A>| #[trigger] o(x, y) && #[trigger] o(y, z) implies o(x, z) by {
        if x is Some && y is Some && z is Some {
            assert(lt(x->Some_0, y->Some_0) && lt(y->Some_0, z->Some_0));
        }
    }
    assert forall|x: Option<A>, y: Option<A>| x != y implies #[trigger] o(x, y) || #[trigger] o(y, x) by {
        if x is Some && y is Some {
            assert(x->Some_0 != y->Some_0);
        }
    }
}

pub proof fn lemma_none_last_total<A>(lt: spec_fn(A, A) -> bool)
    requires
        strict_total_order(lt),
    ensures
        strict_total_order(none_last_lt(lt)),
{
    let o = none_last_lt(lt);
    assert forall|x: Option<A>, y: Option<A>, z: Option<A>| #[trigger] o(x, y) && #[trigger] o(y, z) implies o(x, z) by {
        if x is Some && y is Some && z is Some {
            assert(lt(x->Some_0, y->Some_0) && lt(y->Some_0, z->Some_0));
        }
    }
    assert forall|x: Option<A>, y: Option<A>| x != y implies #[trigger] o(x, y) || #[trigger] o(y, x) by {
        if x is Some && y is Some {
            assert(x->Some_0 != y->Some_0);
        }
    }
}

pub proof fn lemma_rev_total<A>(lt: spec_fn(A, A) -> bool)
    requires
        strict_total_order(lt),
    ensures
        strict_total_order(rev_lt(lt)),
{
    let r = rev_lt(lt);
    assert forall|x: A, y: A, z: A| #[trigger] r(x, y) && #[trigger] r(y, z) implies r(x, z) by {
        assert(lt(z, y) && lt(y, x));
    }
    assert forall|x: A, y: A| x != y implies #[trigger] r(x, y) || #[trigger] r(y, x) by {
        assert(lt(x, y) || lt(y, x));
    }
}

/// Order of positions in `s` for a stable sort: by key, equal keys by position.
pub open spec fn stable_lt<T, K>(s: Seq<T>, key: spec_fn(T) -> K, klt: spec_fn(K, K) -> bool) -> spec_fn(usize, usize) -> bool {
    |i: usize, j: usize| klt(key(s[i as int]), key(s[j as int])) || (key(s[i as int]) == key(s[j as int]) && i < j)
}

/// `ord` lists every position of `s` once, in stable sorted order.
pub open spec fn is_stable_order<T, K>(s: Seq<T>, key: spec_fn(T) -> K, klt: spec_fn(K, K) -> bool, ord: Seq<usize>) -> bool {
    &&& strictly_sorted(ord, stable_lt(s, key, klt))
    &&& forall|i: usize| ord.contains(i) <==> i < s.len()
}

/// `s` sorted by key; elements with equal keys keep their relative order.
pub open spec fn stable_sorted<T, K>(s: Seq<T>, key: spec_fn(T) -> K, klt: spec_fn(K, K) -> bool) -> Seq<T> {
    let ord = choose|ord: Seq<usize>| is_stable_order(s, key, klt, ord);
    ord.map_values(|i: usize| s[i as int])
}

pub proof fn lemma_stable_total<T, K>(s: Seq<T>, key: spec_fn(T) -> K, klt: spec_fn(K, K) -> bool)
    requires
        strict_total_order(klt),
    ensures
        strict_total_order(stable_lt(s, key, klt)),
{
    let lt = stable_lt(s, key, klt);
    assert forall|x: usize, y: usize, z: usize| #[trigger] lt(x, y) && #[trigger] lt(y, z) implies lt(x, z) by {
        let (a, b, c) = (key(s[x as int]), key(s[y as int]), key(s[z as int]));
        if klt(a, b) && klt(b, c) {
        }
    }
    assert forall|x: usize, y: usize| x != y implies #[trigger] lt(x, y) || #[trigger] lt(y, x) by {
        let (a, b) = (key(s[x as int]), key(s[y as int]));
        if a != b {
            assert(klt(a, b) || klt(b, a));
        }
    }
}

/// Sorts `v` in place by key, keeping the relative order of elements with equal keys;
/// `less(a, b)` tells whether `a`'s key sorts strictly before `b`'s.
pub fn stable_sort<T, K, F: Fn(&T, &T) -> bool>(v: &mut Vec<T>, less: F, Ghost(key): Ghost<spec_fn(T) -> K>, Ghost(klt): Ghost<spec_fn(K, K) -> bool>)
    requires
        strict_total_order(klt),
        forall|a: &T, b: &T| call_requires(less, (a, b)),
        forall|a: &T, b: &T, r: bool| call_ensures(less, (a, b), r) ==> r == klt(key(*a), key(*b)),
    ensures
        final(v)@ == stable_sorted(old(v)@, key, klt),
{
    let ghost s = v@;
    let ghost lt = stable_lt(s, key, klt);
    proof {
        lemma_stable_total(s, key, klt);
    }
    let ghost mut ord: Seq<usize> = Seq::empty();
    let mut k: usize = 0;
    while k < v.len()
        invariant
            k <= v@.len(),
            v@.len() == s.len(),
            lt == stable_lt(s, key, klt),
            strict_total_order(lt),
            strict_total_order(klt),
            forall|a: &T, b: &T| call_requires(less, (a, b)),
            forall|a: &T, b: &T, r: bool| call_ensures(less, (a, b), r) ==> r == klt(key(*a), key(*b)),
            strictly_sorted(ord, lt),
            ord.len() == k,
            forall|i: usize| ord.contains(i) <==> i < k,
            forall|q: int| 0 <= q < k ==> v@[q] == s[ord[q] as int],
            forall|q: int| k <= q < s.len() ==> v@[q] == s[q],
        decreases s.len() - k,
    {
        assert forall|q: int| 0 <= q < ord.len() implies #[trigger] ord[q] < k by {
            assert(ord.contains(ord[q]));
        }
        let mut p: usize = k;
        while p > 0 && less(&v[k], &v[p - 1])
            invariant
                p <= k,
                k < v@.len(),
                v@.len() == s.len(),
                lt == stable_lt(s, key, klt),
                ord.len() == k,
                forall|a: &T, b: &T| call_requires(less, (a, b)),
                forall|a: &T, b: &T, r: bool| call_ensures(less, (a, b), r) ==> r == klt(key(*a), key(*b)),
                forall|q: int| 0 <= q < k ==> v@[q] == s[ord[q] as int],
                forall|q: int| k <= q < s.len() ==> v@[q] == s[q],
                forall|q: int| 0 <= q < ord.len() ==> #[trigger] ord[q] < k,
                forall|q: int| p <= q < k ==> lt(k as usize, #[trigger] ord[q]),
            decreases p,
        {
            p = p - 1;
        }
        proof {
            if p > 0 {
                let prev = ord[p - 1];
                assert(!klt(key(s[k as int]), key(s[prev as int])));
                assert(lt(prev, k as usize));
                assert forall|q: int| 0 <= q < p implies lt(#[trigger] ord[q], k as usize) by {
                    if q < p - 1 {
                        assert(lt(ord[q], prev));
                    }
                }
            }
            assert(!ord.contains(k as usize));
            lemma_insert_sorted(ord, k as usize, p as int, lt);
        }
        let ghost before = v@;
        let x = v.remove(k);
        v.insert(p, x);
        proof {
            let new_ord = ord.insert(p as int, k as usize);
            assert forall|q: int| 0 <= q < k + 1 implies v@[q] == s[new_ord[q] as int] by {
                if q < p {
                    assert(v@[q] == before[q]);
                } else if q > p {
                    assert(v@[q] == before[q - 1]);
                }
            }
            assert forall|q: int| k + 1 <= q < s.len() implies v@[q] == s[q] by {
                assert(v@[q] == before[q]);
            }
            assert forall|i: usize| new_ord.contains(i) <==> i < k + 1 by {
                assert(new_ord.contains(i) <==> (ord.contains(i) || i == k));
            }
            ord = new_ord;
        }
        k = k + 1;
    }
    proof {
        let chosen = choose|o: Seq<usize>| is_stable_order(s, key, klt, o);
        assert(is_stable_order(s, key, klt, ord));
        lemma_sorted_unique(ord, chosen, lt);
        assert(v@ =~= ord.map_values(|i: usize| s[i as int]));
    }
}

/// The natural order of `usize`.
pub open spec fn usize_lt() -> spec_fn(usize, usize) -> bool {
    |x: usize, y: usize| x < y
}

pub proof fn lemma_usize_order_total()
    ensures
        strict_total_order(usize_lt()),
{
}

} // verus!
