//! Sequences of keyed items: what it means for them to be ordered, where a
//! key falls among them, and which of several items with one key counts.
use crate::order::{at_most, below, lawful_order, lemma_order_laws};
use vstd::prelude::*;

verus! {

/// An item that is filed under a key.
pub trait Keyed<K> {
    /// The key of this item.
    spec fn key_spec(&self) -> K;

    /// The key of this item.
    fn key(&self) -> (k: &K)
        ensures
            *k == self.key_spec(),
    ;
}

impl<K, V> Keyed<K> for (K, V) {
    open spec fn key_spec(&self) -> K {
        self.0
    }

    fn key(&self) -> (k: &K) {
        &self.0
    }
}

/// The keys of `s`, in order.
pub open spec fn keys_of<K, I: Keyed<K>>(s: Seq<I>) -> Seq<K> {
    Seq::new(s.len(), |i: int| s[i].key_spec())
}

/// No key is followed by a smaller one.
pub open spec fn ascending<K: Ord>(keys: Seq<K>) -> bool {
    forall|i: int, j: int| 0 <= i < j < keys.len() ==> at_most(#[trigger] keys[i], #[trigger] keys[j])
}

/// Every key is followed by greater ones only.
pub open spec fn strictly_ascending<K: Ord>(keys: Seq<K>) -> bool {
    forall|i: int, j: int| 0 <= i < j < keys.len() ==> below(#[trigger] keys[i], #[trigger] keys[j])
}

/// `k` lies strictly between the bounds that are given.
pub open spec fn in_range<K: Ord>(k: K, lo: Option<K>, hi: Option<K>) -> bool {
    &&& lo matches Some(l) ==> below(l, k)
    &&& hi matches Some(h) ==> below(k, h)
}

/// Every key lies strictly between the bounds that are given.
pub open spec fn all_in_range<K: Ord>(keys: Seq<K>, lo: Option<K>, hi: Option<K>) -> bool {
    forall|i: int| 0 <= i < keys.len() ==> in_range(#[trigger] keys[i], lo, hi)
}

/// No key of `a` is greater than a key of `b`.
pub open spec fn all_at_most<K: Ord>(a: Seq<K>, b: Seq<K>) -> bool {
    forall|i: int, j: int|
        0 <= i < a.len() && 0 <= j < b.len() ==> at_most(#[trigger] a[i], #[trigger] b[j])
}

/// The number of keys at the front of `keys` that are below `k`: where `k`
/// stands, or would stand, in an ascending sequence.
pub open spec fn rank<K: Ord>(keys: Seq<K>, k: K) -> int
    decreases keys.len(),
{
    if keys.len() == 0 {
        0
    } else if below(keys.last(), k) {
        keys.len() as int
    } else {
        rank(keys.drop_last(), k)
    }
}

/// The last item of `s` with key `k`.
pub open spec fn find<K, I: Keyed<K>>(s: Seq<I>, k: K) -> Option<I>
    decreases s.len(),
{
    if s.len() == 0 {
        None
    } else if s.last().key_spec() == k {
        Some(s.last())
    } else {
        find(s.drop_last(), k)
    }
}

/// The values that `s` holds under key `k`, in order.
pub open spec fn keyed<K, V>(s: Seq<(K, V)>, k: K) -> Seq<V>
    decreases s.len(),
{
    if s.len() == 0 {
        Seq::empty()
    } else if s.last().0 == k {
        keyed(s.drop_last(), k).push(s.last().1)
    } else {
        keyed(s.drop_last(), k)
    }
}

/// The items of `s` whose keys lie strictly between the bounds, in order.
pub open spec fn routed<K: Ord, V>(s: Seq<(K, V)>, lo: Option<K>, hi: Option<K>) -> Seq<(K, V)>
    decreases s.len(),
{
    if s.len() == 0 {
        Seq::empty()
    } else if in_range(s.last().0, lo, hi) {
        routed(s.drop_last(), lo, hi).push(s.last())
    } else {
        routed(s.drop_last(), lo, hi)
    }
}

/// Under every key, `a` and `b` hold the same values in the same order.
pub open spec fn same_runs<K, V>(a: Seq<(K, V)>, b: Seq<(K, V)>) -> bool {
    forall|k: K| #[trigger] keyed(a, k) == keyed(b, k)
}

/// The rank of a key is a position in the sequence, or its length.
pub proof fn lemma_rank_bounds<K: Ord>(keys: Seq<K>, k: K)
    ensures
        0 <= rank(keys, k) <= keys.len(),
    decreases keys.len(),
{
    if keys.len() > 0 && !below(keys.last(), k) {
        lemma_rank_bounds(keys.drop_last(), k);
    }
}

/// In an ascending sequence the keys below `k` are exactly those before
/// position `rank(keys, k)`.
pub proof fn lemma_rank<K: Ord>(keys: Seq<K>, k: K)
    requires
        lawful_order::<K>(),
        ascending(keys),
    ensures
        0 <= rank(keys, k) <= keys.len(),
        forall|j: int| 0 <= j < rank(keys, k) ==> below(#[trigger] keys[j], k),
        forall|j: int| rank(keys, k) <= j < keys.len() ==> !below(#[trigger] keys[j], k),
    decreases keys.len(),
{
    lemma_order_laws::<K>();
    if keys.len() == 0 {
    } else if below(keys.last(), k) {
        assert forall|j: int| 0 <= j < keys.len() implies below(#[trigger] keys[j], k) by {
            if j < keys.len() - 1 {
                assert(at_most(keys[j], keys[keys.len() - 1]));
            }
        }
    } else {
        let front = keys.drop_last();
        assert forall|i: int, j: int| 0 <= i < j < front.len() implies at_most(
            #[trigger] front[i],
            #[trigger] front[j],
        ) by {
            assert(at_most(keys[i], keys[j]));
        }
        lemma_rank(front, k);
        assert forall|j: int| 0 <= j < rank(keys, k) implies below(#[trigger] keys[j], k) by {
            assert(keys[j] == front[j]);
        }
        assert forall|j: int| rank(keys, k) <= j < keys.len() implies !below(
            #[trigger] keys[j],
            k,
        ) by {
            if j < keys.len() - 1 {
                assert(keys[j] == front[j]);
            }
        }
    }
}

/// A position that parts the keys below `k` from the others is the rank.
pub proof fn lemma_rank_is<K: Ord>(keys: Seq<K>, k: K, i: int)
    requires
        0 <= i <= keys.len(),
        forall|j: int| 0 <= j < i ==> below(#[trigger] keys[j], k),
        forall|j: int| i <= j < keys.len() ==> !below(#[trigger] keys[j], k),
    ensures
        rank(keys, k) == i,
    decreases keys.len(),
{
    if keys.len() == 0 {
    } else if below(keys.last(), k) {
        if i < keys.len() {
            assert(!below(keys[keys.len() - 1], k));
        }
    } else {
        if i == keys.len() {
            assert(below(keys[keys.len() - 1], k));
        }
        let front = keys.drop_last();
        assert forall|j: int| 0 <= j < i implies below(#[trigger] front[j], k) by {
            assert(front[j] == keys[j]);
        }
        assert forall|j: int| i <= j < front.len() implies !below(#[trigger] front[j], k) by {
            assert(front[j] == keys[j]);
        }
        lemma_rank_is(front, k, i);
    }
}

/// `find` on a sequence that ends in `x`.
pub proof fn lemma_find_push<K, I: Keyed<K>>(s: Seq<I>, x: I, k: K)
    ensures
        find(s.push(x), k) == if x.key_spec() == k {
            Some(x)
        } else {
            find(s, k)
        },
{
    assert(s.push(x).drop_last() =~= s);
}

/// What `find` returns is an item of the sequence with the key asked for, and
/// `find` returns nothing only if there is no such item.
pub proof fn lemma_find<K, I: Keyed<K>>(s: Seq<I>, k: K)
    ensures
        find(s, k) matches Some(x) ==> x.key_spec() == k && s.contains(x),
        find(s, k) is None ==> forall|i: int| 0 <= i < s.len() ==> (#[trigger] s[i]).key_spec() != k,
    decreases s.len(),
{
    if s.len() == 0 {
    } else if s.last().key_spec() == k {
        assert(s[s.len() - 1] == s.last());
    } else {
        lemma_find(s.drop_last(), k);
        if let Some(x) = find(s, k) {
            let i = choose|i: int| 0 <= i < s.drop_last().len() && s.drop_last()[i] == x;
            assert(s[i] == x);
        } else {
            assert forall|i: int| 0 <= i < s.len() implies (#[trigger] s[i]).key_spec() != k by {
                if i < s.len() - 1 {
                    assert(s.drop_last()[i] == s[i]);
                }
            }
        }
    }
}

/// `find` returns nothing where no item has the key.
pub proof fn lemma_find_none<K, I: Keyed<K>>(s: Seq<I>, k: K)
    requires
        forall|i: int| 0 <= i < s.len() ==> (#[trigger] s[i]).key_spec() != k,
    ensures
        find(s, k) is None,
{
    lemma_find(s, k);
    if let Some(x) = find(s, k) {
        let i = choose|i: int| 0 <= i < s.len() && s[i] == x;
        assert(s[i].key_spec() == k);
    }
}

/// `find` returns the item at a position where that item has the key and no
/// later item has it.
pub proof fn lemma_find_last<K, I: Keyed<K>>(s: Seq<I>, i: int, k: K)
    requires
        0 <= i < s.len(),
        s[i].key_spec() == k,
        forall|j: int| i < j < s.len() ==> (#[trigger] s[j]).key_spec() != k,
    ensures
        find(s, k) == Some(s[i]),
    decreases s.len(),
{
    if i == s.len() - 1 {
    } else {
        assert(s[s.len() - 1].key_spec() != k);
        let front = s.drop_last();
        assert forall|j: int| i < j < front.len() implies (#[trigger] front[j]).key_spec() != k by {
            assert(front[j] == s[j]);
        }
        lemma_find_last(front, i, k);
    }
}

/// Keys that ascend strictly still do so behind a new greatest key.
pub proof fn lemma_strict_push<K: Ord, I: Keyed<K>>(s: Seq<I>, x: I)
    requires
        strictly_ascending(keys_of(s)),
        forall|j: int| 0 <= j < s.len() ==> below((#[trigger] s[j]).key_spec(), x.key_spec()),
    ensures
        strictly_ascending(keys_of(s.push(x))),
{
    let t = s.push(x);
    assert forall|i: int, j: int| 0 <= i < j < keys_of(t).len() implies below(
        #[trigger] keys_of(t)[i],
        #[trigger] keys_of(t)[j],
    ) by {
        if j < s.len() {
            assert(below(keys_of(s)[i], keys_of(s)[j]));
        } else {
            assert(below(s[i].key_spec(), x.key_spec()));
        }
    }
}

/// Among strictly ascending keys, the item at a position is the one that
/// `find` returns for its key.
pub proof fn lemma_find_at<K: Ord, I: Keyed<K>>(s: Seq<I>, i: int)
    requires
        lawful_order::<K>(),
        strictly_ascending(keys_of(s)),
        0 <= i < s.len(),
    ensures
        find(s, s[i].key_spec()) == Some(s[i]),
    decreases s.len(),
{
    lemma_order_laws::<K>();
    if i == s.len() - 1 {
    } else {
        assert(below(keys_of(s)[i], keys_of(s)[s.len() - 1]));
        let front = s.drop_last();
        assert forall|a: int, b: int| 0 <= a < b < front.len() implies below(
            #[trigger] keys_of(front)[a],
            #[trigger] keys_of(front)[b],
        ) by {
            assert(below(keys_of(s)[a], keys_of(s)[b]));
        }
        lemma_find_at(front, i);
    }
}

/// The values under a key in a concatenation.
pub proof fn lemma_keyed_add<K, V>(a: Seq<(K, V)>, b: Seq<(K, V)>, k: K)
    ensures
        keyed(a + b, k) == keyed(a, k) + keyed(b, k),
    decreases b.len(),
{
    if b.len() == 0 {
        assert(a + b =~= a);
        assert(keyed(a, k) + keyed(b, k) =~= keyed(a, k));
    } else {
        assert((a + b).drop_last() =~= a + b.drop_last());
        lemma_keyed_add(a, b.drop_last(), k);
        if b.last().0 == k {
            assert(keyed(a, k) + keyed(b.drop_last(), k).push(b.last().1) =~= (keyed(a, k) + keyed(
                b.drop_last(),
                k,
            )).push(b.last().1));
        }
    }
}

/// The values under a key in a sequence of one item.
pub proof fn lemma_keyed_one<K, V>(x: (K, V), k: K)
    ensures
        keyed(seq![x], k) == if x.0 == k {
            seq![x.1]
        } else {
            Seq::<V>::empty()
        },
{
    let s = seq![x];
    assert(s.drop_last() =~= Seq::<(K, V)>::empty());
    assert(keyed(s.drop_last(), k) =~= Seq::<V>::empty());
    assert(s.last() == x);
    if x.0 == k {
        assert(keyed(s, k) =~= seq![x.1]);
    }
}

/// A key has values in `s` exactly if an item of `s` has that key, and each
/// of them is the value of such an item.
pub proof fn lemma_keyed_items<K, V>(s: Seq<(K, V)>, k: K)
    ensures
        keyed(s, k).len() > 0 <==> exists|i: int| 0 <= i < s.len() && (#[trigger] s[i]).0 == k,
        forall|j: int|
            0 <= j < keyed(s, k).len() ==> s.contains((k, #[trigger] keyed(s, k)[j])),
        keyed(s, k).len() <= s.len(),
    decreases s.len(),
{
    if s.len() == 0 {
    } else {
        let front = s.drop_last();
        lemma_keyed_items(front, k);
        if s.last().0 == k {
            assert(s[s.len() - 1].0 == k);
        } else {
            if keyed(s, k).len() > 0 {
                let i = choose|i: int| 0 <= i < front.len() && (#[trigger] front[i]).0 == k;
                assert(s[i].0 == k);
            }
            if exists|i: int| 0 <= i < s.len() && (#[trigger] s[i]).0 == k {
                let i = choose|i: int| 0 <= i < s.len() && (#[trigger] s[i]).0 == k;
                assert(front[i].0 == k);
            }
        }
        assert forall|j: int| 0 <= j < keyed(s, k).len() implies s.contains(
            (k, #[trigger] keyed(s, k)[j]),
        ) by {
            if j < keyed(front, k).len() {
                let v = keyed(front, k)[j];
                assert(front.contains((k, v)));
                let i = choose|i: int| 0 <= i < front.len() && front[i] == (k, v);
                assert(s[i] == (k, v));
            } else {
                assert(s[s.len() - 1] == s.last());
            }
        }
    }
}

/// Among strictly ascending keys a key has at most one value, the one that
/// `find` returns.
pub proof fn lemma_keyed_strict<K: Ord, V>(s: Seq<(K, V)>, k: K)
    requires
        lawful_order::<K>(),
        strictly_ascending(keys_of(s)),
    ensures
        keyed(s, k) == match find(s, k) {
            Some(x) => seq![x.1],
            None => Seq::<V>::empty(),
        },
    decreases s.len(),
{
    lemma_order_laws::<K>();
    if s.len() == 0 {
    } else {
        let front = s.drop_last();
        assert forall|a: int, b: int| 0 <= a < b < front.len() implies below(
            #[trigger] keys_of(front)[a],
            #[trigger] keys_of(front)[b],
        ) by {
            assert(below(keys_of(s)[a], keys_of(s)[b]));
        }
        lemma_keyed_strict(front, k);
        if s.last().0 == k {
            lemma_find(front, k);
            if let Some(x) = find(front, k) {
                let i = choose|i: int| 0 <= i < front.len() && front[i] == x;
                assert(below(keys_of(s)[i], keys_of(s)[s.len() - 1]));
            }
            assert(keyed(s, k) =~= seq![s.last().1]);
        }
    }
}

/// The values under a key among the items routed between two bounds.
pub proof fn lemma_keyed_routed<K: Ord, V>(s: Seq<(K, V)>, lo: Option<K>, hi: Option<K>, k: K)
    ensures
        keyed(routed(s, lo, hi), k) == if in_range(k, lo, hi) {
            keyed(s, k)
        } else {
            Seq::<V>::empty()
        },
    decreases s.len(),
{
    if s.len() == 0 {
    } else {
        let front = s.drop_last();
        lemma_keyed_routed(front, lo, hi, k);
        if in_range(s.last().0, lo, hi) {
            assert(routed(s, lo, hi).drop_last() =~= routed(front, lo, hi));
        }
    }
}

/// The items routed between two bounds are items of the sequence, with keys
/// between the bounds, and hold every such item.
pub proof fn lemma_routed_items<K: Ord, V>(s: Seq<(K, V)>, lo: Option<K>, hi: Option<K>)
    ensures
        all_in_range(keys_of(routed(s, lo, hi)), lo, hi),
        forall|i: int|
            0 <= i < routed(s, lo, hi).len() ==> s.contains(#[trigger] routed(s, lo, hi)[i]),
        forall|i: int|
            0 <= i < s.len() && in_range((#[trigger] s[i]).0, lo, hi) ==> routed(
                s,
                lo,
                hi,
            ).contains(s[i]),
        routed(s, lo, hi).len() <= s.len(),
    decreases s.len(),
{
    if s.len() == 0 {
    } else {
        let front = s.drop_last();
        let r = routed(s, lo, hi);
        let rf = routed(front, lo, hi);
        lemma_routed_items(front, lo, hi);
        assert forall|i: int| 0 <= i < r.len() implies s.contains(#[trigger] r[i]) && in_range(
            keys_of(r)[i],
            lo,
            hi,
        ) by {
            if i < rf.len() {
                assert(r[i] == rf[i]);
                assert(keys_of(rf)[i] == rf[i].0);
                let j = choose|j: int| 0 <= j < front.len() && front[j] == rf[i];
                assert(s[j] == r[i]);
            } else {
                assert(s[s.len() - 1] == r[i]);
            }
        }
        assert forall|i: int| 0 <= i < s.len() && in_range((#[trigger] s[i]).0, lo, hi) implies r.contains(
            s[i],
        ) by {
            if i < s.len() - 1 {
                assert(front[i] == s[i]);
                let j = choose|j: int| 0 <= j < rf.len() && rf[j] == front[i];
                assert(r[j] == s[i]);
            } else {
                assert(r[r.len() - 1] == s[i]);
            }
        }
    }
}

/// `find` in a concatenation: the last part that has the key decides.
pub proof fn lemma_find_add<K, I: Keyed<K>>(a: Seq<I>, b: Seq<I>, k: K)
    ensures
        find(a + b, k) == match find(b, k) {
            Some(x) => Some(x),
            None => find(a, k),
        },
    decreases b.len(),
{
    if b.len() == 0 {
        assert(a + b =~= a);
    } else {
        assert((a + b).drop_last() =~= a + b.drop_last());
        lemma_find_add(a, b.drop_last(), k);
    }
}

/// Where the items with keys between two bounds stand together, they are the
/// items routed between those bounds.
pub proof fn lemma_routed_window<K: Ord, V>(
    s: Seq<(K, V)>,
    from: int,
    to: int,
    lo: Option<K>,
    hi: Option<K>,
)
    requires
        0 <= from <= to <= s.len(),
        forall|i: int| 0 <= i < from ==> !in_range((#[trigger] s[i]).0, lo, hi),
        forall|i: int| from <= i < to ==> in_range((#[trigger] s[i]).0, lo, hi),
        forall|i: int| to <= i < s.len() ==> !in_range((#[trigger] s[i]).0, lo, hi),
    ensures
        routed(s, lo, hi) == s.subrange(from, to),
    decreases s.len(),
{
    if s.len() == 0 {
        assert(s.subrange(from, to) =~= Seq::<(K, V)>::empty());
    } else {
        let front = s.drop_last();
        if to == s.len() && from < to {
            lemma_routed_window(front, from, to - 1, lo, hi);
            assert(in_range(s[s.len() - 1].0, lo, hi));
            assert(s.subrange(from, to) =~= front.subrange(from, to - 1).push(s.last()));
        } else if to == s.len() {
            lemma_routed_window(front, from - 1, to - 1, lo, hi);
            assert(!in_range(s[s.len() - 1].0, lo, hi));
            assert(s.subrange(from, to) =~= Seq::<(K, V)>::empty());
            assert(front.subrange(from - 1, to - 1) =~= Seq::<(K, V)>::empty());
        } else {
            lemma_routed_window(front, from, to, lo, hi);
            assert(!in_range(s[s.len() - 1].0, lo, hi));
            assert(s.subrange(from, to) =~= front.subrange(from, to));
        }
    }
}

/// Two sequences that hold the same values under every key have items with
/// the same keys.
pub proof fn lemma_same_runs_keys<K, V>(a: Seq<(K, V)>, b: Seq<(K, V)>)
    requires
        same_runs(a, b),
    ensures
        forall|i: int|
            0 <= i < a.len() ==> exists|j: int| 0 <= j < b.len() && (#[trigger] b[j]).0 == (
            #[trigger] a[i]).0,
        a.len() == 0 <==> b.len() == 0,
{
    assert forall|i: int| 0 <= i < a.len() implies exists|j: int|
        0 <= j < b.len() && (#[trigger] b[j]).0 == (#[trigger] a[i]).0 by {
        let k = a[i].0;
        lemma_keyed_items(a, k);
        lemma_keyed_items(b, k);
        assert(keyed(a, k) == keyed(b, k));
    }
    if a.len() == 0 && b.len() > 0 {
        let k = b[0].0;
        lemma_keyed_items(a, k);
        lemma_keyed_items(b, k);
        assert(keyed(a, k) == keyed(b, k));
    }
    if a.len() > 0 {
        let j = choose|j: int| 0 <= j < b.len() && (#[trigger] b[j]).0 == a[0].0;
    }
}

/// The last value under a key is the value of the item that `find` returns.
pub proof fn lemma_keyed_last<K, V>(s: Seq<(K, V)>, k: K)
    ensures
        keyed(s, k).len() > 0 <==> find(s, k) is Some,
        find(s, k) matches Some(x) ==> keyed(s, k).last() == x.1,
    decreases s.len(),
{
    if s.len() == 0 {
    } else {
        lemma_keyed_last(s.drop_last(), k);
    }
}

/// Changing the value of an item changes what is held under its key alone.
pub proof fn lemma_keyed_update<K, V>(s: Seq<(K, V)>, i: int, v: V, k: K)
    requires
        0 <= i < s.len(),
        k != s[i].0,
    ensures
        keyed(s.update(i, (s[i].0, v)), k) == keyed(s, k),
    decreases s.len(),
{
    let t = s.update(i, (s[i].0, v));
    if i == s.len() - 1 {
        assert(t.drop_last() =~= s.drop_last());
    } else {
        lemma_keyed_update(s.drop_last(), i, v, k);
        assert(t.drop_last() =~= s.drop_last().update(i, (s[i].0, v)));
    }
}

} // verus!
