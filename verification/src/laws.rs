//! What holds of the map across several operations, and of the relations
//! in which the operations state what they do.
//!
//! The laws on reads and writes speak of maps before and after operations
//! through `reads` and `inserts`, which say what `get` and `insert` ensure.
//! The others spell out what `joined`, `split` and `after_read` fix: where
//! a pair goes in the buffer, how many items a split leaves where, and what
//! a read leaves of the buffer of the root.
use crate::before::{comes_before, is_last_before, value_before};
use crate::items::{flat, unfolded, Item};
use crate::map::{after_read, grown, inserts, read_by, reads, BeeMap, Level};
use crate::meaning::refines;
use crate::node::{arrived, arrived_sorted, joined, joined_sorted, Branch, B};
use crate::order::{at_most, lawful_order, lemma_order_laws};
use crate::process::{half, split, stride};
use crate::search::Station;
use crate::seqs::{all_at_most, ascending, keys_of};
use crate::stock::{lemma_bag_dom, lemma_stock_count};
use vstd::arithmetic::div_mod::lemma_mod_multiples_vanish;
use vstd::prelude::*;

verus! {

/// The map has counted what it holds: `len` is the number of values that
/// wait, the values under every key together.
pub proof fn law_len_counts_waiting<K: Ord, V>(map: BeeMap<K, V>)
    requires
        lawful_order::<K>(),
        map.wf(),
    ensures
        map.len_spec() == map.held().len(),
        forall|k: K| #[trigger] map.held().count(k) == map.waiting(k).len(),
{
    assert forall|k: K| #[trigger] map.held().count(k) == map.waiting(k).len() by {
        lemma_stock_count(map.root, Seq::empty(), k, None, None);
        assert(crate::seqs::keyed(Seq::<(K, V)>::empty(), k) =~= Seq::<V>::empty());
    }
}

/// Where one pair arrives at the buffer of the root: it goes in front where
/// the buffered pairs are known to be in order and the first of them has no
/// smaller key, else behind them; and the buffer is known to be in order
/// afterwards where it was before and the pair went in front, or has a key
/// no smaller than the last.
pub proof fn law_single_arrival<K: Ord, V>(map: BeeMap<K, V>, key: K, value: V)
    requires
        lawful_order::<K>(),
        map.wf(),
    ensures
        joined(map.buffered(), map.buffered_in_order(), seq![(key, value)]) == arrived(
            map.buffered(),
            map.buffered_in_order(),
            key,
            value,
        ),
        joined_sorted(map.buffered(), map.buffered_in_order(), seq![(key, value)])
            == arrived_sorted(map.buffered(), map.buffered_in_order(), key),
{
    lemma_order_laws::<K>();
    let buf = map.buffered();
    let one = seq![(key, value)];
    let keys = keys_of(buf);
    assert(keys_of(one)[0] == key);
    assert(buf + one =~= buf.push((key, value)));
    if map.buffered_in_order() && buf.len() > 0 {
        assert(ascending(keys));
        assert(keys[0] == buf[0].0);
        assert(keys[keys.len() - 1] == buf.last().0);
        if at_most(key, buf[0].0) {
            assert forall|i: int, j: int| 0 <= i < 1 && 0 <= j < keys.len() implies at_most(
                #[trigger] keys_of(one)[i],
                #[trigger] keys[j],
            ) by {
                assert(at_most(keys[0], keys[j]));
            }
        }
        if at_most(buf.last().0, key) {
            assert forall|i: int, j: int| 0 <= i < keys.len() && 0 <= j < 1 implies at_most(
                #[trigger] keys[i],
                #[trigger] keys_of(one)[j],
            ) by {
                assert(at_most(keys[i], keys[keys.len() - 1]));
            }
        }
        if all_at_most(keys_of(one), keys) {
            assert(at_most(keys_of(one)[0], keys[0]));
        }
        if all_at_most(keys, keys_of(one)) {
            assert(at_most(keys[keys.len() - 1], keys_of(one)[0]));
        }
    }
}

/// Where every item that went into a merge came out of it, their number
/// fixes how the split parts them. Up to `B` items stay in the array. Of
/// more, 75 stay; every 76th after them is promoted to a branch as long as
/// more than 75 follow it; 75 items are filed under every branch but the
/// last, and the rest under the last.
pub proof fn law_split_sizes<K, V, I: Item<K, V>>(own: Seq<I>, bs: Seq<Branch<K, V>>, total: int)
    requires
        split::<K, V, I>(own, bs, total, total),
    ensures
        total <= B ==> bs.len() == 0 && own.len() == total,
        total > B ==> {
            &&& own.len() == 75
            &&& bs.len() == (total - 75) / 76
            &&& bs.len() > 0
            &&& forall|i: int| 0 <= i < bs.len() - 1 ==> (#[trigger] I::run_of(bs[i])).len() == 75
            &&& I::run_of(bs[bs.len() - 1]).len() == total - 76 * bs.len()
        },
{
    let h: int = bs.len() as int;
    assert(half() == 75 && stride() == 76);
    assert(76int % 76 == 0);
    if h > 0 {
        let r: int = I::run_of(bs[h - 1]).len() as int;
        lemma_mod_multiples_vanish(h, 76, 76);
        lemma_mod_multiples_vanish(h - 1, 76, 76);
        assert(76 * (h - 1) + 75 + 1 == 76 * (h - 1) + 76);
        assert(76 * h + 75 + 1 == 76 * h + 76);
        assert(total == 76 * h + r);
        assert(76 * h <= total - 75 < 76 * h + 76);
        assert((total - 75) / 76 == h) by (nonlinear_arith)
            requires
                76 * h <= total - 75 < 76 * h + 76,
        ;
    }
}

/// The items that two lists of branches stand for, one after the other, are
/// the items that the joined list stands for.
pub proof fn lemma_unfolded_add<K, V, I: Item<K, V>>(a: Seq<Branch<K, V>>, b: Seq<Branch<K, V>>)
    ensures
        unfolded::<K, V, I>(a + b) == unfolded::<K, V, I>(a) + unfolded::<K, V, I>(b),
    decreases b.len(),
{
    if b.len() == 0 {
        assert(a + b =~= a);
        assert(unfolded::<K, V, I>(a) + unfolded::<K, V, I>(b) =~= unfolded::<K, V, I>(a));
    } else {
        lemma_unfolded_add::<K, V, I>(a, b.drop_last());
        assert((a + b).drop_last() =~= a + b.drop_last());
        assert((a + b).last() == b.last());
        assert(unfolded::<K, V, I>(a + b) =~= unfolded::<K, V, I>(a) + unfolded::<K, V, I>(b));
    }
}

/// Branches under each of which 75 items were filed stand for 76 items
/// each.
pub proof fn lemma_unfolded_full<K, V, I: Item<K, V>>(bs: Seq<Branch<K, V>>)
    requires
        forall|i: int| 0 <= i < bs.len() ==> (#[trigger] I::run_of(bs[i])).len() == 75,
    ensures
        unfolded::<K, V, I>(bs).len() == 76 * bs.len(),
    decreases bs.len(),
{
    if bs.len() > 0 {
        assert forall|i: int| 0 <= i < bs.drop_last().len() implies (#[trigger] I::run_of(
            bs.drop_last()[i],
        )).len() == 75 by {
            assert(bs.drop_last()[i] == bs[i]);
        }
        lemma_unfolded_full::<K, V, I>(bs.drop_last());
    }
}

/// Where the items stand after a split. Counted from 0 in their order, the
/// first 75 are in the array, branch `j` was promoted from item
/// `75 + 76 * j`, and the items that follow it are filed under it.
pub proof fn law_split_places<K, V, I: Item<K, V>>(
    own: Seq<I>,
    bs: Seq<Branch<K, V>>,
    count: int,
    total: int,
    j: int,
)
    requires
        split::<K, V, I>(own, bs, count, total),
        0 <= j < bs.len(),
    ensures
        own.len() == 75,
        76 * (j + 1) + I::run_of(bs[j]).len() <= flat::<K, V, I>(own, bs).len(),
        flat::<K, V, I>(own, bs).subrange(0, 75) == own,
        flat::<K, V, I>(own, bs)[75 + 76 * j] == I::head_of(bs[j]),
        flat::<K, V, I>(own, bs).subrange(
            76 * (j + 1),
            76 * (j + 1) + I::run_of(bs[j]).len(),
        ) == I::run_of(bs[j]),
{
    assert(half() == 75 && stride() == 76);
    let front = bs.subrange(0, j);
    let one = seq![bs[j]];
    let back = bs.subrange(j + 1, bs.len() as int);
    assert(bs =~= (front + one) + back);
    lemma_unfolded_add::<K, V, I>(front + one, back);
    lemma_unfolded_add::<K, V, I>(front, one);
    assert forall|i: int| 0 <= i < front.len() implies (#[trigger] I::run_of(front[i])).len()
        == 75 by {
        assert(front[i] == bs[i]);
    }
    lemma_unfolded_full::<K, V, I>(front);
    assert(one.drop_last() =~= Seq::<Branch<K, V>>::empty());
    assert(one.last() == bs[j]);
    assert(unfolded::<K, V, I>(one.drop_last()) =~= Seq::<I>::empty());
    assert(unfolded::<K, V, I>(one) =~= seq![I::head_of(bs[j])] + I::run_of(bs[j]));
    let f = flat::<K, V, I>(own, bs);
    assert(f =~= own + ((unfolded::<K, V, I>(front) + unfolded::<K, V, I>(one)) + unfolded::<
        K,
        V,
        I,
    >(back)));
    assert(f.subrange(0, 75) =~= own);
    assert(f.subrange(76 * (j + 1), 76 * (j + 1) + I::run_of(bs[j]).len()) =~= I::run_of(bs[j]));
}

/// A read leaves the buffer of the root empty, and known to be in order
/// where it was known to be in order before the read.
pub proof fn law_read_empties_buffer<K: Ord, V>(
    pre: BeeMap<K, V>,
    post: BeeMap<K, V>,
    key: K,
    past: bool,
)
    requires
        after_read(pre, post, key, past),
    ensures
        post.buffered() == Seq::<(K, V)>::empty(),
        pre.buffered_in_order() ==> post.buffered_in_order(),
{
    let (way, levels) = choose|way: Seq<Station<K, V>>, levels: Seq<Level<K, V>>|
        read_by(pre, post, key, past, way, levels);
    let last = levels.len() - 1;
    if last > 0 {
        assert(grown(
            levels[last - 1].root,
            levels[last - 1].came_up,
            levels[last].root,
            levels[last].came_up,
        ));
    }
    assert(post.buffered() =~= Seq::<(K, V)>::empty());
}

/// No more keys are bound than the map holds pairs: `len` is an upper bound
/// of the number of bound keys. It is that number where no key has more than
/// one value waiting.
pub proof fn law_len_bounds_keys<K: Ord, V>(map: BeeMap<K, V>)
    requires
        lawful_order::<K>(),
        map.wf(),
    ensures
        map@.dom().finite(),
        map@.dom().len() <= map.len_spec(),
        map.reconciled() ==> map@.dom().len() == map.len_spec(),
{
    law_len_counts_waiting(map);
    lemma_bag_dom(map.held());
    assert(map@.dom() =~= map.held().dom());
    if map.reconciled() {
        assert forall|k: K| map.held().count(k) <= 1 by {
            assert(map.waiting(k).len() <= 1);
        }
    }
}

/// A key is bound exactly if a value waits under it, and the value that it
/// is bound to is one of those that wait under it: of the values inserted
/// under one key, at most one wins.
pub proof fn law_bound_value_waits<K: Ord, V>(map: BeeMap<K, V>, k: K)
    ensures
        map@.contains_key(k) <==> map.pending(k).len() > 0,
        map@.contains_key(k) ==> map.pending(k).count(map@[k]) > 0,
{
    map.waiting(k).to_multiset_ensures();
    if map.waiting(k).len() > 0 {
        assert(map.waiting(k).contains(map.waiting(k)[map.waiting(k).len() - 1]));
    }
}

/// Reading a key twice gives the same result twice.
pub proof fn law_read_twice<K: Ord, V>(
    s0: BeeMap<K, V>,
    s1: BeeMap<K, V>,
    s2: BeeMap<K, V>,
    k: K,
    first: Option<V>,
    second: Option<V>,
)
    requires
        reads(s0, s1, k, first),
        reads(s1, s2, k, second),
    ensures
        first == second,
{
}

/// Reading a key does not change what a read of any key gives: the result
/// of reading `j` after `k` was read is the result of reading `j` at once.
pub proof fn law_read_leaves_reads<K: Ord, V>(
    s0: BeeMap<K, V>,
    s1: BeeMap<K, V>,
    s2: BeeMap<K, V>,
    s3: BeeMap<K, V>,
    k: K,
    j: K,
    of_k: Option<V>,
    after: Option<V>,
    at_once: Option<V>,
)
    requires
        reads(s0, s1, k, of_k),
        reads(s1, s2, j, after),
        reads(s0, s3, j, at_once),
    ensures
        after == at_once,
{
}

/// A value inserted under a key, where nothing waits in a buffer on the way
/// to that key, is what the next read of the key gives. Nothing waits on the
/// way to any key in a new map, nor on the way to a key that was just read.
pub proof fn law_write_then_read<K: Ord, V>(
    s0: BeeMap<K, V>,
    s1: BeeMap<K, V>,
    s2: BeeMap<K, V>,
    k: K,
    v: V,
    result: Option<V>,
)
    requires
        s0.settled(k),
        inserts(s0, s1, k, v),
        reads(s1, s2, k, result),
    ensures
        result == Some(v),
{
}

/// A value inserted under a key under which nothing waits is what the next
/// read of the key gives.
pub proof fn law_first_write_then_read<K: Ord, V>(
    s0: BeeMap<K, V>,
    s1: BeeMap<K, V>,
    s2: BeeMap<K, V>,
    k: K,
    v: V,
    result: Option<V>,
)
    requires
        !s0@.contains_key(k),
        inserts(s0, s1, k, v),
        reads(s1, s2, k, result),
    ensures
        result == Some(v),
{
    broadcast use vstd::multiset::group_multiset_axioms;

    s0.waiting(k).to_multiset_ensures();
    s1.waiting(k).to_multiset_ensures();
    vstd::multiset::lemma_multiset_empty_len(s0.pending(k));
    assert(s1.pending(k) == s0.pending(k).insert(v));
    assert(s1.waiting(k).len() == 1);
    assert(s1.waiting(k).contains(s1.waiting(k)[0]));
    assert(s1.pending(k).count(s1.waiting(k)[0]) > 0);
}

/// One step of a history: an insertion or a read.
pub enum Step<K, V> {
    Insert(K, V),
    Read(K),
}

/// The map of the pairs that the first `n` steps insert.
pub open spec fn inserted<K, V>(steps: Seq<Step<K, V>>, n: int) -> Map<K, V>
    decreases n,
{
    if n <= 0 {
        Map::empty()
    } else {
        match steps[n - 1] {
            Step::Insert(k, v) => inserted(steps, n - 1).insert(k, v),
            Step::Read(k) => inserted(steps, n - 1),
        }
    }
}

/// No two insertions among the steps have the same key.
pub open spec fn distinct_keys<K, V>(steps: Seq<Step<K, V>>) -> bool {
    forall|i: int, j: int|
        0 <= i < j < steps.len() ==> match (#[trigger] steps[i], #[trigger] steps[j]) {
            (Step::Insert(a, _), Step::Insert(b, _)) => a != b,
            _ => true,
        }
}

/// `states` and `results` are a history of `steps` on a new map: the first
/// state holds nothing, and each step leads from one state to the next as
/// `insert` or `get` ensures, a read with its result.
pub open spec fn history<K: Ord, V>(
    steps: Seq<Step<K, V>>,
    states: Seq<BeeMap<K, V>>,
    results: Seq<Option<V>>,
) -> bool {
    &&& states.len() == steps.len() + 1
    &&& results.len() == steps.len()
    &&& states[0]@ == Map::<K, V>::empty()
    &&& states[0].reconciled()
    &&& forall|i: int|
        0 <= i < steps.len() ==> match #[trigger] steps[i] {
            Step::Insert(k, v) => inserts(states[i], states[i + 1], k, v),
            Step::Read(k) => reads(states[i], states[i + 1], k, results[i]),
        }
}

/// Insertions under distinct keys can be read back whatever reads come
/// between them: in a history on a new map, every state binds exactly the
/// pairs inserted so far, so every read of a key gives the value inserted
/// under it, or nothing if none was.
pub proof fn law_read_your_writes<K: Ord, V>(
    steps: Seq<Step<K, V>>,
    states: Seq<BeeMap<K, V>>,
    results: Seq<Option<V>>,
    n: int,
)
    requires
        history(steps, states, results),
        distinct_keys(steps),
        0 <= n <= steps.len(),
    ensures
        states[n]@ == inserted(steps, n),
        states[n].reconciled(),
        forall|i: int|
            0 <= i < n ==> (#[trigger] steps[i] matches Step::Read(k) ==> results[i] == if inserted(
                steps,
                i,
            ).contains_key(k) {
                Some(inserted(steps, i)[k])
            } else {
                None
            }),
    decreases n,
{
    if n > 0 {
        law_read_your_writes(steps, states, results, n - 1);
        let pre = states[n - 1];
        let post = states[n];
        match steps[n - 1] {
            Step::Insert(k, v) => {
                assert(inserts(pre, post, k, v));
                lemma_inserted_keys(steps, n - 1, k);
                if inserted(steps, n - 1).contains_key(k) {
                    let i = choose|i: int|
                        0 <= i < n - 1 && (#[trigger] steps[i] matches Step::Insert(a, _) && a
                            == k);
                    assert(steps[i] is Insert && steps[n - 1] is Insert);
                }
            },
            Step::Read(k) => {
                assert(reads(pre, post, k, results[n - 1]));
                assert forall|x: K| #[trigger] post.waiting(x).len() <= 1 by {
                    assert(refines(post.waiting(x), pre.waiting(x)));
                    assert(pre.waiting(x).len() <= 1);
                }
            },
        }
    }
}

/// A key that the first `n` steps bind is the key of an insertion among
/// them.
pub proof fn lemma_inserted_keys<K, V>(steps: Seq<Step<K, V>>, n: int, k: K)
    requires
        0 <= n <= steps.len(),
    ensures
        inserted(steps, n).contains_key(k) ==> exists|i: int|
            0 <= i < n && (#[trigger] steps[i] matches Step::Insert(a, _) && a == k),
    decreases n,
{
    if n > 0 {
        lemma_inserted_keys(steps, n - 1, k);
        if inserted(steps, n).contains_key(k) {
            if inserted(steps, n - 1).contains_key(k) {
                let i = choose|i: int|
                    0 <= i < n - 1 && (#[trigger] steps[i] matches Step::Insert(a, _) && a == k);
                assert(steps[i] matches Step::Insert(a, _) && a == k);
            } else {
                assert(steps[n - 1] matches Step::Insert(a, _) && a == k);
            }
        }
    }
}

/// An inclusive read of the value before a key gives the value of the key
/// where the key is bound, and else what a read of the value before the key
/// gives.
pub proof fn law_inclusive_before<K: Ord, V>(
    m: Map<K, V>,
    key: K,
    inclusive: Option<V>,
    exclusive: Option<V>,
)
    requires
        lawful_order::<K>(),
        value_before(m, key, true, inclusive),
        value_before(m, key, false, exclusive),
    ensures
        inclusive == if m.contains_key(key) {
            Some(m[key])
        } else {
            exclusive
        },
{
    lemma_order_laws::<K>();
    if m.contains_key(key) {
        assert(comes_before(key, key, true));
        match inclusive {
            Some(v) => {
                let k = choose|k: K| #[trigger] is_last_before(m, key, true, k) && v == m[k];
                assert(at_most(key, k));
            },
            None => {},
        }
    } else {
        match (inclusive, exclusive) {
            (Some(v), Some(w)) => {
                let k = choose|k: K| #[trigger] is_last_before(m, key, true, k) && v == m[k];
                let j = choose|j: K| #[trigger] is_last_before(m, key, false, j) && w == m[j];
                assert(comes_before(j, key, true));
                assert(comes_before(k, key, false));
                assert(at_most(j, k) && at_most(k, j));
            },
            (Some(v), None) => {
                let k = choose|k: K| #[trigger] is_last_before(m, key, true, k) && v == m[k];
                assert(comes_before(k, key, false));
            },
            (None, Some(w)) => {
                let j = choose|j: K| #[trigger] is_last_before(m, key, false, j) && w == m[j];
                assert(comes_before(j, key, true));
            },
            (None, None) => {},
        }
    }
}

} // verus!
