//! Merging what arrived into an array, and splitting an array that grew too
//! long.
//!
//! `process_buffer` merges the items of an array with items that arrived in
//! ascending order. Of several items with one key the last to arrive stays,
//! and an item that arrived replaces the array's item with its key. Where
//! the result is too long for one array, every `B / 2 + 1`-th item is promoted
//! to a branch and the items behind it move into that branch's child, as long
//! as more than `B / 2` items are still to come.
use crate::items::{flat, unfolded, Item};
use crate::locate::locate;
use crate::node::{B, Branch};
use crate::order::{at_most, below, compare, lawful_order, lemma_order_laws, Rank};
use crate::seqs::{
    ascending, find, keys_of, lemma_find, lemma_find_at, lemma_find_last, lemma_find_none,
    lemma_find_push, lemma_strict_push, strictly_ascending, Keyed,
};
use crate::vec_slicer::VecSlicer;
use vstd::arithmetic::div_mod::lemma_mod_multiples_vanish;
use vstd::prelude::*;

verus! {

/// The item that stays under `k` when `arrived` is merged into `held`.
pub open spec fn target<K, I: Keyed<K>>(held: Seq<I>, arrived: Seq<I>, k: K) -> Option<I> {
    match find(arrived, k) {
        Some(x) => Some(x),
        None => find(held, k),
    }
}

/// `out` is `arrived` merged into `held`: its keys ascend strictly, and under
/// each key it holds the item that stays.
pub open spec fn merged<K: Ord, I: Keyed<K>>(held: Seq<I>, arrived: Seq<I>, out: Seq<I>) -> bool {
    &&& strictly_ascending(keys_of(out))
    &&& forall|k: K| #[trigger] find(out, k) == target(held, arrived, k)
}

/// Half the capacity of an array.
pub open spec fn half() -> int {
    B as int / 2
}

/// The distance from one promoted item to the next.
pub open spec fn stride() -> int {
    half() + 1
}

/// Whether the item with number `position` is promoted, where `total` items
/// went into the merge.
pub open spec fn promotes(total: int, position: int) -> bool {
    (position + 1) % stride() == 0 && total - position > half()
}

/// `own` and `bs` are what the first `count` merged items make: the items are
/// counted from 0, those that `promotes` names are the heads of `bs`, and each
/// of the others stands behind the last head before it, or in `own`.
pub open spec fn split<K, V, I: Item<K, V>>(
    own: Seq<I>,
    bs: Seq<Branch<K, V>>,
    count: int,
    total: int,
) -> bool {
    let h = bs.len() as int;
    &&& 0 <= count <= total
    &&& count == flat::<K, V, I>(own, bs).len()
    &&& forall|i: int| 0 <= i < h ==> I::shaped(#[trigger] bs[i])
    &&& if h == 0 {
        &&& count == own.len()
        &&& (count <= half() || !promotes(total, half()))
    } else {
        let r = I::run_of(bs[h - 1]).len() as int;
        &&& own.len() == half()
        &&& forall|i: int| 0 <= i < h - 1 ==> (#[trigger] I::run_of(bs[i])).len() == half()
        &&& count == stride() * h + r
        &&& promotes(total, stride() * (h - 1) + half())
        &&& (r <= half() || !promotes(total, stride() * h + half()))
    }
}

/// `unfolded` of a list that ends in `b`.
pub(crate) proof fn lemma_unfolded_push<K, V, I: Item<K, V>>(bs: Seq<Branch<K, V>>, b: Branch<K, V>)
    ensures
        unfolded::<K, V, I>(bs.push(b)) == unfolded::<K, V, I>(bs).push(I::head_of(b)) + I::run_of(
            b,
        ),
{
    assert(bs.push(b).drop_last() =~= bs);
}

/// No array of a split holds more than `B` items.
pub(crate) proof fn lemma_split_fits<K, V, I: Item<K, V>>(
    own: Seq<I>,
    bs: Seq<Branch<K, V>>,
    count: int,
    total: int,
)
    requires
        split::<K, V, I>(own, bs, count, total),
    ensures
        own.len() <= B,
        forall|i: int| 0 <= i < bs.len() ==> (#[trigger] I::run_of(bs[i])).len() <= B,
        stride() * bs.len() <= total,
        total <= B ==> bs.len() == 0,
{
    let h = bs.len() as int;
    assert(half() == 75 && stride() == 76);
    if h > 0 {
        let r = I::run_of(bs[h - 1]).len() as int;
        lemma_mod_multiples_vanish(h, 76, 76);
        assert(stride() * h + half() + 1 == 76 * h + 76);
        assert forall|i: int| 0 <= i < bs.len() implies (#[trigger] I::run_of(bs[i])).len()
            <= B by {
            if i < h - 1 {
            } else {
                assert(r <= B);
            }
        }
    }
}

/// Puts the next merged item where it belongs: at the head of a new branch
/// if it is promoted, else behind the last head, or into `own` while there is
/// no head.
fn apply<K, V, I: Item<K, V>>(
    item: I,
    counter: &mut u128,
    total_count: u128,
    own: &mut Vec<I>,
    result: &mut Vec<Branch<K, V>>,
)
    requires
        split::<K, V, I>(old(own)@, old(result)@, *old(counter) as int, total_count as int),
        *old(counter) < total_count,
        total_count < u128::MAX,
    ensures
        split::<K, V, I>(final(own)@, final(result)@, *final(counter) as int, total_count as int),
        *final(counter) == *old(counter) + 1,
        flat::<K, V, I>(final(own)@, final(result)@) == flat::<K, V, I>(
            old(own)@,
            old(result)@,
        ).push(item),
{
    let ghost own0 = own@;
    let ghost bs0 = result@;
    let ghost f0 = flat::<K, V, I>(own0, bs0);
    let ghost h = bs0.len() as int;
    proof {
        assert(half() == 75 && stride() == 76);
        if h > 0 {
            let r = I::run_of(bs0[h - 1]).len() as int;
            lemma_mod_multiples_vanish(h, r + 1, 76);
            lemma_mod_multiples_vanish(h, 76, 76);
            lemma_mod_multiples_vanish(h + 1, 76, 76);
            assert(stride() * h + half() + 1 == 76 * h + 76);
            assert(stride() * (h + 1) + half() + 1 == 76 * (h + 1) + 76);
            assert(*counter + 1 == 76 * h + (r + 1));
        }
    }
    if (*counter + 1) % (B as u128 / 2 + 1) == 0 && total_count - *counter > B as u128 / 2 {
        let branch = item.promote();
        result.push(branch);
        proof {
            lemma_unfolded_push::<K, V, I>(bs0, branch);
            assert(flat::<K, V, I>(own@, result@) =~= f0.push(item));
            assert forall|i: int| 0 <= i < h implies (#[trigger] I::run_of(result@[i])).len()
                == half() by {
                assert(result@[i] == bs0[i]);
            }
        }
    } else if result.len() == 0 {
        own.push(item);
        proof {
            assert(unfolded::<K, V, I>(bs0) =~= Seq::<I>::empty());
            assert(flat::<K, V, I>(own@, result@) =~= f0.push(item));
        }
    } else {
        let n = result.len();
        let mut last = result.pop().unwrap();
        let ghost front = result@;
        let ghost last0 = last;
        item.file(&mut last);
        result.push(last);
        proof {
            assert(bs0 =~= front.push(last0));
            lemma_unfolded_push::<K, V, I>(front, last0);
            lemma_unfolded_push::<K, V, I>(front, last);
            assert(flat::<K, V, I>(own@, result@) =~= f0.push(item));
            assert forall|i: int| 0 <= i < h - 1 implies (#[trigger] I::run_of(result@[i])).len()
                == half() by {
                assert(result@[i] == bs0[i]);
            }
            assert forall|i: int| 0 <= i < h implies I::shaped(#[trigger] result@[i]) by {
                if i < h - 1 {
                    assert(result@[i] == bs0[i]);
                }
            }
        }
    }
    *counter = *counter + 1;
}

/// How far a merge has come: `e` items of `held` and `b` items of `arrived`
/// are used up and `out` holds what they made. Every item of `out` is the one
/// that stays under its key; every used key is in `out`, but for the key of
/// the next arrived item, whose array item may have gone already; and the
/// keys of `out` are below those still to come.
pub open spec fn merging<K: Ord, I: Keyed<K>>(
    held: Seq<I>,
    arrived: Seq<I>,
    e: int,
    b: int,
    out: Seq<I>,
) -> bool {
    &&& 0 <= e <= held.len()
    &&& 0 <= b <= arrived.len()
    &&& out.len() <= e + b
    &&& strictly_ascending(keys_of(out))
    &&& forall|i: int|
        0 <= i < out.len() ==> target(held, arrived, (#[trigger] out[i]).key_spec()) == Some(
            out[i],
        )
    &&& forall|i: int| 0 <= i < b ==> find(out, (#[trigger] arrived[i]).key_spec()) is Some
    &&& forall|i: int|
        0 <= i < e ==> (find(out, (#[trigger] held[i]).key_spec()) is Some || (b < arrived.len()
            && held[i].key_spec() == arrived[b].key_spec()))
    &&& forall|j: int|
        0 <= j < out.len() ==> (e < held.len() ==> below(
            (#[trigger] out[j]).key_spec(),
            held[e].key_spec(),
        )) && (b < arrived.len() ==> below(out[j].key_spec(), arrived[b].key_spec()))
}

/// The merge may take the next item of the array where it is below the next
/// arrived item.
pub(crate) proof fn lemma_take_held<K: Ord, I: Keyed<K>>(
    held: Seq<I>,
    arrived: Seq<I>,
    e: int,
    b: int,
    out: Seq<I>,
)
    requires
        lawful_order::<K>(),
        strictly_ascending(keys_of(held)),
        ascending(keys_of(arrived)),
        merging(held, arrived, e, b, out),
        e < held.len(),
        b < arrived.len() ==> below(held[e].key_spec(), arrived[b].key_spec()),
    ensures
        merging(held, arrived, e + 1, b, out.push(held[e])),
{
    lemma_order_laws::<K>();
    let x = held[e];
    let k = x.key_spec();
    let out2 = out.push(x);
    lemma_strict_push(out, x);
    assert forall|i: int| 0 <= i < arrived.len() implies (#[trigger] arrived[i]).key_spec()
        != k by {
        if i < b {
            lemma_find(out, arrived[i].key_spec());
            let y = find(out, arrived[i].key_spec())->Some_0;
            let j = choose|j: int| 0 <= j < out.len() && out[j] == y;
            assert(below(out[j].key_spec(), k));
        } else {
            if i > b {
                assert(at_most(keys_of(arrived)[b], keys_of(arrived)[i]));
            }
            assert(keys_of(arrived)[i] == arrived[i].key_spec());
            assert(keys_of(arrived)[b] == arrived[b].key_spec());
        }
    }
    lemma_find_none(arrived, k);
    lemma_find_at(held, e);
    assert forall|i: int| 0 <= i < out2.len() implies target(
        held,
        arrived,
        (#[trigger] out2[i]).key_spec(),
    ) == Some(out2[i]) by {
        if i < out.len() {
            assert(out2[i] == out[i]);
        }
    }
    assert forall|i: int| 0 <= i < b implies find(out2, (#[trigger] arrived[i]).key_spec())
        is Some by {
        lemma_find_push(out, x, arrived[i].key_spec());
    }
    assert forall|i: int| 0 <= i < e + 1 implies (find(out2, (#[trigger] held[i]).key_spec())
        is Some || (b < arrived.len() && held[i].key_spec() == arrived[b].key_spec())) by {
        lemma_find_push(out, x, held[i].key_spec());
    }
    assert forall|j: int| 0 <= j < out2.len() implies (e + 1 < held.len() ==> below(
        (#[trigger] out2[j]).key_spec(),
        held[e + 1].key_spec(),
    )) && (b < arrived.len() ==> below(out2[j].key_spec(), arrived[b].key_spec())) by {
        if e + 1 < held.len() {
            assert(below(keys_of(held)[e], keys_of(held)[e + 1]));
        }
        if j < out.len() {
            assert(out2[j] == out[j]);
        }
    }
}

/// The merge may let the next item of the array go where the next arrived
/// item has its key.
pub(crate) proof fn lemma_drop_held<K: Ord, I: Keyed<K>>(
    held: Seq<I>,
    arrived: Seq<I>,
    e: int,
    b: int,
    out: Seq<I>,
)
    requires
        lawful_order::<K>(),
        strictly_ascending(keys_of(held)),
        merging(held, arrived, e, b, out),
        e < held.len(),
        b < arrived.len(),
        held[e].key_spec() == arrived[b].key_spec(),
    ensures
        merging(held, arrived, e + 1, b, out),
{
    lemma_order_laws::<K>();
    assert forall|j: int| 0 <= j < out.len() implies (e + 1 < held.len() ==> below(
        (#[trigger] out[j]).key_spec(),
        held[e + 1].key_spec(),
    )) && (b < arrived.len() ==> below(out[j].key_spec(), arrived[b].key_spec())) by {
        if e + 1 < held.len() {
            assert(below(keys_of(held)[e], keys_of(held)[e + 1]));
        }
    }
}

/// The merge may take the last of the next `n` arrived items where they share
/// a key that the item behind them has not, and that is below the next item of
/// the array.
pub(crate) proof fn lemma_take_arrived<K: Ord, I: Keyed<K>>(
    held: Seq<I>,
    arrived: Seq<I>,
    e: int,
    b: int,
    n: int,
    out: Seq<I>,
)
    requires
        lawful_order::<K>(),
        strictly_ascending(keys_of(held)),
        ascending(keys_of(arrived)),
        merging(held, arrived, e, b, out),
        1 <= n,
        b + n <= arrived.len(),
        forall|i: int| b <= i < b + n ==> (#[trigger] arrived[i]).key_spec() == arrived[b].key_spec(),
        b + n < arrived.len() ==> arrived[b + n].key_spec() != arrived[b].key_spec(),
        e < held.len() ==> below(arrived[b].key_spec(), held[e].key_spec()),
    ensures
        merging(held, arrived, e, b + n, out.push(arrived[b + n - 1])),
{
    lemma_order_laws::<K>();
    let x = arrived[b + n - 1];
    let k = x.key_spec();
    assert(k == arrived[b].key_spec());
    let out2 = out.push(x);
    lemma_strict_push(out, x);
    assert forall|j: int| b + n - 1 < j < arrived.len() implies (#[trigger] arrived[j]).key_spec()
        != k by {
        assert(keys_of(arrived)[j] == arrived[j].key_spec());
        assert(keys_of(arrived)[b + n] == arrived[b + n].key_spec());
        assert(keys_of(arrived)[b] == arrived[b].key_spec());
        assert(at_most(keys_of(arrived)[b], keys_of(arrived)[b + n]));
        if j > b + n {
            assert(at_most(keys_of(arrived)[b + n], keys_of(arrived)[j]));
        }
    }
    lemma_find_last(arrived, b + n - 1, k);
    assert forall|i: int| 0 <= i < out2.len() implies target(
        held,
        arrived,
        (#[trigger] out2[i]).key_spec(),
    ) == Some(out2[i]) by {
        if i < out.len() {
            assert(out2[i] == out[i]);
        }
    }
    assert forall|i: int| 0 <= i < b + n implies find(out2, (#[trigger] arrived[i]).key_spec())
        is Some by {
        lemma_find_push(out, x, arrived[i].key_spec());
    }
    assert forall|i: int| 0 <= i < e implies (find(out2, (#[trigger] held[i]).key_spec())
        is Some || (b + n < arrived.len() && held[i].key_spec() == arrived[b + n].key_spec())) by {
        lemma_find_push(out, x, held[i].key_spec());
    }
    assert forall|j: int| 0 <= j < out2.len() implies (e < held.len() ==> below(
        (#[trigger] out2[j]).key_spec(),
        held[e].key_spec(),
    )) && (b + n < arrived.len() ==> below(out2[j].key_spec(), arrived[b + n].key_spec())) by {
        if b + n < arrived.len() {
            assert(keys_of(arrived)[b + n] == arrived[b + n].key_spec());
            assert(keys_of(arrived)[b] == arrived[b].key_spec());
            assert(at_most(keys_of(arrived)[b], keys_of(arrived)[b + n]));
        }
        if j < out.len() {
            assert(out2[j] == out[j]);
        }
    }
}

/// A merge that has used everything up has merged.
pub(crate) proof fn lemma_merging_done<K: Ord, I: Keyed<K>>(held: Seq<I>, arrived: Seq<I>, out: Seq<I>)
    requires
        lawful_order::<K>(),
        merging(held, arrived, held.len() as int, arrived.len() as int, out),
    ensures
        merged(held, arrived, out),
{
    assert forall|k: K| #[trigger] find(out, k) == target(held, arrived, k) by {
        lemma_find(out, k);
        lemma_find(arrived, k);
        lemma_find(held, k);
        match find(out, k) {
            Some(y) => {
                let i = choose|i: int| 0 <= i < out.len() && out[i] == y;
                assert(target(held, arrived, out[i].key_spec()) == Some(out[i]));
            },
            None => {
                if let Some(z) = find(arrived, k) {
                    let i = choose|i: int| 0 <= i < arrived.len() && arrived[i] == z;
                    assert(find(out, arrived[i].key_spec()) is Some);
                } else if let Some(z) = find(held, k) {
                    let i = choose|i: int| 0 <= i < held.len() && held[i] == z;
                    assert(find(out, held[i].key_spec()) is Some);
                }
            },
        }
    }
}

/// Takes items from the front of `source` as long as they have the key of
/// the first, and returns the last of them.
fn take_last_of_run<K: Ord, I: Keyed<K>>(source: &mut VecSlicer<I>) -> (item: I)
    requires
        lawful_order::<K>(),
        old(source).wf(),
        old(source).start() == old(source).cursor(),
        old(source).pending().len() > 0,
    ensures
        final(source).wf(),
        final(source).start() == final(source).cursor(),
        ({
            let n = final(source).start() - old(source).start();
            let was = old(source).pending();
            &&& 1 <= n <= was.len()
            &&& final(source).pending() == was.subrange(n, was.len() as int)
            &&& item == was[n - 1]
            &&& forall|i: int| 0 <= i < n ==> (#[trigger] was[i]).key_spec() == was[0].key_spec()
            &&& n < was.len() ==> was[n].key_spec() != was[0].key_spec()
        }),
{
    let ghost was = source.pending();
    let ghost first = source.start();
    let mut item = source.take();
    assert(source.pending() =~= was.subrange(1, was.len() as int));
    while source.remaining() > 0 && matches!(
        compare(source.current().key(), item.key()),
        Rank::Same
    )
        invariant
            lawful_order::<K>(),
            source.wf(),
            source.start() == source.cursor(),
            1 <= source.start() - first <= was.len(),
            source.pending() == was.subrange(source.start() - first, was.len() as int),
            item == was[source.start() - first - 1],
            forall|i: int|
                0 <= i < source.start() - first ==> (#[trigger] was[i]).key_spec()
                    == was[0].key_spec(),
        decreases source.pending().len(),
    {
        let ghost n = source.start() - first;
        item = source.take();
        assert(source.pending() =~= was.subrange(n + 1, was.len() as int));
    }
    item
}

/// Puts `item` into `elements` at the place of its key, in place of the item
/// that has that key if there is one.
fn upsert<K: Ord, I: Keyed<K>>(elements: &mut Vec<I>, item: I)
    requires
        lawful_order::<K>(),
        strictly_ascending(keys_of(old(elements)@)),
    ensures
        strictly_ascending(keys_of(final(elements)@)),
        forall|k: K| #[trigger]
            find(final(elements)@, k) == if k == item.key_spec() {
                Some(item)
            } else {
                find(old(elements)@, k)
            },
        old(elements)@.len() <= final(elements)@.len() <= old(elements)@.len() + 1,
{
    proof {
        lemma_order_laws::<K>();
    }
    let ghost was = elements@;
    let ghost key = item.key_spec();
    let ghost at: int;
    match locate(elements, item.key()) {
        Ok(i) => {
            elements[i] = item;
            proof {
                at = i as int;
                assert forall|a: int, b: int| 0 <= a < b < elements@.len() implies below(
                    #[trigger] keys_of(elements@)[a],
                    #[trigger] keys_of(elements@)[b],
                ) by {
                    assert(below(keys_of(was)[a], keys_of(was)[b]));
                }
            }
        },
        Err(i) => {
            proof {
                crate::seqs::lemma_rank(keys_of(was), key);
            }
            elements.insert(i, item);
            proof {
                at = i as int;
                assert forall|a: int, b: int| 0 <= a < b < elements@.len() implies below(
                    #[trigger] keys_of(elements@)[a],
                    #[trigger] keys_of(elements@)[b],
                ) by {
                    let a0 = if a < i { a } else { a - 1 };
                    let b0 = if b < i { b } else { b - 1 };
                    if a != i && b != i {
                        assert(below(keys_of(was)[a0], keys_of(was)[b0]));
                    } else if a == i {
                        assert(!below(keys_of(was)[b0], key));
                        assert(was[b0].key_spec() != key);
                    } else {
                        assert(below(keys_of(was)[a0], key));
                    }
                }
            }
        },
    }
    proof {
        let now = elements@;
        assert(now[at] == item);
        assert forall|k: K| #[trigger]
            find(now, k) == if k == key {
                Some(item)
            } else {
                find(was, k)
            } by {
            if k == key {
                lemma_find_at(now, at);
            } else {
                lemma_find(was, k);
                lemma_find(now, k);
                match find(was, k) {
                    Some(x) => {
                        let j = choose|j: int| 0 <= j < was.len() && was[j] == x;
                        let j2 = if now.len() == was.len() || j < at { j } else { j + 1 };
                        assert(now[j2] == x);
                        lemma_find_at(now, j2);
                    },
                    None => {
                        if let Some(y) = find(now, k) {
                            let j = choose|j: int| 0 <= j < now.len() && now[j] == y;
                            let j0 = if now.len() == was.len() || j < at { j } else { j - 1 };
                            assert(was[j0] == y);
                        }
                    },
                }
            }
        }
    }
}

/// Merges `buffer`, whose keys ascend, into `elements`, whose keys ascend
/// strictly, and splits the result where it is too long.
///
/// Where all of it fits into one array and no more than two items arrived,
/// each is put in by bisection. Otherwise both are walked in step; each item
/// that stays goes to the array or branch whose turn it is, and every
/// `B / 2 + 1`-th becomes the head of a new branch while more than `B / 2`
/// items may still come. The new branches are returned in order, with the
/// number of items that did not stay.
pub(crate) fn process_buffer<K: Ord, V, I: Item<K, V>>(elements: &mut Vec<I>, buffer: Vec<I>) -> (r:
    (Vec<Branch<K, V>>, u128))
    requires
        lawful_order::<K>(),
        strictly_ascending(keys_of(old(elements)@)),
        ascending(keys_of(buffer@)),
        old(elements)@.len() <= B,
    ensures
        merged(old(elements)@, buffer@, flat::<K, V, I>(final(elements)@, r.0@)),
        split::<K, V, I>(
            final(elements)@,
            r.0@,
            flat::<K, V, I>(final(elements)@, r.0@).len() as int,
            (old(elements)@.len() + buffer@.len()) as int,
        ),
        flat::<K, V, I>(final(elements)@, r.0@).len() + r.1 == old(elements)@.len()
            + buffer@.len(),
{
    let ghost held = elements@;
    let ghost arrived = buffer@;
    let mut buffer = buffer;
    let total_count: u128 = buffer.len() as u128 + elements.len() as u128;
    if total_count <= B as u128 && buffer.len() <= 2 {
        let mut incoming = VecSlicer::new(&mut buffer);
        while incoming.remaining() > 0
            invariant
                lawful_order::<K>(),
                incoming.wf(),
                incoming.start() == incoming.cursor(),
                incoming.start() <= arrived.len(),
                incoming.pending() == arrived.subrange(
                    incoming.start() as int,
                    arrived.len() as int,
                ),
                strictly_ascending(keys_of(elements@)),
                elements@.len() <= held.len() + incoming.start(),
                forall|k: K| #[trigger]
                    find(elements@, k) == target(
                        held,
                        arrived.subrange(0, incoming.start() as int),
                        k,
                    ),
            decreases incoming.pending().len(),
        {
            let ghost n = incoming.start() as int;
            let ghost before = elements@;
            let item = incoming.take();
            upsert(elements, item);
            proof {
                assert(incoming.pending() =~= arrived.subrange(n + 1, arrived.len() as int));
                assert(arrived.subrange(0, n + 1) =~= arrived.subrange(0, n).push(item));
                assert forall|k: K| #[trigger]
                    find(elements@, k) == target(held, arrived.subrange(0, n + 1), k) by {
                    lemma_find_push(arrived.subrange(0, n), item, k);
                    assert(find(before, k) == target(held, arrived.subrange(0, n), k));
                }
            }
        }
        let result: Vec<Branch<K, V>> = Vec::new();
        proof {
            assert(arrived.subrange(0, arrived.len() as int) =~= arrived);
            assert(unfolded::<K, V, I>(result@) =~= Seq::<I>::empty());
            assert(flat::<K, V, I>(elements@, result@) =~= elements@);
            assert(half() == 75 && stride() == 76);
        }
        let kept = elements.len() as u128;
        (result, total_count - kept)
    } else {
        let mut elements_vec: Vec<I> = Vec::new();
        core::mem::swap(elements, &mut elements_vec);
        let mut es = VecSlicer::new(&mut elements_vec);
        let mut bs = VecSlicer::new(&mut buffer);
        let mut counter: u128 = 0;
        let mut result: Vec<Branch<K, V>> = Vec::new();
        proof {
            assert(unfolded::<K, V, I>(result@) =~= Seq::<I>::empty());
            assert(flat::<K, V, I>(elements@, result@) =~= Seq::<I>::empty());
            assert(half() == 75 && stride() == 76);
        }
        while es.remaining() > 0 && bs.remaining() > 0
            invariant
                lawful_order::<K>(),
                strictly_ascending(keys_of(held)),
                ascending(keys_of(arrived)),
                total_count == held.len() + arrived.len(),
                total_count < u128::MAX,
                es.wf(),
                es.start() == es.cursor(),
                es.start() <= held.len(),
                es.pending() == held.subrange(es.start() as int, held.len() as int),
                bs.wf(),
                bs.start() == bs.cursor(),
                bs.start() <= arrived.len(),
                bs.pending() == arrived.subrange(bs.start() as int, arrived.len() as int),
                merging(
                    held,
                    arrived,
                    es.start() as int,
                    bs.start() as int,
                    flat::<K, V, I>(elements@, result@),
                ),
                split::<K, V, I>(elements@, result@, counter as int, total_count as int),
                counter < total_count || (es.start() == held.len() && bs.start() == arrived.len()),
            decreases es.pending().len() + bs.pending().len(),
        {
            let ghost e = es.start() as int;
            let ghost b = bs.start() as int;
            let ghost out = flat::<K, V, I>(elements@, result@);
            match compare(es.current().key(), bs.current().key()) {
                Rank::Before => {
                    let item = es.take();
                    proof {
                        lemma_take_held(held, arrived, e, b, out);
                        assert(es.pending() =~= held.subrange(e + 1, held.len() as int));
                    }
                    apply(item, &mut counter, total_count, elements, &mut result);
                },
                Rank::After => {
                    let ghost was = bs.pending();
                    let item = take_last_of_run(&mut bs);
                    proof {
                        let n = bs.start() - b;
                        assert forall|i: int| b <= i < b + n implies (#[trigger] arrived[i]).key_spec()
                            == arrived[b].key_spec() by {
                            assert(arrived[i] == was[i - b]);
                            assert(arrived[b] == was[0]);
                        }
                        if b + n < arrived.len() {
                            assert(arrived[b + n] == was[n]);
                            assert(arrived[b] == was[0]);
                        }
                        assert(arrived[b + n - 1] == was[n - 1]);
                        lemma_take_arrived(held, arrived, e, b, n, out);
                        assert(bs.pending() =~= arrived.subrange(b + n, arrived.len() as int));
                    }
                    apply(item, &mut counter, total_count, elements, &mut result);
                },
                Rank::Same => {
                    let _gone = es.take();
                    proof {
                        lemma_drop_held(held, arrived, e, b, out);
                        assert(es.pending() =~= held.subrange(e + 1, held.len() as int));
                    }
                },
            }
        }
        while es.remaining() > 0
            invariant
                lawful_order::<K>(),
                strictly_ascending(keys_of(held)),
                ascending(keys_of(arrived)),
                total_count == held.len() + arrived.len(),
                total_count < u128::MAX,
                es.wf(),
                es.start() == es.cursor(),
                es.start() <= held.len(),
                es.pending() == held.subrange(es.start() as int, held.len() as int),
                bs.start() <= arrived.len(),
                bs.start() < arrived.len() ==> es.start() == held.len(),
                merging(
                    held,
                    arrived,
                    es.start() as int,
                    bs.start() as int,
                    flat::<K, V, I>(elements@, result@),
                ),
                split::<K, V, I>(elements@, result@, counter as int, total_count as int),
                counter < total_count || (es.start() == held.len() && bs.start() == arrived.len()),
            decreases es.pending().len(),
        {
            let ghost e = es.start() as int;
            let ghost out = flat::<K, V, I>(elements@, result@);
            let item = es.take();
            proof {
                lemma_take_held(held, arrived, e, bs.start() as int, out);
                assert(es.pending() =~= held.subrange(e + 1, held.len() as int));
            }
            apply(item, &mut counter, total_count, elements, &mut result);
        }
        while bs.remaining() > 0
            invariant
                lawful_order::<K>(),
                strictly_ascending(keys_of(held)),
                ascending(keys_of(arrived)),
                total_count == held.len() + arrived.len(),
                total_count < u128::MAX,
                es.start() == held.len(),
                bs.wf(),
                bs.start() == bs.cursor(),
                bs.start() <= arrived.len(),
                bs.pending() == arrived.subrange(bs.start() as int, arrived.len() as int),
                merging(
                    held,
                    arrived,
                    es.start() as int,
                    bs.start() as int,
                    flat::<K, V, I>(elements@, result@),
                ),
                split::<K, V, I>(elements@, result@, counter as int, total_count as int),
                counter < total_count || (es.start() == held.len() && bs.start() == arrived.len()),
            decreases bs.pending().len(),
        {
            let ghost b = bs.start() as int;
            let ghost out = flat::<K, V, I>(elements@, result@);
            let ghost was = bs.pending();
            let item = take_last_of_run(&mut bs);
            proof {
                let n = bs.start() - b;
                assert forall|i: int| b <= i < b + n implies (#[trigger] arrived[i]).key_spec()
                    == arrived[b].key_spec() by {
                    assert(arrived[i] == was[i - b]);
                    assert(arrived[b] == was[0]);
                }
                if b + n < arrived.len() {
                    assert(arrived[b + n] == was[n]);
                    assert(arrived[b] == was[0]);
                }
                assert(arrived[b + n - 1] == was[n - 1]);
                lemma_take_arrived(held, arrived, held.len() as int, b, n, out);
                assert(bs.pending() =~= arrived.subrange(b + n, arrived.len() as int));
            }
            apply(item, &mut counter, total_count, elements, &mut result);
        }
        proof {
            lemma_merging_done(held, arrived, flat::<K, V, I>(elements@, result@));
        }
        (result, total_count - counter)
    }
}

} // verus!
