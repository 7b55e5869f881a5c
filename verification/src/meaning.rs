//! Why filing leaves every key bound to the value it was bound to.
//!
//! Filing moves pairs down and drops the values that lost: under each key,
//! what waits afterwards is what waited before, or only the last of it.
use crate::node::{child_of, joined, lemma_internal, lower, upper, waiting_in, Array, Branch, Node};
use crate::order::{at_most, lawful_order, lemma_order_laws};
use crate::push_down::{child_after, pushed, value_after};
use crate::seqs::{
    all_at_most, find, in_range, keyed, keys_of, lemma_keyed_add, lemma_keyed_last,
    lemma_keyed_routed, lemma_rank, lemma_rank_bounds, lemma_same_runs_keys, rank, routed,
    same_runs,
};
use crate::shape::lemma_strict_ascends;
use vstd::prelude::*;
use vstd::seq_lib::lemma_multiset_commutative;

verus! {

/// What waits now is what waited, or only the last of it.
pub open spec fn refines<V>(now: Seq<V>, was: Seq<V>) -> bool {
    now == was || (was.len() > 0 && now == seq![was.last()])
}

/// Two nodes with the same array, whose buffers are the same once their runs
/// have arrived, hold the same under every key.
pub(crate) proof fn lemma_waiting_same<K: Ord, V>(
    c0: Node<K, V>,
    inc0: Seq<(K, V)>,
    c1: Node<K, V>,
    inc1: Seq<(K, V)>,
    k: K,
)
    requires
        c1.array == c0.array,
        joined(c1.buffer@, c1.buffer_is_sorted, inc1) == joined(
            c0.buffer@,
            c0.buffer_is_sorted,
            inc0,
        ),
    ensures
        c1.waiting(inc1, k) == c0.waiting(inc0, k),
{
}

/// What waits in a node is what waits once its buffer holds what it holds.
pub(crate) proof fn lemma_waiting_with<K: Ord, V>(node: Node<K, V>, buf: Seq<(K, V)>, k: K)
    requires
        buf == node.buffer@,
    ensures
        node.waiting(Seq::empty(), k) == node.waiting_with(buf, k),
{
}

/// Runs with the same values under every key join a buffer in the same way.
pub(crate) proof fn lemma_joined_runs<K: Ord, V>(
    buf: Seq<(K, V)>,
    sorted: bool,
    e1: Seq<(K, V)>,
    e2: Seq<(K, V)>,
)
    requires
        same_runs(e1, e2),
    ensures
        same_runs(joined(buf, sorted, e1), joined(buf, sorted, e2)),
{
    lemma_same_runs_keys(e1, e2);
    lemma_same_runs_keys(e2, e1);
    if all_at_most(keys_of(e1), keys_of(buf)) {
        assert forall|i: int, j: int|
            0 <= i < keys_of(e2).len() && 0 <= j < keys_of(buf).len() implies at_most(
            #[trigger] keys_of(e2)[i],
            #[trigger] keys_of(buf)[j],
        ) by {
            let x = choose|x: int| 0 <= x < e1.len() && (#[trigger] e1[x]).0 == e2[i].0;
            assert(at_most(keys_of(e1)[x], keys_of(buf)[j]));
        }
    }
    if all_at_most(keys_of(e2), keys_of(buf)) {
        assert forall|i: int, j: int|
            0 <= i < keys_of(e1).len() && 0 <= j < keys_of(buf).len() implies at_most(
            #[trigger] keys_of(e1)[i],
            #[trigger] keys_of(buf)[j],
        ) by {
            let x = choose|x: int| 0 <= x < e2.len() && (#[trigger] e2[x]).0 == e1[i].0;
            assert(at_most(keys_of(e2)[x], keys_of(buf)[j]));
        }
    }
    let b1 = joined(buf, sorted, e1);
    let b2 = joined(buf, sorted, e2);
    assert forall|k: K| #[trigger] keyed(b1, k) == keyed(b2, k) by {
        assert(keyed(e1, k) == keyed(e2, k));
        lemma_keyed_add(e1, buf, k);
        lemma_keyed_add(e2, buf, k);
        lemma_keyed_add(buf, e1, k);
        lemma_keyed_add(buf, e2, k);
    }
}

/// Runs with the same values under every key leave the same waiting under
/// every key: the order in which pairs with different keys arrive does not
/// matter.
pub(crate) proof fn lemma_waiting_runs<K: Ord, V>(
    node: Node<K, V>,
    e1: Seq<(K, V)>,
    e2: Seq<(K, V)>,
    k: K,
)
    requires
        same_runs(e1, e2),
    ensures
        node.waiting(e1, k) == node.waiting(e2, k),
    decreases node,
{
    lemma_joined_runs(node.buffer@, node.buffer_is_sorted, e1, e2);
    let b1 = joined(node.buffer@, node.buffer_is_sorted, e1);
    let b2 = joined(node.buffer@, node.buffer_is_sorted, e2);
    assert(keyed(b1, k) == keyed(b2, k));
    match node.array {
        Array::Leaf(la) => {},
        Array::Internal(ia) => {
            let keys = keys_of(ia.elements@);
            let i = rank(keys, k);
            if 0 <= i < keys.len() && keys[i] == k {
            } else {
                let lo = lower(keys, i, None);
                let hi = upper(keys, i, None);
                assert forall|x: K| #[trigger] keyed(routed(b1, lo, hi), x) == keyed(
                    routed(b2, lo, hi),
                    x,
                ) by {
                    lemma_keyed_routed(b1, lo, hi, x);
                    lemma_keyed_routed(b2, lo, hi, x);
                    assert(keyed(b1, x) == keyed(b2, x));
                }
                if 0 < i <= ia.elements.len() {
                    lemma_waiting_runs(
                        *ia.elements[i - 1].child,
                        routed(b1, lo, hi),
                        routed(b2, lo, hi),
                        k,
                    );
                } else {
                    lemma_waiting_runs(*ia.first_child, routed(b1, lo, hi), routed(b2, lo, hi), k);
                }
            }
        },
    }
}

/// Pushing a buffer down leaves under every key what waited there, or only
/// the last of it.
pub(crate) proof fn lemma_pushed_waiting<K: Ord, V>(
    first0: Node<K, V>,
    e0: Seq<Branch<K, V>>,
    buf0: Seq<(K, V)>,
    first1: Node<K, V>,
    e1: Seq<Branch<K, V>>,
    sorted: Seq<(K, V)>,
    k: K,
)
    requires
        pushed(first0, e0, first1, e1, sorted),
        same_runs(sorted, buf0),
    ensures
        refines(waiting_in(first1, e1, Seq::empty(), k), waiting_in(first0, e0, buf0, k)),
{
    let keys = keys_of(e0);
    assert(keys_of(e1) =~= keys) by {
        assert forall|i: int| 0 <= i < e0.len() implies keys_of(e1)[i] == keys[i] by {
            assert(value_after(e0[i], e1[i], sorted));
        }
    }
    let i = rank(keys, k);
    lemma_rank_bounds(keys, k);
    let none = Seq::<(K, V)>::empty();
    assert(keyed(none, k) =~= Seq::<V>::empty());
    assert(keyed(sorted, k) == keyed(buf0, k));
    if 0 <= i < keys.len() && keys[i] == k {
        assert(value_after(e0[i], e1[i], sorted));
        lemma_keyed_last(sorted, k);
        let now = seq![e1[i].value.value()] + keyed(none, k);
        let was = seq![e0[i].value.value()] + keyed(buf0, k);
        assert(now =~= seq![e1[i].value.value()]);
        if find(sorted, k) is Some {
            assert(was.last() == keyed(buf0, k).last());
        } else {
            assert(was =~= seq![e0[i].value.value()]);
        }
    } else {
        let lo = lower(keys, i, None);
        let hi = upper(keys, i, None);
        let c0 = child_of(first0, e0, i);
        let c1 = child_of(first1, e1, i);
        assert(child_after(c0, child_of(first1, e1, i), routed(sorted, lo, hi)));
        assert(routed(none, lo, hi) =~= none);
        lemma_waiting_same(c0, routed(sorted, lo, hi), c1, none, k);
        assert forall|x: K| #[trigger] keyed(routed(sorted, lo, hi), x) == keyed(
            routed(buf0, lo, hi),
            x,
        ) by {
            lemma_keyed_routed(sorted, lo, hi, x);
            lemma_keyed_routed(buf0, lo, hi, x);
            assert(keyed(sorted, x) == keyed(buf0, x));
        }
        lemma_waiting_runs(c0, routed(sorted, lo, hi), routed(buf0, lo, hi), k);
    }
}

/// A run that arrives adds its values under a key to those that wait there,
/// whatever the order in which they then stand.
pub(crate) proof fn lemma_waiting_count<K: Ord, V>(
    node: Node<K, V>,
    inc: Seq<(K, V)>,
    k: K,
    lo: Option<K>,
    hi: Option<K>,
)
    requires
        lawful_order::<K>(),
        node.wf(lo, hi),
    ensures
        node.waiting(inc, k).to_multiset() == node.waiting(Seq::empty(), k).to_multiset().add(
            keyed(inc, k).to_multiset(),
        ),
    decreases node,
{
    broadcast use vstd::multiset::group_multiset_axioms;

    lemma_order_laws::<K>();
    let none = Seq::<(K, V)>::empty();
    let buf = node.buffer@;
    let b1 = joined(buf, node.buffer_is_sorted, inc);
    assert(joined(buf, node.buffer_is_sorted, none) == buf);
    lemma_keyed_add(inc, buf, k);
    lemma_keyed_add(buf, inc, k);
    lemma_multiset_commutative(keyed(inc, k), keyed(buf, k));
    lemma_multiset_commutative(keyed(buf, k), keyed(inc, k));
    assert(keyed(b1, k).to_multiset() =~= keyed(buf, k).to_multiset().add(
        keyed(inc, k).to_multiset(),
    )) by {
        if inc.len() == 0 {
            assert(keyed(inc, k) =~= Seq::<V>::empty());
            vstd::seq_lib::to_multiset_len(keyed(inc, k));
            vstd::multiset::lemma_multiset_empty_len(keyed(inc, k).to_multiset());
            assert(keyed(inc, k).to_multiset() =~= vstd::multiset::Multiset::<V>::empty());
        }
    }
    match node.array {
        Array::Leaf(la) => {
            let held = keyed(la.elements@, k);
            lemma_multiset_commutative(held, keyed(b1, k));
            lemma_multiset_commutative(held, keyed(buf, k));
            assert(node.waiting(inc, k).to_multiset() =~= node.waiting(none, k).to_multiset().add(
                keyed(inc, k).to_multiset(),
            ));
        },
        Array::Internal(ia) => {
            let keys = keys_of(ia.elements@);
            let i = rank(keys, k);
            lemma_strict_ascends(keys);
            lemma_rank(keys, k);
            if 0 <= i < keys.len() && keys[i] == k {
                let held = seq![ia.elements[i].value.value()];
                lemma_multiset_commutative(held, keyed(b1, k));
                lemma_multiset_commutative(held, keyed(buf, k));
                assert(node.waiting(inc, k).to_multiset() =~= node.waiting(
                    none,
                    k,
                ).to_multiset().add(keyed(inc, k).to_multiset()));
            } else {
                let clo = lower(keys, i, None);
                let chi = upper(keys, i, None);
                let child = child_of(*ia.first_child, ia.elements@, i);
                assert(in_range(k, clo, chi));
                lemma_keyed_routed(b1, clo, chi, k);
                lemma_keyed_routed(buf, clo, chi, k);
                lemma_internal(node, inc, k, lo, hi);
                lemma_internal(node, none, k, lo, hi);
                assert(child.wf(lower(keys, i, lo), upper(keys, i, hi)));
                lemma_waiting_count(
                    child,
                    routed(b1, clo, chi),
                    k,
                    lower(keys, i, lo),
                    upper(keys, i, hi),
                );
                lemma_waiting_count(
                    child,
                    routed(buf, clo, chi),
                    k,
                    lower(keys, i, lo),
                    upper(keys, i, hi),
                );
                assert(node.waiting(inc, k) == child.waiting(routed(b1, clo, chi), k));
                assert(node.waiting(none, k) == child.waiting(routed(buf, clo, chi), k));
                assert(node.waiting(inc, k).to_multiset() =~= node.waiting(
                    none,
                    k,
                ).to_multiset().add(keyed(inc, k).to_multiset()));
            }
        },
    }
}

/// Where nothing waits in a buffer on the way to a key, the values of a run
/// that arrives stand behind the value that the key is bound to: the last
/// of them is the value that the key is bound to from then on.
pub(crate) proof fn lemma_settled_arrival<K: Ord, V>(
    node: Node<K, V>,
    inc: Seq<(K, V)>,
    k: K,
    lo: Option<K>,
    hi: Option<K>,
)
    requires
        lawful_order::<K>(),
        node.wf(lo, hi),
        node.settled(k),
    ensures
        node.waiting(inc, k) == node.waiting(Seq::empty(), k) + keyed(inc, k),
    decreases node,
{
    lemma_order_laws::<K>();
    let none = Seq::<(K, V)>::empty();
    assert(node.buffer@ =~= none);
    let b1 = joined(node.buffer@, node.buffer_is_sorted, inc);
    assert(b1 =~= inc);
    assert(keyed(none, k) =~= Seq::<V>::empty());
    match node.array {
        Array::Leaf(la) => {
            assert(node.waiting(inc, k) =~= node.waiting(none, k) + keyed(inc, k));
        },
        Array::Internal(ia) => {
            let keys = keys_of(ia.elements@);
            let i = rank(keys, k);
            lemma_strict_ascends(keys);
            lemma_rank(keys, k);
            if 0 <= i < keys.len() && keys[i] == k {
                assert(node.waiting(inc, k) =~= node.waiting(none, k) + keyed(inc, k));
            } else {
                let clo = lower(keys, i, None);
                let chi = upper(keys, i, None);
                let child = child_of(*ia.first_child, ia.elements@, i);
                assert(in_range(k, clo, chi));
                lemma_keyed_routed(inc, clo, chi, k);
                lemma_internal(node, inc, k, lo, hi);
                lemma_internal(node, none, k, lo, hi);
                assert(child.wf(lower(keys, i, lo), upper(keys, i, hi)));
                assert(routed(none, clo, chi) =~= none);
                lemma_settled_arrival(
                    child,
                    routed(inc, clo, chi),
                    k,
                    lower(keys, i, lo),
                    upper(keys, i, hi),
                );
            }
        },
    }
}

/// A node whose buffer has taken in the pairs of `inc`, in whatever order,
/// has the values of `inc` under a key added to those that waited there.
pub(crate) proof fn lemma_buffer_count<K: Ord, V>(
    was: Node<K, V>,
    now: Node<K, V>,
    inc: Seq<(K, V)>,
    k: K,
    lo: Option<K>,
    hi: Option<K>,
)
    requires
        lawful_order::<K>(),
        was.wf(lo, hi),
        now.wf(lo, hi),
        now.array == was.array,
        now.buffer@ == was.buffer@ + inc || now.buffer@ == inc + was.buffer@,
    ensures
        now.waiting(Seq::empty(), k).to_multiset() == was.waiting(
            Seq::empty(),
            k,
        ).to_multiset().add(keyed(inc, k).to_multiset()),
{
    broadcast use vstd::multiset::group_multiset_axioms;

    lemma_order_laws::<K>();
    let none = Seq::<(K, V)>::empty();
    let b0 = was.buffer@;
    let b1 = now.buffer@;
    assert(joined(b0, was.buffer_is_sorted, none) == b0);
    assert(joined(b1, now.buffer_is_sorted, none) == b1);
    lemma_keyed_add(inc, b0, k);
    lemma_keyed_add(b0, inc, k);
    lemma_multiset_commutative(keyed(inc, k), keyed(b0, k));
    lemma_multiset_commutative(keyed(b0, k), keyed(inc, k));
    assert(keyed(b1, k).to_multiset() =~= keyed(b0, k).to_multiset().add(
        keyed(inc, k).to_multiset(),
    ));
    match was.array {
        Array::Leaf(la) => {
            let held = keyed(la.elements@, k);
            lemma_multiset_commutative(held, keyed(b1, k));
            lemma_multiset_commutative(held, keyed(b0, k));
            assert(now.waiting(none, k).to_multiset() =~= was.waiting(none, k).to_multiset().add(
                keyed(inc, k).to_multiset(),
            ));
        },
        Array::Internal(ia) => {
            let keys = keys_of(ia.elements@);
            let i = rank(keys, k);
            lemma_strict_ascends(keys);
            lemma_rank(keys, k);
            if 0 <= i < keys.len() && keys[i] == k {
                let held = seq![ia.elements[i].value.value()];
                lemma_multiset_commutative(held, keyed(b1, k));
                lemma_multiset_commutative(held, keyed(b0, k));
                assert(now.waiting(none, k).to_multiset() =~= was.waiting(
                    none,
                    k,
                ).to_multiset().add(keyed(inc, k).to_multiset()));
            } else {
                let clo = lower(keys, i, None);
                let chi = upper(keys, i, None);
                let child = child_of(*ia.first_child, ia.elements@, i);
                assert(in_range(k, clo, chi));
                lemma_keyed_routed(b1, clo, chi, k);
                lemma_keyed_routed(b0, clo, chi, k);
                lemma_internal(was, none, k, lo, hi);
                lemma_internal(now, none, k, lo, hi);
                assert(child.wf(lower(keys, i, lo), upper(keys, i, hi)));
                lemma_waiting_count(
                    child,
                    routed(b1, clo, chi),
                    k,
                    lower(keys, i, lo),
                    upper(keys, i, hi),
                );
                lemma_waiting_count(
                    child,
                    routed(b0, clo, chi),
                    k,
                    lower(keys, i, lo),
                    upper(keys, i, hi),
                );
                assert(now.waiting(none, k) == child.waiting(routed(b1, clo, chi), k));
                assert(was.waiting(none, k) == child.waiting(routed(b0, clo, chi), k));
                assert(now.waiting(none, k).to_multiset() =~= was.waiting(
                    none,
                    k,
                ).to_multiset().add(keyed(inc, k).to_multiset()));
            }
        },
    }
}

} // verus!
