//! Where a key leads in an array of branches, and why splitting an array
//! leaves every key where it was.
use crate::items::{flat, unfolded, Item};
use crate::node::{
    child_of, lemma_internal, lower, settled_in, upper, waiting_in, wf_in, B, Branch, Node,
};
use crate::order::{at_most, below, lawful_order, lemma_order_laws};
use crate::process::{merged, target};
use crate::seqs::{
    all_in_range, ascending, find, in_range, keyed, keys_of, lemma_find, lemma_find_at,
    lemma_find_none, lemma_keyed_add, lemma_keyed_items, lemma_keyed_one, lemma_rank, lemma_rank_is,
    rank, routed, strictly_ascending, Keyed,
};
use vstd::prelude::*;

verus! {

/// What a key meets in an array: the value of the branch that has the key, or
/// the child in which the search goes on.
pub enum Spot<K, V> {
    Hit(V),
    Down(Node<K, V>),
}

/// What `k` meets in the array of `first` and `branches`.
pub open(crate) spec fn spot<K: Ord, V>(first: Node<K, V>, branches: Seq<Branch<K, V>>, k: K) -> Spot<
    K,
    V,
> {
    let keys = keys_of(branches);
    let i = rank(keys, k);
    if 0 <= i < keys.len() && keys[i] == k {
        Spot::Hit(branches[i].value.value())
    } else {
        Spot::Down(child_of(first, branches, i))
    }
}

/// Under an empty buffer, what waits for a key and whether its way is settled
/// depend on the spot of the key alone.
pub(crate) proof fn lemma_spot<K: Ord, V>(first: Node<K, V>, branches: Seq<Branch<K, V>>, k: K)
    ensures
        waiting_in(first, branches, Seq::empty(), k) == match spot(first, branches, k) {
            Spot::Hit(v) => seq![v],
            Spot::Down(n) => n.waiting(Seq::empty(), k),
        },
        settled_in(first, branches, k) == match spot(first, branches, k) {
            Spot::Hit(v) => true,
            Spot::Down(n) => n.settled(k),
        },
{
    let keys = keys_of(branches);
    let i = rank(keys, k);
    let none = Seq::<(K, V)>::empty();
    assert(keyed(none, k) =~= Seq::<V>::empty());
    if 0 <= i < keys.len() && keys[i] == k {
        assert(seq![branches[i].value.value()] + keyed(none, k) =~= seq![
            branches[i].value.value(),
        ]);
    } else {
        assert(routed(none, crate::node::lower(keys, i, None), crate::node::upper(keys, i, None))
            =~= none);
    }
}

/// Keys that ascend strictly ascend.
pub proof fn lemma_strict_ascends<K: Ord>(keys: Seq<K>)
    requires
        lawful_order::<K>(),
        strictly_ascending(keys),
    ensures
        ascending(keys),
{
    lemma_order_laws::<K>();
    assert forall|i: int, j: int| 0 <= i < j < keys.len() implies at_most(
        #[trigger] keys[i],
        #[trigger] keys[j],
    ) by {
        assert(below(keys[i], keys[j]));
    }
}

/// The parts of items whose keys ascend strictly have such keys too, and the
/// keys of the first part are below those of the second.
pub proof fn lemma_strict_parts<K: Ord, I: Keyed<K>>(a: Seq<I>, b: Seq<I>)
    requires
        strictly_ascending(keys_of(a + b)),
    ensures
        strictly_ascending(keys_of(a)),
        strictly_ascending(keys_of(b)),
        forall|i: int, j: int|
            0 <= i < a.len() && 0 <= j < b.len() ==> below(
                (#[trigger] a[i]).key_spec(),
                (#[trigger] b[j]).key_spec(),
            ),
{
    let s = a + b;
    assert forall|i: int, j: int| 0 <= i < j < a.len() implies below(
        #[trigger] keys_of(a)[i],
        #[trigger] keys_of(a)[j],
    ) by {
        assert(below(keys_of(s)[i], keys_of(s)[j]));
    }
    assert forall|i: int, j: int| 0 <= i < j < b.len() implies below(
        #[trigger] keys_of(b)[i],
        #[trigger] keys_of(b)[j],
    ) by {
        assert(below(keys_of(s)[a.len() + i], keys_of(s)[a.len() + j]));
    }
    assert forall|i: int, j: int| 0 <= i < a.len() && 0 <= j < b.len() implies below(
        (#[trigger] a[i]).key_spec(),
        (#[trigger] b[j]).key_spec(),
    ) by {
        assert(below(keys_of(s)[i], keys_of(s)[a.len() + j]));
    }
}

/// The rank of a key among items in two parts: behind the first part if a key
/// of the second part is below it, else its rank in the first part.
pub proof fn lemma_rank_parts<K: Ord, I: Keyed<K>>(a: Seq<I>, b: Seq<I>, k: K)
    requires
        lawful_order::<K>(),
        strictly_ascending(keys_of(a + b)),
    ensures
        rank(keys_of(a + b), k) == if rank(keys_of(b), k) > 0 {
            a.len() + rank(keys_of(b), k)
        } else {
            rank(keys_of(a), k)
        },
        0 <= rank(keys_of(a), k) <= a.len(),
        0 <= rank(keys_of(b), k) <= b.len(),
{
    lemma_order_laws::<K>();
    lemma_strict_parts(a, b);
    lemma_strict_ascends(keys_of(a));
    lemma_strict_ascends(keys_of(b));
    lemma_rank(keys_of(a), k);
    lemma_rank(keys_of(b), k);
    let s = a + b;
    let ra = rank(keys_of(a), k);
    let rb = rank(keys_of(b), k);
    if rb > 0 {
        assert(below(keys_of(b)[0], k));
        assert forall|j: int| 0 <= j < a.len() + rb implies below(#[trigger] keys_of(s)[j], k) by {
            if j < a.len() {
                assert(below(a[j].key_spec(), b[0].key_spec()));
            } else {
                assert(below(keys_of(b)[j - a.len()], k));
            }
        }
        assert forall|j: int| a.len() + rb <= j < s.len() implies !below(
            #[trigger] keys_of(s)[j],
            k,
        ) by {
            assert(!below(keys_of(b)[j - a.len()], k));
        }
        lemma_rank_is(keys_of(s), k, a.len() + rb);
    } else {
        assert forall|j: int| 0 <= j < ra implies below(#[trigger] keys_of(s)[j], k) by {
            assert(below(keys_of(a)[j], k));
        }
        assert forall|j: int| ra <= j < s.len() implies !below(#[trigger] keys_of(s)[j], k) by {
            if j < a.len() {
                assert(!below(keys_of(a)[j], k));
            } else {
                assert(!below(keys_of(b)[j - a.len()], k));
            }
        }
        lemma_rank_is(keys_of(s), k, ra);
    }
}

/// Two merges of the same items are the same sequence.
pub proof fn lemma_merged_once<K: Ord, I: Keyed<K>>(a: Seq<I>, b: Seq<I>)
    requires
        lawful_order::<K>(),
        strictly_ascending(keys_of(a)),
        strictly_ascending(keys_of(b)),
        forall|k: K| #[trigger] find(a, k) == find(b, k),
    ensures
        a == b,
    decreases a.len(),
{
    lemma_order_laws::<K>();
    if a.len() == 0 {
        if b.len() > 0 {
            lemma_find_at(b, 0);
            assert(find(a, b[0].key_spec()) == find(b, b[0].key_spec()));
        }
        assert(a =~= b);
    } else {
        let x = a.last();
        lemma_find_at(a, a.len() - 1);
        assert(find(a, x.key_spec()) == find(b, x.key_spec()));
        lemma_find(b, x.key_spec());
        let j = choose|j: int| 0 <= j < b.len() && b[j] == x;
        let y = b.last();
        lemma_find_at(b, b.len() - 1);
        assert(find(a, y.key_spec()) == find(b, y.key_spec()));
        lemma_find(a, y.key_spec());
        let i = choose|i: int| 0 <= i < a.len() && a[i] == y;
        if j < b.len() - 1 {
            assert(below(keys_of(b)[j], keys_of(b)[b.len() - 1]));
            if i < a.len() - 1 {
                assert(below(keys_of(a)[i], keys_of(a)[a.len() - 1]));
            }
        }
        assert(x == y);
        let a0 = a.drop_last();
        let b0 = b.drop_last();
        assert(a =~= a0.push(x));
        assert(b =~= b0.push(x));
        assert(a0 + seq![x] =~= a);
        assert(b0 + seq![x] =~= b);
        lemma_strict_parts(a0, seq![x]);
        lemma_strict_parts(b0, seq![x]);
        assert forall|k: K| #[trigger] find(a0, k) == find(b0, k) by {
            if k == x.key_spec() {
                assert forall|i: int| 0 <= i < a0.len() implies (#[trigger] a0[i]).key_spec()
                    != k by {
                    assert(below(a0[i].key_spec(), seq![x][0].key_spec()));
                }
                assert forall|i: int| 0 <= i < b0.len() implies (#[trigger] b0[i]).key_spec()
                    != k by {
                    assert(below(b0[i].key_spec(), seq![x][0].key_spec()));
                }
                crate::seqs::lemma_find_none(a0, k);
                crate::seqs::lemma_find_none(b0, k);
            } else {
                assert(find(a, k) == find(b, k));
            }
        }
        lemma_merged_once(a0, b0);
    }
}

/// A key that no item has has no values.
pub proof fn lemma_keyed_none<K, V>(s: Seq<(K, V)>, k: K)
    requires
        forall|i: int| 0 <= i < s.len() ==> (#[trigger] s[i]).0 != k,
    ensures
        keyed(s, k) == Seq::<V>::empty(),
{
    lemma_keyed_items(s, k);
    assert(keyed(s, k) =~= Seq::<V>::empty());
}

/// What waits under a key in a leaf whose buffer is empty.
pub(crate) proof fn lemma_leaf_waiting<K: Ord, V>(node: Node<K, V>, k: K)
    requires
        node.array is Leaf,
        node.buffer@.len() == 0,
    ensures
        node.waiting(Seq::empty(), k) == keyed(node.array->Leaf_0.elements@, k),
        node.settled(k),
{
    let none = Seq::<(K, V)>::empty();
    assert(node.buffer@ =~= none);
    assert(keyed(none, k) =~= Seq::<V>::empty());
    assert(keyed(node.array->Leaf_0.elements@, k) + keyed(none, k) =~= keyed(
        node.array->Leaf_0.elements@,
        k,
    ));
}

/// The branches that were promoted out of an array are in strictly
/// ascending order, and the key of each is the key of one of the items that
/// the array and the branches stand for.
pub(crate) proof fn lemma_split_heads<K: Ord, V, I: Item<K, V>>(own: Seq<I>, nb: Seq<Branch<K, V>>)
    requires
        lawful_order::<K>(),
        strictly_ascending(keys_of(flat::<K, V, I>(own, nb))),
        forall|i: int| 0 <= i < nb.len() ==> I::head_of(#[trigger] nb[i]).key_spec() == nb[i].key,
    ensures
        strictly_ascending(keys_of(nb)),
        forall|i: int|
            0 <= i < nb.len() ==> find(flat::<K, V, I>(own, nb), (#[trigger] nb[i]).key) is Some,
    decreases nb.len(),
{
    lemma_order_laws::<K>();
    let f = flat::<K, V, I>(own, nb);
    if nb.len() > 0 {
        let front = nb.drop_last();
        let last = nb.last();
        let ff = flat::<K, V, I>(own, front);
        let head = I::head_of(last);
        let run = I::run_of(last);
        let pre = ff + seq![head];
        assert(f =~= pre + run);
        assert(ff.push(head) =~= pre);
        lemma_strict_parts(pre, run);
        lemma_strict_parts(ff, seq![head]);
        assert forall|i: int| 0 <= i < front.len() implies I::head_of(
            #[trigger] front[i],
        ).key_spec() == front[i].key by {
            assert(front[i] == nb[i]);
        }
        lemma_split_heads::<K, V, I>(own, front);
        assert(f[ff.len() as int] == head);
        lemma_find_at(f, ff.len() as int);
        assert forall|i: int| 0 <= i < front.len() implies below(
            (#[trigger] front[i]).key,
            last.key,
        ) by {
            lemma_find(ff, front[i].key);
            let y = find(ff, front[i].key)->Some_0;
            let j = choose|j: int| 0 <= j < ff.len() && ff[j] == y;
            assert(below(ff[j].key_spec(), seq![head][0].key_spec()));
        }
        assert forall|i: int, j: int| 0 <= i < j < keys_of(nb).len() implies below(
            #[trigger] keys_of(nb)[i],
            #[trigger] keys_of(nb)[j],
        ) by {
            if j < front.len() {
                assert(below(keys_of(front)[i], keys_of(front)[j]));
            } else {
                assert(below(front[i].key, last.key));
            }
        }
        assert forall|i: int| 0 <= i < nb.len() implies find(f, (#[trigger] nb[i]).key) is Some by {
            if i < front.len() {
                lemma_find(ff, front[i].key);
                let y = find(ff, front[i].key)->Some_0;
                let j = choose|j: int| 0 <= j < ff.len() && ff[j] == y;
                assert(f[j] == y);
                lemma_find_at(f, j);
            }
        }
    }
}

/// A leaf that was split holds under every key what its items held before
/// they were parted: the new branches are in strictly ascending order, their
/// heads are among those items, and a key leads to the part that has it.
pub(crate) proof fn lemma_leaf_split<K: Ord, V>(node: Node<K, V>, nb: Seq<Branch<K, V>>)
    requires
        lawful_order::<K>(),
        node.array is Leaf,
        node.buffer@.len() == 0,
        forall|i: int| 0 <= i < nb.len() ==> <(K, V) as Item<K, V>>::shaped(#[trigger] nb[i]),
        strictly_ascending(keys_of(flat::<K, V, (K, V)>(node.array->Leaf_0.elements@, nb))),
    ensures
        strictly_ascending(keys_of(nb)),
        forall|i: int|
            0 <= i < nb.len() ==> find(
                flat::<K, V, (K, V)>(node.array->Leaf_0.elements@, nb),
                (#[trigger] nb[i]).key,
            ) is Some,
        forall|k: K| #[trigger]
            waiting_in(node, nb, Seq::empty(), k) == keyed(
                flat::<K, V, (K, V)>(node.array->Leaf_0.elements@, nb),
                k,
            ),
        forall|k: K| #[trigger] settled_in(node, nb, k),
    decreases nb.len(),
{
    lemma_order_laws::<K>();
    let own = node.array->Leaf_0.elements@;
    let f = flat::<K, V, (K, V)>(own, nb);
    lemma_split_heads::<K, V, (K, V)>(own, nb);
    if nb.len() == 0 {
        assert(unfolded::<K, V, (K, V)>(nb) =~= Seq::<(K, V)>::empty());
        assert(f =~= own);
        assert forall|k: K| #[trigger]
            waiting_in(node, nb, Seq::empty(), k) == keyed(f, k) && settled_in(node, nb, k) by {
            lemma_spot(node, nb, k);
            lemma_leaf_waiting(node, k);
        }
    } else {
        let front = nb.drop_last();
        let last = nb.last();
        let ff = flat::<K, V, (K, V)>(own, front);
        let head = <(K, V) as Item<K, V>>::head_of(last);
        let run = <(K, V) as Item<K, V>>::run_of(last);
        assert(f =~= (ff + seq![head]) + run);
        assert(ff.push(head) =~= ff + seq![head]);
        lemma_strict_parts(ff + seq![head], run);
        lemma_strict_parts(ff, seq![head]);
        assert forall|i: int| 0 <= i < front.len() implies <(K, V) as Item<K, V>>::shaped(
            #[trigger] front[i],
        ) by {
            assert(front[i] == nb[i]);
        }
        lemma_leaf_split(node, front);
        assert(f[ff.len() as int] == head);
        assert forall|i: int| 0 <= i < front.len() implies below(
            (#[trigger] front[i]).key,
            last.key,
        ) by {
            assert(below(keys_of(nb)[i], keys_of(nb)[nb.len() - 1]));
        }
        lemma_strict_ascends(keys_of(front));
        assert(keys_of(nb).drop_last() =~= keys_of(front));
        assert forall|k: K| #[trigger]
            waiting_in(node, nb, Seq::empty(), k) == keyed(f, k) && settled_in(node, nb, k) by {
            lemma_spot(node, nb, k);
            lemma_spot(node, front, k);
            lemma_keyed_add(ff + seq![head], run, k);
            lemma_keyed_add(ff, seq![head], k);
            lemma_keyed_one(head, k);
            lemma_rank(keys_of(front), k);
            let i = rank(keys_of(front), k);
            if below(last.key, k) {
                assert(rank(keys_of(nb), k) == nb.len());
                lemma_leaf_waiting(*last.child, k);
                assert forall|j: int| 0 <= j < ff.len() implies (#[trigger] ff[j]).0 != k by {
                    assert(below(ff[j].key_spec(), seq![head][0].key_spec()));
                }
                lemma_keyed_none(ff, k);
                assert(keyed(f, k) =~= keyed(run, k));
            } else {
                assert(rank(keys_of(nb), k) == i);
                assert forall|j: int| 0 <= j < run.len() implies (#[trigger] run[j]).0 != k by {
                    assert(below((ff + seq![head])[ff.len() as int].key_spec(), run[j].key_spec()));
                }
                lemma_keyed_none(run, k);
                if k == last.key {
                    assert forall|j: int| 0 <= j < front.len() implies below(
                        #[trigger] keys_of(front)[j],
                        k,
                    ) by {
                        assert(below(front[j].key, last.key));
                    }
                    lemma_rank_is(keys_of(front), k, front.len() as int);
                    assert forall|j: int| 0 <= j < ff.len() implies (#[trigger] ff[j]).0 != k by {
                        assert(below(ff[j].key_spec(), seq![head][0].key_spec()));
                    }
                    lemma_keyed_none(ff, k);
                    assert(keyed(f, k) =~= seq![head.1]);
                } else {
                    assert(spot(node, nb, k) == spot(node, front, k)) by {
                        if i < front.len() {
                            assert(keys_of(nb)[i] == keys_of(front)[i]);
                            assert(nb[i] == front[i]);
                        }
                        if i > 0 {
                            assert(nb[i - 1] == front[i - 1]);
                        }
                    }
                    assert(waiting_in(node, front, Seq::empty(), k) == keyed(ff, k));
                    assert(settled_in(node, front, k));
                    assert(keyed(f, k) =~= keyed(ff, k));
                }
            }
        }
    }
}

/// A leaf that was split is well formed, together with its new branches,
/// between the bounds of the items that went into it.
pub(crate) proof fn lemma_leaf_split_wf<K: Ord, V>(
    node: Node<K, V>,
    nb: Seq<Branch<K, V>>,
    lo: Option<K>,
    hi: Option<K>,
)
    requires
        lawful_order::<K>(),
        node.array is Leaf,
        node.buffer@.len() == 0,
        node.array->Leaf_0.elements@.len() <= B,
        forall|i: int| 0 <= i < nb.len() ==> <(K, V) as Item<K, V>>::shaped(#[trigger] nb[i]),
        forall|i: int|
            0 <= i < nb.len() ==> (#[trigger] <(K, V) as Item<K, V>>::run_of(nb[i])).len() <= B,
        strictly_ascending(keys_of(flat::<K, V, (K, V)>(node.array->Leaf_0.elements@, nb))),
        all_in_range(keys_of(flat::<K, V, (K, V)>(node.array->Leaf_0.elements@, nb)), lo, hi),
    ensures
        wf_in(node, nb, lo, hi),
    decreases nb.len(),
{
    lemma_order_laws::<K>();
    let own = node.array->Leaf_0.elements@;
    let f = flat::<K, V, (K, V)>(own, nb);
    if nb.len() == 0 {
        assert(unfolded::<K, V, (K, V)>(nb) =~= Seq::<(K, V)>::empty());
        assert(f =~= own);
        assert(node.wf(lo, hi));
        assert forall|i: int| 0 <= i <= nb.len() implies (#[trigger] child_of(node, nb, i)).wf(
            lower(keys_of(nb), i, lo),
            upper(keys_of(nb), i, hi),
        ) by {}
    } else {
        let front = nb.drop_last();
        let last = nb.last();
        let ff = flat::<K, V, (K, V)>(own, front);
        let head = <(K, V) as Item<K, V>>::head_of(last);
        let run = <(K, V) as Item<K, V>>::run_of(last);
        let keys = keys_of(nb);
        assert(f =~= (ff + seq![head]) + run);
        assert(ff.push(head) =~= ff + seq![head]);
        lemma_strict_parts(ff + seq![head], run);
        lemma_strict_parts(ff, seq![head]);
        assert(f[ff.len() as int] == head);
        assert(in_range(keys_of(f)[ff.len() as int], lo, hi));
        assert forall|i: int| 0 <= i < front.len() implies <(K, V) as Item<K, V>>::shaped(
            #[trigger] front[i],
        ) && (#[trigger] <(K, V) as Item<K, V>>::run_of(front[i])).len() <= B by {
            assert(front[i] == nb[i]);
        }
        assert forall|i: int| 0 <= i < keys_of(ff).len() implies in_range(
            #[trigger] keys_of(ff)[i],
            lo,
            Some(last.key),
        ) by {
            assert(in_range(keys_of(f)[i], lo, hi));
            assert(below(ff[i].key_spec(), seq![head][0].key_spec()));
        }
        lemma_leaf_split_wf(node, front, lo, Some(last.key));
        lemma_leaf_split(node, nb);
        assert forall|i: int| 0 <= i < keys.len() implies in_range(#[trigger] keys[i], lo, hi) by {
            if i < front.len() {
                assert(in_range(keys_of(front)[i], lo, Some(last.key)));
            }
        }
        assert forall|i: int| 0 <= i <= nb.len() implies (#[trigger] child_of(node, nb, i)).wf(
            lower(keys, i, lo),
            upper(keys, i, hi),
        ) by {
            if i < nb.len() {
                assert(child_of(node, front, i).wf(
                    lower(keys_of(front), i, lo),
                    upper(keys_of(front), i, Some(last.key)),
                ));
                if i > 0 {
                    assert(nb[i - 1] == front[i - 1]);
                    assert(keys[i - 1] == keys_of(front)[i - 1]);
                }
                if i < front.len() {
                    assert(keys[i] == keys_of(front)[i]);
                }
            } else {
                let child = *last.child;
                assert(child.buffer@ =~= Seq::<(K, V)>::empty());
                assert forall|j: int| 0 <= j < keys_of(run).len() implies in_range(
                    #[trigger] keys_of(run)[j],
                    Some(last.key),
                    hi,
                ) by {
                    assert(in_range(keys_of(f)[ff.len() + 1 + j], lo, hi));
                    assert(below(
                        (ff + seq![head])[ff.len() as int].key_spec(),
                        run[j].key_spec(),
                    ));
                }
                assert(child.wf(Some(last.key), hi));
            }
        }
    }
}

/// What `k` meets two levels down: in the array of `first` and `branches`,
/// and, where that is a child, in the array of that child.
pub open(crate) spec fn deep_spot<K: Ord, V>(first: Node<K, V>, branches: Seq<Branch<K, V>>, k: K) -> Spot<
    K,
    V,
> {
    match spot(first, branches, k) {
        Spot::Hit(v) => Spot::Hit(v),
        Spot::Down(n) => spot(
            *n.array->Internal_0.first_child,
            n.array->Internal_0.elements@,
            k,
        ),
    }
}

/// Under empty buffers, what waits for a key two levels down and whether its
/// way is settled depend on the deep spot of the key alone.
pub(crate) proof fn lemma_deep_spot<K: Ord, V>(first: Node<K, V>, branches: Seq<Branch<K, V>>, k: K)
    requires
        first.array is Internal,
        first.buffer@.len() == 0,
        forall|i: int|
            0 <= i < branches.len() ==> <Branch<K, V> as Item<K, V>>::shaped(#[trigger] branches[i]),
    ensures
        waiting_in(first, branches, Seq::empty(), k) == match deep_spot(first, branches, k) {
            Spot::Hit(v) => seq![v],
            Spot::Down(n) => n.waiting(Seq::empty(), k),
        },
        settled_in(first, branches, k) == match deep_spot(first, branches, k) {
            Spot::Hit(v) => true,
            Spot::Down(n) => n.settled(k),
        },
{
    lemma_spot(first, branches, k);
    match spot(first, branches, k) {
        Spot::Hit(v) => {},
        Spot::Down(n) => {
            let i = rank(keys_of(branches), k);
            if 0 < i <= branches.len() {
                assert(<Branch<K, V> as Item<K, V>>::shaped(branches[i - 1]));
            }
            assert(n.buffer@ =~= Seq::<(K, V)>::empty());
            lemma_internal(n, Seq::empty(), k, None, None);
            lemma_spot(*n.array->Internal_0.first_child, n.array->Internal_0.elements@, k);
        },
    }
}

/// An internal node that was split leads every key where its branches led it
/// before they were parted: the new branches are in strictly ascending order,
/// their heads are among those branches, and a key meets, two levels down,
/// what it met in the unsplit array.
pub(crate) proof fn lemma_internal_split<K: Ord, V>(node: Node<K, V>, nb: Seq<Branch<K, V>>)
    requires
        lawful_order::<K>(),
        node.array is Internal,
        node.buffer@.len() == 0,
        forall|i: int| 0 <= i < nb.len() ==> <Branch<K, V> as Item<K, V>>::shaped(#[trigger] nb[i]),
        strictly_ascending(
            keys_of(flat::<K, V, Branch<K, V>>(node.array->Internal_0.elements@, nb)),
        ),
    ensures
        strictly_ascending(keys_of(nb)),
        forall|i: int|
            0 <= i < nb.len() ==> find(
                flat::<K, V, Branch<K, V>>(node.array->Internal_0.elements@, nb),
                (#[trigger] nb[i]).key,
            ) is Some,
        forall|k: K| #[trigger]
            deep_spot(node, nb, k) == spot(
                *node.array->Internal_0.first_child,
                flat::<K, V, Branch<K, V>>(node.array->Internal_0.elements@, nb),
                k,
            ),
    decreases nb.len(),
{
    lemma_order_laws::<K>();
    let own = node.array->Internal_0.elements@;
    let first = *node.array->Internal_0.first_child;
    let f = flat::<K, V, Branch<K, V>>(own, nb);
    lemma_split_heads::<K, V, Branch<K, V>>(own, nb);
    if nb.len() == 0 {
        assert(unfolded::<K, V, Branch<K, V>>(nb) =~= Seq::<Branch<K, V>>::empty());
        assert(f =~= own);
    } else {
        let front = nb.drop_last();
        let last = nb.last();
        let ff = flat::<K, V, Branch<K, V>>(own, front);
        let head = <Branch<K, V> as Item<K, V>>::head_of(last);
        let run = <Branch<K, V> as Item<K, V>>::run_of(last);
        let pre = ff + seq![head];
        assert(f =~= pre + run);
        assert(ff.push(head) =~= pre);
        lemma_strict_parts(pre, run);
        lemma_strict_parts(ff, seq![head]);
        assert forall|i: int| 0 <= i < front.len() implies <Branch<K, V> as Item<K, V>>::shaped(
            #[trigger] front[i],
        ) by {
            assert(front[i] == nb[i]);
        }
        lemma_internal_split(node, front);
        assert(f[ff.len() as int] == head);
        assert forall|i: int| 0 <= i < front.len() implies below(
            (#[trigger] front[i]).key,
            last.key,
        ) by {
            assert(below(keys_of(nb)[i], keys_of(nb)[nb.len() - 1]));
        }
        lemma_strict_ascends(keys_of(front));
        assert(keys_of(nb).drop_last() =~= keys_of(front));
        assert forall|k: K| #[trigger] deep_spot(node, nb, k) == spot(first, f, k) by {
            lemma_rank(keys_of(front), k);
            lemma_rank_parts(pre, run, k);
            lemma_rank_parts(ff, seq![head], k);
            let i = rank(keys_of(front), k);
            let r = rank(keys_of(run), k);
            let p = rank(keys_of(f), k);
            assert(keys_of(seq![head])[0] == head.key);
            assert(keys_of(seq![head]).drop_last() =~= Seq::<K>::empty());
            if below(last.key, k) {
                assert(rank(keys_of(nb), k) == nb.len());
                assert(spot(node, nb, k) == Spot::Down(*last.child));
                assert(rank(keys_of(seq![head]), k) == 1);
                assert(rank(keys_of(pre), k) == ff.len() + 1);
                if r > 0 {
                    assert(p == pre.len() + r);
                } else {
                    assert(p == pre.len());
                }
                if r < run.len() {
                    assert(f[p] == run[r]);
                    assert(keys_of(f)[p] == keys_of(run)[r]);
                }
                if r > 0 {
                    assert(f[p - 1] == run[r - 1]);
                } else {
                    assert(f[p - 1] == head);
                }
            } else {
                assert(rank(keys_of(nb), k) == i);
                assert(rank(keys_of(seq![head]).drop_last(), k) == 0);
                assert(rank(keys_of(seq![head]), k) == 0);
                lemma_strict_ascends(keys_of(run));
                lemma_rank(keys_of(run), k);
                if r > 0 {
                    assert(below(keys_of(run)[0], k));
                    assert(below(pre[ff.len() as int].key_spec(), run[0].key_spec()));
                }
                assert(r == 0);
                assert(p == rank(keys_of(ff), k));
                if k == last.key {
                    assert forall|j: int| 0 <= j < front.len() implies below(
                        #[trigger] keys_of(front)[j],
                        k,
                    ) by {
                        assert(below(front[j].key, last.key));
                    }
                    lemma_rank_is(keys_of(front), k, front.len() as int);
                    assert forall|j: int| 0 <= j < ff.len() implies below(
                        #[trigger] keys_of(ff)[j],
                        k,
                    ) by {
                        assert(below(ff[j].key_spec(), seq![head][0].key_spec()));
                    }
                    lemma_rank_is(keys_of(ff), k, ff.len() as int);
                    assert(keys_of(nb)[front.len() as int] == last.key);
                    assert(keys_of(f)[ff.len() as int] == head.key);
                } else {
                    assert(spot(node, nb, k) == spot(node, front, k)) by {
                        if i < front.len() {
                            assert(keys_of(nb)[i] == keys_of(front)[i]);
                            assert(nb[i] == front[i]);
                        }
                        if i > 0 {
                            assert(nb[i - 1] == front[i - 1]);
                        }
                    }
                    assert(deep_spot(node, front, k) == spot(first, ff, k));
                    lemma_strict_ascends(keys_of(ff));
                    lemma_rank(keys_of(ff), k);
                    assert(spot(first, f, k) == spot(first, ff, k)) by {
                        if p < ff.len() {
                            assert(keys_of(f)[p] == keys_of(ff)[p]);
                            assert(f[p] == ff[p]);
                        } else {
                            assert(keys_of(f)[p] == head.key);
                        }
                        if p > 0 {
                            assert(f[p - 1] == ff[p - 1]);
                        }
                    }
                }
            }
        }
    }
}

/// An internal node that was split is well formed, together with its new
/// branches, where the unsplit array was.
pub(crate) proof fn lemma_internal_split_wf<K: Ord, V>(
    node: Node<K, V>,
    nb: Seq<Branch<K, V>>,
    lo: Option<K>,
    hi: Option<K>,
)
    requires
        lawful_order::<K>(),
        node.array is Internal,
        node.buffer@.len() == 0,
        node.array->Internal_0.elements@.len() <= B,
        forall|i: int| 0 <= i < nb.len() ==> <Branch<K, V> as Item<K, V>>::shaped(#[trigger] nb[i]),
        forall|i: int|
            0 <= i < nb.len() ==> (#[trigger] <Branch<K, V> as Item<K, V>>::run_of(nb[i])).len()
                <= B,
        wf_in(
            *node.array->Internal_0.first_child,
            flat::<K, V, Branch<K, V>>(node.array->Internal_0.elements@, nb),
            lo,
            hi,
        ),
    ensures
        wf_in(node, nb, lo, hi),
    decreases nb.len(),
{
    lemma_order_laws::<K>();
    let own = node.array->Internal_0.elements@;
    let first = *node.array->Internal_0.first_child;
    let f = flat::<K, V, Branch<K, V>>(own, nb);
    if nb.len() == 0 {
        assert(unfolded::<K, V, Branch<K, V>>(nb) =~= Seq::<Branch<K, V>>::empty());
        assert(f =~= own);
        assert(node.buffer@ =~= Seq::<(K, V)>::empty());
        lemma_internal(node, Seq::empty(), arbitrary(), lo, hi);
        assert(node.wf(lo, hi));
        assert forall|i: int| 0 <= i <= nb.len() implies (#[trigger] child_of(node, nb, i)).wf(
            lower(keys_of(nb), i, lo),
            upper(keys_of(nb), i, hi),
        ) by {}
    } else {
        let front = nb.drop_last();
        let last = nb.last();
        let ff = flat::<K, V, Branch<K, V>>(own, front);
        let head = <Branch<K, V> as Item<K, V>>::head_of(last);
        let run = <Branch<K, V> as Item<K, V>>::run_of(last);
        let pre = ff + seq![head];
        let keys = keys_of(nb);
        assert(f =~= pre + run);
        assert(ff.push(head) =~= pre);
        lemma_strict_parts(pre, run);
        lemma_strict_parts(ff, seq![head]);
        assert(f[ff.len() as int] == head);
        assert(in_range(keys_of(f)[ff.len() as int], lo, hi));
        assert forall|i: int| 0 <= i < front.len() implies <Branch<K, V> as Item<K, V>>::shaped(
            #[trigger] front[i],
        ) && (#[trigger] <Branch<K, V> as Item<K, V>>::run_of(front[i])).len() <= B by {
            assert(front[i] == nb[i]);
        }
        assert forall|i: int| 0 <= i < keys_of(ff).len() implies in_range(
            #[trigger] keys_of(ff)[i],
            lo,
            Some(last.key),
        ) by {
            assert(in_range(keys_of(f)[i], lo, hi));
            assert(below(ff[i].key_spec(), seq![head][0].key_spec()));
        }
        assert forall|i: int| 0 <= i <= ff.len() implies (#[trigger] child_of(first, ff, i)).wf(
            lower(keys_of(ff), i, lo),
            upper(keys_of(ff), i, Some(last.key)),
        ) by {
            assert(child_of(first, f, i).wf(lower(keys_of(f), i, lo), upper(keys_of(f), i, hi)));
            if i > 0 {
                assert(f[i - 1] == ff[i - 1]);
                assert(keys_of(f)[i - 1] == keys_of(ff)[i - 1]);
            }
            if i < ff.len() {
                assert(keys_of(f)[i] == keys_of(ff)[i]);
            } else {
                assert(keys_of(f)[i] == head.key);
            }
        }
        lemma_internal_split_wf(node, front, lo, Some(last.key));
        lemma_internal_split(node, nb);
        assert forall|i: int| 0 <= i < keys.len() implies in_range(#[trigger] keys[i], lo, hi) by {
            if i < front.len() {
                assert(in_range(keys_of(front)[i], lo, Some(last.key)));
            }
        }
        assert forall|i: int| 0 <= i <= nb.len() implies (#[trigger] child_of(node, nb, i)).wf(
            lower(keys, i, lo),
            upper(keys, i, hi),
        ) by {
            if i < nb.len() {
                assert(child_of(node, front, i).wf(
                    lower(keys_of(front), i, lo),
                    upper(keys_of(front), i, Some(last.key)),
                ));
                if i > 0 {
                    assert(nb[i - 1] == front[i - 1]);
                    assert(keys[i - 1] == keys_of(front)[i - 1]);
                }
                if i < front.len() {
                    assert(keys[i] == keys_of(front)[i]);
                }
            } else {
                let child = *last.child;
                assert(child.buffer@ =~= Seq::<(K, V)>::empty());
                lemma_internal(child, Seq::empty(), arbitrary(), Some(last.key), hi);
                assert forall|j: int| 0 <= j < keys_of(run).len() implies in_range(
                    #[trigger] keys_of(run)[j],
                    Some(last.key),
                    hi,
                ) by {
                    assert(in_range(keys_of(f)[ff.len() + 1 + j], lo, hi));
                    assert(below(pre[ff.len() as int].key_spec(), run[j].key_spec()));
                }
                assert forall|j: int| 0 <= j <= run.len() implies (#[trigger] child_of(
                    *head.child,
                    run,
                    j,
                )).wf(lower(keys_of(run), j, Some(last.key)), upper(keys_of(run), j, hi)) by {
                    let p = ff.len() + 1 + j;
                    assert(child_of(first, f, p).wf(
                        lower(keys_of(f), p, lo),
                        upper(keys_of(f), p, hi),
                    ));
                    if j > 0 {
                        assert(f[p - 1] == run[j - 1]);
                        assert(keys_of(f)[p - 1] == keys_of(run)[j - 1]);
                    } else {
                        assert(f[p - 1] == head);
                        assert(keys_of(f)[p - 1] == head.key);
                    }
                    if j < run.len() {
                        assert(keys_of(f)[p] == keys_of(run)[j]);
                    }
                }
                assert(wf_in(*head.child, run, Some(last.key), hi));
                assert(child.wf(Some(last.key), hi));
            }
        }
    }
}

/// The branches `e` with the branches `nb` put in before position `c`.
pub open spec fn grafted<K, V>(e: Seq<Branch<K, V>>, c: int, nb: Seq<Branch<K, V>>) -> Seq<
    Branch<K, V>,
> {
    e.subrange(0, c) + nb + e.subrange(c, e.len() as int)
}

/// Branches that came up from child `c` merge into the array by standing
/// before position `c`.
pub(crate) proof fn lemma_graft_merged<K: Ord, V>(
    e: Seq<Branch<K, V>>,
    c: int,
    nb: Seq<Branch<K, V>>,
    lo: Option<K>,
    hi: Option<K>,
)
    requires
        lawful_order::<K>(),
        0 <= c <= e.len(),
        strictly_ascending(keys_of(e)),
        strictly_ascending(keys_of(nb)),
        all_in_range(keys_of(nb), lower(keys_of(e), c, lo), upper(keys_of(e), c, hi)),
    ensures
        merged(e, nb, grafted(e, c, nb)),
{
    lemma_order_laws::<K>();
    let g = grafted(e, c, nb);
    let m = nb.len() as int;
    assert forall|i: int| 0 <= i < g.len() implies #[trigger] g[i] == (if i < c {
        e[i]
    } else if i < c + m {
        nb[i - c]
    } else {
        e[i - m]
    }) by {}
    assert forall|i: int, j: int| 0 <= i < j < keys_of(g).len() implies below(
        #[trigger] keys_of(g)[i],
        #[trigger] keys_of(g)[j],
    ) by {
        let gi = g[i];
        let gj = g[j];
        if j < c {
            assert(below(keys_of(e)[i], keys_of(e)[j]));
        } else if j < c + m {
            if i < c {
                assert(in_range(keys_of(nb)[j - c], lower(keys_of(e), c, lo), upper(keys_of(e), c, hi)));
                if i < c - 1 {
                    assert(below(keys_of(e)[i], keys_of(e)[c - 1]));
                }
            } else {
                assert(below(keys_of(nb)[i - c], keys_of(nb)[j - c]));
            }
        } else {
            if i < c {
                assert(below(keys_of(e)[i], keys_of(e)[j - m]));
            } else if i < c + m {
                assert(in_range(keys_of(nb)[i - c], lower(keys_of(e), c, lo), upper(keys_of(e), c, hi)));
                if j - m > c {
                    assert(below(keys_of(e)[c], keys_of(e)[j - m]));
                }
            } else {
                assert(below(keys_of(e)[i - m], keys_of(e)[j - m]));
            }
        }
    }
    assert forall|k: K| #[trigger] find(g, k) == target(e, nb, k) by {
        lemma_find(nb, k);
        lemma_find(e, k);
        lemma_find(g, k);
        if let Some(x) = find(nb, k) {
            let j = choose|j: int| 0 <= j < nb.len() && nb[j] == x;
            assert(g[c + j] == x);
            lemma_find_at(g, c + j);
        } else if let Some(x) = find(e, k) {
            let i = choose|i: int| 0 <= i < e.len() && e[i] == x;
            let i2 = if i < c { i } else { i + m };
            assert(g[i2] == x);
            lemma_find_at(g, i2);
        } else {
            if let Some(y) = find(g, k) {
                let i = choose|i: int| 0 <= i < g.len() && g[i] == y;
                if i < c {
                    assert(e[i].key_spec() == k);
                } else if i < c + m {
                    assert(nb[i - c].key_spec() == k);
                } else {
                    assert(e[i - m].key_spec() == k);
                }
            }
        }
    }
}

/// After branches came up from child `c`, a key that led to that child meets
/// what it meets among the child and those branches, and every other key
/// meets what it met.
pub(crate) proof fn lemma_graft<K: Ord, V>(
    first: Node<K, V>,
    e: Seq<Branch<K, V>>,
    c: int,
    nb: Seq<Branch<K, V>>,
    lo: Option<K>,
    hi: Option<K>,
    k: K,
)
    requires
        lawful_order::<K>(),
        0 <= c <= e.len(),
        strictly_ascending(keys_of(e)),
        strictly_ascending(keys_of(nb)),
        all_in_range(keys_of(nb), lower(keys_of(e), c, lo), upper(keys_of(e), c, hi)),
    ensures
        spot(first, grafted(e, c, nb), k) == if rank(keys_of(e), k) == c && !(c < e.len()
            && e[c].key == k) {
            spot(child_of(first, e, c), nb, k)
        } else {
            spot(first, e, k)
        },
{
    lemma_order_laws::<K>();
    lemma_graft_merged(e, c, nb, lo, hi);
    let g = grafted(e, c, nb);
    let m = nb.len() as int;
    let a = e.subrange(0, c);
    let z = e.subrange(c, e.len() as int);
    assert(a + z =~= e);
    lemma_strict_ascends(keys_of(e));
    lemma_strict_ascends(keys_of(nb));
    lemma_rank(keys_of(e), k);
    lemma_rank(keys_of(nb), k);
    let i = rank(keys_of(e), k);
    let j = rank(keys_of(nb), k);
    assert forall|x: int| 0 <= x < g.len() implies #[trigger] g[x] == (if x < c {
        e[x]
    } else if x < c + m {
        nb[x - c]
    } else {
        e[x - m]
    }) by {}
    let p = if i < c {
        i
    } else if i == c && !(c < e.len() && e[c].key == k) {
        c + j
    } else {
        i + m
    };
    assert forall|x: int| 0 <= x < p implies below(#[trigger] keys_of(g)[x], k) by {
        if x < c {
            if i >= c {
                assert(below(keys_of(e)[x], k));
            } else {
                assert(below(keys_of(e)[x], k));
            }
        } else if x < c + m {
            if i == c && !(c < e.len() && e[c].key == k) {
                assert(below(keys_of(nb)[x - c], k));
            } else {
                assert(in_range(
                    keys_of(nb)[x - c],
                    lower(keys_of(e), c, lo),
                    upper(keys_of(e), c, hi),
                ));
                assert(c < e.len());
                if i > c {
                    assert(below(keys_of(e)[c], k));
                } else {
                    assert(keys_of(e)[c] == k);
                }
            }
        } else {
            assert(below(keys_of(e)[x - m], k));
        }
    }
    assert forall|x: int| p <= x < g.len() implies !below(#[trigger] keys_of(g)[x], k) by {
        if x < c {
            assert(!below(keys_of(e)[x], k));
        } else if x < c + m {
            if i == c && !(c < e.len() && e[c].key == k) {
                assert(!below(keys_of(nb)[x - c], k));
            } else {
                assert(i < c);
                assert(in_range(
                    keys_of(nb)[x - c],
                    lower(keys_of(e), c, lo),
                    upper(keys_of(e), c, hi),
                ));
                assert(!below(keys_of(e)[c - 1], k));
            }
        } else {
            assert(!below(keys_of(e)[x - m], k));
        }
    }
    lemma_rank_is(keys_of(g), k, p);
    if i < c {
        assert(keys_of(g)[p] == keys_of(e)[i]);
        if p > 0 {
            assert(g[p - 1] == e[i - 1]);
        }
    } else if i == c && !(c < e.len() && e[c].key == k) {
        if j < m {
            assert(keys_of(g)[p] == keys_of(nb)[j]);
            assert(g[p] == nb[j]);
        } else if p < g.len() {
            assert(keys_of(g)[p] == keys_of(e)[c]);
        }
        if j > 0 {
            assert(g[p - 1] == nb[j - 1]);
        } else if c > 0 {
            assert(g[p - 1] == e[c - 1]);
        }
    } else {
        if i < e.len() {
            assert(keys_of(g)[p] == keys_of(e)[i]);
            assert(g[p] == e[i]);
        }
        if i > 0 {
            if i - 1 >= c {
                assert(g[p - 1] == e[i - 1]);
            } else {
                assert(i == c && m >= 0);
                if m > 0 {
                    assert(g[p - 1] == nb[m - 1]);
                    assert(in_range(
                        keys_of(nb)[m - 1],
                        lower(keys_of(e), c, lo),
                        upper(keys_of(e), c, hi),
                    ));
                } else {
                    assert(g[p - 1] == e[i - 1]);
                }
            }
        }
    }
}

/// An array stays well formed when branches come up from child `c`, where
/// that child and those branches are well formed between the bounds that the
/// child had.
pub(crate) proof fn lemma_graft_wf<K: Ord, V>(
    first: Node<K, V>,
    e: Seq<Branch<K, V>>,
    c: int,
    nb: Seq<Branch<K, V>>,
    lo: Option<K>,
    hi: Option<K>,
)
    requires
        lawful_order::<K>(),
        0 <= c <= e.len(),
        strictly_ascending(keys_of(e)),
        all_in_range(keys_of(e), lo, hi),
        forall|i: int|
            0 <= i <= e.len() && i != c ==> (#[trigger] child_of(first, e, i)).wf(
                lower(keys_of(e), i, lo),
                upper(keys_of(e), i, hi),
            ),
        wf_in(child_of(first, e, c), nb, lower(keys_of(e), c, lo), upper(keys_of(e), c, hi)),
    ensures
        wf_in(first, grafted(e, c, nb), lo, hi),
{
    lemma_order_laws::<K>();
    lemma_graft_merged(e, c, nb, lo, hi);
    let g = grafted(e, c, nb);
    let m = nb.len() as int;
    let child = child_of(first, e, c);
    let clo = lower(keys_of(e), c, lo);
    let chi = upper(keys_of(e), c, hi);
    assert forall|x: int| 0 <= x < g.len() implies #[trigger] g[x] == (if x < c {
        e[x]
    } else if x < c + m {
        nb[x - c]
    } else {
        e[x - m]
    }) by {}
    assert forall|x: int| 0 <= x < keys_of(g).len() implies in_range(
        #[trigger] keys_of(g)[x],
        lo,
        hi,
    ) by {
        if x < c {
            assert(in_range(keys_of(e)[x], lo, hi));
        } else if x < c + m {
            assert(in_range(keys_of(nb)[x - c], clo, chi));
            if c > 0 {
                assert(in_range(keys_of(e)[c - 1], lo, hi));
            }
            if c < e.len() {
                assert(in_range(keys_of(e)[c], lo, hi));
            }
        } else {
            assert(in_range(keys_of(e)[x - m], lo, hi));
        }
    }
    assert forall|x: int| 0 <= x <= g.len() implies (#[trigger] child_of(first, g, x)).wf(
        lower(keys_of(g), x, lo),
        upper(keys_of(g), x, hi),
    ) by {
        if x < c {
            assert(child_of(first, e, x).wf(lower(keys_of(e), x, lo), upper(keys_of(e), x, hi)));
            if x > 0 {
                assert(g[x - 1] == e[x - 1]);
                assert(keys_of(g)[x - 1] == keys_of(e)[x - 1]);
            }
            assert(keys_of(g)[x] == keys_of(e)[x]);
        } else if x <= c + m {
            let y = x - c;
            assert(child_of(child, nb, y).wf(
                lower(keys_of(nb), y, clo),
                upper(keys_of(nb), y, chi),
            ));
            if y > 0 {
                assert(g[x - 1] == nb[y - 1]);
                assert(keys_of(g)[x - 1] == keys_of(nb)[y - 1]);
            } else if c > 0 {
                assert(g[x - 1] == e[c - 1]);
                assert(keys_of(g)[x - 1] == keys_of(e)[c - 1]);
            }
            if y < m {
                assert(keys_of(g)[x] == keys_of(nb)[y]);
            } else if x < g.len() {
                assert(keys_of(g)[x] == keys_of(e)[c]);
            }
        } else {
            let y = x - m;
            assert(child_of(first, e, y).wf(lower(keys_of(e), y, lo), upper(keys_of(e), y, hi)));
            assert(g[x - 1] == e[y - 1]);
            assert(keys_of(g)[x - 1] == keys_of(e)[y - 1]);
            if x < g.len() {
                assert(keys_of(g)[x] == keys_of(e)[y]);
            }
        }
    }
}

/// After branches came up from child `c`, a key that led to that child leads
/// to the child to which it leads among that child and those branches.
pub(crate) proof fn lemma_graft_route<K: Ord, V>(
    first: Node<K, V>,
    e: Seq<Branch<K, V>>,
    c: int,
    nb: Seq<Branch<K, V>>,
    lo: Option<K>,
    hi: Option<K>,
    k: K,
)
    requires
        lawful_order::<K>(),
        0 <= c <= e.len(),
        strictly_ascending(keys_of(e)),
        strictly_ascending(keys_of(nb)),
        all_in_range(keys_of(nb), lower(keys_of(e), c, lo), upper(keys_of(e), c, hi)),
        rank(keys_of(e), k) == c,
    ensures
        rank(keys_of(grafted(e, c, nb)), k) == c + rank(keys_of(nb), k),
        child_of(first, grafted(e, c, nb), c + rank(keys_of(nb), k)) == child_of(
            child_of(first, e, c),
            nb,
            rank(keys_of(nb), k),
        ),
{
    lemma_order_laws::<K>();
    let g = grafted(e, c, nb);
    let m = nb.len() as int;
    lemma_strict_ascends(keys_of(e));
    lemma_strict_ascends(keys_of(nb));
    lemma_rank(keys_of(e), k);
    lemma_rank(keys_of(nb), k);
    let j = rank(keys_of(nb), k);
    assert forall|x: int| 0 <= x < g.len() implies #[trigger] g[x] == (if x < c {
        e[x]
    } else if x < c + m {
        nb[x - c]
    } else {
        e[x - m]
    }) by {}
    let p = c + j;
    assert forall|x: int| 0 <= x < p implies below(#[trigger] keys_of(g)[x], k) by {
        if x < c {
            assert(below(keys_of(e)[x], k));
        } else {
            assert(below(keys_of(nb)[x - c], k));
        }
    }
    assert forall|x: int| p <= x < g.len() implies !below(#[trigger] keys_of(g)[x], k) by {
        if x < c + m {
            assert(!below(keys_of(nb)[x - c], k));
        } else {
            assert(!below(keys_of(e)[x - m], k));
        }
    }
    lemma_rank_is(keys_of(g), k, p);
    if j > 0 {
        assert(g[p - 1] == nb[j - 1]);
    } else if c > 0 {
        assert(g[p - 1] == e[c - 1]);
    }
}

/// An internal node that was split leads every key, two levels down, to the
/// child to which its branches led it before they were parted.
pub(crate) proof fn lemma_internal_split_route<K: Ord, V>(node: Node<K, V>, nb: Seq<Branch<K, V>>, k: K)
    requires
        lawful_order::<K>(),
        node.array is Internal,
        node.buffer@.len() == 0,
        forall|i: int| 0 <= i < nb.len() ==> <Branch<K, V> as Item<K, V>>::shaped(#[trigger] nb[i]),
        strictly_ascending(
            keys_of(flat::<K, V, Branch<K, V>>(node.array->Internal_0.elements@, nb)),
        ),
    ensures
        ({
            let part = child_of(node, nb, rank(keys_of(nb), k));
            let f = flat::<K, V, Branch<K, V>>(node.array->Internal_0.elements@, nb);
            &&& part.array is Internal
            &&& part.buffer@.len() == 0
            &&& child_of(
                *part.array->Internal_0.first_child,
                part.array->Internal_0.elements@,
                rank(keys_of(part.array->Internal_0.elements@), k),
            ) == child_of(*node.array->Internal_0.first_child, f, rank(keys_of(f), k))
        }),
    decreases nb.len(),
{
    lemma_order_laws::<K>();
    let own = node.array->Internal_0.elements@;
    let first = *node.array->Internal_0.first_child;
    let f = flat::<K, V, Branch<K, V>>(own, nb);
    crate::seqs::lemma_rank_bounds(keys_of(nb), k);
    if nb.len() == 0 {
        assert(unfolded::<K, V, Branch<K, V>>(nb) =~= Seq::<Branch<K, V>>::empty());
        assert(f =~= own);
    } else {
        let front = nb.drop_last();
        let last = nb.last();
        let ff = flat::<K, V, Branch<K, V>>(own, front);
        let head = <Branch<K, V> as Item<K, V>>::head_of(last);
        let run = <Branch<K, V> as Item<K, V>>::run_of(last);
        let pre = ff + seq![head];
        assert(f =~= pre + run);
        assert(ff.push(head) =~= pre);
        lemma_strict_parts(pre, run);
        lemma_strict_parts(ff, seq![head]);
        assert forall|i: int| 0 <= i < front.len() implies <Branch<K, V> as Item<K, V>>::shaped(
            #[trigger] front[i],
        ) by {
            assert(front[i] == nb[i]);
        }
        lemma_internal_split(node, front);
        lemma_internal_split_route(node, front, k);
        lemma_strict_ascends(keys_of(front));
        lemma_rank(keys_of(front), k);
        assert(keys_of(nb).drop_last() =~= keys_of(front));
        lemma_rank_parts(pre, run, k);
        lemma_rank_parts(ff, seq![head], k);
        let i = rank(keys_of(front), k);
        let r = rank(keys_of(run), k);
        let p = rank(keys_of(f), k);
        assert(keys_of(seq![head])[0] == head.key);
        assert(keys_of(seq![head]).drop_last() =~= Seq::<K>::empty());
        assert(<Branch<K, V> as Item<K, V>>::shaped(nb[nb.len() - 1]));
        if below(last.key, k) {
            assert(rank(keys_of(nb), k) == nb.len());
            assert(rank(keys_of(seq![head]), k) == 1);
            assert(rank(keys_of(pre), k) == ff.len() + 1);
            if r > 0 {
                assert(p == pre.len() + r);
                assert(f[p - 1] == run[r - 1]);
            } else {
                assert(p == pre.len());
                assert(f[p - 1] == head);
            }
        } else {
            assert(rank(keys_of(nb), k) == i);
            assert(rank(keys_of(seq![head]).drop_last(), k) == 0);
            assert(rank(keys_of(seq![head]), k) == 0);
            lemma_strict_ascends(keys_of(run));
            lemma_rank(keys_of(run), k);
            if r > 0 {
                assert(below(keys_of(run)[0], k));
                assert(below(pre[ff.len() as int].key_spec(), run[0].key_spec()));
            }
            assert(p == rank(keys_of(ff), k));
            assert(child_of(node, nb, i) == child_of(node, front, i)) by {
                if i > 0 {
                    assert(nb[i - 1] == front[i - 1]);
                }
            }
            lemma_strict_ascends(keys_of(ff));
            lemma_rank(keys_of(ff), k);
            assert(child_of(first, f, p) == child_of(first, ff, p)) by {
                if p > 0 {
                    assert(f[p - 1] == ff[p - 1]);
                }
            }
        }
    }
}

} // verus!
