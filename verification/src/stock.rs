//! Counting what a tree holds.
//!
//! The stock of a subtree is the bag of the keys of all the pairs that it
//! holds: in buffers, in the arrays of leaves, and as separators. A key is
//! in the stock as often as values wait under it, so the size of the stock
//! is the number of pairs that are held, and filing takes out of the stock
//! exactly the pairs that it drops.
use crate::items::{flat, unfolded, Item};
use crate::node::{child_of, joined, lemma_internal, lower, upper, wf_in, Array, Branch, Node};
use crate::order::{below, lawful_order, lemma_order_laws};
use crate::seqs::{
    all_in_range, in_range, keyed, keys_of, lemma_keyed_add, lemma_keyed_routed, lemma_rank, rank,
    routed, strictly_ascending, Keyed,
};
use crate::shape::{lemma_keyed_none, lemma_strict_ascends};
use vstd::multiset::Multiset;
use vstd::prelude::*;
use vstd::seq_lib::lemma_multiset_commutative;

verus! {

/// The bag of the keys of `s`.
pub open spec fn bag<K, I: Keyed<K>>(s: Seq<I>) -> Multiset<K> {
    keys_of(s).to_multiset()
}

impl<K: Ord, V> Node<K, V> {
    /// The bag of the keys of all pairs that the subtree holds.
    pub open(crate) spec fn stock(self) -> Multiset<K>
        decreases self,
    {
        bag(self.buffer@).add(
            match self.array {
                Array::Leaf(la) => bag(la.elements@),
                Array::Internal(ia) => ia.first_child.stock().add(stock_of(ia.elements@)),
            },
        )
    }
}

/// The bag of the keys of the branches `bs` and of all pairs below them.
pub open(crate) spec fn stock_of<K: Ord, V>(bs: Seq<Branch<K, V>>) -> Multiset<K>
    decreases bs,
{
    if bs.len() == 0 {
        Multiset::empty()
    } else {
        stock_of(bs.drop_last()).insert(bs.last().key).add(bs.last().child.stock())
    }
}

/// The bag of the keys of all pairs that an array holds.
pub open(crate) spec fn stock_in<K: Ord, V>(first: Node<K, V>, bs: Seq<Branch<K, V>>) -> Multiset<K> {
    first.stock().add(stock_of(bs))
}

/// The bag of a sequence has the size of the sequence, holds a key as often
/// as the sequence has values under it, and is the sum of the bags of its
/// parts.
pub proof fn lemma_bag<K, I: Keyed<K>>(a: Seq<I>, b: Seq<I>)
    ensures
        bag(a).len() == a.len(),
        bag(a + b) == bag(a).add(bag(b)),
        bag(a + b) == bag(b + a),
{
    broadcast use vstd::multiset::group_multiset_axioms;

    vstd::seq_lib::to_multiset_len(keys_of(a));
    assert(keys_of(a + b) =~= keys_of(a) + keys_of(b));
    assert(keys_of(b + a) =~= keys_of(b) + keys_of(a));
    lemma_multiset_commutative(keys_of(a), keys_of(b));
    lemma_multiset_commutative(keys_of(b), keys_of(a));
    assert(bag(a + b) =~= bag(a).add(bag(b)));
    assert(bag(b + a) =~= bag(a).add(bag(b)));
}

/// The bag of a sequence that ends in `x`.
pub proof fn lemma_bag_push<K, I: Keyed<K>>(s: Seq<I>, x: I)
    ensures
        bag(s.push(x)) == bag(s).insert(x.key_spec()),
{
    assert(keys_of(s.push(x)) =~= keys_of(s).push(x.key_spec()));
    vstd::seq_lib::to_multiset_build(keys_of(s), x.key_spec());
}

/// The bag of pairs holds a key as often as the pairs have values under it.
pub proof fn lemma_bag_count<K, V>(s: Seq<(K, V)>, k: K)
    ensures
        bag(s).count(k) == keyed(s, k).len(),
    decreases s.len(),
{
    broadcast use vstd::multiset::group_multiset_axioms;

    if s.len() == 0 {
        assert(keys_of(s) =~= Seq::<K>::empty());
        vstd::seq_lib::to_multiset_len(keys_of(s));
        vstd::multiset::lemma_multiset_empty_len(bag(s));
    } else {
        let front = s.drop_last();
        lemma_bag_count(front, k);
        assert(s =~= front.push(s.last()));
        lemma_bag_push(front, s.last());
    }
}

/// The stock of branches in two parts.
pub(crate) proof fn lemma_stock_of_add<K: Ord, V>(a: Seq<Branch<K, V>>, b: Seq<Branch<K, V>>)
    ensures
        stock_of(a + b) == stock_of(a).add(stock_of(b)),
    decreases b.len(),
{
    broadcast use vstd::multiset::group_multiset_axioms;

    if b.len() == 0 {
        assert(a + b =~= a);
        assert(stock_of(a + b) =~= stock_of(a).add(stock_of(b)));
    } else {
        assert((a + b).drop_last() =~= a + b.drop_last());
        lemma_stock_of_add(a, b.drop_last());
        assert(stock_of(a + b) =~= stock_of(a).add(stock_of(b)));
    }
}

/// The stock of branches that end in `x`.
pub(crate) proof fn lemma_stock_of_push<K: Ord, V>(bs: Seq<Branch<K, V>>, x: Branch<K, V>)
    ensures
        stock_of(bs.push(x)) == stock_of(bs).insert(x.key).add(x.child.stock()),
{
    assert(bs.push(x).drop_last() =~= bs);
}

/// Branches with the same keys over children with the same stock have the
/// same stock.
pub(crate) proof fn lemma_stock_of_same<K: Ord, V>(a: Seq<Branch<K, V>>, b: Seq<Branch<K, V>>)
    requires
        a.len() == b.len(),
        forall|i: int|
            0 <= i < a.len() ==> (#[trigger] b[i]).key == a[i].key && b[i].child.stock()
                == a[i].child.stock(),
    ensures
        stock_of(b) == stock_of(a),
    decreases a.len(),
{
    if a.len() > 0 {
        assert forall|i: int| 0 <= i < a.drop_last().len() implies (#[trigger] b.drop_last()[i]).key
            == a.drop_last()[i].key && b.drop_last()[i].child.stock()
            == a.drop_last()[i].child.stock() by {
            assert(b[i].key == a[i].key);
        }
        lemma_stock_of_same(a.drop_last(), b.drop_last());
        assert(b[b.len() - 1].key == a[a.len() - 1].key);
    }
}

/// An array one of whose children was changed has, in the place of the size
/// of that child's stock, the size of the stock of the child that is there.
pub(crate) proof fn lemma_stock_child<K: Ord, V>(
    first_a: Node<K, V>,
    e_a: Seq<Branch<K, V>>,
    first_b: Node<K, V>,
    e_b: Seq<Branch<K, V>>,
    j: int,
)
    requires
        0 <= j <= e_a.len(),
        e_b.len() == e_a.len(),
        forall|i: int| 0 <= i < e_a.len() ==> (#[trigger] e_b[i]).key == e_a[i].key,
        forall|i: int|
            0 <= i <= e_a.len() && i != j ==> (#[trigger] child_of(first_b, e_b, i)).stock()
                == child_of(first_a, e_a, i).stock(),
    ensures
        stock_in(first_b, e_b).len() + child_of(first_a, e_a, j).stock().len() == stock_in(
            first_a,
            e_a,
        ).len() + child_of(first_b, e_b, j).stock().len(),
    decreases e_a.len(),
{
    broadcast use vstd::multiset::group_multiset_axioms;

    if e_a.len() == 0 {
    } else {
        let n = e_a.len() as int;
        let fa = e_a.drop_last();
        let fb = e_b.drop_last();
        assert(e_b[n - 1].key == e_a[n - 1].key);
        assert(child_of(first_b, e_b, n) == *e_b[n - 1].child);
        assert(child_of(first_a, e_a, n) == *e_a[n - 1].child);
        if j == n {
            assert forall|i: int| 0 <= i < fa.len() implies (#[trigger] fb[i]).key == fa[i].key
                && fb[i].child.stock() == fa[i].child.stock() by {
                assert(e_b[i].key == e_a[i].key);
                assert(child_of(first_b, e_b, i + 1).stock() == child_of(
                    first_a,
                    e_a,
                    i + 1,
                ).stock());
            }
            lemma_stock_of_same(fa, fb);
            assert(child_of(first_b, e_b, 0).stock() == child_of(first_a, e_a, 0).stock());
        } else {
            assert forall|i: int| 0 <= i < fa.len() implies (#[trigger] fb[i]).key == fa[i].key by {
                assert(e_b[i].key == e_a[i].key);
            }
            assert forall|i: int| 0 <= i <= fa.len() && i != j implies (#[trigger] child_of(
                first_b,
                fb,
                i,
            )).stock() == child_of(first_a, fa, i).stock() by {
                assert(child_of(first_b, e_b, i).stock() == child_of(first_a, e_a, i).stock());
                if i > 0 {
                    assert(fb[i - 1] == e_b[i - 1]);
                    assert(fa[i - 1] == e_a[i - 1]);
                }
            }
            lemma_stock_child(first_a, fa, first_b, fb, j);
            assert(child_of(first_b, fb, j) == child_of(first_b, e_b, j)) by {
                if j > 0 {
                    assert(fb[j - 1] == e_b[j - 1]);
                }
            }
            assert(child_of(first_a, fa, j) == child_of(first_a, e_a, j)) by {
                if j > 0 {
                    assert(fa[j - 1] == e_a[j - 1]);
                }
            }
            assert(child_of(first_b, e_b, n).stock() == child_of(first_a, e_a, n).stock());
        }
    }
}

/// A node at whose buffer a run arrived has the keys of the run added to its
/// stock.
pub(crate) proof fn lemma_stock_arrival<K: Ord, V>(was: Node<K, V>, now: Node<K, V>, inc: Seq<(K, V)>)
    requires
        now.array == was.array,
        now.buffer@ == was.buffer@ + inc || now.buffer@ == inc + was.buffer@,
    ensures
        now.stock() == was.stock().add(bag(inc)),
        now.stock().len() == was.stock().len() + inc.len(),
{
    broadcast use vstd::multiset::group_multiset_axioms;

    lemma_bag(was.buffer@, inc);
    lemma_bag(inc, was.buffer@);
    lemma_bag(inc, Seq::<(K, V)>::empty());
    assert(now.stock() =~= was.stock().add(bag(inc)));
}

/// A leaf that was split holds, together with its new branches, the keys
/// of the items that went into it.
pub(crate) proof fn lemma_stock_leaf_split<K: Ord, V>(node: Node<K, V>, nb: Seq<Branch<K, V>>)
    requires
        node.array is Leaf,
        node.buffer@.len() == 0,
        forall|i: int| 0 <= i < nb.len() ==> <(K, V) as Item<K, V>>::shaped(#[trigger] nb[i]),
    ensures
        stock_in(node, nb) == bag(flat::<K, V, (K, V)>(node.array->Leaf_0.elements@, nb)),
    decreases nb.len(),
{
    broadcast use vstd::multiset::group_multiset_axioms;

    let own = node.array->Leaf_0.elements@;
    let none = Seq::<(K, V)>::empty();
    assert(node.buffer@ =~= none);
    lemma_bag(none, none);
    if nb.len() == 0 {
        assert(unfolded::<K, V, (K, V)>(nb) =~= none);
        assert(flat::<K, V, (K, V)>(own, nb) =~= own);
        assert(stock_in(node, nb) =~= bag(own));
    } else {
        let front = nb.drop_last();
        let last = nb.last();
        let ff = flat::<K, V, (K, V)>(own, front);
        let head = <(K, V) as Item<K, V>>::head_of(last);
        let run = <(K, V) as Item<K, V>>::run_of(last);
        let f = flat::<K, V, (K, V)>(own, nb);
        assert(f =~= ff.push(head) + run);
        assert forall|i: int| 0 <= i < front.len() implies <(K, V) as Item<K, V>>::shaped(
            #[trigger] front[i],
        ) by {
            assert(front[i] == nb[i]);
        }
        lemma_stock_leaf_split(node, front);
        lemma_bag(ff.push(head), run);
        lemma_bag_push(ff, head);
        assert(<(K, V) as Item<K, V>>::shaped(nb[nb.len() - 1]));
        assert(last.child.buffer@ =~= none);
        assert(last.child.stock() =~= bag(run));
        assert(stock_in(node, nb) =~= bag(f));
    }
}

/// An internal node that was split holds, together with its new branches,
/// what the unsplit array held.
pub(crate) proof fn lemma_stock_internal_split<K: Ord, V>(node: Node<K, V>, nb: Seq<Branch<K, V>>)
    requires
        node.array is Internal,
        node.buffer@.len() == 0,
        forall|i: int| 0 <= i < nb.len() ==> <Branch<K, V> as Item<K, V>>::shaped(#[trigger] nb[i]),
    ensures
        stock_in(node, nb) == stock_in(
            *node.array->Internal_0.first_child,
            flat::<K, V, Branch<K, V>>(node.array->Internal_0.elements@, nb),
        ),
    decreases nb.len(),
{
    broadcast use vstd::multiset::group_multiset_axioms;

    let own = node.array->Internal_0.elements@;
    let first = *node.array->Internal_0.first_child;
    let none = Seq::<(K, V)>::empty();
    assert(node.buffer@ =~= none);
    lemma_bag(none, none);
    if nb.len() == 0 {
        assert(unfolded::<K, V, Branch<K, V>>(nb) =~= Seq::<Branch<K, V>>::empty());
        assert(flat::<K, V, Branch<K, V>>(own, nb) =~= own);
        assert(stock_in(node, nb) =~= stock_in(first, own));
    } else {
        let front = nb.drop_last();
        let last = nb.last();
        let ff = flat::<K, V, Branch<K, V>>(own, front);
        let head = <Branch<K, V> as Item<K, V>>::head_of(last);
        let run = <Branch<K, V> as Item<K, V>>::run_of(last);
        let f = flat::<K, V, Branch<K, V>>(own, nb);
        assert(f =~= ff.push(head) + run);
        assert forall|i: int| 0 <= i < front.len() implies <Branch<K, V> as Item<K, V>>::shaped(
            #[trigger] front[i],
        ) by {
            assert(front[i] == nb[i]);
        }
        lemma_stock_internal_split(node, front);
        lemma_stock_of_add(ff.push(head), run);
        lemma_stock_of_push(ff, head);
        assert(<Branch<K, V> as Item<K, V>>::shaped(nb[nb.len() - 1]));
        assert(last.child.buffer@ =~= none);
        assert(last.child.stock() =~= head.child.stock().add(stock_of(run)));
        assert(stock_of(nb) == stock_of(front).insert(last.key).add(last.child.stock()));
        assert(stock_of(f) == stock_of(ff).insert(head.key).add(head.child.stock()).add(
            stock_of(run),
        ));
        assert(stock_in(node, front) == stock_in(first, ff));
        assert forall|k: K| stock_in(node, nb).count(k) == stock_in(first, f).count(k) by {
            assert(stock_in(node, front).count(k) == stock_in(first, ff).count(k));
            assert(stock_in(node, front).count(k) == node.stock().count(k) + stock_of(front).count(
                k,
            ));
            assert(stock_in(first, ff).count(k) == first.stock().count(k) + stock_of(ff).count(k));
            assert(stock_of(nb).count(k) == stock_of(front).insert(last.key).count(k)
                + last.child.stock().count(k));
            assert(last.child.stock().count(k) == head.child.stock().count(k) + stock_of(
                run,
            ).count(k));
        }
        assert(stock_in(node, nb) =~= stock_in(first, f));
    }
}

/// Branches put in among others add their stock to that of the others.
pub(crate) proof fn lemma_stock_graft<K: Ord, V>(e: Seq<Branch<K, V>>, c: int, nb: Seq<Branch<K, V>>)
    requires
        0 <= c <= e.len(),
    ensures
        stock_of(crate::shape::grafted(e, c, nb)) == stock_of(e).add(stock_of(nb)),
{
    broadcast use vstd::multiset::group_multiset_axioms;

    let a = e.subrange(0, c);
    let z = e.subrange(c, e.len() as int);
    assert(a + z =~= e);
    lemma_stock_of_add(a, z);
    lemma_stock_of_add(a + nb, z);
    lemma_stock_of_add(a, nb);
    assert(stock_of(crate::shape::grafted(e, c, nb)) =~= stock_of(e).add(stock_of(nb)));
}

/// An array holds at least what any one of its children holds.
pub(crate) proof fn lemma_stock_has_child<K: Ord, V>(first: Node<K, V>, e: Seq<Branch<K, V>>, j: int)
    requires
        0 <= j <= e.len(),
    ensures
        child_of(first, e, j).stock().len() <= stock_in(first, e).len(),
    decreases e.len(),
{
    broadcast use vstd::multiset::group_multiset_axioms;

    if e.len() > 0 {
        let front = e.drop_last();
        if j < e.len() {
            lemma_stock_has_child(first, front, j);
            assert(child_of(first, front, j) == child_of(first, e, j)) by {
                if j > 0 {
                    assert(front[j - 1] == e[j - 1]);
                }
            }
        }
    }
}

/// What an internal node holds is what its buffer and its array hold.
pub(crate) proof fn lemma_stock_internal<K: Ord, V>(node: Node<K, V>)
    requires
        node.array is Internal,
    ensures
        node.stock() == bag(node.buffer@).add(
            stock_in(*node.array->Internal_0.first_child, node.array->Internal_0.elements@),
        ),
        node.stock().len() == node.buffer@.len() + stock_in(
            *node.array->Internal_0.first_child,
            node.array->Internal_0.elements@,
        ).len(),
{
    broadcast use vstd::multiset::group_multiset_axioms;

    lemma_bag(node.buffer@, Seq::<(K, V)>::empty());
}

/// What a leaf holds is what its buffer and its array hold.
pub(crate) proof fn lemma_stock_leaf<K: Ord, V>(node: Node<K, V>)
    requires
        node.array is Leaf,
    ensures
        node.stock().len() == node.buffer@.len() + node.array->Leaf_0.elements@.len(),
{
    broadcast use vstd::multiset::group_multiset_axioms;

    lemma_bag(node.buffer@, Seq::<(K, V)>::empty());
    lemma_bag(node.array->Leaf_0.elements@, Seq::<(K, V)>::empty());
}

/// What a node and no branches hold is what the node holds.
pub(crate) proof fn lemma_stock_alone<K: Ord, V>(node: Node<K, V>, nb: Seq<Branch<K, V>>)
    requires
        nb.len() == 0,
    ensures
        stock_in(node, nb) == node.stock(),
{
    broadcast use vstd::multiset::group_multiset_axioms;

    assert(stock_in(node, nb) =~= node.stock());
}

/// Branches whose keys and whose children's keys are not `k` do not hold
/// `k`.
pub(crate) proof fn lemma_stock_of_outside<K: Ord, V>(
    e: Seq<Branch<K, V>>,
    n: int,
    k: K,
    lo: Option<K>,
    hi: Option<K>,
)
    requires
        lawful_order::<K>(),
        0 <= n <= e.len(),
        strictly_ascending(keys_of(e)),
        all_in_range(keys_of(e), lo, hi),
        forall|i: int|
            0 <= i < e.len() ==> (#[trigger] e[i]).child.wf(
                Some(keys_of(e)[i]),
                upper(keys_of(e), i + 1, hi),
            ),
        !in_range(k, lo, hi),
    ensures
        stock_of(e.subrange(0, n)).count(k) == 0,
    decreases e, n,
{
    broadcast use vstd::multiset::group_multiset_axioms;

    lemma_order_laws::<K>();
    let keys = keys_of(e);
    if n == 0 {
        assert(e.subrange(0, 0) =~= Seq::<Branch<K, V>>::empty());
    } else {
        lemma_stock_of_outside(e, n - 1, k, lo, hi);
        let part = e.subrange(0, n);
        assert(part.drop_last() =~= e.subrange(0, n - 1));
        assert(part.last() == e[n - 1]);
        assert(in_range(keys[n - 1], lo, hi));
        assert(e[n - 1].child.wf(Some(keys[n - 1]), upper(keys, n - 1 + 1, hi)));
        if n < e.len() {
            assert(in_range(keys[n], lo, hi));
        }
        lemma_stock_outside(*e[n - 1].child, Some(keys[n - 1]), upper(keys, n, hi), k);
    }
}

/// A subtree does not hold a key that does not lie between its bounds.
pub(crate) proof fn lemma_stock_outside<K: Ord, V>(node: Node<K, V>, lo: Option<K>, hi: Option<K>, k: K)
    requires
        lawful_order::<K>(),
        node.wf(lo, hi),
        !in_range(k, lo, hi),
    ensures
        node.stock().count(k) == 0,
    decreases node, 0int,
{
    broadcast use vstd::multiset::group_multiset_axioms;

    lemma_order_laws::<K>();
    lemma_bag_count(node.buffer@, k);
    assert forall|i: int| 0 <= i < node.buffer@.len() implies (#[trigger] node.buffer@[i]).0
        != k by {
        assert(in_range(keys_of(node.buffer@)[i], lo, hi));
    }
    lemma_keyed_none(node.buffer@, k);
    match node.array {
        Array::Leaf(la) => {
            lemma_bag_count(la.elements@, k);
            assert forall|i: int| 0 <= i < la.elements@.len() implies (#[trigger] la.elements@[i]).0
                != k by {
                assert(in_range(keys_of(la.elements@)[i], lo, hi));
            }
            lemma_keyed_none(la.elements@, k);
        },
        Array::Internal(ia) => {
            let keys = keys_of(ia.elements@);
            if keys.len() > 0 {
                assert(in_range(keys[0], lo, hi));
            }
            lemma_stock_outside(*ia.first_child, lo, upper(keys, 0, hi), k);
            lemma_stock_of_outside(ia.elements@, ia.elements@.len() as int, k, lo, hi);
            assert(ia.elements@.subrange(0, ia.elements@.len() as int) =~= ia.elements@);
        },
    }
}

/// Of the first `n` branches of an array and their children, and the first
/// child, only the branch with key `k` and the child to which `k` leads hold
/// `k`.
pub(crate) proof fn lemma_stock_array_count<K: Ord, V>(
    first: Node<K, V>,
    e: Seq<Branch<K, V>>,
    n: int,
    k: K,
    lo: Option<K>,
    hi: Option<K>,
)
    requires
        lawful_order::<K>(),
        wf_in(first, e, lo, hi),
        0 <= n <= e.len(),
    ensures
        ({
            let i = rank(keys_of(e), k);
            first.stock().count(k) + stock_of(e.subrange(0, n)).count(k) == (if i < n
                && keys_of(e)[i] == k {
                1nat
            } else {
                0nat
            }) + (if i <= n {
                child_of(first, e, i).stock().count(k)
            } else {
                0nat
            })
        }),
    decreases n,
{
    broadcast use vstd::multiset::group_multiset_axioms;

    lemma_order_laws::<K>();
    let keys = keys_of(e);
    lemma_strict_ascends(keys);
    lemma_rank(keys, k);
    let i = rank(keys, k);
    if n == 0 {
        assert(e.subrange(0, 0) =~= Seq::<Branch<K, V>>::empty());
        assert(child_of(first, e, 0) == first);
        if i > 0 {
            assert(first.wf(lower(keys, 0, lo), upper(keys, 0, hi)));
            assert(below(keys[0], k) || keys[0] == k) by {
                if i > 1 {
                    assert(below(keys[0], keys[i - 1]));
                }
            }
            lemma_stock_outside(first, lo, upper(keys, 0, hi), k);
        }
    } else {
        lemma_stock_array_count(first, e, n - 1, k, lo, hi);
        let part = e.subrange(0, n);
        assert(part.drop_last() =~= e.subrange(0, n - 1));
        assert(part.last() == e[n - 1]);
        let child = child_of(first, e, n);
        assert(child == *e[n - 1].child);
        assert(child.wf(lower(keys, n, lo), upper(keys, n, hi)));
        if i != n {
            if i < n {
                assert(!below(keys[i], k));
                if i < n - 1 {
                    assert(below(keys[i], keys[n - 1]));
                }
            } else {
                assert(below(keys[n], k));
            }
            lemma_stock_outside(child, lower(keys, n, lo), upper(keys, n, hi), k);
        }
        if keys[n - 1] == k {
            if i < n - 1 {
                assert(below(keys[i], keys[n - 1]));
            }
            if i > n - 1 {
                assert(below(keys[n - 1], k));
            }
        } else if i == n - 1 {
        }
    }
}

/// A subtree holds a key as often as values wait under it: the values of a
/// run that arrives add to the count.
pub(crate) proof fn lemma_stock_count<K: Ord, V>(
    node: Node<K, V>,
    inc: Seq<(K, V)>,
    k: K,
    lo: Option<K>,
    hi: Option<K>,
)
    requires
        lawful_order::<K>(),
        node.wf(lo, hi),
    ensures
        node.stock().count(k) + keyed(inc, k).len() == node.waiting(inc, k).len(),
    decreases node,
{
    broadcast use vstd::multiset::group_multiset_axioms;

    lemma_order_laws::<K>();
    let buf = node.buffer@;
    let b1 = joined(buf, node.buffer_is_sorted, inc);
    lemma_keyed_add(inc, buf, k);
    lemma_keyed_add(buf, inc, k);
    lemma_bag_count(buf, k);
    assert(keyed(b1, k).len() == keyed(buf, k).len() + keyed(inc, k).len()) by {
        if inc.len() == 0 {
            assert(keyed(inc, k) =~= Seq::<V>::empty());
        }
    }
    match node.array {
        Array::Leaf(la) => {
            lemma_bag_count(la.elements@, k);
        },
        Array::Internal(ia) => {
            let keys = keys_of(ia.elements@);
            let e = ia.elements@;
            let first = *ia.first_child;
            let i = rank(keys, k);
            lemma_strict_ascends(keys);
            lemma_rank(keys, k);
            lemma_internal(node, inc, k, lo, hi);
            lemma_stock_array_count(first, e, e.len() as int, k, lo, hi);
            assert(e.subrange(0, e.len() as int) =~= e);
            let child = child_of(first, e, i);
            assert(child.wf(lower(keys, i, lo), upper(keys, i, hi)));
            if 0 <= i < keys.len() && keys[i] == k {
                lemma_stock_outside(child, lower(keys, i, lo), upper(keys, i, hi), k);
            } else {
                let clo = lower(keys, i, None);
                let chi = upper(keys, i, None);
                assert(in_range(k, clo, chi));
                lemma_keyed_routed(b1, clo, chi, k);
                lemma_stock_count(
                    child,
                    routed(b1, clo, chi),
                    k,
                    lower(keys, i, lo),
                    upper(keys, i, hi),
                );
            }
        },
    }
}

/// A bag holds no more different items than items: and as many, if it holds
/// no item twice.
pub proof fn lemma_bag_dom<A>(m: Multiset<A>)
    ensures
        m.dom().finite(),
        m.dom().len() <= m.len(),
        (forall|a: A| m.count(a) <= 1) ==> m.dom().len() == m.len(),
    decreases m.len(),
{
    broadcast use vstd::multiset::group_multiset_axioms;
    broadcast use vstd::set::group_set_axioms;

    if m.len() == 0 {
        vstd::multiset::lemma_multiset_empty_len(m);
        assert(m.dom() =~= Set::<A>::empty());
    } else {
        let x = m.choose();
        let rest = m.remove(x);
        assert(Multiset::singleton(x).subset_of(m));
        assert(rest.len() == m.len() - 1);
        lemma_bag_dom(rest);
        if rest.count(x) > 0 {
            assert(m.dom() =~= rest.dom());
        } else {
            assert(m.dom() =~= rest.dom().insert(x));
        }
        if forall|a: A| m.count(a) <= 1 {
            assert(rest.count(x) == 0);
            assert forall|a: A| rest.count(a) <= 1 by {
                assert(m.count(a) <= 1);
            }
        }
    }
}

} // verus!
