//! Boxing the value that a read of the pair before a key hands out.
//!
//! Where the pair before a key is a separator, its value moves into a box of
//! its own before it is handed out, as the value of a separator does that a
//! search ends at. `Node::box_before` goes the way of the search once more
//! and does that; `boxed_before` says which slot it is, and
//! `lemma_boxed_same` that nothing else has changed.
use crate::locate::locate;
use crate::node::{
    child_of, lemma_internal, lower, settled_before_in, settled_in, upper, waiting_in, wf_in,
    Array, Branch, Node,
};
use crate::order::{lawful_order, lemma_order_laws};
use crate::search::boxed_at;
use crate::seqs::{keys_of, lemma_rank_bounds, rank};
use crate::stock::{lemma_stock_of_same, stock_of};
use vstd::prelude::*;

verus! {

/// Whether the subtree holds a pair that a search for the pair before `key`
/// finds on its way: the pair of `key` itself where the read is inclusive,
/// a pair before the place of `key` in the leaf at the end of the way, or a
/// separator that the way passes on its right.
pub open(crate) spec fn has_before<K: Ord, V>(node: Node<K, V>, key: K, inclusive: bool) -> bool
    decreases node,
{
    match node.array {
        Array::Leaf(la) => {
            let keys = keys_of(la.elements@);
            let i = rank(keys, key);
            (inclusive && 0 <= i < keys.len() && keys[i] == key) || i > 0
        },
        Array::Internal(ia) => {
            let keys = keys_of(ia.elements@);
            let i = rank(keys, key);
            if inclusive && 0 <= i < keys.len() && keys[i] == key {
                true
            } else if 0 < i <= ia.elements.len() {
                true
            } else {
                has_before(*ia.first_child, key, inclusive)
            }
        },
    }
}

/// `now` is the subtree `was` once the value that a read of the pair before
/// `key` hands out has a box of its own. That is the value of the separator
/// that has `key`, where the read is inclusive; else the value of the last
/// separator that the way passed on its right, where nothing below it comes
/// before `key`. A value in a leaf stays where it is, and nothing else
/// changes.
#[verifier::opaque]
pub open(crate) spec fn boxed_before<K: Ord, V>(
    was: Node<K, V>,
    now: Node<K, V>,
    key: K,
    inclusive: bool,
) -> bool
    decreases was,
{
    &&& now.buffer@ == was.buffer@
    &&& now.buffer_is_sorted == was.buffer_is_sorted
    &&& match was.array {
        Array::Leaf(_) => now.array == was.array,
        Array::Internal(ia) => {
            let e1 = ia.elements@;
            let e2 = now.array->Internal_0.elements@;
            let keys = keys_of(e1);
            let i = rank(keys, key);
            let down = child_of(*now.array->Internal_0.first_child, e2, i);
            &&& now.array is Internal
            &&& if inclusive && 0 <= i < keys.len() && keys[i] == key {
                now.array->Internal_0.first_child == ia.first_child && boxed_at(e1, e2, i)
            } else {
                let below = child_of(*ia.first_child, e1, i);
                &&& e2.len() == e1.len()
                &&& forall|x: int|
                    0 <= x < e1.len() ==> (#[trigger] e2[x]).key == e1[x].key && e2[x].value == (if x
                        == i - 1 && !has_before(below, key, inclusive) {
                        e1[x].value.boxed()
                    } else {
                        e1[x].value
                    })
                &&& forall|x: int|
                    0 <= x <= e1.len() && x != i ==> #[trigger] child_of(
                        *now.array->Internal_0.first_child,
                        e2,
                        x,
                    ) == child_of(*ia.first_child, e1, x)
                &&& if 0 < i <= ia.elements.len() {
                    boxed_before(*ia.elements[i - 1].child, down, key, inclusive)
                } else {
                    boxed_before(*ia.first_child, down, key, inclusive)
                }
            }
        },
    }
}

/// A subtree in which the value that a read hands out was boxed is well
/// formed as it was, holds what it held, and lets wait in its buffers what
/// waited there.
pub(crate) proof fn lemma_boxed_same<K: Ord, V>(
    was: Node<K, V>,
    now: Node<K, V>,
    key: K,
    inclusive: bool,
    lo: Option<K>,
    hi: Option<K>,
)
    requires
        lawful_order::<K>(),
        was.wf(lo, hi),
        boxed_before(was, now, key, inclusive),
    ensures
        now.wf(lo, hi),
        now.stock() == was.stock(),
        forall|k: K, inc: Seq<(K, V)>| #[trigger] now.waiting(inc, k) == was.waiting(inc, k),
        forall|k: K| #[trigger] now.settled(k) == was.settled(k),
        forall|k: K| #[trigger] now.settled_before(k) == was.settled_before(k),
    decreases was,
{
    reveal(boxed_before);
    lemma_order_laws::<K>();
    match was.array {
        Array::Leaf(_) => {},
        Array::Internal(ia) => {
            let first1 = *ia.first_child;
            let e1 = ia.elements@;
            let first2 = *now.array->Internal_0.first_child;
            let e2 = now.array->Internal_0.elements@;
            let keys = keys_of(e1);
            let i = rank(keys, key);
            lemma_rank_bounds(keys, key);
            lemma_internal(was, Seq::empty(), key, lo, hi);
            lemma_internal(now, Seq::empty(), key, lo, hi);
            assert(keys_of(e2) =~= keys);
            let c0 = child_of(first1, e1, i);
            let c1 = child_of(first2, e2, i);
            if !(inclusive && 0 <= i < keys.len() && keys[i] == key) {
                assert(c0.wf(lower(keys, i, lo), upper(keys, i, hi)));
                lemma_boxed_same(c0, c1, key, inclusive, lower(keys, i, lo), upper(keys, i, hi));
            } else {
                assert(c1 == c0) by {
                    if i > 0 {
                        assert(e2[i - 1].child == e1[i - 1].child);
                    }
                }
            }
            // Every child is the child that was there, or child `i`, of
            // which all of this holds already.
            assert forall|x: int| 0 <= x <= e1.len() implies {
                let a = child_of(first1, e1, x);
                let b = #[trigger] child_of(first2, e2, x);
                &&& b.wf(lower(keys, x, lo), upper(keys, x, hi))
                &&& b.stock() == a.stock()
                &&& forall|k: K, inc: Seq<(K, V)>| #[trigger] b.waiting(inc, k) == a.waiting(inc, k)
                &&& forall|k: K| #[trigger] b.settled(k) == a.settled(k)
                &&& forall|k: K| #[trigger] b.settled_before(k) == a.settled_before(k)
            } by {
                assert(child_of(first1, e1, x).wf(lower(keys, x, lo), upper(keys, x, hi)));
                if x != i {
                    if inclusive && 0 <= i < keys.len() && keys[i] == key {
                        if x > 0 {
                            assert(e2[x - 1].child == e1[x - 1].child);
                        }
                    }
                    assert(child_of(first2, e2, x) == child_of(first1, e1, x));
                }
            }
            assert forall|x: int| 0 <= x < e1.len() implies (#[trigger] e2[x]).key == e1[x].key
                && e2[x].value.value() == e1[x].value.value() && e2[x].child.stock()
                == e1[x].child.stock() by {
                assert(child_of(first2, e2, x + 1) == *e2[x].child);
                assert(child_of(first1, e1, x + 1) == *e1[x].child);
            }
            lemma_stock_of_same(e1, e2);
            assert(first2.stock() == first1.stock()) by {
                assert(child_of(first2, e2, 0) == first2);
                assert(child_of(first1, e1, 0) == first1);
            }
            assert(wf_in(first2, e2, lo, hi));
            assert forall|k: K, inc: Seq<(K, V)>| #[trigger]
                now.waiting(inc, k) == was.waiting(inc, k) by {
                lemma_internal(was, inc, k, lo, hi);
                lemma_internal(now, inc, k, lo, hi);
                lemma_rank_bounds(keys, k);
                let r = rank(keys, k);
                assert(child_of(first2, e2, r).wf(lower(keys, r, lo), upper(keys, r, hi)));
                if 0 <= r < keys.len() {
                    assert(e2[r].value.value() == e1[r].value.value());
                }
            }
            assert forall|k: K| #[trigger] now.settled(k) == was.settled(k) by {
                lemma_internal(was, Seq::empty(), k, lo, hi);
                lemma_internal(now, Seq::empty(), k, lo, hi);
                lemma_rank_bounds(keys, k);
                let r = rank(keys, k);
                assert(child_of(first2, e2, r).wf(lower(keys, r, lo), upper(keys, r, hi)));
            }
            assert forall|k: K| #[trigger] now.settled_before(k) == was.settled_before(k) by {
                lemma_rank_bounds(keys, k);
                let r = rank(keys, k);
                assert(child_of(first2, e2, r).wf(lower(keys, r, lo), upper(keys, r, hi)));
                let a = child_of(first1, e1, r);
                let b = child_of(first2, e2, r);
                assert(b.settled_before(k) == a.settled_before(k));
                assert(rank(keys_of(now.array->Internal_0.elements@), k) == r);
                if r > 0 {
                    assert(b == *now.array->Internal_0.elements[r - 1].child);
                    assert(a == *ia.elements[r - 1].child);
                } else {
                    assert(b == *now.array->Internal_0.first_child);
                    assert(a == *ia.first_child);
                }
            }
        },
    }
}

/// A subtree in which the value that a read hands out was boxed has the
/// buffer that it had.
pub(crate) proof fn lemma_boxed_buffer<K: Ord, V>(
    was: Node<K, V>,
    now: Node<K, V>,
    key: K,
    inclusive: bool,
)
    requires
        boxed_before(was, now, key, inclusive),
    ensures
        now.buffer@ == was.buffer@,
        now.buffer_is_sorted == was.buffer_is_sorted,
{
    reveal(boxed_before);
}

impl<K: Ord, V> Node<K, V> {
    /// Goes the way of a search for the pair before `key` and gives the
    /// value that the search hands out a box of its own, where that value
    /// is the value of a separator. Returns whether the subtree holds a
    /// pair that the search finds.
    pub(crate) fn box_before(
        &mut self,
        key: &K,
        inclusive: bool,
        Ghost(lo): Ghost<Option<K>>,
        Ghost(hi): Ghost<Option<K>>,
    ) -> (found: bool)
        requires
            lawful_order::<K>(),
            old(self).wf(lo, hi),
        ensures
            found == has_before(*old(self), *key, inclusive),
            boxed_before(*old(self), *final(self), *key, inclusive),
        decreases old(self).array,
    {
        let ghost was = *self;
        proof {
            reveal(boxed_before);
            lemma_order_laws::<K>();
        }
        match &self.array {
            Array::Leaf(la) => {
                match locate(&la.elements, key) {
                    Ok(i) => inclusive || i != 0,
                    Err(i) => i != 0,
                }
            },
            Array::Internal(_) => {
                let ghost first1 = *was.array->Internal_0.first_child;
                let ghost e1 = was.array->Internal_0.elements@;
                let ghost keys = keys_of(e1);
                proof {
                    lemma_internal(was, Seq::empty(), *key, lo, hi);
                }
                let (i, hit) = match locate(&self.array.unwrap_internal().elements, key) {
                    Ok(i) => (i, true),
                    Err(i) => (i, false),
                };
                if hit && inclusive {
                    self.array.unwrap_internal_mut().elements[i].value.boxify();
                    true
                } else {
                    proof {
                        assert(child_of(first1, e1, i as int).wf(
                            lower(keys, i as int, lo),
                            upper(keys, i as int, hi),
                        ));
                    }
                    let below = if i == 0 {
                        self.array.unwrap_internal_mut().first_child.box_before(
                            key,
                            inclusive,
                            Ghost(lower(keys, i as int, lo)),
                            Ghost(upper(keys, i as int, hi)),
                        )
                    } else {
                        self.array.unwrap_internal_mut().elements[i - 1].child.box_before(
                            key,
                            inclusive,
                            Ghost(lower(keys, i as int, lo)),
                            Ghost(upper(keys, i as int, hi)),
                        )
                    };
                    if !below && i != 0 {
                        self.array.unwrap_internal_mut().elements[i - 1].value.boxify();
                    }
                    proof {
                        let e2 = self.array->Internal_0.elements@;
                        let first2 = *self.array->Internal_0.first_child;
                        assert forall|x: int| 0 <= x <= e1.len() && x != i implies #[trigger] child_of(
                            first2,
                            e2,
                            x,
                        ) == child_of(first1, e1, x) by {}
                    }
                    below || i != 0
                }
            },
        }
    }
}

} // verus!
