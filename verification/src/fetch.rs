//! Reading a value once nothing waits on the way to its key.
use crate::locate::locate;
use crate::node::{child_of, lemma_internal, lower, upper, Array, Node};
use crate::order::{lawful_order, lemma_order_laws};
use crate::seqs::{
    keys_of, lemma_find_at, lemma_keyed_items, lemma_keyed_strict, lemma_keyed_update, lemma_rank,
    rank,
};
use crate::shape::{lemma_leaf_waiting, lemma_spot, lemma_strict_ascends};
use crate::stock::lemma_stock_of_same;
use vstd::prelude::*;

verus! {

impl<K: Ord, V> Node<K, V> {
    /// The pair that `key` is bound to in this subtree, if it is bound.
    /// Nothing may wait in a buffer on the way to the key.
    pub(crate) fn fetch(&self, key: &K, Ghost(lo): Ghost<Option<K>>, Ghost(hi): Ghost<Option<K>>) -> (r:
        Option<(&K, &V)>)
        requires
            lawful_order::<K>(),
            self.wf(lo, hi),
            self.settled(*key),
        ensures
            match r {
                Some((k, v)) => *k == *key && self.waiting(Seq::empty(), *key) == seq![*v],
                None => self.waiting(Seq::empty(), *key).len() == 0,
            },
        decreases self,
    {
        proof {
            lemma_order_laws::<K>();
        }
        match &self.array {
            Array::Leaf(la) => {
                proof {
                    lemma_leaf_waiting(*self, *key);
                    lemma_keyed_strict(la.elements@, *key);
                    lemma_keyed_items(la.elements@, *key);
                }
                match locate(&la.elements, key) {
                    Ok(i) => {
                        proof {
                            lemma_find_at(la.elements@, i as int);
                        }
                        Some((&la.elements[i].0, &la.elements[i].1))
                    },
                    Err(_) => None,
                }
            },
            Array::Internal(ia) => {
                let ghost keys = keys_of(ia.elements@);
                proof {
                    lemma_internal(*self, Seq::empty(), *key, lo, hi);
                    assert(self.buffer@ =~= Seq::<(K, V)>::empty());
                    lemma_spot(*ia.first_child, ia.elements@, *key);
                    lemma_strict_ascends(keys);
                    lemma_rank(keys, *key);
                }
                match locate(&ia.elements, key) {
                    Ok(i) => Some((&ia.elements[i].key, ia.elements[i].value.get())),
                    Err(i) => {
                        proof {
                            assert(child_of(*ia.first_child, ia.elements@, i as int).wf(
                                lower(keys, i as int, lo),
                                upper(keys, i as int, hi),
                            ));
                        }
                        if i == 0 {
                            ia.first_child.fetch(
                                key,
                                Ghost(lower(keys, 0, lo)),
                                Ghost(upper(keys, 0, hi)),
                            )
                        } else {
                            ia.elements[i - 1].child.fetch(
                                key,
                                Ghost(lower(keys, i as int, lo)),
                                Ghost(upper(keys, i as int, hi)),
                            )
                        }
                    },
                }
            },
        }
    }
}

/// A leaf in which the value of one pair was changed holds the new value
/// under the key of that pair, and under every other key what it held.
pub(crate) proof fn lemma_leaf_rebound<K: Ord, V>(
    was: Node<K, V>,
    now: Node<K, V>,
    i: int,
    lo: Option<K>,
    hi: Option<K>,
)
    requires
        lawful_order::<K>(),
        was.wf(lo, hi),
        was.buffer@.len() == 0,
        leaf_changed(was, now, i),
    ensures
        now.wf(lo, hi),
        now.stock() == was.stock(),
        now.settled(was.array->Leaf_0.elements@[i].0),
        now.waiting(Seq::empty(), was.array->Leaf_0.elements@[i].0) == seq![
            now.array->Leaf_0.elements@[i].1,
        ],
        forall|j: K|
            j != was.array->Leaf_0.elements@[i].0 ==> #[trigger] now.waiting(Seq::empty(), j)
                == was.waiting(Seq::empty(), j),
{
    let e1 = was.array->Leaf_0.elements@;
    let e2 = now.array->Leaf_0.elements@;
    let key = e1[i].0;
    assert(keys_of(e2) =~= keys_of(e1));
    lemma_leaf_waiting(now, key);
    lemma_keyed_strict(e2, key);
    lemma_find_at(e2, i);
    assert forall|j: K| j != key implies #[trigger] now.waiting(Seq::empty(), j) == was.waiting(
        Seq::empty(),
        j,
    ) by {
        lemma_leaf_waiting(now, j);
        lemma_leaf_waiting(was, j);
        lemma_keyed_update(e1, i, e2[i].1, j);
    }
}

/// `now` is the leaf `was` but for the value of pair `i`.
pub open(crate) spec fn leaf_changed<K: Ord, V>(was: Node<K, V>, now: Node<K, V>, i: int) -> bool {
    &&& was.array is Leaf
    &&& now.array is Leaf
    &&& now.buffer@ == was.buffer@
    &&& now.buffer_is_sorted == was.buffer_is_sorted
    &&& 0 <= i < was.array->Leaf_0.elements@.len()
    &&& now.array->Leaf_0.elements@ =~= was.array->Leaf_0.elements@.update(
        i,
        (was.array->Leaf_0.elements@[i].0, now.array->Leaf_0.elements@[i].1),
    )
}

/// `now` is the internal node `was` but for the value of separator `i`.
pub open(crate) spec fn separator_changed<K: Ord, V>(was: Node<K, V>, now: Node<K, V>, i: int) -> bool {
    &&& was.array is Internal
    &&& now.array is Internal
    &&& now.buffer@ == was.buffer@
    &&& now.buffer_is_sorted == was.buffer_is_sorted
    &&& now.array->Internal_0.first_child == was.array->Internal_0.first_child
    &&& 0 <= i < was.array->Internal_0.elements@.len()
    &&& now.array->Internal_0.elements@.len() == was.array->Internal_0.elements@.len()
    &&& forall|x: int|
        0 <= x < was.array->Internal_0.elements@.len() ==> (
        #[trigger] now.array->Internal_0.elements@[x]).key
            == was.array->Internal_0.elements@[x].key && now.array->Internal_0.elements@[x].child
            == was.array->Internal_0.elements@[x].child && (x != i
            ==> now.array->Internal_0.elements@[x].value
            == was.array->Internal_0.elements@[x].value)
    &&& now.array->Internal_0.elements@[i].value is Inline
        <==> was.array->Internal_0.elements@[i].value is Inline
}

/// `now` is the internal node `was` but for child `i`.
pub open(crate) spec fn only_child<K: Ord, V>(was: Node<K, V>, now: Node<K, V>, i: int) -> bool {
    &&& was.array is Internal
    &&& now.array is Internal
    &&& now.buffer@ == was.buffer@
    &&& now.buffer_is_sorted == was.buffer_is_sorted
    &&& now.array->Internal_0.elements@.len() == was.array->Internal_0.elements@.len()
    &&& 0 <= i <= was.array->Internal_0.elements@.len()
    &&& forall|x: int|
        0 <= x < was.array->Internal_0.elements@.len() ==> (
        #[trigger] now.array->Internal_0.elements@[x]).key
            == was.array->Internal_0.elements@[x].key && now.array->Internal_0.elements@[x].value
            == was.array->Internal_0.elements@[x].value
    &&& forall|x: int|
        0 <= x <= was.array->Internal_0.elements@.len() && x != i ==> #[trigger] child_of(
            *now.array->Internal_0.first_child,
            now.array->Internal_0.elements@,
            x,
        ) == child_of(*was.array->Internal_0.first_child, was.array->Internal_0.elements@, x)
}

/// `now` is the internal node `was` but for child `i`, to which `key` leads
/// and which holds under every other key what it held.
pub open(crate) spec fn child_changed<K: Ord, V>(
    was: Node<K, V>,
    now: Node<K, V>,
    i: int,
    key: K,
    lo: Option<K>,
    hi: Option<K>,
) -> bool {
    &&& only_child(was, now, i)
    &&& ({
        let c0 = child_of(*was.array->Internal_0.first_child, was.array->Internal_0.elements@, i);
        let c1 = child_of(*now.array->Internal_0.first_child, now.array->Internal_0.elements@, i);
        let keys = keys_of(was.array->Internal_0.elements@);
        &&& c1.wf(lower(keys, i, lo), upper(keys, i, hi))
        &&& c1.settled(key)
        &&& c1.stock() == c0.stock()
        &&& forall|j: K|
            j != key ==> #[trigger] c1.waiting(Seq::empty(), j) == c0.waiting(Seq::empty(), j)
    })
}

/// `now` is the subtree `was` but for the value that `key` is bound to in
/// it: the nodes on the way to the key are the same but for the child that
/// the way goes on in, and the pair or the separator that has the key is the
/// same but for its value. Where the key is not bound, `now` is `was`.
#[verifier::opaque]
pub open(crate) spec fn rebound<K: Ord, V>(was: Node<K, V>, now: Node<K, V>, key: K) -> bool
    decreases was,
{
    match was.array {
        Array::Leaf(la) => {
            let keys = keys_of(la.elements@);
            let i = rank(keys, key);
            if 0 <= i < keys.len() && keys[i] == key {
                leaf_changed(was, now, i)
            } else {
                now == was
            }
        },
        Array::Internal(ia) => {
            let keys = keys_of(ia.elements@);
            let i = rank(keys, key);
            let down = child_of(
                *now.array->Internal_0.first_child,
                now.array->Internal_0.elements@,
                i,
            );
            if 0 <= i < keys.len() && keys[i] == key {
                separator_changed(was, now, i)
            } else {
                &&& only_child(was, now, i)
                &&& if 0 < i <= ia.elements.len() {
                    rebound(*ia.elements[i - 1].child, down, key)
                } else {
                    rebound(*ia.first_child, down, key)
                }
            }
        },
    }
}

/// A subtree that differs only in a value has the buffer that it had.
pub(crate) proof fn lemma_rebound_buffer<K: Ord, V>(was: Node<K, V>, now: Node<K, V>, key: K)
    requires
        rebound(was, now, key),
    ensures
        now.buffer@ == was.buffer@,
        now.buffer_is_sorted == was.buffer_is_sorted,
{
    reveal(rebound);
}

/// A subtree is itself but for the value of any key.
pub(crate) proof fn lemma_rebound_same<K: Ord, V>(node: Node<K, V>, key: K)
    ensures
        rebound(node, node, key),
    decreases node,
{
    reveal(rebound);
    match node.array {
        Array::Leaf(la) => {
            let i = rank(keys_of(la.elements@), key);
            if 0 <= i < la.elements@.len() {
                let pairs = node.array->Leaf_0.elements@;
                assert(pairs[i] == (pairs[i].0, pairs[i].1));
                assert(pairs =~= pairs.update(i, (pairs[i].0, pairs[i].1)));
                assert(leaf_changed(node, node, i));
            }
        },
        Array::Internal(ia) => {
            let i = rank(keys_of(ia.elements@), key);
            if 0 <= i < ia.elements@.len() {
                assert(separator_changed(node, node, i));
            }
            crate::seqs::lemma_rank_bounds(keys_of(ia.elements@), key);
            assert(only_child(node, node, i));
            if 0 < i <= ia.elements.len() {
                lemma_rebound_same(*ia.elements[i - 1].child, key);
            } else {
                lemma_rebound_same(*ia.first_child, key);
            }
        },
    }
}

/// An internal node in which the value of one separator was changed holds
/// the new value under the key of that separator, and under every other key
/// what it held.
pub(crate) proof fn lemma_separator_rebound<K: Ord, V>(
    was: Node<K, V>,
    now: Node<K, V>,
    i: int,
    lo: Option<K>,
    hi: Option<K>,
)
    requires
        lawful_order::<K>(),
        was.wf(lo, hi),
        was.buffer@.len() == 0,
        separator_changed(was, now, i),
    ensures
        now.wf(lo, hi),
        now.stock() == was.stock(),
        now.settled(was.array->Internal_0.elements@[i].key),
        now.waiting(Seq::empty(), was.array->Internal_0.elements@[i].key) == seq![
            now.array->Internal_0.elements@[i].value.value(),
        ],
        forall|j: K|
            j != was.array->Internal_0.elements@[i].key ==> #[trigger] now.waiting(
                Seq::empty(),
                j,
            ) == was.waiting(Seq::empty(), j),
{
    lemma_order_laws::<K>();
    let e1 = was.array->Internal_0.elements@;
    let e2 = now.array->Internal_0.elements@;
    let first = *was.array->Internal_0.first_child;
    let key = e1[i].key;
    let keys = keys_of(e1);
    assert(keys_of(e2) =~= keys);
    assert(now.buffer@ =~= Seq::<(K, V)>::empty());
    assert forall|x: int| 0 <= x <= e1.len() implies #[trigger] child_of(first, e2, x) == child_of(
        first,
        e1,
        x,
    ) by {
        if x > 0 {
            assert(e2[x - 1].child == e1[x - 1].child);
        }
    }
    lemma_internal(was, Seq::empty(), key, lo, hi);
    lemma_internal(now, Seq::empty(), key, lo, hi);
    assert forall|x: int| 0 <= x <= e2.len() implies (#[trigger] child_of(first, e2, x)).wf(
        lower(keys_of(e2), x, lo),
        upper(keys_of(e2), x, hi),
    ) by {
        assert(child_of(first, e1, x).wf(lower(keys, x, lo), upper(keys, x, hi)));
    }
    lemma_stock_of_same(e1, e2);
    lemma_strict_ascends(keys);
    assert forall|j: K|
        #![trigger now.waiting(Seq::empty(), j)]
        (j != key ==> now.waiting(Seq::empty(), j) == was.waiting(Seq::empty(), j)) && (j == key
            ==> now.waiting(Seq::empty(), j) == seq![e2[i].value.value()] && now.settled(j)) by {
        lemma_internal(was, Seq::empty(), j, lo, hi);
        lemma_internal(now, Seq::empty(), j, lo, hi);
        lemma_spot(first, e1, j);
        lemma_spot(first, e2, j);
        lemma_rank(keys, j);
        let r = rank(keys, j);
        if 0 <= r < keys.len() && keys[r] == j {
            if j != key {
                assert(r != i);
                assert(e2[r].value.value() == e1[r].value.value());
            } else {
                if r < i {
                    assert(crate::order::below(keys[r], keys[i]));
                } else if r > i {
                    assert(crate::order::below(keys[i], keys[r]));
                }
                assert(r == i);
            }
        } else {
            assert(child_of(first, e2, r) == child_of(first, e1, r));
            if j == key {
                assert(!crate::order::below(keys[i], j));
                if i < r {
                    assert(crate::order::below(keys[i], j));
                }
                if i >= r {
                    assert(!crate::order::below(keys[i], j));
                    if i > r {
                        assert(crate::order::below(keys[r], keys[i]));
                    }
                }
            }
        }
    }
    assert(now.waiting(Seq::empty(), key) == seq![e2[i].value.value()]);
}

impl<K: Ord, V> Node<K, V> {
    /// The pair of a leaf that has `key`, with the value to be changed in
    /// place.
    fn fetch_mut_leaf(
        &mut self,
        key: &K,
        Ghost(lo): Ghost<Option<K>>,
        Ghost(hi): Ghost<Option<K>>,
    ) -> (r: Option<(&K, &mut V)>)
        requires
            lawful_order::<K>(),
            old(self).wf(lo, hi),
            old(self).settled(*key),
            old(self).array is Leaf,
        ensures
            final(self).wf(lo, hi),
            final(self).stock() == old(self).stock(),
            final(self).settled(*key),
            rebound(*old(self), *final(self), *key),
            forall|j: K|
                j != *key ==> #[trigger] final(self).waiting(Seq::empty(), j) == old(
                    self,
                ).waiting(Seq::empty(), j),
            match r {
                Some((k, v)) => {
                    &&& *k == *key
                    &&& old(self).waiting(Seq::empty(), *key) == seq![*v]
                    &&& final(self).waiting(Seq::empty(), *key) == seq![*final(v)]
                },
                None => {
                    &&& old(self).waiting(Seq::empty(), *key).len() == 0
                    &&& final(self).waiting(Seq::empty(), *key).len() == 0
                },
            },
    {
        let ghost was = *self;
        proof {
            lemma_order_laws::<K>();
            lemma_leaf_waiting(was, *key);
            lemma_keyed_strict(was.array->Leaf_0.elements@, *key);
            lemma_keyed_items(was.array->Leaf_0.elements@, *key);
        }
        match locate(&self.array.unwrap_leaf().elements, key) {
            Ok(i) => {
                proof {
                    lemma_find_at(was.array->Leaf_0.elements@, i as int);
                    assert forall|now: Node<K, V>, j: K|
                        leaf_changed(was, now, i as int) implies (j != *key
                        ==> #[trigger] now.waiting(Seq::empty(), j) == was.waiting(
                        Seq::empty(),
                        j,
                    )) && (j == *key ==> now.waiting(Seq::empty(), j) == seq![
                        now.array->Leaf_0.elements@[i as int].1,
                    ]) by {
                        lemma_leaf_rebound(was, now, i as int, lo, hi);
                    }
                    assert forall|now: Node<K, V>|
                        leaf_changed(was, now, i as int) implies #[trigger] now.wf(lo, hi) by {
                        lemma_leaf_rebound(was, now, i as int, lo, hi);
                    }
                    assert forall|now: Node<K, V>|
                        leaf_changed(was, now, i as int) implies #[trigger] rebound(
                        was,
                        now,
                        *key,
                    ) by {
                        reveal(rebound);
                    }
                    assert forall|now: Node<K, V>|
                        leaf_changed(was, now, i as int) implies #[trigger] now.stock()
                        == was.stock() by {
                        lemma_leaf_rebound(was, now, i as int, lo, hi);
                    }
                }
                let pair = &mut self.array.unwrap_leaf_mut().elements[i];
                Some((&pair.0, &mut pair.1))
            },
            Err(_) => {
                proof {
                    reveal(rebound);
                }
                None
            },
        }
    }

    /// The separator at position `i`, with its value to be changed in place.
    fn fetch_mut_hit(
        &mut self,
        i: usize,
        key: &K,
        Ghost(lo): Ghost<Option<K>>,
        Ghost(hi): Ghost<Option<K>>,
    ) -> (r: (&K, &mut V))
        requires
            lawful_order::<K>(),
            old(self).wf(lo, hi),
            old(self).settled(*key),
            old(self).array is Internal,
            i < old(self).array->Internal_0.elements@.len(),
            old(self).array->Internal_0.elements@[i as int].key == *key,
        ensures
            final(self).wf(lo, hi),
            final(self).stock() == old(self).stock(),
            final(self).settled(*key),
            rebound(*old(self), *final(self), *key),
            forall|j: K|
                j != *key ==> #[trigger] final(self).waiting(Seq::empty(), j) == old(
                    self,
                ).waiting(Seq::empty(), j),
            *r.0 == *key,
            old(self).waiting(Seq::empty(), *key) == seq![*r.1],
            final(self).waiting(Seq::empty(), *key) == seq![*final(r.1)],
    {
        let ghost was = *self;
        proof {
            lemma_order_laws::<K>();
            lemma_internal(was, Seq::empty(), *key, lo, hi);
            assert(was.buffer@ =~= Seq::<(K, V)>::empty());
            lemma_find_at(was.array->Internal_0.elements@, i as int);
            crate::search::lemma_found_waits(
                *was.array->Internal_0.first_child,
                was.array->Internal_0.elements@,
                *key,
            );
            lemma_spot(
                *was.array->Internal_0.first_child,
                was.array->Internal_0.elements@,
                *key,
            );
            lemma_strict_ascends(keys_of(was.array->Internal_0.elements@));
            lemma_rank(keys_of(was.array->Internal_0.elements@), *key);
            assert forall|now: Node<K, V>, j: K|
                separator_changed(was, now, i as int) implies (j != *key
                ==> #[trigger] now.waiting(Seq::empty(), j) == was.waiting(Seq::empty(), j)) && (j
                == *key ==> now.waiting(Seq::empty(), j) == seq![
                    now.array->Internal_0.elements@[i as int].value.value(),
                ]) by {
                lemma_separator_rebound(was, now, i as int, lo, hi);
            }
            assert forall|now: Node<K, V>|
                separator_changed(was, now, i as int) implies #[trigger] now.wf(lo, hi) by {
                lemma_separator_rebound(was, now, i as int, lo, hi);
            }
            assert forall|now: Node<K, V>|
                separator_changed(was, now, i as int) implies #[trigger] rebound(
                was,
                now,
                *key,
            ) by {
                reveal(rebound);
            }
            assert forall|now: Node<K, V>|
                separator_changed(was, now, i as int) implies #[trigger] now.settled(*key) by {
                lemma_separator_rebound(was, now, i as int, lo, hi);
            }
            assert forall|now: Node<K, V>|
                separator_changed(was, now, i as int) implies #[trigger] now.stock()
                == was.stock() by {
                lemma_separator_rebound(was, now, i as int, lo, hi);
            }
        }
        let branch = &mut self.array.unwrap_internal_mut().elements[i];
        (&branch.key, branch.value.get_mut())
    }

    /// The pair that `key` is bound to in this subtree, if it is bound, with
    /// the value to be changed in place. Nothing may wait in a buffer on the
    /// way to the key.
    pub(crate) fn fetch_mut(
        &mut self,
        key: &K,
        Ghost(lo): Ghost<Option<K>>,
        Ghost(hi): Ghost<Option<K>>,
    ) -> (r: Option<(&K, &mut V)>)
        requires
            lawful_order::<K>(),
            old(self).wf(lo, hi),
            old(self).settled(*key),
        ensures
            final(self).wf(lo, hi),
            final(self).stock() == old(self).stock(),
            final(self).settled(*key),
            rebound(*old(self), *final(self), *key),
            forall|j: K|
                j != *key ==> #[trigger] final(self).waiting(Seq::empty(), j) == old(
                    self,
                ).waiting(Seq::empty(), j),
            match r {
                Some((k, v)) => {
                    &&& *k == *key
                    &&& old(self).waiting(Seq::empty(), *key) == seq![*v]
                    &&& final(self).waiting(Seq::empty(), *key) == seq![*final(v)]
                },
                None => {
                    &&& old(self).waiting(Seq::empty(), *key).len() == 0
                    &&& final(self).waiting(Seq::empty(), *key).len() == 0
                },
            },
        decreases old(self).array,
    {
        let ghost was = *self;
        match &self.array {
            Array::Leaf(_) => self.fetch_mut_leaf(key, Ghost(lo), Ghost(hi)),
            Array::Internal(_) => {
                let ghost keys = keys_of(was.array->Internal_0.elements@);
                proof {
                    lemma_order_laws::<K>();
                    lemma_internal(was, Seq::empty(), *key, lo, hi);
                    assert(was.buffer@ =~= Seq::<(K, V)>::empty());
                    lemma_spot(
                        *was.array->Internal_0.first_child,
                        was.array->Internal_0.elements@,
                        *key,
                    );
                    lemma_strict_ascends(keys);
                    lemma_rank(keys, *key);
                }
                match locate(&self.array.unwrap_internal().elements, key) {
                    Ok(i) => Some(self.fetch_mut_hit(i, key, Ghost(lo), Ghost(hi))),
                    Err(i) => {
                        let ghost clo = lower(keys, i as int, lo);
                        let ghost chi = upper(keys, i as int, hi);
                        proof {
                            assert(child_of(
                                *was.array->Internal_0.first_child,
                                was.array->Internal_0.elements@,
                                i as int,
                            ).wf(clo, chi));
                            assert forall|now: Node<K, V>, j: K|
                                child_changed(was, now, i as int, *key, lo, hi) implies (j != *key
                                ==> #[trigger] now.waiting(Seq::empty(), j) == was.waiting(
                                Seq::empty(),
                                j,
                            )) && (j == *key ==> now.waiting(Seq::empty(), j) == child_of(
                                *now.array->Internal_0.first_child,
                                now.array->Internal_0.elements@,
                                i as int,
                            ).waiting(Seq::empty(), j)) by {
                                lemma_child_rebound(was, now, i as int, *key, lo, hi);
                            }
                            assert forall|now: Node<K, V>|
                                child_changed(was, now, i as int, *key, lo, hi) implies #[trigger] now.wf(
                                lo,
                                hi,
                            ) by {
                                lemma_child_rebound(was, now, i as int, *key, lo, hi);
                            }
                            assert forall|now: Node<K, V>|
                                only_child(was, now, i as int) && rebound(
                                    child_of(
                                        *was.array->Internal_0.first_child,
                                        was.array->Internal_0.elements@,
                                        i as int,
                                    ),
                                    child_of(
                                        *now.array->Internal_0.first_child,
                                        now.array->Internal_0.elements@,
                                        i as int,
                                    ),
                                    *key,
                                ) implies #[trigger] rebound(was, now, *key) by {
                                reveal(rebound);
                            }
                            assert forall|now: Node<K, V>|
                                child_changed(
                                    was,
                                    now,
                                    i as int,
                                    *key,
                                    lo,
                                    hi,
                                ) implies #[trigger] now.settled(*key) by {
                                lemma_child_rebound(was, now, i as int, *key, lo, hi);
                            }
                            assert forall|now: Node<K, V>|
                                child_changed(
                                    was,
                                    now,
                                    i as int,
                                    *key,
                                    lo,
                                    hi,
                                ) implies #[trigger] now.stock() == was.stock() by {
                                lemma_child_rebound(was, now, i as int, *key, lo, hi);
                            }
                        }
                        let ia = self.array.unwrap_internal_mut();
                        if i == 0 {
                            ia.first_child.fetch_mut(key, Ghost(clo), Ghost(chi))
                        } else {
                            ia.elements[i - 1].child.fetch_mut(key, Ghost(clo), Ghost(chi))
                        }
                    },
                }
            },
        }
    }
}

/// An internal node one of whose children holds a new value under `key`,
/// and under every other key what it held, does so itself.
pub(crate) proof fn lemma_child_rebound<K: Ord, V>(
    was: Node<K, V>,
    now: Node<K, V>,
    i: int,
    key: K,
    lo: Option<K>,
    hi: Option<K>,
)
    requires
        lawful_order::<K>(),
        was.wf(lo, hi),
        was.buffer@.len() == 0,
        rank(keys_of(was.array->Internal_0.elements@), key) == i,
        !(i < was.array->Internal_0.elements@.len() && was.array->Internal_0.elements@[i].key
            == key),
        child_changed(was, now, i, key, lo, hi),
    ensures
        now.wf(lo, hi),
        now.stock() == was.stock(),
        now.settled(key),
        now.waiting(Seq::empty(), key) == child_of(
            *now.array->Internal_0.first_child,
            now.array->Internal_0.elements@,
            i,
        ).waiting(Seq::empty(), key),
        forall|j: K|
            j != key ==> #[trigger] now.waiting(Seq::empty(), j) == was.waiting(Seq::empty(), j),
{
    lemma_order_laws::<K>();
    let e1 = was.array->Internal_0.elements@;
    let e2 = now.array->Internal_0.elements@;
    let f1 = *was.array->Internal_0.first_child;
    let f2 = *now.array->Internal_0.first_child;
    let keys = keys_of(e1);
    assert(keys_of(e2) =~= keys);
    assert(now.buffer@ =~= Seq::<(K, V)>::empty());
    lemma_internal(was, Seq::empty(), key, lo, hi);
    lemma_internal(now, Seq::empty(), key, lo, hi);
    assert forall|x: int| 0 <= x <= e2.len() implies (#[trigger] child_of(f2, e2, x)).wf(
        lower(keys_of(e2), x, lo),
        upper(keys_of(e2), x, hi),
    ) by {
        if x != i {
            assert(child_of(f1, e1, x).wf(lower(keys, x, lo), upper(keys, x, hi)));
        }
    }
    lemma_spot(f2, e2, key);
    assert forall|x: int| 0 <= x < e1.len() implies (#[trigger] e2[x]).key == e1[x].key
        && e2[x].child.stock() == e1[x].child.stock() by {
        assert(child_of(f2, e2, x + 1) == *e2[x].child);
        assert(child_of(f1, e1, x + 1) == *e1[x].child);
        if x + 1 != i {
            assert(child_of(f2, e2, x + 1) == child_of(f1, e1, x + 1));
        }
    }
    lemma_stock_of_same(e1, e2);
    assert(f2.stock() == f1.stock()) by {
        assert(child_of(f2, e2, 0) == f2);
        assert(child_of(f1, e1, 0) == f1);
        if i != 0 {
            assert(child_of(f2, e2, 0) == child_of(f1, e1, 0));
        }
    }
    assert forall|j: K| j != key implies #[trigger] now.waiting(Seq::empty(), j) == was.waiting(
        Seq::empty(),
        j,
    ) by {
        lemma_internal(was, Seq::empty(), j, lo, hi);
        lemma_internal(now, Seq::empty(), j, lo, hi);
        lemma_spot(f1, e1, j);
        lemma_spot(f2, e2, j);
        crate::seqs::lemma_rank_bounds(keys, j);
        let r = rank(keys, j);
        if 0 <= r < keys.len() && keys[r] == j {
            assert(e2[r].value.value() == e1[r].value.value());
        } else if r != i {
            assert(child_of(f2, e2, r) == child_of(f1, e1, r));
        }
    }
}

} // verus!
