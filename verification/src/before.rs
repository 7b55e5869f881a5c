//! Reading the pair before a key.
//!
//! The pair before `key` is the pair with the greatest key that is below
//! `key`; an inclusive read takes the pair of `key` itself where `key` is
//! bound. The search goes down as a search for `key` does and remembers the
//! separator that it last passed on its right: where the leaf at the end
//! holds nothing before `key`, that separator is the answer.
use crate::boxing::{lemma_boxed_buffer, lemma_boxed_same};
use crate::laws::law_read_empties_buffer;
use crate::locate::locate;
use crate::map::{after_read, after_read_before, lemma_same_view, BeeMap};
use crate::meaning::refines;
use crate::node::{child_of, lemma_internal, lower, upper, Array, Node};
use crate::order::{at_most, below, lawful_order, lemma_order_laws};
use crate::seqs::{
    in_range, keyed, keys_of, lemma_find_at, lemma_keyed_items, lemma_keyed_strict, lemma_rank,
    lemma_rank_is, rank,
};
use crate::shape::{lemma_leaf_waiting, lemma_spot, lemma_strict_ascends};
use vstd::prelude::*;

verus! {

/// `k` comes before `key`: it is below `key`, or it is `key` and the read is
/// inclusive.
pub open spec fn comes_before<K: Ord>(k: K, key: K, inclusive: bool) -> bool {
    below(k, key) || (inclusive && k == key)
}

/// `k` is the greatest of the keys of `m` that come before `key`.
pub open spec fn is_last_before<K: Ord, V>(m: Map<K, V>, key: K, inclusive: bool, k: K) -> bool {
    &&& m.contains_key(k)
    &&& comes_before(k, key, inclusive)
    &&& forall|j: K| #[trigger] m.contains_key(j) && comes_before(j, key, inclusive) ==> at_most(j, k)
}

/// A pair of references, as the pair of values that they refer to.
pub open spec fn plain<K, V>(pair: Option<(&K, &V)>) -> Option<(K, V)> {
    match pair {
        Some((k, v)) => Some((*k, *v)),
        None => None,
    }
}

/// `r` is the result that a search below `node` owes: the pair of the
/// greatest key of the subtree that comes before `key`, or `previous` where
/// the subtree has no such key.
pub open(crate) spec fn last_before<K: Ord, V>(
    node: Node<K, V>,
    lo: Option<K>,
    hi: Option<K>,
    key: K,
    inclusive: bool,
    previous: Option<(K, V)>,
    r: Option<(K, V)>,
) -> bool {
    match r {
        Some((k, v)) => {
            &&& comes_before(k, key, inclusive)
            &&& lo matches Some(l) ==> at_most(l, k)
            &&& previous == Some((k, v)) || (in_range(k, lo, hi) && node.waiting(
                Seq::empty(),
                k,
            ).len() > 0 && v == node.waiting(Seq::empty(), k).last())
            &&& forall|j: K|
                in_range(j, lo, hi) && comes_before(j, key, inclusive) && #[trigger] node.waiting(
                    Seq::empty(),
                    j,
                ).len() > 0 ==> at_most(j, k)
        },
        None => {
            &&& previous is None
            &&& forall|j: K|
                in_range(j, lo, hi) && comes_before(j, key, inclusive) ==> #[trigger] node.waiting(
                    Seq::empty(),
                    j,
                ).len() == 0
        },
    }
}

/// The result of a search in a leaf: the pair with `key` where the read is
/// inclusive and the leaf has it, else the pair before the place of `key`,
/// else `previous`.
pub(crate) proof fn lemma_before_leaf<K: Ord, V>(
    node: Node<K, V>,
    lo: Option<K>,
    hi: Option<K>,
    key: K,
    inclusive: bool,
    previous: Option<(K, V)>,
)
    requires
        lawful_order::<K>(),
        node.wf(lo, hi),
        node.array is Leaf,
        node.buffer@.len() == 0,
        lo matches Some(l) ==> below(l, key),
        match (previous, lo) {
            (Some(p), Some(l)) => p.0 == l,
            (None, None) => true,
            _ => false,
        },
    ensures
        ({
            let e = node.array->Leaf_0.elements@;
            let i = rank(keys_of(e), key);
            let r = if inclusive && i < e.len() && e[i].0 == key {
                Some(e[i])
            } else if i > 0 {
                Some(e[i - 1])
            } else {
                previous
            };
            &&& 0 <= i <= e.len()
            &&& last_before(node, lo, hi, key, inclusive, previous, r)
        }),
{
    lemma_order_laws::<K>();
    let e = node.array->Leaf_0.elements@;
    let keys = keys_of(e);
    lemma_strict_ascends(keys);
    lemma_rank(keys, key);
    let i = rank(keys, key);
    let hit = i < e.len() && e[i].0 == key;
    assert forall|j: K|
        #![trigger node.waiting(Seq::empty(), j)]
        node.waiting(Seq::empty(), j) == keyed(e, j) && (keyed(e, j).len() > 0 ==> exists|x: int|
            0 <= x < e.len() && (#[trigger] e[x]).0 == j) by {
        lemma_leaf_waiting(node, j);
        lemma_keyed_items(e, j);
    }
    assert forall|x: int| 0 <= x < e.len() implies #[trigger] node.waiting(Seq::empty(), e[x].0)
        == seq![e[x].1] && in_range(e[x].0, lo, hi) by {
        lemma_leaf_waiting(node, e[x].0);
        lemma_keyed_strict(e, e[x].0);
        lemma_find_at(e, x);
        assert(in_range(keys[x], lo, hi));
    }
    if inclusive && hit {
        assert(node.waiting(Seq::empty(), e[i].0) == seq![e[i].1]);
    } else if i > 0 {
        assert(node.waiting(Seq::empty(), e[i - 1].0) == seq![e[i - 1].1]);
        assert(below(keys[i - 1], key));
        assert forall|j: K|
            in_range(j, lo, hi) && comes_before(j, key, inclusive) && #[trigger] node.waiting(
                Seq::empty(),
                j,
            ).len() > 0 implies at_most(j, e[i - 1].0) by {
            let x = choose|x: int| 0 <= x < e.len() && (#[trigger] e[x]).0 == j;
            assert(keys[x] == j);
            if x >= i {
                assert(!below(keys[x], key));
                if x > i {
                    assert(below(keys[i], keys[x]));
                    assert(!below(keys[i], key));
                }
            } else if x < i - 1 {
                assert(below(keys[x], keys[i - 1]));
            }
        }
    } else {
        assert forall|j: K|
            in_range(j, lo, hi) && comes_before(j, key, inclusive) implies #[trigger] node.waiting(
            Seq::empty(),
            j,
        ).len() == 0 by {
            if node.waiting(Seq::empty(), j).len() > 0 {
                let x = choose|x: int| 0 <= x < e.len() && (#[trigger] e[x]).0 == j;
                assert(keys[x] == j);
                assert(!below(keys[x], key));
                if x > 0 {
                    assert(below(keys[0], keys[x]));
                    assert(!below(keys[0], key));
                }
            }
        }
    }
}

/// The result of a search in an internal node that went on in child `i` is
/// the result of the search in that child, where the separator before the
/// child stands in for `previous`.
pub(crate) proof fn lemma_before_internal<K: Ord, V>(
    node: Node<K, V>,
    lo: Option<K>,
    hi: Option<K>,
    key: K,
    inclusive: bool,
    previous: Option<(K, V)>,
    r: Option<(K, V)>,
)
    requires
        lawful_order::<K>(),
        node.wf(lo, hi),
        node.array is Internal,
        node.buffer@.len() == 0,
        lo matches Some(l) ==> below(l, key),
        hi matches Some(h) ==> at_most(key, h),
        match (previous, lo) {
            (Some(p), Some(l)) => p.0 == l,
            (None, None) => true,
            _ => false,
        },
        ({
            let e = node.array->Internal_0.elements@;
            let keys = keys_of(e);
            let i = rank(keys, key);
            &&& !(inclusive && i < e.len() && e[i].key == key)
            &&& last_before(
                child_of(*node.array->Internal_0.first_child, e, i),
                lower(keys, i, lo),
                upper(keys, i, hi),
                key,
                inclusive,
                if i > 0 {
                    Some((e[i - 1].key, e[i - 1].value.value()))
                } else {
                    previous
                },
                r,
            )
        }),
    ensures
        last_before(node, lo, hi, key, inclusive, previous, r),
{
    lemma_order_laws::<K>();
    let e = node.array->Internal_0.elements@;
    let first = *node.array->Internal_0.first_child;
    let keys = keys_of(e);
    lemma_strict_ascends(keys);
    lemma_rank(keys, key);
    let i = rank(keys, key);
    let child = child_of(first, e, i);
    let clo = lower(keys, i, lo);
    let chi = upper(keys, i, hi);
    assert(node.buffer@ =~= Seq::<(K, V)>::empty());
    // What waits under a key of this node, by where the key leads.
    assert forall|j: K|
        #![trigger node.waiting(Seq::empty(), j)]
        in_range(j, lo, hi) implies {
            let x = rank(keys, j);
            &&& 0 <= x <= e.len()
            &&& (x < e.len() && keys[x] == j ==> node.waiting(Seq::empty(), j) == seq![
                e[x].value.value(),
            ])
            &&& (!(x < e.len() && keys[x] == j) ==> node.waiting(Seq::empty(), j) == child_of(
                first,
                e,
                x,
            ).waiting(Seq::empty(), j) && in_range(j, lower(keys, x, lo), upper(keys, x, hi)))
            &&& (x > 0 ==> below(keys[x - 1], j))
            &&& (x < e.len() ==> at_most(j, keys[x]))
        } by {
        lemma_internal(node, Seq::empty(), j, lo, hi);
        lemma_spot(first, e, j);
        lemma_rank(keys, j);
    }
    if i > 0 {
        assert(in_range(keys[i - 1], lo, hi));
        assert(below(keys[i - 1], key));
        lemma_internal(node, Seq::empty(), keys[i - 1], lo, hi);
        lemma_spot(first, e, keys[i - 1]);
        lemma_rank(keys, keys[i - 1]);
        assert forall|x: int| 0 <= x < i - 1 implies below(#[trigger] keys[x], keys[i - 1]) by {}
        assert forall|x: int| i - 1 <= x < keys.len() implies !below(
            #[trigger] keys[x],
            keys[i - 1],
        ) by {
            if x > i - 1 {
                assert(below(keys[i - 1], keys[x]));
            }
        }
        lemma_rank_is(keys, keys[i - 1], i - 1);
        assert(node.waiting(Seq::empty(), keys[i - 1]) == seq![e[i - 1].value.value()]);
    }
    match r {
        Some((k, v)) => {
            if in_range(k, clo, chi) && child.waiting(Seq::empty(), k).len() > 0 {
                assert(in_range(k, lo, hi)) by {
                    if i > 0 {
                        assert(in_range(keys[i - 1], lo, hi));
                    }
                    if i < e.len() {
                        assert(in_range(keys[i], lo, hi));
                    }
                }
                assert forall|x: int| 0 <= x < i implies below(#[trigger] keys[x], k) by {
                    if x < i - 1 {
                        assert(below(keys[x], keys[i - 1]));
                    }
                }
                assert forall|x: int| i <= x < keys.len() implies !below(#[trigger] keys[x], k) by {
                    if x > i {
                        assert(below(keys[i], keys[x]));
                    }
                }
                lemma_rank_is(keys, k, i);
                assert(node.waiting(Seq::empty(), k) == child.waiting(Seq::empty(), k));
            }
            assert forall|j: K|
                in_range(j, lo, hi) && comes_before(j, key, inclusive) && #[trigger] node.waiting(
                    Seq::empty(),
                    j,
                ).len() > 0 implies at_most(j, k) by {
                let x = rank(keys, j);
                lemma_internal(node, Seq::empty(), j, lo, hi);
                lemma_spot(first, e, j);
                lemma_rank(keys, j);
                if x < e.len() && keys[x] == j {
                    if x >= i {
                        assert(!below(keys[x], key));
                    } else if x < i - 1 {
                        assert(below(keys[x], keys[i - 1]));
                    }
                } else if x < i {
                    assert(at_most(j, keys[x]));
                    if x < i - 1 {
                        assert(below(keys[x], keys[i - 1]));
                    }
                } else if x > i {
                    assert(below(keys[x - 1], j));
                    if x - 1 > i {
                        assert(below(keys[i], keys[x - 1]));
                    }
                    assert(!below(keys[i], key));
                }
            }
        },
        None => {
            assert forall|j: K|
                in_range(j, lo, hi) && comes_before(j, key, inclusive) implies #[trigger] node.waiting(
                Seq::empty(),
                j,
            ).len() == 0 by {
                let x = rank(keys, j);
                lemma_internal(node, Seq::empty(), j, lo, hi);
                lemma_spot(first, e, j);
                lemma_rank(keys, j);
                assert(i == 0);
                if x < e.len() && keys[x] == j {
                    assert(!below(keys[x], key));
                } else if x > 0 {
                    assert(below(keys[x - 1], j));
                    assert(!below(keys[0], key));
                    if x - 1 > 0 {
                        assert(below(keys[0], keys[x - 1]));
                    }
                }
            }
        },
    }
}

impl<K: Ord, V> Node<K, V> {
    /// The pair of the greatest key of this subtree that comes before `key`,
    /// or `previous` where the subtree has no such key. Nothing may wait in a
    /// buffer on the way of the search.
    pub(crate) fn fetch_before<'a>(
        &'a self,
        key: &K,
        inclusive: bool,
        previous: Option<(&'a K, &'a V)>,
        Ghost(lo): Ghost<Option<K>>,
        Ghost(hi): Ghost<Option<K>>,
    ) -> (r: Option<(&'a K, &'a V)>)
        requires
            lawful_order::<K>(),
            self.wf(lo, hi),
            if inclusive {
                self.settled(*key)
            } else {
                self.settled_before(*key)
            },
            lo matches Some(l) ==> below(l, *key),
            hi matches Some(h) ==> at_most(*key, h),
            match (plain(previous), lo) {
                (Some(p), Some(l)) => p.0 == l,
                (None, None) => true,
                _ => false,
            },
        ensures
            last_before(*self, lo, hi, *key, inclusive, plain(previous), plain(r)),
        decreases self,
    {
        proof {
            lemma_order_laws::<K>();
        }
        match &self.array {
            Array::Leaf(la) => {
                proof {
                    lemma_before_leaf(*self, lo, hi, *key, inclusive, plain(previous));
                }
                match locate(&la.elements, key) {
                    Ok(i) => {
                        if inclusive {
                            Some((&la.elements[i].0, &la.elements[i].1))
                        } else if i != 0 {
                            Some((&la.elements[i - 1].0, &la.elements[i - 1].1))
                        } else {
                            previous
                        }
                    },
                    Err(i) => {
                        if i != 0 {
                            Some((&la.elements[i - 1].0, &la.elements[i - 1].1))
                        } else {
                            previous
                        }
                    },
                }
            },
            Array::Internal(ia) => {
                let ghost keys = keys_of(ia.elements@);
                proof {
                    lemma_internal(*self, Seq::empty(), *key, lo, hi);
                    assert(self.buffer@ =~= Seq::<(K, V)>::empty());
                    lemma_spot(*ia.first_child, ia.elements@, *key);
                    lemma_strict_ascends(keys);
                    lemma_rank(keys, *key);
                }
                let spot = locate(&ia.elements, key);
                let i = match spot {
                    Ok(i) => {
                        if inclusive {
                            proof {
                                assert(in_range(keys[i as int], lo, hi));
                            }
                            return Some((&ia.elements[i].key, ia.elements[i].value.get()));
                        }
                        i
                    },
                    Err(i) => i,
                };
                let nearest = if i != 0 {
                    Some((&ia.elements[i - 1].key, ia.elements[i - 1].value.get()))
                } else {
                    previous
                };
                proof {
                    assert(child_of(*ia.first_child, ia.elements@, i as int).wf(
                        lower(keys, i as int, lo),
                        upper(keys, i as int, hi),
                    ));
                    if i < ia.elements@.len() {
                        assert(keys[i as int] == ia.elements@[i as int].key);
                    }
                }
                let r = if i == 0 {
                    ia.first_child.fetch_before(
                        key,
                        inclusive,
                        nearest,
                        Ghost(lower(keys, 0, lo)),
                        Ghost(upper(keys, 0, hi)),
                    )
                } else {
                    ia.elements[i - 1].child.fetch_before(
                        key,
                        inclusive,
                        nearest,
                        Ghost(lower(keys, i as int, lo)),
                        Ghost(upper(keys, i as int, hi)),
                    )
                };
                proof {
                    lemma_before_internal(
                        *self,
                        lo,
                        hi,
                        *key,
                        inclusive,
                        plain(previous),
                        plain(r),
                    );
                }
                r
            },
        }
    }
}

/// What a read of the pair before `key` owes: the pair of the greatest key
/// of `m` that comes before `key`, or nothing where no key of `m` does.
pub open spec fn pair_before<K: Ord, V>(
    m: Map<K, V>,
    key: K,
    inclusive: bool,
    r: Option<(K, V)>,
) -> bool {
    match r {
        Some((k, v)) => is_last_before(m, key, inclusive, k) && v == m[k],
        None => forall|j: K| #[trigger] m.contains_key(j) ==> !comes_before(j, key, inclusive),
    }
}

/// What a read of the value before `key` owes: the value of the greatest
/// key of `m` that comes before `key`, or nothing where no key of `m` does.
pub open spec fn value_before<K: Ord, V>(
    m: Map<K, V>,
    key: K,
    inclusive: bool,
    r: Option<V>,
) -> bool {
    match r {
        Some(v) => exists|k: K| #[trigger] is_last_before(m, key, inclusive, k) && v == m[k],
        None => forall|j: K| #[trigger] m.contains_key(j) ==> !comes_before(j, key, inclusive),
    }
}

impl<K: Ord, V> BeeMap<K, V> {
    /// Gives the value that a read of the pair before `key` hands out a box
    /// of its own, where it is the value of a separator. `was` is the map
    /// before the search that settled the way.
    fn box_before(&mut self, key: &K, inclusive: bool, Ghost(was): Ghost<BeeMap<K, V>>)
        requires
            lawful_order::<K>(),
            old(self).wf(),
            after_read(was, *old(self), *key, !inclusive),
            forall|k: K| refines(#[trigger] old(self).waiting(k), was.waiting(k)),
        ensures
            final(self).wf(),
            final(self).len_spec() == old(self).len_spec(),
            final(self)@ == was@,
            forall|k: K| refines(#[trigger] final(self).waiting(k), was.waiting(k)),
            forall|k: K| #[trigger] final(self).settled(k) == old(self).settled(k),
            forall|k: K| #[trigger] final(self).settled_before(k) == old(self).settled_before(k),
            after_read_before(was, *final(self), *key, inclusive),
            final(self).buffered() == Seq::<(K, V)>::empty(),
            was.buffered_in_order() ==> final(self).buffered_in_order(),
    {
        let ghost mid = *self;
        let _ = self.root.box_before(key, inclusive, Ghost(None), Ghost(None));
        proof {
            lemma_boxed_same(mid.root, self.root, *key, inclusive, None, None);
            lemma_boxed_buffer(mid.root, self.root, *key, inclusive);
            law_read_empties_buffer(was, mid, *key, !inclusive);
            assert forall|k: K| refines(#[trigger] self.waiting(k), was.waiting(k)) by {
                assert(self.waiting(k) == mid.waiting(k));
                assert(refines(mid.waiting(k), was.waiting(k)));
            }
            lemma_same_view(was, *self);
        }
    }

    /// The pair before `key`, once nothing waits on the way of the search.
    fn last_pair_before(&self, key: &K, inclusive: bool) -> (r: Option<(&K, &V)>)
        requires
            lawful_order::<K>(),
            self.wf(),
            if inclusive {
                self.settled(*key)
            } else {
                self.settled_before(*key)
            },
        ensures
            pair_before(self@, *key, inclusive, plain(r)),
    {
        let r = self.root.fetch_before(key, inclusive, None, Ghost(None), Ghost(None));
        proof {
            assert forall|j: K| #[trigger]
                self@.contains_key(j) <==> self.root.waiting(Seq::empty(), j).len() > 0 by {}
        }
        r
    }

    /// The key and the value of the pair before `key`: of the greatest key
    /// below `key` that is bound.
    pub fn get_key_value_before(&mut self, key: &K) -> (r: Option<(&K, &V)>)
        requires
            lawful_order::<K>(),
            old(self).wf(),
        ensures
            final(self).wf(),
            final(self)@ == old(self)@,
            final(self).len_spec() <= old(self).len_spec(),
            old(self).reconciled() ==> final(self).len_spec() == old(self).len_spec(),
            forall|k: K| refines(#[trigger] final(self).waiting(k), old(self).waiting(k)),
            pair_before(old(self)@, *key, false, plain(r)),
            after_read_before(*old(self), *final(self), *key, false),
            final(self).buffered() == Seq::<(K, V)>::empty(),
            old(self).buffered_in_order() ==> final(self).buffered_in_order(),
    {
        self.settle_before(key);
        self.box_before(key, false, Ghost(*old(self)));
        self.last_pair_before(key, false)
    }

    /// The key and the value of the pair of `key`, or of the pair before
    /// `key` where `key` is not bound.
    pub fn get_key_value_before_inc(&mut self, key: &K) -> (r: Option<(&K, &V)>)
        requires
            lawful_order::<K>(),
            old(self).wf(),
        ensures
            final(self).wf(),
            final(self)@ == old(self)@,
            final(self).len_spec() <= old(self).len_spec(),
            old(self).reconciled() ==> final(self).len_spec() == old(self).len_spec(),
            forall|k: K| refines(#[trigger] final(self).waiting(k), old(self).waiting(k)),
            pair_before(old(self)@, *key, true, plain(r)),
            after_read_before(*old(self), *final(self), *key, true),
            final(self).buffered() == Seq::<(K, V)>::empty(),
            old(self).buffered_in_order() ==> final(self).buffered_in_order(),
    {
        let _ = self.settle(key);
        self.box_before(key, true, Ghost(*old(self)));
        self.last_pair_before(key, true)
    }

    /// The value of the pair before `key`: of the greatest key below `key`
    /// that is bound.
    pub fn get_before(&mut self, key: &K) -> (r: Option<&V>)
        requires
            lawful_order::<K>(),
            old(self).wf(),
        ensures
            final(self).wf(),
            final(self)@ == old(self)@,
            final(self).len_spec() <= old(self).len_spec(),
            old(self).reconciled() ==> final(self).len_spec() == old(self).len_spec(),
            forall|k: K| refines(#[trigger] final(self).waiting(k), old(self).waiting(k)),
            value_before(
                old(self)@,
                *key,
                false,
                match r {
                    Some(v) => Some(*v),
                    None => None,
                },
            ),
            after_read_before(*old(self), *final(self), *key, false),
            final(self).buffered() == Seq::<(K, V)>::empty(),
            old(self).buffered_in_order() ==> final(self).buffered_in_order(),
    {
        match self.get_key_value_before(key) {
            Some((_, value)) => Some(value),
            None => None,
        }
    }

    /// The value of `key`, or of the pair before `key` where `key` is not
    /// bound.
    pub fn get_before_inc(&mut self, key: &K) -> (r: Option<&V>)
        requires
            lawful_order::<K>(),
            old(self).wf(),
        ensures
            final(self).wf(),
            final(self)@ == old(self)@,
            final(self).len_spec() <= old(self).len_spec(),
            old(self).reconciled() ==> final(self).len_spec() == old(self).len_spec(),
            forall|k: K| refines(#[trigger] final(self).waiting(k), old(self).waiting(k)),
            value_before(
                old(self)@,
                *key,
                true,
                match r {
                    Some(v) => Some(*v),
                    None => None,
                },
            ),
            after_read_before(*old(self), *final(self), *key, true),
            final(self).buffered() == Seq::<(K, V)>::empty(),
            old(self).buffered_in_order() ==> final(self).buffered_in_order(),
    {
        match self.get_key_value_before_inc(key) {
            Some((_, value)) => Some(value),
            None => None,
        }
    }
}

} // verus!
