//! The map: a tree, and the number of pairs that the tree holds.
//!
//! An insertion puts its pair into the buffer of the root and does nothing
//! else. A read files what waits on the way to its key, which may split
//! nodes; where the root itself is split, the tree grows a new root above it.
//! Filing drops, of the pairs with one key that meet, all but one, and the
//! map counts them out.
use crate::boxing::boxed_before;
use crate::fetch::rebound;
use crate::items::flat;
use crate::laws::law_single_arrival;
use crate::meaning::{
    lemma_buffer_count, lemma_settled_arrival, lemma_waiting_count, lemma_waiting_same,
    lemma_waiting_with, refines,
};
use crate::node::{
    arrived, arrived_sorted, child_of, joined, joined_sorted, settled_before_in, settled_in, waiting_in, wf_in, Array,
    Branch, InternalArray, Node,
};
use crate::order::lawful_order;
use crate::process::{lemma_split_fits, merged, split, stride, target};
use crate::search::{
    lemma_found_waits, lemma_split_flushed, of_kind, outcome, resolve_head, searched,
    SearchResult, Station,
};
use crate::seqs::{
    ascending, find, keyed, keys_of, lemma_find, lemma_keyed_one, lemma_rank_bounds, rank,
    strictly_ascending,
};
use crate::shape::{
    deep_spot, lemma_internal_split, lemma_internal_split_route, lemma_merged_once, lemma_spot,
    lemma_strict_ascends, spot,
};
use crate::stock::{
    lemma_stock_alone, lemma_stock_arrival, lemma_stock_count, lemma_stock_internal_split,
    lemma_stock_leaf, stock_in,
};
use crate::vec_slicer::VecSlicer;
use std::collections::VecDeque;
use vstd::multiset::Multiset;
use vstd::prelude::*;

verus! {

/// An ordered map that buffers insertions.
///
/// As a map it is `self@`: every key that has values waiting, bound to the
/// last of them. `waiting` and `pending` tell which values wait under a key;
/// several do after several insertions under that key, until a read of the
/// key has dropped all but the one that the key is bound to.
pub struct BeeMap<K, V> {
    pub(crate) root: Node<K, V>,
    pub(crate) length: usize,
}

impl<K: Ord, V> View for BeeMap<K, V> {
    type V = Map<K, V>;

    /// The map from each key that has a value waiting to the last one that
    /// waits: the value that a read returns.
    open spec fn view(&self) -> Map<K, V> {
        Map::new(|k: K| self.waiting(k).len() > 0, |k: K| self.waiting(k).last())
    }
}

impl<K: Ord, V> Default for BeeMap<K, V> {
    /// A map that holds nothing.
    fn default() -> (map: Self)
        ensures
            map.wf(),
            map.len_spec() == 0,
            map@ == Map::<K, V>::empty(),
            map.buffered() == Seq::<(K, V)>::empty(),
            map.buffered_in_order(),
            map.bare(),
    {
        Self::new()
    }
}

impl<K: Ord, V> BeeMap<K, V> {
    /// The tree is well formed, and the map has counted the pairs that the
    /// tree holds.
    pub open(crate) spec fn wf(&self) -> bool {
        &&& self.root.wf(None, None)
        &&& self.length == self.root.stock().len()
    }

    /// The bag of the keys of the pairs that the map holds: each key as
    /// often as values wait under it.
    pub open(crate) spec fn held(&self) -> Multiset<K> {
        self.root.stock()
    }

    /// The pairs in the buffer of the root, in their order: those that were
    /// inserted since a read last emptied it.
    pub open(crate) spec fn buffered(&self) -> Seq<(K, V)> {
        self.root.buffer@
    }

    /// Whether the buffer of the root is known to be in ascending order.
    pub open(crate) spec fn buffered_in_order(&self) -> bool {
        self.root.buffer_is_sorted
    }

    /// The tree below the buffer of the root: the array of the root, with
    /// all that hangs from it.
    pub open(crate) spec fn filed(&self) -> Array<K, V> {
        self.root.array
    }

    /// Whether nothing is filed yet: the root is a leaf that holds no pair.
    pub open(crate) spec fn bare(&self) -> bool {
        self.root.array is Leaf && self.root.array->Leaf_0.elements@.len() == 0
    }

    /// The values that wait under `k`: those that were inserted under it and
    /// that no read has dropped yet, in the order in which a read settles
    /// them. The last one is the value that `k` is bound to.
    pub open(crate) spec fn waiting(&self, k: K) -> Seq<V> {
        self.root.waiting(Seq::empty(), k)
    }

    /// The values that wait under `k` once the pairs of `run`, whose keys
    /// ascend, have arrived as one run at the buffer of the root.
    pub open(crate) spec fn waiting_after(&self, run: Seq<(K, V)>, k: K) -> Seq<V> {
        self.root.waiting(run, k)
    }

    /// The values that wait under `k` once the pairs of `run` stand behind
    /// those in the buffer of the root.
    pub open(crate) spec fn waiting_behind(&self, run: Seq<(K, V)>, k: K) -> Seq<V> {
        self.root.waiting_with(self.root.buffer@ + run, k)
    }

    /// Nothing waits in a buffer on the way to `k`.
    pub open(crate) spec fn settled(&self, k: K) -> bool {
        self.root.settled(k)
    }

    /// Nothing waits in a buffer on the way to the place just before `k`.
    pub open(crate) spec fn settled_before(&self, k: K) -> bool {
        self.root.settled_before(k)
    }

    /// The values that wait under `k`, without their order.
    pub open spec fn pending(&self, k: K) -> Multiset<V> {
        self.waiting(k).to_multiset()
    }

    /// No key has more than one value waiting, so that `self@` holds all
    /// that was inserted.
    pub open spec fn reconciled(&self) -> bool {
        forall|k: K| #[trigger] self.waiting(k).len() <= 1
    }

    /// The number of pairs that the map holds.
    pub open(crate) spec fn len_spec(&self) -> nat {
        self.length as nat
    }

    /// A map that holds nothing.
    pub fn new() -> (map: Self)
        ensures
            map.wf(),
            map.len_spec() == 0,
            forall|k: K| #[trigger] map.waiting(k) == Seq::<V>::empty(),
            forall|k: K| #[trigger] map.settled(k),
            map@ == Map::<K, V>::empty(),
            map.buffered() == Seq::<(K, V)>::empty(),
            map.buffered_in_order(),
            map.bare(),
    {
        let map = BeeMap { root: Node::empty_leaf(), length: 0 };
        proof {
            assert forall|k: K| #[trigger] map.waiting(k) == Seq::<V>::empty() by {
                crate::shape::lemma_leaf_waiting(map.root, k);
                assert(keyed(map.root.array->Leaf_0.elements@, k) =~= Seq::<V>::empty());
            }
            assert(map@ =~= Map::<K, V>::empty());
            assert(map.buffered() =~= Seq::<(K, V)>::empty());
            lemma_stock_leaf(map.root);
        }
        map
    }

    /// The number of pairs that the map holds: those that were inserted, less
    /// those that reads have dropped. It is an upper bound of the number of
    /// keys that are bound, since pairs with equal keys count each until a
    /// read has dropped all but one of them.
    pub fn len(&self) -> (n: usize)
        ensures
            n == self.len_spec(),
    {
        self.length
    }

    /// Whether the map holds nothing.
    pub fn is_empty(&self) -> (b: bool)
        ensures
            b == (self.len_spec() == 0),
    {
        self.length == 0
    }

    /// Inserts a pair. It goes into the buffer of the root; the tree below is
    /// not touched.
    ///
    /// The value joins those that wait under the key. It is the value that
    /// the key is bound to from then on where nothing waited in a buffer on
    /// the way to the key, as after a read of the key, and where the key was
    /// not bound. Where another value waits under the key in a buffer, the
    /// order of the two in that buffer decides, as `waiting_after` tells.
    pub fn insert(&mut self, key: K, value: V)
        requires
            lawful_order::<K>(),
            old(self).wf(),
            old(self).len_spec() < usize::MAX,
        ensures
            final(self).wf(),
            final(self).len_spec() == old(self).len_spec() + 1,
            final(self).filed() == old(self).filed(),
            final(self).buffered() == joined(
                old(self).buffered(),
                old(self).buffered_in_order(),
                seq![(key, value)],
            ),
            final(self).buffered_in_order() == joined_sorted(
                old(self).buffered(),
                old(self).buffered_in_order(),
                seq![(key, value)],
            ),
            final(self).buffered() == arrived(
                old(self).buffered(),
                old(self).buffered_in_order(),
                key,
                value,
            ),
            final(self).buffered_in_order() == arrived_sorted(
                old(self).buffered(),
                old(self).buffered_in_order(),
                key,
            ),
            forall|k: K|
                #[trigger] final(self).waiting(k) == old(self).waiting_after(
                    seq![(key, value)],
                    k,
                ),
            forall|k: K|
                #[trigger] final(self).pending(k) == if k == key {
                    old(self).pending(k).insert(value)
                } else {
                    old(self).pending(k)
                },
            old(self).reconciled() && !old(self)@.contains_key(key) ==> final(self).reconciled()
                && final(self)@ == old(self)@.insert(key, value),
            old(self).settled(key) ==> final(self).waiting(key) == old(self).waiting(key).push(
                value,
            ),
            old(self).reconciled() && old(self).settled(key) ==> final(self)@ == old(
                self,
            )@.insert(key, value),
            inserts(*old(self), *final(self), key, value),
    {
        let ghost was = self.root;
        self.root.insert(key, value);
        self.length += 1;
        proof {
            broadcast use vstd::multiset::group_multiset_axioms;

            let inc = seq![(key, value)];
            law_single_arrival(*old(self), key, value);
            lemma_stock_arrival(was, self.root, inc);
            assert forall|k: K| #[trigger] self.waiting(k) == old(self).waiting_after(inc, k) by {
                lemma_waiting_same(was, inc, self.root, Seq::empty(), k);
            }
            assert forall|k: K|
                #[trigger] self.pending(k) == if k == key {
                    old(self).pending(k).insert(value)
                } else {
                    old(self).pending(k)
                } by {
                lemma_waiting_same(was, inc, self.root, Seq::empty(), k);
                lemma_waiting_count(was, inc, k, None, None);
                lemma_keyed_one((key, value), k);
                if k == key {
                    assert(seq![value] =~= Seq::<V>::empty().push(value));
                    vstd::seq_lib::to_multiset_build(Seq::<V>::empty(), value);
                    vstd::seq_lib::to_multiset_len(Seq::<V>::empty());
                    vstd::multiset::lemma_multiset_empty_len(Seq::<V>::empty().to_multiset());
                    assert(self.pending(k) =~= old(self).pending(k).insert(value));
                } else {
                    vstd::seq_lib::to_multiset_len(Seq::<V>::empty());
                    vstd::multiset::lemma_multiset_empty_len(Seq::<V>::empty().to_multiset());
                    assert(self.pending(k) =~= old(self).pending(k));
                }
            }
            if old(self).settled(key) {
                lemma_waiting_same(was, inc, self.root, Seq::empty(), key);
                lemma_settled_arrival(was, inc, key, None, None);
                lemma_keyed_one((key, value), key);
                assert(old(self).waiting(key) + seq![value] =~= old(self).waiting(key).push(
                    value,
                ));
            }
            if old(self).reconciled() && old(self).settled(key) {
                assert forall|k: K|
                    (self.waiting(k).len() > 0 <==> (k == key || old(self).waiting(k).len() > 0))
                        && (self.waiting(k).len() > 0 ==> self.waiting(k).last() == if k == key {
                        value
                    } else {
                        old(self).waiting(k).last()
                    }) by {
                    if k != key {
                        assert(self.pending(k) == old(self).pending(k));
                        assert(old(self).waiting(k).len() <= 1);
                        lemma_single(self.waiting(k), old(self).waiting(k), false, value);
                    }
                }
                assert(self@ =~= old(self)@.insert(key, value));
            }
            if old(self).reconciled() && !old(self)@.contains_key(key) {
                assert forall|k: K|
                    #[trigger] self.waiting(k).len() <= 1 && (self.waiting(k).len() > 0 <==> (k
                        == key || old(self).waiting(k).len() > 0)) && (self.waiting(k).len() > 0
                        ==> self.waiting(k).last() == if k == key {
                        value
                    } else {
                        old(self).waiting(k).last()
                    }) by {
                    assert(self.pending(k) == if k == key {
                        old(self).pending(k).insert(value)
                    } else {
                        old(self).pending(k)
                    });
                    assert(old(self).waiting(k).len() <= 1);
                    lemma_single(self.waiting(k), old(self).waiting(k), k == key, value);
                }
                assert(self@ =~= old(self)@.insert(key, value));
            }
        }
    }

    /// Inserts the pairs of `sequence`, in their order, as one run into the
    /// buffer of the root. `sorted_hint` says that their keys ascend; the
    /// run then goes in front of the buffer where that keeps the buffer in
    /// order, and the buffer stays in order where the run fits behind it.
    ///
    /// Under every key the values of the run join those that wait there.
    pub fn bulk_insert(&mut self, sequence: Vec<(K, V)>, sorted_hint: bool)
        requires
            lawful_order::<K>(),
            old(self).wf(),
            sorted_hint ==> ascending(keys_of(sequence@)),
            old(self).len_spec() + sequence@.len() <= usize::MAX,
        ensures
            final(self).wf(),
            final(self).len_spec() == old(self).len_spec() + sequence@.len(),
            final(self).filed() == old(self).filed(),
            final(self).buffered() == joined(
                old(self).buffered(),
                sorted_hint && old(self).buffered_in_order(),
                sequence@,
            ),
            final(self).buffered_in_order() == if sequence@.len() == 0 {
                old(self).buffered_in_order()
            } else {
                sorted_hint && joined_sorted(
                    old(self).buffered(),
                    old(self).buffered_in_order(),
                    sequence@,
                )
            },
            forall|k: K|
                #[trigger] final(self).pending(k) == old(self).pending(k).add(
                    keyed(sequence@, k).to_multiset(),
                ),
            fresh_run(*old(self), sequence@) ==> final(self).reconciled() && forall|k: K|
                #[trigger] final(self).waiting(k) == old(self).waiting(k) + keyed(sequence@, k),
            forall|k: K|
                #[trigger] final(self).waiting(k) == if sorted_hint {
                    old(self).waiting_after(sequence@, k)
                } else {
                    old(self).waiting_behind(sequence@, k)
                },
    {
        let ghost was = self.root;
        let ghost inc = sequence@;
        let mut sequence = sequence;
        let count = sequence.len();
        if count == 0 {
            proof {
                broadcast use vstd::multiset::group_multiset_axioms;

                assert forall|k: K|
                    #[trigger] self.pending(k) == old(self).pending(k).add(
                        keyed(inc, k).to_multiset(),
                    ) by {
                    assert(keyed(inc, k) =~= Seq::<V>::empty());
                    vstd::seq_lib::to_multiset_len(keyed(inc, k));
                    vstd::multiset::lemma_multiset_empty_len(keyed(inc, k).to_multiset());
                    assert(self.pending(k) =~= old(self).pending(k).add(
                        keyed(inc, k).to_multiset(),
                    ));
                }
                lemma_fresh_run(*old(self), *self, inc);
                assert forall|k: K|
                    #[trigger] self.waiting(k) == old(self).waiting_after(inc, k) && self.waiting(
                        k,
                    ) == old(self).waiting_behind(inc, k) by {
                    lemma_waiting_same(was, inc, self.root, Seq::empty(), k);
                    lemma_waiting_with(was, was.buffer@ + inc, k);
                    assert(was.buffer@ + inc =~= was.buffer@);
                }
            }
            return ;
        }
        let mut slicer = VecSlicer::new(&mut sequence);
        let thief = slicer.slice_to_end();
        self.root.append(thief, sorted_hint, Ghost(None), Ghost(None));
        self.length += count;
        proof {
            broadcast use vstd::multiset::group_multiset_axioms;

            assert forall|k: K|
                #[trigger] self.pending(k) == old(self).pending(k).add(
                    keyed(inc, k).to_multiset(),
                ) by {
                lemma_buffer_count(was, self.root, inc, k, None, None);
            }
            lemma_stock_arrival(was, self.root, inc);
            lemma_fresh_run(*old(self), *self, inc);
            if sorted_hint {
                assert forall|k: K| #[trigger] self.waiting(k) == old(self).waiting_after(inc, k) by {
                    lemma_waiting_same(was, inc, self.root, Seq::empty(), k);
                }
            } else {
                assert forall|k: K| #[trigger] self.waiting(k) == old(self).waiting_behind(inc, k) by {
                    lemma_waiting_with(self.root, self.root.buffer@, k);
                }
            }
        }
    }

    /// Inserts the pairs of `sequence`, whose keys ascend, as one run.
    pub fn bulk_insert_sorted(&mut self, sequence: Vec<(K, V)>)
        requires
            lawful_order::<K>(),
            old(self).wf(),
            ascending(keys_of(sequence@)),
            old(self).len_spec() + sequence@.len() <= usize::MAX,
        ensures
            final(self).wf(),
            final(self).len_spec() == old(self).len_spec() + sequence@.len(),
            final(self).filed() == old(self).filed(),
            final(self).buffered() == joined(
                old(self).buffered(),
                old(self).buffered_in_order(),
                sequence@,
            ),
            final(self).buffered_in_order() == joined_sorted(
                old(self).buffered(),
                old(self).buffered_in_order(),
                sequence@,
            ),
            forall|k: K|
                #[trigger] final(self).pending(k) == old(self).pending(k).add(
                    keyed(sequence@, k).to_multiset(),
                ),
            fresh_run(*old(self), sequence@) ==> final(self).reconciled() && forall|k: K|
                #[trigger] final(self).waiting(k) == old(self).waiting(k) + keyed(sequence@, k),
            forall|k: K|
                #[trigger] final(self).waiting(k) == old(self).waiting_after(sequence@, k),
    {
        self.bulk_insert(sequence, true)
    }

    /// Lets the tree grow by one level: the root becomes the first child of
    /// a new root, which takes the branches that came up into its array.
    /// Returns the branches that the new root could not keep.
    fn grow(&mut self, new_branches: Vec<Branch<K, V>>) -> (promoted: Vec<Branch<K, V>>)
        requires
            lawful_order::<K>(),
            new_branches@.len() > 0,
            wf_in(old(self).root, new_branches@, None, None),
            strictly_ascending(keys_of(new_branches@)),
        ensures
            final(self).length == old(self).length,
            final(self).root.array is Internal,
            final(self).root.buffer@.len() == 0,
            grown(old(self).root, new_branches@, final(self).root, promoted@),
            promoted@.len() < new_branches@.len(),
            wf_in(final(self).root, promoted@, None, None),
            of_kind(final(self).root, promoted@),
            strictly_ascending(keys_of(promoted@)),
            stock_in(final(self).root, promoted@) == stock_in(old(self).root, new_branches@),
            forall|j: int|
                0 <= j < promoted@.len() ==> find(new_branches@, (#[trigger] promoted@[j]).key)
                    is Some,
            forall|k: K| #[trigger]
                waiting_in(final(self).root, promoted@, Seq::empty(), k) == waiting_in(
                    old(self).root,
                    new_branches@,
                    Seq::empty(),
                    k,
                ),
            forall|k: K| #[trigger]
                settled_in(final(self).root, promoted@, k) == settled_in(
                    old(self).root,
                    new_branches@,
                    k,
                ),
            forall|k: K| #[trigger]
                settled_before_in(final(self).root, promoted@, k) == settled_before_in(
                    old(self).root,
                    new_branches@,
                    k,
                ),
            forall|k: K| #[trigger]
                deep_spot(final(self).root, promoted@, k) == spot(
                    old(self).root,
                    new_branches@,
                    k,
                ),
    {
        let ghost nb = new_branches@;
        let mut old_root = Node::empty_leaf();
        core::mem::swap(&mut self.root, &mut old_root);
        let mut new_array = InternalArray { first_child: Box::new(old_root), elements: Vec::new() };
        proof {
            lemma_strict_ascends(keys_of(nb));
        }
        let promoted = new_array.process_branches(new_branches);
        self.root =
        Node {
            buffer: VecDeque::new(),
            buffer_is_sorted: true,
            array: Array::Internal(new_array),
        };
        proof {
            let own = self.root.array->Internal_0.elements@;
            let f = flat::<K, V, Branch<K, V>>(own, promoted@);
            assert forall|k: K| #[trigger] find(f, k) == find(nb, k) by {
                assert(find(f, k) == target(Seq::<Branch<K, V>>::empty(), nb, k));
            }
            lemma_merged_once(f, nb);
            lemma_split_flushed(self.root, promoted@, nb.len() as int, None, None);
            lemma_split_fits::<K, V, Branch<K, V>>(own, promoted@, f.len() as int, nb.len() as int);
            assert(stride() == 76);
            lemma_stock_internal_split(self.root, promoted@);
            lemma_internal_split(self.root, promoted@);
            assert forall|k: K| #[trigger]
                settled_before_in(self.root, promoted@, k) == settled_before_in(
                    old(self).root,
                    nb,
                    k,
                ) by {
                lemma_internal_split_route(self.root, promoted@, k);
                let part = child_of(self.root, promoted@, rank(keys_of(promoted@), k));
                lemma_rank_bounds(keys_of(part.array->Internal_0.elements@), k);
            }
        }
        promoted
    }

    /// Files what waits on the way to `key`, and lets the tree grow while
    /// branches come up from the root: the root becomes the first child of a
    /// new root, which takes the branches into its array, and that may
    /// promote branches again. Returns whether the key is bound.
    pub(crate) fn settle(&mut self, key: &K) -> (found: bool)
        requires
            lawful_order::<K>(),
            old(self).wf(),
        ensures
            final(self).wf(),
            final(self).settled(*key),
            final(self).len_spec() <= old(self).len_spec(),
            old(self).reconciled() ==> final(self).len_spec() == old(self).len_spec(),
            forall|k: K| refines(#[trigger] final(self).waiting(k), old(self).waiting(k)),
            found == (old(self).waiting(*key).len() > 0),
            after_read(*old(self), *final(self), *key, false),
    {
        let ghost was = self.root;
        let (mut search_result, mut new_branches, dropped) = self.root.search(
            key,
            Ghost(None),
            Ghost(None),
        );
        let ghost way = choose|way: Seq<Station<K, V>>|
            searched(
                was.array,
                was.buffer@,
                was.buffer_is_sorted,
                self.root,
                new_branches@,
                *key,
                false,
                way,
            );
        let ghost first = Level { root: self.root, came_up: new_branches@ };
        let ghost mut levels = seq![first];
        while new_branches.len() > 0
            invariant
                levels.len() > 0,
                levels[0] == first,
                raised(levels),
                levels.last().root == self.root,
                levels.last().came_up == new_branches@,
                lawful_order::<K>(),
                self.length == old(self).length,
                stock_in(self.root, new_branches@).len() + dropped == was.stock().len(),
                wf_in(self.root, new_branches@, None, None),
                settled_in(self.root, new_branches@, *key),
                strictly_ascending(keys_of(new_branches@)),
                forall|k: K|
                    refines(
                        #[trigger] waiting_in(self.root, new_branches@, Seq::empty(), k),
                        was.waiting(Seq::empty(), k),
                    ),
                search_result == outcome(was, new_branches@, *key),
            decreases new_branches@.len(),
        {
            let ghost nb = new_branches@;
            let ghost below = self.root;
            new_branches = self.grow(new_branches);
            proof {
                let next = Level { root: self.root, came_up: new_branches@ };
                lemma_raised_on(levels, next);
                levels = levels.push(next);
                lemma_found_waits(below, nb, *key);
                lemma_find(new_branches@, *key);
                if let Some(b) = find(new_branches@, *key) {
                    let j = choose|j: int| 0 <= j < new_branches@.len() && new_branches@[j] == b;
                    assert(find(nb, new_branches@[j].key) is Some);
                }
                assert(refines(
                    waiting_in(below, nb, Seq::empty(), *key),
                    was.waiting(Seq::empty(), *key),
                ));
            }
            search_result =
            match search_result {
                SearchResult::HeadOfBranch => resolve_head(
                    &self.root,
                    &new_branches,
                    key,
                    Ghost(None),
                    Ghost(None),
                ),
                other => other,
            };
        }
        proof {
            lemma_stock_alone(self.root, new_branches@);
        }
        self.length = self.length - dropped;
        proof {
            lemma_settled_down(*old(self), *self, new_branches@, *key);
            assert(read_by(*old(self), *self, *key, false, way, levels));
        }
        match search_result {
            SearchResult::Found => true,
            SearchResult::Missing => false,
            SearchResult::HeadOfBranch => vstd::pervasive::unreached(),
        }
    }

    /// Files what waits on the way to the place before `key`, and lets the
    /// tree grow while branches come up from the root.
    pub(crate) fn settle_before(&mut self, key: &K)
        requires
            lawful_order::<K>(),
            old(self).wf(),
        ensures
            final(self).wf(),
            final(self).settled_before(*key),
            final(self).len_spec() <= old(self).len_spec(),
            old(self).reconciled() ==> final(self).len_spec() == old(self).len_spec(),
            forall|k: K| refines(#[trigger] final(self).waiting(k), old(self).waiting(k)),
            after_read(*old(self), *final(self), *key, true),
    {
        let ghost was = self.root;
        let (mut new_branches, dropped) = self.root.search_before(key, Ghost(None), Ghost(None));
        let ghost way = choose|way: Seq<Station<K, V>>|
            searched(
                was.array,
                was.buffer@,
                was.buffer_is_sorted,
                self.root,
                new_branches@,
                *key,
                true,
                way,
            );
        let ghost first = Level { root: self.root, came_up: new_branches@ };
        let ghost mut levels = seq![first];
        while new_branches.len() > 0
            invariant
                levels.len() > 0,
                levels[0] == first,
                raised(levels),
                levels.last().root == self.root,
                levels.last().came_up == new_branches@,
                lawful_order::<K>(),
                self.length == old(self).length,
                stock_in(self.root, new_branches@).len() + dropped == was.stock().len(),
                wf_in(self.root, new_branches@, None, None),
                settled_before_in(self.root, new_branches@, *key),
                strictly_ascending(keys_of(new_branches@)),
                forall|k: K|
                    refines(
                        #[trigger] waiting_in(self.root, new_branches@, Seq::empty(), k),
                        was.waiting(Seq::empty(), k),
                    ),
            decreases new_branches@.len(),
        {
            new_branches = self.grow(new_branches);
            proof {
                let next = Level { root: self.root, came_up: new_branches@ };
                lemma_raised_on(levels, next);
                levels = levels.push(next);
            }
        }
        proof {
            lemma_stock_alone(self.root, new_branches@);
        }
        self.length = self.length - dropped;
        proof {
            lemma_settled_down(*old(self), *self, new_branches@, *key);
            assert(read_by(*old(self), *self, *key, true, way, levels));
        }
    }
}

/// A root, and the branches that came up from it.
pub struct Level<K, V> {
    /// The root.
    pub root: Node<K, V>,
    /// The branches that the root could not keep.
    pub came_up: Seq<Branch<K, V>>,
}

/// `root` and the branches `promoted` are what became of the root `below`
/// and the branches `nb` that came up from it when the tree grew by one
/// level: `below` is the first child of `root`, whose buffer is empty and
/// known to be in order, and `nb` was split into the array of `root` and
/// `promoted`.
pub open(crate) spec fn grown<K: Ord, V>(
    below: Node<K, V>,
    nb: Seq<Branch<K, V>>,
    root: Node<K, V>,
    promoted: Seq<Branch<K, V>>,
) -> bool {
    &&& nb.len() > 0
    &&& root.array is Internal
    &&& root.buffer@.len() == 0
    &&& root.buffer_is_sorted
    &&& *root.array->Internal_0.first_child == below
    &&& merged(
        Seq::<Branch<K, V>>::empty(),
        nb,
        flat::<K, V, Branch<K, V>>(root.array->Internal_0.elements@, promoted),
    )
    &&& split::<K, V, Branch<K, V>>(
        root.array->Internal_0.elements@,
        promoted,
        flat::<K, V, Branch<K, V>>(root.array->Internal_0.elements@, promoted).len() as int,
        nb.len() as int,
    )
}

/// Every level but the first is what the tree grew to from the level
/// before it.
pub open(crate) spec fn raised<K: Ord, V>(levels: Seq<Level<K, V>>) -> bool {
    forall|j: int|
        0 < j < levels.len() ==> grown(
            levels[j - 1].root,
            levels[j - 1].came_up,
            (#[trigger] levels[j]).root,
            levels[j].came_up,
        )
}

/// `post` is the tree of `pre` after a read of `key`, or of the place just
/// before `key` with `past`. The search made the first of `levels` of the
/// root, by way of `way`; the tree grew from level to level while branches
/// came up; and the last level, from which none came up, is the root of
/// `post`.
pub open(crate) spec fn read_by<K: Ord, V>(
    pre: BeeMap<K, V>,
    post: BeeMap<K, V>,
    key: K,
    past: bool,
    way: Seq<Station<K, V>>,
    levels: Seq<Level<K, V>>,
) -> bool {
    &&& levels.len() > 0
    &&& searched(
        pre.root.array,
        pre.root.buffer@,
        pre.root.buffer_is_sorted,
        levels[0].root,
        levels[0].came_up,
        key,
        past,
        way,
    )
    &&& levels[0].root.buffer@.len() == 0
    &&& levels[0].root.buffer_is_sorted == pre.root.buffer_is_sorted
    &&& raised(levels)
    &&& levels.last().came_up.len() == 0
    &&& post.root == levels.last().root
}

/// `post` is the tree of `pre` after a read of `key`, or of the place just
/// before `key` with `past`: the read fixes every node of the tree that is
/// left, by `read_by`.
pub open(crate) spec fn after_read<K: Ord, V>(
    pre: BeeMap<K, V>,
    post: BeeMap<K, V>,
    key: K,
    past: bool,
) -> bool {
    exists|way: Seq<Station<K, V>>, levels: Seq<Level<K, V>>| #[trigger]
        read_by(pre, post, key, past, way, levels)
}

/// `post` is the tree of `pre` after a read of `key` that let the caller
/// change the value in place: the tree that the read left, but for the
/// value that `key` is bound to.
pub open(crate) spec fn after_change<K: Ord, V>(pre: BeeMap<K, V>, post: BeeMap<K, V>, key: K) -> bool {
    exists|mid: BeeMap<K, V>| #[trigger]
        after_read(pre, mid, key, false) && rebound(mid.root, post.root, key)
}

/// `post` is the tree of `pre` after a read of the pair before `key`: the
/// tree that the search left, with the value that the read hands out in a
/// box of its own where that is the value of a separator. An inclusive read
/// searches for `key`, the other for the place just before it.
pub open(crate) spec fn after_read_before<K: Ord, V>(
    pre: BeeMap<K, V>,
    post: BeeMap<K, V>,
    key: K,
    inclusive: bool,
) -> bool {
    exists|mid: BeeMap<K, V>|
        after_read(pre, mid, key, !inclusive) && #[trigger] boxed_before(
            mid.root,
            post.root,
            key,
            inclusive,
        )
}

/// The pairs of `run` are new to `map`: no key has more than one value
/// waiting once they are in, so no two of them have one key, and none has a
/// key that is bound.
pub open spec fn fresh_run<K: Ord, V>(map: BeeMap<K, V>, run: Seq<(K, V)>) -> bool {
    forall|k: K| #[trigger] map.waiting(k).len() + keyed(run, k).len() <= 1
}

/// A run that is new to a map leaves, under every key, its value behind
/// what waited there.
pub(crate) proof fn lemma_fresh_run<K: Ord, V>(was: BeeMap<K, V>, now: BeeMap<K, V>, run: Seq<(K, V)>)
    requires
        forall|k: K|
            #[trigger] now.pending(k) == was.pending(k).add(keyed(run, k).to_multiset()),
    ensures
        fresh_run(was, run) ==> now.reconciled() && forall|k: K|
            #[trigger] now.waiting(k) == was.waiting(k) + keyed(run, k),
{
    broadcast use vstd::multiset::group_multiset_axioms;

    if fresh_run(was, run) {
        assert forall|k: K|
            #![trigger now.waiting(k)]
            now.waiting(k) == was.waiting(k) + keyed(run, k) && now.waiting(k).len() <= 1 by {
            let joint = was.waiting(k) + keyed(run, k);
            assert(was.waiting(k).len() + keyed(run, k).len() <= 1);
            assert(now.pending(k) == was.pending(k).add(keyed(run, k).to_multiset()));
            vstd::seq_lib::lemma_multiset_commutative(was.waiting(k), keyed(run, k));
            if joint.len() == 0 {
                lemma_single(now.waiting(k), joint, false, arbitrary());
            } else {
                lemma_single(now.waiting(k), joint, false, joint[0]);
            }
        }
    }
}

/// What `insert` ensures of the maps before and after it.
pub open spec fn inserts<K: Ord, V>(pre: BeeMap<K, V>, post: BeeMap<K, V>, key: K, value: V) -> bool {
    &&& post.wf()
    &&& post.len_spec() == pre.len_spec() + 1
    &&& post.filed() == pre.filed()
    &&& post.buffered() == joined(pre.buffered(), pre.buffered_in_order(), seq![(key, value)])
    &&& post.buffered_in_order() == joined_sorted(
        pre.buffered(),
        pre.buffered_in_order(),
        seq![(key, value)],
    )
    &&& forall|k: K| #[trigger] post.waiting(k) == pre.waiting_after(seq![(key, value)], k)
    &&& forall|k: K|
        #[trigger] post.pending(k) == if k == key {
            pre.pending(k).insert(value)
        } else {
            pre.pending(k)
        }
    &&& pre.reconciled() && !pre@.contains_key(key) ==> post.reconciled() && post@
        == pre@.insert(key, value)
    &&& pre.settled(key) ==> post.waiting(key) == pre.waiting(key).push(value)
    &&& pre.reconciled() && pre.settled(key) ==> post@ == pre@.insert(key, value)
}

/// What `get` ensures of the maps before and after it, and of its result.
pub open spec fn reads<K: Ord, V>(
    pre: BeeMap<K, V>,
    post: BeeMap<K, V>,
    key: K,
    result: Option<V>,
) -> bool {
    &&& post.wf()
    &&& post@ == pre@
    &&& post.len_spec() <= pre.len_spec()
    &&& pre.reconciled() ==> post.len_spec() == pre.len_spec()
    &&& result == if pre@.contains_key(key) {
        Some(pre@[key])
    } else {
        None
    }
    &&& forall|k: K| refines(#[trigger] post.waiting(k), pre.waiting(k))
    &&& post.waiting(key).len() <= 1
    &&& post.settled(key)
}

/// A sequence with the values of another, and one more if `more` says so, is
/// that other sequence where it held one value, and the one value where the
/// other held none.
pub proof fn lemma_single<V>(now: Seq<V>, was: Seq<V>, more: bool, value: V)
    requires
        was.len() <= 1,
        more ==> was.len() == 0,
        now.to_multiset() == if more {
            was.to_multiset().insert(value)
        } else {
            was.to_multiset()
        },
    ensures
        now == if more {
            seq![value]
        } else {
            was
        },
{
    broadcast use vstd::multiset::group_multiset_axioms;

    vstd::seq_lib::to_multiset_len(now);
    vstd::seq_lib::to_multiset_len(was);
    now.to_multiset_ensures();
    was.to_multiset_ensures();
    if more {
        vstd::multiset::lemma_multiset_empty_len(was.to_multiset());
        assert(now.len() == 1);
        assert(now.contains(now[0]));
        assert(now.to_multiset().count(now[0]) > 0);
        assert(now[0] == value);
        assert(now =~= seq![value]);
    } else if was.len() == 0 {
        assert(now =~= was);
    } else {
        assert(now.len() == 1);
        assert(now.contains(now[0]));
        assert(was.to_multiset().count(now[0]) > 0);
        assert(was.contains(now[0]));
        assert(now =~= was);
    }
}

/// A map that holds under every key what it held, or only the last of it,
/// binds every key as it did.
pub proof fn lemma_same_view<K: Ord, V>(was: BeeMap<K, V>, now: BeeMap<K, V>)
    requires
        forall|k: K| refines(#[trigger] now.waiting(k), was.waiting(k)),
    ensures
        now@ == was@,
{
    assert forall|k: K|
        (now.waiting(k).len() > 0 <==> was.waiting(k).len() > 0) && (now.waiting(k).len() > 0
            ==> now.waiting(k).last() == was.waiting(k).last()) by {
        assert(refines(now.waiting(k), was.waiting(k)));
    }
    assert(now@ =~= was@);
}

/// Levels that the tree grew by stay so when it grows by one more.
pub(crate) proof fn lemma_raised_on<K: Ord, V>(levels: Seq<Level<K, V>>, next: Level<K, V>)
    requires
        levels.len() > 0,
        raised(levels),
        grown(levels.last().root, levels.last().came_up, next.root, next.came_up),
    ensures
        raised(levels.push(next)),
        levels.push(next)[0] == levels[0],
        levels.push(next).last() == next,
{
    let longer = levels.push(next);
    assert forall|j: int| 0 < j < longer.len() implies grown(
        longer[j - 1].root,
        longer[j - 1].came_up,
        (#[trigger] longer[j]).root,
        longer[j].came_up,
    ) by {
        if j < levels.len() {
            assert(longer[j] == levels[j]);
            assert(longer[j - 1] == levels[j - 1]);
        }
    }
}

/// Once no branch comes up from the root any more, the root alone is what
/// the root and the branches were: it is well formed, holds what they held,
/// and nothing waits on a way in it where nothing waited in them.
pub(crate) proof fn lemma_settled_down<K: Ord, V>(
    was: BeeMap<K, V>,
    now: BeeMap<K, V>,
    nb: Seq<Branch<K, V>>,
    key: K,
)
    requires
        lawful_order::<K>(),
        was.root.wf(None, None),
        nb.len() == 0,
        wf_in(now.root, nb, None, None),
        forall|k: K|
            refines(
                #[trigger] waiting_in(now.root, nb, Seq::empty(), k),
                was.root.waiting(Seq::empty(), k),
            ),
    ensures
        now.root.wf(None, None),
        forall|k: K| refines(#[trigger] now.waiting(k), was.waiting(k)),
        was.reconciled() ==> now.root.stock() == was.root.stock(),
        now.settled(key) == settled_in(now.root, nb, key),
        now.settled_before(key) == settled_before_in(now.root, nb, key),
{
    assert(keys_of(nb) =~= Seq::<K>::empty());
    assert(now.root.wf(None, None)) by {
        assert(child_of(now.root, nb, 0).wf(
            crate::node::lower(keys_of(nb), 0, None),
            crate::node::upper(keys_of(nb), 0, None),
        ));
    }
    assert forall|k: K| refines(#[trigger] now.waiting(k), was.waiting(k)) by {
        lemma_spot(now.root, nb, k);
        assert(refines(
            waiting_in(now.root, nb, Seq::empty(), k),
            was.root.waiting(Seq::empty(), k),
        ));
    }
    lemma_same_len(was, now);
    lemma_spot(now.root, nb, key);
}

/// A map that holds what it held, where no key had more than one value
/// waiting, holds as many pairs as it held.
pub(crate) proof fn lemma_same_len<K: Ord, V>(was: BeeMap<K, V>, now: BeeMap<K, V>)
    requires
        lawful_order::<K>(),
        was.root.wf(None, None),
        now.root.wf(None, None),
        forall|k: K| refines(#[trigger] now.waiting(k), was.waiting(k)),
    ensures
        was.reconciled() ==> now.root.stock() == was.root.stock(),
{
    if was.reconciled() {
        assert forall|k: K| now.root.stock().count(k) == was.root.stock().count(k) by {
            lemma_stock_count(now.root, Seq::empty(), k, None, None);
            lemma_stock_count(was.root, Seq::empty(), k, None, None);
            assert(refines(now.waiting(k), was.waiting(k)));
            assert(was.waiting(k).len() <= 1);
        }
        assert(now.root.stock() =~= was.root.stock());
    }
}

} // verus!
