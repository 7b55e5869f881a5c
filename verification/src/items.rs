//! The two kinds of items that an array holds, and how one of them becomes
//! the head of a new branch.
//!
//! When an array is split, an item is promoted: it becomes a branch with a
//! fresh child, and the items that follow it are filed in that child's array.
//! A pair of a leaf becomes a branch over a new leaf; a branch of an internal
//! node becomes a branch over a new internal node, whose first child is the
//! child that the branch had.
use crate::node::{Array, Branch, InternalArray, LeafArray, MaybeBox, Node};
use crate::seqs::Keyed;
use std::collections::VecDeque;
use vstd::prelude::*;

verus! {

/// An item of an array.
pub trait Item<K, V>: Keyed<K> + Sized {
    /// `b` is a branch as `promote` makes them for items of this kind: its
    /// child has an empty buffer and an array of this kind of item, and the
    /// value of a pair that became a branch sits in the branch.
    spec fn shaped(b: Branch<K, V>) -> bool;

    /// The item that was promoted to `b`.
    spec fn head_of(b: Branch<K, V>) -> Self;

    /// The items that were filed under `b`.
    spec fn run_of(b: Branch<K, V>) -> Seq<Self>;

    /// Makes this item the head of a new branch with nothing filed under it.
    fn promote(self) -> (b: Branch<K, V>)
        ensures
            Self::shaped(b),
            Self::head_of(b) == self,
            Self::run_of(b) == Seq::<Self>::empty(),
            b.key_spec() == self.key_spec(),
    ;

    /// Files this item under `under`, behind the items that are there.
    fn file(self, under: &mut Branch<K, V>)
        requires
            Self::shaped(*old(under)),
        ensures
            Self::shaped(*final(under)),
            Self::head_of(*final(under)) == Self::head_of(*old(under)),
            Self::run_of(*final(under)) == Self::run_of(*old(under)).push(self),
            final(under).key_spec() == old(under).key_spec(),
    ;
}

impl<K, V> Item<K, V> for (K, V) {
    open(crate) spec fn shaped(b: Branch<K, V>) -> bool {
        &&& b.value is Inline
        &&& b.child.array is Leaf
        &&& b.child.buffer@.len() == 0
        &&& b.child.buffer_is_sorted
    }

    open(crate) spec fn head_of(b: Branch<K, V>) -> Self {
        (b.key, b.value.value())
    }

    open(crate) spec fn run_of(b: Branch<K, V>) -> Seq<Self> {
        b.child.array->Leaf_0.elements@
    }

    fn promote(self) -> (b: Branch<K, V>) {
        let child = Box::new(
            Node {
                buffer: VecDeque::new(),
                buffer_is_sorted: true,
                array: Array::Leaf(LeafArray { elements: Vec::new() }),
            },
        );
        Branch { key: self.0, value: MaybeBox::Inline(self.1), child }
    }

    fn file(self, under: &mut Branch<K, V>) {
        match &mut under.child.array {
            Array::Leaf(la) => {
                la.elements.push(self);
            },
            Array::Internal(_) => {
                assert(false);
            },
        }
    }
}

impl<K, V> Item<K, V> for Branch<K, V> {
    open(crate) spec fn shaped(b: Branch<K, V>) -> bool {
        &&& b.child.array is Internal
        &&& b.child.buffer@.len() == 0
        &&& b.child.buffer_is_sorted
    }

    open(crate) spec fn head_of(b: Branch<K, V>) -> Self {
        Branch { key: b.key, value: b.value, child: b.child.array->Internal_0.first_child }
    }

    open(crate) spec fn run_of(b: Branch<K, V>) -> Seq<Self> {
        b.child.array->Internal_0.elements@
    }

    fn promote(self) -> (b: Branch<K, V>) {
        let child = Box::new(
            Node {
                buffer: VecDeque::new(),
                buffer_is_sorted: true,
                array: Array::Internal(
                    InternalArray { first_child: self.child, elements: Vec::new() },
                ),
            },
        );
        Branch { key: self.key, value: self.value, child }
    }

    fn file(self, under: &mut Branch<K, V>) {
        match &mut under.child.array {
            Array::Internal(ia) => {
                ia.elements.push(self);
            },
            Array::Leaf(_) => {
                assert(false);
            },
        }
    }
}

/// The items that a list of promoted branches stands for: each head followed
/// by what was filed under it.
pub open spec fn unfolded<K, V, I: Item<K, V>>(bs: Seq<Branch<K, V>>) -> Seq<I>
    decreases bs.len(),
{
    if bs.len() == 0 {
        Seq::empty()
    } else {
        unfolded::<K, V, I>(bs.drop_last()).push(I::head_of(bs.last())) + I::run_of(bs.last())
    }
}

/// The items of an array and of the branches promoted out of it, in order.
pub open spec fn flat<K, V, I: Item<K, V>>(own: Seq<I>, bs: Seq<Branch<K, V>>) -> Seq<I> {
    own + unfolded::<K, V, I>(bs)
}

} // verus!
