//! The tree: its nodes, what makes a tree well formed, and which value a key
//! is bound to in a tree.
//!
//! A node holds a buffer of pairs that were inserted but not yet filed, and an
//! array: the pairs of a leaf, or the branches of an internal node. A read
//! files the buffers on its way down. Until then several values may wait under
//! one key; `Node::waiting` lists them in the order in which filing settles
//! them, so the last one is the value the key is bound to.
//!
//! The arrays are `Vec`s, and `Node::wf` holds them to the capacity `B`. A
//! vector of fixed capacity from an outside crate, such as `ArrayVec`, cannot
//! stand in their place: Verus would take it as an opaque type, and it admits
//! no type that is recursive through the parameter of an opaque type, as a
//! tree is whose branches hold subtrees. Both kinds of array are filed by one
//! routine, so both are the same kind of vector.
use crate::order::{at_most, below};
use crate::seqs::{
    all_at_most, all_in_range, ascending, keyed, keys_of, rank, routed, strictly_ascending, Keyed,
};
use std::collections::VecDeque;
use vstd::prelude::*;

verus! {

/// The capacity of a node's array.
pub const B: usize = 150;

/// A value that sits in its branch or in a box of its own.
pub enum MaybeBox<V> {
    Inline(V),
    Boxed(Box<V>),
}

/// A separator of an internal node: a key with its value, and the subtree of
/// the keys between this separator and the next.
pub struct Branch<K, V> {
    pub(crate) key: K,
    pub(crate) value: MaybeBox<V>,
    pub(crate) child: Box<Node<K, V>>,
}

/// The array of a leaf: pairs in strictly ascending order of their keys.
pub struct LeafArray<K, V> {
    pub(crate) elements: Vec<(K, V)>,
}

/// The array of an internal node: the subtree of the keys below the first
/// separator, and the branches in strictly ascending order of their keys.
pub struct InternalArray<K, V> {
    pub(crate) first_child: Box<Node<K, V>>,
    pub(crate) elements: Vec<Branch<K, V>>,
}

/// The array of a node.
pub enum Array<K, V> {
    Internal(InternalArray<K, V>),
    Leaf(LeafArray<K, V>),
}

/// A node of the tree.
pub struct Node<K, V> {
    pub(crate) buffer: VecDeque<(K, V)>,
    pub(crate) buffer_is_sorted: bool,
    pub(crate) array: Array<K, V>,
}

impl<K, V> Keyed<K> for Branch<K, V> {
    open(crate) spec fn key_spec(&self) -> K {
        self.key
    }

    fn key(&self) -> (k: &K) {
        &self.key
    }
}

impl<V> MaybeBox<V> {
    /// The value, wherever it sits.
    pub open(crate) spec fn value(self) -> V {
        match self {
            MaybeBox::Inline(v) => v,
            MaybeBox::Boxed(b) => *b,
        }
    }
}

/// The lower bound of the keys of child `i` among branches with these keys.
pub open(crate) spec fn lower<K>(keys: Seq<K>, i: int, lo: Option<K>) -> Option<K> {
    if 0 < i <= keys.len() {
        Some(keys[i - 1])
    } else {
        lo
    }
}

/// The upper bound of the keys of child `i` among branches with these keys.
pub open(crate) spec fn upper<K>(keys: Seq<K>, i: int, hi: Option<K>) -> Option<K> {
    if 0 <= i < keys.len() {
        Some(keys[i])
    } else {
        hi
    }
}

/// Child `i` of an array: the first child for 0, else the child of branch
/// `i - 1`.
pub open(crate) spec fn child_of<K, V>(first: Node<K, V>, branches: Seq<Branch<K, V>>, i: int) -> Node<
    K,
    V,
> {
    if 0 < i <= branches.len() {
        *branches[i - 1].child
    } else {
        first
    }
}

/// A buffer after the run `inc` has arrived: in front where the buffer is in
/// order and nothing in the run is greater than anything in it, else behind.
pub open spec fn joined<K: Ord, V>(buf: Seq<(K, V)>, sorted: bool, inc: Seq<(K, V)>) -> Seq<
    (K, V),
> {
    if inc.len() == 0 {
        buf
    } else if sorted && buf.len() > 0 && all_at_most(keys_of(inc), keys_of(buf)) {
        inc + buf
    } else {
        buf + inc
    }
}

/// Whether a buffer is known to be in order after the run `inc` has arrived.
pub open spec fn joined_sorted<K: Ord, V>(buf: Seq<(K, V)>, sorted: bool, inc: Seq<(K, V)>) -> bool {
    if inc.len() == 0 {
        sorted
    } else {
        sorted && (all_at_most(keys_of(inc), keys_of(buf)) || all_at_most(
            keys_of(buf),
            keys_of(inc),
        ))
    }
}

/// A buffer after one pair has arrived, where a buffer that is known to be
/// in order is in order: the pair goes in front where the buffer is known to
/// be in order and its first key is no smaller, else behind.
pub open spec fn arrived<K: Ord, V>(buf: Seq<(K, V)>, sorted: bool, key: K, value: V) -> Seq<
    (K, V),
> {
    if sorted && buf.len() > 0 && at_most(key, buf[0].0) {
        seq![(key, value)] + buf
    } else {
        buf.push((key, value))
    }
}

/// Whether such a buffer is known to be in order after a pair with `key`
/// has arrived: it was before, and the pair went in front or has a key no
/// smaller than the last.
pub open spec fn arrived_sorted<K: Ord, V>(buf: Seq<(K, V)>, sorted: bool, key: K) -> bool {
    sorted && (buf.len() == 0 || at_most(key, buf[0].0) || at_most(buf.last().0, key))
}

impl<K: Ord, V> Node<K, V> {
    /// Whether this node is a leaf.
    pub open(crate) spec fn is_leaf(self) -> bool {
        self.array is Leaf
    }

    /// The values that wait under `k` in this subtree once the run `inc` has
    /// arrived at this node, in the order in which filing settles them: the
    /// last one is the value that `k` is bound to.
    pub open(crate) spec fn waiting(self, inc: Seq<(K, V)>, k: K) -> Seq<V>
        decreases self,
    {
        let buf = joined(self.buffer@, self.buffer_is_sorted, inc);
        match self.array {
            Array::Leaf(la) => keyed(la.elements@, k) + keyed(buf, k),
            Array::Internal(ia) => {
                let keys = keys_of(ia.elements@);
                let i = rank(keys, k);
                if 0 <= i < keys.len() && keys[i] == k {
                    seq![ia.elements[i].value.value()] + keyed(buf, k)
                } else if 0 < i <= ia.elements.len() {
                    ia.elements[i - 1].child.waiting(
                        routed(buf, lower(keys, i, None), upper(keys, i, None)),
                        k,
                    )
                } else {
                    ia.first_child.waiting(
                        routed(buf, lower(keys, i, None), upper(keys, i, None)),
                        k,
                    )
                }
            },
        }
    }

    /// The values that wait under `k` in this subtree once its buffer holds
    /// `buf`.
    pub open(crate) spec fn waiting_with(self, buf: Seq<(K, V)>, k: K) -> Seq<V> {
        match self.array {
            Array::Leaf(la) => keyed(la.elements@, k) + keyed(buf, k),
            Array::Internal(ia) => waiting_in(*ia.first_child, ia.elements@, buf, k),
        }
    }

    /// The subtree is well formed, and its keys lie strictly between `lo` and
    /// `hi`.
    pub open(crate) spec fn wf(self, lo: Option<K>, hi: Option<K>) -> bool
        decreases self,
    {
        &&& all_in_range(keys_of(self.buffer@), lo, hi)
        &&& self.buffer_is_sorted ==> ascending(keys_of(self.buffer@))
        &&& match self.array {
            Array::Leaf(la) => {
                &&& la.elements.len() <= B
                &&& strictly_ascending(keys_of(la.elements@))
                &&& all_in_range(keys_of(la.elements@), lo, hi)
            },
            Array::Internal(ia) => {
                let keys = keys_of(ia.elements@);
                &&& ia.elements.len() <= B
                &&& strictly_ascending(keys)
                &&& all_in_range(keys, lo, hi)
                &&& ia.first_child.wf(lo, upper(keys, 0, hi))
                &&& forall|i: int|
                    0 <= i < ia.elements.len() ==> (#[trigger] ia.elements[i]).child.wf(
                        Some(keys[i]),
                        upper(keys, i + 1, hi),
                    )
            },
        }
    }

    /// Nothing waits in a buffer on the way from this node to `k`.
    pub open(crate) spec fn settled(self, k: K) -> bool
        decreases self,
    {
        &&& self.buffer@.len() == 0
        &&& match self.array {
            Array::Leaf(la) => true,
            Array::Internal(ia) => {
                let keys = keys_of(ia.elements@);
                let i = rank(keys, k);
                if 0 <= i < keys.len() && keys[i] == k {
                    true
                } else if 0 < i <= ia.elements.len() {
                    ia.elements[i - 1].child.settled(k)
                } else {
                    ia.first_child.settled(k)
                }
            },
        }
    }
}

impl<K: Ord, V> Node<K, V> {
    /// Nothing waits in a buffer on the way from this node to the place
    /// just before `k`: the way that leads past a separator with key `k`
    /// into the child before it.
    pub open(crate) spec fn settled_before(self, k: K) -> bool
        decreases self,
    {
        &&& self.buffer@.len() == 0
        &&& match self.array {
            Array::Leaf(la) => true,
            Array::Internal(ia) => {
                let keys = keys_of(ia.elements@);
                let i = rank(keys, k);
                if 0 < i <= ia.elements.len() {
                    ia.elements[i - 1].child.settled_before(k)
                } else {
                    ia.first_child.settled_before(k)
                }
            },
        }
    }
}

/// Nothing waits in a buffer on the way from the array to the place just
/// before `k`.
pub open(crate) spec fn settled_before_in<K: Ord, V>(
    first: Node<K, V>,
    branches: Seq<Branch<K, V>>,
    k: K,
) -> bool {
    child_of(first, branches, rank(keys_of(branches), k)).settled_before(k)
}

/// The values that wait under `k` below an array whose buffer holds `buf`.
pub open(crate) spec fn waiting_in<K: Ord, V>(
    first: Node<K, V>,
    branches: Seq<Branch<K, V>>,
    buf: Seq<(K, V)>,
    k: K,
) -> Seq<V> {
    let keys = keys_of(branches);
    let i = rank(keys, k);
    if 0 <= i < keys.len() && keys[i] == k {
        seq![branches[i].value.value()] + keyed(buf, k)
    } else {
        child_of(first, branches, i).waiting(
            routed(buf, lower(keys, i, None), upper(keys, i, None)),
            k,
        )
    }
}

/// The array is well formed, and its keys lie strictly between `lo` and `hi`.
pub open(crate) spec fn wf_in<K: Ord, V>(
    first: Node<K, V>,
    branches: Seq<Branch<K, V>>,
    lo: Option<K>,
    hi: Option<K>,
) -> bool {
    let keys = keys_of(branches);
    &&& strictly_ascending(keys)
    &&& all_in_range(keys, lo, hi)
    &&& forall|i: int|
        0 <= i <= branches.len() ==> (#[trigger] child_of(first, branches, i)).wf(
            lower(keys, i, lo),
            upper(keys, i, hi),
        )
}

/// Nothing waits in a buffer on the way from the array to `k`.
pub open(crate) spec fn settled_in<K: Ord, V>(first: Node<K, V>, branches: Seq<Branch<K, V>>, k: K) -> bool {
    let keys = keys_of(branches);
    let i = rank(keys, k);
    if 0 <= i < keys.len() && keys[i] == k {
        true
    } else {
        child_of(first, branches, i).settled(k)
    }
}

/// An internal node is its array under its buffer.
pub(crate) proof fn lemma_internal<K: Ord, V>(node: Node<K, V>, inc: Seq<(K, V)>, k: K, lo: Option<K>, hi: Option<K>)
    requires
        node.array is Internal,
    ensures
        ({
            let ia = node.array->Internal_0;
            &&& node.waiting(inc, k) == waiting_in(
                *ia.first_child,
                ia.elements@,
                joined(node.buffer@, node.buffer_is_sorted, inc),
                k,
            )
            &&& node.settled(k) == (node.buffer@.len() == 0 && settled_in(
                *ia.first_child,
                ia.elements@,
                k,
            ))
            &&& node.wf(lo, hi) == {
                &&& all_in_range(keys_of(node.buffer@), lo, hi)
                &&& node.buffer_is_sorted ==> ascending(keys_of(node.buffer@))
                &&& ia.elements.len() <= B
                &&& wf_in(*ia.first_child, ia.elements@, lo, hi)
            }
        }),
{
    let ia = node.array->Internal_0;
    let keys = keys_of(ia.elements@);
    let first = *ia.first_child;
    let branches = ia.elements@;
    if wf_in(first, branches, lo, hi) {
        assert(child_of(first, branches, 0) == first);
        assert forall|i: int| 0 <= i < ia.elements.len() implies (#[trigger] ia.elements[i]).child.wf(
            Some(keys[i]),
            upper(keys, i + 1, hi),
        ) by {
            assert(child_of(first, branches, i + 1) == *ia.elements[i].child);
        }
    }
    if ia.first_child.wf(lo, upper(keys, 0, hi)) && (forall|i: int|
        0 <= i < ia.elements.len() ==> (#[trigger] ia.elements[i]).child.wf(
            Some(keys[i]),
            upper(keys, i + 1, hi),
        )) {
        assert forall|i: int| 0 <= i <= branches.len() implies (#[trigger] child_of(
            first,
            branches,
            i,
        )).wf(lower(keys, i, lo), upper(keys, i, hi)) by {
            if i > 0 {
                assert(ia.elements[i - 1].child.wf(Some(keys[i - 1]), upper(keys, i - 1 + 1, hi)));
            }
        }
    }
}

} // verus!
