//! Pushing the buffer of an internal node down into its children.
//!
//! The buffer, in ascending order, is walked against the separators. The
//! pairs between two separators go as one run to the child between them, and
//! a pair whose key is a separator replaces that separator's value.
use crate::node::{
    child_of, joined, joined_sorted, lower, upper, wf_in, Branch, InternalArray, MaybeBox, Node,
};
use crate::order::{at_most, below, compare, lawful_order, lemma_order_laws, Rank};
use crate::seqs::{
    all_in_range, ascending, find, in_range, keys_of, lemma_find_add, lemma_find_none,
    lemma_find_push, lemma_routed_window, routed, strictly_ascending,
};
use crate::stock::{lemma_stock_arrival, lemma_stock_child, stock_in};
use crate::vec_slicer::{SliceThief, VecSlicer};
use vstd::prelude::*;

verus! {

/// The child `c1` is the child `c0` after the run `inc` has arrived at it.
pub open(crate) spec fn child_after<K: Ord, V>(c0: Node<K, V>, c1: Node<K, V>, inc: Seq<(K, V)>) -> bool {
    &&& c1.array == c0.array
    &&& c1.buffer@ == joined(c0.buffer@, c0.buffer_is_sorted, inc)
    &&& c1.buffer_is_sorted == joined_sorted(c0.buffer@, c0.buffer_is_sorted, inc)
}

/// The branch `b1` is the branch `b0` with the value of the last of `items`
/// that has its key, if there is one: that value sits in the branch, and a
/// value that was not replaced sits where it sat.
pub open(crate) spec fn value_after<K, V>(b0: Branch<K, V>, b1: Branch<K, V>, items: Seq<(K, V)>) -> bool {
    &&& b1.key == b0.key
    &&& b1.value == match find(items, b0.key) {
        Some(x) => MaybeBox::Inline(x.1),
        None => b0.value,
    }
}

/// The array of `first1` and `e1` is the array of `first0` and `e0` after the
/// pairs of `sorted` were pushed down into it.
pub open(crate) spec fn pushed<K: Ord, V>(
    first0: Node<K, V>,
    e0: Seq<Branch<K, V>>,
    first1: Node<K, V>,
    e1: Seq<Branch<K, V>>,
    sorted: Seq<(K, V)>,
) -> bool {
    &&& e1.len() == e0.len()
    &&& forall|i: int| 0 <= i < e0.len() ==> value_after(e0[i], #[trigger] e1[i], sorted)
    &&& forall|i: int|
        0 <= i <= e0.len() ==> child_after(
            child_of(first0, e0, i),
            #[trigger] child_of(first1, e1, i),
            routed(sorted, lower(keys_of(e0), i, None), upper(keys_of(e0), i, None)),
        )
}

impl<K: Ord, V> InternalArray<K, V> {
    /// Lets a run arrive at child `j`.
    fn hand(
        &mut self,
        j: usize,
        slice: SliceThief<(K, V)>,
        Ghost(lo): Ghost<Option<K>>,
        Ghost(hi): Ghost<Option<K>>,
    )
        requires
            lawful_order::<K>(),
            j <= old(self).elements.len(),
            child_of(*old(self).first_child, old(self).elements@, j as int).wf(lo, hi),
            slice.wf(),
            slice.cursor() == 0,
            slice.items().len() > 0,
            ascending(keys_of(slice.items())),
            all_in_range(keys_of(slice.items()), lo, hi),
        ensures
            final(self).elements.len() == old(self).elements.len(),
            child_after(
                child_of(*old(self).first_child, old(self).elements@, j as int),
                child_of(*final(self).first_child, final(self).elements@, j as int),
                slice.items(),
            ),
            child_of(*final(self).first_child, final(self).elements@, j as int).wf(lo, hi),
            forall|i: int|
                0 <= i <= old(self).elements.len() && i != j ==> child_of(
                    *final(self).first_child,
                    final(self).elements@,
                    i,
                ) == child_of(*old(self).first_child, old(self).elements@, i),
            forall|i: int|
                0 <= i < old(self).elements.len() ==> (#[trigger] final(self).elements[i]).key
                    == old(self).elements[i].key && final(self).elements[i].value == old(
                    self,
                ).elements[i].value,
    {
        if j == 0 {
            self.first_child.append(slice, true, Ghost(lo), Ghost(hi));
        } else {
            self.elements[j - 1].child.append(slice, true, Ghost(lo), Ghost(hi));
        }
    }
}

/// How far a walk has come. The separators before `j` and the children
/// before `j` are done; `done` says that child `j` is done as well, which is
/// so once a pair with the key of separator `j` was met. The pairs before `s`
/// are used up, and those from `s` to `p` wait to go to child `j`.
pub open(crate) spec fn walking<K: Ord, V>(
    first0: Node<K, V>,
    e0: Seq<Branch<K, V>>,
    first1: Node<K, V>,
    e1: Seq<Branch<K, V>>,
    sorted: Seq<(K, V)>,
    j: int,
    done: bool,
    s: int,
    p: int,
) -> bool {
    let n = e0.len() as int;
    let keys = keys_of(e0);
    let len = sorted.len() as int;
    &&& e1.len() == n
    &&& 0 <= j <= n
    &&& 0 <= s <= p <= len
    &&& forall|i: int| 0 <= i < n ==> (#[trigger] e1[i]).key == e0[i].key
    &&& forall|i: int| 0 <= i < j ==> value_after(e0[i], #[trigger] e1[i], sorted)
    &&& j < n ==> value_after(e0[j], e1[j], sorted.subrange(0, s))
    &&& forall|i: int| j < i < n ==> (#[trigger] e1[i]).value == e0[i].value
    &&& forall|i: int|
        0 <= i <= n ==> if i < j || (i == j && done) {
            child_after(
                child_of(first0, e0, i),
                #[trigger] child_of(first1, e1, i),
                routed(sorted, lower(keys, i, None), upper(keys, i, None)),
            )
        } else {
            child_of(first1, e1, i) == child_of(first0, e0, i)
        }
    &&& j > 0 ==> forall|x: int| s <= x < len ==> below(keys[j - 1], (#[trigger] sorted[x]).0)
    &&& done ==> {
        &&& j < n
        &&& s == p
        &&& forall|x: int| s <= x < len ==> at_most(keys[j], (#[trigger] sorted[x]).0)
        &&& forall|x: int| 0 <= x < s ==> at_most((#[trigger] sorted[x]).0, keys[j])
    }
    &&& !done ==> {
        &&& j > 0 ==> forall|x: int| 0 <= x < s ==> at_most((#[trigger] sorted[x]).0, keys[j - 1])
        &&& j == 0 ==> s == 0
        &&& j < n ==> forall|x: int| s <= x < p ==> below((#[trigger] sorted[x]).0, keys[j])
    }
}

/// The pairs that wait to go to child `j` are the pairs routed to it, once
/// the pair behind them is known not to go there.
pub(crate) proof fn lemma_window<K: Ord, V>(
    first0: Node<K, V>,
    e0: Seq<Branch<K, V>>,
    first1: Node<K, V>,
    e1: Seq<Branch<K, V>>,
    sorted: Seq<(K, V)>,
    j: int,
    s: int,
    p: int,
)
    requires
        lawful_order::<K>(),
        strictly_ascending(keys_of(e0)),
        ascending(keys_of(sorted)),
        walking(first0, e0, first1, e1, sorted, j, false, s, p),
        j == e0.len() ==> p == sorted.len(),
        j < e0.len() && p < sorted.len() ==> !below(sorted[p].0, keys_of(e0)[j]),
    ensures
        routed(sorted, lower(keys_of(e0), j, None), upper(keys_of(e0), j, None))
            == sorted.subrange(s, p),
        all_in_range(
            keys_of(sorted.subrange(s, p)),
            lower(keys_of(e0), j, None),
            upper(keys_of(e0), j, None),
        ),
        ascending(keys_of(sorted.subrange(s, p))),
{
    lemma_order_laws::<K>();
    let keys = keys_of(e0);
    let n = e0.len() as int;
    let lo = lower(keys, j, None);
    let hi = upper(keys, j, None);
    assert forall|x: int| 0 <= x < s implies !in_range((#[trigger] sorted[x]).0, lo, hi) by {}
    assert forall|x: int| s <= x < p implies in_range((#[trigger] sorted[x]).0, lo, hi) by {}
    assert forall|x: int| p <= x < sorted.len() implies !in_range((#[trigger] sorted[x]).0, lo, hi) by {
        if x > p {
            assert(at_most(keys_of(sorted)[p], keys_of(sorted)[x]));
        }
        assert(keys_of(sorted)[x] == sorted[x].0);
        assert(keys_of(sorted)[p] == sorted[p].0);
    }
    lemma_routed_window(sorted, s, p, lo, hi);
    let w = sorted.subrange(s, p);
    assert forall|x: int| 0 <= x < keys_of(w).len() implies in_range(#[trigger] keys_of(w)[x], lo, hi) by {
        assert(in_range(sorted[s + x].0, lo, hi));
    }
    assert forall|x: int, y: int| 0 <= x < y < keys_of(w).len() implies at_most(
        #[trigger] keys_of(w)[x],
        #[trigger] keys_of(w)[y],
    ) by {
        assert(at_most(keys_of(sorted)[s + x], keys_of(sorted)[s + y]));
    }
}

/// No pair goes to a child behind child `j`, and none has the key of a
/// separator behind separator `j`, while the walk has met nothing above
/// separator `j`.
pub(crate) proof fn lemma_nothing_routed<K: Ord, V>(e0: Seq<Branch<K, V>>, sorted: Seq<(K, V)>, j: int, i: int)
    requires
        lawful_order::<K>(),
        strictly_ascending(keys_of(e0)),
        0 <= j < i <= e0.len(),
        forall|x: int| 0 <= x < sorted.len() ==> at_most((#[trigger] sorted[x]).0, keys_of(e0)[j]),
    ensures
        routed(sorted, lower(keys_of(e0), i, None), upper(keys_of(e0), i, None)) == Seq::<
            (K, V),
        >::empty(),
        i - 1 > j ==> find(sorted, keys_of(e0)[i - 1]) is None,
{
    lemma_order_laws::<K>();
    let keys = keys_of(e0);
    let lo = lower(keys, i, None);
    let hi = upper(keys, i, None);
    assert forall|x: int| 0 <= x < sorted.len() implies !in_range((#[trigger] sorted[x]).0, lo, hi) by {
        if i - 1 > j {
            assert(below(keys[j], keys[i - 1]));
        }
    }
    lemma_routed_window(sorted, 0, 0, lo, hi);
    assert(sorted.subrange(0, 0) =~= Seq::<(K, V)>::empty());
    if i - 1 > j {
        assert forall|x: int| 0 <= x < sorted.len() implies (#[trigger] sorted[x]).0 != keys[i
            - 1] by {
            assert(below(keys[j], keys[i - 1]));
        }
        lemma_find_none(sorted, keys[i - 1]);
    }
}

/// Between two states of an array only child `j` differs, by the run
/// `window` that arrived at it if the run is not empty, and the keys are the
/// same.
pub open(crate) spec fn handed<K: Ord, V>(
    first_a: Node<K, V>,
    e_a: Seq<Branch<K, V>>,
    first_b: Node<K, V>,
    e_b: Seq<Branch<K, V>>,
    j: int,
    window: Seq<(K, V)>,
) -> bool {
    &&& e_b.len() == e_a.len()
    &&& forall|i: int| 0 <= i < e_a.len() ==> (#[trigger] e_b[i]).key == e_a[i].key
    &&& forall|i: int|
        0 <= i <= e_a.len() && i != j ==> #[trigger] child_of(first_b, e_b, i) == child_of(
            first_a,
            e_a,
            i,
        )
    &&& if window.len() == 0 {
        child_of(first_b, e_b, j) == child_of(first_a, e_a, j)
    } else {
        child_after(child_of(first_a, e_a, j), child_of(first_b, e_b, j), window)
    }
}

/// A run that arrived at a child adds its length to what the array holds.
pub(crate) proof fn lemma_handed_stock<K: Ord, V>(
    first_a: Node<K, V>,
    e_a: Seq<Branch<K, V>>,
    first_b: Node<K, V>,
    e_b: Seq<Branch<K, V>>,
    j: int,
    window: Seq<(K, V)>,
)
    requires
        0 <= j <= e_a.len(),
        handed(first_a, e_a, first_b, e_b, j, window),
    ensures
        stock_in(first_b, e_b).len() == stock_in(first_a, e_a).len() + window.len(),
{
    lemma_stock_child(first_a, e_a, first_b, e_b, j);
    if window.len() > 0 {
        lemma_stock_arrival(child_of(first_a, e_a, j), child_of(first_b, e_b, j), window);
    }
}

/// A pair below the separator waits for the child before it.
pub(crate) proof fn lemma_step_before<K: Ord, V>(
    first0: Node<K, V>,
    e0: Seq<Branch<K, V>>,
    first1: Node<K, V>,
    e1: Seq<Branch<K, V>>,
    sorted: Seq<(K, V)>,
    j: int,
    done: bool,
    s: int,
    p: int,
)
    requires
        lawful_order::<K>(),
        walking(first0, e0, first1, e1, sorted, j, done, s, p),
        j < e0.len(),
        p < sorted.len(),
        below(sorted[p].0, keys_of(e0)[j]),
    ensures
        !done,
        walking(first0, e0, first1, e1, sorted, j, false, s, p + 1),
{
    lemma_order_laws::<K>();
}

/// Child `j` is done with the pairs that waited for it, whether or not any
/// did.
pub(crate) proof fn lemma_child_done<K: Ord, V>(
    first0: Node<K, V>,
    e0: Seq<Branch<K, V>>,
    first_a: Node<K, V>,
    e_a: Seq<Branch<K, V>>,
    first_b: Node<K, V>,
    e_b: Seq<Branch<K, V>>,
    sorted: Seq<(K, V)>,
    j: int,
    done: bool,
    s: int,
    p: int,
)
    requires
        lawful_order::<K>(),
        strictly_ascending(keys_of(e0)),
        ascending(keys_of(sorted)),
        walking(first0, e0, first_a, e_a, sorted, j, done, s, p),
        j == e0.len() ==> p == sorted.len(),
        j < e0.len() && p < sorted.len() ==> !below(sorted[p].0, keys_of(e0)[j]),
        handed(first_a, e_a, first_b, e_b, j, sorted.subrange(s, p)),
    ensures
        forall|i: int|
            0 <= i <= e0.len() ==> if i <= j {
                child_after(
                    child_of(first0, e0, i),
                    #[trigger] child_of(first_b, e_b, i),
                    routed(sorted, lower(keys_of(e0), i, None), upper(keys_of(e0), i, None)),
                )
            } else {
                child_of(first_b, e_b, i) == child_of(first0, e0, i)
            },
{
    let keys = keys_of(e0);
    let n = e0.len() as int;
    if !done {
        lemma_window(first0, e0, first_a, e_a, sorted, j, s, p);
    } else {
        assert(sorted.subrange(s, p) =~= Seq::<(K, V)>::empty());
    }
    assert forall|i: int| 0 <= i <= n implies if i <= j {
        child_after(
            child_of(first0, e0, i),
            #[trigger] child_of(first_b, e_b, i),
            routed(sorted, lower(keys, i, None), upper(keys, i, None)),
        )
    } else {
        child_of(first_b, e_b, i) == child_of(first0, e0, i)
    } by {
        if i != j {
            assert(child_of(first_b, e_b, i) == child_of(first_a, e_a, i));
        }
    }
}

/// A pair with the key of the separator gives the separator its value, and
/// the child before the separator is done.
pub(crate) proof fn lemma_step_same<K: Ord, V>(
    first0: Node<K, V>,
    e0: Seq<Branch<K, V>>,
    first_a: Node<K, V>,
    e_a: Seq<Branch<K, V>>,
    first_b: Node<K, V>,
    e_b: Seq<Branch<K, V>>,
    sorted: Seq<(K, V)>,
    j: int,
    done: bool,
    s: int,
    p: int,
)
    requires
        lawful_order::<K>(),
        strictly_ascending(keys_of(e0)),
        ascending(keys_of(sorted)),
        walking(first0, e0, first_a, e_a, sorted, j, done, s, p),
        j < e0.len(),
        p < sorted.len(),
        sorted[p].0 == keys_of(e0)[j],
        handed(first_a, e_a, first_b, e_b, j, sorted.subrange(s, p)),
        forall|i: int|
            0 <= i < e0.len() && i != j ==> (#[trigger] e_b[i]).value == e_a[i].value,
        e_b[j].value == MaybeBox::Inline(sorted[p].1),
    ensures
        walking(first0, e0, first_b, e_b, sorted, j, true, p + 1, p + 1),
{
    lemma_order_laws::<K>();
    let keys = keys_of(e0);
    lemma_child_done(first0, e0, first_a, e_a, first_b, e_b, sorted, j, done, s, p);
    assert(sorted.subrange(0, p + 1) =~= sorted.subrange(0, p).push(sorted[p]));
    lemma_find_push(sorted.subrange(0, p), sorted[p], keys[j]);
    assert forall|i: int| 0 <= i < j implies value_after(e0[i], #[trigger] e_b[i], sorted) by {
        assert(value_after(e0[i], e_a[i], sorted));
    }
    assert forall|x: int| p + 1 <= x < sorted.len() implies at_most(
        keys[j],
        (#[trigger] sorted[x]).0,
    ) by {
        assert(at_most(keys_of(sorted)[p], keys_of(sorted)[x]));
    }
    assert forall|x: int| 0 <= x < p + 1 implies at_most((#[trigger] sorted[x]).0, keys[j]) by {
        if x < p {
            assert(at_most(keys_of(sorted)[x], keys_of(sorted)[p]));
        }
    }
}

/// A pair above the separator ends the walk along that separator: its value
/// is settled, the child before it is done, and the walk goes on with the
/// next separator.
pub(crate) proof fn lemma_step_after<K: Ord, V>(
    first0: Node<K, V>,
    e0: Seq<Branch<K, V>>,
    first_a: Node<K, V>,
    e_a: Seq<Branch<K, V>>,
    first_b: Node<K, V>,
    e_b: Seq<Branch<K, V>>,
    sorted: Seq<(K, V)>,
    j: int,
    done: bool,
    s: int,
    p: int,
)
    requires
        lawful_order::<K>(),
        strictly_ascending(keys_of(e0)),
        ascending(keys_of(sorted)),
        walking(first0, e0, first_a, e_a, sorted, j, done, s, p),
        j < e0.len(),
        p < sorted.len(),
        below(keys_of(e0)[j], sorted[p].0),
        handed(first_a, e_a, first_b, e_b, j, sorted.subrange(s, p)),
        forall|i: int|
            0 <= i < e0.len() ==> (#[trigger] e_b[i]).value == e_a[i].value,
    ensures
        walking(first0, e0, first_b, e_b, sorted, j + 1, false, p, p),
{
    lemma_order_laws::<K>();
    let keys = keys_of(e0);
    let n = e0.len() as int;
    lemma_child_done(first0, e0, first_a, e_a, first_b, e_b, sorted, j, done, s, p);
    let head = sorted.subrange(0, s);
    let tail = sorted.subrange(s, sorted.len() as int);
    assert(head + tail =~= sorted);
    assert forall|x: int| 0 <= x < tail.len() implies (#[trigger] tail[x]).0 != keys[j] by {
        let y = s + x;
        assert(tail[x] == sorted[y]);
        if y >= p {
            assert(keys_of(sorted)[p] == sorted[p].0);
            assert(keys_of(sorted)[y] == sorted[y].0);
            if y > p {
                assert(at_most(keys_of(sorted)[p], keys_of(sorted)[y]));
            }
        }
    }
    lemma_find_none(tail, keys[j]);
    lemma_find_add(head, tail, keys[j]);
    assert forall|i: int| 0 <= i < j + 1 implies value_after(e0[i], #[trigger] e_b[i], sorted) by {
        if i < j {
            assert(value_after(e0[i], e_a[i], sorted));
        } else {
            assert(value_after(e0[j], e_a[j], head));
        }
    }
    assert forall|x: int| 0 <= x < p implies at_most((#[trigger] sorted[x]).0, keys[j]) by {
        if x < s && !done && j > 0 {
            assert(below(keys[j - 1], keys[j]));
        }
    }
    if j + 1 < n {
        assert(below(keys[j], keys[j + 1]));
        assert forall|x: int| 0 <= x < sorted.subrange(0, p).len() implies (
        #[trigger] sorted.subrange(0, p)[x]).0 != keys[j + 1] by {
            assert(at_most(sorted[x].0, keys[j]));
        }
        lemma_find_none(sorted.subrange(0, p), keys[j + 1]);
    }
    assert forall|x: int| p <= x < sorted.len() implies below(keys[j], (#[trigger] sorted[x]).0) by {
        assert(keys_of(sorted)[p] == sorted[p].0);
        assert(keys_of(sorted)[x] == sorted[x].0);
        if x > p {
            assert(at_most(keys_of(sorted)[p], keys_of(sorted)[x]));
        }
    }
}

/// A walk that has come to the end of the pairs or of the separators has
/// pushed everything down, once the pairs that still wait have gone to their
/// child.
pub(crate) proof fn lemma_walk_done<K: Ord, V>(
    first0: Node<K, V>,
    e0: Seq<Branch<K, V>>,
    first_a: Node<K, V>,
    e_a: Seq<Branch<K, V>>,
    first_b: Node<K, V>,
    e_b: Seq<Branch<K, V>>,
    sorted: Seq<(K, V)>,
    j: int,
    done: bool,
    s: int,
    p: int,
)
    requires
        lawful_order::<K>(),
        strictly_ascending(keys_of(e0)),
        ascending(keys_of(sorted)),
        walking(first0, e0, first_a, e_a, sorted, j, done, s, p),
        j == e0.len() || p == sorted.len(),
        handed(first_a, e_a, first_b, e_b, j, sorted.subrange(s, sorted.len() as int)),
        forall|i: int|
            0 <= i < e0.len() ==> (#[trigger] e_b[i]).value == e_a[i].value,
    ensures
        pushed(first0, e0, first_b, e_b, sorted),
{
    lemma_order_laws::<K>();
    let keys = keys_of(e0);
    let n = e0.len() as int;
    let len = sorted.len() as int;
    assert(walking(first0, e0, first_a, e_a, sorted, j, done, s, if done { p } else { len }));
    if done {
        assert(sorted.subrange(s, len) =~= sorted.subrange(s, p));
    }
    lemma_child_done(
        first0,
        e0,
        first_a,
        e_a,
        first_b,
        e_b,
        sorted,
        j,
        done,
        s,
        if done { p } else { len },
    );
    if j < n {
        assert forall|x: int| 0 <= x < len implies at_most((#[trigger] sorted[x]).0, keys[j]) by {
            if x < s && !done && j > 0 {
                assert(below(keys[j - 1], keys[j]));
            }
        }
        let head = sorted.subrange(0, s);
        let tail = sorted.subrange(s, len);
        assert(head + tail =~= sorted);
        assert forall|x: int| 0 <= x < tail.len() implies (#[trigger] tail[x]).0 != keys[j] by {
            assert(tail[x] == sorted[s + x]);
        }
        lemma_find_none(tail, keys[j]);
        lemma_find_add(head, tail, keys[j]);
    }
    assert forall|i: int| 0 <= i < n implies value_after(e0[i], #[trigger] e_b[i], sorted) by {
        if i < j {
            assert(value_after(e0[i], e_a[i], sorted));
        } else if i == j {
            assert(value_after(e0[j], e_a[j], sorted.subrange(0, s)));
        } else {
            lemma_nothing_routed(e0, sorted, j, i + 1);
            assert(e_a[i].value == e0[i].value);
        }
    }
    assert forall|i: int| 0 <= i <= n implies child_after(
        child_of(first0, e0, i),
        #[trigger] child_of(first_b, e_b, i),
        routed(sorted, lower(keys, i, None), upper(keys, i, None)),
    ) by {
        if i > j {
            lemma_nothing_routed(e0, sorted, j, i);
        }
    }
}

impl<K: Ord, V> InternalArray<K, V> {
    /// Pushes the pairs of `buffer`, which are in ascending order, down into
    /// the children, and empties `buffer`. The pairs between two separators
    /// go as one run to the child between them; a pair with the key of a
    /// separator replaces that separator's value, the last such pair last.
    /// Returns the number of values that were replaced.
    pub(crate) fn push_down(
        &mut self,
        buffer: &mut Vec<(K, V)>,
        Ghost(lo): Ghost<Option<K>>,
        Ghost(hi): Ghost<Option<K>>,
    ) -> (replaced: usize)
        requires
            lawful_order::<K>(),
            wf_in(*old(self).first_child, old(self).elements@, lo, hi),
            old(buffer)@.len() > 0,
            ascending(keys_of(old(buffer)@)),
            all_in_range(keys_of(old(buffer)@), lo, hi),
        ensures
            final(buffer)@.len() == 0,
            pushed(
                *old(self).first_child,
                old(self).elements@,
                *final(self).first_child,
                final(self).elements@,
                old(buffer)@,
            ),
            wf_in(*final(self).first_child, final(self).elements@, lo, hi),
            stock_in(*final(self).first_child, final(self).elements@).len() + replaced
                == stock_in(*old(self).first_child, old(self).elements@).len() + old(
                buffer,
            )@.len(),
    {
        proof {
            lemma_order_laws::<K>();
        }
        let ghost first0 = *self.first_child;
        let ghost e0 = self.elements@;
        let ghost sorted = buffer@;
        let ghost keys = keys_of(e0);
        let ghost len = sorted.len() as int;
        let mut slicer = VecSlicer::new(buffer);
        let n = self.elements.len();
        let mut push_to: usize = 0;
        let mut replaced: usize = 0;
        let ghost mut done = false;
        let mut more = n > 0;
        proof {
            assert(sorted.subrange(0, len) =~= sorted);
            assert(sorted.subrange(0, 0) =~= Seq::<(K, V)>::empty());
        }
        while more
            invariant
                lawful_order::<K>(),
                strictly_ascending(keys),
                all_in_range(keys, lo, hi),
                keys == keys_of(e0),
                ascending(keys_of(sorted)),
                all_in_range(keys_of(sorted), lo, hi),
                len == sorted.len(),
                n == e0.len(),
                self.elements@.len() == n,
                slicer.wf(),
                slicer.pending() == sorted.subrange(slicer.start() as int, len),
                slicer.start() + slicer.pending().len() == len,
                walking(
                    first0,
                    e0,
                    *self.first_child,
                    self.elements@,
                    sorted,
                    push_to as int,
                    done,
                    slicer.start() as int,
                    slicer.cursor() as int,
                ),
                forall|i: int|
                    0 <= i <= n ==> (#[trigger] child_of(*self.first_child, self.elements@, i)).wf(
                        lower(keys, i, lo),
                        upper(keys, i, hi),
                    ),
                replaced <= slicer.start(),
                stock_in(*self.first_child, self.elements@).len() + replaced == stock_in(
                    first0,
                    e0,
                ).len() + slicer.start(),
                more ==> push_to < n && slicer.cursor() < len,
                !more ==> (push_to == n && slicer.cursor() == slicer.start()) || slicer.cursor()
                    == len,
            decreases (n - push_to) + (len - slicer.cursor()) + (len - slicer.start()),
        {
            let ghost j = push_to as int;
            let ghost s = slicer.start() as int;
            let ghost p = slicer.cursor() as int;
            let ghost first_a = *self.first_child;
            let ghost e_a = self.elements@;
            assert(slicer.pending()[p - s] == sorted[p]);
            assert(keys[j] == e0[j].key);
            assert(self.elements@[j].key == e0[j].key);
            match compare(&slicer.current().0, &self.elements[push_to].key) {
                Rank::Before => {
                    proof {
                        lemma_step_before(first0, e0, first_a, e_a, sorted, j, done, s, p);
                    }
                    slicer.advance(1);
                    if slicer.remaining() == 0 {
                        more = false;
                    }
                },
                Rank::Same => {
                    let slice = slicer.slice();
                    proof {
                        if !done {
                            lemma_window(first0, e0, first_a, e_a, sorted, j, s, p);
                        }
                        assert(slicer.pending() =~= sorted.subrange(p, len));
                        assert(slice.items() =~= sorted.subrange(s, p));
                        assert forall|x: int| 0 <= x < keys_of(slice.items()).len() implies in_range(
                            #[trigger] keys_of(slice.items())[x],
                            lower(keys, j, lo),
                            upper(keys, j, hi),
                        ) by {
                            assert(in_range(keys_of(sorted)[s + x], lo, hi));
                            assert(in_range(
                                keys_of(slice.items())[x],
                                lower(keys, j, None),
                                upper(keys, j, None),
                            ));
                        }
                    }
                    if slice.len() != 0 {
                        self.hand(
                            push_to,
                            slice,
                            Ghost(lower(keys, j, lo)),
                            Ghost(upper(keys, j, hi)),
                        );
                    }
                    let ghost first_m = *self.first_child;
                    let ghost e_m = self.elements@;
                    let item = slicer.take();
                    self.elements[push_to].key = item.0;
                    self.elements[push_to].value = MaybeBox::Inline(item.1);
                    proof {
                        let e_b = self.elements@;
                        let first_b = *self.first_child;
                        assert(slicer.pending() =~= sorted.subrange(p + 1, len));
                        assert forall|i: int| 0 <= i <= n implies #[trigger] child_of(
                            first_b,
                            e_b,
                            i,
                        ) == child_of(first_m, e_m, i) by {
                            if i > 0 {
                                assert(e_b[i - 1].child == e_m[i - 1].child);
                            }
                        }
                        assert(handed(first_a, e_a, first_b, e_b, j, sorted.subrange(s, p)));
                        lemma_handed_stock(first_a, e_a, first_b, e_b, j, sorted.subrange(s, p));
                        lemma_step_same(
                            first0,
                            e0,
                            first_a,
                            e_a,
                            first_b,
                            e_b,
                            sorted,
                            j,
                            done,
                            s,
                            p,
                        );
                        done = true;
                    }
                    replaced += 1;
                    if slicer.remaining() == 0 {
                        more = false;
                    }
                },
                Rank::After => {
                    let slice = slicer.slice();
                    proof {
                        if !done {
                            lemma_window(first0, e0, first_a, e_a, sorted, j, s, p);
                        }
                        assert(slicer.pending() =~= sorted.subrange(p, len));
                        assert(slice.items() =~= sorted.subrange(s, p));
                        assert forall|x: int| 0 <= x < keys_of(slice.items()).len() implies in_range(
                            #[trigger] keys_of(slice.items())[x],
                            lower(keys, j, lo),
                            upper(keys, j, hi),
                        ) by {
                            assert(in_range(keys_of(sorted)[s + x], lo, hi));
                            assert(in_range(
                                keys_of(slice.items())[x],
                                lower(keys, j, None),
                                upper(keys, j, None),
                            ));
                        }
                    }
                    if slice.len() != 0 {
                        self.hand(
                            push_to,
                            slice,
                            Ghost(lower(keys, j, lo)),
                            Ghost(upper(keys, j, hi)),
                        );
                    }
                    proof {
                        let e_b = self.elements@;
                        let first_b = *self.first_child;
                        assert(handed(first_a, e_a, first_b, e_b, j, sorted.subrange(s, p)));
                        lemma_handed_stock(first_a, e_a, first_b, e_b, j, sorted.subrange(s, p));
                        lemma_step_after(
                            first0,
                            e0,
                            first_a,
                            e_a,
                            first_b,
                            e_b,
                            sorted,
                            j,
                            done,
                            s,
                            p,
                        );
                        done = false;
                    }
                    push_to += 1;
                    if push_to == n {
                        more = false;
                    }
                },
            }
        }
        let ghost j = push_to as int;
        let ghost s = slicer.start() as int;
        let ghost p = slicer.cursor() as int;
        let ghost first_a = *self.first_child;
        let ghost e_a = self.elements@;
        let last_slice = slicer.slice_to_end();
        proof {
            assert(last_slice.items() =~= sorted.subrange(s, len));
            if !done {
                assert(walking(first0, e0, first_a, e_a, sorted, j, false, s, len));
                lemma_window(first0, e0, first_a, e_a, sorted, j, s, len);
            } else {
                assert(sorted.subrange(s, len) =~= Seq::<(K, V)>::empty());
            }
            assert forall|x: int| 0 <= x < keys_of(last_slice.items()).len() implies in_range(
                #[trigger] keys_of(last_slice.items())[x],
                lower(keys, j, lo),
                upper(keys, j, hi),
            ) by {
                assert(in_range(keys_of(sorted)[s + x], lo, hi));
                assert(in_range(
                    keys_of(last_slice.items())[x],
                    lower(keys, j, None),
                    upper(keys, j, None),
                ));
            }
        }
        if last_slice.len() != 0 {
            self.hand(push_to, last_slice, Ghost(lower(keys, j, lo)), Ghost(upper(keys, j, hi)));
        }
        proof {
            let e_b = self.elements@;
            let first_b = *self.first_child;
            assert(handed(first_a, e_a, first_b, e_b, j, sorted.subrange(s, len)));
            lemma_handed_stock(first_a, e_a, first_b, e_b, j, sorted.subrange(s, len));
            lemma_walk_done(first0, e0, first_a, e_a, first_b, e_b, sorted, j, done, s, p);
            assert(keys_of(e_b) =~= keys);
        }
        replaced
    }
}

} // verus!
