//! The search that files on its way down.
//!
//! `Node::search` goes from a node towards a key. At every node on the way it
//! empties the buffer: into the children of an internal node, into the array
//! of a leaf. An array that grows too long is split, and the branches that
//! the split promotes go up to the parent, which takes them into its own
//! array and may split in turn. What comes out at the top is the node and
//! the branches that it could not keep.
//!
//! Two relations say what a search has done. `searched` fixes, node by node
//! on the way to the key, the buffers, the arrays and the branches that are
//! left. `flushed` says what that means: the subtree is well formed, nothing
//! waits on the way to the key, and every key is bound as it was.
use crate::items::{flat, Item};
use crate::locate::locate;
use crate::meaning::{lemma_pushed_waiting, refines};
use crate::node::{
    child_of, lemma_internal, lower, settled_before_in, settled_in, upper, waiting_in, wf_in, Array,
    B, Branch, InternalArray, LeafArray, Node,
};
use crate::order::{at_most, below, lawful_order, lemma_order_laws};
use crate::process::{lemma_split_fits, merged, process_buffer, split, target};
use crate::push_down::pushed;
use crate::seqs::{
    all_in_range, ascending, find, in_range, keyed, keys_of, lemma_find, lemma_find_at,
    lemma_keyed_items, lemma_keyed_last, lemma_keyed_strict, lemma_rank, lemma_rank_is,
    lemma_same_runs_keys, rank, same_runs, strictly_ascending, Keyed,
};
use crate::shape::{
    deep_spot, grafted, lemma_deep_spot, lemma_graft, lemma_graft_merged, lemma_graft_route,
    lemma_graft_wf, lemma_internal_split, lemma_internal_split_route, lemma_internal_split_wf,
    lemma_leaf_split, lemma_leaf_split_wf, lemma_leaf_waiting, lemma_merged_once, lemma_spot,
    lemma_strict_ascends, spot,
};
use crate::sorting::drain_sorted;
use crate::stock::{
    lemma_bag, lemma_stock_alone, lemma_stock_child, lemma_stock_graft, lemma_stock_has_child,
    lemma_stock_internal, lemma_stock_internal_split, lemma_stock_leaf, lemma_stock_leaf_split,
    lemma_stock_of_same, stock_in, stock_of,
};
use vstd::prelude::*;

verus! {

/// How a search ended.
#[derive(Clone, Copy, PartialEq, Eq, Structural, Debug)]
pub enum SearchResult {
    /// The key is bound, below the node that was searched or below one of
    /// the branches that came up.
    Found,
    /// The key is bound, and it is the key of one of the branches that came
    /// up: where its value lives is known only once those have a place.
    HeadOfBranch,
    /// The key is not bound.
    Missing,
}

/// The branches that come up from a node are of the node's kind: branches
/// over leaves from a leaf, over internal nodes from an internal node.
pub open(crate) spec fn of_kind<K: Ord, V>(node: Node<K, V>, nb: Seq<Branch<K, V>>) -> bool {
    forall|i: int|
        0 <= i < nb.len() ==> if node.is_leaf() {
            <(K, V) as Item<K, V>>::shaped(#[trigger] nb[i])
        } else {
            <Branch<K, V> as Item<K, V>>::shaped(nb[i])
        }
}

/// `now` and the branches `nb` are what a search for `key` made of `was`:
/// together they are well formed between the bounds of `was`, nothing waits
/// in a buffer on the way to `key`, and under every key between the bounds
/// waits what waited in `was`, or only the last of it.
pub open(crate) spec fn flushed<K: Ord, V>(
    was: Node<K, V>,
    now: Node<K, V>,
    nb: Seq<Branch<K, V>>,
    key: K,
    lo: Option<K>,
    hi: Option<K>,
) -> bool {
    &&& wf_in(now, nb, lo, hi)
    &&& settled_in(now, nb, key)
    &&& forall|k: K|
        in_range(k, lo, hi) ==> refines(
            #[trigger] waiting_in(now, nb, Seq::empty(), k),
            was.waiting(Seq::empty(), k),
        )
    &&& now.is_leaf() == was.is_leaf()
    &&& of_kind(now, nb)
}

/// `sorted` is the buffer `buf` in ascending order of the keys: pairs with
/// equal keys stand as they stood, and a buffer that is known to be in order
/// is taken as it is.
pub open(crate) spec fn in_order<K: Ord, V>(sorted: Seq<(K, V)>, buf: Seq<(K, V)>, flag: bool) -> bool {
    &&& ascending(keys_of(sorted))
    &&& same_runs(sorted, buf)
    &&& sorted.len() == buf.len()
    &&& flag ==> sorted == buf
}

/// `now` and the branches `nb` are what filing made of a leaf with the array
/// `held` and the buffer `buf`, with `sorted` as the buffer in ascending
/// order: the pairs of the buffer were merged into the array, those with
/// equal keys in the order in which they stood, and the result was split.
pub open(crate) spec fn leaf_merged<K: Ord, V>(
    held: Seq<(K, V)>,
    buf: Seq<(K, V)>,
    flag: bool,
    now: Node<K, V>,
    nb: Seq<Branch<K, V>>,
    sorted: Seq<(K, V)>,
) -> bool {
    &&& in_order(sorted, buf, flag)
    &&& merged(held, sorted, flat::<K, V, (K, V)>(now.array->Leaf_0.elements@, nb))
    &&& split::<K, V, (K, V)>(
        now.array->Leaf_0.elements@,
        nb,
        flat::<K, V, (K, V)>(now.array->Leaf_0.elements@, nb).len() as int,
        (held.len() + sorted.len()) as int,
    )
}

/// `now` and the branches `nb` are what a search made of a leaf with the
/// array `held` and the buffer `buf`. A leaf whose buffer is empty stays as
/// it is and nothing comes up. Else the buffer is merged into the array and
/// the result is split, which fixes the array that is left and every branch
/// that comes up.
pub open(crate) spec fn leaf_filed<K: Ord, V>(
    held: Seq<(K, V)>,
    buf: Seq<(K, V)>,
    flag: bool,
    now: Node<K, V>,
    nb: Seq<Branch<K, V>>,
) -> bool {
    &&& now.array is Leaf
    &&& if buf.len() == 0 {
        nb.len() == 0 && now.array->Leaf_0.elements@ == held
    } else {
        exists|sorted: Seq<(K, V)>| #[trigger] leaf_merged(held, buf, flag, now, nb, sorted)
    }
}

/// The array of `first1` and `e1` is what became of the array of `first0`
/// and `e0` when the buffer `buf` of their node was pushed down, with
/// `sorted` as the buffer in ascending order. Nothing changes where the
/// buffer is empty.
#[verifier::opaque]
pub open(crate) spec fn pushed_down<K: Ord, V>(
    first0: Node<K, V>,
    e0: Seq<Branch<K, V>>,
    buf: Seq<(K, V)>,
    flag: bool,
    first1: Node<K, V>,
    e1: Seq<Branch<K, V>>,
    sorted: Seq<(K, V)>,
) -> bool {
    if buf.len() == 0 {
        first1 == first0 && e1 == e0
    } else {
        in_order(sorted, buf, flag) && pushed(first0, e0, first1, e1, sorted)
    }
}

/// The branches `e1` are the branches `e0`, but the value of the branch
/// with number `i` has a box of its own.
pub open(crate) spec fn boxed_at<K, V>(e0: Seq<Branch<K, V>>, e1: Seq<Branch<K, V>>, i: int) -> bool {
    &&& e1.len() == e0.len()
    &&& forall|j: int| 0 <= j < e0.len() && j != i ==> #[trigger] e1[j] == e0[j]
    &&& 0 <= i < e0.len()
    &&& e1[i].key == e0[i].key
    &&& e1[i].child == e0[i].child
    &&& e1[i].value == e0[i].value.boxed()
}

/// The branches `came_up` were put in their place, before branch `i`, among
/// the branches `around`, and what that made was split into the array `own`
/// and the branches `nb`.
#[verifier::opaque]
pub open(crate) spec fn taken_up<K, V>(
    around: Seq<Branch<K, V>>,
    i: int,
    came_up: Seq<Branch<K, V>>,
    own: Seq<Branch<K, V>>,
    nb: Seq<Branch<K, V>>,
) -> bool {
    &&& flat::<K, V, Branch<K, V>>(own, nb) == grafted(around, i, came_up)
    &&& split::<K, V, Branch<K, V>>(
        own,
        nb,
        flat::<K, V, Branch<K, V>>(own, nb).len() as int,
        (around.len() + came_up.len()) as int,
    )
}

/// Child `i` of the array of `first1` and `e1` has become `child`, which
/// gives the array of `first2` and `e2`; nothing else differs.
pub open(crate) spec fn child_set<K, V>(
    first1: Node<K, V>,
    e1: Seq<Branch<K, V>>,
    first2: Node<K, V>,
    e2: Seq<Branch<K, V>>,
    i: int,
    child: Node<K, V>,
) -> bool {
    if i == 0 {
        first2 == child && e2 == e1
    } else {
        &&& first2 == first1
        &&& 0 < i <= e1.len()
        &&& e2 == e1.update(i - 1, e2[i - 1])
        &&& e2[i - 1].key == e1[i - 1].key
        &&& e2[i - 1].value == e1[i - 1].value
        &&& *e2[i - 1].child == child
    }
}

/// What a search did at one internal node on its way.
pub struct Station<K, V> {
    /// The buffer of the node in ascending order.
    pub sorted: Seq<(K, V)>,
    /// The first child once the buffer has been pushed down.
    pub first: Node<K, V>,
    /// The branches once the buffer has been pushed down.
    pub branches: Seq<Branch<K, V>>,
    /// The child on the way to the key, once it has been searched.
    pub child: Node<K, V>,
    /// The branches that came up from that child.
    pub came_up: Seq<Branch<K, V>>,
    /// The branches of the node with that child in its place.
    pub around: Seq<Branch<K, V>>,
}

/// `now` and the branches `nb` are what a search for `key` made of a node
/// with the array `arr`, the buffer `buf` and the flag `flag`, where `way`
/// holds what it did at each internal node that it came to, from this one
/// down. With `past` the search is for the place just before `key`, and
/// does not end at a separator that has the key.
///
/// A leaf files its buffer. An internal node pushes its buffer down. Then
/// the search ends at the separator that has the key, whose value moves
/// into a box of its own; or it goes on in the child where the key belongs,
/// the branches that come up from there are put in their place among the
/// branches of the node, and what that makes is split.
#[verifier::opaque]
pub open(crate) spec fn searched<K: Ord, V>(
    arr: Array<K, V>,
    buf: Seq<(K, V)>,
    flag: bool,
    now: Node<K, V>,
    nb: Seq<Branch<K, V>>,
    key: K,
    past: bool,
    way: Seq<Station<K, V>>,
) -> bool
    decreases arr,
{
    match arr {
        Array::Leaf(la) => leaf_filed(la.elements@, buf, flag, now, nb),
        Array::Internal(ia) => {
            let keys = keys_of(ia.elements@);
            let i = rank(keys, key);
            let here = way[0];
            let down = child_of(here.first, here.branches, i);
            &&& way.len() > 0
            &&& now.array is Internal
            &&& pushed_down(
                *ia.first_child,
                ia.elements@,
                buf,
                flag,
                here.first,
                here.branches,
                here.sorted,
            )
            &&& if !past && 0 <= i < keys.len() && keys[i] == key {
                &&& nb.len() == 0
                &&& *now.array->Internal_0.first_child == here.first
                &&& boxed_at(here.branches, now.array->Internal_0.elements@, i)
            } else {
                &&& if 0 < i <= ia.elements.len() {
                    searched(
                        ia.elements[i - 1].child.array,
                        down.buffer@,
                        down.buffer_is_sorted,
                        here.child,
                        here.came_up,
                        key,
                        past,
                        way.drop_first(),
                    )
                } else {
                    searched(
                        ia.first_child.array,
                        down.buffer@,
                        down.buffer_is_sorted,
                        here.child,
                        here.came_up,
                        key,
                        past,
                        way.drop_first(),
                    )
                }
                &&& child_set(
                    here.first,
                    here.branches,
                    *now.array->Internal_0.first_child,
                    here.around,
                    i,
                    here.child,
                )
                &&& taken_up(here.around, i, here.came_up, now.array->Internal_0.elements@, nb)
            }
        },
    }
}

/// A leaf that filed its buffer is `searched`, by any way.
pub(crate) proof fn lemma_searched_leaf<K: Ord, V>(
    arr: Array<K, V>,
    buf: Seq<(K, V)>,
    flag: bool,
    now: Node<K, V>,
    nb: Seq<Branch<K, V>>,
    key: K,
    past: bool,
    way: Seq<Station<K, V>>,
)
    requires
        arr is Leaf,
        leaf_filed(arr->Leaf_0.elements@, buf, flag, now, nb),
    ensures
        searched(arr, buf, flag, now, nb, key, past, way),
{
    reveal(searched);
}

/// A search that ended at a separator of an internal node is `searched` by
/// way of what the push-down left.
pub(crate) proof fn lemma_searched_hit<K: Ord, V>(
    arr: Array<K, V>,
    buf: Seq<(K, V)>,
    flag: bool,
    now: Node<K, V>,
    nb: Seq<Branch<K, V>>,
    key: K,
    here: Station<K, V>,
)
    requires
        arr is Internal,
        now.array is Internal,
        pushed_down(
            *arr->Internal_0.first_child,
            arr->Internal_0.elements@,
            buf,
            flag,
            here.first,
            here.branches,
            here.sorted,
        ),
        ({
            let keys = keys_of(arr->Internal_0.elements@);
            let i = rank(keys, key);
            &&& 0 <= i < keys.len()
            &&& keys[i] == key
            &&& nb.len() == 0
            &&& *now.array->Internal_0.first_child == here.first
            &&& boxed_at(here.branches, now.array->Internal_0.elements@, i)
        }),
    ensures
        searched(arr, buf, flag, now, nb, key, false, seq![here]),
{
    reveal(searched);
}

/// A search that went on below an internal node is `searched` by way of
/// what it did there and what it did below.
pub(crate) proof fn lemma_searched_below<K: Ord, V>(
    arr: Array<K, V>,
    buf: Seq<(K, V)>,
    flag: bool,
    now: Node<K, V>,
    nb: Seq<Branch<K, V>>,
    key: K,
    past: bool,
    here: Station<K, V>,
    below: Seq<Station<K, V>>,
)
    requires
        arr is Internal,
        now.array is Internal,
        pushed_down(
            *arr->Internal_0.first_child,
            arr->Internal_0.elements@,
            buf,
            flag,
            here.first,
            here.branches,
            here.sorted,
        ),
        ({
            let keys = keys_of(arr->Internal_0.elements@);
            let i = rank(keys, key);
            let down = child_of(here.first, here.branches, i);
            &&& 0 <= i <= keys.len()
            &&& past || !(0 <= i < keys.len() && keys[i] == key)
            &&& searched(
                down.array,
                down.buffer@,
                down.buffer_is_sorted,
                here.child,
                here.came_up,
                key,
                past,
                below,
            )
            &&& child_set(
                here.first,
                here.branches,
                *now.array->Internal_0.first_child,
                here.around,
                i,
                here.child,
            )
            &&& taken_up(here.around, i, here.came_up, now.array->Internal_0.elements@, nb)
        }),
    ensures
        searched(arr, buf, flag, now, nb, key, past, seq![here] + below),
{
    let ia = arr->Internal_0;
    let i = rank(keys_of(ia.elements@), key);
    let down = child_of(here.first, here.branches, i);
    let up = child_of(*ia.first_child, ia.elements@, i);
    reveal(searched);
    let way = seq![here] + below;
    assert(way[0] == here);
    assert(way.drop_first() =~= below);
    assert(down.array == up.array) by {
        reveal(pushed_down);
    }
    if 0 < i <= ia.elements.len() {
        assert(up.array == ia.elements[i - 1].child.array);
    } else {
        assert(up.array == ia.first_child.array);
    }
}

/// The result that a search for `key` owes: whether the key is bound in
/// `was`, and whether it came up as the key of one of the branches `nb`.
pub open(crate) spec fn outcome<K: Ord, V>(was: Node<K, V>, nb: Seq<Branch<K, V>>, key: K) -> SearchResult {
    if find(nb, key) is Some {
        SearchResult::HeadOfBranch
    } else if was.waiting(Seq::empty(), key).len() > 0 {
        SearchResult::Found
    } else {
        SearchResult::Missing
    }
}

/// What was or only its last, of what was or only its last, is what was or
/// only its last.
pub proof fn lemma_refines_twice<V>(a: Seq<V>, b: Seq<V>, c: Seq<V>)
    requires
        refines(a, b),
        refines(b, c),
    ensures
        refines(a, c),
        a.len() == 0 <==> c.len() == 0,
{
    if b.len() > 0 && a == seq![b.last()] {
        assert(a.last() == b.last());
    }
}

/// A leaf whose buffer was merged into its array, and split, holds under
/// every key the last of what waited there.
pub(crate) proof fn lemma_leaf_flushed<K: Ord, V>(
    was: Node<K, V>,
    now: Node<K, V>,
    nb: Seq<Branch<K, V>>,
    sorted: Seq<(K, V)>,
    key: K,
    lo: Option<K>,
    hi: Option<K>,
)
    requires
        lawful_order::<K>(),
        was.array is Leaf,
        was.wf(lo, hi),
        same_runs(sorted, was.buffer@),
        sorted.len() == was.buffer@.len(),
        now.array is Leaf,
        now.buffer@.len() == 0,
        merged(
            was.array->Leaf_0.elements@,
            sorted,
            flat::<K, V, (K, V)>(now.array->Leaf_0.elements@, nb),
        ),
        split::<K, V, (K, V)>(
            now.array->Leaf_0.elements@,
            nb,
            flat::<K, V, (K, V)>(now.array->Leaf_0.elements@, nb).len() as int,
            (was.array->Leaf_0.elements@.len() + sorted.len()) as int,
        ),
    ensures
        flushed(was, now, nb, key, lo, hi),
        strictly_ascending(keys_of(nb)),
        forall|k: K| #[trigger]
            waiting_in(now, nb, Seq::empty(), k) == keyed(
                flat::<K, V, (K, V)>(now.array->Leaf_0.elements@, nb),
                k,
            ),
        forall|k: K|
            keyed(flat::<K, V, (K, V)>(now.array->Leaf_0.elements@, nb), k).len() > 0
                <==> #[trigger] was.waiting(Seq::empty(), k).len() > 0,
        forall|i: int|
            0 <= i < nb.len() ==> find(
                flat::<K, V, (K, V)>(now.array->Leaf_0.elements@, nb),
                (#[trigger] nb[i]).key,
            ) is Some,
{
    lemma_order_laws::<K>();
    let held = was.array->Leaf_0.elements@;
    let own = now.array->Leaf_0.elements@;
    let f = flat::<K, V, (K, V)>(own, nb);
    let total = (held.len() + sorted.len()) as int;
    lemma_split_fits::<K, V, (K, V)>(own, nb, f.len() as int, total);
    assert forall|i: int| 0 <= i < keys_of(f).len() implies in_range(
        #[trigger] keys_of(f)[i],
        lo,
        hi,
    ) by {
        let k = f[i].0;
        lemma_find_at(f, i);
        assert(find(f, k) == target(held, sorted, k));
        lemma_find(sorted, k);
        lemma_find(held, k);
        if let Some(x) = find(sorted, k) {
            lemma_keyed_items(sorted, k);
            lemma_keyed_items(was.buffer@, k);
            assert(keyed(sorted, k) == keyed(was.buffer@, k));
            let j = choose|j: int| 0 <= j < was.buffer@.len() && (#[trigger] was.buffer@[j]).0 == k;
            assert(in_range(keys_of(was.buffer@)[j], lo, hi));
        } else {
            let x = find(held, k)->Some_0;
            let j = choose|j: int| 0 <= j < held.len() && held[j] == x;
            assert(in_range(keys_of(held)[j], lo, hi));
        }
    }
    lemma_leaf_split_wf(now, nb, lo, hi);
    lemma_leaf_split(now, nb);
    assert forall|k: K|
        #![trigger waiting_in(now, nb, Seq::empty(), k)]
        #![trigger was.waiting(Seq::empty(), k)]
        refines(waiting_in(now, nb, Seq::empty(), k), was.waiting(Seq::empty(), k)) && (keyed(
            f,
            k,
        ).len() > 0 <==> was.waiting(Seq::empty(), k).len() > 0) by {
        assert(waiting_in(now, nb, Seq::empty(), k) == keyed(f, k));
        assert(find(f, k) == target(held, sorted, k));
        assert(keyed(sorted, k) == keyed(was.buffer@, k));
        lemma_keyed_strict(f, k);
        lemma_keyed_strict(held, k);
        lemma_keyed_last(sorted, k);
        let old_waiting = keyed(held, k) + keyed(was.buffer@, k);
        assert(was.waiting(Seq::empty(), k) == old_waiting);
        if find(sorted, k) is Some {
            assert(old_waiting.last() == keyed(sorted, k).last());
        } else {
            assert(old_waiting =~= keyed(held, k));
        }
    }
}

/// An array whose child `i` was searched, with the branches that came up
/// from that child standing in the array, holds what it held.
pub(crate) proof fn lemma_grafted_flushed<K: Ord, V>(
    first1: Node<K, V>,
    e1: Seq<Branch<K, V>>,
    first2: Node<K, V>,
    e2: Seq<Branch<K, V>>,
    i: int,
    cnb: Seq<Branch<K, V>>,
    key: K,
    lo: Option<K>,
    hi: Option<K>,
)
    requires
        lawful_order::<K>(),
        wf_in(first1, e1, lo, hi),
        in_range(key, lo, hi),
        0 <= i <= e1.len(),
        rank(keys_of(e1), key) == i,
        !(i < e1.len() && e1[i].key == key),
        e2.len() == e1.len(),
        forall|x: int|
            0 <= x < e1.len() ==> (#[trigger] e2[x]).key == e1[x].key && e2[x].value.value()
                == e1[x].value.value(),
        forall|x: int|
            0 <= x <= e1.len() && x != i ==> #[trigger] child_of(first2, e2, x) == child_of(
                first1,
                e1,
                x,
            ),
        flushed(
            child_of(first1, e1, i),
            child_of(first2, e2, i),
            cnb,
            key,
            lower(keys_of(e1), i, lo),
            upper(keys_of(e1), i, hi),
        ),
    ensures
        wf_in(first2, grafted(e2, i, cnb), lo, hi),
        settled_in(first2, grafted(e2, i, cnb), key),
        forall|k: K|
            in_range(k, lo, hi) ==> refines(
                #[trigger] waiting_in(first2, grafted(e2, i, cnb), Seq::empty(), k),
                waiting_in(first1, e1, Seq::empty(), k),
            ),
        strictly_ascending(keys_of(e2)),
        strictly_ascending(keys_of(cnb)),
        merged(e2, cnb, grafted(e2, i, cnb)),
        find(grafted(e2, i, cnb), key) == find(cnb, key),
{
    lemma_order_laws::<K>();
    let keys = keys_of(e1);
    let g = grafted(e2, i, cnb);
    let c_new = child_of(first2, e2, i);
    lemma_grafted_holds(first1, e1, first2, e2, i, cnb, lo, hi);
    assert forall|x: int| 0 <= x <= e2.len() && x != i implies (#[trigger] child_of(
        first2,
        e2,
        x,
    )).wf(lower(keys_of(e2), x, lo), upper(keys_of(e2), x, hi)) by {
        assert(child_of(first1, e1, x).wf(lower(keys, x, lo), upper(keys, x, hi)));
    }
    assert(settled_in(first2, g, key)) by {
        lemma_graft(first2, e2, i, cnb, lo, hi, key);
        lemma_spot(first2, g, key);
        lemma_spot(c_new, cnb, key);
    }
    assert(find(g, key) == target(e2, cnb, key));
    lemma_find(e2, key);
    if let Some(x) = find(e2, key) {
        let j = choose|j: int| 0 <= j < e2.len() && e2[j] == x;
        lemma_rank(keys, key);
        assert(keys[j] == key);
        if j < i {
            assert(below(keys[j], key));
        } else if j > i {
            assert(below(keys[i], keys[j]));
            assert(!below(keys[i], key));
        }
    }
}

/// An internal node that was split holds what the unsplit array held.
pub(crate) proof fn lemma_split_flushed<K: Ord, V>(
    now: Node<K, V>,
    nb: Seq<Branch<K, V>>,
    total: int,
    lo: Option<K>,
    hi: Option<K>,
)
    requires
        lawful_order::<K>(),
        now.array is Internal,
        now.buffer@.len() == 0,
        split::<K, V, Branch<K, V>>(
            now.array->Internal_0.elements@,
            nb,
            flat::<K, V, Branch<K, V>>(now.array->Internal_0.elements@, nb).len() as int,
            total,
        ),
        wf_in(
            *now.array->Internal_0.first_child,
            flat::<K, V, Branch<K, V>>(now.array->Internal_0.elements@, nb),
            lo,
            hi,
        ),
    ensures
        wf_in(now, nb, lo, hi),
        of_kind(now, nb),
        strictly_ascending(keys_of(nb)),
        forall|i: int|
            0 <= i < nb.len() ==> find(
                flat::<K, V, Branch<K, V>>(now.array->Internal_0.elements@, nb),
                (#[trigger] nb[i]).key,
            ) is Some,
        forall|k: K| #[trigger]
            waiting_in(now, nb, Seq::empty(), k) == waiting_in(
                *now.array->Internal_0.first_child,
                flat::<K, V, Branch<K, V>>(now.array->Internal_0.elements@, nb),
                Seq::empty(),
                k,
            ),
        forall|k: K| #[trigger]
            settled_in(now, nb, k) == settled_in(
                *now.array->Internal_0.first_child,
                flat::<K, V, Branch<K, V>>(now.array->Internal_0.elements@, nb),
                k,
            ),
{
    let own = now.array->Internal_0.elements@;
    let first = *now.array->Internal_0.first_child;
    let f = flat::<K, V, Branch<K, V>>(own, nb);
    lemma_split_fits::<K, V, Branch<K, V>>(own, nb, f.len() as int, total);
    lemma_internal_split_wf(now, nb, lo, hi);
    lemma_internal_split(now, nb);
    assert forall|k: K|
        #![trigger waiting_in(now, nb, Seq::empty(), k)]
        #![trigger settled_in(now, nb, k)]
        waiting_in(now, nb, Seq::empty(), k) == waiting_in(first, f, Seq::empty(), k)
            && settled_in(now, nb, k) == settled_in(first, f, k) by {
        lemma_deep_spot(now, nb, k);
        lemma_spot(first, f, k);
        assert(deep_spot(now, nb, k) == spot(first, f, k));
    }
}

/// Two arrays with the same keys, values and children are well formed
/// together and hold the same.
pub(crate) proof fn lemma_same_array<K: Ord, V>(
    first_a: Node<K, V>,
    e_a: Seq<Branch<K, V>>,
    first_b: Node<K, V>,
    e_b: Seq<Branch<K, V>>,
    lo: Option<K>,
    hi: Option<K>,
)
    requires
        e_b.len() == e_a.len(),
        forall|x: int|
            0 <= x < e_a.len() ==> (#[trigger] e_b[x]).key == e_a[x].key && e_b[x].value.value()
                == e_a[x].value.value() && e_b[x].child == e_a[x].child,
        first_b == first_a,
    ensures
        keys_of(e_b) == keys_of(e_a),
        wf_in(first_b, e_b, lo, hi) == wf_in(first_a, e_a, lo, hi),
        forall|k: K, buf: Seq<(K, V)>| #[trigger]
            waiting_in(first_b, e_b, buf, k) == waiting_in(first_a, e_a, buf, k),
        forall|k: K| #[trigger] settled_in(first_b, e_b, k) == settled_in(first_a, e_a, k),
{
    assert(keys_of(e_b) =~= keys_of(e_a));
    assert forall|x: int| 0 <= x <= e_a.len() implies #[trigger] child_of(first_b, e_b, x)
        == child_of(first_a, e_a, x) by {
        if x > 0 {
            assert(e_b[x - 1].child == e_a[x - 1].child);
        }
    }
    assert forall|k: K, buf: Seq<(K, V)>| #[trigger]
        waiting_in(first_b, e_b, buf, k) == waiting_in(first_a, e_a, buf, k) by {
        crate::seqs::lemma_rank_bounds(keys_of(e_a), k);
        let i = rank(keys_of(e_a), k);
        assert(child_of(first_b, e_b, i) == child_of(first_a, e_a, i));
    }
    assert forall|k: K| #[trigger] settled_in(first_b, e_b, k) == settled_in(first_a, e_a, k) by {
        crate::seqs::lemma_rank_bounds(keys_of(e_a), k);
        let i = rank(keys_of(e_a), k);
        assert(child_of(first_b, e_b, i) == child_of(first_a, e_a, i));
    }
    if wf_in(first_a, e_a, lo, hi) {
        assert forall|x: int| 0 <= x <= e_b.len() implies (#[trigger] child_of(first_b, e_b, x)).wf(
            lower(keys_of(e_b), x, lo),
            upper(keys_of(e_b), x, hi),
        ) by {
            assert(child_of(first_a, e_a, x).wf(
                lower(keys_of(e_a), x, lo),
                upper(keys_of(e_a), x, hi),
            ));
        }
    }
    if wf_in(first_b, e_b, lo, hi) {
        assert forall|x: int| 0 <= x <= e_a.len() implies (#[trigger] child_of(first_a, e_a, x)).wf(
            lower(keys_of(e_a), x, lo),
            upper(keys_of(e_a), x, hi),
        ) by {
            assert(child_of(first_b, e_b, x).wf(
                lower(keys_of(e_b), x, lo),
                upper(keys_of(e_b), x, hi),
            ));
        }
    }
}

/// A key that is the key of a branch has the value of that branch waiting.
pub(crate) proof fn lemma_found_waits<K: Ord, V>(first: Node<K, V>, branches: Seq<Branch<K, V>>, k: K)
    requires
        lawful_order::<K>(),
        strictly_ascending(keys_of(branches)),
    ensures
        find(branches, k) is Some ==> waiting_in(first, branches, Seq::empty(), k).len() == 1,
        find(branches, k) is Some <==> spot(first, branches, k) is Hit,
{
    lemma_order_laws::<K>();
    lemma_find(branches, k);
    lemma_spot(first, branches, k);
    lemma_strict_ascends(keys_of(branches));
    lemma_rank(keys_of(branches), k);
    let keys = keys_of(branches);
    if let Some(b) = find(branches, k) {
        let j = choose|j: int| 0 <= j < branches.len() && branches[j] == b;
        assert(keys[j] == k);
        assert forall|x: int| 0 <= x < j implies below(#[trigger] keys[x], k) by {
            assert(below(keys[x], keys[j]));
        }
        assert forall|x: int| j <= x < keys.len() implies !below(#[trigger] keys[x], k) by {
            if x > j {
                assert(below(keys[j], keys[x]));
            }
        }
        lemma_rank_is(keys, k, j);
    } else {
        let i = rank(keys, k);
        if 0 <= i < keys.len() && keys[i] == k {
            assert(branches[i].key_spec() == k);
        }
    }
}

impl<K: Ord, V> LeafArray<K, V> {
    /// Merges pairs that arrived, in ascending order of their keys, into the
    /// array, and returns the branches that a split promoted, with the
    /// number of pairs that did not stay.
    pub(crate) fn process_buffer(&mut self, buffer: Vec<(K, V)>) -> (r: (Vec<Branch<K, V>>, u128))
        requires
            lawful_order::<K>(),
            strictly_ascending(keys_of(old(self).elements@)),
            ascending(keys_of(buffer@)),
            old(self).elements@.len() <= B,
        ensures
            merged(old(self).elements@, buffer@, flat::<K, V, (K, V)>(final(self).elements@, r.0@)),
            split::<K, V, (K, V)>(
                final(self).elements@,
                r.0@,
                flat::<K, V, (K, V)>(final(self).elements@, r.0@).len() as int,
                (old(self).elements@.len() + buffer@.len()) as int,
            ),
            flat::<K, V, (K, V)>(final(self).elements@, r.0@).len() + r.1 == old(
                self,
            ).elements@.len() + buffer@.len(),
    {
        process_buffer::<K, V, (K, V)>(&mut self.elements, buffer)
    }
}

impl<K: Ord, V> InternalArray<K, V> {
    /// Merges branches that came up from a child into the array, and returns
    /// the branches that a split promoted.
    pub(crate) fn process_branches(&mut self, branches: Vec<Branch<K, V>>) -> (result: Vec<
        Branch<K, V>,
    >)
        requires
            lawful_order::<K>(),
            strictly_ascending(keys_of(old(self).elements@)),
            ascending(keys_of(branches@)),
            old(self).elements@.len() <= B,
        ensures
            final(self).first_child == old(self).first_child,
            merged(
                old(self).elements@,
                branches@,
                flat::<K, V, Branch<K, V>>(final(self).elements@, result@),
            ),
            split::<K, V, Branch<K, V>>(
                final(self).elements@,
                result@,
                flat::<K, V, Branch<K, V>>(final(self).elements@, result@).len() as int,
                (old(self).elements@.len() + branches@.len()) as int,
            ),
    {
        process_buffer::<K, V, Branch<K, V>>(&mut self.elements, branches).0
    }
}

impl<K, V> Array<K, V> {
    /// The array of an internal node.
    pub(crate) fn unwrap_internal(&self) -> (ia: &InternalArray<K, V>)
        requires
            self is Internal,
        ensures
            *ia == self->Internal_0,
    {
        match self {
            Array::Internal(ia) => ia,
            Array::Leaf(_) => vstd::pervasive::unreached(),
        }
    }

    /// The array of an internal node, to be changed in place.
    pub(crate) fn unwrap_internal_mut(&mut self) -> (ia: &mut InternalArray<K, V>)
        requires
            *old(self) is Internal,
        ensures
            *ia == (*old(self))->Internal_0,
            *final(self) == Array::Internal(*final(ia)),
    {
        match self {
            Array::Internal(ia) => ia,
            Array::Leaf(_) => vstd::pervasive::unreached(),
        }
    }

    /// The array of a leaf.
    pub(crate) fn unwrap_leaf(&self) -> (la: &LeafArray<K, V>)
        requires
            self is Leaf,
        ensures
            *la == self->Leaf_0,
    {
        match self {
            Array::Leaf(la) => la,
            Array::Internal(_) => vstd::pervasive::unreached(),
        }
    }

    /// The array of a leaf, to be changed in place.
    pub(crate) fn unwrap_leaf_mut(&mut self) -> (la: &mut LeafArray<K, V>)
        requires
            *old(self) is Leaf,
        ensures
            *la == (*old(self))->Leaf_0,
            *final(self) == Array::Leaf(*final(la)),
    {
        match self {
            Array::Leaf(la) => la,
            Array::Internal(_) => vstd::pervasive::unreached(),
        }
    }
}

/// Settles a search that ended at the head of a branch, now that the
/// branches that came up have a place: below `node` and the branches
/// `new_branches` that it promoted in turn. The key is still the head of a
/// branch if it is the key of one of `new_branches`. Else it is the key of a
/// branch in the array of `node`, where it stands before all of
/// `new_branches`, or in the array under the branch before its place among
/// them.
pub(crate) fn resolve_head<K: Ord, V>(
    node: &Node<K, V>,
    new_branches: &Vec<Branch<K, V>>,
    key: &K,
    Ghost(lo): Ghost<Option<K>>,
    Ghost(hi): Ghost<Option<K>>,
) -> (result: SearchResult)
    requires
        lawful_order::<K>(),
        node.array is Internal,
        node.buffer@.len() == 0,
        wf_in(*node, new_branches@, lo, hi),
        of_kind(*node, new_branches@),
        deep_spot(*node, new_branches@, *key) is Hit,
    ensures
        result == if find(new_branches@, *key) is Some {
            SearchResult::HeadOfBranch
        } else {
            SearchResult::Found
        },
{
    let ghost nb = new_branches@;
    proof {
        lemma_order_laws::<K>();
    }
    match locate(new_branches, key) {
        Ok(j) => {
            proof {
                lemma_find_at(nb, j as int);
            }
            SearchResult::HeadOfBranch
        },
        Err(i) => {
            let ghost part = child_of(*node, nb, i as int);
            proof {
                crate::seqs::lemma_find_none(nb, *key);
                assert(part.wf(lower(keys_of(nb), i as int, lo), upper(keys_of(nb), i as int, hi)));
                if i > 0 {
                    assert(<Branch<K, V> as Item<K, V>>::shaped(nb[i - 1]));
                }
                lemma_internal(
                    part,
                    Seq::empty(),
                    *key,
                    lower(keys_of(nb), i as int, lo),
                    upper(keys_of(nb), i as int, hi),
                );
            }
            let held = if i == 0 {
                locate(&node.array.unwrap_internal().elements, key)
            } else {
                locate(&new_branches[i - 1].child.array.unwrap_internal().elements, key)
            };
            match held {
                Ok(_) => SearchResult::Found,
                Err(_) => vstd::pervasive::unreached(),
            }
        },
    }
}

impl<K: Ord, V> Node<K, V> {
    /// Pushes the buffer of an internal node down into its children, and
    /// returns the number of values that this replaced.
    fn flush_down(&mut self, Ghost(lo): Ghost<Option<K>>, Ghost(hi): Ghost<Option<K>>) -> (replaced:
        usize)
        requires
            lawful_order::<K>(),
            old(self).wf(lo, hi),
            old(self).array is Internal,
        ensures
            final(self).wf(lo, hi),
            final(self).array is Internal,
            final(self).buffer@.len() == 0,
            final(self).buffer_is_sorted == old(self).buffer_is_sorted,
            forall|k: K|
                refines(
                    #[trigger] final(self).waiting(Seq::empty(), k),
                    old(self).waiting(Seq::empty(), k),
                ),
            final(self).array->Internal_0.elements@.len() == old(
                self,
            ).array->Internal_0.elements@.len(),
            forall|x: int|
                0 <= x <= old(self).array->Internal_0.elements@.len() ==> (#[trigger] child_of(
                    *final(self).array->Internal_0.first_child,
                    final(self).array->Internal_0.elements@,
                    x,
                )).array == child_of(
                    *old(self).array->Internal_0.first_child,
                    old(self).array->Internal_0.elements@,
                    x,
                ).array,
            final(self).stock().len() + replaced == old(self).stock().len(),
            keys_of(final(self).array->Internal_0.elements@) == keys_of(
                old(self).array->Internal_0.elements@,
            ),
            exists|sorted: Seq<(K, V)>| #[trigger]
                pushed_down(
                    *old(self).array->Internal_0.first_child,
                    old(self).array->Internal_0.elements@,
                    old(self).buffer@,
                    old(self).buffer_is_sorted,
                    *final(self).array->Internal_0.first_child,
                    final(self).array->Internal_0.elements@,
                    sorted,
                ),
    {
        let ghost was = *self;
        let ghost first0 = *was.array->Internal_0.first_child;
        let ghost e0 = was.array->Internal_0.elements@;
        let ghost buf0 = was.buffer@;
        proof {
            lemma_internal(was, Seq::empty(), arbitrary(), lo, hi);
        }
        if self.buffer.len() > 0 {
            let mut pairs = drain_sorted(&mut self.buffer, self.buffer_is_sorted);
            let ghost sorted = pairs@;
            proof {
                lemma_same_runs_keys(sorted, buf0);
                assert forall|x: int| 0 <= x < keys_of(sorted).len() implies in_range(
                    #[trigger] keys_of(sorted)[x],
                    lo,
                    hi,
                ) by {
                    let y = choose|y: int|
                        0 <= y < buf0.len() && (#[trigger] buf0[y]).0 == sorted[x].0;
                    assert(in_range(keys_of(buf0)[y], lo, hi));
                }
            }
            let replaced = self.array.unwrap_internal_mut().push_down(
                &mut pairs,
                Ghost(lo),
                Ghost(hi),
            );
            proof {
                let ia = self.array->Internal_0;
                assert(self.buffer@ =~= Seq::<(K, V)>::empty());
                lemma_stock_internal(was);
                lemma_stock_internal(*self);
                lemma_internal(*self, Seq::empty(), arbitrary(), lo, hi);
                assert forall|k: K|
                    refines(
                        #[trigger] self.waiting(Seq::empty(), k),
                        was.waiting(Seq::empty(), k),
                    ) by {
                    lemma_internal(was, Seq::empty(), k, lo, hi);
                    lemma_internal(*self, Seq::empty(), k, lo, hi);
                    lemma_pushed_waiting(
                        first0,
                        e0,
                        buf0,
                        *ia.first_child,
                        ia.elements@,
                        sorted,
                        k,
                    );
                }
                assert forall|x: int| 0 <= x <= e0.len() implies (#[trigger] child_of(
                    *ia.first_child,
                    ia.elements@,
                    x,
                )).array == child_of(first0, e0, x).array by {}
                assert(keys_of(ia.elements@) =~= keys_of(e0));
                reveal(pushed_down);
                assert(pushed_down(
                    first0,
                    e0,
                    buf0,
                    was.buffer_is_sorted,
                    *ia.first_child,
                    ia.elements@,
                    sorted,
                ));
            }
            replaced
        } else {
            proof {
                reveal(pushed_down);
                assert(pushed_down(
                    first0,
                    e0,
                    buf0,
                    was.buffer_is_sorted,
                    first0,
                    e0,
                    Seq::<(K, V)>::empty(),
                ));
            }
            0
        }
    }

    /// Ends a search at the separator that has the key: its value moves into
    /// a box of its own.
    fn search_hit(
        &mut self,
        i: usize,
        key: &K,
        Ghost(lo): Ghost<Option<K>>,
        Ghost(hi): Ghost<Option<K>>,
    ) -> (r: (SearchResult, Vec<Branch<K, V>>))
        requires
            lawful_order::<K>(),
            old(self).wf(lo, hi),
            old(self).array is Internal,
            old(self).buffer@.len() == 0,
            i < old(self).array->Internal_0.elements@.len(),
            old(self).array->Internal_0.elements@[i as int].key == *key,
        ensures
            flushed(*old(self), *final(self), r.1@, *key, lo, hi),
            r.0 == outcome(*old(self), r.1@, *key),
            r.1@.len() == 0,
            final(self).buffer@.len() == 0,
            final(self).buffer_is_sorted == old(self).buffer_is_sorted,
            final(self).stock() == old(self).stock(),
            final(self).array is Internal,
            final(self).array->Internal_0.first_child == old(self).array->Internal_0.first_child,
            boxed_at(
                old(self).array->Internal_0.elements@,
                final(self).array->Internal_0.elements@,
                i as int,
            ),
    {
        let ghost was = *self;
        let ghost first1 = *was.array->Internal_0.first_child;
        let ghost e1 = was.array->Internal_0.elements@;
        proof {
            lemma_order_laws::<K>();
            lemma_internal(was, Seq::empty(), *key, lo, hi);
        }
        self.array.unwrap_internal_mut().elements[i].value.boxify();
        let new_branches: Vec<Branch<K, V>> = Vec::new();
        proof {
            let nb = new_branches@;
            let e2 = self.array->Internal_0.elements@;
            lemma_same_array(first1, e1, first1, e2, lo, hi);
            lemma_internal(*self, Seq::empty(), *key, lo, hi);
            assert forall|x: int| 0 <= x <= nb.len() implies (#[trigger] child_of(*self, nb, x)).wf(
                lower(keys_of(nb), x, lo),
                upper(keys_of(nb), x, hi),
            ) by {}
            assert forall|k: K| in_range(k, lo, hi) implies refines(
                #[trigger] waiting_in(*self, nb, Seq::empty(), k),
                was.waiting(Seq::empty(), k),
            ) by {
                lemma_spot(*self, nb, k);
                lemma_internal(*self, Seq::empty(), k, lo, hi);
                lemma_internal(was, Seq::empty(), k, lo, hi);
            }
            lemma_spot(*self, nb, *key);
            lemma_find_at(e1, i as int);
            lemma_found_waits(first1, e1, *key);
            lemma_found_waits(first1, e2, *key);
            lemma_spot(first1, e2, *key);
            lemma_stock_of_same(e1, e2);
        }
        (SearchResult::Found, new_branches)
    }

    /// Takes the branches that came up from child `i` into the array, and
    /// returns those that a split promoted.
    fn absorb(
        &mut self,
        child_branches: Vec<Branch<K, V>>,
        Ghost(i): Ghost<int>,
        Ghost(lo): Ghost<Option<K>>,
        Ghost(hi): Ghost<Option<K>>,
    ) -> (new_branches: Vec<Branch<K, V>>)
        requires
            lawful_order::<K>(),
            old(self).array is Internal,
            old(self).buffer@.len() == 0,
            old(self).array->Internal_0.elements@.len() <= B,
            0 <= i <= old(self).array->Internal_0.elements@.len(),
            strictly_ascending(keys_of(old(self).array->Internal_0.elements@)),
            strictly_ascending(keys_of(child_branches@)),
            merged(
                old(self).array->Internal_0.elements@,
                child_branches@,
                grafted(old(self).array->Internal_0.elements@, i, child_branches@),
            ),
            wf_in(
                *old(self).array->Internal_0.first_child,
                grafted(old(self).array->Internal_0.elements@, i, child_branches@),
                lo,
                hi,
            ),
        ensures
            final(self).array is Internal,
            final(self).buffer@.len() == 0,
            final(self).buffer_is_sorted == old(self).buffer_is_sorted,
            wf_in(*final(self), new_branches@, lo, hi),
            of_kind(*final(self), new_branches@),
            strictly_ascending(keys_of(new_branches@)),
            forall|j: int|
                0 <= j < new_branches@.len() ==> find(
                    grafted(old(self).array->Internal_0.elements@, i, child_branches@),
                    (#[trigger] new_branches@[j]).key,
                ) is Some,
            forall|k: K| #[trigger]
                waiting_in(*final(self), new_branches@, Seq::empty(), k) == waiting_in(
                    *old(self).array->Internal_0.first_child,
                    grafted(old(self).array->Internal_0.elements@, i, child_branches@),
                    Seq::empty(),
                    k,
                ),
            forall|k: K| #[trigger]
                settled_in(*final(self), new_branches@, k) == settled_in(
                    *old(self).array->Internal_0.first_child,
                    grafted(old(self).array->Internal_0.elements@, i, child_branches@),
                    k,
                ),
            final(self).array->Internal_0.first_child == old(self).array->Internal_0.first_child,
            flat::<K, V, Branch<K, V>>(final(self).array->Internal_0.elements@, new_branches@)
                == grafted(old(self).array->Internal_0.elements@, i, child_branches@),
            taken_up(
                old(self).array->Internal_0.elements@,
                i,
                child_branches@,
                final(self).array->Internal_0.elements@,
                new_branches@,
            ),
            forall|k: K| #[trigger]
                deep_spot(*final(self), new_branches@, k) == spot(
                    *old(self).array->Internal_0.first_child,
                    grafted(old(self).array->Internal_0.elements@, i, child_branches@),
                    k,
                ),
            stock_in(*final(self), new_branches@) == stock_in(
                *old(self).array->Internal_0.first_child,
                old(self).array->Internal_0.elements@,
            ).add(stock_of(child_branches@)),
    {
        let ghost e2 = self.array->Internal_0.elements@;
        let ghost cnb = child_branches@;
        let ghost g = grafted(e2, i, cnb);
        let ghost total: int;
        proof {
            lemma_strict_ascends(keys_of(cnb));
        }
        let new_branches = if child_branches.len() > 0 {
            proof {
                total = (e2.len() + cnb.len()) as int;
            }
            let promoted = self.array.unwrap_internal_mut().process_branches(child_branches);
            proof {
                lemma_merged_once(
                    flat::<K, V, Branch<K, V>>(self.array->Internal_0.elements@, promoted@),
                    g,
                );
            }
            promoted
        } else {
            proof {
                total = e2.len() as int;
                assert(crate::items::unfolded::<K, V, Branch<K, V>>(cnb) =~= Seq::<
                    Branch<K, V>,
                >::empty());
                assert(flat::<K, V, Branch<K, V>>(e2, cnb) =~= g);
                assert(crate::process::half() == 75);
            }
            child_branches
        };
        proof {
            reveal(taken_up);
            lemma_split_flushed(*self, new_branches@, total, lo, hi);
            lemma_internal_split(*self, new_branches@);
            lemma_stock_internal_split(*self, new_branches@);
            lemma_stock_graft(e2, i, cnb);
            assert(stock_in(*self, new_branches@) =~= stock_in(
                *old(self).array->Internal_0.first_child,
                e2,
            ).add(stock_of(cnb))) by {
                broadcast use vstd::multiset::group_multiset_axioms;

            }
        }
        new_branches
    }

    /// Searches a leaf for `key`: merges the buffer into the array, which
    /// may split it, and looks the key up in the part where it belongs.
    fn search_leaf(
        &mut self,
        key: &K,
        Ghost(lo): Ghost<Option<K>>,
        Ghost(hi): Ghost<Option<K>>,
    ) -> (r: (SearchResult, Vec<Branch<K, V>>, usize))
        requires
            lawful_order::<K>(),
            old(self).wf(lo, hi),
            old(self).array is Leaf,
            old(self).stock().len() <= usize::MAX,
        ensures
            flushed(*old(self), *final(self), r.1@, *key, lo, hi),
            r.0 == outcome(*old(self), r.1@, *key),
            strictly_ascending(keys_of(r.1@)),
            final(self).buffer@.len() == 0,
            final(self).buffer_is_sorted == old(self).buffer_is_sorted,
            leaf_filed(
                old(self).array->Leaf_0.elements@,
                old(self).buffer@,
                old(self).buffer_is_sorted,
                *final(self),
                r.1@,
            ),
            old(self).buffer@.len() == 0 ==> final(self).array == old(self).array,
            stock_in(*final(self), r.1@).len() + r.2 == old(self).stock().len(),
    {
        let ghost was = *self;
        let ghost held = was.array->Leaf_0.elements@;
        proof {
            lemma_order_laws::<K>();
        }
        if self.buffer.len() > 0 {
            let pairs = drain_sorted(&mut self.buffer, self.buffer_is_sorted);
            let ghost sorted = pairs@;
            let (new_branches, dropped) = self.array.unwrap_leaf_mut().process_buffer(pairs);
            let ghost nb = new_branches@;
            proof {
                lemma_leaf_flushed(was, *self, nb, sorted, *key, lo, hi);
                assert(leaf_merged(
                    was.array->Leaf_0.elements@,
                    was.buffer@,
                    was.buffer_is_sorted,
                    *self,
                    nb,
                    sorted,
                ));
                lemma_spot(*self, nb, *key);
                lemma_stock_leaf(was);
                lemma_stock_leaf_split(*self, nb);
                lemma_bag(
                    flat::<K, V, (K, V)>(self.array->Leaf_0.elements@, nb),
                    Seq::<(K, V)>::empty(),
                );
            }
            let result = match locate(&new_branches, key) {
                Ok(i) => {
                    proof {
                        lemma_find_at(nb, i as int);
                    }
                    SearchResult::HeadOfBranch
                },
                Err(i) => {
                    proof {
                        crate::seqs::lemma_find_none(nb, *key);
                    }
                    let found = if i == 0 {
                        proof {
                            lemma_leaf_waiting(*self, *key);
                            lemma_keyed_items(self.array->Leaf_0.elements@, *key);
                        }
                        locate(&self.array.unwrap_leaf().elements, key)
                    } else {
                        proof {
                            assert(<(K, V) as Item<K, V>>::shaped(nb[i - 1]));
                            lemma_leaf_waiting(*nb[i - 1].child, *key);
                            lemma_keyed_items(nb[i - 1].child.array->Leaf_0.elements@, *key);
                            assert(child_of(*self, nb, i as int).wf(
                                lower(keys_of(nb), i as int, lo),
                                upper(keys_of(nb), i as int, hi),
                            ));
                        }
                        locate(&new_branches[i - 1].child.array.unwrap_leaf().elements, key)
                    };
                    match found {
                        Ok(_) => SearchResult::Found,
                        Err(_) => SearchResult::Missing,
                    }
                },
            };
            (result, new_branches, dropped as usize)
        } else {
            let result = match locate(&self.array.unwrap_leaf().elements, key) {
                Ok(_) => SearchResult::Found,
                Err(_) => SearchResult::Missing,
            };
            let new_branches: Vec<Branch<K, V>> = Vec::new();
            proof {
                let nb = new_branches@;
                lemma_spot(was, nb, *key);
                lemma_leaf_waiting(was, *key);
                lemma_keyed_items(held, *key);
                assert forall|k: K| in_range(k, lo, hi) implies refines(
                    #[trigger] waiting_in(was, nb, Seq::empty(), k),
                    was.waiting(Seq::empty(), k),
                ) by {
                    lemma_spot(was, nb, k);
                }
                assert forall|i: int| 0 <= i <= nb.len() implies (#[trigger] child_of(was, nb, i)).wf(
                    lower(keys_of(nb), i, lo),
                    upper(keys_of(nb), i, hi),
                ) by {}
                lemma_stock_alone(was, nb);
            }
            (result, new_branches, 0)
        }
    }

    /// Searches the subtree for `key`, filing what waits on the way, and
    /// returns how the search ended together with the branches that this
    /// node could not keep.
    ///
    /// An internal node pushes its buffer down and looks for the key among
    /// its separators. Where one has it, the search ends there. Else it goes
    /// on in the child between the separators around the key; the branches
    /// that come up from there are taken into the array, and a key that came
    /// up as the head of one of them is looked for among the branches that
    /// go up from here.
    #[verifier::rlimit(30)]
    pub(crate) fn search(
        &mut self,
        key: &K,
        Ghost(lo): Ghost<Option<K>>,
        Ghost(hi): Ghost<Option<K>>,
    ) -> (r: (SearchResult, Vec<Branch<K, V>>, usize))
        requires
            lawful_order::<K>(),
            old(self).wf(lo, hi),
            in_range(*key, lo, hi),
            old(self).stock().len() <= usize::MAX,
        ensures
            flushed(*old(self), *final(self), r.1@, *key, lo, hi),
            r.0 == outcome(*old(self), r.1@, *key),
            strictly_ascending(keys_of(r.1@)),
            final(self).buffer@.len() == 0,
            final(self).buffer_is_sorted == old(self).buffer_is_sorted,
            old(self).array is Leaf ==> leaf_filed(
                old(self).array->Leaf_0.elements@,
                old(self).buffer@,
                old(self).buffer_is_sorted,
                *final(self),
                r.1@,
            ),
            old(self).array is Leaf && old(self).buffer@.len() == 0 ==> final(self).array == old(
                self,
            ).array,
            exists|way: Seq<Station<K, V>>| #[trigger]
                searched(
                    old(self).array,
                    old(self).buffer@,
                    old(self).buffer_is_sorted,
                    *final(self),
                    r.1@,
                    *key,
                    false,
                    way,
                ),
            stock_in(*final(self), r.1@).len() + r.2 == old(self).stock().len(),
        decreases old(self).array,
    {
        let ghost was = *self;
        match &self.array {
            Array::Leaf(_) => {
                let r = self.search_leaf(key, Ghost(lo), Ghost(hi));
                proof {
                    lemma_searched_leaf(
                        was.array,
                        was.buffer@,
                        was.buffer_is_sorted,
                        *self,
                        r.1@,
                        *key,
                        false,
                        Seq::empty(),
                    );
                    assert(searched(
                        was.array,
                        was.buffer@,
                        was.buffer_is_sorted,
                        *self,
                        r.1@,
                        *key,
                        false,
                        Seq::empty(),
                    ));
                }
                r
            },
            Array::Internal(_) => {
                let replaced = self.flush_down(Ghost(lo), Ghost(hi));
                let ghost mid = *self;
                let ghost first1 = *self.array->Internal_0.first_child;
                let ghost e1 = self.array->Internal_0.elements@;
                let ghost keys = keys_of(e1);
                let ghost sorted = choose|sorted: Seq<(K, V)>|
                    pushed_down(
                        *was.array->Internal_0.first_child,
                        was.array->Internal_0.elements@,
                        was.buffer@,
                        was.buffer_is_sorted,
                        first1,
                        e1,
                        sorted,
                    );
                proof {
                    lemma_order_laws::<K>();
                    lemma_internal(mid, Seq::empty(), *key, lo, hi);
                    lemma_strict_ascends(keys);
                    lemma_rank(keys, *key);
                    lemma_spot(first1, e1, *key);
                    assert(refines(
                        mid.waiting(Seq::empty(), *key),
                        was.waiting(Seq::empty(), *key),
                    ));
                }
                match locate(&self.array.unwrap_internal().elements, key) {
                    Ok(i) => {
                        let r = self.search_hit(i, key, Ghost(lo), Ghost(hi));
                        proof {
                            // Where the search ends at a separator, only what the
                            // push-down left counts of the station.
                            lemma_searched_hit(
                                was.array,
                                was.buffer@,
                                was.buffer_is_sorted,
                                *self,
                                r.1@,
                                *key,
                                Station {
                                    sorted,
                                    first: first1,
                                    branches: e1,
                                    child: first1,
                                    came_up: e1,
                                    around: e1,
                                },
                            );
                            lemma_stock_alone(*self, r.1@);
                            assert forall|k: K| in_range(k, lo, hi) implies refines(
                                #[trigger] waiting_in(*self, r.1@, Seq::empty(), k),
                                was.waiting(Seq::empty(), k),
                            ) by {
                                assert(refines(
                                    mid.waiting(Seq::empty(), k),
                                    was.waiting(Seq::empty(), k),
                                ));
                                lemma_refines_twice(
                                    waiting_in(*self, r.1@, Seq::empty(), k),
                                    mid.waiting(Seq::empty(), k),
                                    was.waiting(Seq::empty(), k),
                                );
                            }
                        }
                        let ghost nb = r.1@;
                        let ghost now = *self;
                        let out = (r.0, r.1, replaced);
                        assert(out.1@ == nb);
                        assert(searched(
                            was.array,
                            was.buffer@,
                            was.buffer_is_sorted,
                            now,
                            nb,
                            *key,
                            false,
                            seq![
                                Station {
                                    sorted,
                                    first: first1,
                                    branches: e1,
                                    child: first1,
                                    came_up: e1,
                                    around: e1,
                                },
                            ],
                        ));
                        out
                    },
                    Err(i) => {
                        let ghost clo = lower(keys, i as int, lo);
                        let ghost chi = upper(keys, i as int, hi);
                        let ghost c_old = child_of(first1, e1, i as int);
                        proof {
                            assert(c_old.wf(clo, chi));
                            if i < e1.len() {
                                assert(keys[i as int] == e1[i as int].key);
                            }
                            lemma_stock_internal(mid);
                            lemma_stock_has_child(first1, e1, i as int);
                        }
                        let (child_result, child_branches, child_dropped) = if i == 0 {
                            self.array.unwrap_internal_mut().first_child.search(
                                key,
                                Ghost(clo),
                                Ghost(chi),
                            )
                        } else {
                            self.array.unwrap_internal_mut().elements[i - 1].child.search(
                                key,
                                Ghost(clo),
                                Ghost(chi),
                            )
                        };
                        let ghost first2 = *self.array->Internal_0.first_child;
                        let ghost e2 = self.array->Internal_0.elements@;
                        let ghost cnb = child_branches@;
                        let ghost g = grafted(e2, i as int, cnb);
                        let ghost here = Station {
                            sorted,
                            first: first1,
                            branches: e1,
                            child: child_of(first2, e2, i as int),
                            came_up: cnb,
                            around: e2,
                        };
                        let ghost below = choose|below: Seq<Station<K, V>>|
                            searched(
                                c_old.array,
                                c_old.buffer@,
                                c_old.buffer_is_sorted,
                                here.child,
                                cnb,
                                *key,
                                false,
                                below,
                            );
                        proof {
                            if i > 0 {
                                assert(e2 =~= e1.update(i as int - 1, e2[i as int - 1]));
                            }
                            assert(child_set(first1, e1, first2, e2, i as int, here.child));
                            assert forall|x: int|
                                0 <= x <= e1.len() && x != i implies #[trigger] child_of(
                                first2,
                                e2,
                                x,
                            ) == child_of(first1, e1, x) by {}
                            lemma_grafted_flushed(
                                first1,
                                e1,
                                first2,
                                e2,
                                i as int,
                                cnb,
                                *key,
                                lo,
                                hi,
                            );
                            lemma_stock_child(first1, e1, first2, e2, i as int);
                        }
                        let new_branches = self.absorb(
                            child_branches,
                            Ghost(i as int),
                            Ghost(lo),
                            Ghost(hi),
                        );
                        let ghost nb = new_branches@;
                        proof {
                            assert forall|k: K| in_range(k, lo, hi) implies refines(
                                #[trigger] waiting_in(*self, nb, Seq::empty(), k),
                                was.waiting(Seq::empty(), k),
                            ) by {
                                lemma_internal(mid, Seq::empty(), k, lo, hi);
                                assert(refines(
                                    waiting_in(first2, g, Seq::empty(), k),
                                    waiting_in(first1, e1, Seq::empty(), k),
                                ));
                                assert(refines(
                                    mid.waiting(Seq::empty(), k),
                                    was.waiting(Seq::empty(), k),
                                ));
                                lemma_refines_twice(
                                    waiting_in(first2, g, Seq::empty(), k),
                                    waiting_in(first1, e1, Seq::empty(), k),
                                    was.waiting(Seq::empty(), k),
                                );
                            }
                            assert(settled_in(*self, nb, *key) == settled_in(first2, g, *key));
                            assert(refines(
                                waiting_in(first2, g, Seq::empty(), *key),
                                waiting_in(first1, e1, Seq::empty(), *key),
                            ));
                            lemma_refines_twice(
                                waiting_in(first2, g, Seq::empty(), *key),
                                waiting_in(first1, e1, Seq::empty(), *key),
                                was.waiting(Seq::empty(), *key),
                            );
                            lemma_found_waits(first2, g, *key);
                            lemma_find(nb, *key);
                            if let Some(b) = find(nb, *key) {
                                let j = choose|j: int| 0 <= j < nb.len() && nb[j] == b;
                                assert(find(g, nb[j].key) is Some);
                            }
                        }
                        proof {
                            lemma_searched_below(
                                was.array,
                                was.buffer@,
                                was.buffer_is_sorted,
                                *self,
                                nb,
                                *key,
                                false,
                                here,
                                below,
                            );
                        }
                        let result = match child_result {
                            SearchResult::HeadOfBranch => resolve_head(
                                self,
                                &new_branches,
                                key,
                                Ghost(lo),
                                Ghost(hi),
                            ),
                            other => other,
                        };
                        proof {
                            broadcast use vstd::multiset::group_multiset_axioms;

                        }
                        let ghost now = *self;
                        let out = (result, new_branches, replaced + child_dropped);
                        assert(out.1@ == nb);
                        assert(searched(
                            was.array,
                            was.buffer@,
                            was.buffer_is_sorted,
                            now,
                            nb,
                            *key,
                            false,
                            seq![here] + below,
                        ));
                        out
                    },
                }
            },
        }
    }
}

/// `now` and the branches `nb` are what a search for the place before `key`
/// made of `was`: as `flushed`, but nothing waits in a buffer on the way to
/// the place before `key`.
pub open(crate) spec fn flushed_before<K: Ord, V>(
    was: Node<K, V>,
    now: Node<K, V>,
    nb: Seq<Branch<K, V>>,
    key: K,
    lo: Option<K>,
    hi: Option<K>,
) -> bool {
    &&& wf_in(now, nb, lo, hi)
    &&& settled_before_in(now, nb, key)
    &&& forall|k: K|
        in_range(k, lo, hi) ==> refines(
            #[trigger] waiting_in(now, nb, Seq::empty(), k),
            was.waiting(Seq::empty(), k),
        )
    &&& now.is_leaf() == was.is_leaf()
    &&& of_kind(now, nb)
}

/// An array whose child `i` was searched, with the branches that came up
/// from that child standing in the array, is well formed and holds what it
/// held.
pub(crate) proof fn lemma_grafted_holds<K: Ord, V>(
    first1: Node<K, V>,
    e1: Seq<Branch<K, V>>,
    first2: Node<K, V>,
    e2: Seq<Branch<K, V>>,
    i: int,
    cnb: Seq<Branch<K, V>>,
    lo: Option<K>,
    hi: Option<K>,
)
    requires
        lawful_order::<K>(),
        wf_in(first1, e1, lo, hi),
        0 <= i <= e1.len(),
        e2.len() == e1.len(),
        forall|x: int|
            0 <= x < e1.len() ==> (#[trigger] e2[x]).key == e1[x].key && e2[x].value.value()
                == e1[x].value.value(),
        forall|x: int|
            0 <= x <= e1.len() && x != i ==> #[trigger] child_of(first2, e2, x) == child_of(
                first1,
                e1,
                x,
            ),
        wf_in(
            child_of(first2, e2, i),
            cnb,
            lower(keys_of(e1), i, lo),
            upper(keys_of(e1), i, hi),
        ),
        forall|k: K|
            in_range(k, lower(keys_of(e1), i, lo), upper(keys_of(e1), i, hi)) ==> refines(
                #[trigger] waiting_in(child_of(first2, e2, i), cnb, Seq::empty(), k),
                child_of(first1, e1, i).waiting(Seq::empty(), k),
            ),
    ensures
        wf_in(first2, grafted(e2, i, cnb), lo, hi),
        forall|k: K|
            in_range(k, lo, hi) ==> refines(
                #[trigger] waiting_in(first2, grafted(e2, i, cnb), Seq::empty(), k),
                waiting_in(first1, e1, Seq::empty(), k),
            ),
        strictly_ascending(keys_of(e2)),
        strictly_ascending(keys_of(cnb)),
        keys_of(e2) == keys_of(e1),
        merged(e2, cnb, grafted(e2, i, cnb)),
{
    lemma_order_laws::<K>();
    let keys = keys_of(e1);
    let g = grafted(e2, i, cnb);
    let c_old = child_of(first1, e1, i);
    let c_new = child_of(first2, e2, i);
    let clo = lower(keys, i, lo);
    let chi = upper(keys, i, hi);
    assert(keys_of(e2) =~= keys);
    assert forall|x: int| 0 <= x <= e2.len() && x != i implies (#[trigger] child_of(
        first2,
        e2,
        x,
    )).wf(lower(keys_of(e2), x, lo), upper(keys_of(e2), x, hi)) by {
        assert(child_of(first1, e1, x).wf(lower(keys, x, lo), upper(keys, x, hi)));
    }
    lemma_graft_wf(first2, e2, i, cnb, lo, hi);
    lemma_graft_merged(e2, i, cnb, lo, hi);
    lemma_strict_ascends(keys);
    assert forall|k: K| in_range(k, lo, hi) implies refines(
        #[trigger] waiting_in(first2, g, Seq::empty(), k),
        waiting_in(first1, e1, Seq::empty(), k),
    ) by {
        lemma_graft(first2, e2, i, cnb, lo, hi, k);
        lemma_spot(first2, g, k);
        lemma_spot(first1, e1, k);
        lemma_spot(c_new, cnb, k);
        lemma_rank(keys, k);
        let r = rank(keys, k);
        if r == i && !(i < e1.len() && e1[i].key == k) {
            assert(in_range(k, clo, chi));
            assert(refines(
                waiting_in(c_new, cnb, Seq::empty(), k),
                c_old.waiting(Seq::empty(), k),
            ));
        } else {
            if 0 <= r < keys.len() && keys[r] == k {
                assert(e2[r].value.value() == e1[r].value.value());
            } else {
                assert(child_of(first2, e2, r) == child_of(first1, e1, r));
            }
            assert(spot(first2, e2, k) == spot(first1, e1, k));
        }
    }
}

/// What holds of an internal node once the branches that came up from the
/// child on the way to the place before `key` have been taken in.
pub(crate) proof fn lemma_before_up<K: Ord, V>(
    was: Node<K, V>,
    mid: Node<K, V>,
    first2: Node<K, V>,
    e2: Seq<Branch<K, V>>,
    i: int,
    cnb: Seq<Branch<K, V>>,
    now: Node<K, V>,
    nb: Seq<Branch<K, V>>,
    key: K,
    lo: Option<K>,
    hi: Option<K>,
)
    requires
        lawful_order::<K>(),
        was.array is Internal,
        mid.array is Internal,
        mid.buffer@.len() == 0,
        forall|k: K| refines(#[trigger] mid.waiting(Seq::empty(), k), was.waiting(Seq::empty(), k)),
        0 <= i <= e2.len(),
        keys_of(e2) == keys_of(mid.array->Internal_0.elements@),
        rank(keys_of(e2), key) == i,
        strictly_ascending(keys_of(e2)),
        strictly_ascending(keys_of(cnb)),
        all_in_range(keys_of(cnb), lower(keys_of(e2), i, lo), upper(keys_of(e2), i, hi)),
        merged(e2, cnb, grafted(e2, i, cnb)),
        forall|k: K|
            in_range(k, lo, hi) ==> refines(
                #[trigger] waiting_in(first2, grafted(e2, i, cnb), Seq::empty(), k),
                waiting_in(
                    *mid.array->Internal_0.first_child,
                    mid.array->Internal_0.elements@,
                    Seq::empty(),
                    k,
                ),
            ),
        settled_before_in(child_of(first2, e2, i), cnb, key),
        now.array is Internal,
        now.buffer@.len() == 0,
        *now.array->Internal_0.first_child == first2,
        flat::<K, V, Branch<K, V>>(now.array->Internal_0.elements@, nb) == grafted(e2, i, cnb),
        wf_in(now, nb, lo, hi),
        of_kind(now, nb),
        forall|k: K| #[trigger]
            waiting_in(now, nb, Seq::empty(), k) == waiting_in(
                first2,
                grafted(e2, i, cnb),
                Seq::empty(),
                k,
            ),
    ensures
        flushed_before(was, now, nb, key, lo, hi),
{
    let g = grafted(e2, i, cnb);
    assert forall|k: K| in_range(k, lo, hi) implies refines(
        #[trigger] waiting_in(now, nb, Seq::empty(), k),
        was.waiting(Seq::empty(), k),
    ) by {
        lemma_internal(mid, Seq::empty(), k, lo, hi);
        assert(mid.buffer@ =~= Seq::<(K, V)>::empty());
        assert(refines(
            waiting_in(first2, g, Seq::empty(), k),
            waiting_in(
                *mid.array->Internal_0.first_child,
                mid.array->Internal_0.elements@,
                Seq::empty(),
                k,
            ),
        ));
        assert(refines(mid.waiting(Seq::empty(), k), was.waiting(Seq::empty(), k)));
        lemma_refines_twice(
            waiting_in(first2, g, Seq::empty(), k),
            mid.waiting(Seq::empty(), k),
            was.waiting(Seq::empty(), k),
        );
    }
    lemma_graft_route(first2, e2, i, cnb, lo, hi, key);
    lemma_internal_split_route(now, nb, key);
    let part = child_of(now, nb, rank(keys_of(nb), key));
    crate::seqs::lemma_rank_bounds(keys_of(part.array->Internal_0.elements@), key);
    assert(part.settled_before(key));
}

impl<K: Ord, V> Node<K, V> {
    /// Files what waits in a leaf.
    fn search_before_leaf(
        &mut self,
        key: &K,
        Ghost(lo): Ghost<Option<K>>,
        Ghost(hi): Ghost<Option<K>>,
    ) -> (r: (Vec<Branch<K, V>>, usize))
        requires
            lawful_order::<K>(),
            old(self).wf(lo, hi),
            old(self).array is Leaf,
            old(self).stock().len() <= usize::MAX,
        ensures
            flushed_before(*old(self), *final(self), r.0@, *key, lo, hi),
            strictly_ascending(keys_of(r.0@)),
            final(self).buffer@.len() == 0,
            final(self).buffer_is_sorted == old(self).buffer_is_sorted,
            leaf_filed(
                old(self).array->Leaf_0.elements@,
                old(self).buffer@,
                old(self).buffer_is_sorted,
                *final(self),
                r.0@,
            ),
            old(self).buffer@.len() == 0 ==> final(self).array == old(self).array,
            stock_in(*final(self), r.0@).len() + r.1 == old(self).stock().len(),
    {
        let (_, new_branches, dropped) = self.search_leaf(key, Ghost(lo), Ghost(hi));
        proof {
            crate::seqs::lemma_rank_bounds(keys_of(new_branches@), *key);
            let i = rank(keys_of(new_branches@), *key);
            if i > 0 {
                assert(<(K, V) as Item<K, V>>::shaped(new_branches@[i - 1]));
            }
        }
        (new_branches, dropped)
    }

    /// Takes the branches that came up from child `i`, which lies on the way
    /// to the place before `key`, into the array of `mid`, the node that
    /// `was` became when its buffer was pushed down. Returns the branches
    /// that a split promoted.
    fn absorb_before(
        &mut self,
        child_branches: Vec<Branch<K, V>>,
        key: &K,
        Ghost(i): Ghost<int>,
        Ghost(was): Ghost<Node<K, V>>,
        Ghost(mid): Ghost<Node<K, V>>,
        Ghost(here): Ghost<Station<K, V>>,
        Ghost(below): Ghost<Seq<Station<K, V>>>,
        Ghost(lo): Ghost<Option<K>>,
        Ghost(hi): Ghost<Option<K>>,
    ) -> (new_branches: Vec<Branch<K, V>>)
        requires
            lawful_order::<K>(),
            old(self).array is Internal,
            old(self).buffer@.len() == 0,
            old(self).buffer_is_sorted == was.buffer_is_sorted,
            old(self).array->Internal_0.elements@.len() <= B,
            0 <= i <= old(self).array->Internal_0.elements@.len(),
            strictly_ascending(keys_of(old(self).array->Internal_0.elements@)),
            strictly_ascending(keys_of(child_branches@)),
            merged(
                old(self).array->Internal_0.elements@,
                child_branches@,
                grafted(old(self).array->Internal_0.elements@, i, child_branches@),
            ),
            wf_in(
                *old(self).array->Internal_0.first_child,
                grafted(old(self).array->Internal_0.elements@, i, child_branches@),
                lo,
                hi,
            ),
            was.array is Internal,
            mid.array is Internal,
            mid.buffer@.len() == 0,
            forall|k: K|
                refines(#[trigger] mid.waiting(Seq::empty(), k), was.waiting(Seq::empty(), k)),
            keys_of(old(self).array->Internal_0.elements@) == keys_of(
                mid.array->Internal_0.elements@,
            ),
            rank(keys_of(old(self).array->Internal_0.elements@), *key) == i,
            all_in_range(
                keys_of(child_branches@),
                lower(keys_of(old(self).array->Internal_0.elements@), i, lo),
                upper(keys_of(old(self).array->Internal_0.elements@), i, hi),
            ),
            forall|k: K|
                in_range(k, lo, hi) ==> refines(
                    #[trigger] waiting_in(
                        *old(self).array->Internal_0.first_child,
                        grafted(old(self).array->Internal_0.elements@, i, child_branches@),
                        Seq::empty(),
                        k,
                    ),
                    waiting_in(
                        *mid.array->Internal_0.first_child,
                        mid.array->Internal_0.elements@,
                        Seq::empty(),
                        k,
                    ),
                ),
            settled_before_in(
                child_of(
                    *old(self).array->Internal_0.first_child,
                    old(self).array->Internal_0.elements@,
                    i,
                ),
                child_branches@,
                *key,
            ),
            pushed_down(
                *was.array->Internal_0.first_child,
                was.array->Internal_0.elements@,
                was.buffer@,
                was.buffer_is_sorted,
                here.first,
                here.branches,
                here.sorted,
            ),
            rank(keys_of(was.array->Internal_0.elements@), *key) == i,
            i <= was.array->Internal_0.elements@.len(),
            searched(
                child_of(here.first, here.branches, i).array,
                child_of(here.first, here.branches, i).buffer@,
                child_of(here.first, here.branches, i).buffer_is_sorted,
                here.child,
                here.came_up,
                *key,
                true,
                below,
            ),
            child_set(
                here.first,
                here.branches,
                *old(self).array->Internal_0.first_child,
                here.around,
                i,
                here.child,
            ),
            here.around == old(self).array->Internal_0.elements@,
            here.came_up == child_branches@,
        ensures
            flushed_before(was, *final(self), new_branches@, *key, lo, hi),
            strictly_ascending(keys_of(new_branches@)),
            final(self).buffer@.len() == 0,
            final(self).buffer_is_sorted == old(self).buffer_is_sorted,
            searched(
                was.array,
                was.buffer@,
                was.buffer_is_sorted,
                *final(self),
                new_branches@,
                *key,
                true,
                seq![here] + below,
            ),
            stock_in(*final(self), new_branches@) == stock_in(
                *old(self).array->Internal_0.first_child,
                old(self).array->Internal_0.elements@,
            ).add(stock_of(child_branches@)),
    {
        let ghost first2 = *self.array->Internal_0.first_child;
        let ghost e2 = self.array->Internal_0.elements@;
        let ghost cnb = child_branches@;
        let new_branches = self.absorb(child_branches, Ghost(i), Ghost(lo), Ghost(hi));
        proof {
            lemma_searched_below(
                was.array,
                was.buffer@,
                was.buffer_is_sorted,
                *self,
                new_branches@,
                *key,
                true,
                here,
                below,
            );
            lemma_before_up(was, mid, first2, e2, i, cnb, *self, new_branches@, *key, lo, hi);
        }
        new_branches
    }

    /// Files what waits on the way to the place before `key`: the way of a
    /// search for `key` that goes on, past a separator with that key, into
    /// the child before it. Returns the branches that this node could not
    /// keep.
    #[verifier::rlimit(30)]
    pub(crate) fn search_before(
        &mut self,
        key: &K,
        Ghost(lo): Ghost<Option<K>>,
        Ghost(hi): Ghost<Option<K>>,
    ) -> (r: (Vec<Branch<K, V>>, usize))
        requires
            lawful_order::<K>(),
            old(self).wf(lo, hi),
            lo matches Some(l) ==> below(l, *key),
            hi matches Some(h) ==> at_most(*key, h),
            old(self).stock().len() <= usize::MAX,
        ensures
            flushed_before(*old(self), *final(self), r.0@, *key, lo, hi),
            strictly_ascending(keys_of(r.0@)),
            final(self).buffer@.len() == 0,
            final(self).buffer_is_sorted == old(self).buffer_is_sorted,
            old(self).array is Leaf ==> leaf_filed(
                old(self).array->Leaf_0.elements@,
                old(self).buffer@,
                old(self).buffer_is_sorted,
                *final(self),
                r.0@,
            ),
            old(self).array is Leaf && old(self).buffer@.len() == 0 ==> final(self).array == old(
                self,
            ).array,
            exists|way: Seq<Station<K, V>>| #[trigger]
                searched(
                    old(self).array,
                    old(self).buffer@,
                    old(self).buffer_is_sorted,
                    *final(self),
                    r.0@,
                    *key,
                    true,
                    way,
                ),
            stock_in(*final(self), r.0@).len() + r.1 == old(self).stock().len(),
        decreases old(self).array,
    {
        let ghost was = *self;
        match &self.array {
            Array::Leaf(_) => {
                let r = self.search_before_leaf(key, Ghost(lo), Ghost(hi));
                proof {
                    lemma_searched_leaf(
                        was.array,
                        was.buffer@,
                        was.buffer_is_sorted,
                        *self,
                        r.0@,
                        *key,
                        true,
                        Seq::empty(),
                    );
                    assert(searched(
                        was.array,
                        was.buffer@,
                        was.buffer_is_sorted,
                        *self,
                        r.0@,
                        *key,
                        true,
                        Seq::empty(),
                    ));
                }
                r
            },
            Array::Internal(_) => {
                let replaced = self.flush_down(Ghost(lo), Ghost(hi));
                let ghost mid = *self;
                let ghost first1 = *self.array->Internal_0.first_child;
                let ghost e1 = self.array->Internal_0.elements@;
                let ghost keys = keys_of(e1);
                let ghost sorted = choose|sorted: Seq<(K, V)>|
                    pushed_down(
                        *was.array->Internal_0.first_child,
                        was.array->Internal_0.elements@,
                        was.buffer@,
                        was.buffer_is_sorted,
                        first1,
                        e1,
                        sorted,
                    );
                proof {
                    lemma_order_laws::<K>();
                    lemma_internal(mid, Seq::empty(), *key, lo, hi);
                    lemma_strict_ascends(keys);
                    lemma_rank(keys, *key);
                }
                let i = match locate(&self.array.unwrap_internal().elements, key) {
                    Ok(i) => i,
                    Err(i) => i,
                };
                let ghost clo = lower(keys, i as int, lo);
                let ghost chi = upper(keys, i as int, hi);
                proof {
                    assert(child_of(first1, e1, i as int).wf(clo, chi));
                    if i < e1.len() {
                        assert(keys[i as int] == e1[i as int].key);
                    }
                    lemma_stock_internal(mid);
                    lemma_stock_has_child(first1, e1, i as int);
                }
                let (child_branches, child_dropped) = if i == 0 {
                    self.array.unwrap_internal_mut().first_child.search_before(
                        key,
                        Ghost(clo),
                        Ghost(chi),
                    )
                } else {
                    self.array.unwrap_internal_mut().elements[i - 1].child.search_before(
                        key,
                        Ghost(clo),
                        Ghost(chi),
                    )
                };
                let ghost first2 = *self.array->Internal_0.first_child;
                let ghost e2 = self.array->Internal_0.elements@;
                let ghost cnb = child_branches@;
                let ghost c_old = child_of(first1, e1, i as int);
                let ghost here = Station {
                    sorted,
                    first: first1,
                    branches: e1,
                    child: child_of(first2, e2, i as int),
                    came_up: cnb,
                    around: e2,
                };
                let ghost below = choose|below: Seq<Station<K, V>>|
                    searched(
                        c_old.array,
                        c_old.buffer@,
                        c_old.buffer_is_sorted,
                        here.child,
                        cnb,
                        *key,
                        true,
                        below,
                    );
                proof {
                    if i > 0 {
                        assert(e2 =~= e1.update(i as int - 1, e2[i as int - 1]));
                    }
                    assert(child_set(first1, e1, first2, e2, i as int, here.child));
                    assert forall|x: int| 0 <= x <= e1.len() && x != i implies #[trigger] child_of(
                        first2,
                        e2,
                        x,
                    ) == child_of(first1, e1, x) by {}
                    lemma_grafted_holds(first1, e1, first2, e2, i as int, cnb, lo, hi);
                    lemma_stock_child(first1, e1, first2, e2, i as int);
                }
                let new_branches = self.absorb_before(
                    child_branches,
                    key,
                    Ghost(i as int),
                    Ghost(was),
                    Ghost(mid),
                    Ghost(here),
                    Ghost(below),
                    Ghost(lo),
                    Ghost(hi),
                );
                proof {
                    assert(searched(
                        was.array,
                        was.buffer@,
                        was.buffer_is_sorted,
                        *self,
                        new_branches@,
                        *key,
                        true,
                        seq![here] + below,
                    ));
                    assert(stock_in(*self, new_branches@).len() + (replaced + child_dropped)
                        == was.stock().len()) by {
                        broadcast use vstd::multiset::group_multiset_axioms;

                    }
                }
                let ghost nb = new_branches@;
                let ghost now = *self;
                let r = (new_branches, replaced + child_dropped);
                assert(r.0@ == nb);
                assert(*self == now);
                assert(searched(
                    was.array,
                    was.buffer@,
                    was.buffer_is_sorted,
                    now,
                    nb,
                    *key,
                    true,
                    seq![here] + below,
                ));
                r
            },
        }
    }
}

} // verus!
