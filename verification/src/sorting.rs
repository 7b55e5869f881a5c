//! Bringing a buffer into ascending order of its keys.
use crate::order::{key_ordering, lawful_order};
use crate::seqs::{ascending, keys_of, same_runs};
use std::collections::VecDeque;
use vstd::prelude::*;

verus! {

/// `<[T]>::sort_by`, called with the order of the keys. The standard library
/// documents it as a stable sort: afterwards the keys ascend, and pairs with
/// equal keys stand in the order in which they stood before. It may panic
/// where the comparison is no total order, which `lawful_order` excludes.
#[verifier::external_body]
pub(crate) fn sort_by_key<K: Ord, V>(pairs: &mut Vec<(K, V)>)
    requires
        lawful_order::<K>(),
    ensures
        ascending(keys_of(final(pairs)@)),
        same_runs(final(pairs)@, old(pairs)@),
        final(pairs)@.len() == old(pairs)@.len(),
{
    pairs.sort_by(|a, b| key_ordering(&a.0, &b.0));
}

/// Empties a buffer into a vector in ascending order of the keys. Pairs with
/// equal keys keep their order. `is_sorted` says that the buffer is in order
/// already, and then nothing is moved about.
pub(crate) fn drain_sorted<K: Ord, V>(buffer: &mut VecDeque<(K, V)>, is_sorted: bool) -> (pairs: Vec<
    (K, V),
>)
    requires
        lawful_order::<K>(),
        is_sorted ==> ascending(keys_of(old(buffer)@)),
    ensures
        final(buffer)@.len() == 0,
        ascending(keys_of(pairs@)),
        same_runs(pairs@, old(buffer)@),
        pairs@.len() == old(buffer)@.len(),
        is_sorted ==> pairs@ == old(buffer)@,
{
    let mut pairs: Vec<(K, V)> = Vec::new();
    loop
        invariant
            pairs@ + buffer@ == old(buffer)@,
        ensures
            buffer@.len() == 0,
        decreases buffer@.len(),
    {
        let ghost before = buffer@;
        let ghost held = pairs@;
        match buffer.pop_front() {
            Some(pair) => {
                pairs.push(pair);
                assert(pairs@ + buffer@ =~= held + before);
            },
            None => {
                break ;
            },
        }
    }
    assert(pairs@ =~= old(buffer)@);
    if !is_sorted {
        sort_by_key(&mut pairs);
    }
    pairs
}

} // verus!
