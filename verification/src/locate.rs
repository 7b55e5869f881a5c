//! Finding a key among items in strictly ascending order.
use crate::order::{below, compare, lawful_order, lemma_order_laws, Rank};
use crate::seqs::{keys_of, lemma_rank_is, rank, strictly_ascending, Keyed};
use vstd::prelude::*;

verus! {

/// Searches `items` for `key` by bisection. `Ok` holds the position of the
/// item with that key; `Err` holds the position at which such an item would
/// have to be inserted. Either way the position is the rank of the key.
pub fn locate<K: Ord, I: Keyed<K>>(items: &Vec<I>, key: &K) -> (spot: Result<usize, usize>)
    requires
        lawful_order::<K>(),
        strictly_ascending(keys_of(items@)),
    ensures
        match spot {
            Ok(i) => i < items.len() && items[i as int].key_spec() == *key && i == rank(
                keys_of(items@),
                *key,
            ),
            Err(i) => {
                &&& i <= items.len()
                &&& i == rank(keys_of(items@), *key)
                &&& forall|j: int| 0 <= j < items.len() ==> (#[trigger] items[j]).key_spec() != *key
            },
        },
{
    proof {
        lemma_order_laws::<K>();
    }
    let ghost keys = keys_of(items@);
    let mut low: usize = 0;
    let mut high: usize = items.len();
    while low < high
        invariant
            lawful_order::<K>(),
            keys == keys_of(items@),
            strictly_ascending(keys),
            0 <= low <= high <= items.len(),
            forall|j: int| 0 <= j < low ==> below(#[trigger] keys[j], *key),
            forall|j: int| high <= j < items.len() ==> below(*key, #[trigger] keys[j]),
        decreases high - low,
    {
        let mid: usize = low + (high - low) / 2;
        match compare(items[mid].key(), key) {
            Rank::Before => {
                proof {
                    lemma_order_laws::<K>();
                    assert forall|j: int| 0 <= j < mid + 1 implies below(#[trigger] keys[j], *key) by {
                        if j < mid {
                            assert(below(keys[j], keys[mid as int]));
                        }
                    }
                }
                low = mid + 1;
            },
            Rank::Same => {
                proof {
                    lemma_order_laws::<K>();
                    assert forall|j: int| 0 <= j < mid implies below(#[trigger] keys[j], *key) by {
                        assert(below(keys[j], keys[mid as int]));
                    }
                    assert forall|j: int| mid <= j < keys.len() implies !below(
                        #[trigger] keys[j],
                        *key,
                    ) by {
                        if j > mid {
                            assert(below(keys[mid as int], keys[j]));
                        }
                    }
                    lemma_rank_is(keys, *key, mid as int);
                }
                return Ok(mid);
            },
            Rank::After => {
                proof {
                    lemma_order_laws::<K>();
                    assert forall|j: int| mid <= j < items.len() implies below(
                        *key,
                        #[trigger] keys[j],
                    ) by {
                        if j > mid {
                            assert(below(keys[mid as int], keys[j]));
                        }
                    }
                }
                high = mid;
            },
        }
    }
    proof {
        lemma_order_laws::<K>();
        assert forall|j: int| low <= j < keys.len() implies !below(#[trigger] keys[j], *key) by {
            assert(below(*key, keys[j]));
        }
        lemma_rank_is(keys, *key, low as int);
        assert forall|j: int| 0 <= j < items.len() implies (#[trigger] items[j]).key_spec()
            != *key by {
            assert(keys[j] == items[j].key_spec());
            if j < low {
                assert(below(keys[j], *key));
            } else {
                assert(below(*key, keys[j]));
            }
        }
    }
    Err(low)
}

} // verus!
