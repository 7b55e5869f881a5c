//! Arrivals at a node's buffer.
//!
//! A buffer keeps a flag that says that it is in ascending order. A pair or a
//! run that is no greater than the front goes in front, anything else goes
//! behind, and the flag falls where that breaks the order.
use crate::node::{joined, joined_sorted, Array, LeafArray, Node};
use crate::order::{at_most, is_at_most, is_below, lawful_order, lemma_order_laws};
use crate::seqs::{all_at_most, all_in_range, ascending, in_range, keys_of};
use crate::vec_slicer::SliceThief;
use std::collections::VecDeque;
use vstd::prelude::*;

verus! {

impl<K: Ord, V> Node<K, V> {
    /// A leaf that holds nothing.
    pub(crate) fn empty_leaf() -> (node: Self)
        ensures
            node.is_leaf(),
            node.buffer@.len() == 0,
            node.buffer_is_sorted,
            node.array->Leaf_0.elements@.len() == 0,
            forall|lo: Option<K>, hi: Option<K>| node.wf(lo, hi),
    {
        Node {
            buffer: VecDeque::new(),
            buffer_is_sorted: true,
            array: Array::Leaf(LeafArray { elements: Vec::new() }),
        }
    }

    /// Puts a pair into the buffer: in front where the buffer is in order and
    /// its front is no smaller than the key, else behind.
    pub(crate) fn insert(&mut self, key: K, value: V)
        requires
            lawful_order::<K>(),
            old(self).wf(None, None),
        ensures
            final(self).wf(None, None),
            final(self).array == old(self).array,
            final(self).buffer@ == joined(
                old(self).buffer@,
                old(self).buffer_is_sorted,
                seq![(key, value)],
            ),
            final(self).buffer_is_sorted == joined_sorted(
                old(self).buffer@,
                old(self).buffer_is_sorted,
                seq![(key, value)],
            ),
    {
        proof {
            lemma_order_laws::<K>();
        }
        let ghost buf = self.buffer@;
        let ghost inc = seq![(key, value)];
        assert(keys_of(inc)[0] == key);
        if self.buffer_is_sorted && self.buffer.len() > 0 {
            if is_at_most(&key, &self.buffer[0].0) {
                proof {
                    assert forall|i: int, j: int|
                        0 <= i < keys_of(inc).len() && 0 <= j < keys_of(buf).len() implies at_most(
                        #[trigger] keys_of(inc)[i],
                        #[trigger] keys_of(buf)[j],
                    ) by {
                        if j > 0 {
                            assert(at_most(keys_of(buf)[0], keys_of(buf)[j]));
                        }
                    }
                }
                self.buffer.push_front((key, value));
                proof {
                    assert(self.buffer@ =~= inc + buf);
                    lemma_joined_wf(buf, true, inc, None, None);
                }
                return ;
            } else {
                assert(!at_most(keys_of(inc)[0], keys_of(buf)[0]));
                let back = &self.buffer[self.buffer.len() - 1].0;
                if is_below(&key, back) {
                    assert(!at_most(keys_of(buf)[buf.len() - 1], keys_of(inc)[0]));
                    self.buffer_is_sorted = false;
                } else {
                    assert forall|i: int, j: int|
                        0 <= i < keys_of(buf).len() && 0 <= j < keys_of(inc).len() implies at_most(
                        #[trigger] keys_of(buf)[i],
                        #[trigger] keys_of(inc)[j],
                    ) by {
                        if i < buf.len() - 1 {
                            assert(at_most(keys_of(buf)[i], keys_of(buf)[buf.len() - 1]));
                        }
                    }
                }
            }
        }
        self.buffer.push_back((key, value));
        proof {
            assert(self.buffer@ =~= buf + inc);
            lemma_joined_wf(buf, old(self).buffer_is_sorted, inc, None, None);
        }
    }

    /// Lets a run arrive at the buffer. A run that is in order goes in front
    /// where the buffer is in order and its front is no smaller than the
    /// run's last key; anything else goes behind.
    pub(crate) fn append(
        &mut self,
        thief: SliceThief<(K, V)>,
        is_sorted: bool,
        Ghost(lo): Ghost<Option<K>>,
        Ghost(hi): Ghost<Option<K>>,
    )
        requires
            lawful_order::<K>(),
            old(self).wf(lo, hi),
            thief.wf(),
            thief.cursor() == 0,
            thief.items().len() > 0,
            is_sorted ==> ascending(keys_of(thief.items())),
            all_in_range(keys_of(thief.items()), lo, hi),
        ensures
            final(self).wf(lo, hi),
            final(self).array == old(self).array,
            final(self).buffer@ == joined(
                old(self).buffer@,
                is_sorted && old(self).buffer_is_sorted,
                thief.items(),
            ),
            final(self).buffer_is_sorted == (is_sorted && joined_sorted(
                old(self).buffer@,
                old(self).buffer_is_sorted,
                thief.items(),
            )),
    {
        proof {
            lemma_order_laws::<K>();
        }
        let mut thief = thief;
        let ghost buf = self.buffer@;
        let ghost inc = thief.items();
        let ghost flag = old(self).buffer_is_sorted;
        self.buffer.reserve(thief.len());
        if is_sorted && self.buffer_is_sorted && self.buffer.len() > 0 {
            let in_front = is_at_most(&thief.peek_last().0, &self.buffer[0].0);
            if in_front {
                proof {
                    assert forall|i: int, j: int|
                        0 <= i < keys_of(inc).len() && 0 <= j < keys_of(buf).len() implies at_most(
                        #[trigger] keys_of(inc)[i],
                        #[trigger] keys_of(buf)[j],
                    ) by {
                        assert(at_most(keys_of(inc)[inc.len() - 1], keys_of(buf)[0]));
                        if i < inc.len() - 1 {
                            assert(at_most(keys_of(inc)[i], keys_of(inc)[inc.len() - 1]));
                        }
                        if j > 0 {
                            assert(at_most(keys_of(buf)[0], keys_of(buf)[j]));
                        }
                    }
                }
                loop
                    invariant
                        thief.wf(),
                        self.array == old(self).array,
                        self.buffer_is_sorted == flag,
                        thief.items() + self.buffer@ == inc + buf,
                    ensures
                        thief.items().len() == 0,
                    decreases thief.items().len(),
                {
                    let ghost before = thief.items();
                    let ghost held = self.buffer@;
                    match thief.next_back() {
                        Some(item) => {
                            self.buffer.push_front(item);
                            assert(thief.items() + self.buffer@ =~= before + held);
                        },
                        None => {
                            break ;
                        },
                    }
                }
                proof {
                    assert(self.buffer@ =~= inc + buf);
                    lemma_joined_wf(buf, true, inc, lo, hi);
                }
                return ;
            } else {
                assert(!at_most(keys_of(inc)[inc.len() - 1], keys_of(buf)[0]));
                let disorder = is_below(
                    &thief.peek_first().0,
                    &self.buffer[self.buffer.len() - 1].0,
                );
                if disorder {
                    assert(!at_most(keys_of(buf)[buf.len() - 1], keys_of(inc)[0]));
                    self.buffer_is_sorted = false;
                } else {
                    assert forall|i: int, j: int|
                        0 <= i < keys_of(buf).len() && 0 <= j < keys_of(inc).len() implies at_most(
                        #[trigger] keys_of(buf)[i],
                        #[trigger] keys_of(inc)[j],
                    ) by {
                        assert(at_most(keys_of(buf)[buf.len() - 1], keys_of(inc)[0]));
                        if i < buf.len() - 1 {
                            assert(at_most(keys_of(buf)[i], keys_of(buf)[buf.len() - 1]));
                        }
                        if j > 0 {
                            assert(at_most(keys_of(inc)[0], keys_of(inc)[j]));
                        }
                    }
                }
            }
        } else {
            self.buffer_is_sorted = is_sorted && self.buffer_is_sorted;
        }
        let ghost flag_after = self.buffer_is_sorted;
        loop
            invariant
                thief.wf(),
                self.array == old(self).array,
                self.buffer_is_sorted == flag_after,
                self.buffer@ + thief.items() == buf + inc,
            ensures
                thief.items().len() == 0,
            decreases thief.items().len(),
        {
            let ghost before = thief.items();
            let ghost held = self.buffer@;
            match thief.next() {
                Some(item) => {
                    self.buffer.push_back(item);
                    assert(self.buffer@ + thief.items() =~= held + before);
                },
                None => {
                    break ;
                },
            }
        }
        proof {
            assert(self.buffer@ =~= buf + inc);
            lemma_joined_wf(buf, is_sorted && flag, inc, lo, hi);
        }
    }
}

/// A buffer that a run has joined holds keys within the bounds of both, and
/// is in order where `joined_sorted` says so.
pub(crate) proof fn lemma_joined_wf<K: Ord, V>(
    buf: Seq<(K, V)>,
    sorted: bool,
    inc: Seq<(K, V)>,
    lo: Option<K>,
    hi: Option<K>,
)
    requires
        lawful_order::<K>(),
        all_in_range(keys_of(buf), lo, hi),
        all_in_range(keys_of(inc), lo, hi),
        sorted ==> ascending(keys_of(buf)) && ascending(keys_of(inc)),
    ensures
        all_in_range(keys_of(joined(buf, sorted, inc)), lo, hi),
        sorted && joined_sorted(buf, sorted, inc) ==> ascending(keys_of(joined(buf, sorted, inc))),
{
    lemma_order_laws::<K>();
    let out = joined(buf, sorted, inc);
    if inc.len() == 0 {
    } else if sorted && buf.len() > 0 && all_at_most(keys_of(inc), keys_of(buf)) {
        assert forall|i: int| 0 <= i < keys_of(out).len() implies in_range(
            #[trigger] keys_of(out)[i],
            lo,
            hi,
        ) by {
            if i < inc.len() {
                assert(keys_of(out)[i] == keys_of(inc)[i]);
            } else {
                assert(keys_of(out)[i] == keys_of(buf)[i - inc.len()]);
            }
        }
        assert forall|i: int, j: int| 0 <= i < j < keys_of(out).len() implies at_most(
            #[trigger] keys_of(out)[i],
            #[trigger] keys_of(out)[j],
        ) by {
            if j < inc.len() {
                assert(at_most(keys_of(inc)[i], keys_of(inc)[j]));
            } else if i < inc.len() {
                assert(at_most(keys_of(inc)[i], keys_of(buf)[j - inc.len()]));
            } else {
                assert(at_most(keys_of(buf)[i - inc.len()], keys_of(buf)[j - inc.len()]));
            }
        }
    } else {
        assert forall|i: int| 0 <= i < keys_of(out).len() implies in_range(
            #[trigger] keys_of(out)[i],
            lo,
            hi,
        ) by {
            if i < buf.len() {
                assert(keys_of(out)[i] == keys_of(buf)[i]);
            } else {
                assert(keys_of(out)[i] == keys_of(inc)[i - buf.len()]);
            }
        }
        if sorted && joined_sorted(buf, sorted, inc) {
            if buf.len() == 0 {
                assert(out =~= inc);
            } else {
                assert(all_at_most(keys_of(buf), keys_of(inc)));
                assert forall|i: int, j: int| 0 <= i < j < keys_of(out).len() implies at_most(
                    #[trigger] keys_of(out)[i],
                    #[trigger] keys_of(out)[j],
                ) by {
                    if j < buf.len() {
                        assert(at_most(keys_of(buf)[i], keys_of(buf)[j]));
                    } else if i < buf.len() {
                        assert(at_most(keys_of(buf)[i], keys_of(inc)[j - buf.len()]));
                    } else {
                        assert(at_most(keys_of(inc)[i - buf.len()], keys_of(inc)[j - buf.len()]));
                    }
                }
            }
        }
    }
}

} // verus!
