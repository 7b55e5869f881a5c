//! Reading the map.
//!
//! Every read first files what waits on the way to its key, so a read needs
//! the map for itself. It leaves every key bound as it was; of several values
//! that waited under a key on its way, only the bound one is left.
use crate::fetch::{lemma_rebound_buffer, lemma_rebound_same, rebound};
use crate::laws::law_read_empties_buffer;
use crate::map::{after_change, after_read, reads, BeeMap};
use crate::meaning::refines;
use crate::order::lawful_order;
use vstd::prelude::*;

verus! {

impl<K: Ord, V> BeeMap<K, V> {
    /// The value that `key` is bound to.
    pub fn get(&mut self, key: &K) -> (r: Option<&V>)
        requires
            lawful_order::<K>(),
            old(self).wf(),
        ensures
            final(self).wf(),
            final(self)@ == old(self)@,
            final(self).len_spec() <= old(self).len_spec(),
            old(self).reconciled() ==> final(self).len_spec() == old(self).len_spec(),
            r == (if old(self)@.contains_key(*key) {
                Some(&old(self)@[*key])
            } else {
                None
            }),
            forall|k: K| refines(#[trigger] final(self).waiting(k), old(self).waiting(k)),
            final(self).waiting(*key).len() <= 1,
            final(self).settled(*key),
            after_read(*old(self), *final(self), *key, false),
            final(self).buffered() == Seq::<(K, V)>::empty(),
            old(self).buffered_in_order() ==> final(self).buffered_in_order(),
            reads(
                *old(self),
                *final(self),
                *key,
                match r {
                    Some(v) => Some(*v),
                    None => None,
                },
            ),
    {
        match self.get_key_value(key) {
            Some((_, value)) => Some(value),
            None => None,
        }
    }

    /// The key, as the map holds it, and the value that it is bound to.
    pub fn get_key_value(&mut self, key: &K) -> (r: Option<(&K, &V)>)
        requires
            lawful_order::<K>(),
            old(self).wf(),
        ensures
            final(self).wf(),
            final(self)@ == old(self)@,
            final(self).len_spec() <= old(self).len_spec(),
            old(self).reconciled() ==> final(self).len_spec() == old(self).len_spec(),
            r == (if old(self)@.contains_key(*key) {
                Some((key, &old(self)@[*key]))
            } else {
                None
            }),
            forall|k: K| refines(#[trigger] final(self).waiting(k), old(self).waiting(k)),
            final(self).waiting(*key).len() <= 1,
            final(self).settled(*key),
            after_read(*old(self), *final(self), *key, false),
            final(self).buffered() == Seq::<(K, V)>::empty(),
            old(self).buffered_in_order() ==> final(self).buffered_in_order(),
    {
        let found = self.settle(key);
        proof {
            law_read_empties_buffer(*old(self), *self, *key, false);
            assert(refines(self.waiting(*key), old(self).waiting(*key)));
            assert(self@ =~= old(self)@) by {
                assert forall|k: K|
                    (self.waiting(k).len() > 0 <==> old(self).waiting(k).len() > 0) && (
                    self.waiting(k).len() > 0 ==> self.waiting(k).last() == old(self).waiting(
                        k,
                    ).last()) by {
                    assert(refines(self.waiting(k), old(self).waiting(k)));
                }
            }
        }
        if found {
            self.root.fetch(key, Ghost(None), Ghost(None))
        } else {
            None
        }
    }

    /// The value that `key` is bound to, to be changed in place.
    ///
    /// The map that is left once the caller is done with the value is the
    /// old map with `key` bound to what the caller left there.
    pub fn get_mut(&mut self, key: &K) -> (r: Option<&mut V>)
        requires
            lawful_order::<K>(),
            old(self).wf(),
        ensures
            final(self).wf(),
            final(self).len_spec() <= old(self).len_spec(),
            old(self).reconciled() ==> final(self).len_spec() == old(self).len_spec(),
            forall|k: K|
                k != *key ==> refines(#[trigger] final(self).waiting(k), old(self).waiting(k)),
            match r {
                Some(v) => {
                    &&& old(self)@.contains_key(*key)
                    &&& *v == old(self)@[*key]
                    &&& final(self).waiting(*key) == seq![*final(v)]
                    &&& final(self)@ == old(self)@.insert(*key, *final(v))
                },
                None => !old(self)@.contains_key(*key) && final(self)@ == old(self)@,
            },
            after_change(*old(self), *final(self), *key),
            final(self).buffered() == Seq::<(K, V)>::empty(),
            old(self).buffered_in_order() ==> final(self).buffered_in_order(),
    {
        match self.get_key_value_mut(key) {
            Some((_, value)) => Some(value),
            None => None,
        }
    }

    /// The key, as the map holds it, and the value that it is bound to, the
    /// value to be changed in place.
    pub fn get_key_value_mut(&mut self, key: &K) -> (r: Option<(&K, &mut V)>)
        requires
            lawful_order::<K>(),
            old(self).wf(),
        ensures
            final(self).wf(),
            final(self).len_spec() <= old(self).len_spec(),
            old(self).reconciled() ==> final(self).len_spec() == old(self).len_spec(),
            forall|k: K|
                k != *key ==> refines(#[trigger] final(self).waiting(k), old(self).waiting(k)),
            match r {
                Some((k, v)) => {
                    &&& *k == *key
                    &&& old(self)@.contains_key(*key)
                    &&& *v == old(self)@[*key]
                    &&& final(self).waiting(*key) == seq![*final(v)]
                    &&& final(self)@ == old(self)@.insert(*key, *final(v))
                },
                None => !old(self)@.contains_key(*key) && final(self)@ == old(self)@,
            },
            after_change(*old(self), *final(self), *key),
            final(self).buffered() == Seq::<(K, V)>::empty(),
            old(self).buffered_in_order() ==> final(self).buffered_in_order(),
    {
        let found = self.settle(key);
        let ghost mid = *self;
        proof {
            assert(refines(mid.waiting(*key), old(self).waiting(*key)));
            lemma_rebinding(*old(self), mid, *key);
            lemma_rebound_same(mid.root, *key);
            law_read_empties_buffer(*old(self), mid, *key, false);
            assert forall|now: BeeMap<K, V>|
                rebound(mid.root, now.root, *key) implies #[trigger] now.buffered()
                == mid.buffered() by {
                lemma_rebound_buffer(mid.root, now.root, *key);
            }
            assert forall|now: BeeMap<K, V>|
                rebound(mid.root, now.root, *key) implies #[trigger] now.buffered_in_order()
                == mid.buffered_in_order() by {
                lemma_rebound_buffer(mid.root, now.root, *key);
            }
            assert forall|now: BeeMap<K, V>|
                rebound(mid.root, now.root, *key) implies #[trigger] after_change(
                *old(self),
                now,
                *key,
            ) by {
                assert(after_read(*old(self), mid, *key, false));
            }
        }
        if found {
            self.root.fetch_mut(key, Ghost(None), Ghost(None))
        } else {
            None
        }
    }
}

/// A map that holds under every key but `key` what `mid` holds, and under
/// `key` one value or none, is the map of `was` with `key` bound to that
/// value, or the map of `was`, where `mid` holds what `was` held, or only
/// the last of it.
pub(crate) proof fn lemma_rebinding<K: Ord, V>(was: BeeMap<K, V>, mid: BeeMap<K, V>, key: K)
    requires
        forall|k: K| refines(#[trigger] mid.waiting(k), was.waiting(k)),
    ensures
        mid.waiting(key).len() > 0 ==> was@.contains_key(key) && was@[key] == mid.waiting(key)[
            mid.waiting(key).len() - 1
        ],
        forall|now: BeeMap<K, V>|
            (forall|j: K| j != key ==> #[trigger] now.waiting(j) == mid.waiting(j))
                && now.waiting(key).len() == 1 ==> #[trigger] now@ == was@.insert(
                key,
                now.waiting(key)[0],
            ),
        forall|now: BeeMap<K, V>|
            (forall|j: K| j != key ==> #[trigger] now.waiting(j) == mid.waiting(j))
                && now.waiting(key).len() == 0 && was.waiting(key).len() == 0 ==> #[trigger] now@
                == was@,
        forall|now: BeeMap<K, V>, k: K|
            (forall|j: K| j != key ==> #[trigger] now.waiting(j) == mid.waiting(j)) && k != key
                ==> refines(#[trigger] now.waiting(k), was.waiting(k)),
{
    assert(refines(mid.waiting(key), was.waiting(key)));
    assert forall|now: BeeMap<K, V>|
        (forall|j: K| j != key ==> #[trigger] now.waiting(j) == mid.waiting(j)) && now.waiting(
            key,
        ).len() == 1 implies #[trigger] now@ == was@.insert(key, now.waiting(key)[0]) by {
        assert forall|k: K|
            (now.waiting(k).len() > 0 <==> (k == key || was.waiting(k).len() > 0)) && (k != key
                && now.waiting(k).len() > 0 ==> now.waiting(k).last() == was.waiting(
                k,
            ).last()) by {
            if k != key {
                assert(now.waiting(k) == mid.waiting(k));
                assert(refines(mid.waiting(k), was.waiting(k)));
            }
        }
        assert(now@ =~= was@.insert(key, now.waiting(key)[0]));
    }
    assert forall|now: BeeMap<K, V>|
        (forall|j: K| j != key ==> #[trigger] now.waiting(j) == mid.waiting(j)) && now.waiting(
            key,
        ).len() == 0 && was.waiting(key).len() == 0 implies #[trigger] now@ == was@ by {
        assert forall|k: K|
            (now.waiting(k).len() > 0 <==> was.waiting(k).len() > 0) && (now.waiting(k).len() > 0
                ==> now.waiting(k).last() == was.waiting(k).last()) by {
            if k != key {
                assert(now.waiting(k) == mid.waiting(k));
                assert(refines(mid.waiting(k), was.waiting(k)));
            }
        }
        assert(now@ =~= was@);
    }
    assert forall|now: BeeMap<K, V>, k: K|
        (forall|j: K| j != key ==> #[trigger] now.waiting(j) == mid.waiting(j)) && k
            != key implies refines(#[trigger] now.waiting(k), was.waiting(k)) by {
        assert(now.waiting(k) == mid.waiting(k));
        assert(refines(mid.waiting(k), was.waiting(k)));
    }
}

} // verus!
