//! Handing the items of a vector out, in order and each exactly once.
//!
//! A `VecSlicer` empties a vector and then gives its items away from the
//! front: one at a time (`take`), or as a run (`slice`) that travels as a
//! `SliceThief` to wherever the run belongs. Ownership moves with every item,
//! so nothing is copied and nothing is given out twice.
use std::collections::VecDeque;
use vstd::prelude::*;

verus! {

/// A cursor over the items that were taken out of a vector.
///
/// Positions count from the front of the vector that was emptied. The items before
/// `start()` have been handed out; those from `start()` up to `cursor()` form
/// the run that the next `slice` hands out.
pub struct VecSlicer<T> {
    slice_start: usize,
    current_index: usize,
    items: VecDeque<T>,
}

/// A run of items on its way to a new owner.
///
/// It yields its items from the front (`next`) or from the back
/// (`next_back`); `cursor()` counts those yielded from the front and
/// `len_spec()` is the position after the last item not yet yielded from the
/// back.
pub struct SliceThief<T> {
    items: VecDeque<T>,
    current: usize,
    len: usize,
}

impl<T> VecSlicer<T> {
    /// The items not handed out yet, the one at position `start()` first.
    pub closed spec fn pending(&self) -> Seq<T> {
        self.items@
    }

    /// The position of the first item not handed out yet.
    pub closed spec fn start(&self) -> nat {
        self.slice_start as nat
    }

    /// The position up to which the next run reaches.
    pub closed spec fn cursor(&self) -> nat {
        self.current_index as nat
    }

    /// The cursor lies within the items that are left.
    pub open spec fn wf(&self) -> bool {
        &&& self.start() <= self.cursor()
        &&& self.cursor() - self.start() <= self.pending().len()
        &&& self.start() + self.pending().len() <= usize::MAX
    }

    /// Empties `vec` and starts at its first item.
    pub fn new(vec: &mut Vec<T>) -> (s: Self)
        ensures
            s.wf(),
            s.pending() == old(vec)@,
            s.start() == 0,
            s.cursor() == 0,
            final(vec)@ == Seq::<T>::empty(),
    {
        let mut items: VecDeque<T> = VecDeque::new();
        assert(vec.len() == vec@.len());
        while vec.len() > 0
            invariant
                vec@ + items@ == old(vec)@,
                old(vec)@.len() <= usize::MAX,
            decreases vec.len(),
        {
            let ghost before = vec@;
            let x = vec.pop().unwrap();
            items.push_front(x);
            assert(vec@ + items@ =~= before + items@.drop_first());
        }
        assert(items@ =~= old(vec)@);
        assert(vec@ =~= Seq::<T>::empty());
        VecSlicer { slice_start: 0, current_index: 0, items }
    }

    /// Moves the cursor `count` items on.
    pub fn advance(&mut self, count: usize)
        requires
            old(self).wf(),
            old(self).cursor() + count <= old(self).start() + old(self).pending().len(),
        ensures
            final(self).wf(),
            final(self).cursor() == old(self).cursor() + count,
            final(self).start() == old(self).start(),
            final(self).pending() == old(self).pending(),
    {
        self.current_index += count;
    }

    /// Hands out the run from `start()` to `cursor()`, and starts the next run
    /// at the cursor.
    pub fn slice(&mut self) -> (thief: SliceThief<T>)
        requires
            old(self).wf(),
        ensures
            final(self).wf(),
            thief.wf(),
            thief.items() == old(self).pending().subrange(
                0,
                old(self).cursor() - old(self).start(),
            ),
            thief.cursor() == 0,
            thief.len_spec() == old(self).cursor() - old(self).start(),
            final(self).pending() == old(self).pending().subrange(
                old(self).cursor() - old(self).start(),
                old(self).pending().len() as int,
            ),
            final(self).start() == old(self).cursor(),
            final(self).cursor() == old(self).cursor(),
    {
        let count: usize = self.current_index - self.slice_start;
        let mut run: VecDeque<T> = VecDeque::new();
        let mut moved: usize = 0;
        while moved < count
            invariant
                moved <= count,
                count <= old(self).items@.len(),
                run@ == old(self).items@.subrange(0, moved as int),
                self.items@ == old(self).items@.subrange(moved as int, old(self).items@.len() as int),
                self.slice_start == old(self).slice_start,
                self.current_index == old(self).current_index,
            decreases count - moved,
        {
            let x = self.items.pop_front().unwrap();
            run.push_back(x);
            moved += 1;
            assert(run@ =~= old(self).items@.subrange(0, moved as int));
            assert(self.items@ =~= old(self).items@.subrange(
                moved as int,
                old(self).items@.len() as int,
            ));
        }
        self.slice_start = self.current_index;
        SliceThief { items: run, current: 0, len: count }
    }

    /// Hands out the item at the cursor. The run before it must have been
    /// handed out already.
    pub fn take(&mut self) -> (item: T)
        requires
            old(self).wf(),
            old(self).start() == old(self).cursor(),
            old(self).pending().len() > 0,
        ensures
            final(self).wf(),
            item == old(self).pending()[0],
            final(self).pending() == old(self).pending().drop_first(),
            final(self).start() == old(self).start() + 1,
            final(self).cursor() == old(self).cursor() + 1,
    {
        let item = self.items.pop_front().unwrap();
        self.slice_start += 1;
        self.current_index = self.slice_start;
        assert(self.items@ =~= old(self).items@.drop_first());
        item
    }

    /// The number of items from the cursor to the end.
    pub fn remaining(&self) -> (n: usize)
        requires
            self.wf(),
        ensures
            n == self.start() + self.pending().len() - self.cursor(),
    {
        self.items.len() - (self.current_index - self.slice_start)
    }

    /// The item at the cursor.
    pub fn current(&self) -> (item: &T)
        requires
            self.wf(),
            self.cursor() < self.start() + self.pending().len(),
        ensures
            *item == self.pending()[self.cursor() - self.start()],
    {
        &self.items[self.current_index - self.slice_start]
    }

    /// Hands out everything that is left as one run.
    pub fn slice_to_end(&mut self) -> (thief: SliceThief<T>)
        requires
            old(self).wf(),
        ensures
            final(self).wf(),
            thief.wf(),
            thief.items() == old(self).pending(),
            thief.cursor() == 0,
            thief.len_spec() == old(self).pending().len(),
            final(self).pending() == Seq::<T>::empty(),
            final(self).start() == old(self).start() + old(self).pending().len(),
            final(self).cursor() == final(self).start(),
    {
        self.current_index = self.slice_start + self.items.len();
        let thief = self.slice();
        assert(thief.items() =~= old(self).pending());
        assert(self.pending() =~= Seq::<T>::empty());
        thief
    }
}

impl<T> SliceThief<T> {
    /// The items not yielded yet, in order.
    pub closed spec fn items(&self) -> Seq<T> {
        self.items@
    }

    /// The number of items yielded from the front.
    pub closed spec fn cursor(&self) -> nat {
        self.current as nat
    }

    /// The length of the run, less the items yielded from the back.
    pub closed spec fn len_spec(&self) -> nat {
        self.len as nat
    }

    /// The counters agree with the items that are left.
    pub open spec fn wf(&self) -> bool {
        &&& self.cursor() <= self.len_spec()
        &&& self.items().len() == self.len_spec() - self.cursor()
    }

    /// The length of the run, less the items yielded from the back.
    pub fn len(&self) -> (n: usize)
        ensures
            n == self.len_spec(),
    {
        self.len
    }

    /// The first item of a run of which nothing was yielded from the front.
    pub fn peek_first(&self) -> (item: &T)
        requires
            self.wf(),
            self.len_spec() != 0,
            self.cursor() == 0,
        ensures
            *item == self.items()[0],
    {
        &self.items[0]
    }

    /// The last item of a run that is not used up.
    pub fn peek_last(&self) -> (item: &T)
        requires
            self.wf(),
            self.len_spec() != 0,
            self.cursor() != self.len_spec(),
        ensures
            *item == self.items().last(),
    {
        &self.items[self.len - 1 - self.current]
    }

    /// Yields the next item from the front, if one is left.
    pub fn next(&mut self) -> (item: Option<T>)
        requires
            old(self).wf(),
        ensures
            final(self).wf(),
            final(self).len_spec() == old(self).len_spec(),
            old(self).items().len() == 0 ==> item.is_none() && *final(self) == *old(self),
            old(self).items().len() > 0 ==> {
                &&& item == Some(old(self).items()[0])
                &&& final(self).items() == old(self).items().drop_first()
                &&& final(self).cursor() == old(self).cursor() + 1
            },
    {
        if self.current < self.len {
            let item = self.items.pop_front();
            self.current += 1;
            assert(self.items@ =~= old(self).items@.drop_first());
            item
        } else {
            None
        }
    }

    /// Yields the next item from the back, if one is left.
    pub fn next_back(&mut self) -> (item: Option<T>)
        requires
            old(self).wf(),
        ensures
            final(self).wf(),
            final(self).cursor() == old(self).cursor(),
            old(self).items().len() == 0 ==> item.is_none() && *final(self) == *old(self),
            old(self).items().len() > 0 ==> {
                &&& item == Some(old(self).items().last())
                &&& final(self).items() == old(self).items().drop_last()
                &&& final(self).len_spec() == old(self).len_spec() - 1
            },
    {
        if self.current < self.len {
            self.len -= 1;
            let item = self.items.pop_back();
            assert(self.items@ =~= old(self).items@.drop_last());
            item
        } else {
            None
        }
    }
}

} // verus!
