//! Reading a value slot, and moving its value into a box of its own.
use crate::node::MaybeBox;
use vstd::prelude::*;

verus! {

/// `replace_with::replace_with_or_abort` takes the value out of `dest`, hands
/// it to `f` and puts what `f` returns in its place; it aborts the process if
/// `f` panics. So `f` is called once, on the old value, and `dest` ends up
/// with a result of that call.
pub assume_specification<T, F: FnOnce(T) -> T>[ replace_with::replace_with_or_abort::<T, F> ](
    dest: &mut T,
    f: F,
)
    requires
        f.requires((*old(dest),)),
    ensures
        f.ensures((*old(dest),), *final(dest)),
;

impl<V> MaybeBox<V> {
    /// The same value in a box of its own.
    pub open spec fn boxed(self) -> Self {
        MaybeBox::Boxed(Box::new(self.value()))
    }

    /// Moves the value into a box unless it is in one.
    pub fn into_boxed(self) -> (r: Self)
        ensures
            r == self.boxed(),
    {
        match self {
            MaybeBox::Inline(v) => MaybeBox::Boxed(Box::new(v)),
            mb => mb,
        }
    }

    /// Gives the value a box of its own, in place, unless it has one.
    pub fn boxify(&mut self)
        ensures
            *final(self) == old(self).boxed(),
    {
        replace_with::replace_with_or_abort(self, Self::into_boxed);
    }

    /// The value.
    pub fn get(&self) -> (v: &V)
        ensures
            *v == self.value(),
    {
        match self {
            MaybeBox::Boxed(b) => &**b,
            MaybeBox::Inline(v) => v,
        }
    }

    /// The value, to be changed in place.
    pub fn get_mut(&mut self) -> (v: &mut V)
        ensures
            *v == old(self).value(),
            final(self).value() == *final(v),
            *final(self) is Inline <==> *old(self) is Inline,
    {
        match self {
            MaybeBox::Boxed(b) => &mut **b,
            MaybeBox::Inline(v) => v,
        }
    }
}

} // verus!
