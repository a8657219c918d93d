use vstd::prelude::*;

mod npeekable;

pub use npeekable::NPeekable;

verus! {

/// Adapters that any iterator gains.
pub trait IteratorExtensions<I: Iterator> {
    /// Wraps the iterator so that up to `N` of its items can be looked at
    /// before they are taken.
    fn n_peekable<const N: usize>(self) -> (r: NPeekable<I, N>)
        ensures
            r.wf(),
            r.peeked() == Seq::<I::Item>::empty(),
    ;
}

impl<I: Iterator> IteratorExtensions<I> for I {
    fn n_peekable<const N: usize>(self) -> (r: NPeekable<I, N>)
        ensures
            r.inner() == self,
    {
        NPeekable::from(self)
    }
}

} // verus!
