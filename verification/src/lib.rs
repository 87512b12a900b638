//! Merging adjacent elements of a sequence under a caller-supplied merge
//! operation: eager reduction of a whole sequence into one accumulator, and
//! lazy splitting of a sequence into its maximal runs of mergeable items.

use vstd::prelude::*;

pub mod iter;
pub mod model;
pub mod stream;
pub mod try_stream;

verus! {

/// An accumulator that can always absorb a right-hand value.
///
/// The merge is total and deterministic: `absorbed` names its result, and
/// both executable methods are bound to it.
pub trait Accumulable<Rhs = Self>: Sized {
    /// The accumulator that results from absorbing `rhs` into `self`.
    spec fn absorbed(self, rhs: Rhs) -> Self;

    /// Absorbs `rhs` in place.
    fn accumulate_from(&mut self, rhs: &Rhs)
        ensures
            *final(self) == old(self).absorbed(*rhs),
    ;

    /// Absorbs `rhs` and hands the accumulator back.
    #[inline]
    fn accumulate(self, rhs: &Rhs) -> (merged: Self)
        ensures
            merged == self.absorbed(*rhs),
    {
        let mut lhs = self;
        lhs.accumulate_from(rhs);
        lhs
    }
}

/// An accumulator that decides for each candidate whether to absorb it.
///
/// `accepts` is the policy that defines a run; `joined` names the accumulator
/// after an accepted candidate. A rejected candidate leaves the accumulator as
/// it was.
pub trait MaybeAccumulable<Rhs = Self>: Sized {
    /// Whether `self` takes `rhs` in.
    spec fn accepts(self, rhs: Rhs) -> bool;

    /// The accumulator after `rhs` was taken in.
    spec fn joined(self, rhs: Rhs) -> Self;

    /// Tries to absorb `rhs` in place and says whether it was taken in.
    fn maybe_accumulate_from(&mut self, rhs: &Rhs) -> (accepted: bool)
        ensures
            accepted == old(self).accepts(*rhs),
            accepted ==> *final(self) == old(self).joined(*rhs),
            !accepted ==> *final(self) == *old(self),
    ;

    /// Tries to absorb `rhs`: `Ok` with the grown accumulator where it was
    /// taken in, `Err` with the unchanged accumulator where it was not.
    #[inline]
    fn maybe_accumulate(self, rhs: &Rhs) -> (outcome: Result<Self, Self>)
        ensures
            self.accepts(*rhs) ==> outcome == Ok::<Self, Self>(self.joined(*rhs)),
            !self.accepts(*rhs) ==> outcome == Err::<Self, Self>(self),
    {
        let mut lhs = self;
        if lhs.maybe_accumulate_from(rhs) {
            Ok(lhs)
        } else {
            Err(lhs)
        }
    }
}

} // verus!
