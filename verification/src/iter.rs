//! Merging over a synchronous source: an iterator.

use vstd::prelude::*;
use vstd::std_specs::convert::FromSpec;
use vstd::std_specs::iter::IteratorSpec;
use std::marker::PhantomData;
use crate::{Accumulable, MaybeAccumulable};
use crate::model::{
    seeded, is_first_run, is_reduction, are_leading_runs, reduced, fold_into, first_run,
    first_run_len, run_acc, run_len, runs, lemma_run_len_bounded, lemma_leading_runs_push,
    lemma_leading_runs_are_runs,
};

verus! {

/// Eager reduction of a finite iterator into one accumulator.
pub trait Accumulate<Rhs>: Iterator<Item = Rhs> + Sized {
    /// Consumes the iterator. The first item seeds the accumulator and each
    /// later item is absorbed into it; an iterator without items gives `None`.
    fn accumulate<Lhs>(self) -> (total: Option<Lhs>) where Lhs: From<Rhs> + Accumulable<Rhs>
        requires
            self.obeys_prophetic_iter_laws(),
            self.decrease() is Some,
        ensures
            total is None <==> self.remaining().len() == 0,
            total matches Some(merged) ==> is_reduction(self.remaining(), merged),
            Lhs::obeys_from_spec() ==> total == reduced::<Lhs, Rhs>(self.remaining()),
    ;
}

impl<I> Accumulate<I::Item> for I where I: Iterator {
    #[inline]
    fn accumulate<Lhs>(self) -> (total: Option<Lhs>) where
        Lhs: From<I::Item> + Accumulable<I::Item>,
     {
        let mut iter = self;
        let ghost all = iter.remaining();
        match iter.next() {
            None => None,
            Some(first) => {
                let mut lhs = Lhs::from(first);
                let ghost seed = lhs;
                loop
                    invariant
                        iter.obeys_prophetic_iter_laws(),
                        iter.decrease() is Some,
                        seeded(all[0], seed),
                        fold_into(lhs, iter.remaining()) == fold_into(seed, all.drop_first()),
                    ensures
                        lhs == fold_into(seed, all.drop_first()),
                        seeded(all[0], seed),
                    decreases iter.decrease()->0,
                {
                    match iter.next() {
                        None => {
                            break ;
                        },
                        Some(rhs) => {
                            lhs.accumulate_from(&rhs);
                        },
                    }
                }
                Some(lhs)
            },
        }
    }
}

/// Lazy splitting of an iterator into its maximal runs of mergeable items.
pub trait PartiallyAccumulate<Rhs>: Iterator<Item = Rhs> + Sized {
    /// Wraps the iterator in a splitter that has pulled nothing yet.
    fn partially_accumulate<Lhs>(self) -> (split: PartiallyAccumulated<Self, Lhs>) where
        Lhs: From<Rhs> + MaybeAccumulable<Rhs>,

        ensures
            split.source() == self,
            split.lookahead() is None,
            !split.exhausted(),
    ;
}

impl<I> PartiallyAccumulate<I::Item> for I where I: Iterator {
    #[inline]
    fn partially_accumulate<Lhs>(self) -> (split: PartiallyAccumulated<Self, Lhs>) where
        Lhs: From<I::Item> + MaybeAccumulable<I::Item>,
     {
        PartiallyAccumulated::new(self)
    }
}

/// The items that a splitter has yet to merge: nothing once it has seen its
/// source end, otherwise the item it holds back, if any, followed by `rest`,
/// the items still to come from its source.
pub open spec fn pending<T>(exhausted: bool, lookahead: Option<T>, rest: Seq<T>) -> Seq<T> {
    if exhausted {
        Seq::empty()
    } else {
        match lookahead {
            Some(item) => seq![item] + rest,
            None => rest,
        }
    }
}

/// A single-pass splitter over an iterator. Each output is the accumulator of
/// one maximal run: a seed item and the items after it that the accumulator
/// accepted. The item that ended a run is held back and seeds the next one.
pub struct PartiallyAccumulated<I, Lhs> where I: Iterator {
    iter: I,
    lookahead: Option<I::Item>,
    exhausted: bool,
    _lhs: PhantomData<Lhs>,
}

impl<I, Lhs> PartiallyAccumulated<I, Lhs> where I: Iterator {
    /// The iterator that the splitter pulls from.
    pub closed spec fn source(&self) -> I {
        self.iter
    }

    /// The rejected item that waits to seed the next run.
    pub closed spec fn lookahead(&self) -> Option<I::Item> {
        self.lookahead
    }

    /// Whether the splitter has seen its source end.
    pub closed spec fn exhausted(&self) -> bool {
        self.exhausted
    }

    /// A bound on the outputs that the splitter can still hand out: each
    /// output lowers it.
    pub open spec fn fuel(&self) -> nat {
        if self.exhausted() {
            0
        } else {
            1 + 2 * self.source().decrease()->0 + if self.lookahead() is Some {
                1nat
            } else {
                0nat
            }
        }
    }

    /// A splitter over `iter` that has pulled nothing yet.
    pub fn new(iter: I) -> (split: Self)
        ensures
            split.source() == iter,
            split.lookahead() is None,
            !split.exhausted(),
    {
        Self { iter, lookahead: None, exhausted: false, _lhs: PhantomData }
    }
}

impl<I, Lhs> PartiallyAccumulated<I, Lhs> where
    I: Iterator,
    Lhs: From<I::Item> + MaybeAccumulable<I::Item>,
 {
    /// The accumulator of the next run, or `None` once the items have ended.
    ///
    /// The run is seeded by the first pending item and takes in the items
    /// after it for as long as the accumulator accepts them. The first
    /// rejected item stays pending.
    pub fn next(&mut self) -> (out: Option<Lhs>)
        requires
            old(self).source().obeys_prophetic_iter_laws(),
            old(self).source().decrease() is Some,
        ensures
            final(self).source().obeys_prophetic_iter_laws(),
            final(self).source().decrease() is Some,
            ({
                let before = pending(
                    old(self).exhausted(),
                    old(self).lookahead(),
                    old(self).source().remaining(),
                );
                let after = pending(
                    final(self).exhausted(),
                    final(self).lookahead(),
                    final(self).source().remaining(),
                );
                &&& out is None <==> before.len() == 0
                &&& out is None ==> after.len() == 0
                &&& out matches Some(run) ==> is_first_run(before, run, after)
                &&& Lhs::obeys_from_spec() && before.len() > 0 ==> {
                    &&& out == Some(first_run::<Lhs, I::Item>(before))
                    &&& after == before.skip(first_run_len::<Lhs, I::Item>(before) as int)
                }
            }),
            out is Some ==> final(self).fuel() < old(self).fuel(),
    {
        if self.exhausted {
            return None;
        }
        let ghost before = pending(self.exhausted, self.lookahead, self.iter.remaining());
        let first = match self.lookahead.take() {
            Some(item) => item,
            None => match self.iter.next() {
                Some(item) => item,
                None => {
                    self.exhausted = true;
                    return None;
                },
            },
        };
        let ghost tail = self.iter.remaining();
        let ghost entry = self.iter.decrease()->0;
        assert(tail =~= before.drop_first());
        let mut lhs = Lhs::from(first);
        let ghost seed = lhs;
        let ghost taken: int = 0;
        assert(tail.skip(0) =~= tail);
        loop
            invariant_except_break
                self.lookahead is None,
                !self.exhausted,
                self.iter.remaining() == tail.skip(taken),
                self.iter.decrease()->0 <= entry,
            invariant
                self.iter.obeys_prophetic_iter_laws(),
                self.iter.decrease() is Some,
                before.len() > 0,
                seeded(before[0], seed),
                0 <= taken <= tail.len(),
                run_len(seed, tail) == taken + run_len(lhs, tail.skip(taken)),
                run_acc(seed, tail) == run_acc(lhs, tail.skip(taken)),
            ensures
                seeded(before[0], seed),
                lhs == run_acc(seed, tail),
                pending(self.exhausted, self.lookahead, self.iter.remaining()) == tail.skip(
                    run_len(seed, tail) as int,
                ),
                self.exhausted || (self.lookahead is Some && self.iter.decrease()->0 < entry),
            decreases self.iter.decrease()->0,
        {
            match self.iter.next() {
                None => {
                    self.exhausted = true;
                    assert(tail.skip(taken) =~= Seq::<I::Item>::empty());
                    break ;
                },
                Some(rhs) => {
                    if !lhs.maybe_accumulate_from(&rhs) {
                        self.lookahead = Some(rhs);
                        assert(seq![rhs] + tail.skip(taken).drop_first() =~= tail.skip(taken));
                        break ;
                    }
                    proof {
                        assert(tail.skip(taken).drop_first() =~= tail.skip(taken + 1));
                        taken = taken + 1;
                    }
                },
            }
        }
        proof {
            lemma_run_len_bounded(seed, tail);
            assert(before.skip(1) =~= before.drop_first());
            assert(before.drop_first().skip(run_len(seed, tail) as int) =~= before.skip(
                1 + run_len(seed, tail) as int,
            ));
            let after = pending(self.exhausted, self.lookahead, self.iter.remaining());
            assert(seeded(before[0], seed) && lhs == run_acc(seed, before.drop_first()) && after
                == before.skip(1 + run_len(seed, before.drop_first()) as int));
            assert(is_first_run(before, lhs, after));
            if Lhs::obeys_from_spec() {
                assert(seed == Lhs::from_spec(before[0]));
                assert(lhs == first_run::<Lhs, I::Item>(before));
                assert(after == before.skip(first_run_len::<Lhs, I::Item>(before) as int));
            }
        }
        Some(lhs)
    }
}

impl<I, Lhs> PartiallyAccumulated<I, Lhs> where
    I: Iterator,
    Lhs: From<I::Item> + MaybeAccumulable<I::Item>,
 {
    /// Runs the splitter to its end and gathers the accumulators of all runs
    /// of the pending items, in order.
    pub fn collect(self) -> (all: Vec<Lhs>)
        requires
            self.source().obeys_prophetic_iter_laws(),
            self.source().decrease() is Some,
        ensures
            are_leading_runs(
                pending(self.exhausted(), self.lookahead(), self.source().remaining()),
                all@,
                Seq::<I::Item>::empty(),
            ),
            Lhs::obeys_from_spec() ==> all@ == runs::<Lhs, I::Item>(
                pending(self.exhausted(), self.lookahead(), self.source().remaining()),
            ),
    {
        let mut split = self;
        let mut all: Vec<Lhs> = Vec::new();
        let ghost items = pending(split.exhausted, split.lookahead, split.iter.remaining());
        loop
            invariant_except_break
                split.iter.obeys_prophetic_iter_laws(),
                split.iter.decrease() is Some,
                are_leading_runs(
                    items,
                    all@,
                    pending(split.exhausted, split.lookahead, split.iter.remaining()),
                ),
            ensures
                are_leading_runs(items, all@, Seq::<I::Item>::empty()),
            decreases split.fuel(),
        {
            let ghost now = pending(split.exhausted, split.lookahead, split.iter.remaining());
            let ghost so_far = all@;
            match split.next() {
                None => {
                    assert(now =~= Seq::<I::Item>::empty());
                    break ;
                },
                Some(lhs) => {
                    all.push(lhs);
                    proof {
                        lemma_leading_runs_push(
                            items,
                            so_far,
                            now,
                            lhs,
                            pending(split.exhausted, split.lookahead, split.iter.remaining()),
                        );
                    }
                },
            }
        }
        proof {
            if Lhs::obeys_from_spec() {
                lemma_leading_runs_are_runs(items, all@);
            }
        }
        all
    }
}

} // verus!
