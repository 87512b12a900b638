//! Merging over an asynchronous source, as a state machine.
//!
//! Fetching the next item is the caller's part: it may have to wait for it.
//! What to do with a fetched item is decided here. The caller hands every
//! fetched item, or the end of the source, to a splitter or reducer and is
//! told whether an output is ready or another item has to be fetched first.

use vstd::prelude::*;
use vstd::std_specs::convert::FromSpec;
use crate::{Accumulable, MaybeAccumulable};
use crate::model::{
    seeded, reduced, fold_into, first_run_len, run_acc, run_len, runs, lemma_run_len_bounded,
};

verus! {

/// What a reducer or splitter answers to a fetched item.
#[derive(Debug, PartialEq, Eq)]
pub enum Progress<T> {
    /// No output yet: the next item has to be fetched and handed over.
    Pending,
    /// An output is ready.
    Ready(T),
}

/// The state of a reducer or splitter between two fetches.
pub enum AccumulatedState<Lhs> {
    /// No run is open.
    Uninit,
    /// A run is open and its accumulator may take in more items.
    Accumulable(Lhs),
    /// The source has ended and nothing more will be produced.
    Consumed,
}

impl<Lhs> AccumulatedState<Lhs> {
    /// The accumulator of the open run, if a run is open.
    pub open spec fn held(self) -> Option<Lhs> {
        match self {
            AccumulatedState::Accumulable(lhs) => Some(lhs),
            _ => None,
        }
    }

    /// Whether the machine has ended.
    pub open spec fn ended(self) -> bool {
        self is Consumed
    }

    /// Whether no run is open and the machine has not ended.
    pub open spec fn idle(self) -> bool {
        self is Uninit
    }

    /// Ends the machine and hands out the accumulator of the open run.
    pub fn consume(&mut self) -> (lhs: Option<Lhs>)
        ensures
            *final(self) == AccumulatedState::<Lhs>::Consumed,
            lhs == old(self).held(),
    {
        let mut previous = AccumulatedState::Consumed;
        core::mem::swap(self, &mut previous);
        match previous {
            AccumulatedState::Accumulable(item) => Some(item),
            _ => None,
        }
    }

    /// Opens a run with the accumulator `lhs` and hands out the accumulator
    /// of the run that was open before.
    pub fn reaccumulable(&mut self, lhs: Lhs) -> (previous: Option<Lhs>)
        ensures
            *final(self) == AccumulatedState::Accumulable(lhs),
            previous == old(self).held(),
    {
        let mut previous = AccumulatedState::Accumulable(lhs);
        core::mem::swap(self, &mut previous);
        match previous {
            AccumulatedState::Accumulable(item) => Some(item),
            _ => None,
        }
    }

    /// Closes the open run, leaving no run open, and hands out its
    /// accumulator.
    pub fn reinit(&mut self) -> (lhs: Option<Lhs>)
        ensures
            *final(self) == AccumulatedState::<Lhs>::Uninit,
            lhs == old(self).held(),
    {
        let mut previous = AccumulatedState::Uninit;
        core::mem::swap(self, &mut previous);
        match previous {
            AccumulatedState::Accumulable(item) => Some(item),
            _ => None,
        }
    }

    /// Whether the machine has ended.
    pub fn is_consumed(&self) -> (consumed: bool)
        ensures
            consumed == self.ended(),
    {
        match self {
            AccumulatedState::Consumed => true,
            _ => false,
        }
    }
}

impl<Lhs> AccumulatedState<Lhs> {
    /// The state of a reducer after it was handed `fetched`: the first item
    /// seeds the accumulator, each later item is absorbed, and the end of the
    /// source ends the reducer.
    pub open spec fn after_accumulate<Rhs>(self, fetched: Option<Rhs>) -> Self where
        Lhs: From<Rhs> + Accumulable<Rhs>,
     {
        match (self, fetched) {
            (AccumulatedState::Uninit, Some(first)) => AccumulatedState::Accumulable(
                Lhs::from_spec(first),
            ),
            (AccumulatedState::Accumulable(lhs), Some(item)) => AccumulatedState::Accumulable(
                lhs.absorbed(item),
            ),
            _ => AccumulatedState::Consumed,
        }
    }

    /// What a reducer answers when it is handed `fetched`: nothing while
    /// items come, and at the end of the source the accumulator it holds.
    pub open spec fn accumulate_output<Rhs>(self, fetched: Option<Rhs>) -> Progress<Option<Lhs>> {
        match fetched {
            Some(_) => Progress::Pending,
            None => Progress::Ready(self.held()),
        }
    }

    /// The state of a splitter after it was handed `fetched`. An item opens a
    /// run where none is open, joins the open run where its accumulator
    /// accepts the item, and opens the next run where it does not. The end of
    /// the source closes the open run; where no run is open it ends the
    /// splitter.
    pub open spec fn after_split<Rhs>(self, fetched: Option<Rhs>) -> Self where
        Lhs: From<Rhs> + MaybeAccumulable<Rhs>,
     {
        match (self, fetched) {
            (AccumulatedState::Uninit, Some(first)) => AccumulatedState::Accumulable(
                Lhs::from_spec(first),
            ),
            (AccumulatedState::Accumulable(lhs), Some(item)) => if lhs.accepts(item) {
                AccumulatedState::Accumulable(lhs.joined(item))
            } else {
                AccumulatedState::Accumulable(Lhs::from_spec(item))
            },
            (AccumulatedState::Accumulable(_), None) => AccumulatedState::Uninit,
            _ => AccumulatedState::Consumed,
        }
    }

    /// Whether a splitter that is handed `fetched` turns it into the
    /// accumulator of a new run.
    pub open spec fn seeds<Rhs>(self, fetched: Option<Rhs>) -> bool where
        Lhs: MaybeAccumulable<Rhs>,
     {
        match (self, fetched) {
            (AccumulatedState::Accumulable(lhs), Some(item)) => !lhs.accepts(item),
            (AccumulatedState::Uninit, Some(_)) => true,
            _ => false,
        }
    }

    /// What a splitter answers when it is handed `fetched`: the accumulator
    /// of the open run where the item is rejected or the source ends, the end
    /// of the outputs where the source ends with no run open, and nothing
    /// otherwise.
    pub open spec fn split_output<Rhs>(self, fetched: Option<Rhs>) -> Progress<Option<Lhs>> where
        Lhs: MaybeAccumulable<Rhs>,
     {
        match (self, fetched) {
            (AccumulatedState::Uninit, Some(_)) => Progress::Pending,
            (AccumulatedState::Accumulable(lhs), Some(item)) => if lhs.accepts(item) {
                Progress::Pending
            } else {
                Progress::Ready(Some(lhs))
            },
            (AccumulatedState::Accumulable(lhs), None) => Progress::Ready(Some(lhs)),
            _ => Progress::Ready(None),
        }
    }

    /// Whether a reducer in the state `self` that is handed `fetched` answers
    /// `progress` and is in the state `next` then. The answer is determined,
    /// and so is the state, but for the accumulator that the first item is
    /// turned into where the conversion of `Lhs` does not obey its
    /// specification: that is one which the conversion may make from the
    /// item.
    pub open spec fn accumulate_step<Rhs>(
        self,
        fetched: Option<Rhs>,
        next: Self,
        progress: Progress<Option<Lhs>>,
    ) -> bool where Lhs: From<Rhs> + Accumulable<Rhs> {
        &&& progress == self.accumulate_output(fetched)
        &&& if self.idle() && fetched is Some {
            &&& next.held() is Some
            &&& seeded(fetched->0, next.held()->0)
            &&& Lhs::obeys_from_spec() ==> next == self.after_accumulate(fetched)
        } else {
            next == self.after_accumulate(fetched)
        }
    }

    /// Whether a splitter in the state `self` that is handed `fetched`
    /// answers `progress` and is in the state `next` then. The answer is
    /// determined, and so is the state, but for the accumulator that an item
    /// is turned into where the conversion of `Lhs` does not obey its
    /// specification: that is one which the conversion may make from the
    /// item.
    pub open spec fn split_step<Rhs>(
        self,
        fetched: Option<Rhs>,
        next: Self,
        progress: Progress<Option<Lhs>>,
    ) -> bool where Lhs: From<Rhs> + MaybeAccumulable<Rhs> {
        &&& progress == self.split_output(fetched)
        &&& if self.seeds(fetched) {
            &&& next.held() is Some
            &&& seeded(fetched->0, next.held()->0)
            &&& Lhs::obeys_from_spec() ==> next == self.after_split(fetched)
        } else {
            next == self.after_split(fetched)
        }
    }

    /// One step of a reducer: takes what was fetched from the source, an item
    /// or its end, and says whether the result is ready.
    pub fn poll_accumulate<Rhs>(&mut self, fetched: Option<Rhs>) -> (progress: Progress<
        Option<Lhs>,
    >) where Lhs: From<Rhs> + Accumulable<Rhs>
        requires
            !old(self).ended(),
        ensures
            old(self).accumulate_step(fetched, *final(self), progress),
            progress is Ready <==> final(self).ended(),
    {
        match fetched {
            Some(item) => {
                match self {
                    AccumulatedState::Accumulable(inner) => {
                        inner.accumulate_from(&item);
                    },
                    _ => {
                        *self = AccumulatedState::Accumulable(Lhs::from(item));
                    },
                }
                Progress::Pending
            },
            None => Progress::Ready(self.consume()),
        }
    }

    /// One step of a splitter: takes what was fetched from the source, an
    /// item or its end, and says whether an output is ready.
    pub fn poll_split<Rhs>(&mut self, fetched: Option<Rhs>) -> (progress: Progress<
        Option<Lhs>,
    >) where Lhs: From<Rhs> + MaybeAccumulable<Rhs>
        requires
            !old(self).ended(),
        ensures
            old(self).split_step(fetched, *final(self), progress),
            progress == Progress::<Option<Lhs>>::Ready(None) <==> final(self).ended(),
    {
        match fetched {
            Some(item) => {
                match self {
                    AccumulatedState::Accumulable(inner) => {
                        if inner.maybe_accumulate_from(&item) {
                            Progress::Pending
                        } else {
                            Progress::Ready(self.reaccumulable(Lhs::from(item)))
                        }
                    },
                    _ => {
                        *self = AccumulatedState::Accumulable(Lhs::from(item));
                        Progress::Pending
                    },
                }
            },
            None => {
                match self {
                    AccumulatedState::Accumulable(_) => Progress::Ready(self.reinit()),
                    _ => Progress::Ready(self.consume()),
                }
            },
        }
    }
}

/// Eager reduction of an asynchronous source into one accumulator.
pub trait Accumulate<Rhs>: Sized {
    /// Wraps the source in a reducer that has fetched nothing yet.
    fn accumulate<Lhs>(self) -> (reducer: Accumulated<Self, Lhs>) where
        Lhs: From<Rhs> + Accumulable<Rhs>,

        ensures
            reducer.source() == self,
            reducer.state() == AccumulatedState::<Lhs>::Uninit,
    ;
}

impl<S, Rhs> Accumulate<Rhs> for S {
    #[inline]
    fn accumulate<Lhs>(self) -> (reducer: Accumulated<S, Lhs>) where
        Lhs: From<Rhs> + Accumulable<Rhs>,
     {
        Accumulated { stream: self, lhs: AccumulatedState::Uninit }
    }
}

/// A reducer over the source `S`: it completes once, with the single merged
/// value of all items, or with `None` where there was no item.
pub struct Accumulated<S, Lhs> {
    stream: S,
    lhs: AccumulatedState<Lhs>,
}

impl<S, Lhs> Accumulated<S, Lhs> {
    /// The source that the items are fetched from.
    pub closed spec fn source(&self) -> S {
        self.stream
    }

    /// The state of the reduction.
    pub closed spec fn state(&self) -> AccumulatedState<Lhs> {
        self.lhs
    }

    /// Whether the reducer has completed. It must not be polled again then.
    pub fn is_terminated(&self) -> (terminated: bool)
        ensures
            terminated == self.state().ended(),
    {
        self.lhs.is_consumed()
    }

    /// Takes what was fetched from the source, an item or its end. While
    /// items come the result is pending; at the end of the source the
    /// reducer completes with the merged value.
    pub fn poll<Rhs>(&mut self, fetched: Option<Rhs>) -> (progress: Progress<Option<Lhs>>) where
        Lhs: From<Rhs> + Accumulable<Rhs>,

        requires
            !old(self).state().ended(),
        ensures
            final(self).source() == old(self).source(),
            old(self).state().accumulate_step(fetched, final(self).state(), progress),
            progress is Ready <==> final(self).state().ended(),
    {
        self.lhs.poll_accumulate(fetched)
    }

    /// The source, to fetch the next item from.
    pub fn source_mut(&mut self) -> (source: &mut S)
        ensures
            *source == old(self).source(),
            final(self).source() == *final(source),
            final(self).state() == old(self).state(),
    {
        &mut self.stream
    }

    /// Takes the reducer apart into its source and its state.
    pub fn into_parts(self) -> (parts: (S, AccumulatedState<Lhs>))
        ensures
            parts.0 == self.source(),
            parts.1 == self.state(),
    {
        (self.stream, self.lhs)
    }

    /// Puts a reducer together from a source and a state.
    pub fn from_parts(stream: S, lhs: AccumulatedState<Lhs>) -> (reducer: Self)
        ensures
            reducer.source() == stream,
            reducer.state() == lhs,
    {
        Accumulated { stream, lhs }
    }
}

/// Lazy splitting of an asynchronous source into its maximal runs of
/// mergeable items.
pub trait PartiallyAccumulate<Rhs> {
    /// Wraps the source in a splitter that has fetched nothing yet.
    fn partially_accumulate<Lhs>(self) -> (split: PartiallyAccumulated<Self, Lhs>) where
        Self: Sized,
        Lhs: From<Rhs> + MaybeAccumulable<Rhs>,

        ensures
            split.source() == self,
            split.state() == AccumulatedState::<Lhs>::Uninit,
    ;
}

impl<S, Rhs> PartiallyAccumulate<Rhs> for S {
    #[inline]
    fn partially_accumulate<Lhs>(self) -> (split: PartiallyAccumulated<Self, Lhs>) where
        Self: Sized,
        Lhs: From<Rhs> + MaybeAccumulable<Rhs>,
     {
        PartiallyAccumulated::new(self)
    }
}

/// A splitter over the source `S`. Each output is the accumulator of one
/// maximal run; after the last one it reports the end of its outputs and is
/// terminated.
pub struct PartiallyAccumulated<S, Lhs> {
    stream: S,
    lhs: AccumulatedState<Lhs>,
}

impl<S, Lhs> PartiallyAccumulated<S, Lhs> {
    /// The source that the items are fetched from.
    pub closed spec fn source(&self) -> S {
        self.stream
    }

    /// The state of the splitting.
    pub closed spec fn state(&self) -> AccumulatedState<Lhs> {
        self.lhs
    }

    /// A splitter over `stream` that has fetched nothing yet.
    pub fn new(stream: S) -> (split: Self)
        ensures
            split.source() == stream,
            split.state() == AccumulatedState::<Lhs>::Uninit,
    {
        Self { stream, lhs: AccumulatedState::Uninit }
    }

    /// Whether the splitter has reported the end of its outputs. It must not
    /// be polled again then.
    pub fn is_terminated(&self) -> (terminated: bool)
        ensures
            terminated == self.state().ended(),
    {
        self.lhs.is_consumed()
    }

    /// Takes what was fetched from the source, an item or its end, and says
    /// whether an output is ready: the accumulator of a run that the item or
    /// the end has closed, or the end of the outputs.
    pub fn poll_next<Rhs>(&mut self, fetched: Option<Rhs>) -> (progress: Progress<
        Option<Lhs>,
    >) where Lhs: From<Rhs> + MaybeAccumulable<Rhs>
        requires
            !old(self).state().ended(),
        ensures
            final(self).source() == old(self).source(),
            old(self).state().split_step(fetched, final(self).state(), progress),
            progress == Progress::<Option<Lhs>>::Ready(None) <==> final(self).state().ended(),
    {
        self.lhs.poll_split(fetched)
    }

    /// The source, to fetch the next item from.
    pub fn source_mut(&mut self) -> (source: &mut S)
        ensures
            *source == old(self).source(),
            final(self).source() == *final(source),
            final(self).state() == old(self).state(),
    {
        &mut self.stream
    }

    /// Takes the splitter apart into its source and its state.
    pub fn into_parts(self) -> (parts: (S, AccumulatedState<Lhs>))
        ensures
            parts.0 == self.source(),
            parts.1 == self.state(),
    {
        (self.stream, self.lhs)
    }

    /// Puts a splitter together from a source and a state.
    pub fn from_parts(stream: S, lhs: AccumulatedState<Lhs>) -> (split: Self)
        ensures
            split.source() == stream,
            split.state() == lhs,
    {
        Self { stream, lhs }
    }
}

/// The state of a reducer that was in `state` and has been handed each item
/// of `items` since, in order.
pub open spec fn fed<Lhs: From<Rhs> + Accumulable<Rhs>, Rhs>(
    state: AccumulatedState<Lhs>,
    items: Seq<Rhs>,
) -> AccumulatedState<Lhs>
    decreases items.len(),
{
    if items.len() == 0 {
        state
    } else {
        fed(state.after_accumulate(Some(items[0])), items.drop_first())
    }
}

/// The outputs of a splitter in `state` whose source yields `items` and then
/// keeps reporting its end, up to the end of the outputs.
pub open spec fn split_outputs<Lhs: From<Rhs> + MaybeAccumulable<Rhs>, Rhs>(
    state: AccumulatedState<Lhs>,
    items: Seq<Rhs>,
) -> Seq<Lhs>
    decreases items.len(), (if state.held() is Some { 1nat } else { 0nat }),
{
    if state.ended() {
        Seq::empty()
    } else if items.len() == 0 {
        match state.split_output(None::<Rhs>) {
            Progress::Ready(Some(lhs)) => seq![lhs] + split_outputs(
                state.after_split(None::<Rhs>),
                items,
            ),
            _ => Seq::empty(),
        }
    } else {
        let rest = split_outputs(state.after_split(Some(items[0])), items.drop_first());
        match state.split_output(Some(items[0])) {
            Progress::Ready(Some(lhs)) => seq![lhs] + rest,
            _ => rest,
        }
    }
}

/// A reducer with an open run that is handed `items` holds the accumulator
/// that absorbed them all.
pub proof fn lemma_fed_open<Lhs: From<Rhs> + Accumulable<Rhs>, Rhs>(lhs: Lhs, items: Seq<Rhs>)
    ensures
        fed(AccumulatedState::Accumulable(lhs), items) == AccumulatedState::Accumulable(
            fold_into(lhs, items),
        ),
    decreases items.len(),
{
    if items.len() > 0 {
        lemma_fed_open(lhs.absorbed(items[0]), items.drop_first());
    }
}

/// A reducer that is handed the items of a source one by one and then its
/// end never ends before, answers the end with the single merged value of the
/// items, which is what the reduction of an iterator over them returns, and
/// is terminated then.
pub proof fn lemma_reducer_completes_with_reduction<Lhs: From<Rhs> + Accumulable<Rhs>, Rhs>(
    items: Seq<Rhs>,
)
    ensures
        forall|n: int|
            0 <= n <= items.len() ==> !(#[trigger] fed(
                AccumulatedState::<Lhs>::Uninit,
                items.take(n),
            )).ended(),
        fed(AccumulatedState::<Lhs>::Uninit, items).accumulate_output(None::<Rhs>)
            == Progress::Ready(reduced::<Lhs, Rhs>(items)),
        fed(AccumulatedState::<Lhs>::Uninit, items).after_accumulate(None::<Rhs>).ended(),
{
    assert forall|n: int| 0 <= n <= items.len() implies !(#[trigger] fed(
        AccumulatedState::<Lhs>::Uninit,
        items.take(n),
    )).ended() by {
        let head = items.take(n);
        if head.len() > 0 {
            lemma_fed_open(Lhs::from_spec(head[0]), head.drop_first());
        }
    }
    if items.len() > 0 {
        lemma_fed_open(Lhs::from_spec(items[0]), items.drop_first());
    }
}

/// A splitter with the open run `lhs` hands out the run that `lhs` grows
/// into over `items`, and then the runs of the items after it.
pub proof fn lemma_split_outputs_open<Lhs: From<Rhs> + MaybeAccumulable<Rhs>, Rhs>(
    lhs: Lhs,
    items: Seq<Rhs>,
)
    ensures
        split_outputs(AccumulatedState::Accumulable(lhs), items) == seq![run_acc(lhs, items)]
            + runs::<Lhs, Rhs>(items.skip(run_len(lhs, items) as int)),
    decreases items.len(),
{
    let state = AccumulatedState::Accumulable(lhs);
    if items.len() == 0 {
        assert(items.skip(0) =~= items);
        assert(split_outputs(AccumulatedState::<Lhs>::Uninit, items) =~= Seq::<Lhs>::empty());
    } else {
        let item = items[0];
        let rest = items.drop_first();
        if lhs.accepts(item) {
            lemma_split_outputs_open(lhs.joined(item), rest);
            lemma_run_len_bounded(lhs.joined(item), rest);
            assert(rest.skip(run_len(lhs.joined(item), rest) as int) =~= items.skip(
                run_len(lhs, items) as int,
            ));
        } else {
            lemma_split_outputs_open(Lhs::from_spec(item), rest);
            lemma_run_len_bounded(Lhs::from_spec(item), rest);
            assert(items.skip(0) =~= items);
            assert(rest.skip(run_len(Lhs::from_spec(item), rest) as int) =~= items.skip(
                first_run_len::<Lhs, Rhs>(items) as int,
            ));
        }
    }
}

/// A splitter that is handed the items of a source one by one, and its end
/// from then on, hands out the accumulators of the maximal runs of the items,
/// in order: what the splitter of an iterator over them hands out.
pub proof fn lemma_splitter_hands_out_runs<Lhs: From<Rhs> + MaybeAccumulable<Rhs>, Rhs>(
    items: Seq<Rhs>,
)
    ensures
        split_outputs(AccumulatedState::<Lhs>::Uninit, items) == runs::<Lhs, Rhs>(items),
{
    if items.len() > 0 {
        let rest = items.drop_first();
        lemma_split_outputs_open(Lhs::from_spec(items[0]), rest);
        lemma_run_len_bounded(Lhs::from_spec(items[0]), rest);
        assert(rest.skip(run_len(Lhs::from_spec(items[0]), rest) as int) =~= items.skip(
            first_run_len::<Lhs, Rhs>(items) as int,
        ));
    }
}

/// Termination is final: a terminated splitter stays terminated whatever it
/// is handed, and has no output but the end of the outputs.
pub proof fn lemma_terminated_stays_terminated<Lhs: From<Rhs> + MaybeAccumulable<Rhs>, Rhs>(
    state: AccumulatedState<Lhs>,
    fetched: Option<Rhs>,
    items: Seq<Rhs>,
)
    requires
        state.ended(),
    ensures
        state.after_split(fetched).ended(),
        state.split_output(fetched) == Progress::<Option<Lhs>>::Ready(None),
        split_outputs(state, items) == Seq::<Lhs>::empty(),
{
}

} // verus!
