//! Splitting an asynchronous source whose items may be failures.
//!
//! Runs are formed from the successful items. The first failure is handed on
//! as the next output and ends the splitter; the run that was open at that
//! moment is dropped, not handed out.

use vstd::prelude::*;
use vstd::std_specs::convert::FromSpec;
use crate::MaybeAccumulable;
use crate::stream::{AccumulatedState, Progress, split_outputs, lemma_splitter_hands_out_runs};
use crate::model::{seeded, first_run_len, run_acc, run_len, runs, lemma_run_len_bounded};

verus! {

/// An answer of a splitter, as an answer of a fallible splitter: each output
/// is a success.
pub open spec fn succeeded<Lhs, E>(progress: Progress<Option<Lhs>>) -> Progress<
    Option<Result<Lhs, E>>,
> {
    match progress {
        Progress::Pending => Progress::Pending,
        Progress::Ready(None) => Progress::Ready(None),
        Progress::Ready(Some(lhs)) => Progress::Ready(Some(Ok(lhs))),
    }
}

impl<Lhs> AccumulatedState<Lhs> {
    /// The state of a fallible splitter after it was handed `fetched`: a
    /// failure ends it, and a successful item or the end of the source moves
    /// it as it moves a splitter.
    pub open spec fn after_try_split<V, E>(self, fetched: Option<Result<V, E>>) -> Self where
        Lhs: From<V> + MaybeAccumulable<V>,
     {
        match fetched {
            Some(Err(_)) => AccumulatedState::Consumed,
            Some(Ok(item)) => self.after_split(Some(item)),
            None => self.after_split(None::<V>),
        }
    }

    /// What a fallible splitter answers when it is handed `fetched`: the
    /// failure itself for a failure, and otherwise what a splitter answers.
    /// Once it is terminated it has no output but the end of the outputs.
    pub open spec fn try_split_output<V, E>(self, fetched: Option<Result<V, E>>) -> Progress<
        Option<Result<Lhs, E>>,
    > where Lhs: MaybeAccumulable<V> {
        match fetched {
            Some(Err(err)) => if self.ended() {
                Progress::Ready(None)
            } else {
                Progress::Ready(Some(Err(err)))
            },
            Some(Ok(item)) => succeeded(self.split_output(Some(item))),
            None => succeeded(self.split_output(None::<V>)),
        }
    }

    /// Whether a fallible splitter that is handed `fetched` turns it into
    /// the accumulator of a new run.
    pub open spec fn try_seeds<V, E>(self, fetched: Option<Result<V, E>>) -> bool where
        Lhs: MaybeAccumulable<V>,
     {
        match fetched {
            Some(Ok(item)) => self.seeds(Some(item)),
            _ => false,
        }
    }

    /// Whether a fallible splitter in the state `self` that is handed
    /// `fetched` answers `progress` and is in the state `next` then. The
    /// answer is determined, and so is the state, but for the accumulator
    /// that an item is turned into where the conversion of `Lhs` does not
    /// obey its specification: that is one which the conversion may make from
    /// the item.
    pub open spec fn try_split_step<V, E>(
        self,
        fetched: Option<Result<V, E>>,
        next: Self,
        progress: Progress<Option<Result<Lhs, E>>>,
    ) -> bool where Lhs: From<V> + MaybeAccumulable<V> {
        &&& progress == self.try_split_output(fetched)
        &&& if self.try_seeds(fetched) {
            &&& next.held() is Some
            &&& seeded(fetched->0->Ok_0, next.held()->0)
            &&& Lhs::obeys_from_spec() ==> next == self.after_try_split(fetched)
        } else {
            next == self.after_try_split(fetched)
        }
    }

    /// One step of a fallible splitter: takes what was fetched from the
    /// source, a successful item, a failure or the end, and says whether an
    /// output is ready.
    pub fn poll_try_split<V, E>(&mut self, fetched: Option<Result<V, E>>) -> (progress: Progress<
        Option<Result<Lhs, E>>,
    >) where Lhs: From<V> + MaybeAccumulable<V>
        requires
            !old(self).ended(),
        ensures
            old(self).try_split_step(fetched, *final(self), progress),
            final(self).ended() <==> progress == Progress::<Option<Result<Lhs, E>>>::Ready(None)
                || fetched matches Some(Err(_)),
    {
        match fetched {
            Some(Err(err)) => {
                let _ = self.consume();
                Progress::Ready(Some(Err(err)))
            },
            Some(Ok(item)) => match self.poll_split(Some(item)) {
                Progress::Pending => Progress::Pending,
                Progress::Ready(None) => Progress::Ready(None),
                Progress::Ready(Some(lhs)) => Progress::Ready(Some(Ok(lhs))),
            },
            None => match self.poll_split(None::<V>) {
                Progress::Pending => Progress::Pending,
                Progress::Ready(None) => Progress::Ready(None),
                Progress::Ready(Some(lhs)) => Progress::Ready(Some(Ok(lhs))),
            },
        }
    }
}

/// Lazy splitting of an asynchronous source of results into the maximal runs
/// of its successful items, up to its first failure.
pub trait TryPartiallyAccumulate<Rhs> {
    /// Wraps the source in a fallible splitter that has fetched nothing yet.
    fn try_partially_accumulate<Lhs>(self) -> (split: TryPartiallyAccumulated<Self, Lhs>) where
        Self: Sized,
        Lhs: From<Rhs> + MaybeAccumulable<Rhs>,

        ensures
            split.source() == self,
            split.state() == AccumulatedState::<Lhs>::Uninit,
    ;
}

impl<S, Rhs> TryPartiallyAccumulate<Rhs> for S {
    #[inline]
    fn try_partially_accumulate<Lhs>(self) -> (split: TryPartiallyAccumulated<S, Lhs>) where
        S: Sized,
        Lhs: From<Rhs> + MaybeAccumulable<Rhs>,
     {
        TryPartiallyAccumulated::new(self)
    }
}

/// A fallible splitter over the source `S`.
pub struct TryPartiallyAccumulated<S, Lhs> {
    stream: S,
    lhs: AccumulatedState<Lhs>,
}

impl<S, Lhs> TryPartiallyAccumulated<S, Lhs> {
    /// The source that the items are fetched from.
    pub closed spec fn source(&self) -> S {
        self.stream
    }

    /// The state of the splitting.
    pub closed spec fn state(&self) -> AccumulatedState<Lhs> {
        self.lhs
    }

    /// A fallible splitter over `stream` that has fetched nothing yet.
    pub fn new(stream: S) -> (split: Self)
        ensures
            split.source() == stream,
            split.state() == AccumulatedState::<Lhs>::Uninit,
    {
        Self { stream, lhs: AccumulatedState::Uninit }
    }

    /// Whether the splitter has handed on a failure or reported the end of
    /// its outputs. It must not be polled again then.
    pub fn is_terminated(&self) -> (terminated: bool)
        ensures
            terminated == self.state().ended(),
    {
        self.lhs.is_consumed()
    }

    /// Takes what was fetched from the source, a successful item, a failure
    /// or the end, and says whether an output is ready: the accumulator of a
    /// closed run, the failure, or the end of the outputs.
    pub fn poll_next<V, E>(&mut self, fetched: Option<Result<V, E>>) -> (progress: Progress<
        Option<Result<Lhs, E>>,
    >) where Lhs: From<V> + MaybeAccumulable<V>
        requires
            !old(self).state().ended(),
        ensures
            final(self).source() == old(self).source(),
            old(self).state().try_split_step(fetched, final(self).state(), progress),
            final(self).state().ended() <==> progress == Progress::<
                Option<Result<Lhs, E>>,
            >::Ready(None) || fetched matches Some(Err(_)),
    {
        self.lhs.poll_try_split(fetched)
    }

    /// The source, to fetch the next item from.
    pub fn source_mut(&mut self) -> (source: &mut S)
        ensures
            *source == old(self).source(),
            final(self).source() == *final(source),
            final(self).state() == old(self).state(),
    {
        &mut self.stream
    }

    /// Takes the splitter apart into its source and its state.
    pub fn into_parts(self) -> (parts: (S, AccumulatedState<Lhs>))
        ensures
            parts.0 == self.source(),
            parts.1 == self.state(),
    {
        (self.stream, self.lhs)
    }

    /// Puts a splitter together from a source and a state.
    pub fn from_parts(stream: S, lhs: AccumulatedState<Lhs>) -> (split: Self)
        ensures
            split.source() == stream,
            split.state() == lhs,
    {
        Self { stream, lhs }
    }
}

/// The sequence of successes with the values `values`.
pub open spec fn all_ok<T, E>(values: Seq<T>) -> Seq<Result<T, E>> {
    Seq::new(values.len(), |i: int| Ok(values[i]))
}

/// The outputs of a fallible splitter in `state` whose source yields `items`
/// and then keeps reporting its end, up to the first failure or the end of
/// the outputs.
pub open spec fn try_split_outputs<Lhs: From<V> + MaybeAccumulable<V>, V, E>(
    state: AccumulatedState<Lhs>,
    items: Seq<Result<V, E>>,
) -> Seq<Result<Lhs, E>>
    decreases items.len(), (if state.held() is Some { 1nat } else { 0nat }),
{
    if state.ended() {
        Seq::empty()
    } else if items.len() == 0 {
        match state.try_split_output(None::<Result<V, E>>) {
            Progress::Ready(Some(out)) => seq![out] + try_split_outputs(
                state.after_try_split(None::<Result<V, E>>),
                items,
            ),
            _ => Seq::empty(),
        }
    } else {
        let rest = try_split_outputs(
            state.after_try_split(Some(items[0])),
            items.drop_first(),
        );
        match state.try_split_output(Some(items[0])) {
            Progress::Ready(Some(out)) => seq![out] + rest,
            _ => rest,
        }
    }
}

/// Over a source without failures a fallible splitter hands out, as
/// successes, what a splitter hands out.
pub proof fn lemma_try_split_outputs_of_successes<Lhs: From<V> + MaybeAccumulable<V>, V, E>(
    state: AccumulatedState<Lhs>,
    values: Seq<V>,
)
    ensures
        try_split_outputs(state, all_ok::<V, E>(values)) == all_ok::<Lhs, E>(
            split_outputs(state, values),
        ),
    decreases values.len(), (if state.held() is Some { 1nat } else { 0nat }),
{
    let items = all_ok::<V, E>(values);
    if state.ended() {
        assert(all_ok::<Lhs, E>(Seq::<Lhs>::empty()) =~= Seq::<Result<Lhs, E>>::empty());
    } else if values.len() == 0 {
        match state.split_output(None::<V>) {
            Progress::Ready(Some(lhs)) => {
                let next = state.after_split(None::<V>);
                lemma_try_split_outputs_of_successes::<Lhs, V, E>(next, values);
                assert(seq![Ok::<Lhs, E>(lhs)] + all_ok::<Lhs, E>(split_outputs(next, values))
                    =~= all_ok::<Lhs, E>(seq![lhs] + split_outputs(next, values)));
            },
            _ => {
                assert(all_ok::<Lhs, E>(Seq::<Lhs>::empty()) =~= Seq::<Result<Lhs, E>>::empty());
            },
        }
    } else {
        let next = state.after_split(Some(values[0]));
        assert(items.drop_first() =~= all_ok::<V, E>(values.drop_first()));
        lemma_try_split_outputs_of_successes::<Lhs, V, E>(next, values.drop_first());
        match state.split_output(Some(values[0])) {
            Progress::Ready(Some(lhs)) => {
                let rest = split_outputs(next, values.drop_first());
                assert(seq![Ok::<Lhs, E>(lhs)] + all_ok::<Lhs, E>(rest) =~= all_ok::<Lhs, E>(
                    seq![lhs] + rest,
                ));
            },
            _ => {},
        }
    }
}

/// A fallible splitter over a source without failures hands out, as
/// successes, the accumulators of the maximal runs of the items.
pub proof fn lemma_try_splitter_hands_out_runs<Lhs: From<V> + MaybeAccumulable<V>, V, E>(
    values: Seq<V>,
)
    ensures
        try_split_outputs(AccumulatedState::<Lhs>::Uninit, all_ok::<V, E>(values)) == all_ok::<
            Lhs,
            E,
        >(runs::<Lhs, V>(values)),
{
    lemma_try_split_outputs_of_successes::<Lhs, V, E>(AccumulatedState::<Lhs>::Uninit, values);
    lemma_splitter_hands_out_runs::<Lhs, V>(values);
}

/// The runs that a splitter with the open run `lhs` forms over `values`: the
/// run that `lhs` grows into, and the runs of the items after it.
pub open spec fn runs_from<Lhs: From<V> + MaybeAccumulable<V>, V>(lhs: Lhs, values: Seq<V>) -> Seq<
    Lhs,
> {
    seq![run_acc(lhs, values)] + runs::<Lhs, V>(values.skip(run_len(lhs, values) as int))
}

/// A failure that a fallible splitter with the open run `lhs` meets after
/// the successes `values` drops the run that is open then: the splitter hands
/// out the runs that were closed before, then the failure, and nothing of
/// what follows the failure.
pub proof fn lemma_failure_drops_open_run<Lhs: From<V> + MaybeAccumulable<V>, V, E>(
    lhs: Lhs,
    values: Seq<V>,
    failure: E,
    later: Seq<Result<V, E>>,
)
    ensures
        try_split_outputs(
            AccumulatedState::Accumulable(lhs),
            all_ok::<V, E>(values) + seq![Err::<V, E>(failure)] + later,
        ) == all_ok::<Lhs, E>(runs_from(lhs, values).drop_last()) + seq![
            Err::<Lhs, E>(failure),
        ],
    decreases values.len(),
{
    let state = AccumulatedState::Accumulable(lhs);
    let items = all_ok::<V, E>(values) + seq![Err::<V, E>(failure)] + later;
    if values.len() == 0 {
        assert(items[0] == Err::<V, E>(failure));
        assert(values.skip(0) =~= values);
        assert(runs_from(lhs, values).drop_last() =~= Seq::<Lhs>::empty());
        assert(all_ok::<Lhs, E>(Seq::<Lhs>::empty()) + seq![Err::<Lhs, E>(failure)] =~= seq![
            Err::<Lhs, E>(failure),
        ]);
        assert(try_split_outputs(AccumulatedState::<Lhs>::Consumed, items.drop_first())
            =~= Seq::<Result<Lhs, E>>::empty());
    } else {
        let item = values[0];
        let rest = values.drop_first();
        assert(items[0] == Ok::<V, E>(item));
        assert(items.drop_first() =~= all_ok::<V, E>(rest) + seq![Err::<V, E>(failure)] + later);
        if lhs.accepts(item) {
            lemma_failure_drops_open_run::<Lhs, V, E>(lhs.joined(item), rest, failure, later);
            lemma_run_len_bounded(lhs.joined(item), rest);
            assert(rest.skip(run_len(lhs.joined(item), rest) as int) =~= values.skip(
                run_len(lhs, values) as int,
            ));
        } else {
            let seed = Lhs::from_spec(item);
            lemma_failure_drops_open_run::<Lhs, V, E>(seed, rest, failure, later);
            lemma_run_len_bounded(seed, rest);
            assert(values.skip(0) =~= values);
            assert(rest.skip(run_len(seed, rest) as int) =~= values.skip(
                first_run_len::<Lhs, V>(values) as int,
            ));
            assert(runs_from(lhs, values) =~= seq![lhs] + runs_from(seed, rest));
            assert(runs_from(lhs, values).drop_last() =~= seq![lhs] + runs_from(
                seed,
                rest,
            ).drop_last());
            assert(seq![Ok::<Lhs, E>(lhs)] + all_ok::<Lhs, E>(runs_from(seed, rest).drop_last())
                =~= all_ok::<Lhs, E>(seq![lhs] + runs_from(seed, rest).drop_last()));
        }
    }
}

/// Termination is final: a terminated fallible splitter stays terminated
/// whatever it is handed, and has no output but the end of the outputs.
pub proof fn lemma_try_terminated_stays_terminated<Lhs: From<V> + MaybeAccumulable<V>, V, E>(
    state: AccumulatedState<Lhs>,
    fetched: Option<Result<V, E>>,
    items: Seq<Result<V, E>>,
)
    requires
        state.ended(),
    ensures
        state.after_try_split(fetched).ended(),
        state.try_split_output(fetched) == Progress::<Option<Result<Lhs, E>>>::Ready(None),
        try_split_outputs(state, items) == Seq::<Result<Lhs, E>>::empty(),
{
}

/// A failure preempts the pending run. A fallible splitter whose source
/// yields the successes `values`, then a failure, hands out the runs of
/// `values` but the last, which is open when the failure comes, then the
/// failure, and nothing after it; a failure at the very start is its only
/// output.
pub proof fn lemma_failure_preempts_pending_run<Lhs: From<V> + MaybeAccumulable<V>, V, E>(
    values: Seq<V>,
    failure: E,
    later: Seq<Result<V, E>>,
)
    ensures
        try_split_outputs(
            AccumulatedState::<Lhs>::Uninit,
            all_ok::<V, E>(values) + seq![Err::<V, E>(failure)] + later,
        ) == all_ok::<Lhs, E>(
            if values.len() == 0 {
                Seq::<Lhs>::empty()
            } else {
                runs::<Lhs, V>(values).drop_last()
            },
        ) + seq![Err::<Lhs, E>(failure)],
{
    let items = all_ok::<V, E>(values) + seq![Err::<V, E>(failure)] + later;
    if values.len() == 0 {
        assert(items[0] == Err::<V, E>(failure));
        assert(all_ok::<Lhs, E>(Seq::<Lhs>::empty()) + seq![Err::<Lhs, E>(failure)] =~= seq![
            Err::<Lhs, E>(failure),
        ]);
        assert(try_split_outputs(AccumulatedState::<Lhs>::Consumed, items.drop_first())
            =~= Seq::<Result<Lhs, E>>::empty());
    } else {
        let seed = Lhs::from_spec(values[0]);
        let rest = values.drop_first();
        assert(items[0] == Ok::<V, E>(values[0]));
        assert(items.drop_first() =~= all_ok::<V, E>(rest) + seq![Err::<V, E>(failure)] + later);
        lemma_failure_drops_open_run::<Lhs, V, E>(seed, rest, failure, later);
        lemma_run_len_bounded(seed, rest);
        assert(rest.skip(run_len(seed, rest) as int) =~= values.skip(
            first_run_len::<Lhs, V>(values) as int,
        ));
    }
}

} // verus!
