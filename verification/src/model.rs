//! The mathematical model of merging: what a whole sequence reduces to, and
//! how a sequence falls into runs.

use vstd::prelude::*;
use vstd::std_specs::convert::FromSpec;
use crate::{Accumulable, MaybeAccumulable};

verus! {

/// Whether `seed` is an accumulator that the conversion of `Lhs` may make
/// from `item` alone. Where the conversion obeys its specification, `seed` is
/// then `Lhs::from_spec(item)`.
pub open spec fn seeded<Lhs: From<Rhs>, Rhs>(item: Rhs, seed: Lhs) -> bool {
    call_ensures(<Lhs as From<Rhs>>::from, (item,), seed)
}

/// `acc` after it absorbed every item of `items`, first to last.
pub open spec fn fold_into<Lhs: Accumulable<Rhs>, Rhs>(acc: Lhs, items: Seq<Rhs>) -> Lhs
    decreases items.len(),
{
    if items.len() == 0 {
        acc
    } else {
        fold_into(acc.absorbed(items[0]), items.drop_first())
    }
}

/// The single merged value of `items`: nothing for the empty sequence,
/// otherwise the first item turned into an accumulator that absorbs the rest.
pub open spec fn reduced<Lhs: From<Rhs> + Accumulable<Rhs>, Rhs>(items: Seq<Rhs>) -> Option<Lhs> {
    if items.len() == 0 {
        None
    } else {
        Some(fold_into(Lhs::from_spec(items[0]), items.drop_first()))
    }
}

/// Whether `merged` is what `items`, a non-empty sequence, reduces to, for
/// some accumulator that the conversion may make from the first item.
pub open spec fn is_reduction<Lhs: From<Rhs> + Accumulable<Rhs>, Rhs>(
    items: Seq<Rhs>,
    merged: Lhs,
) -> bool
    recommends
        items.len() > 0,
{
    exists|seed: Lhs| #[trigger]
        seeded(items[0], seed) && merged == fold_into(seed, items.drop_first())
}

/// How many leading items of `items` the accumulator `acc` takes in before it
/// rejects one or the items end.
pub open spec fn run_len<Lhs: MaybeAccumulable<Rhs>, Rhs>(acc: Lhs, items: Seq<Rhs>) -> nat
    decreases items.len(),
{
    if items.len() > 0 && acc.accepts(items[0]) {
        1 + run_len(acc.joined(items[0]), items.drop_first())
    } else {
        0
    }
}

/// The accumulator `acc` after it took in the leading items of `items` that
/// it accepts.
pub open spec fn run_acc<Lhs: MaybeAccumulable<Rhs>, Rhs>(acc: Lhs, items: Seq<Rhs>) -> Lhs
    decreases items.len(),
{
    if items.len() > 0 && acc.accepts(items[0]) {
        run_acc(acc.joined(items[0]), items.drop_first())
    } else {
        acc
    }
}

/// `acc` after it took in every item of `items`, each through the
/// conditional merge, whether or not it would have been accepted.
pub open spec fn join_all<Lhs: MaybeAccumulable<Rhs>, Rhs>(acc: Lhs, items: Seq<Rhs>) -> Lhs
    decreases items.len(),
{
    if items.len() == 0 {
        acc
    } else {
        join_all(acc.joined(items[0]), items.drop_first())
    }
}

/// A run never takes in more items than there are.
pub proof fn lemma_run_len_bounded<Lhs: MaybeAccumulable<Rhs>, Rhs>(acc: Lhs, items: Seq<Rhs>)
    ensures
        run_len(acc, items) <= items.len(),
    decreases items.len(),
{
    if items.len() > 0 && acc.accepts(items[0]) {
        lemma_run_len_bounded(acc.joined(items[0]), items.drop_first());
    }
}

/// The length of the first run of a non-empty `items`, seed included.
pub open spec fn first_run_len<Lhs: From<Rhs> + MaybeAccumulable<Rhs>, Rhs>(items: Seq<Rhs>) -> nat
    recommends
        items.len() > 0,
{
    1 + run_len(Lhs::from_spec(items[0]), items.drop_first())
}

/// The accumulator of the first run of a non-empty `items`.
pub open spec fn first_run<Lhs: From<Rhs> + MaybeAccumulable<Rhs>, Rhs>(items: Seq<Rhs>) -> Lhs
    recommends
        items.len() > 0,
{
    run_acc(Lhs::from_spec(items[0]), items.drop_first())
}

/// The accumulators of the maximal runs of `items`, in order.
pub open spec fn runs<Lhs: From<Rhs> + MaybeAccumulable<Rhs>, Rhs>(items: Seq<Rhs>) -> Seq<Lhs>
    decreases items.len(),
    via runs_decreases::<Lhs, Rhs>
{
    if items.len() == 0 {
        Seq::empty()
    } else {
        seq![first_run::<Lhs, Rhs>(items)] + runs::<Lhs, Rhs>(
            items.skip(first_run_len::<Lhs, Rhs>(items) as int),
        )
    }
}

#[via_fn]
proof fn runs_decreases<Lhs: From<Rhs> + MaybeAccumulable<Rhs>, Rhs>(items: Seq<Rhs>) {
    if items.len() > 0 {
        lemma_run_len_bounded(Lhs::from_spec(items[0]), items.drop_first());
    }
}

/// Whether `run` is the accumulator of the first run of a non-empty `items`
/// and `rest` the items after that run, for some accumulator that the
/// conversion may make from the first item.
pub open spec fn is_first_run<Lhs: From<Rhs> + MaybeAccumulable<Rhs>, Rhs>(
    items: Seq<Rhs>,
    run: Lhs,
    rest: Seq<Rhs>,
) -> bool
    recommends
        items.len() > 0,
{
    exists|seed: Lhs| #[trigger]
        seeded(items[0], seed) && run == run_acc(seed, items.drop_first()) && rest == items.skip(
            1 + run_len(seed, items.drop_first()) as int,
        )
}

/// Whether `outs` are the accumulators of the leading runs of `items`, in
/// order, and `rest` the items after those runs, each run seeded by an
/// accumulator that the conversion may make from its first item.
pub open spec fn are_leading_runs<Lhs: From<Rhs> + MaybeAccumulable<Rhs>, Rhs>(
    items: Seq<Rhs>,
    outs: Seq<Lhs>,
    rest: Seq<Rhs>,
) -> bool
    decreases outs.len(),
{
    if outs.len() == 0 {
        rest == items
    } else {
        items.len() > 0 && exists|after: Seq<Rhs>| #[trigger]
            is_first_run(items, outs[0], after) && are_leading_runs(after, outs.drop_first(), rest)
    }
}

/// Leading runs followed by the next run are leading runs.
pub proof fn lemma_leading_runs_push<Lhs: From<Rhs> + MaybeAccumulable<Rhs>, Rhs>(
    items: Seq<Rhs>,
    outs: Seq<Lhs>,
    middle: Seq<Rhs>,
    run: Lhs,
    rest: Seq<Rhs>,
)
    requires
        are_leading_runs(items, outs, middle),
        middle.len() > 0,
        is_first_run(middle, run, rest),
    ensures
        are_leading_runs(items, outs.push(run), rest),
    decreases outs.len(),
{
    let longer = outs.push(run);
    if outs.len() == 0 {
        assert(longer.drop_first() =~= Seq::<Lhs>::empty());
        assert(is_first_run(items, longer[0], rest) && are_leading_runs(
            rest,
            longer.drop_first(),
            rest,
        ));
    } else {
        let after = choose|after: Seq<Rhs>| #[trigger]
            is_first_run(items, outs[0], after) && are_leading_runs(after, outs.drop_first(), middle);
        lemma_leading_runs_push(after, outs.drop_first(), middle, run, rest);
        assert(longer.drop_first() =~= outs.drop_first().push(run));
        assert(is_first_run(items, longer[0], after) && are_leading_runs(
            after,
            longer.drop_first(),
            rest,
        ));
    }
}

/// Where the conversion obeys its specification, the leading runs that leave
/// nothing over are the runs.
pub proof fn lemma_leading_runs_are_runs<Lhs: From<Rhs> + MaybeAccumulable<Rhs>, Rhs>(
    items: Seq<Rhs>,
    outs: Seq<Lhs>,
)
    requires
        Lhs::obeys_from_spec(),
        are_leading_runs(items, outs, Seq::<Rhs>::empty()),
    ensures
        outs == runs::<Lhs, Rhs>(items),
    decreases outs.len(),
{
    if outs.len() == 0 {
        assert(outs =~= runs::<Lhs, Rhs>(items));
    } else {
        let after = choose|after: Seq<Rhs>| #[trigger]
            is_first_run(items, outs[0], after) && are_leading_runs(
                after,
                outs.drop_first(),
                Seq::<Rhs>::empty(),
            );
        lemma_leading_runs_are_runs(after, outs.drop_first());
        assert(outs =~= seq![outs[0]] + outs.drop_first());
    }
}

/// Run boundaries are exactly where the conditional merge rejects. Of the
/// run that `acc` grows into over `items`: every item of the run was accepted
/// by the accumulator as it stood after the items before it; the run ends at
/// the end of the items or at the first item that this accumulator rejects,
/// which is the first item after the run; and the run's accumulator has taken
/// in just the items of the run.
pub proof fn lemma_run_boundary<Lhs: MaybeAccumulable<Rhs>, Rhs>(acc: Lhs, items: Seq<Rhs>)
    ensures
        run_len(acc, items) <= items.len(),
        forall|k: int|
            0 <= k < run_len(acc, items) ==> join_all(acc, #[trigger] items.take(k)).accepts(
                items[k],
            ),
        run_len(acc, items) < items.len() ==> !run_acc(acc, items).accepts(
            items[run_len(acc, items) as int],
        ),
        run_acc(acc, items) == join_all(acc, items.take(run_len(acc, items) as int)),
    decreases items.len(),
{
    if items.len() > 0 && acc.accepts(items[0]) {
        let next = acc.joined(items[0]);
        let rest = items.drop_first();
        lemma_run_boundary(next, rest);
        assert forall|k: int| 0 <= k < run_len(acc, items) implies join_all(
            acc,
            #[trigger] items.take(k),
        ).accepts(items[k]) by {
            if k > 0 {
                assert(items.take(k).drop_first() =~= rest.take(k - 1));
            } else {
                assert(items.take(0) =~= Seq::<Rhs>::empty());
            }
        }
        assert(items.take(run_len(acc, items) as int).drop_first() =~= rest.take(
            run_len(next, rest) as int,
        ));
    } else {
        assert(items.take(0) =~= Seq::<Rhs>::empty());
    }
}

/// The first run of a non-empty sequence starts at its first item, and the
/// runs after it are the runs of what follows the first run: the next run
/// starts at the first rejected item.
pub proof fn lemma_runs_unfold<Lhs: From<Rhs> + MaybeAccumulable<Rhs>, Rhs>(items: Seq<Rhs>)
    requires
        items.len() > 0,
    ensures
        1 <= first_run_len::<Lhs, Rhs>(items) <= items.len(),
        runs::<Lhs, Rhs>(items).len() > 0,
        runs::<Lhs, Rhs>(items)[0] == run_acc(Lhs::from_spec(items[0]), items.drop_first()),
        runs::<Lhs, Rhs>(items).drop_first() == runs::<Lhs, Rhs>(
            items.skip(first_run_len::<Lhs, Rhs>(items) as int),
        ),
        first_run_len::<Lhs, Rhs>(items) < items.len() ==> !first_run::<Lhs, Rhs>(items).accepts(
            items[first_run_len::<Lhs, Rhs>(items) as int],
        ),
{
    lemma_run_boundary(Lhs::from_spec(items[0]), items.drop_first());
    let tail = runs::<Lhs, Rhs>(items.skip(first_run_len::<Lhs, Rhs>(items) as int));
    assert((seq![first_run::<Lhs, Rhs>(items)] + tail).drop_first() =~= tail);
}

/// The total of a sequence of accumulators: the first one after it absorbed
/// the others, in order. Nothing for the empty sequence.
pub open spec fn total<Lhs: Accumulable<Lhs>>(accs: Seq<Lhs>) -> Option<Lhs> {
    if accs.len() == 0 {
        None
    } else {
        Some(fold_into::<Lhs, Lhs>(accs[0], accs.drop_first()))
    }
}

/// The merges of `Lhs` agree with one another: an accepted candidate is
/// taken in as the unconditional merge takes it in, absorbing the accumulator
/// made from an item is absorbing the item, and absorbing is associative,
/// for items and for accumulators.
pub open spec fn merges_agree<Lhs, Rhs>() -> bool where
    Lhs: From<Rhs> + Accumulable<Rhs> + Accumulable<Lhs> + MaybeAccumulable<Rhs>,
 {
    &&& forall|a: Lhs, x: Rhs| #[trigger]
        a.accepts(x) ==> a.joined(x) == <Lhs as Accumulable<Rhs>>::absorbed(a, x)
    &&& forall|a: Lhs, x: Rhs|
        #[trigger] <Lhs as Accumulable<Lhs>>::absorbed(a, Lhs::from_spec(x)) == <Lhs as Accumulable<
            Rhs,
        >>::absorbed(a, x)
    &&& forall|a: Lhs, b: Lhs, x: Rhs|
        #[trigger] <Lhs as Accumulable<Lhs>>::absorbed(
            a,
            <Lhs as Accumulable<Rhs>>::absorbed(b, x),
        ) == <Lhs as Accumulable<Rhs>>::absorbed(<Lhs as Accumulable<Lhs>>::absorbed(a, b), x)
    &&& forall|a: Lhs, b: Lhs, c: Lhs|
        #[trigger] <Lhs as Accumulable<Lhs>>::absorbed(
            a,
            <Lhs as Accumulable<Lhs>>::absorbed(b, c),
        ) == <Lhs as Accumulable<Lhs>>::absorbed(<Lhs as Accumulable<Lhs>>::absorbed(a, b), c)
}

/// Absorbing an accumulator that has absorbed items is absorbing the
/// accumulator and then the items.
proof fn lemma_absorb_folded_items<Lhs, Rhs>(a: Lhs, b: Lhs, items: Seq<Rhs>) where
    Lhs: From<Rhs> + Accumulable<Rhs> + Accumulable<Lhs> + MaybeAccumulable<Rhs>,

    requires
        merges_agree::<Lhs, Rhs>(),
    ensures
        <Lhs as Accumulable<Lhs>>::absorbed(a, fold_into::<Lhs, Rhs>(b, items)) == fold_into::<
            Lhs,
            Rhs,
        >(<Lhs as Accumulable<Lhs>>::absorbed(a, b), items),
    decreases items.len(),
{
    if items.len() > 0 {
        let next = <Lhs as Accumulable<Rhs>>::absorbed(b, items[0]);
        lemma_absorb_folded_items::<Lhs, Rhs>(a, next, items.drop_first());
    }
}

/// Absorbing an accumulator that has absorbed accumulators is absorbing the
/// accumulator and then the others.
proof fn lemma_absorb_folded_accs<Lhs, Rhs>(a: Lhs, b: Lhs, accs: Seq<Lhs>) where
    Lhs: From<Rhs> + Accumulable<Rhs> + Accumulable<Lhs> + MaybeAccumulable<Rhs>,

    requires
        merges_agree::<Lhs, Rhs>(),
    ensures
        <Lhs as Accumulable<Lhs>>::absorbed(a, fold_into::<Lhs, Lhs>(b, accs)) == fold_into::<
            Lhs,
            Lhs,
        >(<Lhs as Accumulable<Lhs>>::absorbed(a, b), accs),
    decreases accs.len(),
{
    if accs.len() > 0 {
        let next = <Lhs as Accumulable<Lhs>>::absorbed(b, accs[0]);
        lemma_absorb_folded_accs::<Lhs, Rhs>(a, next, accs.drop_first());
    }
}

/// The run that `acc` grows into over `items`, after it absorbed the runs of
/// the items that follow it, is `acc` after it absorbed all of `items`.
proof fn lemma_open_run_total<Lhs, Rhs>(acc: Lhs, items: Seq<Rhs>) where
    Lhs: From<Rhs> + Accumulable<Rhs> + Accumulable<Lhs> + MaybeAccumulable<Rhs>,

    requires
        merges_agree::<Lhs, Rhs>(),
    ensures
        fold_into::<Lhs, Lhs>(
            run_acc(acc, items),
            runs::<Lhs, Rhs>(items.skip(run_len(acc, items) as int)),
        ) == fold_into::<Lhs, Rhs>(acc, items),
    decreases items.len(),
{
    if items.len() == 0 {
        assert(items.skip(0) =~= items);
    } else {
        let item = items[0];
        let rest = items.drop_first();
        if acc.accepts(item) {
            lemma_open_run_total::<Lhs, Rhs>(acc.joined(item), rest);
            lemma_run_len_bounded(acc.joined(item), rest);
            assert(rest.skip(run_len(acc.joined(item), rest) as int) =~= items.skip(
                run_len(acc, items) as int,
            ));
        } else {
            let seed = Lhs::from_spec(item);
            let head = run_acc(seed, rest);
            let after = runs::<Lhs, Rhs>(items.skip(first_run_len::<Lhs, Rhs>(items) as int));
            assert(items.skip(0) =~= items);
            lemma_run_len_bounded(seed, rest);
            assert(rest.skip(run_len(seed, rest) as int) =~= items.skip(
                first_run_len::<Lhs, Rhs>(items) as int,
            ));
            lemma_open_run_total::<Lhs, Rhs>(seed, rest);
            assert((seq![head] + after).drop_first() =~= after);
            lemma_absorb_folded_accs::<Lhs, Rhs>(acc, head, after);
            lemma_absorb_folded_items::<Lhs, Rhs>(acc, seed, rest);
        }
    }
}

/// Splitting preserves the total: the accumulators of the runs of `items`,
/// merged into one in order, give what the reduction of `items` gives.
pub proof fn lemma_runs_preserve_total<Lhs, Rhs>(items: Seq<Rhs>) where
    Lhs: From<Rhs> + Accumulable<Rhs> + Accumulable<Lhs> + MaybeAccumulable<Rhs>,

    requires
        merges_agree::<Lhs, Rhs>(),
    ensures
        total(runs::<Lhs, Rhs>(items)) == reduced::<Lhs, Rhs>(items),
{
    if items.len() > 0 {
        let seed = Lhs::from_spec(items[0]);
        let rest = items.drop_first();
        let after = runs::<Lhs, Rhs>(items.skip(first_run_len::<Lhs, Rhs>(items) as int));
        lemma_run_len_bounded(seed, rest);
        assert(rest.skip(run_len(seed, rest) as int) =~= items.skip(
            first_run_len::<Lhs, Rhs>(items) as int,
        ));
        lemma_open_run_total::<Lhs, Rhs>(seed, rest);
        assert((seq![first_run::<Lhs, Rhs>(items)] + after).drop_first() =~= after);
    }
}

} // verus!
