//! What holds of every verdict.

use vstd::prelude::*;

use super::landed::{
    admitted, count_of, fewer_first, landed_sets, lemma_landed_sets, IN_DOUBT_LIMIT,
};
use super::reading::{
    accepted, admissible_of, difference, fits, prefix, run_of, wanted, AdmissibleModel, PlacedModel, Went,
};
use super::{Ack, BaselineModel, Invariant, JudgedModel, ReadingsModel};
use crate::ipc::message::VerdictModel;
use crate::plan::entry_of;
use crate::protocol::FaultResultModel;
use crate::sorting::lemma_filter_in_order;

verus! {

/// Whether the run's fault fired.
pub open spec fn fired(run: ReadingsModel) -> bool {
    run.fault matches Some(report) && report.result is Fired
}

/// Whether two judgements say the same, but for how a failure is worded.
pub open spec fn alike(a: JudgedModel, b: JudgedModel) -> bool {
    match (a, b) {
        (
            JudgedModel::Now(VerdictModel::Fail { broke: x, .. }),
            JudgedModel::Now(VerdictModel::Fail { broke: y, .. }),
        ) => x == y,
        _ => a == b,
    }
}

/// Only where the fleet settled counts: where it stood on the way, and when,
/// changes nothing but how a failure is worded.
pub proof fn lemma_only_settled_counts(
    a: ReadingsModel,
    b: ReadingsModel,
    references: Seq<(Seq<usize>, BaselineModel)>,
)
    requires
        a.outcomes == b.outcomes,
        a.checks == b.checks,
        a.fault_free == b.fault_free,
        a.fault == b.fault,
    ensures
        alike(a.judged(references), b.judged(references)),
{
}

proof fn lemma_admissible_contains(
    fault_free: BaselineModel,
    references: Seq<(Seq<usize>, BaselineModel)>,
    sets: Seq<Seq<usize>>,
    run: AdmissibleModel,
)
    ensures
        admissible_of(fault_free, references, sets).contains(run) <==> exists|i: int|
            0 <= i < sets.len() && run_of(fault_free, references, #[trigger] sets[i]) == Some(run),
    decreases sets.len(),
{
    if sets.len() > 0 {
        let rest = sets.drop_last();
        let before = admissible_of(fault_free, references, rest);
        let all = admissible_of(fault_free, references, sets);
        lemma_admissible_contains(fault_free, references, rest, run);
        if all.contains(run) {
            let k = choose|k: int| 0 <= k < all.len() && all[k] == run;
            if k < before.len() {
                assert(before[k] == run);
                let i = choose|i: int|
                    0 <= i < rest.len() && run_of(fault_free, references, #[trigger] rest[i]) == Some(
                        run,
                    );
                assert(sets[i] == rest[i]);
            } else {
                assert(sets[sets.len() - 1] == sets.last());
            }
        }
        if exists|i: int|
            0 <= i < sets.len() && run_of(fault_free, references, #[trigger] sets[i]) == Some(run) {
            let i = choose|i: int|
                0 <= i < sets.len() && run_of(fault_free, references, #[trigger] sets[i]) == Some(run);
            if i < rest.len() {
                assert(rest[i] == sets[i]);
                let k = choose|k: int| 0 <= k < before.len() && before[k] == run;
                assert(all[k] == run);
            } else {
                assert(all[before.len() as int] == run);
            }
        }
    }
}

/// Whether where the fleet settled agrees with where the run of some set of
/// steps its acknowledgements admit left it.
pub open spec fn answered(
    run: ReadingsModel,
    references: Seq<(Seq<usize>, BaselineModel)>,
    set: Seq<usize>,
) -> bool {
    &&& admitted(run.outcomes, set)
    &&& run_of(run.fault_free, references, set) matches Some(reached) && difference(
        run.settled(),
        reached.settled,
    ) is Agree
}

proof fn lemma_fits(
    run: ReadingsModel,
    references: Seq<(Seq<usize>, BaselineModel)>,
    sets: Seq<Seq<usize>>,
)
    requires
        run.outcomes.len() <= usize::MAX,
        landed_sets(run.outcomes) == Some(sets),
    ensures
        fits(run.settled(), admissible_of(run.fault_free, references, sets)) <==> exists|set: Seq<usize>|
            #[trigger] answered(run, references, set),
{
    let states = admissible_of(run.fault_free, references, sets);
    lemma_landed_sets(run.outcomes);
    if fits(run.settled(), states) {
        let k = choose|k: int|
            0 <= k < states.len() && difference(run.settled(), (#[trigger] states[k]).settled) is Agree;
        assert(states.contains(states[k]));
        lemma_admissible_contains(run.fault_free, references, sets, states[k]);
        let i = choose|i: int|
            0 <= i < sets.len() && run_of(run.fault_free, references, #[trigger] sets[i]) == Some(
                states[k],
            );
        assert(sets.contains(sets[i]));
        assert(answered(run, references, sets[i]));
    }
    if exists|set: Seq<usize>| #[trigger] answered(run, references, set) {
        let set = choose|set: Seq<usize>| #[trigger] answered(run, references, set);
        assert(sets.contains(set));
        let i = choose|i: int| 0 <= i < sets.len() && sets[i] == set;
        let reached = run_of(run.fault_free, references, set)->0;
        assert(run_of(run.fault_free, references, sets[i]) == Some(reached));
        lemma_admissible_contains(run.fault_free, references, sets, reached);
        let k = choose|k: int| 0 <= k < states.len() && states[k] == reached;
        assert(difference(run.settled(), states[k].settled) is Agree);
    }
}

/// A run passes where, and only where, its fault fired, it drove and checked
/// something, few enough of its steps were left in doubt, and the fleet settled
/// where one of the sets of steps its acknowledgements admit leaves it.
pub proof fn lemma_pass_exactly(run: ReadingsModel, references: Seq<(Seq<usize>, BaselineModel)>)
    requires
        run.outcomes.len() <= usize::MAX,
    ensures
        run.judged(references) == JudgedModel::Now(VerdictModel::Pass) <==> {
            &&& fired(run)
            &&& run.outcomes.len() > 0
            &&& run.checks.len() > 0
            &&& count_of(run.outcomes, Ack::Unknown) <= IN_DOUBT_LIMIT
            &&& exists|set: Seq<usize>| #[trigger] answered(run, references, set)
        },
{
    if fired(run) && run.outcomes.len() > 0 && run.checks.len() > 0 {
        match landed_sets(run.outcomes) {
            None => {},
            Some(sets) => {
                lemma_fits(run, references, sets);
                let states = admissible_of(run.fault_free, references, sets);
                if states.len() > 0 && difference(run.settled(), states.last().settled) is Agree {
                    assert(difference(run.settled(), states[states.len() - 1].settled) is Agree);
                    assert(fits(run.settled(), states));
                }
            },
        }
    }
}

/// A fault that was never scheduled or did not fire tests nothing: the run is
/// neither passed nor failed, and no reference run is asked for.
pub proof fn lemma_nothing_fired_is_inconclusive(
    run: ReadingsModel,
    references: Seq<(Seq<usize>, BaselineModel)>,
)
    requires
        !fired(run),
    ensures
        run.judged(references) matches JudgedModel::Now(VerdictModel::Inconclusive { .. }),
{
}

/// A failure names an invariant only where breaking the fleet that way could
/// have shown it.
pub proof fn lemma_broke_could_be_shown(
    run: ReadingsModel,
    references: Seq<(Seq<usize>, BaselineModel)>,
)
    ensures
        run.judged(references) matches JudgedModel::Now(VerdictModel::Fail { broke: Some(broke), .. })
            ==> {
            &&& run.fault matches Some(report)
            &&& report.result matches FaultResultModel::Fired { by, at, .. }
            &&& (PlacedModel { service: report.service, by, at }).could_show().contains(broke)
        },
{
    match run.fault {
        Some(report) => match report.result {
            FaultResultModel::Fired { by, at, .. } => {
                let fault = PlacedModel { service: report.service, by, at };
                assert forall|went: Went, admissible: Seq<AdmissibleModel>|
                    (#[trigger] fault.broke(went, admissible)) matches Some(broke) implies {
                    fault.could_show().contains(fault.broke(went, admissible)->0)
                } by {
                    if fault.behind(went, admissible) || fault.could_show().len() == 1 {
                        assert(fault.could_show()[0] == fault.broke(went, admissible)->0);
                    }
                }
            },
            _ => {},
        },
        None => {},
    }
}

/// A run held down from start to finish shows recovery broken where, and only
/// where, the fleet settled short of work it accepted. No other run shows it.
pub proof fn lemma_recovery_is_never_caught_up(
    fault: PlacedModel,
    went: Went,
    admissible: Seq<AdmissibleModel>,
)
    ensures
        fault.broke(went, admissible) == Some(Invariant::Recovers) <==> fault.at is Throughout && went
            == Went::Lost && accepted(admissible),
{
    if !(fault.at is Throughout) {
        assert(!fault.could_show().contains(Invariant::Recovers));
        if fault.could_show().len() == 1 {
            assert(fault.could_show().contains(fault.could_show()[0]));
        }
    }
}

/// Whether every reference run of `fewer` is one of `more`.
pub open spec fn extends(
    fewer: Seq<(Seq<usize>, BaselineModel)>,
    more: Seq<(Seq<usize>, BaselineModel)>,
) -> bool {
    forall|set: Seq<usize>|
        #[trigger] entry_of(fewer, set) is Some ==> entry_of(more, set) == entry_of(fewer, set)
}

/// A run that passes goes on passing however many more reference runs are
/// taken.
pub proof fn lemma_pass_stands(
    run: ReadingsModel,
    fewer: Seq<(Seq<usize>, BaselineModel)>,
    more: Seq<(Seq<usize>, BaselineModel)>,
)
    requires
        run.outcomes.len() <= usize::MAX,
        extends(fewer, more),
        run.judged(fewer) == JudgedModel::Now(VerdictModel::Pass),
    ensures
        run.judged(more) == JudgedModel::Now(VerdictModel::Pass),
{
    lemma_pass_exactly(run, fewer);
    lemma_pass_exactly(run, more);
    let set = choose|set: Seq<usize>| #[trigger] answered(run, fewer, set);
    assert(entry_of(fewer, set) is Some ==> entry_of(more, set) == entry_of(fewer, set));
    assert(answered(run, more, set));
}

pub(crate) proof fn lemma_wanted_contains(
    fault_free: BaselineModel,
    references: Seq<(Seq<usize>, BaselineModel)>,
    sets: Seq<Seq<usize>>,
    set: Seq<usize>,
)
    ensures
        wanted(fault_free, references, sets).contains(set) <==> sets.contains(set) && !prefix(set)
            && entry_of(references, set) is None,
{
    let missing = |set: Seq<usize>| run_of(fault_free, references, set) is None && !prefix(set);
    let left = sets.filter(missing);
    broadcast use vstd::seq_lib::group_filter_ensures;

    if left.contains(set) {
        let k = choose|k: int| 0 <= k < left.len() && left[k] == set;
        sets.lemma_filter_pred(missing, k);
        sets.lemma_filter_contains_rev(missing, set);
    }
    if sets.contains(set) && missing(set) {
        let k = choose|k: int| 0 <= k < sets.len() && sets[k] == set;
        sets.lemma_filter_contains(missing, k);
    }
}

/// The sets a run is held up by are ones its acknowledgements admit, that the
/// fault-free run cannot answer for and no reference run has been taken of. Each
/// is asked for once, those with fewer steps first, and of two with as many the
/// one with the smaller step where they first part. Taking one of each settles
/// the run: no more are asked for.
pub proof fn lemma_references_settle(
    run: ReadingsModel,
    references: Seq<(Seq<usize>, BaselineModel)>,
    sets: Seq<Seq<usize>>,
)
    requires
        run.outcomes.len() <= usize::MAX,
        run.judged(references) == JudgedModel::Pending(sets),
    ensures
        sets.len() > 0,
        sets.no_duplicates(),
        forall|i: int, j: int|
            0 <= i < j < sets.len() ==> fewer_first()(#[trigger] sets[i], #[trigger] sets[j]),
        forall|set: Seq<usize>|
            #[trigger] sets.contains(set) ==> admitted(run.outcomes, set) && !prefix(set) && entry_of(
                references,
                set,
            ) is None,
        forall|more: Seq<(Seq<usize>, BaselineModel)>|
            #[trigger] extends(references, more) && (forall|set: Seq<usize>|
                sets.contains(set) ==> #[trigger] entry_of(more, set) is Some) ==> run.judged(
                more,
            ) is Now,
{
    let all = landed_sets(run.outcomes)->0;
    assert(landed_sets(run.outcomes) is Some);
    lemma_landed_sets(run.outcomes);
    let missing = |set: Seq<usize>|
        run_of(run.fault_free, references, set) is None && !prefix(set);
    assert(sets == all.filter(missing));
    lemma_filter_in_order(all, missing, fewer_first());
    let apart = |a: Seq<usize>, b: Seq<usize>| a != b;
    lemma_filter_in_order(all, missing, apart);
    assert forall|i: int, j: int| 0 <= i < sets.len() && 0 <= j < sets.len() && i
        != j implies sets[i] != sets[j] by {
        if i < j {
            assert(apart(sets[i], sets[j]));
        } else {
            assert(apart(sets[j], sets[i]));
        }
    }
    assert forall|set: Seq<usize>| #[trigger] sets.contains(set) implies admitted(run.outcomes, set)
        && !prefix(set) && entry_of(references, set) is None by {
        lemma_wanted_contains(run.fault_free, references, all, set);
    }
    assert forall|more: Seq<(Seq<usize>, BaselineModel)>|
        #[trigger] extends(references, more) && (forall|set: Seq<usize>|
            sets.contains(set) ==> #[trigger] entry_of(more, set) is Some) implies run.judged(
        more,
    ) is Now by {
        let left = wanted(run.fault_free, more, all);
        if left.len() > 0 {
            let set = left[0];
            assert(left.contains(set));
            lemma_wanted_contains(run.fault_free, more, all, set);
            lemma_wanted_contains(run.fault_free, references, all, set);
            assert(entry_of(more, set) is None);
            assert(entry_of(references, set) is None);
            assert(sets.contains(set));
        }
    }
}

} // verus!
