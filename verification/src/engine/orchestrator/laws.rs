//! What holds of every run, however what it asks for goes.

use vstd::prelude::*;

use super::degraded::{DegradedModel, StageModel as DegradedStage};
use super::lifecycle::{BringModel, GoesModel, OutingModel, RanModel, WentModel};
use super::{missing, AnchoredModel, CameModel, Placement, StageModel};
use crate::protocol::{FaultResultModel, MissModel};

verus! {

/// Whether a service was killed then, the flow was released behind that, and the
/// service was brought back behind that.
pub open spec fn recovered(came: Seq<CameModel>, at_ns: u128) -> bool {
    exists|i: int, j: int, k: int|
        #![trigger came[i], came[j], came[k]]
        0 <= i < j < k < came.len() && came[i] == (CameModel::Killed { at_ns }) && came[j]
            == CameModel::Done && came[k] == CameModel::Done
}

spec fn released(came: Seq<CameModel>, at_ns: u128) -> bool {
    exists|i: int, j: int|
        #![trigger came[i], came[j]]
        0 <= i < j < came.len() && came[i] == (CameModel::Killed { at_ns }) && came[j]
            == CameModel::Done
}

spec fn killed(came: Seq<CameModel>, at_ns: u128) -> bool {
    exists|i: int| 0 <= i < came.len() && #[trigger] came[i] == (CameModel::Killed { at_ns })
}

/// Whether the proxy said then that it had placed the fault.
pub open spec fn said(came: Seq<CameModel>, at_ns: u128) -> bool {
    exists|i: int|
        0 <= i < came.len() && (#[trigger] came[i] matches CameModel::Heard(Some(heard))
            && heard.did is Placed && heard.at_ns == at_ns)
}

spec fn accounted(run: AnchoredModel, came: Seq<CameModel>) -> bool {
    match run.stage {
        StageModel::Proceed { at_ns } => run.placement == Placement::Kill && killed(came, at_ns),
        StageModel::Restart { at_ns } => run.placement == Placement::Kill && released(came, at_ns),
        StageModel::Kill => run.placement == Placement::Kill,
        StageModel::Listen => run.placement != Placement::Kill,
        StageModel::Reported(report) => match report.result {
            FaultResultModel::Fired { placed_at_ns, .. } => if run.placement == Placement::Kill {
                recovered(came, placed_at_ns)
            } else {
                said(came, placed_at_ns)
            },
            _ => true,
        },
        _ => true,
    }
}

proof fn lemma_accounted(start: AnchoredModel, came: Seq<CameModel>)
    requires
        accounted(start, Seq::empty()),
        !(start.stage is Reported),
    ensures
        accounted(start.after(came), came),
        start.after(came).placement == start.placement,
    decreases came.len(),
{
    if came.len() > 0 {
        let few = came.drop_last();
        let last = came.last();
        let n = few.len() as int;
        lemma_accounted(start, few);
        let before = start.after(few);
        let after = start.after(came);
        assert(came[n] == last);
        assert forall|at_ns: u128| #[trigger] killed(few, at_ns) implies killed(came, at_ns) by {
            let i = choose|i: int|
                0 <= i < few.len() && #[trigger] few[i] == (CameModel::Killed { at_ns });
            assert(came[i] == few[i]);
        }
        assert forall|at_ns: u128| #[trigger] released(few, at_ns) implies released(
            came,
            at_ns,
        ) by {
            let (i, j) = choose|i: int, j: int|
                #![trigger few[i], few[j]]
                0 <= i < j < few.len() && few[i] == (CameModel::Killed { at_ns }) && few[j]
                    == CameModel::Done;
            assert(came[i] == few[i] && came[j] == few[j]);
        }
        assert forall|at_ns: u128| #[trigger] recovered(few, at_ns) implies recovered(
            came,
            at_ns,
        ) by {
            let (i, j, k) = choose|i: int, j: int, k: int|
                #![trigger few[i], few[j], few[k]]
                0 <= i < j < k < few.len() && few[i] == (CameModel::Killed { at_ns }) && few[j]
                    == CameModel::Done && few[k] == CameModel::Done;
            assert(came[i] == few[i] && came[j] == few[j] && came[k] == few[k]);
        }
        assert forall|at_ns: u128| #[trigger] said(few, at_ns) implies said(came, at_ns) by {
            let i = choose|i: int|
                0 <= i < few.len() && (#[trigger] few[i] matches CameModel::Heard(Some(heard))
                    && heard.did is Placed && heard.at_ns == at_ns);
            assert(came[i] == few[i]);
        }
        if before.stage is Kill && last is Killed {
            assert(came[n] == (CameModel::Killed { at_ns: last->Killed_at_ns }));
            assert(killed(came, last->Killed_at_ns));
        }
        if before.stage is Proceed && last is Done {
            let at_ns = before.stage->Proceed_at_ns;
            let i = choose|i: int|
                0 <= i < few.len() && #[trigger] few[i] == (CameModel::Killed { at_ns });
            assert(came[i] == few[i] && came[n] == CameModel::Done);
            assert(released(came, at_ns));
        }
        if before.stage is Restart && last is Done {
            let at_ns = before.stage->Restart_at_ns;
            let (i, j) = choose|i: int, j: int|
                #![trigger few[i], few[j]]
                0 <= i < j < few.len() && few[i] == (CameModel::Killed { at_ns }) && few[j]
                    == CameModel::Done;
            assert(came[i] == few[i] && came[j] == few[j] && came[n] == CameModel::Done);
            assert(recovered(came, at_ns));
        }
    }
}

/// An anchored fault is reported to have fired only if it did: a kill whose
/// service was killed at the time the report gives, whose flow was then released
/// and whose service was then brought back; or a fault the proxy places itself,
/// of which the proxy said at the time the report gives that it was placed. So a
/// verdict is never read off a fleet that is frozen or dead, nor off one that was
/// never broken.
pub proof fn lemma_fired_only_if_it_did(start: AnchoredModel, came: Seq<CameModel>)
    requires
        start.stage is Baseline,
    ensures
        start.after(came).stage matches StageModel::Reported(report) ==> (
        report.result matches FaultResultModel::Fired { placed_at_ns, .. } ==> if start.placement
            == Placement::Kill {
            recovered(came, placed_at_ns)
        } else {
            said(came, placed_at_ns)
        }),
{
    lemma_accounted(start, came);
}

/// A failed kill fired nothing, and is a miss rather than an error: the fleet is
/// let go, and only failing to let it go fails the run.
pub proof fn lemma_failed_kill_is_a_miss(run: AnchoredModel, e: Seq<char>, f: Seq<char>)
    requires
        run.stage is Kill,
    ensures
        ({
            let let_go = run.next(CameModel::Failed(e));
            &&& let_go.act() is Abandon
            &&& let_go.next(CameModel::Done).stage == StageModel::Reported(
                missing(run.id, run.fault, MissModel::Failed(e)),
            )
            &&& let_go.next(CameModel::Failed(f)).stage == StageModel::Failed(f)
        }),
{
}

/// A kill that landed but could not be recovered from fails the run, wherever
/// recovering from it fails.
pub proof fn lemma_failed_recovery_is_an_error(run: AnchoredModel, at_ns: u128, e: Seq<char>)
    requires
        run.stage is Kill,
    ensures
        ({
            let dead = run.next(CameModel::Killed { at_ns });
            &&& dead.next(CameModel::Failed(e)).stage == StageModel::Failed(e)
            &&& dead.next(CameModel::Done).next(CameModel::Failed(e)).stage == StageModel::Failed(e)
        }),
{
}

/// A fault the proxy did not say it placed is a miss, with what the proxy did
/// say.
pub proof fn lemma_unheard_fault_is_a_miss(
    run: AnchoredModel,
    heard: Option<crate::observer::ReportedModel>,
)
    requires
        run.stage is Listen,
        !(heard is Some && heard->0.did is Placed),
    ensures
        run.next(CameModel::Heard(heard)).stage == StageModel::Reported(
            missing(run.id, run.fault, MissModel::Failed(super::unplaced_spelling(heard))),
        ),
{
}

/// What a run comes to is final.
pub proof fn lemma_reports_are_final(run: AnchoredModel, came: Seq<CameModel>)
    requires
        run.stage is Reported || run.stage is Failed,
    ensures
        run.after(came) == run,
    decreases came.len(),
{
    if came.len() > 0 {
        lemma_reports_are_final(run, came.drop_last());
    }
}

/// A fleet degraded throughout is reported to have been only once it has been
/// put back: the fleet let go, and before that a killed service brought back.
pub proof fn lemma_degraded_is_put_back(run: DegradedModel, came: CameModel)
    requires
        !(run.stage is Reported),
    ensures
        ({
            let next = run.next(came);
            &&& next.stage matches DegradedStage::Reported(report) ==> (report.result is Fired
                ==> run.stage is Proceed && came is Done && report.result->placed_at_ns
                == run.stage->Proceed_at_ns)
            &&& run.placement == Placement::Kill && next.stage is Proceed && !(run.stage is Proceed)
                ==> run.stage is Restart && came is Done
            &&& next.stage is Drive && !(run.stage is Drive) ==> (run.stage is Kill && came
                is Killed) || (run.stage is Arm && came is Armed)
        }),
{
}

/// A replica that could not be brought up is torn down before that is said,
/// whatever tearing it down comes to; its observer is shut down first where there
/// is one; and what is said is what failed, not what came of tearing down.
pub proof fn lemma_failed_setup_tears_down(at: BringModel, went: WentModel)
    ensures
        at.next(went) matches BringModel::Failed { e } ==> at == (BringModel::TearDown { e })
            || at == (BringModel::Failed { e }),
        at.next(went) matches BringModel::TearDown { e } ==> at == (BringModel::ShutDown { e })
            || (at is SetUp && went == WentModel::Badly(e)),
        at.next(went) matches BringModel::ShutDown { e } ==> (at is WaitReady || at is Resolve)
            && went == WentModel::Badly(e),
{
}

/// A scenario that failed leaves no replica behind: its observer is shut down
/// and its replica removed before the failure is said, and what is said is what
/// failed.
pub proof fn lemma_failed_run_tears_down(run: OutingModel, ran: RanModel)
    ensures
        run.next(ran).at matches GoesModel::Failed { e } ==> run.at == (GoesModel::TearDown { e })
            || run.at == (GoesModel::Failed { e }),
        run.next(ran).at matches GoesModel::TearDown { e } ==> run.at == (GoesModel::ShutDown {
            e,
        }),
        run.next(ran).at matches GoesModel::ShutDown { e } ==> ran == RanModel::Badly(e),
{
}

/// No run reads its checks before the scenario has run, nor, where the fleet has
/// anything to settle, before it has had the time to.
pub proof fn lemma_reads_what_settled(run: OutingModel, ran: RanModel)
    ensures
        run.next(ran).at is ReadChecks && !(run.at is ReadChecks) ==> run.at is Settle || (run.at
            is Run && run.purpose == super::lifecycle::For::Breaking && ran
            == (RanModel::Scenario { fired: false })),
        run.next(ran).at is Finish && !(run.at is Finish) ==> run.at is ReadChecks || run.at
            is ReadAddresses,
{
}

} // verus!
