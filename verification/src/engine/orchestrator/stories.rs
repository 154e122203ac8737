//! How a run goes, from what is done first to what is reported, whatever comes of
//! each thing that is done.

use vstd::prelude::*;

use super::degraded::DegradedModel;
use super::driving::{Does, DrivingModel, Waits};
use super::lifecycle::{is_to_do, Bring, BringModel, For, Goes, OutingModel, RanModel, WentModel};
use super::{ActModel, AnchoredModel, CameModel, Placement, Settling, StageModel};
use crate::fault::{AnchorModel, ByModel, FaultModel, ReachesModel};
use crate::observer::ReportedModel;
use crate::protocol::{AtModel, DidModel, FaultReportModel, FaultResultModel, MissModel, Primitive};
use crate::schedule::Phase;
use crate::time::Duration;
use crate::verdict::{Outcome, Point, StepWindow};

verus! {

/// Whether a report says that a fault fired: which schedule it was of, what was
/// broken and how, where that was meant to land, how long after the start it did,
/// and when.
pub open spec fn reports_fired(
    report: FaultReportModel,
    id: u32,
    anchor: AnchorModel,
    by: ByModel,
    start_ns: int,
    at_ns: int,
) -> bool {
    &&& report.schedule_id == id
    &&& breaks(report.service, by)
    &&& report.result matches FaultResultModel::Fired { by: way, at, placed_at_ns } && {
        &&& is_way(way, by)
        &&& placed_at_ns == at_ns
        &&& at matches AtModel::Moment { direction, mark, why, offset_ns } && {
            &&& mark == anchor.mark
            &&& why == anchor.why
            &&& offset_ns == if at_ns >= start_ns {
                at_ns - start_ns
            } else {
                0
            }
            &&& match anchor.reaches {
                ReachesModel::Crossing { direction: way, .. } => direction == Some(way),
                ReachesModel::Inside { .. } => direction is None,
            }
        }
    }
}

/// Whether a report names what is broken: the service, or the edge by its two
/// ends.
pub open spec fn breaks(named: Seq<char>, by: ByModel) -> bool {
    match by {
        ByModel::Kill(service) => named == service,
        ByModel::Cut(edge) => named == edge.spelling(),
        ByModel::Repeat(edge) => named == edge.spelling(),
        ByModel::Reorder(edge) => named == edge.spelling(),
        ByModel::Drop(edge) => named == edge.spelling(),
    }
}

/// Whether that is the way of breaking the fleet.
pub open spec fn is_way(way: Primitive, by: ByModel) -> bool {
    match by {
        ByModel::Kill(_) => way == Primitive::Kill,
        ByModel::Cut(_) => way == Primitive::Cut,
        ByModel::Repeat(_) => way == Primitive::Redeliver,
        ByModel::Reorder(_) => way == Primitive::Reorder,
        ByModel::Drop(_) => way == Primitive::Drop,
    }
}

/// Whether a report says that a fault did not fire, and why.
pub open spec fn reports_missed(
    report: FaultReportModel,
    id: u32,
    by: ByModel,
    why: MissModel,
) -> bool {
    &&& report.schedule_id == id
    &&& breaks(report.service, by)
    &&& report.result == FaultResultModel::Missed(why)
}

/// Whether a fault lands at that moment and takes that away.
pub open spec fn lands(fault: FaultModel, anchor: AnchorModel, by: ByModel) -> bool {
    ||| fault == (FaultModel::Durable { anchor, by })
    ||| fault == (FaultModel::Idempotent { anchor, by })
    ||| fault == (FaultModel::Converges { anchor, by })
}

/// Whether a fleet is given a tenth of a second at least, and a second without
/// traffic, to settle in.
pub open spec fn settles_in(settling: Settling, within: int) -> bool {
    &&& settling.at_least@ == 100_000_000
    &&& settling.idle@ == 1_000_000_000
    &&& settling.within@ == within
}

/// A run with a fault to place first counts how often the fleet was held before,
/// then has the proxy place what it places. A fault that needs the fleet held is
/// then watched for, for a minute at most.
pub proof fn lemma_watched_for(run: AnchoredModel, before: u32, start_ns: u128)
    requires
        run.stage is Baseline,
        run.placement != Placement::Rewritten,
    ensures
        ({
            let counted = run.next(CameModel::Froze(before));
            let armed = counted.next(CameModel::Armed { at_ns: start_ns });
            &&& run.act() matches ActModel::CountFreezes { since, within } && since == 0 && within@
                == 0
            &&& counted.act() is Arm
            &&& armed.act() matches ActModel::WatchUntilEnd { since, within } && since == before
                && within@ == 60_000_000_000
            &&& armed.start_ns == start_ns
            &&& armed.fault == run.fault
            &&& armed.id == run.id
            &&& armed.placement == run.placement
        }),
{
    crate::time::lemma_spans_made(0);
    crate::time::lemma_spans_made(60);
}

/// A fleet that is held once more while it is watched is broken then and there:
/// the service killed, the flow let go, and the service brought back, after which
/// the kill is reported to have fired when the service was killed.
pub proof fn lemma_kill_story(
    run: AnchoredModel,
    since: u32,
    held: u32,
    at_ns: u128,
    anchor: AnchorModel,
    service: Seq<char>,
)
    requires
        run.stage == (StageModel::Watch { since }) || run.stage == (StageModel::Linger { since })
            || run.stage == (StageModel::Look { since }),
        held > since,
        run.placement == Placement::Kill,
        lands(run.fault, anchor, ByModel::Kill(service)),
    ensures
        ({
            let seen = run.next(CameModel::Froze(held));
            let dead = seen.next(CameModel::Killed { at_ns });
            let let_go = dead.next(CameModel::Done);
            let back = let_go.next(CameModel::Done);
            &&& seen.act() == ActModel::Kill(service)
            &&& dead.act() is Proceed
            &&& let_go.act() == ActModel::Restart(service)
            &&& back.act() matches ActModel::Report(report) && reports_fired(
                report,
                run.id,
                anchor,
                ByModel::Kill(service),
                run.start_ns as int,
                at_ns as int,
            )
        }),
{
}

/// A fleet that is not held any more often than it was is let go, and the fault
/// reported to have missed because the scenario ended first.
pub proof fn lemma_miss_story(
    run: AnchoredModel,
    since: u32,
    held: u32,
    anchor: AnchorModel,
    by: ByModel,
)
    requires
        run.stage == (StageModel::Watch { since }) || run.stage == (StageModel::Linger { since })
            || run.stage == (StageModel::Look { since }),
        held <= since,
        lands(run.fault, anchor, by),
    ensures
        ({
            let seen = run.next(CameModel::Froze(held));
            &&& seen.act() is Abandon
            &&& seen.next(CameModel::Done).act() matches ActModel::Report(report) && reports_missed(
                report,
                run.id,
                by,
                MissModel::ScenarioEndedBeforeAnchor,
            )
        }),
{
}

/// A scenario that ends before the fleet is held is not given up on: the fleet is
/// watched until it falls quiet, and the freezes are then counted once more, with
/// no more waiting.
pub proof fn lemma_late_story(run: AnchoredModel, since: u32)
    requires
        run.stage == (StageModel::Watch { since }),
    ensures
        ({
            let ended = run.next(CameModel::ScenarioEnded);
            let quiet = ended.next(CameModel::Quiet);
            &&& ended.act() matches ActModel::WatchUntilQuiet { since: from, within, settling }
                && from == since && within@ == 60_000_000_000 && settles_in(
                settling,
                60_000_000_000,
            )
            &&& quiet.act() matches ActModel::CountFreezes { since: from, within } && from == since
                && within@ == 0
            &&& quiet.stage == (StageModel::Look { since })
            &&& quiet.start_ns == run.start_ns
            &&& quiet.fault == run.fault
            &&& quiet.id == run.id
        }),
{
    crate::time::lemma_spans_made(0);
    crate::time::lemma_spans_made(1);
    crate::time::lemma_spans_made(60);
    crate::time::lemma_spans_made(100);
}

/// A fault the proxy places itself is heard of for five seconds at most. One it
/// says it placed is reported to have fired when it says it was. One it says could
/// not be placed has missed, and why is what the proxy said.
pub proof fn lemma_heard_story(
    run: AnchoredModel,
    said: ReportedModel,
    anchor: AnchorModel,
    by: ByModel,
)
    requires
        run.stage is Listen,
        lands(run.fault, anchor, by),
    ensures
        run.act() matches ActModel::Listen { within } && within@ == 5_000_000_000,
        run.next(CameModel::Heard(Some(said))).act() matches ActModel::Report(report) && match said.did {
            DidModel::Placed(_) => reports_fired(
                report,
                run.id,
                anchor,
                by,
                run.start_ns as int,
                said.at_ns as int,
            ),
            DidModel::Unplaceable(why) => reports_missed(report, run.id, by, MissModel::Failed(why)),
            DidModel::Asked => reports_missed(
                report,
                run.id,
                by,
                MissModel::Failed("the fleet was asked and was not seen to do it"@),
            ),
        },
        run.next(CameModel::Heard(None)).act() matches ActModel::Report(report) && reports_missed(
            report,
            run.id,
            by,
            MissModel::Failed("the proxy did not say it placed anything"@),
        ),
{
    crate::time::lemma_spans_made(5);
}

/// A link that is cut is cut by the proxy once the fleet is held, and heard of
/// then. What crosses changed holds nothing up: the scenario ends, the fleet
/// settles, and what came of it is heard of then.
pub proof fn lemma_listening_story(run: AnchoredModel, since: u32, held: u32, start_ns: u128)
    requires
        held > since,
    ensures
        run.placement == Placement::Cut && run.stage == (StageModel::Watch { since }) ==> run.next(
            CameModel::Froze(held),
        ).stage is Listen,
        run.placement == Placement::Rewritten && run.stage == (StageModel::Arm { since }) ==> {
            let armed = run.next(CameModel::Armed { at_ns: start_ns });
            let ended = armed.next(CameModel::ScenarioEnded);
            &&& armed.act() is AwaitEnd
            &&& armed.start_ns == start_ns
            &&& ended.act() matches ActModel::Settle(settling) && settles_in(
                settling,
                60_000_000_000,
            )
            &&& ended.next(CameModel::Quiet).stage is Listen
        },
{
    crate::time::lemma_spans_made(1);
    crate::time::lemma_spans_made(60);
    crate::time::lemma_spans_made(100);
}

/// Whether a report says that the fleet was degraded throughout.
pub open spec fn reports_throughout(
    report: FaultReportModel,
    id: u32,
    by: ByModel,
    at_ns: int,
) -> bool {
    &&& report.schedule_id == id
    &&& breaks(report.service, by)
    &&& report.result matches FaultResultModel::Fired { by: way, at, placed_at_ns } && is_way(
        way,
        by,
    ) && at is Throughout && placed_at_ns == at_ns
}

/// A service that is held down is killed before the scenario is driven, brought
/// back behind it, and the fleet let go, after which it is reported to have been
/// down throughout. Where it cannot be killed the scenario is driven all the same,
/// and the fault reported to have missed for what the killing came to.
pub proof fn lemma_held_down_story(
    fault: FaultModel,
    id: u32,
    service: Seq<char>,
    at_ns: u128,
    e: Seq<char>,
)
    requires
        fault == (FaultModel::Recovers { by: ByModel::Kill(service) }),
    ensures
        ({
            let run = DegradedModel::of(fault, Placement::Kill, id);
            let down = run.next(CameModel::Killed { at_ns });
            let driven = down.next(CameModel::ScenarioEnded);
            let back = driven.next(CameModel::Done);
            let up = run.next(CameModel::Failed(e));
            &&& run.act() == ActModel::Kill(service)
            &&& down.act() is Drive
            &&& driven.act() == ActModel::Restart(service)
            &&& back.act() is Proceed
            &&& back.next(CameModel::Done).act() matches ActModel::Report(report)
                && reports_throughout(report, id, ByModel::Kill(service), at_ns as int)
            &&& up.act() is Drive
            &&& up.next(CameModel::ScenarioEnded).act() matches ActModel::Report(report)
                && reports_missed(report, id, ByModel::Kill(service), MissModel::Failed(e))
        }),
{
}

/// A link that is held down is cut by the proxy before the scenario is driven and
/// put back behind it, after which it is reported to have been down throughout.
pub proof fn lemma_cut_throughout_story(
    fault: FaultModel,
    id: u32,
    by: ByModel,
    placement: Placement,
    at_ns: u128,
)
    requires
        fault == (FaultModel::Recovers { by }),
        placement != Placement::Kill,
    ensures
        ({
            let run = DegradedModel::of(fault, placement, id);
            let down = run.next(CameModel::Armed { at_ns });
            let driven = down.next(CameModel::ScenarioEnded);
            &&& run.act() is Arm
            &&& down.act() is Drive
            &&& driven.act() is Proceed
            &&& driven.next(CameModel::Done).act() matches ActModel::Report(report)
                && reports_throughout(report, id, by, at_ns as int)
        }),
{
}

/// A kill is placed by this side, a cut by the proxy, and anything else by the
/// plugin that reads the edge. A fleet that cannot be killed can still be broken by
/// what its substrate offers.
pub proof fn lemma_who_places(by: ByModel, kills: bool, primitives: Seq<Primitive>)
    ensures
        super::placement_of(by.primitive()) == (match by {
            ByModel::Kill(_) => Placement::Kill,
            ByModel::Cut(_) => Placement::Cut,
            _ => Placement::Rewritten,
        }),
        by is Kill ==> (super::placeable(by.primitive(), kills, primitives) <==> kills),
        !(by is Kill) ==> (super::placeable(by.primitive(), kills, primitives) <==> exists|k: int|
            0 <= k < primitives.len() && is_way(#[trigger] primitives[k], by)),
{
    if !(by is Kill) && primitives.contains(by.primitive()) {
        let k = choose|k: int| 0 <= k < primitives.len() && primitives[k] == by.primitive();
        assert(is_way(primitives[k], by));
    }
}

/// A replica is brought up, waited for, and its targets resolved, and is ready
/// once all of that went well.
pub proof fn lemma_setup_story(a: Bring, b: Bring, c: Bring, d: Bring)
    requires
        is_to_do(a, BringModel::SetUp),
        is_to_do(b, BringModel::SetUp.next(WentModel::Well)),
        is_to_do(c, BringModel::SetUp.next(WentModel::Well).next(WentModel::Well)),
        is_to_do(
            d,
            BringModel::SetUp.next(WentModel::Well).next(WentModel::Well).next(WentModel::Well),
        ),
    ensures
        a == Bring::SetUp,
        b == Bring::WaitReady,
        c == Bring::Resolve,
        d == Bring::Ready,
{
}

/// Whether a fleet that met a fault is given half a second at least to recover in.
pub open spec fn heals_in(settling: Settling, within: Duration) -> bool {
    &&& settling.at_least@ == 500_000_000
    &&& settling.idle@ == 1_000_000_000
    &&& settling.within == within
}

/// A scenario is run, the fleet let settle, and the checks read. A run that learns
/// reads addresses besides. A fleet a fault met is given longer to settle than one
/// that met none, and neither longer than the scenario says. A run that was meant
/// to break something and did not has nothing to wait for.
pub proof fn lemma_outing_story(run: OutingModel, fired: bool, settling: Settling)
    requires
        run.at is Run,
        run.next(RanModel::Scenario { fired }).is_to_do(Goes::Settle(settling)),
    ensures
        ({
            let ran = run.next(RanModel::Scenario { fired });
            let settled = ran.next(RanModel::Well);
            let read = settled.next(RanModel::Well);
            &&& run.is_to_do(Goes::Run)
            &&& run.purpose == For::Breaking ==> fired && heals_in(settling, run.consistent_within)
            &&& run.purpose != For::Breaking ==> settling.at_least@ == 100_000_000
                && settling.idle@ == 1_000_000_000 && settling.within == run.consistent_within
            &&& settled.is_to_do(Goes::ReadChecks)
            &&& run.purpose == For::Learning ==> read.is_to_do(Goes::ReadAddresses) && read.next(
                RanModel::Well,
            ).is_to_do(Goes::Finish)
            &&& run.purpose != For::Learning ==> read.is_to_do(Goes::Finish)
        }),
{
    crate::time::lemma_spans_made(1);
    crate::time::lemma_spans_made(100);
    crate::time::lemma_spans_made(500);
}

/// A run that was meant to break something and did not reads its checks at once.
pub proof fn lemma_unbroken_story(run: OutingModel)
    requires
        run.at is Run,
    ensures
        run.next(RanModel::Scenario { fired: false }).is_to_do(Goes::ReadChecks) <==> run.purpose
            == For::Breaking,
{
}

/// One step is driven, the fleet let settle, and what it holds read, in that order.
/// The step leaves its outcome, when it began and when the fleet was done with it,
/// and what the fleet then held, each behind those of the steps before it.
pub proof fn lemma_step_story(
    run: DrivingModel,
    started_ns: u128,
    outcome: Outcome,
    ended_ns: u128,
    point: Point,
)
    requires
        run.waits == Waits::Answer,
        run.wf(),
    ensures
        ({
            let answered = run.driven(started_ns, outcome);
            let rested = answered.rested(ended_ns);
            let read = rested.read(point);
            let before = run.observations.readings;
            let after = read.observations.readings;
            &&& run.does() == Does::Drive(before.outcomes.len() as usize)
            &&& answered.does() matches Does::Settle(settling) && settles_in(
                settling,
                run.consistent_within@ as int,
            )
            &&& rested.does() is Read
            &&& read.does() == (if after.outcomes.len() < run.of {
                Does::Drive(after.outcomes.len() as usize)
            } else {
                Does::Stop
            })
            &&& after.outcomes == before.outcomes + seq![outcome]
            &&& after.windows == before.windows + seq![
                StepWindow { start_ns: started_ns, end_ns: ended_ns },
            ]
            &&& after.trajectory == before.trajectory + seq![point]
            &&& after.checks == before.checks
            &&& after.fault_free == before.fault_free
            &&& after.fault == before.fault
        }),
{
    crate::time::lemma_spans_made(1);
    crate::time::lemma_spans_made(100);
    let before = run.observations.readings;
    let read = run.driven(started_ns, outcome).rested(ended_ns).read(point);
    let after = read.observations.readings;
    assert(after.outcomes =~= before.outcomes + seq![outcome]);
    assert(after.windows =~= before.windows + seq![
        StepWindow { start_ns: started_ns, end_ns: ended_ns },
    ]);
    assert(after.trajectory =~= before.trajectory + seq![point]);
}

/// Whether a run says it is in that phase of its `k`th step of so many.
pub open spec fn says_it_is(run: DrivingModel, phase: Phase, k: nat) -> bool {
    &&& run.doing() matches Some((said, step))
    &&& said == phase
    &&& step.taken == k
    &&& step.of == run.of
}

/// Everything done for one step is reported as that step: driving it, letting the
/// fleet settle, and reading what it then holds. Before the first step and behind the
/// last nothing is reported.
pub proof fn lemma_step_reported(
    run: DrivingModel,
    started_ns: u128,
    outcome: Outcome,
    ended_ns: u128,
    point: Point,
)
    requires
        run.waits == Waits::Answer,
        run.wf(),
    ensures
        ({
            let answered = run.driven(started_ns, outcome);
            let rested = answered.rested(ended_ns);
            let read = rested.read(point);
            let k = run.observations.readings.outcomes.len() + 1;
            &&& 1 <= k <= run.of
            &&& says_it_is(run, Phase::Driving, k)
            &&& says_it_is(answered, Phase::Healing, k)
            &&& says_it_is(rested, Phase::Observing, k)
            &&& k < run.of ==> says_it_is(read, Phase::Driving, k + 1)
            &&& k == run.of ==> read.doing() is None
        }),
        forall|first: DrivingModel|
            #![trigger first.doing()]
            first.waits == Waits::Checkpoint && first.observations.readings.outcomes.len() == 0
                ==> first.doing() is None,
{
}

} // verus!
