//! How placing a kill goes, from arming the proxy to what is reported.

use vstd::prelude::*;

use crate::orchestrator::{
    ActModel, CameModel, KillMissModel, KillReportModel, KillResultModel, KillingModel, Stage,
};
use crate::scheduler::PacketSchedule;

verus! {

/// Whether a report is of that schedule.
pub open spec fn reports_of(report: KillReportModel, schedule: PacketSchedule) -> bool {
    report.schedule_id == schedule.schedule_id && report.service == schedule.service
}

/// The proxy is armed and the fleet watched for a minute, and for a second more
/// once the scenario has ended.
pub proof fn lemma_watching(run: KillingModel)
    requires
        run.stage == Stage::Arm,
    ensures
        ({
            let armed = run.next(CameModel::Done);
            let ended = armed.next(CameModel::ScenarioEnded);
            &&& run.act() is Arm
            &&& armed.act() matches ActModel::WatchUntilEnd { within } && within@ == 60_000_000_000
            &&& ended.act() matches ActModel::Watch { within } && within@ == 1_000_000_000
            &&& ended.schedule == run.schedule
            &&& ended.e == run.e
        }),
{
    crate::time::lemma_spans_made(60);
    crate::time::lemma_spans_made(1);
}

/// A fleet that froze has its service killed against the held flow, the flow let go
/// and the service brought back. The kill is then reported to have fired, with what
/// was asked for, how far into the scenario the freeze was seen, and when the
/// service was killed.
pub proof fn lemma_killed(run: KillingModel, offset_ns: u128, at_ns: u128)
    requires
        run.stage == Stage::Watch || run.stage == Stage::Grace,
    ensures
        ({
            let frozen = run.next(CameModel::Froze { frozen: true, offset_ns });
            let dead = frozen.next(CameModel::Killed { at_ns });
            let let_go = dead.next(CameModel::Done);
            &&& frozen.act() == ActModel::Kill(run.schedule.service)
            &&& dead.act() is Resume
            &&& let_go.act() == ActModel::Restart(run.schedule.service)
            &&& let_go.next(CameModel::Done).act() matches ActModel::Report(report) && reports_of(
                report,
                run.schedule,
            ) && report.result == (KillResultModel::Fired {
                requested_direction: run.schedule.direction,
                requested_packet_index: run.schedule.fault_packet_index,
                actual_offset_ns: offset_ns,
                killed_at_ns: at_ns,
            })
        }),
{
}

/// A fleet that did not freeze is let go, and the kill reported to have missed
/// because the scenario ended first. A kill that failed is let go too, and reported
/// to have missed for what it came to.
pub proof fn lemma_missed(run: KillingModel, offset_ns: u128, e: Seq<char>)
    requires
        run.stage == Stage::Watch || run.stage == Stage::Grace,
        run.e is None,
    ensures
        ({
            let thawed = run.next(CameModel::Froze { frozen: false, offset_ns });
            let failed = run.next(CameModel::Froze { frozen: true, offset_ns }).next(
                CameModel::Failed(e),
            );
            &&& thawed.act() is Resume
            &&& thawed.next(CameModel::Done).act() matches ActModel::Report(report) && reports_of(
                report,
                run.schedule,
            ) && report.result == KillResultModel::Missed(
                KillMissModel::ScenarioEndedBeforeAnchor,
            )
            &&& failed.act() is Resume
            &&& failed.next(CameModel::Done).act() matches ActModel::Report(report) && reports_of(
                report,
                run.schedule,
            ) && report.result == KillResultModel::Missed(KillMissModel::KillFailed(e))
        }),
{
}

} // verus!
