//! L4 orchestrator for schedules anchored to a packet count: placing the kill
//! while the scenario runs.

use vstd::prelude::*;

use crate::protocol::Direction;
use crate::scheduler::{PacketSchedule, Schedule};
use crate::time::Duration;

verus! {

/// Why a scheduled kill did not fire.
#[derive(Debug, PartialEq, Eq)]
pub enum KillMissReason {
    /// The run was over before the anchored packet came.
    ScenarioEndedBeforeAnchor,
    /// The kill itself failed.
    KillFailed(String),
}

/// What a [`KillMissReason`] says.
pub enum KillMissModel {
    ScenarioEndedBeforeAnchor,
    KillFailed(Seq<char>),
}

impl DeepView for KillMissReason {
    type V = KillMissModel;

    open spec fn deep_view(&self) -> KillMissModel {
        match self {
            KillMissReason::ScenarioEndedBeforeAnchor => KillMissModel::ScenarioEndedBeforeAnchor,
            KillMissReason::KillFailed(e) => KillMissModel::KillFailed(e@),
        }
    }
}

/// What became of a scheduled kill.
#[derive(Debug, PartialEq, Eq)]
pub enum KillResult {
    Missed(KillMissReason),
    Fired {
        requested_direction: Direction,
        requested_packet_index: u32,
        actual_offset_ns: u128,
        killed_at_ns: u128,
    },
}

/// What a [`KillResult`] says.
pub enum KillResultModel {
    Missed(KillMissModel),
    Fired {
        requested_direction: Direction,
        requested_packet_index: u32,
        actual_offset_ns: u128,
        killed_at_ns: u128,
    },
}

impl DeepView for KillResult {
    type V = KillResultModel;

    open spec fn deep_view(&self) -> KillResultModel {
        match self {
            KillResult::Missed(reason) => KillResultModel::Missed(reason.deep_view()),
            KillResult::Fired {
                requested_direction,
                requested_packet_index,
                actual_offset_ns,
                killed_at_ns,
            } => KillResultModel::Fired {
                requested_direction: *requested_direction,
                requested_packet_index: *requested_packet_index,
                actual_offset_ns: *actual_offset_ns,
                killed_at_ns: *killed_at_ns,
            },
        }
    }
}

/// What became of the kill one schedule carried.
#[derive(Debug, PartialEq, Eq)]
pub struct KillReport {
    pub schedule_id: u32,
    pub service: String,
    pub result: KillResult,
}

/// What a [`KillReport`] says.
#[verifier::ext_equal]
pub struct KillReportModel {
    pub schedule_id: u32,
    pub service: Seq<char>,
    pub result: KillResultModel,
}

impl DeepView for KillReport {
    type V = KillReportModel;

    open spec fn deep_view(&self) -> KillReportModel {
        KillReportModel {
            schedule_id: self.schedule_id,
            service: self.service@,
            result: self.result.deep_view(),
        }
    }
}

impl KillReport {
    /// Whether the fleet is left to settle before its state is read: only a kill
    /// that fired restarted anything.
    pub fn settles(&self) -> (r: bool)
        ensures
            r == (self.deep_view().result is Fired),
    {
        match &self.result {
            KillResult::Missed(_) => false,
            KillResult::Fired { .. } => true,
        }
    }
}

/// A report of a kill that did not fire, for the given reason.
pub open spec fn missing(schedule: PacketSchedule, reason: KillMissModel) -> KillReportModel {
    KillReportModel {
        schedule_id: schedule.schedule_id,
        service: schedule.service,
        result: KillResultModel::Missed(reason),
    }
}

/// A report of a kill that did not fire, for the given reason.
pub fn missed(schedule: &Schedule, reason: KillMissReason) -> (r: KillReport)
    ensures
        r.deep_view() == missing(schedule.deep_view(), reason.deep_view()),
{
    KillReport {
        schedule_id: schedule.schedule_id,
        service: schedule.service.clone(),
        result: KillResult::Missed(reason),
    }
}

/// What came of what was done last.
#[derive(Debug)]
pub enum Came {
    /// Whether the fleet froze in the time it had, and how far into the scenario
    /// that was seen.
    Froze { frozen: bool, offset_ns: u128 },
    /// Every step has been driven.
    ScenarioEnded,
    /// The service was killed then.
    Killed { at_ns: u128 },
    /// It worked.
    Done,
    /// It did not work.
    Failed(String),
}

/// What a [`Came`] says.
pub enum CameModel {
    Froze { frozen: bool, offset_ns: u128 },
    ScenarioEnded,
    Killed { at_ns: u128 },
    Done,
    Failed(Seq<char>),
}

impl DeepView for Came {
    type V = CameModel;

    open spec fn deep_view(&self) -> CameModel {
        match self {
            Came::Froze { frozen, offset_ns } => CameModel::Froze {
                frozen: *frozen,
                offset_ns: *offset_ns,
            },
            Came::ScenarioEnded => CameModel::ScenarioEnded,
            Came::Killed { at_ns } => CameModel::Killed { at_ns: *at_ns },
            Came::Done => CameModel::Done,
            Came::Failed(e) => CameModel::Failed(e@),
        }
    }
}

/// What to do next to place a kill.
#[derive(Debug, PartialEq, Eq)]
pub enum Act {
    /// Have the proxy count scenario packets from here.
    Arm,
    /// Wait that long for the fleet to freeze, unless the scenario ends first.
    WatchUntilEnd { within: Duration },
    /// Wait that long for the fleet to freeze.
    Watch { within: Duration },
    /// Kill the service.
    Kill(String),
    /// Release the freeze.
    Resume,
    /// Bring the service back.
    Restart(String),
    /// This is what came of the kill.
    Report(KillReport),
    /// The run failed.
    Fail(String),
}

/// What an [`Act`] asks for.
pub enum ActModel {
    Arm,
    WatchUntilEnd { within: Duration },
    Watch { within: Duration },
    Kill(Seq<char>),
    Resume,
    Restart(Seq<char>),
    Report(KillReportModel),
    Fail(Seq<char>),
}

impl DeepView for Act {
    type V = ActModel;

    open spec fn deep_view(&self) -> ActModel {
        match self {
            Act::Arm => ActModel::Arm,
            Act::WatchUntilEnd { within } => ActModel::WatchUntilEnd { within: *within },
            Act::Watch { within } => ActModel::Watch { within: *within },
            Act::Kill(service) => ActModel::Kill(service@),
            Act::Resume => ActModel::Resume,
            Act::Restart(service) => ActModel::Restart(service@),
            Act::Report(report) => ActModel::Report(report.deep_view()),
            Act::Fail(e) => ActModel::Fail(e@),
        }
    }
}

/// Where placing a kill has got to.
#[derive(Clone, Copy, Debug, PartialEq, Eq, Structural)]
pub enum Stage {
    /// Having the proxy count from here.
    Arm,
    /// Waiting for a freeze while the scenario runs.
    Watch,
    /// The scenario finished before a freeze was seen. The freeze is observed
    /// through a log stream that lags real traffic, so one triggered by a
    /// post-ack edge may just not be visible yet.
    Grace,
    /// Killing the service against the held flow.
    Kill { offset_ns: u128 },
    /// Releasing the flow.
    Release { offset_ns: u128, killed_at_ns: u128 },
    /// Bringing the service back.
    Restart { offset_ns: u128, killed_at_ns: u128 },
    /// Releasing the flow with nothing killed.
    LetGo,
    Missed,
    Fired { offset_ns: u128, killed_at_ns: u128 },
    Failed,
}

/// Placing the kill a schedule carries.
pub struct Killing {
    schedule: Schedule,
    stage: Stage,
    /// What went wrong, if anything did.
    e: Option<String>,
}

/// What a [`Killing`] holds.
#[verifier::ext_equal]
pub struct KillingModel {
    pub schedule: PacketSchedule,
    pub stage: Stage,
    pub e: Option<Seq<char>>,
}

impl DeepView for Killing {
    type V = KillingModel;

    closed spec fn deep_view(&self) -> KillingModel {
        KillingModel {
            schedule: self.schedule.deep_view(),
            stage: self.stage,
            e: self.e.deep_view(),
        }
    }
}

impl KillingModel {
    /// Why a kill that did not land did not.
    pub open spec fn why(self) -> KillMissModel {
        match self.e {
            Some(e) => KillMissModel::KillFailed(e),
            None => KillMissModel::ScenarioEndedBeforeAnchor,
        }
    }

    /// What a kill that landed is reported as.
    pub open spec fn fired(self, offset_ns: u128, killed_at_ns: u128) -> KillReportModel {
        KillReportModel {
            schedule_id: self.schedule.schedule_id,
            service: self.schedule.service,
            result: KillResultModel::Fired {
                requested_direction: self.schedule.direction,
                requested_packet_index: self.schedule.fault_packet_index,
                actual_offset_ns: offset_ns,
                killed_at_ns,
            },
        }
    }

    /// What to do next.
    pub open spec fn act(self) -> ActModel {
        match self.stage {
            Stage::Arm => ActModel::Arm,
            Stage::Watch => ActModel::WatchUntilEnd { within: Duration::of_secs(60) },
            Stage::Grace => ActModel::Watch { within: Duration::of_secs(1) },
            Stage::Kill { .. } => ActModel::Kill(self.schedule.service),
            Stage::Release { .. } => ActModel::Resume,
            Stage::Restart { .. } => ActModel::Restart(self.schedule.service),
            Stage::LetGo => ActModel::Resume,
            Stage::Missed => ActModel::Report(missing(self.schedule, self.why())),
            Stage::Fired { offset_ns, killed_at_ns } => ActModel::Report(
                self.fired(offset_ns, killed_at_ns),
            ),
            Stage::Failed => ActModel::Fail(
                match self.e {
                    Some(e) => e,
                    None => Seq::empty(),
                },
            ),
        }
    }

    /// Where things stand once that has come of what was done last. What was not
    /// asked for changes nothing.
    pub open spec fn next(self, came: CameModel) -> KillingModel {
        match (self.stage, came) {
            (Stage::Arm, CameModel::Done) => KillingModel { stage: Stage::Watch, ..self },
            (Stage::Watch, CameModel::ScenarioEnded) => KillingModel {
                stage: Stage::Grace,
                ..self
            },
            (Stage::Watch, CameModel::Froze { frozen, offset_ns })
            | (Stage::Grace, CameModel::Froze { frozen, offset_ns }) => KillingModel {
                stage: if frozen {
                    Stage::Kill { offset_ns }
                } else {
                    Stage::LetGo
                },
                ..self
            },
            (Stage::Kill { offset_ns }, CameModel::Killed { at_ns }) => KillingModel {
                stage: Stage::Release { offset_ns, killed_at_ns: at_ns },
                ..self
            },
            // The kill never landed, so nothing is dead.
            (Stage::Kill { .. }, CameModel::Failed(e)) => KillingModel {
                stage: Stage::LetGo,
                e: Some(e),
                ..self
            },
            (Stage::Release { offset_ns, killed_at_ns }, CameModel::Done) => KillingModel {
                stage: Stage::Restart { offset_ns, killed_at_ns },
                ..self
            },
            (Stage::Restart { offset_ns, killed_at_ns }, CameModel::Done) => KillingModel {
                stage: Stage::Fired { offset_ns, killed_at_ns },
                ..self
            },
            (Stage::LetGo, CameModel::Done) => KillingModel { stage: Stage::Missed, ..self },
            (Stage::Missed, _) => self,
            (Stage::Fired { .. }, _) => self,
            (Stage::Failed, _) => self,
            (_, CameModel::Failed(e)) => KillingModel { stage: Stage::Failed, e: Some(e), ..self },
            _ => self,
        }
    }
}

impl Killing {
    /// A kill to place, with nothing done yet.
    pub fn new(schedule: Schedule) -> (r: Killing)
        ensures
            r.deep_view() == (KillingModel {
                schedule: schedule.deep_view(),
                stage: Stage::Arm,
                e: None,
            }),
    {
        Killing { schedule, stage: Stage::Arm, e: None }
    }

    /// A kill to apply against the already-frozen fleet, that far into the
    /// scenario. The freeze is then released and the target brought back so the
    /// scenario runs against the dead-then-recovering service.
    ///
    /// Releasing the freeze and restarting the target must both succeed:
    /// otherwise the fleet is left wedged or the target permanently dead, and the
    /// durability verdict read afterwards would be meaningless. Those failures
    /// fail the run rather than being reported as a successful kill. A failed
    /// kill, by contrast, is a miss (nothing fired), not an error.
    pub fn fire_kill(schedule: Schedule, actual_offset_ns: u128) -> (r: Killing)
        ensures
            r.deep_view() == (KillingModel {
                schedule: schedule.deep_view(),
                stage: Stage::Kill { offset_ns: actual_offset_ns },
                e: None,
            }),
    {
        Killing { schedule, stage: Stage::Kill { offset_ns: actual_offset_ns }, e: None }
    }

    /// What to do next.
    pub fn act(&self) -> (r: Act)
        ensures
            r.deep_view() == self.deep_view().act(),
    {
        match self.stage {
            Stage::Arm => Act::Arm,
            Stage::Watch => Act::WatchUntilEnd { within: Duration::from_secs(60) },
            Stage::Grace => Act::Watch { within: Duration::from_secs(1) },
            Stage::Kill { .. } => Act::Kill(self.schedule.service.clone()),
            Stage::Release { .. } => Act::Resume,
            Stage::Restart { .. } => Act::Restart(self.schedule.service.clone()),
            Stage::LetGo => Act::Resume,
            Stage::Missed => {
                let why = match &self.e {
                    Some(e) => KillMissReason::KillFailed(e.clone()),
                    None => KillMissReason::ScenarioEndedBeforeAnchor,
                };
                Act::Report(missed(&self.schedule, why))
            },
            Stage::Fired { offset_ns, killed_at_ns } => Act::Report(
                KillReport {
                    schedule_id: self.schedule.schedule_id,
                    service: self.schedule.service.clone(),
                    result: KillResult::Fired {
                        requested_direction: self.schedule.direction,
                        requested_packet_index: self.schedule.fault_packet_index,
                        actual_offset_ns: offset_ns,
                        killed_at_ns,
                    },
                },
            ),
            Stage::Failed => match &self.e {
                Some(e) => Act::Fail(e.clone()),
                None => {
                    let none = String::new();
                    assert(none@ =~= Seq::empty());
                    Act::Fail(none)
                },
            },
        }
    }

    /// That has come of what was done last.
    pub fn next(&mut self, came: Came)
        ensures
            final(self).deep_view() == old(self).deep_view().next(came.deep_view()),
    {
        match (self.stage, came) {
            (Stage::Arm, Came::Done) => {
                self.stage = Stage::Watch;
            },
            (Stage::Watch, Came::ScenarioEnded) => {
                self.stage = Stage::Grace;
            },
            (Stage::Watch, Came::Froze { frozen, offset_ns }) => {
                self.stage = if frozen {
                    Stage::Kill { offset_ns }
                } else {
                    Stage::LetGo
                };
            },
            (Stage::Grace, Came::Froze { frozen, offset_ns }) => {
                self.stage = if frozen {
                    Stage::Kill { offset_ns }
                } else {
                    Stage::LetGo
                };
            },
            (Stage::Kill { offset_ns }, Came::Killed { at_ns }) => {
                self.stage = Stage::Release { offset_ns, killed_at_ns: at_ns };
            },
            (Stage::Kill { .. }, Came::Failed(e)) => {
                self.stage = Stage::LetGo;
                self.e = Some(e);
            },
            (Stage::Release { offset_ns, killed_at_ns }, Came::Done) => {
                self.stage = Stage::Restart { offset_ns, killed_at_ns };
            },
            (Stage::Restart { offset_ns, killed_at_ns }, Came::Done) => {
                self.stage = Stage::Fired { offset_ns, killed_at_ns };
            },
            (Stage::LetGo, Came::Done) => {
                self.stage = Stage::Missed;
            },
            (Stage::Missed, _) => {},
            (Stage::Fired { .. }, _) => {},
            (Stage::Failed, _) => {},
            (_, Came::Failed(e)) => {
                self.stage = Stage::Failed;
                self.e = Some(e);
            },
            _ => {},
        }
    }
}

/// A kill is reported to have fired only once the flow has been released and the
/// service brought back behind it.
pub proof fn lemma_fired_only_once_recovered(kill: KillingModel, came: CameModel)
    ensures
        kill.next(came).stage matches Stage::Fired { offset_ns, killed_at_ns } ==> kill.stage == (
        Stage::Fired { offset_ns, killed_at_ns }) || (kill.stage == (Stage::Restart {
            offset_ns,
            killed_at_ns,
        }) && came is Done),
        kill.next(came).stage matches Stage::Restart { offset_ns, killed_at_ns } ==> kill.stage == (
        Stage::Restart { offset_ns, killed_at_ns }) || (kill.stage == (Stage::Release {
            offset_ns,
            killed_at_ns,
        }) && came is Done),
        kill.next(came).stage matches Stage::Release { offset_ns, killed_at_ns } ==> kill.stage == (
        Stage::Release { offset_ns, killed_at_ns }) || (kill.stage == (Stage::Kill { offset_ns })
            && came == (CameModel::Killed { at_ns: killed_at_ns })),
{
}

/// A kill that failed is a miss, and one that could not be recovered from is an
/// error.
pub proof fn lemma_failures_told_apart(kill: KillingModel, at_ns: u128, e: Seq<char>)
    requires
        kill.stage is Kill,
    ensures
        kill.next(CameModel::Failed(e)).next(CameModel::Done).act() == ActModel::Report(
            missing(kill.schedule, KillMissModel::KillFailed(e)),
        ),
        ({
            let dead = kill.next(CameModel::Killed { at_ns });
            &&& dead.next(CameModel::Failed(e)).act() == ActModel::Fail(e)
            &&& dead.next(CameModel::Done).next(CameModel::Failed(e)).act() == ActModel::Fail(e)
        }),
{
}

} // verus!
