//! Driving the scenario against a fleet that was degraded before it started, then
//! putting the fleet back. What the fleet accepted while degraded is what it owes,
//! and lifting the fault is what gives it the chance to catch up.

use vstd::prelude::*;

use super::{missed, missing, Act, ActModel, Came, CameModel, Placement};
use crate::fault::{Fault, FaultModel};
use crate::protocol::{
    At, AtModel, FaultMissReason, FaultReport, FaultReportModel, FaultResultModel, MissModel,
};

verus! {

/// Where a degraded run has got to.
#[derive(Debug)]
enum Stage {
    Arm,
    Kill,
    DriveWhole { why: String },
    Drive { at_ns: u128 },
    Restart { at_ns: u128 },
    Proceed { at_ns: u128 },
    Reported(FaultReport),
    Failed(String),
}

/// Where a degraded run has got to.
pub enum StageModel {
    /// Having the substrate put its degradation in place.
    Arm,
    /// Killing the service.
    Kill,
    /// Driving the scenario with nothing down, since the kill failed.
    DriveWhole { why: Seq<char> },
    /// Driving the scenario against the degraded fleet.
    Drive { at_ns: u128 },
    /// Bringing the service back.
    Restart { at_ns: u128 },
    /// Letting the fleet go on.
    Proceed { at_ns: u128 },
    Reported(FaultReportModel),
    Failed(Seq<char>),
}

impl DeepView for Stage {
    type V = StageModel;

    closed spec fn deep_view(&self) -> StageModel {
        match self {
            Stage::Arm => StageModel::Arm,
            Stage::Kill => StageModel::Kill,
            Stage::DriveWhole { why } => StageModel::DriveWhole { why: why@ },
            Stage::Drive { at_ns } => StageModel::Drive { at_ns: *at_ns },
            Stage::Restart { at_ns } => StageModel::Restart { at_ns: *at_ns },
            Stage::Proceed { at_ns } => StageModel::Proceed { at_ns: *at_ns },
            Stage::Reported(report) => StageModel::Reported(report.deep_view()),
            Stage::Failed(e) => StageModel::Failed(e@),
        }
    }
}

/// A run degraded from before its scenario until after it.
pub struct Degraded {
    fault: Fault,
    placement: Placement,
    id: u32,
    stage: Stage,
}

/// What a [`Degraded`] holds.
#[verifier::ext_equal]
pub struct DegradedModel {
    pub fault: FaultModel,
    pub placement: Placement,
    pub id: u32,
    pub stage: StageModel,
}

impl DeepView for Degraded {
    type V = DegradedModel;

    closed spec fn deep_view(&self) -> DegradedModel {
        DegradedModel {
            fault: self.fault.deep_view(),
            placement: self.placement,
            id: self.id,
            stage: self.stage.deep_view(),
        }
    }
}

impl DegradedModel {
    /// A fault to impose, with nothing done yet.
    pub open spec fn of(fault: FaultModel, placement: Placement, id: u32) -> DegradedModel {
        DegradedModel {
            fault,
            placement,
            id,
            stage: match placement {
                Placement::Kill => StageModel::Kill,
                // Arming is what puts the substrate's held degradation in place.
                _ => StageModel::Arm,
            },
        }
    }

    /// What a fault that stood from then on is reported as.
    pub open spec fn fired(self, at_ns: u128) -> FaultReportModel {
        FaultReportModel {
            schedule_id: self.id,
            service: self.fault.taking().target(),
            result: FaultResultModel::Fired {
                by: self.fault.taking().primitive(),
                at: AtModel::Throughout,
                placed_at_ns: at_ns,
            },
        }
    }

    /// What to do next.
    pub open spec fn act(self) -> ActModel {
        match self.stage {
            StageModel::Arm => ActModel::Arm,
            StageModel::Kill => ActModel::Kill(self.fault.taking().target()),
            StageModel::DriveWhole { .. } => ActModel::Drive,
            StageModel::Drive { .. } => ActModel::Drive,
            StageModel::Restart { .. } => ActModel::Restart(self.fault.taking().target()),
            StageModel::Proceed { .. } => ActModel::Proceed,
            StageModel::Reported(report) => ActModel::Report(report),
            StageModel::Failed(e) => ActModel::Fail(e),
        }
    }

    /// Where things stand once that has come of what was done last. What was not
    /// asked for changes nothing.
    pub open spec fn next(self, came: CameModel) -> DegradedModel {
        let stage = match (self.stage, came) {
            (StageModel::Arm, CameModel::Armed { at_ns }) => StageModel::Drive { at_ns },
            (StageModel::Kill, CameModel::Killed { at_ns }) => StageModel::Drive { at_ns },
            // Nothing is down, so the run meets an undegraded fleet.
            (StageModel::Kill, CameModel::Failed(e)) => StageModel::DriveWhole { why: e },
            (StageModel::DriveWhole { why }, CameModel::ScenarioEnded) => StageModel::Reported(
                missing(self.id, self.fault, MissModel::Failed(why)),
            ),
            (StageModel::Drive { at_ns }, CameModel::ScenarioEnded) => match self.placement {
                Placement::Kill => StageModel::Restart { at_ns },
                _ => StageModel::Proceed { at_ns },
            },
            (StageModel::Restart { at_ns }, CameModel::Done) => StageModel::Proceed { at_ns },
            (StageModel::Proceed { at_ns }, CameModel::Done) => StageModel::Reported(
                self.fired(at_ns),
            ),
            (StageModel::Reported(_), _) => self.stage,
            (StageModel::Failed(_), _) => self.stage,
            (_, CameModel::Failed(e)) => StageModel::Failed(e),
            _ => self.stage,
        };
        DegradedModel { stage, ..self }
    }
}

impl Degraded {
    /// A fault to impose, with nothing done yet.
    pub fn new(fault: Fault, placement: Placement, id: u32) -> (r: Degraded)
        ensures
            r.deep_view() == DegradedModel::of(fault.deep_view(), placement, id),
    {
        let stage = match placement {
            Placement::Kill => Stage::Kill,
            _ => Stage::Arm,
        };
        Degraded { fault, placement, id, stage }
    }

    /// What to do next.
    pub fn act(&self) -> (r: Act)
        ensures
            r.deep_view() == self.deep_view().act(),
    {
        match &self.stage {
            Stage::Arm => Act::Arm,
            Stage::Kill => Act::Kill(self.fault.taking().target()),
            Stage::DriveWhole { .. } => Act::Drive,
            Stage::Drive { .. } => Act::Drive,
            Stage::Restart { .. } => Act::Restart(self.fault.taking().target()),
            Stage::Proceed { .. } => Act::Proceed,
            Stage::Reported(report) => Act::Report(report.clone()),
            Stage::Failed(e) => Act::Fail(e.clone()),
        }
    }

    /// That has come of what was done last.
    pub fn next(&mut self, came: Came)
        ensures
            final(self).deep_view() == old(self).deep_view().next(came.deep_view()),
    {
        let stage = match (&self.stage, &came) {
            (Stage::Arm, Came::Armed { at_ns }) => Stage::Drive { at_ns: *at_ns },
            (Stage::Kill, Came::Killed { at_ns }) => Stage::Drive { at_ns: *at_ns },
            (Stage::Kill, Came::Failed(e)) => Stage::DriveWhole { why: e.clone() },
            (Stage::DriveWhole { why }, Came::ScenarioEnded) => Stage::Reported(
                missed(self.id, &self.fault, FaultMissReason::Failed(why.clone())),
            ),
            (Stage::Drive { at_ns }, Came::ScenarioEnded) => match self.placement {
                Placement::Kill => Stage::Restart { at_ns: *at_ns },
                _ => Stage::Proceed { at_ns: *at_ns },
            },
            (Stage::Restart { at_ns }, Came::Done) => Stage::Proceed { at_ns: *at_ns },
            (Stage::Proceed { at_ns }, Came::Done) => {
                let target = self.fault.taking().target();
                Stage::Reported(
                    FaultReport::fired(
                        self.id,
                        target.as_str(),
                        self.fault.primitive(),
                        At::Throughout,
                        *at_ns,
                    ),
                )
            },
            (Stage::Reported(_), _) => return,
            (Stage::Failed(_), _) => return,
            (_, Came::Failed(e)) => Stage::Failed(e.clone()),
            _ => return,
        };
        self.stage = stage;
    }
}

} // verus!
