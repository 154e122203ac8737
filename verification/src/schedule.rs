//! One unit of work a worker runs: a fleet to bring up, what to do to it, what
//! to read afterwards, and what to break in the middle.

use vstd::prelude::*;

use crate::fault::{Fault, FaultModel};
use crate::plan::{Check, CheckModel, Fleet, FleetModel, Step, StepModel};
use crate::time::Duration;
use crate::verdict::{Baseline, BaselineModel};

verus! {

/// Everything a worker needs to run once. Derived from a plan rather than
/// copied out of it: the steps and checks are the scenario's, plus whatever the
/// invariant being tested calls for, so what runs may differ from what the
/// author wrote.
#[derive(Debug, PartialEq, Eq)]
pub struct Schedule {
    pub id: u32,
    /// The fleet to bring up.
    pub fleet: Fleet,
    /// The actions to drive, in order.
    pub steps: Vec<Step>,
    /// What to read once the fleet has settled.
    pub checks: Vec<Check>,
    /// What the run is for.
    pub purpose: Purpose,
    /// What the fault-free run left after each step and where it settled, which
    /// is what we judge against.
    pub fault_free: Baseline,
    /// How long the fleet may take to settle, as the scenario states it.
    pub consistent_within: Duration,
}

/// What a [`Schedule`] holds.
#[verifier::ext_equal]
pub struct ScheduleModel {
    pub id: u32,
    pub fleet: FleetModel,
    pub steps: Seq<StepModel>,
    pub checks: Seq<CheckModel>,
    pub purpose: PurposeModel,
    pub fault_free: BaselineModel,
    pub consistent_within: Duration,
}

impl DeepView for Schedule {
    type V = ScheduleModel;

    open spec fn deep_view(&self) -> ScheduleModel {
        ScheduleModel {
            id: self.id,
            fleet: self.fleet.deep_view(),
            steps: self.steps.deep_view(),
            checks: self.checks.deep_view(),
            purpose: self.purpose.deep_view(),
            fault_free: self.fault_free.deep_view(),
            consistent_within: self.consistent_within,
        }
    }
}

/// What a run is for, which decides what the worker does with its result.
#[derive(Debug, PartialEq, Eq)]
pub enum Purpose {
    /// The fault-free run. What the fleet is and what the workload does to it.
    /// Every other run is judged against what this one found.
    Learn,
    /// A subset of the steps driven with nothing broken, this says where landing
    /// exactly those leaves the fleet
    Reference { landed: Vec<usize> },
    /// Something broken part way through the work.
    Break(Box<Fault>),
}

/// What a [`Purpose`] says.
pub enum PurposeModel {
    Learn,
    Reference { landed: Seq<usize> },
    Break(FaultModel),
}

impl DeepView for Purpose {
    type V = PurposeModel;

    open spec fn deep_view(&self) -> PurposeModel {
        match self {
            Purpose::Learn => PurposeModel::Learn,
            Purpose::Reference { landed } => PurposeModel::Reference { landed: landed@ },
            Purpose::Break(fault) => PurposeModel::Break(fault.deep_view()),
        }
    }
}

/// How far through a run a worker is.
#[derive(Clone, Copy, Debug, PartialEq, Eq, Structural)]
pub enum Phase {
    /// Bringing the replica up.
    Setup,
    /// Driving the scenario's steps.
    Driving,
    /// Waiting for the fleet to come to rest.
    Healing,
    /// Reading where the fleet settled.
    Observing,
    /// Taking the replica down.
    Tearing,
}

impl Schedule {
    /// The id the fault-free run carries. Faulted schedules are numbered from
    /// one, so a journal entry says which run it came from.
    pub const LEARN_ID: u32 = 0;

    /// The steps this run drove on their own, if it is a reference run.
    pub fn landed(&self) -> (r: Option<&[usize]>)
        ensures
            match (r, self.deep_view().purpose) {
                (Some(steps), PurposeModel::Reference { landed }) => steps@ == landed,
                (None, PurposeModel::Reference { .. }) => false,
                (None, _) => true,
                _ => false,
            },
    {
        match &self.purpose {
            Purpose::Reference { landed } => Some(landed.as_slice()),
            _ => None,
        }
    }

    /// What this run breaks, if it breaks anything.
    pub fn fault(&self) -> (r: Option<&Fault>)
        ensures
            r.deep_view() == (match self.deep_view().purpose {
                PurposeModel::Break(fault) => Some(fault),
                _ => None,
            }),
    {
        match &self.purpose {
            Purpose::Break(fault) => Some(&**fault),
            _ => None,
        }
    }

    /// The fault-free run: the work, with nothing to break.
    pub fn learn(
        fleet: Fleet,
        steps: Vec<Step>,
        checks: Vec<Check>,
        consistent_within: Duration,
    ) -> (r: Schedule)
        ensures
            r.deep_view() == (ScheduleModel {
                id: Self::LEARN_ID,
                fleet: fleet.deep_view(),
                steps: steps.deep_view(),
                checks: checks.deep_view(),
                purpose: PurposeModel::Learn,
                fault_free: BaselineModel { trail: Seq::empty(), settled: Seq::empty() },
                consistent_within,
            }),
    {
        Schedule {
            id: Self::LEARN_ID,
            fleet,
            steps,
            checks,
            purpose: Purpose::Learn,
            fault_free: Baseline::default(),
            consistent_within,
        }
    }

    /// A run of `steps`, which are the steps `landed` names, with nothing
    /// broken.
    pub fn reference(
        id: u32,
        fleet: Fleet,
        steps: Vec<Step>,
        checks: Vec<Check>,
        landed: Vec<usize>,
        consistent_within: Duration,
    ) -> (r: Schedule)
        ensures
            r.deep_view() == (ScheduleModel {
                id,
                fleet: fleet.deep_view(),
                steps: steps.deep_view(),
                checks: checks.deep_view(),
                purpose: PurposeModel::Reference { landed: landed@ },
                fault_free: BaselineModel { trail: Seq::empty(), settled: Seq::empty() },
                consistent_within,
            }),
    {
        Schedule {
            id,
            fleet,
            steps,
            checks,
            purpose: Purpose::Reference { landed },
            fault_free: Baseline::default(),
            consistent_within,
        }
    }

    /// The same work with something broken part way through it, judged against
    /// where the fault-free run got to.
    pub fn faulted(
        id: u32,
        fleet: Fleet,
        steps: Vec<Step>,
        checks: Vec<Check>,
        fault: Fault,
        fault_free: Baseline,
        consistent_within: Duration,
    ) -> (r: Schedule)
        ensures
            r.deep_view() == (ScheduleModel {
                id,
                fleet: fleet.deep_view(),
                steps: steps.deep_view(),
                checks: checks.deep_view(),
                purpose: PurposeModel::Break(fault.deep_view()),
                fault_free: fault_free.deep_view(),
                consistent_within,
            }),
    {
        Schedule {
            id,
            fleet,
            steps,
            checks,
            purpose: Purpose::Break(Box::new(fault)),
            fault_free,
            consistent_within,
        }
    }
}

} // verus!
