//! What the runner's event bus carries.

use vstd::prelude::*;

use crate::ipc::message::{
    RunnerToWorker, RunnerToWorkerModel, WorkerEvent, WorkerEventModel, WorkerToRunner,
    WorkerToRunnerModel,
};
use crate::progress::{Progress, ProgressModel};
use crate::schedule::{Purpose, PurposeModel};
use crate::time::Duration;
use crate::verdict::same_steps;

verus! {

/// How many events may wait for the journal.
pub const MPSC_CAPACITY: usize = 1024;

/// How many events may wait for a live observer before it misses some.
pub const BROADCAST_CAPACITY: usize = 256;

/// Events published on the runner's event bus.
#[derive(Debug, PartialEq, Eq)]
#[allow(inconsistent_fields)]
pub enum RunnerEvent {
    /// A message received from a worker over IPC.
    WorkerMessage { worker_id: u32, message: WorkerToRunner },
    /// A message the runner sent to a worker over IPC.
    RunnerMessage { worker_id: u32, message: RunnerToWorker },
    /// The campaign the scheduler fitted, what each schedule is for and how
    /// long it is expected to take.
    Fitted {
        schedules: Vec<(u32, Purpose)>,
        eta: Duration,
        /// How many schedules the campaign can run at once.
        workers: usize,
    },
    /// A schedule reached a new state.
    Moved { schedule: u32, to: Progress },
}

/// What a [`RunnerEvent`] says.
#[allow(inconsistent_fields)]
pub enum RunnerEventModel {
    WorkerMessage { worker_id: u32, message: WorkerToRunnerModel },
    RunnerMessage { worker_id: u32, message: RunnerToWorkerModel },
    Fitted { schedules: Seq<(u32, PurposeModel)>, eta: Duration, workers: usize },
    Moved { schedule: u32, to: ProgressModel },
}

impl DeepView for RunnerEvent {
    type V = RunnerEventModel;

    open spec fn deep_view(&self) -> RunnerEventModel {
        match self {
            RunnerEvent::WorkerMessage { worker_id, message } => RunnerEventModel::WorkerMessage {
                worker_id: *worker_id,
                message: message.deep_view(),
            },
            RunnerEvent::RunnerMessage { worker_id, message } => RunnerEventModel::RunnerMessage {
                worker_id: *worker_id,
                message: message.deep_view(),
            },
            RunnerEvent::Fitted { schedules, eta, workers } => RunnerEventModel::Fitted {
                schedules: schedules.deep_view(),
                eta: *eta,
                workers: *workers,
            },
            RunnerEvent::Moved { schedule, to } => RunnerEventModel::Moved {
                schedule: *schedule,
                to: to.deep_view(),
            },
        }
    }
}

impl RunnerEventModel {
    /// The steps this reference run drives, where it is one.
    pub open spec fn drives(self) -> Option<Seq<usize>> {
        match self {
            RunnerEventModel::RunnerMessage {
                message: RunnerToWorkerModel::Run(schedule),
                ..
            } => match schedule.purpose {
                PurposeModel::Reference { landed } => Some(landed),
                _ => None,
            },
            _ => None,
        }
    }

    /// Which schedule this event is about.
    pub open spec fn about(self) -> Option<u32> {
        match self {
            RunnerEventModel::Moved { schedule, .. } => Some(schedule),
            RunnerEventModel::RunnerMessage {
                message: RunnerToWorkerModel::Run(schedule),
                ..
            } => Some(schedule.id),
            RunnerEventModel::WorkerMessage { message, .. } => match message {
                WorkerToRunnerModel::RunResult { schedule_id, .. } => Some(schedule_id),
                WorkerToRunnerModel::Event(WorkerEventModel::Fault(report)) => Some(
                    report.schedule_id,
                ),
                _ => None,
            },
            _ => None,
        }
    }
}

impl RunnerEvent {
    /// Whether this is a reference run for one of the step sets in `wanted`.
    pub fn answers(&self, wanted: &[&Vec<usize>]) -> (r: bool)
        ensures
            r == (self.deep_view().drives() matches Some(landed) && exists|i: int|
                0 <= i < wanted@.len() && (#[trigger] wanted@[i])@ == landed),
    {
        if let RunnerEvent::RunnerMessage { message: RunnerToWorker::Run(schedule), .. } = self {
            if let Purpose::Reference { landed } = &schedule.purpose {
                for i in 0..wanted.len()
                    invariant
                        forall|j: int| 0 <= j < i ==> (#[trigger] wanted@[j])@ != landed@,
                        self.deep_view().drives() == Some(landed@),
                {
                    if same_steps(wanted[i].as_slice(), landed.as_slice()) {
                        assert(wanted@[i as int]@ == landed@);
                        return true;
                    }
                }
                return false;
            }
        }
        false
    }

    /// Which schedule this event is about.
    pub fn about(&self) -> (r: Option<u32>)
        ensures
            r == self.deep_view().about(),
    {
        match self {
            RunnerEvent::Moved { schedule, .. } => Some(*schedule),
            RunnerEvent::RunnerMessage { message: RunnerToWorker::Run(schedule), .. } => Some(
                schedule.id,
            ),
            RunnerEvent::WorkerMessage { message, .. } => match message {
                WorkerToRunner::RunResult { schedule_id, .. } => Some(*schedule_id),
                WorkerToRunner::Event(WorkerEvent::Fault(report)) => Some(report.schedule_id),
                _ => None,
            },
            _ => None,
        }
    }
}

/// An event is about the schedule it moves, has run, brings the result of, or brings
/// the fault of, and about no other. Only one that has a reference run made drives
/// steps of its own.
pub proof fn lemma_event_about(event: RunnerEventModel)
    ensures
        event matches RunnerEventModel::Moved { schedule, .. } ==> event.about() == Some(schedule),
        event matches RunnerEventModel::RunnerMessage { message, .. } ==> (
        message matches RunnerToWorkerModel::Run(schedule) ==> event.about() == Some(schedule.id)
            && (event.drives() is Some <==> schedule.purpose is Reference) && (
        event.drives() matches Some(landed) ==> schedule.purpose == (PurposeModel::Reference {
            landed,
        }))),
        event matches RunnerEventModel::WorkerMessage { message, .. } ==> event.drives() is None
            && (message matches WorkerToRunnerModel::RunResult { schedule_id, .. } ==> event.about()
            == Some(schedule_id)) && (message matches WorkerToRunnerModel::Event(
            WorkerEventModel::Fault(report),
        ) ==> event.about() == Some(report.schedule_id)),
        event is Fitted ==> event.about() is None && event.drives() is None,
        event is Moved ==> event.drives() is None,
{
}

} // verus!
