//! The messages themselves.

use vstd::prelude::*;

use crate::learned::{Learned, LearnedModel};
use crate::protocol::{FaultReport, FaultReportModel};
use crate::schedule::{Schedule, ScheduleModel};
use crate::verdict::{Invariant, Readings, ReadingsModel};

verus! {

/// Messages passed from one of the worker processes to the main runner.
#[derive(Debug, PartialEq, Eq)]
pub enum WorkerToRunner {
    /// Handshake: Workers initiate a connection by sending a HELLO to register to the runner.
    Hello {
        /// Version of the worker
        worker_version: String,
        /// Workers unique identifier
        worker_id: u32,
    },
    /// Worker signals it is ready for the runner to send work.
    Ready,
    /// Worker reports what executing a schedule read.
    RunResult {
        /// Correlation id, matching the [`Schedule`] this result is for.
        schedule_id: u32,
        /// What the run read, which is what its verdict is made of.
        readings: Box<Readings>,
    },
    /// Worker returns what the fault-free run found out about the fleet.
    SessionCatalogue(Learned),
    /// Worker emits an observational event for the runner to record.
    Event(WorkerEvent),
    /// Periodic liveness ping the worker sends while it works, so the runner's
    /// watchdog can tell a slow-but-alive worker from a hung or dead one.
    Heartbeat,
}

/// What a [`WorkerToRunner`] says.
pub enum WorkerToRunnerModel {
    Hello { worker_version: Seq<char>, worker_id: u32 },
    Ready,
    RunResult { schedule_id: u32, readings: ReadingsModel },
    SessionCatalogue(LearnedModel),
    Event(WorkerEventModel),
    Heartbeat,
}

impl DeepView for WorkerToRunner {
    type V = WorkerToRunnerModel;

    open spec fn deep_view(&self) -> WorkerToRunnerModel {
        match self {
            WorkerToRunner::Hello { worker_version, worker_id } => WorkerToRunnerModel::Hello {
                worker_version: worker_version@,
                worker_id: *worker_id,
            },
            WorkerToRunner::Ready => WorkerToRunnerModel::Ready,
            WorkerToRunner::RunResult { schedule_id, readings } => WorkerToRunnerModel::RunResult {
                schedule_id: *schedule_id,
                readings: readings.deep_view(),
            },
            WorkerToRunner::SessionCatalogue(learned) => WorkerToRunnerModel::SessionCatalogue(
                learned.deep_view(),
            ),
            WorkerToRunner::Event(event) => WorkerToRunnerModel::Event(event.deep_view()),
            WorkerToRunner::Heartbeat => WorkerToRunnerModel::Heartbeat,
        }
    }
}

/// Observational events streamed from a worker to the runner.
#[derive(Debug, PartialEq, Eq)]
pub enum WorkerEvent {
    /// Free-form log line from the worker.
    Log(String),
    /// What a schedule's fault did to the fleet.
    Fault(FaultReport),
}

/// What a [`WorkerEvent`] says.
pub enum WorkerEventModel {
    Log(Seq<char>),
    Fault(FaultReportModel),
}

impl DeepView for WorkerEvent {
    type V = WorkerEventModel;

    open spec fn deep_view(&self) -> WorkerEventModel {
        match self {
            WorkerEvent::Log(line) => WorkerEventModel::Log(line@),
            WorkerEvent::Fault(report) => WorkerEventModel::Fault(report.deep_view()),
        }
    }
}

/// Messages passed from the main runner to one of the worker processes.
#[derive(Debug, PartialEq, Eq)]
pub enum RunnerToWorker {
    /// Handshake: Runner acknowledges the HELLO sent from a worker and the connection is
    /// established.
    HelloAck {
        /// Version of the runner
        runner_version: String,
    },
    /// Runner sends a schedule for the worker to run. A schedule with no faults
    /// is the fault-free run, which answers with a `SessionCatalogue`; any other
    /// answers with a `RunResult`.
    Run(Box<Schedule>),
}

/// What a [`RunnerToWorker`] says.
pub enum RunnerToWorkerModel {
    HelloAck { runner_version: Seq<char> },
    Run(ScheduleModel),
}

impl DeepView for RunnerToWorker {
    type V = RunnerToWorkerModel;

    open spec fn deep_view(&self) -> RunnerToWorkerModel {
        match self {
            RunnerToWorker::HelloAck { runner_version } => RunnerToWorkerModel::HelloAck {
                runner_version: runner_version@,
            },
            RunnerToWorker::Run(schedule) => RunnerToWorkerModel::Run(schedule.deep_view()),
        }
    }
}

/// Outcome of running a schedule. Non-`Pass` verdicts carry the reason they
/// were reached, for the journal and report.
#[derive(Debug, PartialEq, Eq)]
pub enum Verdict {
    /// The fleet settled where it owed to.
    Pass,
    /// An invariant was violated, and which one where the run says.
    Fail { broke: Option<Invariant>, reason: String },
    /// Neither passed nor failed within the run budget.
    Inconclusive { reason: String },
}

/// What a [`Verdict`] says.
pub enum VerdictModel {
    Pass,
    Fail { broke: Option<Invariant>, reason: Seq<char> },
    Inconclusive { reason: Seq<char> },
}

impl DeepView for Verdict {
    type V = VerdictModel;

    open spec fn deep_view(&self) -> VerdictModel {
        match self {
            Verdict::Pass => VerdictModel::Pass,
            Verdict::Fail { broke, reason } => VerdictModel::Fail {
                broke: *broke,
                reason: reason@,
            },
            Verdict::Inconclusive { reason } => VerdictModel::Inconclusive { reason: reason@ },
        }
    }
}

impl Clone for Verdict {
    fn clone(&self) -> (r: Verdict)
        ensures
            r.deep_view() == self.deep_view(),
    {
        match self {
            Verdict::Pass => Verdict::Pass,
            Verdict::Fail { broke, reason } => Verdict::Fail {
                broke: *broke,
                reason: reason.clone(),
            },
            Verdict::Inconclusive { reason } => Verdict::Inconclusive { reason: reason.clone() },
        }
    }
}

} // verus!
