//! How far a run has got, and how far a campaign has got with a schedule.

use vstd::prelude::*;

verus! {

/// How far through its steps a run is.
#[derive(Clone, Copy, Debug, PartialEq, Eq, Structural)]
pub struct Step {
    /// The step it is on, counting from one.
    pub taken: usize,
    pub of: usize,
}

impl DeepView for Step {
    type V = Step;

    open spec fn deep_view(&self) -> Step {
        *self
    }
}

/// What has become of a schedule.
#[derive(Debug, PartialEq, Eq)]
pub enum Progress {
    /// A worker is running it.
    Running { worker: u32 },
    /// Its verdict waits on reference runs for these sets of steps.
    CounterExample { wants: Vec<Vec<usize>> },
    /// It could not be run.
    Errored,
}

/// What a [`Progress`] says.
pub enum ProgressModel {
    Running { worker: u32 },
    CounterExample { wants: Seq<Seq<usize>> },
    Errored,
}

impl DeepView for Progress {
    type V = ProgressModel;

    open spec fn deep_view(&self) -> ProgressModel {
        match self {
            Progress::Running { worker } => ProgressModel::Running { worker: *worker },
            Progress::CounterExample { wants } => ProgressModel::CounterExample {
                wants: wants.deep_view(),
            },
            Progress::Errored => ProgressModel::Errored,
        }
    }
}

} // verus!
