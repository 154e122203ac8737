//! Running the scenario's steps one at a time, each starting only once the fleet
//! has stopped working on the one before.
//!
//! A step's effects outlast its response, so overlapping steps would leave a
//! state no one step accounts for.

use vstd::prelude::*;

use super::{unreachable_spelling, Settling};
use crate::plan::{Check, Literal, Value};
use crate::progress::Step;
use crate::schedule::Phase;
use crate::text::around;
use crate::time::Duration;
use crate::verdict::{
    Checkpoint, Observations, ObservationsModel, Observed, ObservedModel, Outcome, Point,
    ReadingsModel, StepWindow,
};
use vstd::string::*;

verus! {

/// What came of reading one check.
#[derive(Debug)]
pub enum Reading {
    /// The fleet published nowhere to read it from.
    Nowhere { target: String, kind: String },
    /// The fleet had nothing to answer from.
    Nothing,
    /// What was read.
    Value(Value),
}

/// What a [`Reading`] says.
pub enum ReadingModel {
    Nowhere { target: Seq<char>, kind: Seq<char> },
    Nothing,
    Value(Literal),
}

impl DeepView for Reading {
    type V = ReadingModel;

    open spec fn deep_view(&self) -> ReadingModel {
        match self {
            Reading::Nowhere { target, kind } => ReadingModel::Nowhere {
                target: target@,
                kind: kind@,
            },
            Reading::Nothing => ReadingModel::Nothing,
            Reading::Value(value) => ReadingModel::Value(value.deep_view()),
        }
    }
}

/// What the fleet settled on, going by one check the scenario states.
///
/// A fault can leave the fleet with nothing to answer from, which is what the
/// run is there to find out rather than a reason to stop.
///
/// # Errors
/// Errors if there is nowhere to read the check from.
pub fn read_check(check: &Check, reading: Reading) -> (r: Result<Observed, String>)
    ensures
        match reading.deep_view() {
            ReadingModel::Nowhere { target, kind } => r matches Err(e) && e@
                == unreachable_spelling(target, kind),
            ReadingModel::Nothing => r matches Ok(observed) && observed.deep_view() == (
            ObservedModel { check: check.deep_view(), value: None }),
            ReadingModel::Value(value) => r matches Ok(observed) && observed.deep_view() == (
            ObservedModel { check: check.deep_view(), value: Some(value) }),
        },
{
    match reading {
        Reading::Nowhere { target, kind } => {
            let mut e = around(
                "the fleet published no endpoint for `",
                target.as_str(),
                "` speaking `",
            );
            e.append(kind.as_str());
            e.append("`");
            Err(e)
        },
        Reading::Nothing => Ok(Observed { check: check.clone(), value: None }),
        Reading::Value(value) => Ok(Observed { check: check.clone(), value: Some(value) }),
    }
}

/// What each reading says, for the trajectory rather than for a verdict.
pub open spec fn point_of(readings: Seq<ReadingModel>) -> Point {
    Seq::new(
        readings.len(),
        |i: int|
            match readings[i] {
                ReadingModel::Value(value) => Some(value),
                _ => None,
            },
    )
}

/// What every check reads right now, as a point of the trajectory rather than
/// as something to judge. It holds the values alone, since which check each
/// answers is the scenario's and does not change between one point of a run and
/// another.
pub fn read_checkpoint(readings: Vec<Reading>) -> (r: Checkpoint)
    ensures
        r.deep_view() == point_of(readings.deep_view()),
{
    let ghost model = readings.deep_view();
    let mut checkpoint: Checkpoint = Vec::new();
    let ghost all = readings@;
    assert(checkpoint.deep_view() =~= point_of(model).take(0));
    for reading in it: readings
        invariant
            it.seq() == all,
            model.len() == all.len(),
            forall|k: int| 0 <= k < all.len() ==> (#[trigger] all[k]).deep_view() == model[k],
            checkpoint.deep_view() == point_of(model).take(it.index() as int),
    {
        let ghost before = checkpoint.deep_view();
        let ghost at = it.index() as int;
        assert(all[at].deep_view() == model[at]);
        let value = match reading {
            Reading::Value(value) => Some(value),
            _ => None,
        };
        let ghost added = value.deep_view();
        checkpoint.push(value);
        proof {
            assert(checkpoint.deep_view() =~= before.push(added));
            assert(point_of(model).take(at + 1) =~= before.push(point_of(model)[at]));
        }
    }
    assert(point_of(model).take(model.len() as int) =~= point_of(model));
    checkpoint
}

/// What a run waits for.
#[derive(Clone, Copy, Debug, PartialEq, Eq, Structural)]
pub enum Waits {
    /// What every check reads.
    Checkpoint,
    /// The answer to the step it is on.
    Answer,
    /// The fleet to have finished with the step.
    Rest,
    /// Nothing: every step has been driven.
    Nothing,
}

/// What a run does next.
#[derive(Clone, Copy, Debug, PartialEq, Eq, Structural)]
pub enum Does {
    /// Read every check.
    Read,
    /// Drive this step.
    Drive(usize),
    /// Wait for the fleet to fall quiescent.
    Settle(Settling),
    /// Stop: every step has been driven.
    Stop,
}

/// The scenario's steps, part way through.
pub struct Driving {
    of: usize,
    consistent_within: Duration,
    started_ns: u128,
    waits: Waits,
    observations: Observations,
}

/// What a [`Driving`] holds.
#[verifier::ext_equal]
pub struct DrivingModel {
    /// How many steps there are.
    pub of: usize,
    /// How long a step's effects have to settle before the next one starts,
    /// which is the whole time the scenario allows.
    ///
    /// Both sides of a comparison have to wait the same, or it means nothing.
    pub consistent_within: Duration,
    /// When the step it is on was started.
    pub started_ns: u128,
    pub waits: Waits,
    pub observations: ObservationsModel,
}

impl DeepView for Driving {
    type V = DrivingModel;

    closed spec fn deep_view(&self) -> DrivingModel {
        DrivingModel {
            of: self.of,
            consistent_within: self.consistent_within,
            started_ns: self.started_ns,
            waits: self.waits,
            observations: self.observations.deep_view(),
        }
    }
}

impl DrivingModel {
    /// How many steps have been answered.
    pub open spec fn answered(self) -> nat {
        self.observations.readings.outcomes.len()
    }

    /// Whether what has been gathered is what a run that far has gathered: an
    /// outcome and a window for each step, and a point before the first and
    /// behind each.
    pub open spec fn wf(self) -> bool {
        let readings = self.observations.readings;
        &&& readings.outcomes.len() <= self.of
        &&& match self.waits {
            Waits::Checkpoint => readings.windows.len() == readings.outcomes.len()
                && readings.trajectory.len() == readings.outcomes.len(),
            Waits::Answer => readings.windows.len() == readings.outcomes.len()
                && readings.trajectory.len() == readings.outcomes.len() + 1
                && readings.outcomes.len() < self.of,
            Waits::Rest => readings.windows.len() + 1 == readings.outcomes.len()
                && readings.trajectory.len() == readings.outcomes.len(),
            Waits::Nothing => readings.windows.len() == readings.outcomes.len()
                && readings.trajectory.len() == readings.outcomes.len() + 1
                && readings.outcomes.len() == self.of,
        }
    }

    /// What to do next.
    pub open spec fn does(self) -> Does {
        match self.waits {
            Waits::Checkpoint => Does::Read,
            Waits::Answer => Does::Drive(self.answered() as usize),
            Waits::Rest => Does::Settle(Settling::learning(self.consistent_within)),
            Waits::Nothing => Does::Stop,
        }
    }

    /// What to report as it is done: the phase the run is in, and the step it is
    /// on. What is read before the first step is not reported.
    pub open spec fn doing(self) -> Option<(Phase, Step)> {
        let answered = self.answered() as usize;
        match self.waits {
            Waits::Checkpoint => if answered == 0 {
                None
            } else {
                Some((Phase::Observing, Step { taken: answered, of: self.of }))
            },
            Waits::Answer => Some(
                (Phase::Driving, Step { taken: (answered + 1) as usize, of: self.of }),
            ),
            Waits::Rest => Some((Phase::Healing, Step { taken: answered, of: self.of })),
            Waits::Nothing => None,
        }
    }

    /// The run once its checks have been read.
    pub open spec fn read(self, point: Point) -> DrivingModel {
        DrivingModel {
            waits: if self.answered() < self.of {
                Waits::Answer
            } else {
                Waits::Nothing
            },
            observations: ObservationsModel {
                readings: ReadingsModel {
                    trajectory: self.observations.readings.trajectory.push(point),
                    ..self.observations.readings
                },
                ..self.observations
            },
            ..self
        }
    }

    /// The run once the step it is on, started then, has been answered.
    pub open spec fn driven(self, started_ns: u128, outcome: Outcome) -> DrivingModel {
        DrivingModel {
            started_ns,
            waits: Waits::Rest,
            observations: ObservationsModel {
                readings: ReadingsModel {
                    outcomes: self.observations.readings.outcomes.push(outcome),
                    ..self.observations.readings
                },
                ..self.observations
            },
            ..self
        }
    }

    /// The run once the fleet has finished with the step it is on.
    pub open spec fn rested(self, ended_ns: u128) -> DrivingModel {
        DrivingModel {
            waits: Waits::Checkpoint,
            observations: ObservationsModel {
                readings: ReadingsModel {
                    windows: self.observations.readings.windows.push(
                        StepWindow { start_ns: self.started_ns, end_ns: ended_ns },
                    ),
                    ..self.observations.readings
                },
                ..self.observations
            },
            ..self
        }
    }
}

impl Driving {
    /// A scenario of that many steps, of which none has been driven. The state
    /// before anything ran is read first, so a step that changed nothing has a
    /// checkpoint equal to the one before it rather than no checkpoint at all.
    pub fn new(of: usize, consistent_within: Duration) -> (r: Driving)
        ensures
            r.deep_view() == (DrivingModel {
                of,
                consistent_within,
                started_ns: 0,
                waits: Waits::Checkpoint,
                observations: ObservationsModel::nothing(),
            }),
            r.deep_view().wf(),
    {
        Driving {
            of,
            consistent_within,
            started_ns: 0,
            waits: Waits::Checkpoint,
            observations: Observations::empty(),
        }
    }

    /// What to do next.
    pub fn does(&self) -> (r: Does)
        ensures
            r == self.deep_view().does(),
    {
        match self.waits {
            Waits::Checkpoint => Does::Read,
            Waits::Answer => Does::Drive(self.observations.readings.outcomes.len()),
            Waits::Rest => Does::Settle(Settling::learn(self.consistent_within)),
            Waits::Nothing => Does::Stop,
        }
    }

    /// What to report as it is done.
    pub fn doing(&self) -> (r: Option<(Phase, Step)>)
        requires
            self.deep_view().wf(),
        ensures
            r == self.deep_view().doing(),
    {
        let answered: usize = self.observations.readings.outcomes.len();
        match self.waits {
            Waits::Checkpoint => if answered == 0 {
                None
            } else {
                Some((Phase::Observing, Step { taken: answered, of: self.of }))
            },
            Waits::Answer => Some((Phase::Driving, Step { taken: answered + 1, of: self.of })),
            Waits::Rest => Some((Phase::Healing, Step { taken: answered, of: self.of })),
            Waits::Nothing => None,
        }
    }

    /// Every check has been read.
    pub fn read(&mut self, point: Checkpoint)
        requires
            old(self).deep_view().wf(),
            old(self).deep_view().waits == Waits::Checkpoint,
        ensures
            final(self).deep_view() == old(self).deep_view().read(point.deep_view()),
            final(self).deep_view().wf(),
    {
        self.observations.readings.trajectory.push(point);
        self.waits = if self.observations.readings.outcomes.len() < self.of {
            Waits::Answer
        } else {
            Waits::Nothing
        };
    }

    /// The step it is on, started then, has been answered.
    pub fn driven(&mut self, started_ns: u128, outcome: Outcome)
        requires
            old(self).deep_view().wf(),
            old(self).deep_view().waits == Waits::Answer,
        ensures
            final(self).deep_view() == old(self).deep_view().driven(started_ns, outcome),
            final(self).deep_view().wf(),
    {
        self.observations.readings.outcomes.push(outcome);
        self.started_ns = started_ns;
        self.waits = Waits::Rest;
    }

    /// The fleet has stopped working on the step it is on. The step is only over
    /// now, so a fault that lands on the consumer's half of the step is still
    /// that step's.
    pub fn rested(&mut self, ended_ns: u128)
        requires
            old(self).deep_view().wf(),
            old(self).deep_view().waits == Waits::Rest,
        ensures
            final(self).deep_view() == old(self).deep_view().rested(ended_ns),
            final(self).deep_view().wf(),
    {
        let start_ns = self.started_ns;
        self.observations.readings.windows.push(StepWindow { start_ns, end_ns: ended_ns });
        self.waits = Waits::Checkpoint;
    }

    /// What was gathered.
    pub fn into_observations(self) -> (r: Observations)
        ensures
            r.deep_view() == self.deep_view().observations,
    {
        self.observations
    }
}

/// A run that has driven every step has an outcome and a window for each, and
/// knows where the fleet stood before the first and behind each.
pub proof fn lemma_every_step_accounted_for(driving: DrivingModel)
    requires
        driving.wf(),
        driving.does() == Does::Stop,
    ensures
        driving.observations.readings.outcomes.len() == driving.of,
        driving.observations.readings.windows.len() == driving.of,
        driving.observations.readings.trajectory.len() == driving.of + 1,
{
}

/// One step adds one outcome, the window it ran in, and the point it left the
/// fleet at, and changes nothing gathered before it.
pub proof fn lemma_one_step(
    driving: DrivingModel,
    started_ns: u128,
    outcome: Outcome,
    ended_ns: u128,
    point: Point,
)
    requires
        driving.wf(),
        driving.waits == Waits::Answer,
    ensures
        ({
            let after = driving.driven(started_ns, outcome).rested(ended_ns).read(point);
            let was = driving.observations.readings;
            let is = after.observations.readings;
            &&& after.wf()
            &&& is.outcomes == was.outcomes.push(outcome)
            &&& is.windows == was.windows.push(
                StepWindow { start_ns: started_ns, end_ns: ended_ns },
            )
            &&& is.trajectory == was.trajectory.push(point)
            &&& after.answered() == driving.answered() + 1
        }),
{
}

} // verus!
