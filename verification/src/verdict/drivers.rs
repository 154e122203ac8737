//! Verdict drivers: what a run's observations mean for the invariant it tested,
//! read against the fault-free run alone.

use vstd::prelude::*;
use vstd::string::*;

use super::reading::{diverged_from, Differ, Placed, PlacedModel};
use super::{
    same_reading, Ack, Checkpoint, Observations, Outcome, Point, Readings, ReadingsModel,
};
use crate::ipc::message::{Verdict, VerdictModel};
use crate::plan::spelling;
use crate::protocol::{FaultResult, FaultResultModel};
use crate::text::{decimal, join, joined, spell};

verus! {

/// Durability asks whether the fleet kept what it accepted.
pub struct Durable;

/// Recovery asks the same question of the settled state as durability: the fleet
/// owes what it accepted, however it was degraded while accepting it. What
/// differs is the fault, not the reading.
pub struct Recovers;

/// Idempotency asks it too. Every step was answered, so the fleet owes all of
/// them and no more: doing one of them twice has to leave what doing it once
/// would. What differs is again the fault, not the reading.
pub struct Idempotent;

/// Whether the fleet may have taken the first `n` steps and no more: nothing
/// before was refused and nothing after was acknowledged, since a checkpoint
/// describes a run that landed a prefix of the steps and nothing else.
pub open spec fn may_stop(outcomes: Seq<Outcome>, n: int) -> bool {
    &&& forall|i: int| 0 <= i < n ==> (#[trigger] outcomes[i]).ack != Ack::Rejected
    &&& forall|i: int| n <= i < outcomes.len() ==> (#[trigger] outcomes[i]).ack != Ack::Acked
}

/// The counts below `n` the fleet may have stopped at, fewest first.
pub open spec fn stops_below(outcomes: Seq<Outcome>, n: nat) -> Seq<usize>
    decreases n,
{
    if n == 0 {
        Seq::empty()
    } else {
        let rest = stops_below(outcomes, (n - 1) as nat);
        if may_stop(outcomes, n - 1) {
            rest.push((n - 1) as usize)
        } else {
            rest
        }
    }
}

/// How many steps the fleet may have taken responsibility for, fewest first.
///
/// Empty when a refusal precedes an acknowledgement, which no checkpoint
/// describes however the unknowns fall.
pub open spec fn stops(outcomes: Seq<Outcome>) -> Seq<usize> {
    stops_below(outcomes, outcomes.len() + 1)
}

/// Whether the fleet may have taken the first `n` steps and no more.
fn may_have_stopped(outcomes: &[Outcome], n: usize) -> (r: bool)
    requires
        n <= outcomes@.len(),
    ensures
        r == may_stop(outcomes@, n as int),
{
    for i in 0..outcomes.len()
        invariant
            forall|k: int| 0 <= k < i && k < n ==> (#[trigger] outcomes@[k]).ack != Ack::Rejected,
            forall|k: int| n <= k < i ==> (#[trigger] outcomes@[k]).ack != Ack::Acked,
            n <= outcomes@.len(),
    {
        if i < n && outcomes[i].ack == Ack::Rejected {
            return false;
        }
        if i >= n && outcomes[i].ack == Ack::Acked {
            return false;
        }
    }
    true
}

/// How many steps the fleet may have taken responsibility for, fewest first.
///
/// A step whose ack was lost may have landed or not, so a run admits every count
/// its unknowns allow.
fn steps_landed(outcomes: &[Outcome]) -> (r: Vec<usize>)
    ensures
        r@ == stops(outcomes@),
{
    let mut out: Vec<usize> = Vec::new();
    let mut n: usize = 0;
    while n < outcomes.len()
        invariant
            n <= outcomes@.len(),
            out@ == stops_below(outcomes@, n as nat),
        decreases outcomes@.len() - n,
    {
        if may_have_stopped(outcomes, n) {
            out.push(n);
        }
        n += 1;
    }
    if may_have_stopped(outcomes, n) {
        out.push(n);
    }
    out
}

/// How two checkpoints compare, from the reading at `i` on. One that neither
/// could read is no agreement.
pub open spec fn parts_from(reached: Point, expected: Point, i: int) -> Differ
    decreases reached.len() - i,
{
    if i < 0 || i >= reached.len() || i >= expected.len() {
        Differ::Agree
    } else if reached[i] is None || expected[i] is None {
        Differ::Unread(i)
    } else if reached[i] == expected[i] {
        parts_from(reached, expected, i + 1)
    } else {
        Differ::At(i)
    }
}

/// The first observable the two readings disagree on, `None` if they agree, and
/// the index of one that could not be read on either side.
fn differing(reached: &Checkpoint, expected: &Checkpoint) -> (r: Result<Option<usize>, usize>)
    ensures
        match r {
            Ok(None) => parts_from(reached.deep_view(), expected.deep_view(), 0) is Agree,
            Ok(Some(at)) => parts_from(reached.deep_view(), expected.deep_view(), 0) == Differ::At(
                at as int,
            ) && at < reached@.len() && at < expected@.len(),
            Err(at) => parts_from(reached.deep_view(), expected.deep_view(), 0) == Differ::Unread(
                at as int,
            ),
        },
{
    let mut i: usize = 0;
    while i < reached.len() && i < expected.len()
        invariant
            i <= reached@.len(),
            i <= expected@.len(),
            parts_from(reached.deep_view(), expected.deep_view(), 0) == parts_from(
                reached.deep_view(),
                expected.deep_view(),
                i as int,
            ),
        decreases reached@.len() - i,
    {
        if reached[i].is_none() || expected[i].is_none() {
            return Err(i);
        }
        if !same_reading(&reached[i], &expected[i]) {
            return Ok(Some(i));
        }
        i += 1;
    }
    Ok(None)
}

/// `n` steps, spelled so a verdict does not have to say "step(s)".
pub open spec fn counted(n: nat) -> Seq<char> {
    if n == 1 {
        "1 step"@
    } else {
        decimal(n) + " steps"@
    }
}

/// `n` steps, spelled so a verdict does not have to say "step(s)".
fn steps(n: usize) -> (r: String)
    ensures
        r@ == counted(n as nat),
{
    if n == 1 {
        "1 step".to_owned()
    } else {
        let mut out = spell(n as u128);
        out.append(" steps");
        out
    }
}

/// Each count, spelled.
pub open spec fn count_spellings(landed: Seq<usize>) -> Seq<Seq<char>> {
    landed.map_values(|n: usize| decimal(n as nat))
}

/// The counts a run admits, as a verdict says them.
fn counts(landed: &[usize]) -> (r: String)
    ensures
        r@ == joined(count_spellings(landed@), " or "@),
{
    let mut spelled: Vec<String> = Vec::new();
    for i in 0..landed.len()
        invariant
            spelled.len() == i,
            forall|j: int| 0 <= j < i ==> (#[trigger] spelled@[j])@ == decimal(landed@[j] as nat),
    {
        spelled.push(spell(landed[i] as u128));
    }
    assert(spelled.deep_view() =~= count_spellings(landed@));
    join(spelled.as_slice(), " or ")
}

/// The number of the first step from the one at `i` on that was refused, or
/// zero where none was.
pub open spec fn refused_from(outcomes: Seq<Outcome>, i: int) -> nat
    decreases outcomes.len() - i,
{
    if i < 0 || i >= outcomes.len() {
        0
    } else if outcomes[i].ack == Ack::Rejected {
        (i + 1) as nat
    } else {
        refused_from(outcomes, i + 1)
    }
}

/// Why no count describes this run: a step was refused and a later one landed,
/// so what the fleet accepted is not a prefix of what the scenario drove.
fn refused_then_landed(outcomes: &[Outcome]) -> (r: String)
    ensures
        r@ == "step "@ + decimal(refused_from(outcomes@, 0))
            + " was refused and a later one landed, which no checkpoint describes"@,
{
    let mut refused: u128 = 0;
    let mut i: usize = 0;
    while i < outcomes.len() && refused == 0
        invariant
            i <= outcomes@.len(),
            refused == 0 ==> refused_from(outcomes@, 0) == refused_from(outcomes@, i as int),
            refused != 0 ==> refused_from(outcomes@, 0) == refused,
        decreases outcomes@.len() - i,
    {
        if outcomes[i].ack == Ack::Rejected {
            refused = i as u128 + 1;
        }
        i += 1;
    }
    let mut out = "step ".to_owned();
    out.append(spell(refused).as_str());
    out.append(" was refused and a later one landed, which no checkpoint describes");
    out
}

/// The counts of `landed` the fault-free run has a checkpoint for.
pub open spec fn recorded(landed: Seq<usize>, trail: Seq<Point>) -> Seq<usize> {
    landed.filter(|n: usize| n < trail.len())
}

impl ReadingsModel {
    /// What the fault was, where it landed, what should have been true, and the
    /// step the fleet started getting it wrong at.
    pub open spec fn fell_short(self, fault: PlacedModel, landed: nat, at: int) -> Seq<char> {
        let trail = self.fault_free.trail;
        let reason = match (self.settled()[at], trail[landed as int][at]) {
            (Some(settled), Some(expected)) => "The fleet took "@ + counted(landed) + " which left `"@
                + self.observable_at(at) + "` at `"@ + spelling(settled) + "`, expected value `"@
                + spelling(expected) + "`"@,
            _ => "`"@ + self.observable_at(at) + "` disagrees with the fault-free run"@,
        };
        // Only worth saying when the state parted on the way to the step being
        // judged. Parting after that is downstream of the verdict, not evidence
        // for it, and reads as a contradiction next to the count of steps that
        // landed.
        let diverged = match diverged_from(self.trajectory, trail, 0) {
            Some(step) => if 1 <= step <= landed {
                ". It first differed after step "@ + decimal(step as nat)
            } else {
                ""@
            },
            None => ""@,
        };
        "`"@ + fault.service + "` "@ + fault.done() + " "@ + fault.when(self.windows) + ". "@ + reason
            + diverged
    }

    /// What a run whose fault fired says, held to the counts of steps it may
    /// have landed.
    pub open spec fn driven_on(self, fault: PlacedModel) -> VerdictModel {
        let trail = self.fault_free.trail;
        let landed = stops(self.outcomes);
        let known = recorded(landed, trail);
        if landed.len() == 0 {
            VerdictModel::Inconclusive {
                reason: "step "@ + decimal(refused_from(self.outcomes, 0))
                    + " was refused and a later one landed, which no checkpoint describes"@,
            }
        } else if known.len() == 0 {
            VerdictModel::Inconclusive {
                reason: "the fault-free run left "@ + decimal(trail.len())
                    + " checkpoint(s), so it cannot say where "@ + joined(
                    count_spellings(landed),
                    " or "@,
                ) + " step(s) leave the fleet"@,
            }
        } else if exists|i: int|
            0 <= i < known.len() && parts_from(
                self.settled(),
                trail[#[trigger] known[i] as int],
                0,
            ) is Agree {
            VerdictModel::Pass
        } else {
            match parts_from(self.settled(), trail[known.last() as int], 0) {
                Differ::Agree => VerdictModel::Pass,
                Differ::At(at) => VerdictModel::Fail {
                    broke: None,
                    reason: self.fell_short(fault, known.last() as nat, at),
                },
                Differ::Unread(at) => VerdictModel::Inconclusive {
                    reason: "`"@ + self.observable_at(at) + "` could not be read in both runs"@,
                },
            }
        }
    }

    /// What the run's readings say, held to the counts of steps it may have
    /// landed.
    pub open spec fn driven(self) -> VerdictModel {
        match self.fault {
            None => VerdictModel::Inconclusive { reason: "no fault was scheduled"@ },
            Some(report) => match report.result {
                FaultResultModel::Missed(miss) => VerdictModel::Inconclusive {
                    reason: "fault did not fire: "@ + miss.spelling(),
                },
                FaultResultModel::Fired { by, at, .. } => if self.outcomes.len() == 0 {
                    VerdictModel::Inconclusive {
                        reason: "the scenario drove nothing, so nothing was put at risk"@,
                    }
                } else if self.checks.len() == 0 {
                    VerdictModel::Inconclusive {
                        reason: "the scenario states nothing to check after heal"@,
                    }
                } else {
                    self.driven_on(PlacedModel { service: report.service, by, at })
                },
            },
        }
    }
}

/// A run nothing can be said about.
fn inconclusive(reason: String) -> (r: Verdict)
    ensures
        r.deep_view() == (VerdictModel::Inconclusive { reason: reason@ }),
{
    Verdict::Inconclusive { reason }
}

impl Readings {
    /// What the fault was, where it landed, what should have been true, and the
    /// step the fleet started getting it wrong at.
    fn shortfall_of(
        &self,
        fault: Placed<'_>,
        settled: &Checkpoint,
        expected: &Checkpoint,
        landed: usize,
        at: usize,
    ) -> (r: String)
        requires
            settled.deep_view() == self.deep_view().settled(),
            landed < self.deep_view().fault_free.trail.len(),
            expected.deep_view() == self.deep_view().fault_free.trail[landed as int],
            at < settled@.len(),
            at < expected@.len(),
        ensures
            r@ == self.deep_view().fell_short(fault.deep_view(), landed as nat, at as int),
    {
        proof {
            assert(settled@[at as int].deep_view() == self.deep_view().settled()[at as int]);
            assert(expected@[at as int].deep_view() == expected.deep_view()[at as int]);
        }
        let observable = self.observable_at(at);
        let reason: String = match (&settled[at], &expected[at]) {
            (Some(settled), Some(expected)) => {
                let mut out = "The fleet took ".to_owned();
                out.append(steps(landed).as_str());
                out.append(" which left `");
                out.append(observable.as_str());
                out.append("` at `");
                out.append(settled.spell().as_str());
                out.append("`, expected value `");
                out.append(expected.spell().as_str());
                out.append("`");
                out
            },
            _ => {
                let mut out = "`".to_owned();
                out.append(observable.as_str());
                out.append("` disagrees with the fault-free run");
                out
            },
        };
        let mut diverged: String = "".to_owned();
        match self.diverged_at() {
            Some(step) => {
                if 1 <= step && step <= landed {
                    diverged = ". It first differed after step ".to_owned();
                    diverged.append(spell(step as u128).as_str());
                }
            },
            None => {},
        }
        let mut out = fault.opening(self.windows.as_slice());
        out.append(reason.as_str());
        out.append(diverged.as_str());
        out
    }

    /// What a run whose fault fired says, held to the counts of steps it may
    /// have landed.
    fn drive_on(&self, fault: Placed<'_>) -> (r: Verdict)
        ensures
            r.deep_view() == self.deep_view().driven_on(fault.deep_view()),
    {
        let ghost model = self.deep_view();
        let ghost trail = model.fault_free.trail;
        // A checkpoint says where the fleet stands once the first N steps have
        // landed. If every step landed we hold the run to the last one, in
        // whatever order they got there. A step whose ack was lost leaves more
        // than one count admissible, and the fleet answers to any of them.
        let landed = steps_landed(self.outcomes.as_slice());
        if landed.len() == 0 {
            return inconclusive(refused_then_landed(self.outcomes.as_slice()));
        }
        let ghost has = |n: usize| n < trail.len();
        let mut known: Vec<usize> = Vec::new();
        proof {
            reveal(Seq::filter);
        }
        for i in 0..landed.len()
            invariant
                model == self.deep_view(),
                trail == model.fault_free.trail,
                has == (|n: usize| n < trail.len()),
                known@ == landed@.take(i as int).filter(has),
                forall|k: int| 0 <= k < known@.len() ==> #[trigger] known@[k] < trail.len(),
        {
            proof {
                reveal(Seq::filter);
                assert(landed@.take(i + 1).drop_last() =~= landed@.take(i as int));
            }
            if landed[i] < self.fault_free.trail.len() {
                known.push(landed[i]);
            }
        }
        proof {
            assert(landed@.take(landed@.len() as int) =~= landed@);
            assert(known@ == recorded(landed@, trail));
        }
        // What the fleet settled on once the target was back, which is the only
        // state the verdict turns on. Diverging part way through and coming back
        // is a fleet that recovered, not a fleet that lost something.
        let settled = self.settled();
        // Any outcome the run admits is enough: what is in doubt is what the
        // fleet accepted, and it is not held to the strictest reading of that.
        let mut fitting: bool = false;
        for i in 0..known.len()
            invariant
                model == self.deep_view(),
                trail == model.fault_free.trail,
                settled.deep_view() == model.settled(),
                forall|k: int| 0 <= k < known@.len() ==> #[trigger] known@[k] < trail.len(),
                fitting == exists|k: int|
                    0 <= k < i && parts_from(
                        model.settled(),
                        trail[#[trigger] known@[k] as int],
                        0,
                    ) is Agree,
        {
            match self.fault_free.trail.at(known[i]) {
                Some(point) => {
                    assert(point.deep_view() == trail[known@[i as int] as int]);
                    match differing(&settled, point) {
                        Ok(None) => {
                            fitting = true;
                        },
                        _ => {},
                    }
                },
                None => {},
            }
        }
        let last: Option<usize> = if known.len() > 0 {
            Some(known[known.len() - 1])
        } else {
            None
        };
        match last {
            None => {
                let mut out = "the fault-free run left ".to_owned();
                out.append(spell(self.fault_free.trail.len() as u128).as_str());
                out.append(" checkpoint(s), so it cannot say where ");
                out.append(counts(landed.as_slice()).as_str());
                out.append(" step(s) leave the fleet");
                inconclusive(out)
            },
            Some(most) => {
                if fitting {
                    return Verdict::Pass;
                }
                // Judged against the most it can have accepted, which is the
                // most it can owe.
                match self.fault_free.trail.at(most) {
                    Some(expected) => {
                        assert(expected.deep_view() == trail[most as int]);
                        match differing(&settled, expected) {
                            Ok(None) => Verdict::Pass,
                            Ok(Some(at)) => Verdict::Fail {
                                broke: None,
                                reason: self.shortfall_of(fault, &settled, expected, most, at),
                            },
                            Err(at) => {
                                let mut out = "`".to_owned();
                                out.append(self.observable_at(at).as_str());
                                out.append("` could not be read in both runs");
                                inconclusive(out)
                            },
                        }
                    },
                    None => Verdict::Pass,
                }
            },
        }
    }
}

impl Durable {
    /// What the observations say of durability.
    pub fn drive(&mut self, observations: &Observations) -> (r: Verdict)
        ensures
            r.deep_view() == observations.deep_view().readings.driven(),
    {
        let readings = &observations.readings;
        // No fault fired => nothing to test.
        let fault = match &readings.fault {
            None => {
                return inconclusive("no fault was scheduled".to_owned());
            },
            Some(report) => match &report.result {
                FaultResult::Missed(miss) => {
                    let mut out = "fault did not fire: ".to_owned();
                    out.append(miss.spell().as_str());
                    return inconclusive(out);
                },
                FaultResult::Fired { by, at, .. } => Placed::new(&report.service, *by, at),
            },
        };
        if readings.outcomes.len() == 0 {
            return inconclusive(
                "the scenario drove nothing, so nothing was put at risk".to_owned(),
            );
        }
        if readings.checks.len() == 0 {
            return inconclusive("the scenario states nothing to check after heal".to_owned());
        }
        readings.drive_on(fault)
    }
}

impl Recovers {
    /// What the observations say of recovery.
    pub fn drive(&mut self, observations: &Observations) -> (r: Verdict)
        ensures
            r.deep_view() == observations.deep_view().readings.driven(),
    {
        let mut durable = Durable;
        durable.drive(observations)
    }
}

impl Idempotent {
    /// What the observations say of idempotency.
    pub fn drive(&mut self, observations: &Observations) -> (r: Verdict)
        ensures
            r.deep_view() == observations.deep_view().readings.driven(),
    {
        let mut durable = Durable;
        durable.drive(observations)
    }
}

} // verus!
