//! What a run's observations say the fleet did, and which invariant that
//! broke.
//!
//! Every invariant asks the same thing of the settled state, that the fleet
//! holds what it took responsibility for and no more.

use vstd::prelude::*;
use vstd::string::*;

use super::landed::{enumerate_landed, landed_sets, IN_DOUBT_LIMIT};
use super::{
    literal_order, order, same_checkpoint, Baseline, BaselineModel, Checkpoint,
    Invariant, Judged, JudgedModel, Point, Readings, ReadingsModel, References, StepWindow,
    Trajectory,
};
use crate::ipc::message::{Verdict, VerdictModel};
use crate::plan::{entry_of, spelling, Literal, Value};
use crate::protocol::{At, AtModel, FaultResult, FaultResultModel, Primitive};
use crate::text::{decimal, join, joined, spell, Order};

verus! {

/// What the checkpoint reads at `at`, or nothing where it reads nothing there.
pub open spec fn reading_at(point: Point, at: int) -> Option<Literal> {
    if 0 <= at < point.len() {
        point[at]
    } else {
        None
    }
}

/// Whether one step left the reading at `at` where it was or higher, as far as
/// it was read either side of the step.
pub open spec fn never_falls(was: Option<Literal>, now: Option<Literal>) -> bool {
    match (was, now) {
        (Some(was), Some(now)) => literal_order(was, now) == Some(Order::Less) || literal_order(
            was,
            now,
        ) == Some(Order::Equal),
        _ => true,
    }
}

/// Whether one step raised the reading.
pub open spec fn rises(was: Option<Literal>, now: Option<Literal>) -> bool {
    match (was, now) {
        (Some(was), Some(now)) => literal_order(was, now) == Some(Order::Less),
        _ => false,
    }
}

/// Whether no step of a run lowered the reading at `at`, and one raised it.
pub open spec fn climbs(trail: Seq<Point>, at: int) -> bool {
    &&& forall|i: int|
        0 <= i < trail.len() - 1 ==> never_falls(
            reading_at(#[trigger] trail[i], at),
            reading_at(trail[i + 1], at),
        )
    &&& exists|i: int|
        0 <= i < trail.len() - 1 && rises(
            reading_at(#[trigger] trail[i], at),
            reading_at(trail[i + 1], at),
        )
}

impl Trajectory {
    /// Whether every step left this reading where it was or higher.
    ///
    /// Holding less of something the steps only ever added to is work missing.
    /// Holding less of something they took from is work done. The order its
    /// steps arrived in moves a reading they overwrite and leaves one they add
    /// to alone, so what a step did tells the two apart.
    fn climbs(&self, at: usize) -> (r: bool)
        ensures
            r == climbs(self.deep_view(), at as int),
    {
        let ghost trail = self.deep_view();
        let mut moved: bool = false;
        let mut i: usize = 0;
        let n = self.len();
        while i < n && i + 1 < n
            invariant
                trail == self.deep_view(),
                n == trail.len(),
                i <= n,
                forall|k: int|
                    0 <= k < i && k < n - 1 ==> never_falls(
                        reading_at(#[trigger] trail[k], at as int),
                        reading_at(trail[k + 1], at as int),
                    ),
                moved == exists|k: int|
                    0 <= k < i && k < n - 1 && rises(
                        reading_at(#[trigger] trail[k], at as int),
                        reading_at(trail[k + 1], at as int),
                    ),
            decreases n - i,
        {
            let was = self.at(i);
            let now = self.at(i + 1);
            assert(trail[i as int] == trail[i as int]);
            match (was, now) {
                (Some(was), Some(now)) => {
                    assert(was.deep_view() == trail[i as int]);
                    assert(now.deep_view() == trail[i + 1]);
                    if at < was.len() && at < now.len() {
                        match (&was[at], &now[at]) {
                            (Some(was), Some(now)) => {
                                match order(was, now) {
                                    Some(Order::Less) => {
                                        moved = true;
                                    },
                                    Some(Order::Equal) => {},
                                    _ => {
                                        return false;
                                    },
                                }
                            },
                            _ => {},
                        }
                    }
                },
                _ => {},
            }
            i += 1;
        }
        moved
    }
}

/// What a step that took a reading from `was` to `now` leaves `at` at when it
/// is taken a second time.
///
/// What the step did is the difference the run recorded either side of it, so
/// doing it again does that difference again.
pub open spec fn repeated(at: Literal, was: Option<Literal>, now: Option<Literal>) -> Option<Literal> {
    if was == now {
        Some(at)
    } else {
        match (at, was, now) {
            (Literal::Int(at), Some(Literal::Int(was)), Some(Literal::Int(now))) => if i64::MIN <= now
                - was <= i64::MAX && i64::MIN <= at + (now - was) <= i64::MAX {
                Some(Literal::Int((at + (now - was)) as i64))
            } else {
                None
            },
            _ => None,
        }
    }
}

/// What a step that took a reading from `was` to `now` leaves `at` at when it
/// arrives after the rest.
///
/// A step that overwrote the reading leaves it where that step put it. A step
/// that moved it by an amount reaches the same total whichever order the steps
/// arrived in.
pub open spec fn taken_last(
    at: Literal,
    was: Option<Literal>,
    now: Option<Literal>,
    climbs: bool,
) -> Option<Literal> {
    if was == now || climbs {
        Some(at)
    } else {
        now
    }
}

/// How a step falls that does not fall as it was driven.
#[derive(Clone, Copy, PartialEq, Eq, Structural)]
pub enum Falling {
    /// It is taken a second time.
    Twice,
    /// It arrives after the rest.
    Last,
}

/// What the step leaves one reading at when it falls differently.
pub open spec fn falls(
    how: Falling,
    at: Literal,
    was: Option<Literal>,
    now: Option<Literal>,
    climbs: bool,
) -> Option<Literal> {
    match how {
        Falling::Twice => repeated(at, was, now),
        Falling::Last => taken_last(at, was, now, climbs),
    }
}

/// Where `after` would have left the fleet had the step in place `at` of the
/// run fallen differently.
///
/// Nothing where the run did not read the fleet either side of the step. A
/// reading that cannot be worked out stays unread.
pub open spec fn projected(trail: Seq<Point>, after: Point, at: int, how: Falling) -> Option<Point> {
    if 0 <= at && at + 1 < trail.len() && after.len() == trail[at].len() && trail[at].len()
        == trail[at + 1].len() {
        Some(
            Seq::new(
                after.len(),
                |i: int|
                    match after[i] {
                        Some(value) => falls(
                            how,
                            value,
                            trail[at][i],
                            trail[at + 1][i],
                            climbs(trail, i),
                        ),
                        None => None,
                    },
            ),
        )
    } else {
        None
    }
}

/// What a step leaves one reading at when it falls differently.
fn fall(
    how: Falling,
    at: &Value,
    was: &Option<Value>,
    now: &Option<Value>,
    climbs: bool,
) -> (r: Option<Value>)
    ensures
        r.deep_view() == falls(how, at.deep_view(), was.deep_view(), now.deep_view(), climbs),
{
    if super::same_reading(was, now) {
        return Some(at.clone());
    }
    match how {
        Falling::Twice => match (at, was, now) {
            (Value::Int(at), Some(Value::Int(was)), Some(Value::Int(now))) => {
                match now.checked_sub(*was) {
                    Some(moved) => match at.checked_add(moved) {
                        Some(reached) => Some(Value::Int(reached)),
                        None => None,
                    },
                    None => None,
                }
            },
            _ => None,
        },
        Falling::Last => if climbs {
            // It adds up, so the order its steps arrived in leaves it alone.
            Some(at.clone())
        } else {
            match now {
                Some(now) => Some(now.clone()),
                None => None,
            }
        },
    }
}

impl Trajectory {
    /// Where `after` would have left the fleet had the step in place `at`
    /// fallen differently.
    ///
    /// `at` is a step's place in this trajectory, not its number in the
    /// scenario.
    fn projected(&self, after: &Checkpoint, at: usize, how: Falling) -> (r: Option<Checkpoint>)
        ensures
            r.deep_view() == projected(self.deep_view(), after.deep_view(), at as int, how),
    {
        let ghost trail = self.deep_view();
        let n = self.len();
        if at >= n || at >= n - 1 {
            return None;
        }
        match (self.at(at), self.at(at + 1)) {
            (Some(was), Some(now)) => {
                assert(was.deep_view() == trail[at as int]);
                assert(now.deep_view() == trail[at + 1]);
                if after.len() != was.len() || was.len() != now.len() {
                    return None;
                }
                let ghost whole = projected(trail, after.deep_view(), at as int, how)->0;
                let mut out: Checkpoint = Vec::new();
                for i in 0..after.len()
                    invariant
                        after@.len() == was@.len() == now@.len(),
                        trail == self.deep_view(),
                        at + 1 < trail.len(),
                        was.deep_view() == trail[at as int],
                        now.deep_view() == trail[at + 1],
                        whole == projected(trail, after.deep_view(), at as int, how)->0,
                        out.len() == i,
                        forall|j: int| 0 <= j < i ==> (#[trigger] out@[j]).deep_view() == whole[j],
                {
                    proof {
                        assert(trail[at as int][i as int] == was@[i as int].deep_view());
                        assert(trail[at + 1][i as int] == now@[i as int].deep_view());
                    }
                    // Unread here, or unprojectable from what the run recorded
                    // either side of the step. Either way it stays unread rather
                    // than leaving every other reading unanswerable.
                    out.push(
                        match &after[i] {
                            Some(value) => fall(how, value, &was[i], &now[i], self.climbs(i)),
                            None => None,
                        },
                    );
                }
                assert(out.deep_view() =~= whole);
                Some(out)
            },
            _ => None,
        }
    }
}

/// How two checkpoints compare.
pub enum Differ {
    /// They agree on everything both have.
    Agree,
    /// The first they part at is one both could read.
    At(int),
    /// The first they part at is one only one of them could read.
    Unread(int),
}

/// How two checkpoints compare, from the reading at `i` on. Neither being able
/// to read one is agreement.
pub open spec fn differing_from(reached: Point, expected: Point, i: int) -> Differ
    decreases reached.len() - i,
{
    if i < 0 || i >= reached.len() || i >= expected.len() {
        Differ::Agree
    } else if reached[i] == expected[i] {
        differing_from(reached, expected, i + 1)
    } else if reached[i] is Some && expected[i] is Some {
        Differ::At(i)
    } else {
        Differ::Unread(i)
    }
}

/// How two checkpoints compare.
pub open spec fn difference(reached: Point, expected: Point) -> Differ {
    differing_from(reached, expected, 0)
}

/// The first observable the two readings disagree on, `None` if they agree,
/// and the index of one only one of them could read.
///
/// Neither being able to read one is agreement.
fn differing(reached: &Checkpoint, expected: &Checkpoint) -> (r: Result<Option<usize>, usize>)
    ensures
        match r {
            Ok(None) => difference(reached.deep_view(), expected.deep_view()) is Agree,
            Ok(Some(at)) => difference(reached.deep_view(), expected.deep_view()) == Differ::At(
                at as int,
            ) && at < reached@.len() && at < expected@.len(),
            Err(at) => difference(reached.deep_view(), expected.deep_view()) == Differ::Unread(
                at as int,
            ),
        },
{
    let mut i: usize = 0;
    while i < reached.len() && i < expected.len()
        invariant
            i <= reached@.len(),
            i <= expected@.len(),
            difference(reached.deep_view(), expected.deep_view()) == differing_from(
                reached.deep_view(),
                expected.deep_view(),
                i as int,
            ),
        decreases reached@.len() - i,
    {
        if !super::same_reading(&reached[i], &expected[i]) {
            return if reached[i].is_some() && expected[i].is_some() {
                Ok(Some(i))
            } else {
                Err(i)
            };
        }
        i += 1;
    }
    Ok(None)
}

/// Whether `projected` describes where the fleet settled, or nothing where a
/// reading it rests on could not be projected.
pub open spec fn describes(projected: Point, settled: Point) -> Option<bool> {
    if exists|i: int|
        0 <= i < projected.len() && i < settled.len() && projected[i] is Some && settled[i] is Some
            && projected[i] != #[trigger] settled[i] {
        Some(false)
    } else if exists|i: int|
        0 <= i < projected.len() && i < settled.len() && projected[i] is None
            && #[trigger] settled[i] is Some {
        None
    } else {
        Some(true)
    }
}

/// Whether `projected` describes where the fleet settled, or `None` where a
/// reading it rests on could not be projected.
///
/// A reading nobody could work out leaves the verdict up in the air rather
/// than answered.
fn says(projected: &Checkpoint, settled: &Checkpoint) -> (r: Option<bool>)
    ensures
        r == describes(projected.deep_view(), settled.deep_view()),
{
    let ghost p = projected.deep_view();
    let ghost s = settled.deep_view();
    let mut asked: bool = true;
    let mut i: usize = 0;
    while i < projected.len() && i < settled.len()
        invariant
            p == projected.deep_view(),
            s == settled.deep_view(),
            i <= p.len(),
            i <= s.len(),
            forall|k: int| 0 <= k < i ==> !(p[k] is Some && s[k] is Some && p[k] != #[trigger] s[k]),
            asked == !(exists|k: int| 0 <= k < i && p[k] is None && #[trigger] s[k] is Some),
        decreases p.len() - i,
    {
        assert(p[i as int] == projected@[i as int].deep_view());
        assert(s[i as int] == settled@[i as int].deep_view());
        match (&projected[i], &settled[i]) {
            (Some(projected), Some(settled)) => {
                if !projected.same(settled) {
                    return Some(false);
                }
            },
            (None, Some(_)) => {
                asked = false;
            },
            _ => {},
        }
        i += 1;
    }
    if asked {
        Some(true)
    } else {
        None
    }
}

/// One state the run's own acknowledgements admit, and the run that found it.
struct Admissible<'a> {
    /// The steps the fleet would have taken to be here, numbered from one.
    landed: Vec<usize>,
    /// Where that run settled, which is what this run is held to.
    settled: &'a Checkpoint,
    /// Where it stood after each of those steps on the way.
    trail: &'a Trajectory,
    /// Whether `settled` is where a run stopped and was read once the fleet
    /// went quiet, or a point it passed through.
    settled_there: bool,
}

/// One state the run's own acknowledgements admit, and the run that found it.
#[verifier::ext_equal]
pub struct AdmissibleModel {
    pub landed: Seq<usize>,
    pub settled: Point,
    pub trail: Seq<Point>,
    pub settled_there: bool,
}

impl<'a> DeepView for Admissible<'a> {
    type V = AdmissibleModel;

    closed spec fn deep_view(&self) -> AdmissibleModel {
        AdmissibleModel {
            landed: self.landed@,
            settled: self.settled.deep_view(),
            trail: self.trail.deep_view(),
            settled_there: self.settled_there,
        }
    }
}

/// Whether `landed` is the first steps of the scenario and nothing else.
pub open spec fn prefix(landed: Seq<usize>) -> bool {
    forall|i: int| 0 <= i < landed.len() ==> #[trigger] landed[i] == i + 1
}

/// Whether `landed` is the first steps of the scenario and nothing else.
fn is_prefix(landed: &[usize]) -> (r: bool)
    ensures
        r == prefix(landed@),
{
    for i in 0..landed.len()
        invariant
            forall|k: int| 0 <= k < i ==> #[trigger] landed@[k] == k + 1,
    {
        if landed[i] != i + 1 {
            return false;
        }
    }
    true
}

/// The run that drove exactly `landed`: where it left the fleet, where it stood
/// after each step, and whether it stopped there.
///
/// The fault-free run answers for a prefix, and only stopped at the end of the
/// whole of it. Any other set needs a reference run.
pub open spec fn run_of(
    fault_free: BaselineModel,
    references: Seq<(Seq<usize>, BaselineModel)>,
    landed: Seq<usize>,
) -> Option<AdmissibleModel> {
    if prefix(landed) {
        match fault_free.at(landed.len() as int) {
            Some(settled) => Some(
                AdmissibleModel {
                    landed,
                    settled,
                    trail: fault_free.trail,
                    settled_there: landed.len() + 1 == fault_free.trail.len(),
                },
            ),
            None => None,
        }
    } else {
        match entry_of(references, landed) {
            Some(reference) => Some(
                AdmissibleModel {
                    landed,
                    settled: reference.settled,
                    trail: reference.trail,
                    settled_there: true,
                },
            ),
            None => None,
        }
    }
}

/// Where the run that drove exactly `landed` left the fleet, and where it
/// stood after each step.
///
/// The fault-free run answers for a prefix. Any other set needs a reference
/// run.
pub fn ran<'a>(
    fault_free: &'a Baseline,
    references: &'a References,
    landed: &[usize],
) -> (r: Option<(&'a Checkpoint, &'a Trajectory, bool)>)
    ensures
        match (r, run_of(fault_free.deep_view(), references.deep_view(), landed@)) {
            (Some((settled, trail, settled_there)), Some(run)) => {
                &&& settled.deep_view() == run.settled
                &&& trail.deep_view() == run.trail
                &&& settled_there == run.settled_there
            },
            (None, None) => true,
            _ => false,
        },
{
    if is_prefix(landed) {
        // Only the whole run stopped where it was read once the fleet went
        // quiet. Every shorter prefix is a point it passed through.
        let settled_there = landed.len() < fault_free.trail.len() && landed.len()
            == fault_free.trail.len() - 1;
        match fault_free.at(landed.len()) {
            Some(settled) => Some((settled, &fault_free.trail, settled_there)),
            None => None,
        }
    } else {
        match references.get(landed) {
            Some(reference) => Some((&reference.settled, &reference.trail, true)),
            None => None,
        }
    }
}

/// Whether the reading at `at` is an amount the steps only ever added to, and
/// lower than in every state the run admits.
pub open spec fn short_at(settled: Point, admissible: Seq<AdmissibleModel>, at: int) -> bool {
    &&& climbs(admissible[0].trail, at)
    &&& reading_at(settled, at) is Some
    &&& reading_at(settled, at)->0 is Int || reading_at(settled, at)->0 is Duration || reading_at(
        settled,
        at,
    )->0 is List
    &&& forall|i: int|
        0 <= i < admissible.len() ==> {
            &&& reading_at((#[trigger] admissible[i]).settled, at) is Some
            &&& literal_order(
                reading_at(settled, at)->0,
                reading_at(admissible[i].settled, at)->0,
            ) == Some(Order::Less)
        }
}

/// The first count from `at` on that reads lower than every state the run
/// admits.
pub open spec fn short_from(settled: Point, admissible: Seq<AdmissibleModel>, at: int) -> Option<int>
    decreases settled.len() - at,
{
    if at < 0 || at >= settled.len() {
        None
    } else if short_at(settled, admissible, at) {
        Some(at)
    } else {
        short_from(settled, admissible, at + 1)
    }
}

/// The first count that reads lower than every state the run admits.
pub open spec fn shortfall(settled: Point, admissible: Seq<AdmissibleModel>) -> Option<int> {
    if admissible.len() == 0 {
        None
    } else {
        short_from(settled, admissible, 0)
    }
}

/// The first count that reads lower than every state the run admits.
///
/// Not always the first reading the two runs disagree on.
fn short_count(settled: &Checkpoint, admissible: &[Admissible<'_>]) -> (r: Option<usize>)
    ensures
        match r {
            Some(at) => {
                &&& shortfall(settled.deep_view(), admissible.deep_view()) == Some(at as int)
                &&& at < settled@.len()
                &&& short_at(settled.deep_view(), admissible.deep_view(), at as int)
            },
            None => shortfall(settled.deep_view(), admissible.deep_view()) is None,
        },
{
    if admissible.len() == 0 {
        return None;
    }
    let ghost point = settled.deep_view();
    let ghost model = admissible.deep_view();
    for at in 0..settled.len()
        invariant
            admissible@.len() > 0,
            point == settled.deep_view(),
            model == admissible.deep_view(),
            shortfall(point, model) == short_from(point, model, at as int),
    {
        assert(model[0] == admissible@[0].deep_view());
        let mut short: bool = admissible[0].trail.climbs(at);
        match &settled[at] {
            Some(value) => {
                assert(point[at as int] == Some(value.deep_view()));
                let amount = match value {
                    Value::Int(_) => true,
                    Value::Duration(_) => true,
                    Value::List(_) => true,
                    _ => false,
                };
                let mut less: bool = true;
                for i in 0..admissible.len()
                    invariant
                        model == admissible.deep_view(),
                        less == forall|k: int|
                            0 <= k < i ==> {
                                &&& reading_at((#[trigger] model[k]).settled, at as int) is Some
                                &&& literal_order(
                                    value.deep_view(),
                                    reading_at(model[k].settled, at as int)->0,
                                ) == Some(Order::Less)
                            },
                {
                    assert(model[i as int] == admissible@[i as int].deep_view());
                    let owed = admissible[i].settled;
                    let below = if at < owed.len() {
                        match &owed[at] {
                            Some(owed) => match order(value, owed) {
                                Some(way) => way == Order::Less,
                                None => false,
                            },
                            None => false,
                        }
                    } else {
                        false
                    };
                    if !below {
                        less = false;
                    }
                }
                short = short && amount && less;
            },
            None => {
                short = false;
            },
        }
        if short {
            assert(short_at(point, model, at as int));
            return Some(at);
        }
    }
    None
}

/// What the fleet did that the fault-free run did not.
#[derive(Clone, Copy, Debug, PartialEq, Eq, Structural)]
pub enum Went {
    /// It holds less than every state the run admits.
    Lost,
    /// It settled where taking one of its steps twice would have left it.
    Twice,
    /// It settled where one of its steps arriving last would have left it.
    OutOfOrder,
    /// None of those describes where it ended up.
    Elsewhere,
    /// The readings cannot say.
    Unreadable,
}

/// How many of the steps taken can fall that way. Taking the last step last is
/// the order the scenario drove, so it is not a reordering of it.
pub open spec fn able(landed: nat, how: Falling) -> int {
    match how {
        Falling::Twice => landed as int,
        Falling::Last => if landed == 0 {
            0
        } else {
            landed - 1
        },
    }
}

/// Whether the step in place `at` falling that way describes where the fleet
/// settled, or nothing where that cannot be worked out.
pub open spec fn shown(settled: Point, admits: AdmissibleModel, at: int, how: Falling) -> Option<bool> {
    match projected(admits.trail, admits.settled, at, how) {
        Some(point) => describes(point, settled),
        None => None,
    }
}

/// Whether one of the steps falling that way describes where the fleet settled.
pub open spec fn any_shown(settled: Point, admits: AdmissibleModel, how: Falling) -> bool {
    exists|at: int|
        0 <= at < able(admits.landed.len(), how) && #[trigger] shown(settled, admits, at, how) == Some(
            true,
        )
}

/// Whether it can be worked out for each of the steps where falling that way
/// would have left the fleet.
pub open spec fn all_asked(settled: Point, admits: AdmissibleModel, how: Falling) -> bool {
    forall|at: int|
        0 <= at < able(admits.landed.len(), how) ==> #[trigger] shown(settled, admits, at, how) is Some
}

/// Whether the fleet stands where stopping short of the fewest steps it can
/// have taken would have left it.
pub open spec fn stopped_short(settled: Point, fewest: AdmissibleModel) -> bool {
    exists|n: int|
        0 <= n < fewest.landed.len() && n < fewest.trail.len() && #[trigger] fewest.trail[n] == settled
}

/// What the states from `i` on say the fleet did, the first of them that says
/// anything.
pub open spec fn shown_from(settled: Point, admissible: Seq<AdmissibleModel>, i: int) -> Option<Went>
    decreases admissible.len() - i,
{
    if i < 0 || i >= admissible.len() {
        None
    } else if any_shown(settled, admissible[i], Falling::Twice) {
        Some(Went::Twice)
    } else if any_shown(settled, admissible[i], Falling::Last) {
        Some(Went::OutOfOrder)
    } else {
        shown_from(settled, admissible, i + 1)
    }
}

/// Whether every question about where the fleet settled could be put.
pub open spec fn readable(settled: Point, admissible: Seq<AdmissibleModel>) -> bool {
    &&& admissible.len() > 0 ==> admissible[0].landed.len() <= admissible[0].trail.len()
    &&& forall|i: int|
        0 <= i < admissible.len() ==> {
            &&& all_asked(settled, #[trigger] admissible[i], Falling::Twice)
            &&& all_asked(settled, admissible[i], Falling::Last)
        }
}

impl Went {
    /// What `settled` says the fleet did.
    pub open spec fn said(settled: Point, admissible: Seq<AdmissibleModel>) -> Went {
        if admissible.len() > 0 && stopped_short(settled, admissible[0]) {
            Went::Lost
        } else if shortfall(settled, admissible) is Some {
            Went::Lost
        } else {
            match shown_from(settled, admissible, 0) {
                Some(went) => went,
                None => if readable(settled, admissible) {
                    Went::Elsewhere
                } else {
                    Went::Unreadable
                },
            }
        }
    }

    /// Which invariant this breaks, or nothing where nothing about the settled
    /// state names one.
    pub open spec fn names(self) -> Option<Invariant> {
        match self {
            Went::Lost => Some(Invariant::Durable),
            Went::Twice => Some(Invariant::Idempotent),
            Went::OutOfOrder => Some(Invariant::Converges),
            Went::Elsewhere | Went::Unreadable => None,
        }
    }

    /// Whether one of the steps falling that way describes where the fleet
    /// settled, and whether every one of them could be asked about up to there.
    fn scan(settled: &Checkpoint, admits: &Admissible<'_>, how: Falling) -> (r: (bool, bool))
        ensures
            r.0 == any_shown(settled.deep_view(), admits.deep_view(), how),
            !r.0 ==> r.1 == all_asked(settled.deep_view(), admits.deep_view(), how),
    {
        let ghost point = settled.deep_view();
        let ghost model = admits.deep_view();
        let n: usize = match how {
            Falling::Twice => admits.landed.len(),
            Falling::Last => if admits.landed.len() == 0 {
                0
            } else {
                admits.landed.len() - 1
            },
        };
        let mut asked: bool = true;
        for at in 0..n
            invariant
                point == settled.deep_view(),
                model == admits.deep_view(),
                n == able(model.landed.len(), how),
                forall|k: int| 0 <= k < at ==> #[trigger] shown(point, model, k, how) != Some(true),
                asked == forall|k: int| 0 <= k < at ==> #[trigger] shown(point, model, k, how) is Some,
        {
            let said = match admits.trail.projected(admits.settled, at, how) {
                Some(point) => says(&point, settled),
                None => None,
            };
            assert(said == shown(point, model, at as int, how));
            match said {
                Some(true) => {
                    return (true, asked);
                },
                Some(false) => {},
                None => {
                    asked = false;
                },
            }
        }
        (false, asked)
    }

    /// What `settled` says the fleet did.
    fn of(settled: &Checkpoint, admissible: &[Admissible<'_>]) -> (r: Went)
        ensures
            r == Went::said(settled.deep_view(), admissible.deep_view()),
    {
        let ghost point = settled.deep_view();
        let ghost model = admissible.deep_view();
        let mut readable_so_far: bool = true;
        // The fewest steps the run admits is the least the fleet can have
        // accepted. Settling where dropping some off the end of that would have
        // left it is work it took on and left nothing of, and the run that drove
        // exactly those steps walked past every one of those states on its way,
        // so dropping them is walking back along its trail.
        if admissible.len() > 0 {
            let fewest = &admissible[0];
            assert(model[0] == fewest.deep_view());
            for short in 0..fewest.landed.len()
                invariant
                    admissible@.len() > 0,
                    point == settled.deep_view(),
                    model == admissible.deep_view(),
                    model[0] == fewest.deep_view(),
                    forall|n: int|
                        0 <= n < short && n < model[0].trail.len() ==> #[trigger] model[0].trail[n] != point,
                    readable_so_far == (short <= model[0].trail.len()),
            {
                match fewest.trail.at(short) {
                    Some(stopped) => {
                        assert(stopped.deep_view() == model[0].trail[short as int]);
                        if same_checkpoint(stopped, settled) {
                            return Went::Lost;
                        }
                    },
                    None => {
                        readable_so_far = false;
                    },
                }
            }
        }
        // The loss above is one the fleet stopped short at. Work lost from the
        // middle leaves it at no set of steps at all, since the half that
        // recorded the work and the half that acted on it disagree, and only a
        // count is short enough to say so.
        if short_count(settled, admissible).is_some() {
            return Went::Lost;
        }
        for i in 0..admissible.len()
            invariant
                point == settled.deep_view(),
                model == admissible.deep_view(),
                !(admissible@.len() > 0 && stopped_short(point, model[0])),
                shortfall(point, model) is None,
                shown_from(point, model, 0) == shown_from(point, model, i as int),
                readable_so_far == {
                    &&& model.len() > 0 ==> model[0].landed.len() <= model[0].trail.len()
                    &&& forall|k: int|
                        0 <= k < i ==> {
                            &&& all_asked(point, #[trigger] model[k], Falling::Twice)
                            &&& all_asked(point, model[k], Falling::Last)
                        }
                },
        {
            assert(model[i as int] == admissible@[i as int].deep_view());
            let (twice, asked_twice) = Went::scan(settled, &admissible[i], Falling::Twice);
            if twice {
                return Went::Twice;
            }
            let (last, asked_last) = Went::scan(settled, &admissible[i], Falling::Last);
            if last {
                return Went::OutOfOrder;
            }
            readable_so_far = readable_so_far && asked_twice && asked_last;
        }
        if readable_so_far {
            Went::Elsewhere
        } else {
            Went::Unreadable
        }
    }

    /// Which invariant this breaks, or `None` where nothing about the settled
    /// state names one.
    fn shows(self) -> (r: Option<Invariant>)
        ensures
            r == self.names(),
    {
        match self {
            Went::Lost => Some(Invariant::Durable),
            Went::Twice => Some(Invariant::Idempotent),
            Went::OutOfOrder => Some(Invariant::Converges),
            Went::Elsewhere => None,
            Went::Unreadable => None,
        }
    }
}

/// The fault this run was judging, once it is known to have fired.
#[derive(Clone, Copy)]
pub(crate) struct Placed<'a> {
    service: &'a String,
    by: Primitive,
    at: &'a At,
}

/// The fault this run was judging, once it is known to have fired.
pub struct PlacedModel {
    pub service: Seq<char>,
    pub by: Primitive,
    pub at: AtModel,
}

impl<'a> DeepView for Placed<'a> {
    type V = PlacedModel;

    closed spec fn deep_view(&self) -> PlacedModel {
        PlacedModel { service: self.service@, by: self.by, at: self.at.deep_view() }
    }
}

/// Each step, spelled.
pub open spec fn step_spellings(landed: Seq<usize>) -> Seq<Seq<char>> {
    landed.map_values(|step: usize| decimal(step as nat))
}

/// Each step, spelled.
fn spell_steps(landed: &[usize]) -> (r: Vec<String>)
    ensures
        r.deep_view() == step_spellings(landed@),
{
    let mut out: Vec<String> = Vec::new();
    for i in 0..landed.len()
        invariant
            out.len() == i,
            forall|j: int| 0 <= j < i ==> (#[trigger] out@[j])@ == decimal(landed@[j] as nat),
    {
        out.push(spell(landed[i] as u128));
    }
    assert(out.deep_view() =~= step_spellings(landed@));
    out
}

/// Which steps the fleet took, spelled so a verdict reads as a sentence.
pub open spec fn took(landed: Seq<usize>) -> Seq<char> {
    if prefix(landed) {
        if landed.len() == 1 {
            "1 step"@
        } else {
            decimal(landed.len()) + " steps"@
        }
    } else if landed.len() == 1 {
        "step "@ + decimal(landed[0] as nat)
    } else {
        "steps "@ + joined(step_spellings(landed.drop_last()), ", "@) + " and "@ + decimal(
            landed.last() as nat,
        )
    }
}

/// Which steps the fleet took, spelled so a verdict reads as a sentence.
///
/// The first few are a count. Anything else names them, since "2 steps" would
/// read as the first two.
pub fn steps(landed: &[usize]) -> (r: String)
    ensures
        r@ == took(landed@),
{
    if is_prefix(landed) {
        if landed.len() == 1 {
            return "1 step".to_owned();
        }
        let mut out = spell(landed.len() as u128);
        out.append(" steps");
        return out;
    }
    // Nothing taken is a prefix, so there is a last step here.
    let n = landed.len();
    if n == 1 {
        let mut out = "step ".to_owned();
        out.append(spell(landed[0] as u128).as_str());
        return out;
    }
    let mut rest = spell_steps(landed);
    let ghost all = rest@;
    proof {
        assert(rest.deep_view().len() == all.len());
        assert(step_spellings(landed@).len() == n);
        assert forall|k: int| 0 <= k < all.len() implies (#[trigger] all[k])@ == decimal(
            landed@[k] as nat,
        ) by {
            assert(rest.deep_view()[k] == step_spellings(landed@)[k]);
        }
    }
    match rest.pop() {
        Some(last) => {
            proof {
                assert(last == all[n - 1]);
                assert forall|k: int| 0 <= k < rest@.len() implies (#[trigger] rest@[k])@ == decimal(
                    landed@[k] as nat,
                ) by {
                    assert(rest@[k] == all[k]);
                }
                assert(rest.deep_view() =~= step_spellings(landed@.drop_last()));
            }
            let mut out = "steps ".to_owned();
            out.append(join(rest.as_slice(), ", ").as_str());
            out.append(" and ");
            out.append(last.as_str());
            out
        },
        None => "no steps".to_owned(),
    }
}

/// Where a moment in the run sits against the scenario's steps from the one at
/// `i` on.
pub open spec fn placed_from(windows: Seq<StepWindow>, at_ns: u128, i: int) -> Seq<char>
    decreases windows.len() - i,
{
    if i < 0 || i >= windows.len() {
        "after step "@ + decimal(windows.len())
    } else if at_ns <= windows[i].end_ns {
        // Past the previous step's end and short of this one's start, so
        // nothing of the scenario was in flight.
        if at_ns < windows[i].start_ns {
            "between steps "@ + decimal(i as nat) + " and "@ + decimal((i + 1) as nat)
        } else {
            "during step "@ + decimal((i + 1) as nat)
        }
    } else {
        placed_from(windows, at_ns, i + 1)
    }
}

/// Where a moment in the run sits against the scenario's steps.
pub open spec fn placement_of(windows: Seq<StepWindow>, at_ns: u128) -> Seq<char> {
    if windows.len() == 0 {
        "at an unknown point"@
    } else if at_ns < windows[0].start_ns {
        "before step 1"@
    } else {
        placed_from(windows, at_ns, 0)
    }
}

/// Where a moment in the run sits against the scenario's steps.
pub fn placement(windows: &[StepWindow], at_ns: u128) -> (r: String)
    ensures
        r@ == placement_of(windows@, at_ns),
{
    if windows.len() == 0 {
        return "at an unknown point".to_owned();
    }
    if at_ns < windows[0].start_ns {
        return "before step 1".to_owned();
    }
    for i in 0..windows.len()
        invariant
            windows@.len() > 0,
            at_ns >= windows@[0].start_ns,
            placed_from(windows@, at_ns, 0) == placed_from(windows@, at_ns, i as int),
    {
        if at_ns <= windows[i].end_ns {
            if at_ns < windows[i].start_ns {
                let mut out = "between steps ".to_owned();
                out.append(spell(i as u128).as_str());
                out.append(" and ");
                out.append(spell(i as u128 + 1).as_str());
                return out;
            }
            let mut out = "during step ".to_owned();
            out.append(spell(i as u128 + 1).as_str());
            return out;
        }
    }
    let mut out = "after step ".to_owned();
    out.append(spell(windows.len() as u128).as_str());
    out
}

/// The invariants as a verdict names them.
pub open spec fn invariant_spellings(invariants: Seq<Invariant>) -> Seq<Seq<char>> {
    invariants.map_values(|shown: Invariant| shown.spelling())
}

/// A list of invariants, as a verdict says them.
pub open spec fn listed(invariants: Seq<Invariant>) -> Seq<char> {
    if invariants.len() == 0 {
        "nothing"@
    } else if invariants.len() == 1 {
        invariants[0].spelling()
    } else {
        joined(invariant_spellings(invariants.drop_last()), ", "@) + " or "@
            + invariants.last().spelling()
    }
}

/// A list of invariants, as a verdict says them.
fn spelled(invariants: &[Invariant]) -> (r: String)
    ensures
        r@ == listed(invariants@),
{
    let n = invariants.len();
    if n == 0 {
        return "nothing".to_owned();
    }
    if n == 1 {
        return invariants[0].spell().to_owned();
    }
    let mut rest: Vec<String> = Vec::new();
    let last: usize = n - 1;
    for i in 0..last
        invariant
            last < invariants@.len(),
            rest.len() == i,
            forall|j: int| 0 <= j < i ==> (#[trigger] rest@[j])@ == invariants@[j].spelling(),
    {
        rest.push(invariants[i].spell().to_owned());
    }
    assert(rest.deep_view() =~= invariant_spellings(invariants@.drop_last()));
    let mut out = join(rest.as_slice(), ", ");
    out.append(" or ");
    out.append(invariants[last].spell());
    out
}

/// Whether the reading stands that way to every reading the run admits, of
/// which there is one.
pub open spec fn stands(
    settled: Literal,
    admissible: Seq<AdmissibleModel>,
    at: int,
    way: Order,
) -> bool {
    &&& exists|i: int|
        0 <= i < admissible.len() && reading_at((#[trigger] admissible[i]).settled, at) is Some
    &&& forall|i: int|
        0 <= i < admissible.len() && reading_at((#[trigger] admissible[i]).settled, at) is Some
            ==> literal_order(settled, reading_at(admissible[i].settled, at)->0) == Some(way)
}

/// Which way the fleet's reading of `at` parted from every reading the run
/// admits. Empty where the reading has no amount.
pub open spec fn parting(settled: Literal, admissible: Seq<AdmissibleModel>, at: int) -> Seq<char> {
    if !(settled is Int || settled is Duration) {
        ""@
    } else if stands(settled, admissible, at, Order::Greater) {
        // A run held to a point the fault-free run passed through had longer to
        // reach what it holds, so reading high says less than it appears to.
        if forall|i: int| 0 <= i < admissible.len() ==> (#[trigger] admissible[i]).settled_there {
            ". It held more than it owed on any reading"@
        } else {
            ". It held more than it owed on any reading, one of which is a point the fault-free run passed through rather than where it stopped"@
        }
    } else if stands(settled, admissible, at, Order::Less) {
        ". It held less than it owed on any reading"@
    } else {
        ""@
    }
}

/// Which way the fleet's reading of `at` parted from every reading the run
/// admits.
///
/// Empty where the reading has no order.
fn parted(settled: &Value, admissible: &[Admissible<'_>], at: usize) -> (r: &'static str)
    ensures
        r@ == parting(settled.deep_view(), admissible.deep_view(), at as int),
{
    // More or less than it owed is a quantity. A reading that only sorts has an
    // order without having an amount.
    let amount = match settled {
        Value::Int(_) => true,
        Value::Duration(_) => true,
        _ => false,
    };
    if !amount {
        return "";
    }
    let ghost value = settled.deep_view();
    let ghost model = admissible.deep_view();
    let mut owed: bool = false;
    let mut more: bool = true;
    let mut less: bool = true;
    let mut stopped_there: bool = true;
    for i in 0..admissible.len()
        invariant
            value == settled.deep_view(),
            model == admissible.deep_view(),
            owed == exists|k: int|
                0 <= k < i && reading_at((#[trigger] model[k]).settled, at as int) is Some,
            more == forall|k: int|
                0 <= k < i && reading_at((#[trigger] model[k]).settled, at as int) is Some
                    ==> literal_order(value, reading_at(model[k].settled, at as int)->0) == Some(
                    Order::Greater,
                ),
            less == forall|k: int|
                0 <= k < i && reading_at((#[trigger] model[k]).settled, at as int) is Some
                    ==> literal_order(value, reading_at(model[k].settled, at as int)->0) == Some(
                    Order::Less,
                ),
            stopped_there == forall|k: int| 0 <= k < i ==> (#[trigger] model[k]).settled_there,
    {
        assert(model[i as int] == admissible@[i as int].deep_view());
        if !admissible[i].settled_there {
            stopped_there = false;
        }
        let point = admissible[i].settled;
        if at < point.len() {
            match &point[at] {
                Some(value) => {
                    owed = true;
                    match order(settled, value) {
                        Some(Order::Greater) => {
                            less = false;
                        },
                        Some(Order::Less) => {
                            more = false;
                        },
                        _ => {
                            more = false;
                            less = false;
                        },
                    }
                },
                None => {},
            }
        }
    }
    if owed && more {
        if stopped_there {
            ". It held more than it owed on any reading"
        } else {
            ". It held more than it owed on any reading, one of which is a point the fault-free run passed through rather than where it stopped"
        }
    } else if owed && less {
        ". It held less than it owed on any reading"
    } else {
        ""
    }
}

/// Whether the least the run admits is that the fleet took some work on.
pub open spec fn accepted(admissible: Seq<AdmissibleModel>) -> bool {
    admissible.len() > 0 && admissible[0].landed.len() > 0
}

impl PlacedModel {
    /// What was done, as a verdict says it happened.
    pub open spec fn done(self) -> Seq<char> {
        match self.by {
            Primitive::Kill => "was killed"@,
            Primitive::Cut => "was cut off"@,
            Primitive::Redeliver => "was redelivered to"@,
            Primitive::Reorder => "was reordered around"@,
            Primitive::Drop => "had a message dropped on it"@,
        }
    }

    /// When it was done, against the steps the scenario drove, and what it
    /// caught there.
    pub open spec fn when(self, windows: Seq<StepWindow>) -> Seq<char> {
        match self.at {
            AtModel::Moment { offset_ns, why, .. } => placement_of(windows, offset_ns) + ", on "@ + why,
            AtModel::Throughout => "for the whole run"@,
        }
    }

    /// The invariants breaking the fleet this way could show.
    pub open spec fn could_show(self) -> Seq<Invariant> {
        if self.at is Throughout {
            super::shown_degraded()
        } else {
            super::shown_by(self.by)
        }
    }

    /// Whether the fleet took work on while it was held down and never caught
    /// up on it. One that accepted nothing had nothing to catch up on.
    pub open spec fn behind(self, went: Went, admissible: Seq<AdmissibleModel>) -> bool {
        self.at is Throughout && went == Went::Lost && accepted(admissible)
    }

    /// Which invariant the run showed broken, or nothing where the settled
    /// state names none of the ones this fault could have shown.
    pub open spec fn broke(
        self,
        went: Went,
        admissible: Seq<AdmissibleModel>,
    ) -> Option<Invariant> {
        if self.behind(went, admissible) {
            Some(Invariant::Recovers)
        } else if self.could_show().len() == 1 {
            Some(self.could_show()[0])
        } else {
            match went.names() {
                Some(shown) => if self.could_show().contains(shown) {
                    Some(shown)
                } else {
                    None
                },
                None => None,
            }
        }
    }

    /// What the run says broke, and the evidence for saying it.
    pub open spec fn told(
        self,
        went: Went,
        settled: Literal,
        admissible: Seq<AdmissibleModel>,
        at: int,
    ) -> Seq<char> {
        if self.behind(went, admissible) {
            ". It settled where fewer steps would have left it, so work it accepted while it was down was never caught up on, which is recovery"@
        } else if self.could_show().len() == 1 {
            ". Breaking the fleet this way can show nothing but "@ + self.could_show()[0].spelling()
                + ", so that is what broke"@
        } else {
            match went {
                Went::Lost => ". It settled where fewer steps would have left it, so work was lost, which is durability"@,
                Went::Twice => ". It settled where the steps it took would have left it had one of them been taken twice, so work was done twice, which is idempotency"@,
                Went::OutOfOrder => ". It settled where the steps it took would have left it had one of them arrived after the rest, so the order it was told things in decided the outcome, which is convergence"@,
                Went::Elsewhere => parting(settled, admissible, at)
                    + ". It settled where losing a step, taking one twice and taking one out of order would all have left it somewhere else, so which of "@
                    + listed(self.could_show())
                    + " broke cannot be read from where it settled"@,
                Went::Unreadable => parting(settled, admissible, at)
                    + ". What the fleet would hold had it lost, repeated or resequenced a step cannot be worked out from what this run has, so which of "@
                    + listed(self.could_show())
                    + " broke cannot be read from where it settled"@,
            }
        }
    }
}

impl<'a> Placed<'a> {
    /// A fault of that kind, on that service, at that moment.
    pub(crate) fn new(service: &'a String, by: Primitive, at: &'a At) -> (r: Placed<'a>)
        ensures
            r.deep_view() == (PlacedModel { service: service@, by, at: at.deep_view() }),
    {
        Placed { service, by, at }
    }

    /// What was done, to what and when, as a failure opens.
    pub(crate) fn opening(self, windows: &[StepWindow]) -> (r: String)
        ensures
            r@ == "`"@ + self.deep_view().service + "` "@ + self.deep_view().done() + " "@
                + self.deep_view().when(windows@) + ". "@,
    {
        let mut out = "`".to_owned();
        out.append(self.service.as_str());
        out.append("` ");
        out.append(self.done());
        out.append(" ");
        out.append(self.when(windows).as_str());
        out.append(". ");
        out
    }

    /// What was done, as a verdict says it happened.
    fn done(self) -> (r: &'static str)
        ensures
            r@ == self.deep_view().done(),
    {
        match self.by {
            Primitive::Kill => "was killed",
            Primitive::Cut => "was cut off",
            Primitive::Redeliver => "was redelivered to",
            Primitive::Reorder => "was reordered around",
            Primitive::Drop => "had a message dropped on it",
        }
    }

    /// The invariants breaking the fleet this way could show, of which the run
    /// shows at most one.
    fn could_show(self) -> (r: Vec<Invariant>)
        ensures
            r@ == self.deep_view().could_show(),
    {
        let throughout = match self.at {
            At::Throughout => true,
            _ => false,
        };
        Invariant::could_show(throughout, self.by)
    }

    /// When it was done, against the steps the scenario drove, and what it
    /// caught there.
    fn when(self, windows: &[StepWindow]) -> (r: String)
        ensures
            r@ == self.deep_view().when(windows@),
    {
        match self.at {
            At::Moment { offset_ns, why, .. } => {
                let mut out = placement(windows, *offset_ns);
                out.append(", on ");
                out.append(why.as_str());
                out
            },
            At::Throughout => "for the whole run".to_owned(),
        }
    }

    /// Whether the fleet took work on while it was held down and never caught
    /// up on it.
    fn behind(self, went: Went, admissible: &[Admissible<'_>]) -> (r: bool)
        ensures
            r == self.deep_view().behind(went, admissible.deep_view()),
    {
        let throughout = match self.at {
            At::Throughout => true,
            _ => false,
        };
        throughout && went == Went::Lost && admissible.len() > 0 && admissible[0].landed.len() > 0
    }

    /// Which invariant the run showed broken, or `None` where the settled
    /// state names none of the ones this fault could have shown.
    fn broke(self, went: Went, admissible: &[Admissible<'_>]) -> (r: Option<Invariant>)
        ensures
            r == self.deep_view().broke(went, admissible.deep_view()),
    {
        if self.behind(went, admissible) {
            return Some(Invariant::Recovers);
        }
        let could = self.could_show();
        if could.len() == 1 {
            return Some(could[0]);
        }
        match went.shows() {
            Some(shown) => {
                let mut among: bool = false;
                for i in 0..could.len()
                    invariant
                        among == exists|k: int| 0 <= k < i && could@[k] == shown,
                {
                    if could[i] == shown {
                        among = true;
                    }
                }
                assert(among == could@.contains(shown));
                if among {
                    Some(shown)
                } else {
                    None
                }
            },
            None => None,
        }
    }

    /// What the run says broke, and the evidence for saying it.
    ///
    /// A way of breaking the fleet that can show only one thing needs no
    /// evidence. Anything broader is read off where the fleet settled.
    fn told(
        self,
        went: Went,
        settled: &Value,
        admissible: &[Admissible<'_>],
        at: usize,
    ) -> (r: String)
        ensures
            r@ == self.deep_view().told(
                went,
                settled.deep_view(),
                admissible.deep_view(),
                at as int,
            ),
    {
        if self.behind(went, admissible) {
            return ". It settled where fewer steps would have left it, so work it accepted while it was down was never caught up on, which is recovery".to_owned();
        }
        let could = self.could_show();
        if could.len() == 1 {
            let mut out = ". Breaking the fleet this way can show nothing but ".to_owned();
            out.append(could[0].spell());
            out.append(", so that is what broke");
            return out;
        }
        match went {
            Went::Lost => ". It settled where fewer steps would have left it, so work was lost, which is durability".to_owned(),
            Went::Twice => ". It settled where the steps it took would have left it had one of them been taken twice, so work was done twice, which is idempotency".to_owned(),
            Went::OutOfOrder => ". It settled where the steps it took would have left it had one of them arrived after the rest, so the order it was told things in decided the outcome, which is convergence".to_owned(),
            Went::Elsewhere => {
                let mut out = parted(settled, admissible, at).to_owned();
                out.append(". It settled where losing a step, taking one twice and taking one out of order would all have left it somewhere else, so which of ");
                out.append(spelled(could.as_slice()).as_str());
                out.append(" broke cannot be read from where it settled");
                out
            },
            Went::Unreadable => {
                let mut out = parted(settled, admissible, at).to_owned();
                out.append(". What the fleet would hold had it lost, repeated or resequenced a step cannot be worked out from what this run has, so which of ");
                out.append(spelled(could.as_slice()).as_str());
                out.append(" broke cannot be read from where it settled");
                out
            },
        }
    }
}

/// The first point the two runs part at, from the one at `i` on.
pub open spec fn diverged_from(reached: Seq<Point>, expected: Seq<Point>, i: int) -> Option<int>
    decreases reached.len() - i,
{
    if i < 0 || i >= reached.len() || i >= expected.len() {
        None
    } else if reached[i] != expected[i] {
        Some(i)
    } else {
        diverged_from(reached, expected, i + 1)
    }
}

impl ReadingsModel {
    /// What the check at `i` reads, as the scenario spells it.
    pub open spec fn observable_at(self, i: int) -> Seq<char> {
        if 0 <= i < self.checks.len() {
            self.checks[i].check.observed()
        } else {
            "observable "@ + decimal(i as nat)
        }
    }

    /// What the fault was, where it landed, what should have been true, and the
    /// step the fleet started getting it wrong at.
    pub open spec fn failing(
        self,
        fault: PlacedModel,
        admissible: Seq<AdmissibleModel>,
        at: int,
        went: Went,
    ) -> Seq<char> {
        let landed = admissible.last().landed;
        let reason = match (self.settled()[at], admissible.last().settled[at]) {
            (Some(settled), Some(expected)) => "The fleet took "@ + took(landed) + " which left `"@
                + self.observable_at(at) + "` at `"@ + spelling(settled) + "`, expected value `"@
                + spelling(expected) + "`"@ + fault.told(went, settled, admissible, at),
            _ => "`"@ + self.observable_at(at) + "` disagrees with the fault-free run"@,
        };
        // Only worth saying when the state parted on the way to the step being
        // judged. Parting after that is downstream of the verdict, not evidence
        // for it, and reads as a contradiction next to the count of steps that
        // landed. Only the steps the fleet took, which for a run that refused
        // one and served the next is not the first few.
        let diverged = match diverged_from(self.trajectory, self.fault_free.trail, 0) {
            Some(step) => if landed.contains(step as usize) {
                ". It first differed after step "@ + decimal(step as nat)
            } else {
                ""@
            },
            None => ""@,
        };
        "`"@ + fault.service + "` "@ + fault.done() + " "@ + fault.when(self.windows) + ". "@ + reason
            + diverged
    }
}

impl Readings {
    /// What the check at `i` reads, as the scenario spells it.
    pub(crate) fn observable_at(&self, i: usize) -> (r: String)
        ensures
            r@ == self.deep_view().observable_at(i as int),
    {
        if i < self.checks.len() {
            self.checks[i].check.observable()
        } else {
            let mut out = "observable ".to_owned();
            out.append(spell(i as u128).as_str());
            out
        }
    }

    /// The step this run's state first parted from the fault-free run's.
    pub(crate) fn diverged_at(&self) -> (r: Option<usize>)
        ensures
            match r {
                Some(step) => diverged_from(
                    self.deep_view().trajectory,
                    self.deep_view().fault_free.trail,
                    0,
                ) == Some(step as int),
                None => diverged_from(
                    self.deep_view().trajectory,
                    self.deep_view().fault_free.trail,
                    0,
                ) is None,
            },
    {
        let ghost reached = self.deep_view().trajectory;
        let ghost expected = self.deep_view().fault_free.trail;
        let n = self.trajectory.len();
        for i in 0..n
            invariant
                reached == self.deep_view().trajectory,
                expected == self.deep_view().fault_free.trail,
                n == reached.len(),
                i <= expected.len(),
                diverged_from(reached, expected, 0) == diverged_from(reached, expected, i as int),
        {
            match (self.trajectory.at(i), self.fault_free.trail.at(i)) {
                (Some(here), Some(there)) => {
                    assert(here.deep_view() == reached[i as int]);
                    assert(there.deep_view() == expected[i as int]);
                    if !same_checkpoint(here, there) {
                        return Some(i);
                    }
                },
                _ => {
                    return None;
                },
            }
        }
        None
    }

    /// What the fault was, where it landed, what should have been true, and the
    /// step the fleet started getting it wrong at.
    fn failure(
        &self,
        fault: Placed<'_>,
        settled: &Checkpoint,
        admissible: &[Admissible<'_>],
        at: usize,
        went: Went,
    ) -> (r: String)
        requires
            admissible@.len() > 0,
            settled.deep_view() == self.deep_view().settled(),
            at < settled@.len(),
            at < admissible.deep_view().last().settled.len(),
        ensures
            r@ == self.deep_view().failing(
                fault.deep_view(),
                admissible.deep_view(),
                at as int,
                went,
            ),
    {
        let ghost model = admissible.deep_view();
        let most = &admissible[admissible.len() - 1];
        proof {
            assert(model.last() == most.deep_view());
            assert(settled@[at as int].deep_view() == self.deep_view().settled()[at as int]);
            assert(most.settled@[at as int].deep_view() == model.last().settled[at as int]);
        }
        let observable = self.observable_at(at);
        let reason: String = match (&settled[at], &most.settled[at]) {
            (Some(settled), Some(expected)) => {
                let mut out = "The fleet took ".to_owned();
                out.append(steps(most.landed.as_slice()).as_str());
                out.append(" which left `");
                out.append(observable.as_str());
                out.append("` at `");
                out.append(settled.spell().as_str());
                out.append("`, expected value `");
                out.append(expected.spell().as_str());
                out.append("`");
                out.append(fault.told(went, settled, admissible, at).as_str());
                out
            },
            _ => {
                let mut out = "`".to_owned();
                out.append(observable.as_str());
                out.append("` disagrees with the fault-free run");
                out
            },
        };
        let mut out = fault.opening(self.windows.as_slice());
        out.append(reason.as_str());
        let mut diverged: String = "".to_owned();
        match self.diverged_at() {
            Some(step) => {
                let mut took_it: bool = false;
                for i in 0..most.landed.len()
                    invariant
                        took_it == exists|k: int| 0 <= k < i && most.landed@[k] == step,
                {
                    if most.landed[i] == step {
                        took_it = true;
                    }
                }
                assert(took_it == most.landed@.contains(step));
                if took_it {
                    diverged = ". It first differed after step ".to_owned();
                    diverged.append(spell(step as u128).as_str());
                }
            },
            None => {},
        }
        out.append(diverged.as_str());
        out
    }
}

/// The states of `sets` some run has been in, in the order of the sets.
pub open spec fn admissible_of(
    fault_free: BaselineModel,
    references: Seq<(Seq<usize>, BaselineModel)>,
    sets: Seq<Seq<usize>>,
) -> Seq<AdmissibleModel>
    decreases sets.len(),
{
    if sets.len() == 0 {
        Seq::empty()
    } else {
        let rest = admissible_of(fault_free, references, sets.drop_last());
        match run_of(fault_free, references, sets.last()) {
            Some(run) => rest.push(run),
            None => rest,
        }
    }
}

/// The sets a run is wanted for: those no run has been in, but for a prefix the
/// fault-free run has no checkpoint for. It drove every step, so no reference
/// run would answer differently.
pub open spec fn wanted(
    fault_free: BaselineModel,
    references: Seq<(Seq<usize>, BaselineModel)>,
    sets: Seq<Seq<usize>>,
) -> Seq<Seq<usize>> {
    sets.filter(
        |set: Seq<usize>| run_of(fault_free, references, set) is None && !prefix(set),
    )
}

/// A run nothing can be said about, which no reference run would change.
pub open spec fn undecided(reason: Seq<char>) -> JudgedModel {
    JudgedModel::Now(VerdictModel::Inconclusive { reason })
}

/// Whether where the fleet settled agrees with one of the states.
pub open spec fn fits(settled: Point, admissible: Seq<AdmissibleModel>) -> bool {
    exists|i: int|
        0 <= i < admissible.len() && difference(settled, (#[trigger] admissible[i]).settled) is Agree
}

impl ReadingsModel {
    /// What a run whose fault fired says, once the sets of steps it may have
    /// taken are known.
    pub open spec fn judged_on(
        self,
        fault: PlacedModel,
        references: Seq<(Seq<usize>, BaselineModel)>,
        sets: Seq<Seq<usize>>,
    ) -> JudgedModel {
        let admissible = admissible_of(self.fault_free, references, sets);
        let pending = wanted(self.fault_free, references, sets);
        if fits(self.settled(), admissible) {
            JudgedModel::Now(VerdictModel::Pass)
        } else if pending.len() > 0 {
            JudgedModel::Pending(pending)
        } else if admissible.len() == 0 {
            undecided(
                "the fault-free run left "@ + decimal(self.fault_free.trail.len())
                    + " checkpoint(s), so it cannot say where the fleet's steps leave it"@,
            )
        } else {
            match difference(self.settled(), admissible.last().settled) {
                Differ::Agree => JudgedModel::Now(VerdictModel::Pass),
                Differ::At(first) => {
                    let went = Went::said(self.settled(), admissible);
                    // The reading that says work was lost is the one to quote,
                    // and it need not be the first the two runs disagree on.
                    let at = match (went, shortfall(self.settled(), admissible)) {
                        (Went::Lost, Some(short)) => short,
                        _ => first,
                    };
                    JudgedModel::Now(
                        VerdictModel::Fail {
                            broke: fault.broke(went, admissible),
                            reason: self.failing(fault, admissible, at, went),
                        },
                    )
                },
                Differ::Unread(at) => undecided(
                    "`"@ + self.observable_at(at) + "` could not be read in both runs"@,
                ),
            }
        }
    }

    /// What the run's readings say the fleet did.
    pub open spec fn judged(self, references: Seq<(Seq<usize>, BaselineModel)>) -> JudgedModel {
        match self.fault {
            None => undecided("no fault was scheduled"@),
            Some(report) => match report.result {
                FaultResultModel::Missed(miss) => undecided("fault did not fire: "@ + miss.spelling()),
                FaultResultModel::Fired { by, at, .. } => if self.outcomes.len() == 0 {
                    undecided("the scenario drove nothing, so nothing was put at risk"@)
                } else if self.checks.len() == 0 {
                    undecided("the scenario states nothing to check after heal"@)
                } else {
                    match landed_sets(self.outcomes) {
                        None => undecided(
                            "more than "@ + decimal(IN_DOUBT_LIMIT as nat)
                                + " steps were left in doubt, so what the fleet accepted cannot be enumerated"@,
                        ),
                        Some(sets) => self.judged_on(
                            PlacedModel { service: report.service, by, at },
                            references,
                            sets,
                        ),
                    }
                },
            },
        }
    }
}

/// A run nothing can be said about, which no reference run would change.
fn unjudgeable(reason: String) -> (r: Judged)
    ensures
        r.deep_view() == undecided(reason@),
{
    Judged::Now(Verdict::Inconclusive { reason })
}

/// Each set of steps, spelled.
pub open spec fn set_spellings(sets: Seq<Seq<usize>>) -> Seq<Seq<char>> {
    sets.map_values(|set: Seq<usize>| "("@ + joined(step_spellings(set), ", "@) + ")"@)
}

/// Why a run went unjudged that stood somewhere no run has been.
pub open spec fn unreferenced_text(sets: Seq<Seq<usize>>) -> Seq<char> {
    "the fleet may have accepted steps "@ + joined(set_spellings(sets), " or "@)
        + ", which no run has driven on their own, so where they leave it is unknown"@
}

/// Why a run went unjudged. It stood somewhere no run has been, and none was
/// taken there.
fn unreferenced(sets: &[Vec<usize>]) -> (r: String)
    ensures
        r@ == unreferenced_text(sets.deep_view()),
{
    let mut spelled: Vec<String> = Vec::new();
    for i in 0..sets.len()
        invariant
            spelled.len() == i,
            forall|j: int|
                0 <= j < i ==> (#[trigger] spelled@[j])@ == "("@ + joined(
                    step_spellings(sets@[j]@),
                    ", "@,
                ) + ")"@,
    {
        let mut out = "(".to_owned();
        out.append(join(spell_steps(sets[i].as_slice()).as_slice(), ", ").as_str());
        out.append(")");
        spelled.push(out);
    }
    proof {
        assert forall|k: int| 0 <= k < sets@.len() implies sets.deep_view()[k] == sets@[k]@ by {
            assert(sets@[k].deep_view() =~= sets@[k]@);
        }
        assert(spelled.deep_view() =~= set_spellings(sets.deep_view()));
    }
    let mut out = "the fleet may have accepted steps ".to_owned();
    out.append(join(spelled.as_slice(), " or ").as_str());
    out.append(", which no run has driven on their own, so where they leave it is unknown");
    out
}

impl VerdictModel {
    /// What a judgement comes to when no more reference runs are taken.
    pub open spec fn settled_on(judged: JudgedModel) -> VerdictModel {
        match judged {
            JudgedModel::Now(verdict) => verdict,
            JudgedModel::Pending(sets) => VerdictModel::Inconclusive {
                reason: unreferenced_text(sets),
            },
        }
    }
}

impl Readings {
    /// What a run whose fault fired says, once the sets of steps it may have
    /// taken are known.
    fn judge_on(
        &self,
        fault: Placed<'_>,
        references: &References,
        sets: Vec<Vec<usize>>,
    ) -> (r: Judged)
        ensures
            r.deep_view() == self.deep_view().judged_on(
                fault.deep_view(),
                references.deep_view(),
                sets.deep_view(),
            ),
    {
        let ghost model = self.deep_view();
        let ghost refs = references.deep_view();
        let ghost all = sets.deep_view();
        let ghost missing = |set: Seq<usize>|
            run_of(model.fault_free, refs, set) is None && !prefix(set);
        let ghost given = sets@;
        let mut admissible: Vec<Admissible<'_>> = Vec::new();
        let mut pending: Vec<Vec<usize>> = Vec::new();
        proof {
            assert(admissible.deep_view() =~= Seq::empty());
            assert(pending.deep_view() =~= Seq::empty());
            assert(all.take(0) =~= Seq::empty());
            reveal(Seq::filter);
        }
        for set in it: sets
            invariant
                it.seq() == given,
                model == self.deep_view(),
                refs == references.deep_view(),
                all.len() == given.len(),
                forall|k: int| 0 <= k < given.len() ==> (#[trigger] given[k]).deep_view() == all[k],
                missing == (|set: Seq<usize>|
                    run_of(model.fault_free, refs, set) is None && !prefix(set)),
                admissible.deep_view() == admissible_of(
                    model.fault_free,
                    refs,
                    all.take(it.index() as int),
                ),
                pending.deep_view() == all.take(it.index() as int).filter(missing),
        {
            let ghost n = it.index() as int;
            let ghost steps = set@;
            let ghost so_far = admissible.deep_view();
            let ghost wanting = pending.deep_view();
            proof {
                assert(set == given[n]);
                assert(set.deep_view() =~= steps);
                assert(all.take(n + 1).drop_last() =~= all.take(n));
                assert(all.take(n + 1).last() == steps);
                reveal(Seq::filter);
            }
            match ran(&self.fault_free, references, set.as_slice()) {
                Some((settled, trail, settled_there)) => {
                    let found = Admissible { landed: set, settled, trail, settled_there };
                    admissible.push(found);
                    assert(admissible.deep_view() =~= so_far.push(found.deep_view()));
                    assert(Some(found.deep_view()) == run_of(model.fault_free, refs, steps));
                },
                None => {
                    if !is_prefix(set.as_slice()) {
                        pending.push(set);
                        assert(pending.deep_view() =~= wanting.push(steps));
                    }
                },
            }
        }
        proof {
            assert(all.take(all.len() as int) =~= all);
        }
        let ghost states = admissible.deep_view();
        let settled = self.settled();
        // Any outcome the run admits is enough. What is in doubt is what the
        // fleet accepted, and it is not held to the strictest reading of that.
        // One of the states already to hand settles it, and the rest cost a run
        // each, so this is asked before they are asked for.
        let mut fitting: bool = false;
        for i in 0..admissible.len()
            invariant
                states == admissible.deep_view(),
                settled.deep_view() == model.settled(),
                fitting == exists|k: int|
                    0 <= k < i && difference(model.settled(), (#[trigger] states[k]).settled) is Agree,
        {
            assert(states[i as int] == admissible@[i as int].deep_view());
            match differing(&settled, admissible[i].settled) {
                Ok(None) => {
                    fitting = true;
                },
                _ => {},
            }
        }
        if fitting {
            return Judged::Now(Verdict::Pass);
        }
        // Nothing the run has been held to fits, and ruling the rest out is
        // what saying it broke rests on.
        if pending.len() > 0 {
            return Judged::Pending(pending);
        }
        if admissible.len() == 0 {
            let mut out = "the fault-free run left ".to_owned();
            out.append(spell(self.fault_free.trail.len() as u128).as_str());
            out.append(" checkpoint(s), so it cannot say where the fleet's steps leave it");
            return unjudgeable(out);
        }
        // Judged against the most it can have accepted, which is the most it can
        // owe.
        let most = &admissible[admissible.len() - 1];
        assert(states.last() == most.deep_view());
        match differing(&settled, most.settled) {
            Ok(None) => Judged::Now(Verdict::Pass),
            Ok(Some(first)) => {
                let went = Went::of(&settled, admissible.as_slice());
                let mut at: usize = first;
                if went == Went::Lost {
                    match short_count(&settled, admissible.as_slice()) {
                        Some(short) => {
                            at = short;
                            assert(short_at(model.settled(), states, short as int));
                            assert(reading_at(states[states.len() - 1].settled, short as int) is Some);
                        },
                        None => {},
                    }
                }
                Judged::Now(
                    Verdict::Fail {
                        broke: fault.broke(went, admissible.as_slice()),
                        reason: self.failure(fault, &settled, admissible.as_slice(), at, went),
                    },
                )
            },
            Err(at) => {
                let mut out = "`".to_owned();
                out.append(self.observable_at(at).as_str());
                out.append("` could not be read in both runs");
                unjudgeable(out)
            },
        }
    }

    /// What this run's readings say the fleet did.
    ///
    /// Only where the fleet settled counts. A run that took on something other
    /// than a prefix of its steps says which reference runs it needs.
    pub fn judge(&self, references: &References) -> (r: Judged)
        ensures
            r.deep_view() == self.deep_view().judged(references.deep_view()),
    {
        // No fault fired => nothing to test.
        let fault = match &self.fault {
            None => {
                return unjudgeable("no fault was scheduled".to_owned());
            },
            Some(report) => match &report.result {
                FaultResult::Missed(miss) => {
                    let mut out = "fault did not fire: ".to_owned();
                    out.append(miss.spell().as_str());
                    return unjudgeable(out);
                },
                FaultResult::Fired { by, at, .. } => Placed::new(&report.service, *by, at),
            },
        };
        if self.outcomes.len() == 0 {
            return unjudgeable(
                "the scenario drove nothing, so nothing was put at risk".to_owned(),
            );
        }
        if self.checks.len() == 0 {
            return unjudgeable("the scenario states nothing to check after heal".to_owned());
        }
        // A step whose ack was lost leaves more than one set admissible, and the
        // fleet answers to any of them.
        match enumerate_landed(self.outcomes.as_slice()) {
            None => {
                let mut out = "more than ".to_owned();
                out.append(spell(IN_DOUBT_LIMIT as u128).as_str());
                out.append(" steps were left in doubt, so what the fleet accepted cannot be enumerated");
                unjudgeable(out)
            },
            Some(sets) => self.judge_on(fault, references, sets),
        }
    }

    /// What the run says, held to the reference runs there are rather than the
    /// ones it asked for.
    pub fn settle(&self, references: &References) -> (r: Verdict)
        ensures
            r.deep_view() == VerdictModel::settled_on(
                self.deep_view().judged(references.deep_view()),
            ),
    {
        match self.judge(references) {
            Judged::Now(verdict) => verdict,
            Judged::Pending(sets) => Verdict::Inconclusive { reason: unreferenced(sets.as_slice()) },
        }
    }

    /// What the run says with no reference runs at all.
    pub fn verdict(&self) -> (r: Verdict)
        ensures
            r.deep_view() == VerdictModel::settled_on(self.deep_view().judged(Seq::empty())),
    {
        self.settle(&References::new())
    }
}

} // verus!
