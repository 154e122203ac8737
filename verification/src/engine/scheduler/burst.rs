//! Faults placed at the points the fault-free run turned up.
//!
//! Where a plugin read an edge, it said what its moments are and what breaking
//! the fleet at each of them is. Where nothing could, all that is known is the
//! traffic that crossed it, clustered into bursts (see
//! [`crate::proxy_log::edge_profiles_from_sessions`]).
//!
//! A schedule is a way of breaking the fleet at a moment. Which invariant that
//! broke is read off the run afterwards.
//!
//! Every edge is faulted at one point before any edge is faulted at two, so a
//! short budget costs depth rather than whole edges.

use vstd::prelude::*;
use vstd::string::*;

use std::collections::VecDeque;

use super::{Budget, Scheduler};
use crate::fault::{Anchor, AnchorModel, By, ByModel, Drive, Fault, FaultModel, Reaches, ReachesModel};
use crate::learned::{Learned, LearnedModel};
use crate::plan::{clone_checks, clone_steps, Fleet, FleetModel, Scenario, ScenarioModel};
use crate::protocol::{
    declared, Burst, Direction, Doing, Edge, EdgeModel, EdgeProfile, EdgeProfileModel,
    PlacementModel, Primitive, Primitives, Reached, ReachedModel, Side,
};
use crate::schedule::{PurposeModel, Schedule, ScheduleModel};
use crate::sorting::{lemma_sorted_map, sort_stable, stable_sorted};
use crate::text::{decimal, spell};
use crate::turns::{in_turn, in_turns, interleaved, lemma_in_turns_map, longest, round_of};

verus! {

/// Somewhere a fault can go.
///
/// An edge a plugin can read says where its own moments are and what they
/// catch. One nothing can read offers only counts of what crossed it, which is
/// what the bursts are for. A service that reports its own moments offers those
/// too, and they are not on an edge.
#[derive(Debug)]
pub struct Point {
    /// What reaches this moment, which is what can be broken.
    pub at: Reaches,
    pub mark: String,
    pub why: String,
    /// What breaking the fleet here is. This is also what decides which
    /// invariants a fault here could show, so it is the whole of what a moment
    /// says about its own worth.
    pub doing: Doing,
    /// How many packets were in the burst this came from, so a short budget
    /// keeps the busiest. A moment a plugin named came from no burst.
    pub packets: Option<u32>,
}

/// What a point says.
#[verifier::ext_equal]
pub struct PointModel {
    pub at: ReachesModel,
    pub mark: Seq<char>,
    pub why: Seq<char>,
    pub doing: Doing,
    pub packets: Option<u32>,
}

impl DeepView for Point {
    type V = PointModel;

    open spec fn deep_view(&self) -> PointModel {
        PointModel {
            at: self.at.deep_view(),
            mark: self.mark@,
            why: self.why@,
            doing: self.doing,
            packets: self.packets,
        }
    }
}

impl Clone for Point {
    fn clone(&self) -> (r: Point)
        ensures
            r.deep_view() == self.deep_view(),
    {
        Point {
            at: self.at.clone(),
            mark: self.mark.clone(),
            why: self.why.clone(),
            doing: self.doing,
            packets: self.packets,
        }
    }
}

impl PointModel {
    /// The anchor a schedule carries for a fault placed here.
    pub open spec fn anchor(self) -> AnchorModel {
        AnchorModel { reaches: self.at, mark: self.mark, why: self.why }
    }

    /// The group this point takes its turn in, so the budget is spread across
    /// the ways of breaking the fleet and neither the bursts nor the edges
    /// crowd out the moments inside services.
    ///
    /// Where a moment is counts as much as how it breaks the fleet: one inside
    /// a service reaches a gap nothing on the wire marks, so it is not
    /// interchangeable with an edge moment that breaks the fleet the same way.
    pub open spec fn bucket(self) -> (bool, bool, Doing) {
        (self.packets is None, self.at is Inside, self.doing)
    }
}

/// Whether two points take their turns in one group.
pub open spec fn one_bucket() -> spec_fn(PointModel, PointModel) -> bool {
    |a: PointModel, b: PointModel| a.bucket() == b.bucket()
}

fn shares_bucket(a: &Point, b: &Point) -> (r: bool)
    ensures
        r == one_bucket()(a.deep_view(), b.deep_view()),
{
    let inside_a = match &a.at {
        Reaches::Inside { .. } => true,
        _ => false,
    };
    let inside_b = match &b.at {
        Reaches::Inside { .. } => true,
        _ => false,
    };
    a.packets.is_none() == b.packets.is_none() && inside_a == inside_b && a.doing == b.doing
}

/// The counts in order, without any that is zero or follows its like.
pub open spec fn spaced(counts: Seq<u32>) -> Seq<u32>
    decreases counts.len(),
{
    if counts.len() == 0 {
        counts
    } else {
        let rest = spaced(counts.drop_last());
        let k = counts.last();
        if k == 0 || (rest.len() > 0 && rest.last() == k) {
            rest
        } else {
            rest.push(k)
        }
    }
}

/// Where in `burst` a fault can go, from the middle outwards.
///
/// The outer point is the boundary the service is on: it is the source of an
/// outbound burst, so the end is where it has emitted everything and is about
/// to write it down; it is the target of an inbound one, so the start is where
/// it has taken delivery and not yet acted. A `start` of zero is not placeable,
/// since freezing there kills the service before the scenario has driven
/// anything across the edge.
pub open spec fn counts_in(burst: Burst, direction: Direction) -> Seq<u32> {
    spaced(
        match direction {
            Direction::UpstreamToClient => seq![burst.mid, burst.end, burst.start],
            Direction::ClientToUpstream => seq![burst.mid, burst.start, burst.end],
        },
    )
}

/// Where in `burst` a fault can go, from the middle outwards.
pub fn points_in(burst: Burst, direction: Direction) -> (r: Vec<u32>)
    ensures
        r@ == counts_in(burst, direction),
{
    let counts: [u32; 3] = match direction {
        Direction::UpstreamToClient => [burst.mid, burst.end, burst.start],
        Direction::ClientToUpstream => [burst.mid, burst.start, burst.end],
    };
    let ghost all = counts@;
    let mut points: Vec<u32> = Vec::new();
    for i in 0..3
        invariant
            all == counts@,
            all.len() == 3,
            points@ == spaced(all.take(i as int)),
    {
        assert(all.take(i + 1).drop_last() =~= all.take(i as int));
        let k: u32 = counts[i];
        let follows = points.len() > 0 && points[points.len() - 1] == k;
        if k > 0 && !follows {
            points.push(k);
        }
    }
    proof {
        assert(all.take(3) =~= all);
        assert(all =~= match direction {
            Direction::UpstreamToClient => seq![burst.mid, burst.end, burst.start],
            Direction::ClientToUpstream => seq![burst.mid, burst.start, burst.end],
        });
    }
    points
}

/// The point `k` reads into what crossed the edge.
pub open spec fn burst_point(edge: EdgeModel, direction: Direction, burst: Burst, k: u32) -> PointModel {
    PointModel {
        at: ReachesModel::Crossing { edge, direction },
        mark: decimal(k as nat),
        why: decimal(k as nat) + " reads into what this edge carried"@,
        // Nothing read this edge, so all a moment on it can offer is a place to
        // hold the fleet part way through something.
        doing: Doing::Holding,
        packets: Some(burst.packets),
    }
}

/// The points of one burst, in preference order.
pub open spec fn burst_points(edge: EdgeModel, crossing: (Direction, Burst)) -> Seq<PointModel> {
    counts_in(crossing.1, crossing.0).map_values(
        |k: u32| burst_point(edge, crossing.0, crossing.1, k),
    )
}

/// The bursts that crossed the edge and the way each did.
pub open spec fn crossings(profile: EdgeProfileModel) -> Seq<(Direction, Burst)> {
    profile.client_to_upstream.map_values(|burst: Burst| (Direction::ClientToUpstream, burst))
        + profile.upstream_to_client.map_values(
        |burst: Burst| (Direction::UpstreamToClient, burst),
    )
}

/// The points of each burst that crossed the edge.
pub open spec fn all_burst_points(profile: EdgeProfileModel) -> Seq<Seq<PointModel>> {
    crossings(profile).map_values(
        |crossing: (Direction, Burst)| burst_points(profile.edge, crossing),
    )
}

/// Whether `a` came from the busier burst.
pub open spec fn busier() -> spec_fn(PointModel, PointModel) -> bool {
    |a: PointModel, b: PointModel|
        match (a.packets, b.packets) {
            (Some(x), Some(y)) => x > y,
            (Some(_), None) => true,
            _ => false,
        }
}

fn is_busier(a: &Point, b: &Point) -> (r: bool)
    ensures
        r == busier()(a.deep_view(), b.deep_view()),
{
    match (a.packets, b.packets) {
        (Some(x), Some(y)) => x > y,
        (Some(_), None) => true,
        _ => false,
    }
}

/// The point a moment a plugin named is.
pub open spec fn named_point(edge: EdgeModel, placement: PlacementModel) -> PointModel {
    PointModel {
        at: ReachesModel::Crossing { edge, direction: placement.direction },
        mark: placement.mark,
        why: placement.why,
        doing: placement.doing,
        packets: None,
    }
}

/// Where a fault can go on an edge, in the order the points should be spent.
///
/// A plugin that read the edge has already said what its moments are and how
/// each breaks the fleet. Otherwise all that is known is what crossed it, so a
/// fault goes by the middle of a burst first and its edges after, the busiest
/// burst first in each round.
pub open spec fn edge_points(profile: EdgeProfileModel) -> Seq<PointModel> {
    if profile.placements.len() > 0 {
        profile.placements.map_values(
            |placement: PlacementModel| named_point(profile.edge, placement),
        )
    } else {
        let lists = all_burst_points(profile);
        stable_sorted(round_of(lists, 0), busier()) + stable_sorted(round_of(lists, 1), busier())
            + stable_sorted(round_of(lists, 2), busier())
    }
}

/// The `round`th point of each list that has one.
fn take_round(lists: &Vec<Vec<Point>>, round: usize) -> (r: Vec<Point>)
    ensures
        r.deep_view() == round_of(lists.deep_view(), round as int),
{
    let ghost model = lists.deep_view();
    let mut out: Vec<Point> = Vec::new();
    assert(out.deep_view() =~= Seq::empty());
    assert(model.take(0) =~= Seq::empty());
    for i in 0..lists.len()
        invariant
            model == lists.deep_view(),
            out.deep_view() == round_of(model.take(i as int), round as int),
    {
        let ghost before = out.deep_view();
        proof {
            assert(model.take(i + 1).drop_last() =~= model.take(i as int));
            assert(model.take(i + 1).last() == lists@[i as int].deep_view());
        }
        if round < lists[i].len() {
            out.push(lists[i][round].clone());
            assert(out.deep_view() =~= before.push(lists@[i as int]@[round as int].deep_view()));
        }
    }
    assert(model.take(model.len() as int) =~= model);
    out
}

/// The points in order of how busy the bursts they came from were.
fn busiest_first(points: Vec<Point>) -> (r: Vec<Point>)
    ensures
        r.deep_view() == stable_sorted(points.deep_view(), busier()),
{
    let ghost before = |a: Point, b: Point| busier()(a.deep_view(), b.deep_view());
    let ghost read = |p: Point| p.deep_view();
    let ghost all = points@;
    proof {
        assert(all.map_values(read) =~= points.deep_view());
    }
    let sorted = sort_stable(points, is_busier, Ghost(before));
    proof {
        lemma_sorted_map(all, before, read, busier());
        assert(sorted@.map_values(read) =~= sorted.deep_view());
    }
    sorted
}

/// The points of each of `bursts`, added to `lists`.
fn add_burst_points(
    lists: &mut Vec<Vec<Point>>,
    edge: &Edge,
    direction: Direction,
    bursts: &[Burst],
)
    ensures
        final(lists).deep_view() == old(lists).deep_view() + bursts@.map_values(
            |burst: Burst| burst_points(edge.deep_view(), (direction, burst)),
        ),
{
    let ghost start = lists.deep_view();
    let ghost added = bursts@.map_values(
        |burst: Burst| burst_points(edge.deep_view(), (direction, burst)),
    );
    assert(lists.deep_view() =~= start + added.take(0));
    for i in 0..bursts.len()
        invariant
            added == bursts@.map_values(
                |burst: Burst| burst_points(edge.deep_view(), (direction, burst)),
            ),
            lists.deep_view() == start + added.take(i as int),
    {
        let burst = bursts[i];
        let counts = points_in(burst, direction);
        let mut points: Vec<Point> = Vec::new();
        for j in 0..counts.len()
            invariant
                points.len() == j,
                forall|k: int|
                    0 <= k < j ==> (#[trigger] points@[k]).deep_view() == burst_point(
                        edge.deep_view(),
                        direction,
                        burst,
                        counts@[k],
                    ),
        {
            let mark = spell(counts[j] as u128);
            let mut why = mark.clone();
            why.append(" reads into what this edge carried");
            points.push(
                Point {
                    at: Reaches::Crossing { edge: edge.clone(), direction },
                    mark,
                    why,
                    doing: Doing::Holding,
                    packets: Some(burst.packets),
                },
            );
        }
        assert(points.deep_view() =~= burst_points(edge.deep_view(), (direction, burst)));
        let ghost before = lists.deep_view();
        lists.push(points);
        assert(lists.deep_view() =~= before.push(points.deep_view()));
        assert(start + added.take(i + 1) =~= (start + added.take(i as int)).push(added[i as int]));
    }
    assert(added.take(added.len() as int) =~= added);
}

/// Where a fault can go on `profile`, in the order the points should be spent.
pub fn points_on(profile: &EdgeProfile) -> (r: Vec<Point>)
    ensures
        r.deep_view() == edge_points(profile.deep_view()),
{
    if profile.placements.len() > 0 {
        let mut points: Vec<Point> = Vec::new();
        for i in 0..profile.placements.len()
            invariant
                points.len() == i,
                forall|k: int|
                    0 <= k < i ==> (#[trigger] points@[k]).deep_view() == named_point(
                        profile.edge.deep_view(),
                        profile.placements@[k].deep_view(),
                    ),
        {
            let placement = &profile.placements[i];
            points.push(
                Point {
                    at: Reaches::Crossing {
                        edge: profile.edge.clone(),
                        direction: placement.direction,
                    },
                    mark: placement.mark.clone(),
                    why: placement.why.clone(),
                    doing: placement.doing,
                    packets: None,
                },
            );
        }
        assert(points.deep_view() =~= edge_points(profile.deep_view()));
        return points;
    }
    // Per burst, in preference order, then transposed so every burst gets its
    // middle before any gets an edge.
    let mut lists: Vec<Vec<Point>> = Vec::new();
    assert(lists.deep_view() =~= Seq::empty());
    add_burst_points(
        &mut lists,
        &profile.edge,
        Direction::ClientToUpstream,
        profile.client_to_upstream.as_slice(),
    );
    add_burst_points(
        &mut lists,
        &profile.edge,
        Direction::UpstreamToClient,
        profile.upstream_to_client.as_slice(),
    );
    assert(lists.deep_view() =~= all_burst_points(profile.deep_view()));
    // Where a budget runs out part way through, the busiest bursts are the ones
    // worth keeping.
    let mut points = busiest_first(take_round(&lists, 0));
    let mut second = busiest_first(take_round(&lists, 1));
    let mut third = busiest_first(take_round(&lists, 2));
    let ghost a = points.deep_view();
    let ghost b = second.deep_view();
    let ghost c = third.deep_view();
    points.append(&mut second);
    assert(points.deep_view() =~= a + b);
    points.append(&mut third);
    assert(points.deep_view() =~= a + b + c);
    points
}

/// The moments reported, each service's own mark only the first time it is.
pub open spec fn distinct(reached: Seq<ReachedModel>) -> Seq<ReachedModel>
    decreases reached.len(),
{
    if reached.len() == 0 {
        reached
    } else {
        let rest = distinct(reached.drop_last());
        let last = reached.last();
        if exists|i: int|
            0 <= i < rest.len() && (#[trigger] rest[i]).service == last.service && rest[i].mark()
                == last.mark() {
            rest
        } else {
            rest.push(last)
        }
    }
}

/// Endings come before starts, because an ending is work finished with the next
/// not begun, which is the gap a fault wants. The first start is only the
/// request arriving, which the edges already offer.
pub open spec fn ending_first() -> spec_fn(ReachedModel, ReachedModel) -> bool {
    |a: ReachedModel, b: ReachedModel| a.side == Side::Ended && b.side == Side::Started
}

/// Whether two moments are of one kind: the same side of the same span of the
/// same service.
pub open spec fn one_kind() -> spec_fn(ReachedModel, ReachedModel) -> bool {
    |a: ReachedModel, b: ReachedModel|
        a.service == b.service && a.span == b.span && a.side == b.side
}

/// The point a moment inside a service is.
pub open spec fn inside_point(reached: ReachedModel) -> PointModel {
    PointModel {
        at: ReachesModel::Inside { service: reached.service },
        mark: reached.mark(),
        why: reached.mark() + " holds "@ + reached.service + " part way through its own work"@,
        doing: Doing::Holding,
        packets: None,
    }
}

/// Where inside its services a fault can go, one point per moment reported,
/// with one of every kind before any second of one.
pub open spec fn inner_points(reached: Seq<ReachedModel>) -> Seq<PointModel> {
    in_turns(stable_sorted(distinct(reached), ending_first()), one_kind()).map_values(
        |reached: ReachedModel| inside_point(reached),
    )
}

fn ends_first(a: &&Reached, b: &&Reached) -> (r: bool)
    ensures
        r == ending_first()((*a).deep_view(), (*b).deep_view()),
{
    a.boundary.side == Side::Ended && b.boundary.side == Side::Started
}

fn is_one_kind(a: &&Reached, b: &&Reached) -> (r: bool)
    ensures
        r == one_kind()((*a).deep_view(), (*b).deep_view()),
{
    a.service == b.service && a.boundary.span == b.boundary.span && a.boundary.side
        == b.boundary.side
}

/// The moments reported, each service's own mark only the first time it is.
fn first_reports(reached: &[Reached]) -> (r: Vec<&Reached>)
    ensures
        r.deep_view() == distinct(reached.deep_view()),
{
    let ghost model = reached.deep_view();
    let mut offered: Vec<&Reached> = Vec::new();
    assert(offered.deep_view() =~= Seq::empty());
    assert(model.take(0) =~= Seq::empty());
    for i in 0..reached.len()
        invariant
            model == reached.deep_view(),
            offered.deep_view() == distinct(model.take(i as int)),
    {
        let ghost rest = offered.deep_view();
        let next = &reached[i];
        let mark = next.mark();
        proof {
            assert(model.take(i + 1).drop_last() =~= model.take(i as int));
            assert(model.take(i + 1).last() == next.deep_view());
        }
        let mut seen: bool = false;
        for j in 0..offered.len()
            invariant
                rest == offered.deep_view(),
                mark@ == next.deep_view().mark(),
                seen == exists|k: int|
                    0 <= k < j && (#[trigger] rest[k]).service == next.deep_view().service
                        && rest[k].mark() == next.deep_view().mark(),
        {
            assert(rest[j as int] == offered@[j as int].deep_view());
            if offered[j].service == next.service && offered[j].mark() == mark {
                seen = true;
            }
        }
        if !seen {
            offered.push(next);
            assert(offered.deep_view() =~= rest.push(next.deep_view()));
        }
    }
    assert(model.take(model.len() as int) =~= model);
    offered
}

/// Where inside its services a fault can go, one point per moment reported.
///
/// Empty unless a service is instrumented, a fleet that reports nothing is
/// still scheduled from its edges.
pub fn points_inside(reached: &[Reached]) -> (r: Vec<Point>)
    ensures
        r.deep_view() == inner_points(reached.deep_view()),
{
    let offered = first_reports(reached);
    let ghost read = |r: &Reached| r.deep_view();
    let ghost all = offered@;
    let ghost ending = |a: &Reached, b: &Reached| ending_first()(a.deep_view(), b.deep_view());
    let ghost kind = |a: &Reached, b: &Reached| one_kind()(a.deep_view(), b.deep_view());
    proof {
        assert(all.map_values(read) =~= offered.deep_view());
    }
    let sorted = sort_stable(offered, ends_first, Ghost(ending));
    let ghost in_order = sorted@;
    proof {
        lemma_sorted_map(all, ending, read, ending_first());
    }
    // One of every kind of moment the fleet offers before any second of one.
    let taken = in_turn(sorted, is_one_kind, Ghost(kind));
    proof {
        lemma_in_turns_map(in_order, kind, read, one_kind());
        assert(taken@.map_values(read) =~= taken.deep_view());
    }
    let mut points: Vec<Point> = Vec::new();
    for i in 0..taken.len()
        invariant
            points.len() == i,
            forall|k: int|
                0 <= k < i ==> (#[trigger] points@[k]).deep_view() == inside_point(taken@[k].deep_view()),
    {
        let reached = taken[i];
        let mark = reached.mark();
        let mut why = mark.clone();
        why.append(" holds ");
        why.append(reached.service.as_str());
        why.append(" part way through its own work");
        points.push(
            Point {
                at: Reaches::Inside { service: reached.service.clone() },
                mark,
                why,
                doing: Doing::Holding,
                packets: None,
            },
        );
    }
    assert(points.deep_view() =~= inner_points(reached.deep_view()));
    points
}

/// Whether `by` breaks the fleet the way a point says it is broken.
///
/// A moment a plugin named says what breaking the fleet there is, and there is
/// one way to do that. A burst is a count of packets, so all it can offer is a
/// place to hold the fleet while something is taken away from outside it:
/// changing what crosses needs something that can read what crossed.
pub open spec fn suits(by: Drive, doing: Doing) -> bool {
    match doing {
        Doing::Holding => by == Drive::Kill || by == Drive::Cut,
        Doing::Rewriting(primitive) => by == Drive::breaking(primitive),
    }
}

/// What breaking the fleet at `at` by `losing` takes from the fleet.
/// For an edge, the services at its ends or the link between them.
/// For a moment inside a service, that service, held where it reported reaching.
pub open spec fn takes(losing: Drive, at: ReachesModel) -> Seq<ByModel> {
    match at {
        ReachesModel::Inside { service } => match losing {
            Drive::Kill => seq![ByModel::Kill(service)],
            // Everything else names an edge, and this moment is not on one.
            _ => Seq::empty(),
        },
        ReachesModel::Crossing { edge, .. } => match losing {
            Drive::Kill => match edge.client {
                Some(client) => seq![ByModel::Kill(client), ByModel::Kill(edge.upstream)],
                None => seq![ByModel::Kill(edge.upstream)],
            },
            Drive::Cut => if edge.client is Some {
                seq![ByModel::Cut(edge)]
            } else {
                Seq::empty()
            },
            Drive::Repeat => seq![ByModel::Repeat(edge)],
            Drive::Reorder => seq![ByModel::Reorder(edge)],
            Drive::Drop => seq![ByModel::Drop(edge)],
        },
    }
}

/// What breaking the fleet at `at` by `losing` takes from the fleet.
fn targets(losing: Drive, at: &Reaches) -> (r: Vec<By>)
    ensures
        r.deep_view() == takes(losing, at.deep_view()),
{
    let mut out: Vec<By> = Vec::new();
    match at {
        Reaches::Inside { service } => {
            if losing == Drive::Kill {
                out.push(By::Kill(service.clone()));
            }
        },
        Reaches::Crossing { edge, .. } => match losing {
            Drive::Kill => {
                match &edge.client {
                    Some(client) => {
                        out.push(By::Kill(client.clone()));
                    },
                    None => {},
                }
                out.push(By::Kill(edge.upstream.clone()));
            },
            Drive::Cut => {
                if edge.within_fleet() {
                    out.push(By::Cut(edge.clone()));
                }
            },
            Drive::Repeat => {
                out.push(By::Repeat(edge.clone()));
            },
            Drive::Reorder => {
                out.push(By::Reorder(edge.clone()));
            },
            Drive::Drop => {
                out.push(By::Drop(edge.clone()));
            },
        },
    }
    assert(out.deep_view() =~= takes(losing, at.deep_view()));
    out
}

/// The ways of breaking a fleet that `primitives` offers, in the order they are
/// declared.
pub open spec fn drives(primitives: Seq<Primitive>) -> Seq<Drive> {
    declared(primitives).map_values(|by: Primitive| Drive::breaking(by))
}

/// The ways of breaking a fleet that `primitives` offers, in the order they are
/// declared.
fn drives_of(primitives: &Primitives) -> (r: Vec<Drive>)
    ensures
        r@ == drives(primitives.deep_view()),
{
    proof {
        use_type_invariant(primitives);
    }
    let every = primitives.as_slice();
    let ghost aim = |by: Primitive| Drive::breaking(by);
    let mut out: Vec<Drive> = Vec::new();
    for i in 0..every.len()
        invariant
            aim == (|by: Primitive| Drive::breaking(by)),
            out@ == every@.take(i as int).map_values(aim),
    {
        match Drive::try_from(every[i]) {
            Ok(drive) => out.push(drive),
            Err(_) => {},
        }
        assert(out@ =~= every@.take(i + 1).map_values(aim));
    }
    assert(every@.take(every@.len() as int) =~= every@);
    out
}

/// Every fault placed at a point: each way the campaign can break the fleet
/// there, at everything breaking it that way can take.
pub open spec fn faults_at(ways: Seq<Drive>, point: PointModel) -> Seq<FaultModel>
    decreases ways.len(),
{
    if ways.len() == 0 {
        Seq::empty()
    } else {
        let rest = faults_at(ways.drop_last(), point);
        if suits(ways.last(), point.doing) {
            rest + takes(ways.last(), point.at).map_values(
                |by: ByModel| FaultModel::placed(point.anchor(), by),
            )
        } else {
            rest
        }
    }
}

/// Every fault placed at each of the points, in order.
pub open spec fn faults_on(ways: Seq<Drive>, points: Seq<PointModel>) -> Seq<FaultModel>
    decreases points.len(),
{
    if points.len() == 0 {
        Seq::empty()
    } else {
        faults_on(ways, points.drop_last()) + faults_at(ways, points.last())
    }
}

/// The points a fault can be placed at. A moment nothing can be placed on is
/// not a moment this campaign has.
pub open spec fn placeable(ways: Seq<Drive>, points: Seq<PointModel>) -> Seq<PointModel> {
    points.filter(|point: PointModel| faults_at(ways, point).len() > 0)
}

/// How many schedules the points cost.
pub open spec fn cost_of(ways: Seq<Drive>, points: Seq<PointModel>) -> int
    decreases points.len(),
{
    if points.len() == 0 {
        0
    } else {
        cost_of(ways, points.drop_last()) + faults_at(ways, points.last()).len()
    }
}

/// The points the budget affords, each taken if what is already taken leaves
/// room for it.
pub open spec fn affordable(
    ways: Seq<Drive>,
    points: Seq<PointModel>,
    budget: Budget,
) -> Seq<PointModel>
    decreases points.len(),
{
    if points.len() == 0 {
        points
    } else {
        let rest = affordable(ways, points.drop_last(), budget);
        if budget.affords(cost_of(ways, rest) + faults_at(ways, points.last()).len()) {
            rest.push(points.last())
        } else {
            rest
        }
    }
}

/// Every point the fault-free run turned up: an edge's second after every
/// edge's first, and then by turn, so a way of breaking the fleet with few
/// moments is covered before one with many, and the bursts take their share
/// rather than all of it.
pub open spec fn points_of(learned: LearnedModel) -> Seq<PointModel> {
    let on_edge = learned.profiles.map_values(|profile: EdgeProfileModel| edge_points(profile));
    in_turns(
        interleaved(on_edge, longest(on_edge)) + inner_points(learned.inside),
        one_bucket(),
    )
}

/// The points a campaign places a fault at.
pub open spec fn taken_points(learned: LearnedModel, budget: Option<Budget>) -> Seq<PointModel> {
    let ways = drives(learned.primitives);
    let points = placeable(ways, points_of(learned));
    match budget {
        Some(budget) => affordable(ways, points, budget),
        None => points,
    }
}

/// The faults a campaign places.
pub open spec fn campaign(learned: LearnedModel, budget: Option<Budget>) -> Seq<FaultModel> {
    faults_on(drives(learned.primitives), taken_points(learned, budget))
}

/// The schedule that places `fault`, with everything a worker needs to run it.
pub open spec fn schedule_for(
    id: u32,
    fleet: FleetModel,
    scenario: ScenarioModel,
    learned: LearnedModel,
    fault: FaultModel,
) -> ScheduleModel {
    ScheduleModel {
        id,
        fleet,
        steps: scenario.steps,
        checks: scenario.checks,
        purpose: PurposeModel::Break(fault),
        fault_free: learned.fault_free,
        consistent_within: scenario.consistent_within,
    }
}

/// The schedules that place `faults`, numbered from `first` on.
pub open spec fn schedules_for(
    first: int,
    fleet: FleetModel,
    scenario: ScenarioModel,
    learned: LearnedModel,
    faults: Seq<FaultModel>,
) -> Seq<ScheduleModel> {
    Seq::new(
        faults.len(),
        |i: int| schedule_for((first + i) as u32, fleet, scenario, learned, faults[i]),
    )
}

/// Every fault placed at a point.
fn place_at(ways: &[Drive], point: &Point) -> (r: Vec<Fault>)
    ensures
        r.deep_view() == faults_at(ways@, point.deep_view()),
{
    let ghost model = point.deep_view();
    let ghost placing = |by: ByModel| FaultModel::placed(model.anchor(), by);
    let mut out: Vec<Fault> = Vec::new();
    assert(out.deep_view() =~= Seq::empty());
    for i in 0..ways.len()
        invariant
            model == point.deep_view(),
            placing == (|by: ByModel| FaultModel::placed(model.anchor(), by)),
            out.deep_view() == faults_at(ways@.take(i as int), model),
    {
        assert(ways@.take(i + 1).drop_last() =~= ways@.take(i as int));
        let by = ways[i];
        let suited = match point.doing {
            Doing::Holding => by == Drive::Kill || by == Drive::Cut,
            Doing::Rewriting(primitive) => match Drive::try_from(primitive) {
                Ok(own) => own == by,
                Err(_) => false,
            },
        };
        if suited {
            let taking = targets(by, &point.at);
            let ghost before = out.deep_view();
            let ghost aims = taking.deep_view();
            assert(out.deep_view() =~= before + aims.map_values(placing).take(0));
            for j in 0..taking.len()
                invariant
                    model == point.deep_view(),
                    aims == taking.deep_view(),
                    placing == (|by: ByModel| FaultModel::placed(model.anchor(), by)),
                    out.deep_view() == before + aims.map_values(placing).take(j as int),
            {
                let anchor = Anchor {
                    reaches: point.at.clone(),
                    mark: point.mark.clone(),
                    why: point.why.clone(),
                };
                let fault = Fault::at(anchor, taking[j].clone());
                let ghost so_far = out.deep_view();
                proof {
                    assert(aims[j as int] == taking@[j as int].deep_view());
                    assert(fault.deep_view() == aims.map_values(placing)[j as int]);
                    assert(before + aims.map_values(placing).take(j + 1) =~= (before
                        + aims.map_values(placing).take(j as int)).push(fault.deep_view()));
                }
                out.push(fault);
                assert(out.deep_view() =~= so_far.push(fault.deep_view()));
            }
            assert(aims.map_values(placing).take(aims.len() as int) =~= aims.map_values(placing));
        }
    }
    assert(ways@.take(ways@.len() as int) =~= ways@);
    out
}

/// The points of every edge, an edge's second after every edge's first.
fn across_edges(profiles: &[EdgeProfile]) -> (r: Vec<Point>)
    ensures
        ({
            let on_edge = profiles.deep_view().map_values(
                |profile: EdgeProfileModel| edge_points(profile),
            );
            r.deep_view() == interleaved(on_edge, longest(on_edge))
        }),
{
    let ghost model = profiles.deep_view().map_values(
        |profile: EdgeProfileModel| edge_points(profile),
    );
    let mut on_edge: Vec<Vec<Point>> = Vec::new();
    let mut rounds: usize = 0;
    assert(model.take(0) =~= Seq::empty());
    for i in 0..profiles.len()
        invariant
            model == profiles.deep_view().map_values(
                |profile: EdgeProfileModel| edge_points(profile),
            ),
            on_edge.len() == i,
            forall|k: int| 0 <= k < i ==> (#[trigger] on_edge@[k]).deep_view() == model[k],
            rounds == longest(model.take(i as int)),
    {
        let points = points_on(&profiles[i]);
        proof {
            assert(model[i as int] == points.deep_view());
            assert(model.take(i + 1).drop_last() =~= model.take(i as int));
            assert(points.deep_view().len() == points@.len());
        }
        if points.len() > rounds {
            rounds = points.len();
        }
        on_edge.push(points);
    }
    proof {
        assert(on_edge.deep_view() =~= model);
        assert(model.take(model.len() as int) =~= model);
    }
    let mut out: Vec<Point> = Vec::new();
    assert(out.deep_view() =~= Seq::empty());
    for round in 0..rounds
        invariant
            on_edge.deep_view() == model,
            out.deep_view() == interleaved(model, round as nat),
    {
        let mut next = take_round(&on_edge, round);
        let ghost before = out.deep_view();
        let ghost added = next.deep_view();
        out.append(&mut next);
        assert(out.deep_view() =~= before + added);
    }
    out
}

/// What the campaign reaches, and what the budget cost it.
#[derive(Clone, Copy, Debug, PartialEq, Eq, Structural)]
pub struct Coverage {
    /// Points the fault-free run turned up, across every edge.
    pub found: usize,
    /// Points a fault is placed at.
    pub taken: usize,
    pub schedules: usize,
}

impl Coverage {
    /// The coverage as a runner reports it.
    pub fn spell(&self) -> (r: String)
        ensures
            r@ == decimal(self.schedules as nat) + " schedules, faulting "@ + decimal(
                self.taken as nat,
            ) + " of "@ + decimal(self.found as nat) + " points"@,
    {
        let mut out = spell(self.schedules as u128);
        out.append(" schedules, faulting ");
        out.append(spell(self.taken as u128).as_str());
        out.append(" of ");
        out.append(spell(self.found as u128).as_str());
        out.append(" points");
        out
    }
}

/// Faults placed at the points the fault-free run turned up.
pub struct BurstScheduler {
    coverage: Coverage,
    schedules: VecDeque<Schedule>,
}

impl Scheduler for BurstScheduler {
    closed spec fn upcoming(&self) -> Seq<ScheduleModel> {
        self.schedules.deep_view()
    }

    fn next(&mut self) -> (r: Option<Schedule>)
        ensures
            final(self).counted() == old(self).counted(),
    {
        let ghost before = self.schedules.deep_view();
        let r = self.schedules.pop_front();
        proof {
            if r is Some {
                assert(self.schedules.deep_view() =~= before.skip(1));
            }
        }
        r
    }
}

/// The points the budget affords, each taken if what is already taken leaves
/// room for it.
fn keep_affordable(ways: &[Drive], points: Vec<Point>, budget: Budget) -> (r: Vec<Point>)
    ensures
        r.deep_view() == affordable(ways@, points.deep_view(), budget),
{
    let ghost all = points@;
    let ghost model = points.deep_view();
    let count: usize = points.len();
    let mut kept: Vec<Point> = Vec::new();
    let mut spent: u128 = 0;
    assert(kept.deep_view() =~= Seq::empty());
    assert(model.take(0) =~= Seq::empty());
    for point in it: points
        invariant
            it.seq() == all,
            all.len() == count,
            model.len() == all.len(),
            forall|k: int| 0 <= k < all.len() ==> (#[trigger] all[k]).deep_view() == model[k],
            kept.deep_view() == affordable(ways@, model.take(it.index() as int), budget),
            spent == cost_of(ways@, kept.deep_view()),
            spent <= it.index() * 0xffff_ffff_ffff_ffff,
    {
        let ghost n = it.index() as int;
        let ghost rest = kept.deep_view();
        let cost = place_at(ways, &point).len();
        proof {
            assert(point == all[n]);
            assert(model.take(n + 1).drop_last() =~= model.take(n));
            assert(cost == faults_at(ways@, point.deep_view()).len());
            assert(n + 1 <= 0xffff_ffff_ffff_ffff);
            assert((n + 1) * 0xffff_ffff_ffff_ffff <= 0xffff_ffff_ffff_ffff
                * 0xffff_ffff_ffff_ffff);
        }
        if budget.fits(spent + cost as u128) {
            spent = spent + cost as u128;
            kept.push(point);
            proof {
                assert(kept.deep_view() =~= rest.push(point.deep_view()));
                assert(rest.push(point.deep_view()).drop_last() =~= rest);
            }
        }
    }
    assert(model.take(model.len() as int) =~= model);
    kept
}

/// The points a fault can be placed at.
fn keep_placeable(ways: &[Drive], points: Vec<Point>) -> (r: Vec<Point>)
    ensures
        r.deep_view() == placeable(ways@, points.deep_view()),
{
    let ghost all = points@;
    let ghost model = points.deep_view();
    let ghost can = |point: PointModel| faults_at(ways@, point).len() > 0;
    let mut kept: Vec<Point> = Vec::new();
    proof {
        assert(kept.deep_view() =~= Seq::empty());
        assert(model.take(0) =~= Seq::empty());
        reveal(Seq::filter);
    }
    for point in it: points
        invariant
            it.seq() == all,
            model.len() == all.len(),
            can == (|point: PointModel| faults_at(ways@, point).len() > 0),
            forall|k: int| 0 <= k < all.len() ==> (#[trigger] all[k]).deep_view() == model[k],
            kept.deep_view() == model.take(it.index() as int).filter(can),
    {
        let ghost n = it.index() as int;
        let ghost rest = kept.deep_view();
        let faults = place_at(ways, &point);
        proof {
            assert(point == all[n]);
            assert(model.take(n + 1).drop_last() =~= model.take(n));
            assert(faults.deep_view().len() == faults@.len());
            reveal(Seq::filter);
        }
        if faults.len() > 0 {
            kept.push(point);
            assert(kept.deep_view() =~= rest.push(point.deep_view()));
        }
    }
    assert(model.take(model.len() as int) =~= model);
    kept
}

impl BurstScheduler {
    /// Fit the bursts the learn pass found into `budget`. Every burst on every
    /// edge is faulted before any is faulted harder, so what a short budget
    /// costs is resolution within a burst rather than whole edges.
    ///
    /// No budget places every point in every burst. Each schedule carries the
    /// work to run as well as the fault, so a worker needs nothing else to run
    /// it.
    pub fn new(
        fleet: &Fleet,
        scenario: &Scenario,
        learned: &Learned,
        budget: Option<Budget>,
    ) -> (r: BurstScheduler)
        requires
            campaign(learned.deep_view(), budget).len() < u32::MAX,
        ensures
            r.upcoming() == schedules_for(
                1,
                fleet.deep_view(),
                scenario.deep_view(),
                learned.deep_view(),
                campaign(learned.deep_view(), budget),
            ),
            r.counted() == (Coverage {
                found: points_of(learned.deep_view()).len() as usize,
                taken: taken_points(learned.deep_view(), budget).len() as usize,
                schedules: campaign(learned.deep_view(), budget).len() as usize,
            }),
    {
        let ghost model = learned.deep_view();
        // One point is faulted every way the fleet can be broken there, and
        // covering those comes before covering more points, so they multiply
        // what a point costs.
        let ways = drives_of(&learned.primitives);
        // Interleaved, so an edge's second point comes after every edge's
        // first.
        let mut by_edge = across_edges(learned.profiles.as_slice());
        let mut inside = points_inside(learned.inside.as_slice());
        let ghost on_edges = by_edge.deep_view();
        let ghost within = inside.deep_view();
        by_edge.append(&mut inside);
        let found = by_edge.len();
        // Then by turn, so a way of breaking the fleet with few moments is
        // covered before one with many, and the bursts take their share rather
        // than all of it.
        let ghost all = by_edge@;
        let ghost read = |p: Point| p.deep_view();
        let ghost together = |a: Point, b: Point| one_bucket()(a.deep_view(), b.deep_view());
        proof {
            assert(by_edge.deep_view() =~= on_edges + within);
            assert(all.map_values(read) =~= by_edge.deep_view());
        }
        let points = in_turn(by_edge, shares_bucket, Ghost(together));
        proof {
            lemma_in_turns_map(all, together, read, one_bucket());
            assert(points@.map_values(read) =~= points.deep_view());
            assert(points.deep_view() == points_of(model));
            crate::turns::lemma_in_turns_keeps(on_edges + within, one_bucket());
        }
        // A moment nothing can be placed on is not a moment this campaign has.
        let kept = keep_placeable(ways.as_slice(), points);
        let taken = match budget {
            Some(budget) => keep_affordable(ways.as_slice(), kept, budget),
            None => kept,
        };
        let ghost placing = taken.deep_view();
        let ghost faults = faults_on(ways@, placing);
        let mut schedules: VecDeque<Schedule> = VecDeque::new();
        let mut next_id: u32 = Schedule::LEARN_ID + 1;
        proof {
            assert(placing.take(0) =~= Seq::empty());
            assert(faults == campaign(model, budget));
            assert(schedules.deep_view() =~= schedules_for(
                1,
                fleet.deep_view(),
                scenario.deep_view(),
                model,
                Seq::empty(),
            ));
        }
        for i in 0..taken.len()
            invariant
                model == learned.deep_view(),
                placing == taken.deep_view(),
                faults == faults_on(ways@, placing),
                faults.len() < u32::MAX,
                next_id == 1 + faults_on(ways@, placing.take(i as int)).len(),
                next_id <= u32::MAX,
                schedules.deep_view() == schedules_for(
                    1,
                    fleet.deep_view(),
                    scenario.deep_view(),
                    model,
                    faults_on(ways@, placing.take(i as int)),
                ),
        {
            let placed = place_at(ways.as_slice(), &taken[i]);
            let ghost before = faults_on(ways@, placing.take(i as int));
            let ghost here = placed.deep_view();
            let ghost after = faults_on(ways@, placing.take(i + 1));
            let ghost given = placed@;
            proof {
                assert(placing.take(i + 1).drop_last() =~= placing.take(i as int));
                assert(placing.take(i + 1).last() == taken@[i as int].deep_view());
                assert(after == before + here);
                lemma_faults_grow(ways@, placing, i + 1);
                assert(before + here.take(0) =~= before);
            }
            for fault in it: placed
                invariant
                    it.seq() == given,
                    here.len() == given.len(),
                    forall|k: int| 0 <= k < given.len() ==> (#[trigger] given[k]).deep_view() == here[k],
                    model == learned.deep_view(),
                    before.len() + here.len() < u32::MAX,
                    next_id == 1 + before.len() + it.index(),
                    schedules.deep_view() == schedules_for(
                        1,
                        fleet.deep_view(),
                        scenario.deep_view(),
                        model,
                        before + here.take(it.index() as int),
                    ),
            {
                let ghost j = it.index() as int;
                let ghost so_far = schedules.deep_view();
                proof {
                    assert(fault == given[j]);
                    assert(before + here.take(j + 1) =~= (before + here.take(j)).push(here[j]));
                }
                let schedule = Schedule::faulted(
                    next_id,
                    fleet.clone(),
                    clone_steps(scenario.steps.as_slice()),
                    clone_checks(scenario.checks.as_slice()),
                    fault,
                    learned.fault_free.clone(),
                    scenario.consistent_within,
                );
                let ghost added = schedule.deep_view();
                schedules.push_back(schedule);
                proof {
                    assert(schedules.deep_view() =~= so_far.push(added));
                    assert(so_far.push(added) =~= schedules_for(
                        1,
                        fleet.deep_view(),
                        scenario.deep_view(),
                        model,
                        before + here.take(j + 1),
                    ));
                }
                next_id += 1;
            }
            proof {
                assert(here.take(here.len() as int) =~= here);
            }
        }
        proof {
            assert(placing.take(placing.len() as int) =~= placing);
        }
        let made = schedules.len();
        BurstScheduler {
            coverage: Coverage { found, taken: taken.len(), schedules: made },
            schedules,
        }
    }

    /// What the campaign reaches.
    pub closed spec fn counted(&self) -> Coverage {
        self.coverage
    }

    /// What the campaign reaches, for the runner to report.
    pub fn coverage(&self) -> (r: &Coverage)
        ensures
            *r == self.counted(),
    {
        &self.coverage
    }

    /// How many schedules the campaign has in all.
    pub fn total(&self) -> (r: usize)
        ensures
            r == self.counted().schedules,
    {
        self.coverage.schedules
    }
}

/// The faults at the first `n` points are no more than those at all of them.
proof fn lemma_faults_grow(ways: Seq<Drive>, points: Seq<PointModel>, n: int)
    requires
        0 <= n <= points.len(),
    ensures
        faults_on(ways, points.take(n)).len() <= faults_on(ways, points).len(),
    decreases points.len() - n,
{
    if n == points.len() {
        assert(points.take(n) =~= points);
    } else {
        lemma_faults_grow(ways, points, n + 1);
        assert(points.take(n + 1).drop_last() =~= points.take(n));
    }
}

} // verus!
