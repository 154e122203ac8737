//! What holds of every campaign.

use vstd::prelude::*;

use super::burst::{
    affordable, campaign, cost_of, drives, faults_at, faults_on, placeable, points_of, schedules_for,
    suits, taken_points, takes, PointModel,
};
use super::Budget;
use crate::fault::{Drive, FaultModel, ReachesModel};
use crate::learned::LearnedModel;
use crate::plan::{FleetModel, ScenarioModel};
use crate::protocol::{declared, lemma_declared, Primitive};
use crate::schedule::PurposeModel;
use crate::turns::{interleaved, longest, round_of};

verus! {

pub(crate) proof fn lemma_cost_is_count(ways: Seq<Drive>, points: Seq<PointModel>)
    ensures
        cost_of(ways, points) == faults_on(ways, points).len(),
    decreases points.len(),
{
    if points.len() > 0 {
        lemma_cost_is_count(ways, points.drop_last());
    }
}

proof fn lemma_affordable_fits(ways: Seq<Drive>, points: Seq<PointModel>, budget: Budget)
    ensures
        affordable(ways, points, budget).len() == 0 || budget.affords(
            cost_of(ways, affordable(ways, points, budget)),
        ),
    decreases points.len(),
{
    if points.len() > 0 {
        lemma_affordable_fits(ways, points.drop_last(), budget);
        let rest = affordable(ways, points.drop_last(), budget);
        assert(rest.push(points.last()).drop_last() =~= rest);
    }
}

/// A campaign fitted to a budget never schedules more than the budget affords.
pub proof fn lemma_campaign_fits_budget(learned: LearnedModel, budget: Budget)
    ensures
        campaign(learned, Some(budget)).len() == 0 || budget.affords(
            campaign(learned, Some(budget)).len() as int,
        ),
{
    let ways = drives(learned.primitives);
    let points = placeable(ways, points_of(learned));
    lemma_affordable_fits(ways, points, budget);
    lemma_cost_is_count(ways, affordable(ways, points, budget));
}

/// No budget places every point a fault can be placed at.
pub proof fn lemma_unbounded_takes_every_point(learned: LearnedModel, point: PointModel)
    requires
        points_of(learned).contains(point),
        faults_at(drives(learned.primitives), point).len() > 0,
    ensures
        taken_points(learned, None).contains(point),
{
    let ways = drives(learned.primitives);
    let can = |point: PointModel| faults_at(ways, point).len() > 0;
    let points = points_of(learned);
    let i = choose|i: int| 0 <= i < points.len() && points[i] == point;
    points.lemma_filter_contains(can, i);
}

/// Whether `fault` is one of the ways of breaking the fleet at `point` that
/// `primitives` offers.
pub open spec fn breaks_at(primitives: Seq<Primitive>, point: PointModel, fault: FaultModel) -> bool {
    &&& primitives.contains(fault.taking().primitive())
    &&& fault.anchor() == Some(point.anchor())
    &&& suits(Drive::breaking(fault.taking().primitive()), point.doing)
    &&& takes(Drive::breaking(fault.taking().primitive()), point.at).contains(fault.taking())
}

proof fn lemma_takes_what_it_breaks(by: Drive, at: ReachesModel, i: int)
    requires
        0 <= i < takes(by, at).len(),
    ensures
        takes(by, at)[i].primitive() == by.breaks(),
{
}

proof fn lemma_faults_at(primitives: Seq<Primitive>, ways: Seq<Drive>, point: PointModel, i: int)
    requires
        0 <= i < faults_at(ways, point).len(),
        forall|k: int| 0 <= k < ways.len() ==> primitives.contains((#[trigger] ways[k]).breaks()),
    ensures
        breaks_at(primitives, point, faults_at(ways, point)[i]),
    decreases ways.len(),
{
    let rest = faults_at(ways.drop_last(), point);
    if i < rest.len() {
        assert forall|k: int| 0 <= k < ways.drop_last().len() implies primitives.contains(
            (#[trigger] ways.drop_last()[k]).breaks(),
        ) by {
            assert(ways[k] == ways.drop_last()[k]);
        }
        lemma_faults_at(primitives, ways.drop_last(), point, i);
    } else {
        let by = ways.last();
        let aimed = takes(by, point.at);
        let j = i - rest.len();
        lemma_takes_what_it_breaks(by, point.at, j);
        assert(ways[ways.len() - 1] == by);
        assert(aimed.contains(aimed[j]));
        assert(faults_at(ways, point)[i] == FaultModel::placed(point.anchor(), aimed[j]));
        assert(Drive::breaking(by.breaks()) == by);
    }
}

proof fn lemma_faults_on(primitives: Seq<Primitive>, ways: Seq<Drive>, points: Seq<PointModel>, i: int)
    requires
        0 <= i < faults_on(ways, points).len(),
        forall|k: int| 0 <= k < ways.len() ==> primitives.contains((#[trigger] ways[k]).breaks()),
    ensures
        exists|k: int|
            0 <= k < points.len() && breaks_at(
                primitives,
                #[trigger] points[k],
                faults_on(ways, points)[i],
            ),
    decreases points.len(),
{
    let before = faults_on(ways, points.drop_last());
    if i < before.len() {
        lemma_faults_on(primitives, ways, points.drop_last(), i);
        let k = choose|k: int|
            0 <= k < points.drop_last().len() && breaks_at(
                primitives,
                #[trigger] points.drop_last()[k],
                before[i],
            );
        assert(points[k] == points.drop_last()[k]);
    } else {
        lemma_faults_at(primitives, ways, points.last(), i - before.len());
        assert(points[points.len() - 1] == points.last());
    }
}

proof fn lemma_drives_offered(primitives: Seq<Primitive>)
    ensures
        forall|k: int|
            0 <= k < drives(primitives).len() ==> primitives.contains(
                (#[trigger] drives(primitives)[k]).breaks(),
            ),
{
    let offered = declared(primitives);
    lemma_declared(primitives);
    assert forall|k: int| 0 <= k < drives(primitives).len() implies primitives.contains(
        (#[trigger] drives(primitives)[k]).breaks(),
    ) by {
        assert(offered.contains(offered[k]));
        assert(Drive::breaking(offered[k]).breaks() == offered[k]);
    }
}

proof fn lemma_affordable_among(ways: Seq<Drive>, points: Seq<PointModel>, budget: Budget, i: int)
    requires
        0 <= i < affordable(ways, points, budget).len(),
    ensures
        points.contains(affordable(ways, points, budget)[i]),
    decreases points.len(),
{
    let rest = affordable(ways, points.drop_last(), budget);
    if i < rest.len() {
        lemma_affordable_among(ways, points.drop_last(), budget, i);
        let k = choose|k: int|
            0 <= k < points.drop_last().len() && points.drop_last()[k] == rest[i];
        assert(points[k] == rest[i]);
    } else {
        assert(points[points.len() - 1] == points.last());
    }
}

/// Every fault of a campaign is anchored to a point the fault-free run turned
/// up, breaks the fleet there the way the point says it is broken, and by
/// nothing but what can be done to this fleet.
pub proof fn lemma_campaign_breaks_as_offered(
    learned: LearnedModel,
    budget: Option<Budget>,
    i: int,
)
    requires
        0 <= i < campaign(learned, budget).len(),
    ensures
        exists|point: PointModel|
            points_of(learned).contains(point) && #[trigger] breaks_at(
                learned.primitives,
                point,
                campaign(learned, budget)[i],
            ),
{
    let ways = drives(learned.primitives);
    let taken = taken_points(learned, budget);
    lemma_drives_offered(learned.primitives);
    lemma_faults_on(learned.primitives, ways, taken, i);
    let k = choose|k: int|
        0 <= k < taken.len() && breaks_at(
            learned.primitives,
            #[trigger] taken[k],
            campaign(learned, budget)[i],
        );
    let can = |point: PointModel| faults_at(ways, point).len() > 0;
    let points = points_of(learned);
    let placed = placeable(ways, points);
    assert(placed.contains(taken[k])) by {
        match budget {
            Some(budget) => lemma_affordable_among(ways, placed, budget, k),
            None => {},
        }
    }
    points.lemma_filter_contains_rev(can, taken[k]);
}

/// The schedules of a campaign are numbered from `first` on without a gap, and
/// each carries the fleet, the steps and the checks as they were given.
pub proof fn lemma_schedules_numbered(
    first: int,
    fleet: FleetModel,
    scenario: ScenarioModel,
    learned: LearnedModel,
    faults: Seq<FaultModel>,
    i: int,
)
    requires
        0 <= i < faults.len(),
        0 <= first,
        first + faults.len() <= u32::MAX,
    ensures
        ({
            let schedule = schedules_for(first, fleet, scenario, learned, faults)[i];
            &&& schedule.id == first + i
            &&& schedule.fleet == fleet
            &&& schedule.steps == scenario.steps
            &&& schedule.checks == scenario.checks
            &&& schedule.purpose == PurposeModel::Break(faults[i])
            &&& schedule.fault_free == learned.fault_free
        }),
{
}

pub(crate) proof fn lemma_round_contains<T>(lists: Seq<Seq<T>>, round: int, x: T)
    ensures
        round_of(lists, round).contains(x) <==> exists|i: int|
            0 <= i < lists.len() && 0 <= round < (#[trigger] lists[i]).len() && lists[i][round] == x,
    decreases lists.len(),
{
    if lists.len() > 0 {
        let rest = round_of(lists.drop_last(), round);
        let all = round_of(lists, round);
        lemma_round_contains(lists.drop_last(), round, x);
        if all.contains(x) {
            let k = choose|k: int| 0 <= k < all.len() && all[k] == x;
            if k < rest.len() {
                assert(rest[k] == x);
                let i = choose|i: int|
                    0 <= i < lists.drop_last().len() && 0 <= round
                        < (#[trigger] lists.drop_last()[i]).len() && lists.drop_last()[i][round] == x;
                assert(lists[i] == lists.drop_last()[i]);
            } else {
                assert(lists[lists.len() - 1] == lists.last());
            }
        }
        if exists|i: int|
            0 <= i < lists.len() && 0 <= round < (#[trigger] lists[i]).len() && lists[i][round] == x {
            let i = choose|i: int|
                0 <= i < lists.len() && 0 <= round < (#[trigger] lists[i]).len() && lists[i][round] == x;
            if i < lists.len() - 1 {
                assert(lists.drop_last()[i] == lists[i]);
                let k = choose|k: int| 0 <= k < rest.len() && rest[k] == x;
                assert(all[k] == x);
            } else {
                assert(all[rest.len() as int] == x);
            }
        }
    }
}

/// What the first `rounds` rounds hold is the first `rounds` of each list, and
/// they come before every later round: an edge's second point never comes
/// before another edge's first.
pub proof fn lemma_rounds_in_order<T>(lists: Seq<Seq<T>>, rounds: nat, later: nat, x: T)
    requires
        rounds <= later,
    ensures
        interleaved(lists, rounds).is_prefix_of(interleaved(lists, later)),
        interleaved(lists, rounds).contains(x) <==> exists|i: int, r: int|
            0 <= i < lists.len() && 0 <= r < rounds && r < lists[i].len() && #[trigger] lists[i][r] == x,
    decreases later, rounds,
{
    if rounds < later {
        lemma_rounds_in_order(lists, rounds, (later - 1) as nat, x);
        assert(interleaved(lists, rounds).is_prefix_of(interleaved(lists, later)));
    } else if rounds > 0 {
        let before = interleaved(lists, (rounds - 1) as nat);
        let last = round_of(lists, rounds - 1);
        lemma_rounds_in_order(lists, (rounds - 1) as nat, (rounds - 1) as nat, x);
        lemma_round_contains(lists, rounds - 1, x);
        vstd::seq_lib::lemma_seq_concat_contains_all_elements(before, last, x);
        if last.contains(x) {
            let i = choose|i: int|
                0 <= i < lists.len() && 0 <= rounds - 1 < (#[trigger] lists[i]).len()
                    && lists[i][rounds - 1] == x;
            assert(lists[i][rounds - 1] == x);
        }
        if exists|i: int, r: int|
            0 <= i < lists.len() && 0 <= r < rounds && r < lists[i].len()
                && #[trigger] lists[i][r] == x {
            let (i, r) = choose|i: int, r: int|
                0 <= i < lists.len() && 0 <= r < rounds && r < lists[i].len()
                    && #[trigger] lists[i][r] == x;
            if r < rounds - 1 {
                assert(lists[i][r] == x);
            } else {
                assert(lists[i].len() > rounds - 1);
            }
        }
    }
}

proof fn lemma_longest<T>(lists: Seq<Seq<T>>, i: int)
    requires
        0 <= i < lists.len(),
    ensures
        lists[i].len() <= longest(lists),
    decreases lists.len(),
{
    if i < lists.len() - 1 {
        lemma_longest(lists.drop_last(), i);
        assert(lists.drop_last()[i] == lists[i]);
    }
}

/// Interleaving leaves no point of any edge out.
pub proof fn lemma_interleaving_keeps<T>(lists: Seq<Seq<T>>, i: int, r: int)
    requires
        0 <= i < lists.len(),
        0 <= r < lists[i].len(),
    ensures
        interleaved(lists, longest(lists)).contains(lists[i][r]),
{
    lemma_longest(lists, i);
    lemma_rounds_in_order(lists, longest(lists), longest(lists), lists[i][r]);
}

} // verus!
