//! What a campaign comes to, said of what the fault-free run found and the faults
//! that are placed.

use vstd::prelude::*;

use super::burst::{
    affordable, all_burst_points, burst_points, campaign, counts_in, crossings, distinct, drives,
    edge_points, ending_first, faults_at, faults_on, inner_points, inside_point, one_bucket,
    one_kind, placeable, points_of, schedules_for, suits, taken_points, takes, PointModel,
};
use super::laws::{
    breaks_at, lemma_campaign_breaks_as_offered, lemma_interleaving_keeps, lemma_round_contains,
    lemma_rounds_in_order,
};
use super::recovery::{held, held_by, holding};
use super::Budget;
use crate::fault::{ByModel, Drive, FaultModel, ReachesModel};
use crate::learned::LearnedModel;
use crate::plan::{FleetModel, ScenarioModel};
use crate::protocol::{
    declared, lemma_declared, Burst, Direction, Doing, EdgeModel, EdgeProfileModel, Primitive,
    ReachedModel, Side,
};
use crate::schedule::PurposeModel;
use crate::sorting::{lemma_sorted_in_order, lemma_sorted_keeps, stable_sorted};
use crate::text::decimal;
use crate::turns::{in_turns, interleaved, lemma_in_turns_keeps, longest, round_of};

verus! {

/// Whether a plugin named that moment on an edge, in all that it says of it.
pub open spec fn named_on(
    profile: EdgeProfileModel,
    at: ReachesModel,
    mark: Seq<char>,
    why: Seq<char>,
    doing: Doing,
) -> bool {
    exists|k: int|
        0 <= k < profile.placements.len() && {
            let named = #[trigger] profile.placements[k];
            &&& at == ReachesModel::Crossing { edge: profile.edge, direction: named.direction }
            &&& mark == named.mark
            &&& why == named.why
            &&& doing == named.doing
        }
}

/// Whether a count of packets is the start, the middle or the end of a burst that
/// crossed an edge that way, and is not none at all.
pub open spec fn counted_on(profile: EdgeProfileModel, direction: Direction, k: u32) -> bool {
    k > 0 && match direction {
        Direction::ClientToUpstream => marks_one(profile.client_to_upstream, k),
        Direction::UpstreamToClient => marks_one(profile.upstream_to_client, k),
    }
}

/// Whether a count is the start, the middle or the end of one of the bursts.
pub open spec fn marks_one(bursts: Seq<Burst>, k: u32) -> bool {
    exists|b: int|
        0 <= b < bursts.len() && (k == (#[trigger] bursts[b]).start || k == bursts[b].mid || k
            == bursts[b].end)
}

/// Whether an edge offers that moment. One a plugin read offers what the plugin
/// named and nothing else. Any other offers counts of the packets that crossed it
/// each way, and only a place to hold the fleet at.
pub open spec fn offered_on(
    profile: EdgeProfileModel,
    at: ReachesModel,
    mark: Seq<char>,
    why: Seq<char>,
    doing: Doing,
) -> bool {
    if profile.placements.len() > 0 {
        named_on(profile, at, mark, why, doing)
    } else {
        &&& doing == Doing::Holding
        &&& exists|direction: Direction, k: u32| #[trigger]
            counted_on(profile, direction, k) && {
                &&& at == ReachesModel::Crossing { edge: profile.edge, direction }
                &&& mark == decimal(k as nat)
                &&& why == decimal(k as nat) + " reads into what this edge carried"@
            }
    }
}

/// Whether a service reported that moment from inside itself: the span, which of
/// them it was, and which side of it.
pub open spec fn offered_inside(
    inside: Seq<ReachedModel>,
    at: ReachesModel,
    mark: Seq<char>,
    why: Seq<char>,
    doing: Doing,
) -> bool {
    &&& doing == Doing::Holding
    &&& exists|k: int| 0 <= k < inside.len() && reports(#[trigger] inside[k], at, mark, why)
}

/// Whether the fault-free run found that moment.
pub open spec fn found(
    learned: LearnedModel,
    at: ReachesModel,
    mark: Seq<char>,
    why: Seq<char>,
    doing: Doing,
) -> bool {
    ||| exists|p: int|
        0 <= p < learned.profiles.len() && offered_on(
            #[trigger] learned.profiles[p],
            at,
            mark,
            why,
            doing,
        )
    ||| offered_inside(learned.inside, at, mark, why, doing)
}

/// Whether taking that away is a way the fleet can be broken at a moment. Where
/// the fleet is held, a service that reaches the moment can be killed, either end
/// of the edge or the one that reported it, and the link between two services
/// cut. Where what crosses is changed, it is changed on that edge, the way the
/// moment says.
pub open spec fn breakable(
    primitives: Seq<Primitive>,
    at: ReachesModel,
    doing: Doing,
    by: ByModel,
) -> bool {
    let here = |primitive: Primitive|
        primitives.contains(primitive) && match doing {
            Doing::Holding => primitive == Primitive::Kill || primitive == Primitive::Cut,
            Doing::Rewriting(only) => primitive == only,
        };
    match by {
        ByModel::Kill(service) => here(Primitive::Kill) && match at {
            ReachesModel::Crossing { edge, .. } => edge.upstream == service || edge.client == Some(
                service,
            ),
            ReachesModel::Inside { service: own } => own == service,
        },
        ByModel::Cut(link) => here(Primitive::Cut) && link.client is Some && crosses(at, link),
        ByModel::Repeat(edge) => here(Primitive::Redeliver) && crosses(at, edge),
        ByModel::Reorder(edge) => here(Primitive::Reorder) && crosses(at, edge),
        ByModel::Drop(edge) => here(Primitive::Drop) && crosses(at, edge),
    }
}

/// Whether a moment is on that edge.
pub open spec fn crosses(at: ReachesModel, on: EdgeModel) -> bool {
    at matches ReachesModel::Crossing { edge, .. } && edge == on
}

/// Whether a fault is placed at that moment and takes that away. A message made to
/// arrive twice presses idempotency, messages made to arrive out of order
/// convergence, and anything taken away durability.
pub open spec fn places(
    fault: FaultModel,
    at: ReachesModel,
    mark: Seq<char>,
    why: Seq<char>,
    by: ByModel,
) -> bool {
    match fault {
        FaultModel::Durable { anchor, by: taken } => (by is Kill || by is Cut || by is Drop) && taken
            == by && anchor.reaches == at && anchor.mark == mark && anchor.why == why,
        FaultModel::Idempotent { anchor, by: taken } => by is Repeat && taken == by && anchor.reaches
            == at && anchor.mark == mark && anchor.why == why,
        FaultModel::Converges { anchor, by: taken } => by is Reorder && taken == by && anchor.reaches
            == at && anchor.mark == mark && anchor.why == why,
        FaultModel::Recovers { .. } => false,
    }
}

proof fn lemma_counts(burst: Burst, direction: Direction)
    ensures
        counts_in(burst, direction).len() <= 3,
        forall|k: u32| #[trigger]
            counts_in(burst, direction).contains(k) <==> k > 0 && (k == burst.start || k == burst.mid
                || k == burst.end),
{
    let three = match direction {
        Direction::UpstreamToClient => seq![burst.mid, burst.end, burst.start],
        Direction::ClientToUpstream => seq![burst.mid, burst.start, burst.end],
    };
    let a = three[0];
    let b = three[1];
    let c = three[2];
    let none = Seq::<u32>::empty();
    assert(three.drop_last() =~= seq![a, b]);
    assert(seq![a, b].drop_last() =~= seq![a]);
    assert(seq![a].drop_last() =~= none);
    let one = super::burst::spaced(seq![a]);
    let two = super::burst::spaced(seq![a, b]);
    let all = super::burst::spaced(three);
    assert(super::burst::spaced(none) =~= none);
    assert(one =~= if a == 0 {
        none
    } else {
        seq![a]
    });
    assert forall|k: u32| #[trigger] all.contains(k) <==> k > 0 && (k == a || k == b || k == c) by {
        assert forall|k: u32| one.contains(k) <==> k > 0 && k == a by {
            if a > 0 {
                assert(one[0] == a);
            }
        }
        assert forall|k: u32| two.contains(k) <==> k > 0 && (k == a || k == b) by {
            lemma_pushed(one, b, two, k);
        }
        lemma_pushed(two, c, all, k);
    }
}

proof fn lemma_pushed(rest: Seq<u32>, last: u32, all: Seq<u32>, k: u32)
    requires
        all == (if last == 0 || (rest.len() > 0 && rest.last() == last) {
            rest
        } else {
            rest.push(last)
        }),
    ensures
        all.contains(k) <==> rest.contains(k) || (k > 0 && k == last),
{
    if rest.len() > 0 {
        assert(rest[rest.len() - 1] == rest.last());
    }
    if all != rest {
        assert(all[rest.len() as int] == last);
        if rest.contains(k) {
            let i = choose|i: int| 0 <= i < rest.len() && rest[i] == k;
            assert(all[i] == k);
        }
        if all.contains(k) {
            let i = choose|i: int| 0 <= i < all.len() && all[i] == k;
            if i < rest.len() {
                assert(rest[i] == k);
            }
        }
    }
}

/// A fault goes by the middle of a burst first. Of its ends, the one the service
/// that is broken stands on comes next: where it has sent everything, on what it
/// sends, and where it has done nothing with it yet, on what it is sent.
pub proof fn lemma_middle_outwards(burst: Burst)
    requires
        0 < burst.start < burst.mid < burst.end,
    ensures
        counts_in(burst, Direction::UpstreamToClient) == seq![burst.mid, burst.end, burst.start],
        counts_in(burst, Direction::ClientToUpstream) == seq![burst.mid, burst.start, burst.end],
{
    lemma_spread(burst.mid, burst.end, burst.start);
    lemma_spread(burst.mid, burst.start, burst.end);
}

proof fn lemma_spread(a: u32, b: u32, c: u32)
    requires
        0 < a,
        0 < b,
        0 < c,
        a != b,
        b != c,
    ensures
        super::burst::spaced(seq![a, b, c]) == seq![a, b, c],
{
    assert(seq![a, b, c].drop_last() =~= seq![a, b]);
    assert(seq![a, b].drop_last() =~= seq![a]);
    assert(seq![a].drop_last() =~= Seq::<u32>::empty());
    assert(super::burst::spaced(Seq::<u32>::empty()) =~= Seq::empty());
    assert(super::burst::spaced(seq![a]) =~= seq![a]);
    assert(super::burst::spaced(seq![a, b]) =~= seq![a, b]);
    assert(super::burst::spaced(seq![a, b, c]) =~= seq![a, b, c]);
}

spec fn says(point: PointModel, at: ReachesModel, mark: Seq<char>, why: Seq<char>, doing: Doing) -> bool {
    point.at == at && point.mark == mark && point.why == why && point.doing == doing
}

proof fn lemma_crossings(profile: EdgeProfileModel, c: int)
    requires
        0 <= c < crossings(profile).len(),
    ensures
        match crossings(profile)[c].0 {
            Direction::ClientToUpstream => profile.client_to_upstream.contains(crossings(profile)[c].1),
            Direction::UpstreamToClient => profile.upstream_to_client.contains(crossings(profile)[c].1),
        },
{
    let n = profile.client_to_upstream.len();
    if c < n {
        assert(profile.client_to_upstream[c] == crossings(profile)[c].1);
    } else {
        assert(profile.upstream_to_client[c - n] == crossings(profile)[c].1);
    }
}

proof fn lemma_counted(profile: EdgeProfileModel, c: int, k: u32)
    requires
        0 <= c < crossings(profile).len(),
        counts_in(crossings(profile)[c].1, crossings(profile)[c].0).contains(k),
    ensures
        counted_on(profile, crossings(profile)[c].0, k),
{
    let (direction, burst) = crossings(profile)[c];
    lemma_crossings(profile, c);
    lemma_counts(burst, direction);
    assert(counts_in(burst, direction).contains(k));
    match direction {
        Direction::ClientToUpstream => {
            let b = choose|b: int|
                0 <= b < profile.client_to_upstream.len() && profile.client_to_upstream[b] == burst;
            assert(profile.client_to_upstream[b] == burst);
        },
        Direction::UpstreamToClient => {
            let b = choose|b: int|
                0 <= b < profile.upstream_to_client.len() && profile.upstream_to_client[b] == burst;
            assert(profile.upstream_to_client[b] == burst);
        },
    }
}

proof fn lemma_sorted_contains<T>(s: Seq<T>, before: spec_fn(T, T) -> bool, x: T)
    ensures
        stable_sorted(s, before).contains(x) <==> s.contains(x),
{
    broadcast use vstd::seq_lib::group_to_multiset_ensures;

    lemma_sorted_keeps(s, before);
    let sorted = stable_sorted(s, before);
    assert(sorted.contains(x) <==> sorted.to_multiset().contains(x));
    assert(s.contains(x) <==> s.to_multiset().contains(x));
}

proof fn lemma_unread_edge(profile: EdgeProfileModel, point: PointModel)
    requires
        profile.placements.len() == 0,
    ensures
        edge_points(profile).contains(point) <==> exists|c: int, r: int|
            0 <= c < all_burst_points(profile).len() && 0 <= r < all_burst_points(profile)[c].len()
                && #[trigger] all_burst_points(profile)[c][r] == point,
{
    let lists = all_burst_points(profile);
    let busier = super::burst::busier();
    assert forall|c: int| 0 <= c < lists.len() implies (#[trigger] lists[c]).len() <= 3 by {
        lemma_counts(crossings(profile)[c].1, crossings(profile)[c].0);
    }
    let a = stable_sorted(round_of(lists, 0), busier);
    let b = stable_sorted(round_of(lists, 1), busier);
    let c = stable_sorted(round_of(lists, 2), busier);
    lemma_sorted_contains(round_of(lists, 0), busier, point);
    lemma_sorted_contains(round_of(lists, 1), busier, point);
    lemma_sorted_contains(round_of(lists, 2), busier, point);
    lemma_round_contains(lists, 0, point);
    lemma_round_contains(lists, 1, point);
    lemma_round_contains(lists, 2, point);
    vstd::seq_lib::lemma_seq_concat_contains_all_elements(a, b, point);
    vstd::seq_lib::lemma_seq_concat_contains_all_elements(a + b, c, point);
    if exists|c: int, r: int|
        0 <= c < lists.len() && 0 <= r < lists[c].len() && #[trigger] lists[c][r] == point {
        let (c, r) = choose|c: int, r: int|
            0 <= c < lists.len() && 0 <= r < lists[c].len() && #[trigger] lists[c][r] == point;
        assert(lists[c].len() <= 3);
        assert(r == 0 || r == 1 || r == 2);
        assert(0 <= r < lists[c].len());
    }
    if edge_points(profile).contains(point) {
        let r: int = if round_of(lists, 0).contains(point) {
            0
        } else if round_of(lists, 1).contains(point) {
            1
        } else {
            2
        };
        assert(round_of(lists, r).contains(point));
        let i = choose|i: int|
            0 <= i < lists.len() && 0 <= r < (#[trigger] lists[i]).len() && lists[i][r] == point;
        assert(lists[i][r] == point);
    }
}

proof fn lemma_edge_offers(
    profile: EdgeProfileModel,
    at: ReachesModel,
    mark: Seq<char>,
    why: Seq<char>,
    doing: Doing,
)
    ensures
        offered_on(profile, at, mark, why, doing) <==> exists|point: PointModel|
            edge_points(profile).contains(point) && #[trigger] says(point, at, mark, why, doing),
{
    let points = edge_points(profile);
    if profile.placements.len() > 0 {
        if named_on(profile, at, mark, why, doing) {
            let k = choose|k: int|
                0 <= k < profile.placements.len() && {
                    let named = #[trigger] profile.placements[k];
                    &&& at == ReachesModel::Crossing {
                        edge: profile.edge,
                        direction: named.direction,
                    }
                    &&& mark == named.mark
                    &&& why == named.why
                    &&& doing == named.doing
                };
            assert(points[k] == points[k]);
            assert(points.contains(points[k]));
            assert(says(points[k], at, mark, why, doing));
        }
        if exists|point: PointModel|
            points.contains(point) && #[trigger] says(point, at, mark, why, doing) {
            let point = choose|point: PointModel|
                points.contains(point) && #[trigger] says(point, at, mark, why, doing);
            let k = choose|k: int| 0 <= k < points.len() && points[k] == point;
            let named = profile.placements[k];
            assert(named.mark == mark);
        }
    } else {
        let lists = all_burst_points(profile);
        if exists|point: PointModel|
            points.contains(point) && #[trigger] says(point, at, mark, why, doing) {
            let point = choose|point: PointModel|
                points.contains(point) && #[trigger] says(point, at, mark, why, doing);
            lemma_unread_edge(profile, point);
            let (c, r) = choose|c: int, r: int|
                0 <= c < lists.len() && 0 <= r < lists[c].len() && #[trigger] lists[c][r] == point;
            let (direction, burst) = crossings(profile)[c];
            lemma_crossings(profile, c);
            lemma_counts(burst, direction);
            assert(lists[c] == burst_points(profile.edge, crossings(profile)[c]));
            let k = counts_in(burst, direction)[r];
            assert(counts_in(burst, direction).contains(k));
            lemma_counted(profile, c, k);
        }
        if offered_on(profile, at, mark, why, doing) {
            let (direction, k) = choose|direction: Direction, k: u32| #[trigger]
                counted_on(profile, direction, k) && {
                    &&& at == ReachesModel::Crossing { edge: profile.edge, direction }
                    &&& mark == decimal(k as nat)
                    &&& why == decimal(k as nat) + " reads into what this edge carried"@
                };
            let carried = match direction {
                Direction::ClientToUpstream => profile.client_to_upstream,
                Direction::UpstreamToClient => profile.upstream_to_client,
            };
            let b = choose|b: int|
                0 <= b < carried.len() && (k == (#[trigger] carried[b]).start || k == carried[b].mid
                    || k == carried[b].end);
            let c = if direction == Direction::ClientToUpstream {
                b
            } else {
                profile.client_to_upstream.len() + b
            };
            assert(crossings(profile)[c] == (direction, carried[b]));
            lemma_counts(carried[b], direction);
            assert(counts_in(carried[b], direction).contains(k));
            let r = choose|r: int|
                0 <= r < counts_in(carried[b], direction).len() && counts_in(carried[b], direction)[r]
                    == k;
            let point = lists[c][r];
            assert(lists[c] == burst_points(profile.edge, (direction, carried[b])));
            assert(lists[c][r] == point);
            lemma_unread_edge(profile, point);
            assert(says(point, at, mark, why, doing));
        }
    }
}

proof fn lemma_distinct(reached: Seq<ReachedModel>)
    ensures
        forall|i: int|
            0 <= i < distinct(reached).len() ==> reached.contains(#[trigger] distinct(reached)[i]),
        forall|i: int|
            0 <= i < reached.len() ==> exists|k: int|
                0 <= k < distinct(reached).len() && (#[trigger] distinct(reached)[k]).service == (
                #[trigger] reached[i]).service && distinct(reached)[k].mark() == reached[i].mark(),
    decreases reached.len(),
{
    if reached.len() > 0 {
        let before = reached.drop_last();
        let rest = distinct(before);
        let all = distinct(reached);
        let last = reached.last();
        lemma_distinct(before);
        assert forall|i: int| 0 <= i < all.len() implies reached.contains(#[trigger] all[i]) by {
            if i < rest.len() {
                assert(before.contains(rest[i]));
                let k = choose|k: int| 0 <= k < before.len() && before[k] == rest[i];
                assert(reached[k] == all[i]);
            } else {
                assert(reached[reached.len() - 1] == all[i]);
            }
        }
        assert forall|i: int| 0 <= i < reached.len() implies exists|k: int|
            0 <= k < all.len() && (#[trigger] all[k]).service == (#[trigger] reached[i]).service
                && all[k].mark() == reached[i].mark() by {
            if i < before.len() {
                assert(before[i] == reached[i]);
                let k = choose|k: int|
                    0 <= k < rest.len() && (#[trigger] rest[k]).service == before[i].service
                        && rest[k].mark() == before[i].mark();
                assert(all[k] == rest[k]);
            } else if all.len() > rest.len() {
                assert(all[rest.len() as int] == last);
            } else {
                let k = choose|k: int|
                    0 <= k < rest.len() && (#[trigger] rest[k]).service == last.service
                        && rest[k].mark() == last.mark();
                assert(all[k] == rest[k]);
            }
        }
    }
}

proof fn lemma_turned(inside: Seq<ReachedModel>, reached: ReachedModel)
    ensures
        in_turns(stable_sorted(distinct(inside), ending_first()), one_kind()).contains(reached)
            <==> distinct(inside).contains(reached),
{
    lemma_in_turns_keeps(stable_sorted(distinct(inside), ending_first()), one_kind());
    lemma_sorted_contains(distinct(inside), ending_first(), reached);
}

/// Whether a report from inside a service says that moment.
pub open spec fn reports(
    reached: ReachedModel,
    at: ReachesModel,
    mark: Seq<char>,
    why: Seq<char>,
) -> bool {
    &&& at == ReachesModel::Inside { service: reached.service }
    &&& mark == reached.span + ":"@ + decimal(reached.nth as nat) + (if reached.side
        == Side::Started {
        ":start"@
    } else {
        ":end"@
    })
    &&& why == mark + " holds "@ + reached.service + " part way through its own work"@
}

proof fn lemma_reports(
    reached: ReachedModel,
    at: ReachesModel,
    mark: Seq<char>,
    why: Seq<char>,
)
    ensures
        reports(reached, at, mark, why) <==> says(
            inside_point(reached),
            at,
            mark,
            why,
            Doing::Holding,
        ),
{
}

proof fn lemma_same_report(
    a: ReachedModel,
    b: ReachedModel,
    at: ReachesModel,
    mark: Seq<char>,
    why: Seq<char>,
)
    requires
        a.service == b.service,
        a.mark() == b.mark(),
        reports(a, at, mark, why),
    ensures
        reports(b, at, mark, why),
{
}

proof fn lemma_reported_is_a_point(
    inside: Seq<ReachedModel>,
    i: int,
    at: ReachesModel,
    mark: Seq<char>,
    why: Seq<char>,
)
    requires
        0 <= i < inside.len(),
        reports(inside[i], at, mark, why),
    ensures
        exists|point: PointModel|
            inner_points(inside).contains(point) && #[trigger] says(
                point,
                at,
                mark,
                why,
                Doing::Holding,
            ),
{
    let few = distinct(inside);
    let turned = in_turns(stable_sorted(few, ending_first()), one_kind());
    let points = inner_points(inside);
    lemma_distinct(inside);
    let k = choose|k: int|
        0 <= k < few.len() && (#[trigger] few[k]).service == inside[i].service && few[k].mark()
            == inside[i].mark();
    lemma_same_report(inside[i], few[k], at, mark, why);
    assert(few.contains(few[k]));
    lemma_turned(inside, few[k]);
    let n = choose|n: int| 0 <= n < turned.len() && turned[n] == few[k];
    assert(points[n] == inside_point(few[k]));
    lemma_reports(few[k], at, mark, why);
    assert(points.contains(points[n]));
    assert(says(points[n], at, mark, why, Doing::Holding));
}

proof fn lemma_point_was_reported(
    inside: Seq<ReachedModel>,
    point: PointModel,
    at: ReachesModel,
    mark: Seq<char>,
    why: Seq<char>,
    doing: Doing,
)
    requires
        inner_points(inside).contains(point),
        says(point, at, mark, why, doing),
    ensures
        offered_inside(inside, at, mark, why, doing),
{
    let few = distinct(inside);
    let turned = in_turns(stable_sorted(few, ending_first()), one_kind());
    let points = inner_points(inside);
    lemma_distinct(inside);
    let n = choose|n: int| 0 <= n < points.len() && points[n] == point;
    assert(point == inside_point(turned[n]));
    assert(turned.contains(turned[n]));
    lemma_turned(inside, turned[n]);
    let k = choose|k: int| 0 <= k < few.len() && few[k] == turned[n];
    assert(inside.contains(few[k]));
    let i = choose|i: int| 0 <= i < inside.len() && inside[i] == few[k];
    lemma_reports(inside[i], at, mark, why);
    assert(reports(inside[i], at, mark, why));
}

proof fn lemma_inside_offers(
    inside: Seq<ReachedModel>,
    at: ReachesModel,
    mark: Seq<char>,
    why: Seq<char>,
    doing: Doing,
)
    ensures
        offered_inside(inside, at, mark, why, doing) <==> exists|point: PointModel|
            inner_points(inside).contains(point) && #[trigger] says(point, at, mark, why, doing),
{
    if offered_inside(inside, at, mark, why, doing) {
        let i = choose|i: int| 0 <= i < inside.len() && reports(#[trigger] inside[i], at, mark, why);
        lemma_reported_is_a_point(inside, i, at, mark, why);
    }
    if exists|point: PointModel|
        inner_points(inside).contains(point) && #[trigger] says(point, at, mark, why, doing) {
        let point = choose|point: PointModel|
            inner_points(inside).contains(point) && #[trigger] says(point, at, mark, why, doing);
        lemma_point_was_reported(inside, point, at, mark, why, doing);
    }
}

/// The points of a campaign are the moments the fault-free run found, and no
/// others.
pub proof fn lemma_points_are_found(
    learned: LearnedModel,
    at: ReachesModel,
    mark: Seq<char>,
    why: Seq<char>,
    doing: Doing,
)
    ensures
        found(learned, at, mark, why, doing) <==> exists|k: int|
            0 <= k < points_of(learned).len() && (#[trigger] points_of(learned)[k]).at == at && points_of(
                learned,
            )[k].mark == mark && points_of(learned)[k].why == why && points_of(learned)[k].doing == doing,
{
    let on_edge = learned.profiles.map_values(|profile: EdgeProfileModel| edge_points(profile));
    let edges = interleaved(on_edge, longest(on_edge));
    let inner = inner_points(learned.inside);
    let points = points_of(learned);
    lemma_in_turns_keeps(edges + inner, one_bucket());
    lemma_inside_offers(learned.inside, at, mark, why, doing);
    if found(learned, at, mark, why, doing) {
        let point = if offered_inside(learned.inside, at, mark, why, doing) {
            let point = choose|point: PointModel|
                inner.contains(point) && #[trigger] says(point, at, mark, why, doing);
            vstd::seq_lib::lemma_seq_concat_contains_all_elements(edges, inner, point);
            point
        } else {
            let p = choose|p: int|
                0 <= p < learned.profiles.len() && offered_on(
                    #[trigger] learned.profiles[p],
                    at,
                    mark,
                    why,
                    doing,
                );
            lemma_edge_offers(learned.profiles[p], at, mark, why, doing);
            let point = choose|point: PointModel|
                edge_points(learned.profiles[p]).contains(point) && #[trigger] says(
                    point,
                    at,
                    mark,
                    why,
                    doing,
                );
            assert(on_edge[p] == edge_points(learned.profiles[p]));
            let r = choose|r: int| 0 <= r < on_edge[p].len() && on_edge[p][r] == point;
            lemma_interleaving_keeps(on_edge, p, r);
            vstd::seq_lib::lemma_seq_concat_contains_all_elements(edges, inner, point);
            point
        };
        assert((edges + inner).contains(point));
        assert(points.contains(point));
        let k = choose|k: int| 0 <= k < points.len() && points[k] == point;
        assert(says(points[k], at, mark, why, doing));
    }
    if exists|k: int|
        0 <= k < points.len() && (#[trigger] points[k]).at == at && points[k].mark == mark
            && points[k].why == why && points[k].doing == doing {
        let k = choose|k: int|
            0 <= k < points.len() && (#[trigger] points[k]).at == at && points[k].mark == mark
                && points[k].why == why && points[k].doing == doing;
        let point = points[k];
        assert(points.contains(point));
        assert(says(point, at, mark, why, doing));
        vstd::seq_lib::lemma_seq_concat_contains_all_elements(edges, inner, point);
        if !inner.contains(point) {
            lemma_rounds_in_order(on_edge, longest(on_edge), longest(on_edge), point);
            let (p, r) = choose|p: int, r: int|
                0 <= p < on_edge.len() && 0 <= r < longest(on_edge) && r < on_edge[p].len()
                    && #[trigger] on_edge[p][r] == point;
            assert(on_edge[p] == edge_points(learned.profiles[p]));
            assert(edge_points(learned.profiles[p]).contains(point));
            lemma_edge_offers(learned.profiles[p], at, mark, why, doing);
            assert(offered_on(learned.profiles[p], at, mark, why, doing));
        }
    }
}

proof fn lemma_breakable(primitives: Seq<Primitive>, at: ReachesModel, doing: Doing, by: ByModel)
    ensures
        breakable(primitives, at, doing, by) <==> primitives.contains(by.primitive()) && suits(
            Drive::breaking(by.primitive()),
            doing,
        ) && takes(Drive::breaking(by.primitive()), at).contains(by),
{
    let here = takes(Drive::breaking(by.primitive()), at);
    if breakable(primitives, at, doing, by) {
        match by {
            ByModel::Kill(service) => match at {
                ReachesModel::Crossing { edge, .. } => {
                    match edge.client {
                        Some(client) => {
                            assert(here[0] == ByModel::Kill(client));
                            assert(here[1] == ByModel::Kill(edge.upstream));
                        },
                        None => {
                            assert(here[0] == ByModel::Kill(edge.upstream));
                        },
                    }
                },
                ReachesModel::Inside { service: own } => {
                    assert(here[0] == by);
                },
            },
            _ => {
                assert(here[0] == by);
            },
        }
    }
}

/// Every fault of a campaign is placed at a moment the fault-free run found,
/// watched for the way that moment crosses and by the mark it goes by, and takes
/// away something that can be taken there from this fleet.
pub proof fn lemma_campaign_places_what_was_found(
    learned: LearnedModel,
    budget: Option<Budget>,
    i: int,
)
    requires
        0 <= i < campaign(learned, budget).len(),
    ensures
        exists|at: ReachesModel, mark: Seq<char>, why: Seq<char>, doing: Doing, by: ByModel|
            #[trigger] placed_there(
                learned,
                campaign(learned, budget)[i],
                at,
                mark,
                why,
                doing,
                by,
            ),
{
    let fault = campaign(learned, budget)[i];
    lemma_campaign_breaks_as_offered(learned, budget, i);
    let point = choose|point: PointModel|
        points_of(learned).contains(point) && #[trigger] breaks_at(
            learned.primitives,
            point,
            fault,
        );
    let by = fault.taking();
    lemma_points_are_found(learned, point.at, point.mark, point.why, point.doing);
    let k = choose|k: int| 0 <= k < points_of(learned).len() && points_of(learned)[k] == point;
    assert(points_of(learned)[k].at == point.at);
    lemma_breakable(learned.primitives, point.at, point.doing, by);
    lemma_campaign_built(learned, budget, i);
    assert(placed_there(learned, fault, point.at, point.mark, point.why, point.doing, by));
}

/// Whether the fault-free run found that moment, that can be taken away there, and
/// the fault is placed there and takes it away.
pub open spec fn placed_there(
    learned: LearnedModel,
    fault: FaultModel,
    at: ReachesModel,
    mark: Seq<char>,
    why: Seq<char>,
    doing: Doing,
    by: ByModel,
) -> bool {
    &&& found(learned, at, mark, why, doing)
    &&& breakable(learned.primitives, at, doing, by)
    &&& places(fault, at, mark, why, by)
}

proof fn lemma_faults_built(ways: Seq<Drive>, points: Seq<PointModel>, i: int)
    requires
        0 <= i < faults_on(ways, points).len(),
    ensures
        exists|k: int|
            0 <= k < points.len() && FaultModel::placed(
                (#[trigger] points[k]).anchor(),
                faults_on(ways, points)[i].taking(),
            ) == faults_on(ways, points)[i],
    decreases points.len(),
{
    let before = faults_on(ways, points.drop_last());
    if i < before.len() {
        lemma_faults_built(ways, points.drop_last(), i);
        let k = choose|k: int|
            0 <= k < points.drop_last().len() && FaultModel::placed(
                (#[trigger] points.drop_last()[k]).anchor(),
                before[i].taking(),
            ) == before[i];
        assert(points[k] == points.drop_last()[k]);
    } else {
        lemma_faults_there(ways, points.last(), i - before.len());
        assert(points[points.len() - 1] == points.last());
    }
}

proof fn lemma_faults_there(ways: Seq<Drive>, point: PointModel, i: int)
    requires
        0 <= i < faults_at(ways, point).len(),
    ensures
        FaultModel::placed(point.anchor(), faults_at(ways, point)[i].taking()) == faults_at(
            ways,
            point,
        )[i],
    decreases ways.len(),
{
    let rest = faults_at(ways.drop_last(), point);
    if i < rest.len() {
        lemma_faults_there(ways.drop_last(), point, i);
    }
}

proof fn lemma_campaign_built(learned: LearnedModel, budget: Option<Budget>, i: int)
    requires
        0 <= i < campaign(learned, budget).len(),
    ensures
        ({
            let fault = campaign(learned, budget)[i];
            exists|point: PointModel| fault == FaultModel::placed(
                #[trigger] point.anchor(),
                fault.taking(),
            )
        }),
{
    let taken = taken_points(learned, budget);
    lemma_faults_built(drives(learned.primitives), taken, i);
    let k = choose|k: int|
        0 <= k < taken.len() && FaultModel::placed(
            (#[trigger] taken[k]).anchor(),
            campaign(learned, budget)[i].taking(),
        ) == campaign(learned, budget)[i];
    assert(campaign(learned, budget)[i] == FaultModel::placed(
        taken[k].anchor(),
        campaign(learned, budget)[i].taking(),
    ));
}

proof fn lemma_faults_at_has(ways: Seq<Drive>, point: PointModel, by: ByModel)
    requires
        ways.contains(Drive::breaking(by.primitive())),
        suits(Drive::breaking(by.primitive()), point.doing),
        takes(Drive::breaking(by.primitive()), point.at).contains(by),
    ensures
        faults_at(ways, point).contains(FaultModel::placed(point.anchor(), by)),
    decreases ways.len(),
{
    let rest = faults_at(ways.drop_last(), point);
    let all = faults_at(ways, point);
    let fault = FaultModel::placed(point.anchor(), by);
    let drive = Drive::breaking(by.primitive());
    if ways.last() == drive {
        let here = takes(drive, point.at);
        let k = choose|k: int| 0 <= k < here.len() && here[k] == by;
        assert(all[rest.len() + k] == fault);
    } else {
        let w = choose|w: int| 0 <= w < ways.len() && ways[w] == drive;
        assert(ways.drop_last()[w] == drive);
        lemma_faults_at_has(ways.drop_last(), point, by);
        let k = choose|k: int| 0 <= k < rest.len() && rest[k] == fault;
        assert(all[k] == fault);
    }
}

proof fn lemma_faults_on_has(ways: Seq<Drive>, points: Seq<PointModel>, k: int, fault: FaultModel)
    requires
        0 <= k < points.len(),
        faults_at(ways, points[k]).contains(fault),
    ensures
        faults_on(ways, points).contains(fault),
    decreases points.len(),
{
    let before = faults_on(ways, points.drop_last());
    let all = faults_on(ways, points);
    if k < points.len() - 1 {
        lemma_faults_on_has(ways, points.drop_last(), k, fault);
        let i = choose|i: int| 0 <= i < before.len() && before[i] == fault;
        assert(all[i] == fault);
    } else {
        let here = faults_at(ways, points.last());
        let i = choose|i: int| 0 <= i < here.len() && here[i] == fault;
        assert(all[before.len() + i] == fault);
    }
}

/// A campaign with all the time it needs leaves nothing out: at every moment the
/// fault-free run found it takes away everything that can be taken there.
pub proof fn lemma_campaign_leaves_nothing_out(
    learned: LearnedModel,
    at: ReachesModel,
    mark: Seq<char>,
    why: Seq<char>,
    doing: Doing,
    by: ByModel,
)
    requires
        found(learned, at, mark, why, doing),
        breakable(learned.primitives, at, doing, by),
    ensures
        exists|i: int|
            0 <= i < campaign(learned, None).len() && places(
                #[trigger] campaign(learned, None)[i],
                at,
                mark,
                why,
                by,
            ),
{
    let ways = drives(learned.primitives);
    let points = points_of(learned);
    lemma_points_are_found(learned, at, mark, why, doing);
    let k = choose|k: int|
        0 <= k < points.len() && (#[trigger] points[k]).at == at && points[k].mark == mark
            && points[k].why == why && points[k].doing == doing;
    let point = points[k];
    lemma_breakable(learned.primitives, at, doing, by);
    lemma_declared(learned.primitives);
    let offered = declared(learned.primitives);
    assert(offered.contains(by.primitive()));
    let o = choose|o: int| 0 <= o < offered.len() && offered[o] == by.primitive();
    assert(ways[o] == Drive::breaking(by.primitive()));
    lemma_faults_at_has(ways, point, by);
    let can = |point: PointModel| faults_at(ways, point).len() > 0;
    points.lemma_filter_contains(can, k);
    let taken = taken_points(learned, None);
    let n = choose|n: int| 0 <= n < taken.len() && taken[n] == point;
    let fault = FaultModel::placed(point.anchor(), by);
    lemma_faults_on_has(ways, taken, n, fault);
    let all = campaign(learned, None);
    let i = choose|i: int| 0 <= i < all.len() && all[i] == fault;
    assert(places(all[i], at, mark, why, by));
}

/// Whether that many runs fit in the time there is: as many rounds as it takes to
/// run them all, so many at once, take no longer.
pub open spec fn fit_in(budget: Budget, runs: int) -> bool {
    exists|rounds: int| #[trigger] enough(budget, rounds, runs)
}

/// Whether that many rounds run them all and take no longer than there is.
pub open spec fn enough(budget: Budget, rounds: int, runs: int) -> bool {
    let at_once = if budget.concurrency == 0 {
        1int
    } else {
        budget.concurrency as int
    };
    0 <= rounds && runs <= rounds * at_once && rounds * budget.cost@ <= budget.left@
}

/// A budget affords as many runs as fit in the time there is.
pub proof fn lemma_affords_what_fits(budget: Budget, runs: int)
    requires
        0 <= runs,
    ensures
        budget.affords(runs) <==> fit_in(budget, runs),
{
    let c = budget.at_once();
    let cost = budget.cost@ as int;
    let least = budget.rounds(runs);
    assert(c >= 1);
    assert(runs == (runs / c) * c + runs % c && 0 <= runs % c < c && 0 <= runs / c)
        by (nonlinear_arith)
        requires
            c >= 1,
            0 <= runs,
    ;
    assert(runs <= least * c) by (nonlinear_arith)
        requires
            runs == (runs / c) * c + runs % c,
            0 <= runs % c < c,
            least == runs / c + (if runs % c == 0 {
                0int
            } else {
                1int
            }),
    ;
    if budget.affords(runs) {
        assert(enough(budget, least, runs));
    }
    if fit_in(budget, runs) {
        let rounds = choose|rounds: int| #[trigger] enough(budget, rounds, runs);
        assert(least <= rounds) by (nonlinear_arith)
            requires
                c >= 1,
                runs == (runs / c) * c + runs % c,
                0 <= runs % c < c,
                least == runs / c + (if runs % c == 0 {
                    0int
                } else {
                    1int
                }),
                runs <= rounds * c,
        ;
        assert(least * cost <= rounds * cost) by (nonlinear_arith)
            requires
                least <= rounds,
                cost >= 0,
        ;
    }
}

/// The ones that are marked to be kept, in order.
pub open spec fn those_kept<T>(all: Seq<T>, kept: Seq<bool>) -> Seq<T>
    decreases all.len(),
{
    if all.len() == 0 || kept.len() != all.len() {
        Seq::empty()
    } else {
        let rest = those_kept(all.drop_last(), kept.drop_last());
        if kept.last() {
            rest.push(all.last())
        } else {
            rest
        }
    }
}

/// Whether a point is kept exactly where the runs it costs fit in the time there
/// is beside those of the points kept before it.
pub open spec fn kept_as_afforded(
    ways: Seq<Drive>,
    points: Seq<PointModel>,
    budget: Budget,
    kept: Seq<bool>,
) -> bool {
    &&& kept.len() == points.len()
    &&& forall|j: int|
        0 <= j < points.len() ==> (#[trigger] kept[j] <==> fit_in(
            budget,
            (faults_on(ways, those_kept(points.take(j), kept.take(j))).len() + faults_at(
                ways,
                points[j],
            ).len()) as int,
        ))
}

proof fn lemma_affordable(ways: Seq<Drive>, points: Seq<PointModel>, budget: Budget)
    ensures
        exists|kept: Seq<bool>| #[trigger]
            kept_as_afforded(ways, points, budget, kept) && affordable(ways, points, budget)
                == those_kept(points, kept),
    decreases points.len(),
{
    if points.len() == 0 {
        let none = Seq::<bool>::empty();
        assert(affordable(ways, points, budget) =~= those_kept(points, none));
        assert(kept_as_afforded(ways, points, budget, none));
    } else {
        let before = points.drop_last();
        lemma_affordable(ways, before, budget);
        let few = choose|kept: Seq<bool>| #[trigger]
            kept_as_afforded(ways, before, budget, kept) && affordable(ways, before, budget)
                == those_kept(before, kept);
        let rest = affordable(ways, before, budget);
        let runs = (faults_on(ways, rest).len() + faults_at(ways, points.last()).len()) as int;
        super::laws::lemma_cost_is_count(ways, rest);
        lemma_affords_what_fits(budget, runs);
        let last = budget.affords(runs);
        let kept = few.push(last);
        assert(kept.drop_last() =~= few);
        assert forall|j: int| 0 <= j < points.len() implies (#[trigger] kept[j] <==> fit_in(
            budget,
            (faults_on(ways, those_kept(points.take(j), kept.take(j))).len() + faults_at(
                ways,
                points[j],
            ).len()) as int,
        )) by {
            if j < before.len() {
                assert(points.take(j) =~= before.take(j));
                assert(kept.take(j) =~= few.take(j));
                assert(few[j] == kept[j]);
                assert(before[j] == points[j]);
            } else {
                assert(points.take(j) =~= before);
                assert(kept.take(j) =~= few);
            }
        }
        assert(kept_as_afforded(ways, points, budget, kept));
        assert(affordable(ways, points, budget) == those_kept(points, kept));
    }
}

/// A budget is spent on the points in the order they come: each is taken where it
/// fits beside what was taken before it, and left out only where it does not.
pub proof fn lemma_budget_is_spent_in_order(learned: LearnedModel, budget: Budget)
    ensures
        ({
            let ways = drives(learned.primitives);
            let points = taken_points(learned, None);
            exists|kept: Seq<bool>| #[trigger]
                kept_as_afforded(ways, points, budget, kept) && taken_points(learned, Some(budget))
                    == those_kept(points, kept)
        }),
{
    let ways = drives(learned.primitives);
    let points = placeable(ways, points_of(learned));
    assert(taken_points(learned, None) == points);
    assert(taken_points(learned, Some(budget)) == affordable(ways, points, budget));
    lemma_affordable(ways, points, budget);
}

/// Whether the middle of a burst that crossed that way is one of those points.
pub open spec fn middle_among(
    points: Seq<PointModel>,
    edge: EdgeModel,
    direction: Direction,
    burst: Burst,
) -> bool {
    exists|i: int|
        0 <= i < points.len() && (#[trigger] points[i]).at == (ReachesModel::Crossing {
            edge,
            direction,
        }) && points[i].mark == decimal(burst.mid as nat) && points[i].packets == Some(burst.packets)
}

/// On an edge nothing read, every burst's middle is faulted before any burst is
/// faulted again, the busiest burst first.
pub proof fn lemma_middles_first(profile: EdgeProfileModel)
    requires
        profile.placements.len() == 0,
        forall|b: int|
            0 <= b < profile.client_to_upstream.len() ==> (#[trigger] profile.client_to_upstream[b]).mid
                > 0,
        forall|b: int|
            0 <= b < profile.upstream_to_client.len() ==> (#[trigger] profile.upstream_to_client[b]).mid
                > 0,
    ensures
        ({
            let n = profile.client_to_upstream.len() + profile.upstream_to_client.len();
            let first = edge_points(profile).take(n as int);
            &&& edge_points(profile).len() >= n
            &&& forall|i: int, j: int|
                0 <= i < j < n ==> (#[trigger] first[i]).packets is Some && (
                #[trigger] first[j]).packets is Some && first[i].packets->0 >= first[j].packets->0
            &&& forall|b: int|
                0 <= b < profile.client_to_upstream.len() ==> middle_among(
                    first,
                    profile.edge,
                    Direction::ClientToUpstream,
                    #[trigger] profile.client_to_upstream[b],
                )
            &&& forall|b: int|
                0 <= b < profile.upstream_to_client.len() ==> middle_among(
                    first,
                    profile.edge,
                    Direction::UpstreamToClient,
                    #[trigger] profile.upstream_to_client[b],
                )
        }),
{
    let n = profile.client_to_upstream.len() + profile.upstream_to_client.len();
    let lists = all_burst_points(profile);
    let busier = super::burst::busier();
    let firsts = round_of(lists, 0);
    let sorted = stable_sorted(firsts, busier);
    assert forall|c: int| 0 <= c < lists.len() implies (#[trigger] lists[c]).len() > 0
        && lists[c][0].packets is Some by {
        lemma_middle(profile, c);
    }
    lemma_round_whole(lists, 0);
    lemma_sorted_keeps(firsts, busier);
    lemma_sorted_in_order(firsts, busier);
    let first = edge_points(profile).take(n as int);
    assert(lists.len() == n);
    assert(sorted.len() == n);
    assert(first =~= sorted);
    assert forall|i: int| 0 <= i < n implies (#[trigger] first[i]).packets is Some by {
        assert(sorted.contains(sorted[i]));
        lemma_sorted_contains(firsts, busier, sorted[i]);
        lemma_round_contains(lists, 0, sorted[i]);
    }
    assert forall|i: int, j: int| 0 <= i < j < n implies (#[trigger] first[i]).packets is Some && (
    #[trigger] first[j]).packets is Some && first[i].packets->0 >= first[j].packets->0 by {
        assert(!busier(sorted[j], sorted[i]));
    }
    assert forall|b: int| 0 <= b < profile.client_to_upstream.len() implies middle_among(
        first,
        profile.edge,
        Direction::ClientToUpstream,
        #[trigger] profile.client_to_upstream[b],
    ) by {
        assert(crossings(profile)[b] == (
            Direction::ClientToUpstream,
            profile.client_to_upstream[b],
        ));
        lemma_middle(profile, b);
        lemma_middle_stands(profile, b);
    }
    assert forall|b: int| 0 <= b < profile.upstream_to_client.len() implies middle_among(
        first,
        profile.edge,
        Direction::UpstreamToClient,
        #[trigger] profile.upstream_to_client[b],
    ) by {
        let c = profile.client_to_upstream.len() + b;
        assert(crossings(profile)[c] == (
            Direction::UpstreamToClient,
            profile.upstream_to_client[b],
        ));
        lemma_middle(profile, c);
        lemma_middle_stands(profile, c);
    }
}

proof fn lemma_middle(profile: EdgeProfileModel, c: int)
    requires
        0 <= c < crossings(profile).len(),
        forall|b: int|
            0 <= b < profile.client_to_upstream.len() ==> (#[trigger] profile.client_to_upstream[b]).mid
                > 0,
        forall|b: int|
            0 <= b < profile.upstream_to_client.len() ==> (#[trigger] profile.upstream_to_client[b]).mid
                > 0,
    ensures
        ({
            let (direction, burst) = crossings(profile)[c];
            let list = all_burst_points(profile)[c];
            &&& list.len() > 0
            &&& list[0].at == (ReachesModel::Crossing { edge: profile.edge, direction })
            &&& list[0].mark == decimal(burst.mid as nat)
            &&& list[0].packets == Some(burst.packets)
        }),
{
    let (direction, burst) = crossings(profile)[c];
    let n = profile.client_to_upstream.len();
    if c < n {
        assert(profile.client_to_upstream[c] == burst);
    } else {
        assert(profile.upstream_to_client[c - n] == burst);
    }
    lemma_first_count(burst, direction);
    assert(all_burst_points(profile)[c] == burst_points(profile.edge, crossings(profile)[c]));
}

proof fn lemma_middle_stands(profile: EdgeProfileModel, c: int)
    requires
        0 <= c < crossings(profile).len(),
        all_burst_points(profile)[c].len() > 0,
    ensures
        stable_sorted(round_of(all_burst_points(profile), 0), super::burst::busier()).contains(
            all_burst_points(profile)[c][0],
        ),
{
    let lists = all_burst_points(profile);
    assert(lists[c].len() > 0);
    lemma_round_contains(lists, 0, lists[c][0]);
    lemma_sorted_contains(round_of(lists, 0), super::burst::busier(), lists[c][0]);
}

proof fn lemma_first_count(burst: Burst, direction: Direction)
    requires
        burst.mid > 0,
    ensures
        counts_in(burst, direction).len() > 0,
        counts_in(burst, direction)[0] == burst.mid,
{
    let three = match direction {
        Direction::UpstreamToClient => seq![burst.mid, burst.end, burst.start],
        Direction::ClientToUpstream => seq![burst.mid, burst.start, burst.end],
    };
    let a = three[0];
    let b = three[1];
    assert(three.drop_last() =~= seq![a, b]);
    assert(seq![a, b].drop_last() =~= seq![a]);
    assert(seq![a].drop_last() =~= Seq::<u32>::empty());
    assert(super::burst::spaced(Seq::<u32>::empty()) =~= Seq::empty());
    assert(super::burst::spaced(seq![a]) =~= seq![a]);
    assert(super::burst::spaced(seq![a, b])[0] == a);
    assert(super::burst::spaced(three)[0] == a);
}

proof fn lemma_round_whole<T>(lists: Seq<Seq<T>>, round: int)
    requires
        0 <= round,
        forall|c: int| 0 <= c < lists.len() ==> (#[trigger] lists[c]).len() > round,
    ensures
        round_of(lists, round).len() == lists.len(),
    decreases lists.len(),
{
    if lists.len() > 0 {
        assert forall|c: int| 0 <= c < lists.drop_last().len() implies (
        #[trigger] lists.drop_last()[c]).len() > round by {
            assert(lists.drop_last()[c] == lists[c]);
        }
        lemma_round_whole(lists.drop_last(), round);
        assert(lists[lists.len() - 1].len() > round);
    }
}

/// Points take their turns together where they come from bursts alike, or are
/// named alike, are on edges alike or inside services alike, and break the fleet
/// the same way.
pub proof fn lemma_turns_together(a: PointModel, b: PointModel)
    ensures
        one_bucket()(a, b) <==> {
            &&& a.packets is Some <==> b.packets is Some
            &&& a.at is Crossing <==> b.at is Crossing
            &&& a.doing == b.doing
        },
{
}

/// A schedule carries all a worker needs to run it: the fleet, the scenario's
/// steps and checks and how long it is given to settle, what the fault-free run
/// found, and the fault. They are numbered in the order the faults come.
pub proof fn lemma_schedule_carries(
    first: int,
    fleet: FleetModel,
    scenario: ScenarioModel,
    learned: LearnedModel,
    faults: Seq<FaultModel>,
    i: int,
)
    requires
        0 <= i < faults.len(),
        0 <= first,
        first + faults.len() <= u32::MAX,
    ensures
        ({
            let all = schedules_for(first, fleet, scenario, learned, faults);
            &&& all.len() == faults.len()
            &&& all[i].id == first + i
            &&& all[i].fleet == fleet
            &&& all[i].steps == scenario.steps
            &&& all[i].checks == scenario.checks
            &&& all[i].consistent_within == scenario.consistent_within
            &&& all[i].fault_free == learned.fault_free
            &&& all[i].purpose == PurposeModel::Break(faults[i])
        }),
{
}

/// Whether taking that away holds a fleet down: a service it declares, where it
/// can be killed, or a link between two services that carried traffic, where it
/// can be cut.
pub open spec fn held_down(
    fleet: FleetModel,
    learned: LearnedModel,
    ways: Seq<Drive>,
    by: ByModel,
) -> bool {
    match by {
        ByModel::Kill(name) => ways.contains(Drive::Kill) && exists|s: int|
            0 <= s < fleet.services.len() && (#[trigger] fleet.services[s]).name == name,
        ByModel::Cut(edge) => ways.contains(Drive::Cut) && edge.client is Some && exists|p: int|
            0 <= p < learned.profiles.len() && (#[trigger] learned.profiles[p]).edge == edge,
        _ => false,
    }
}

proof fn lemma_held_by(fleet: FleetModel, learned: LearnedModel, way: Drive, by: ByModel)
    ensures
        held_by(fleet, learned, way).contains(by) <==> held_down(fleet, learned, seq![way], by),
{
    let here = held_by(fleet, learned, way);
    assert(seq![way][0] == way);
    let linked = |profile: EdgeProfileModel| profile.edge.client is Some;
    let links = learned.profiles.filter(linked);
    if here.contains(by) {
        let k = choose|k: int| 0 <= k < here.len() && here[k] == by;
        match way {
            Drive::Kill => {
                assert(fleet.services[k].name == by->Kill_0);
            },
            Drive::Cut => {
                assert(links.contains(links[k]));
                learned.profiles.lemma_filter_pred(linked, k);
                learned.profiles.lemma_filter_contains_rev(linked, links[k]);
                let p = choose|p: int| 0 <= p < learned.profiles.len() && learned.profiles[p] == links[k];
                assert(learned.profiles[p].edge == by->Cut_0);
            },
            _ => {},
        }
    }
    if held_down(fleet, learned, seq![way], by) {
        match by {
            ByModel::Kill(name) => {
                let s = choose|s: int|
                    0 <= s < fleet.services.len() && (#[trigger] fleet.services[s]).name == name;
                assert(here[s] == by);
            },
            ByModel::Cut(edge) => {
                let p = choose|p: int|
                    0 <= p < learned.profiles.len() && (#[trigger] learned.profiles[p]).edge == edge;
                learned.profiles.lemma_filter_contains(linked, p);
                let k = choose|k: int| 0 <= k < links.len() && links[k] == learned.profiles[p];
                assert(here[k] == by);
            },
            _ => {},
        }
    }
}

/// What holds a fleet down is exactly every service of it, and every link between
/// its services that carried traffic, as far as it can be broken that way. Each
/// is held down for the whole run.
pub proof fn lemma_held_is_all_that_can_be(
    fleet: FleetModel,
    learned: LearnedModel,
    ways: Seq<Drive>,
)
    ensures
        forall|by: ByModel| #[trigger]
            held(fleet, learned, ways).contains(by) <==> held_down(fleet, learned, ways, by),
        holding(fleet, learned, ways).len() == held(fleet, learned, ways).len(),
        forall|i: int|
            0 <= i < holding(fleet, learned, ways).len() ==> #[trigger] holding(
                fleet,
                learned,
                ways,
            )[i] == (FaultModel::Recovers { by: held(fleet, learned, ways)[i] }),
    decreases ways.len(),
{
    let all = held(fleet, learned, ways);
    if ways.len() == 0 {
        assert forall|by: ByModel| #[trigger] all.contains(by) <==> held_down(
            fleet,
            learned,
            ways,
            by,
        ) by {}
    } else {
        let before = ways.drop_last();
        let rest = held(fleet, learned, before);
        lemma_held_is_all_that_can_be(fleet, learned, before);
        assert forall|by: ByModel| #[trigger] all.contains(by) <==> held_down(
            fleet,
            learned,
            ways,
            by,
        ) by {
            let here = held_by(fleet, learned, ways.last());
            lemma_held_by(fleet, learned, ways.last(), by);
            vstd::seq_lib::lemma_seq_concat_contains_all_elements(rest, here, by);
            assert(rest.contains(by) <==> held_down(fleet, learned, before, by));
            assert forall|way: Drive| #[trigger] ways.contains(way) <==> before.contains(way)
                || seq![ways.last()].contains(way) by {
                assert(ways =~= before + seq![ways.last()]);
                vstd::seq_lib::lemma_seq_concat_contains_all_elements(
                    before,
                    seq![ways.last()],
                    way,
                );
            }
        }
    }
}

} // verus!
