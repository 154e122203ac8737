//! What the schedules of a campaign come to, said of what a fault-free run
//! observed.

use vstd::prelude::*;

use super::burst::{
    anchored, anchors, campaign, lemma_anchors, schedules_of, shots, shots_of, Shot,
};
use super::session_derived::{
    at_least_one, ended, grid, last_ended, lifetime, per_session, row,
};
use crate::engine::scheduler::laws::{lemma_interleaving_keeps, lemma_rounds_in_order};
use crate::protocol::{Direction, ServiceProfileModel, SessionModel};
use crate::turns::longest;

verus! {

/// Whether two packets that follow one another are of two bursts.
pub open spec fn gap(packets: Seq<u128>, j: int) -> bool {
    packets[j + 1] - packets[j] > 20_000_000
}

/// Whether the packets from `i` to `j` are a burst: none of them further from the
/// next than twenty milliseconds, and those before and behind them further.
pub open spec fn is_burst(packets: Seq<u128>, i: int, j: int) -> bool {
    &&& 0 <= i <= j < packets.len()
    &&& i > 0 ==> gap(packets, i - 1)
    &&& j + 1 < packets.len() ==> gap(packets, j)
    &&& forall|k: int| i <= k < j ==> !#[trigger] gap(packets, k)
}

/// Whether a count of packets is just before a burst, half way through it, or just
/// behind it.
pub open spec fn about_a_burst(packets: Seq<u128>, count: int) -> bool {
    exists|i: int, j: int| #[trigger]
        is_burst(packets, i, j) && (count == i || count == (i + j + 2) / 2 || count == j + 1)
}

proof fn lemma_anchored(packets: Seq<u128>, count: int)
    ensures
        anchored(packets, count) <==> about_a_burst(packets, count),
{
    if anchored(packets, count) {
        let (i, j) = choose|i: int, j: int| #[trigger]
            super::burst::one_burst(packets, i, j) && super::burst::marks(i, j, count);
        assert forall|k: int| i <= k < j implies !#[trigger] gap(packets, k) by {
            assert(!super::burst::ends(packets, k));
        }
        assert(is_burst(packets, i, j));
    }
    if about_a_burst(packets, count) {
        let (i, j) = choose|i: int, j: int| #[trigger]
            is_burst(packets, i, j) && (count == i || count == (i + j + 2) / 2 || count == j + 1);
        assert forall|k: int| i <= k < j implies !#[trigger] super::burst::ends(packets, k) by {
            assert(!gap(packets, k));
        }
        assert(super::burst::one_burst(packets, i, j));
        assert(super::burst::marks(i, j, count));
    }
}

/// Whether a kill is of a service, about a burst that crossed it that way.
pub open spec fn shot_at(profile: ServiceProfileModel, shot: Shot) -> bool {
    &&& shot.service == profile.service
    &&& match shot.direction {
        Direction::ClientToUpstream => about_a_burst(profile.client_to_upstream, shot.count as int),
        Direction::UpstreamToClient => about_a_burst(profile.upstream_to_client, shot.count as int),
    }
}

proof fn lemma_shots_of(service: Seq<char>, direction: Direction, packets: Seq<u128>, shot: Shot)
    requires
        packets.len() <= u32::MAX,
    ensures
        shots_of(service, direction, packets).contains(shot) <==> shot.service == service
            && shot.direction == direction && about_a_burst(packets, shot.count as int),
{
    lemma_anchors(packets);
    lemma_anchored(packets, shot.count as int);
    let all = shots_of(service, direction, packets);
    if all.contains(shot) {
        let k = choose|k: int| 0 <= k < all.len() && all[k] == shot;
        assert(anchors(packets)[k] == shot.count);
        assert(anchors(packets).contains(shot.count));
    }
    if shot.service == service && shot.direction == direction && about_a_burst(
        packets,
        shot.count as int,
    ) {
        assert(anchors(packets).contains(shot.count));
        let k = choose|k: int| 0 <= k < anchors(packets).len() && anchors(packets)[k] == shot.count;
        assert(all[k] == shot);
    }
}

proof fn lemma_lists(profiles: Seq<ServiceProfileModel>)
    ensures
        shots(profiles).len() == 2 * profiles.len(),
        forall|p: int|
            #![trigger profiles[p]]
            0 <= p < profiles.len() ==> shots(profiles)[2 * p] == shots_of(
                profiles[p].service,
                Direction::ClientToUpstream,
                profiles[p].client_to_upstream,
            ) && shots(profiles)[2 * p + 1] == shots_of(
                profiles[p].service,
                Direction::UpstreamToClient,
                profiles[p].upstream_to_client,
            ),
    decreases profiles.len(),
{
    if profiles.len() > 0 {
        let fewer = profiles.drop_last();
        lemma_lists(fewer);
        assert forall|p: int|
            #![trigger profiles[p]]
            0 <= p < profiles.len() implies shots(profiles)[2 * p] == shots_of(
            profiles[p].service,
            Direction::ClientToUpstream,
            profiles[p].client_to_upstream,
        ) && shots(profiles)[2 * p + 1] == shots_of(
            profiles[p].service,
            Direction::UpstreamToClient,
            profiles[p].upstream_to_client,
        ) by {
            if p < fewer.len() {
                assert(fewer[p] == profiles[p]);
                assert(shots(profiles)[2 * p] == shots(fewer)[2 * p]);
                assert(shots(profiles)[2 * p + 1] == shots(fewer)[2 * p + 1]);
            }
        }
    }
}

/// A campaign kills every service before, in the middle of and behind every burst
/// that crossed it, each way, and nowhere else. Its schedules are numbered from
/// nothing on, in the order they come.
pub proof fn lemma_shots_are_about_bursts(profiles: Seq<ServiceProfileModel>)
    requires
        forall|p: int|
            0 <= p < profiles.len() ==> (#[trigger] profiles[p]).client_to_upstream.len()
                <= u32::MAX && profiles[p].upstream_to_client.len() <= u32::MAX,
        campaign(profiles).len() <= u32::MAX,
    ensures
        forall|shot: Shot| #[trigger]
            campaign(profiles).contains(shot) <==> exists|p: int|
                0 <= p < profiles.len() && shot_at(#[trigger] profiles[p], shot),
        schedules_of(campaign(profiles)).len() == campaign(profiles).len(),
        forall|k: int|
            0 <= k < campaign(profiles).len() ==> {
                let schedule = #[trigger] schedules_of(campaign(profiles))[k];
                &&& schedule.schedule_id == k
                &&& schedule.service == campaign(profiles)[k].service
                &&& schedule.direction == campaign(profiles)[k].direction
                &&& schedule.fault_packet_index == campaign(profiles)[k].count
                &&& schedule.payload.len() == 0
            },
{
    let lists = shots(profiles);
    lemma_lists(profiles);
    assert forall|shot: Shot| #[trigger] campaign(profiles).contains(shot) <==> exists|p: int|
        0 <= p < profiles.len() && shot_at(#[trigger] profiles[p], shot) by {
        if campaign(profiles).contains(shot) {
            lemma_rounds_in_order(lists, longest(lists), longest(lists), shot);
            let (i, r) = choose|i: int, r: int|
                0 <= i < lists.len() && 0 <= r < longest(lists) && r < lists[i].len()
                    && #[trigger] lists[i][r] == shot;
            let p = i / 2;
            let profile = profiles[p];
            assert(lists[i].contains(shot));
            assert(i == 2 * p || i == 2 * p + 1);
            lemma_shots_of(
                profile.service,
                Direction::ClientToUpstream,
                profile.client_to_upstream,
                shot,
            );
            lemma_shots_of(
                profile.service,
                Direction::UpstreamToClient,
                profile.upstream_to_client,
                shot,
            );
            assert(shot_at(profiles[p], shot));
        }
        if exists|p: int| 0 <= p < profiles.len() && shot_at(#[trigger] profiles[p], shot) {
            let p = choose|p: int| 0 <= p < profiles.len() && shot_at(#[trigger] profiles[p], shot);
            let profile = profiles[p];
            lemma_shots_of(
                profile.service,
                Direction::ClientToUpstream,
                profile.client_to_upstream,
                shot,
            );
            lemma_shots_of(
                profile.service,
                Direction::UpstreamToClient,
                profile.upstream_to_client,
                shot,
            );
            let i = if shot.direction == Direction::ClientToUpstream {
                2 * p
            } else {
                2 * p + 1
            };
            assert(lists[i].contains(shot));
            let r = choose|r: int| 0 <= r < lists[i].len() && lists[i][r] == shot;
            lemma_interleaving_keeps(lists, i, r);
        }
    }
}

proof fn lemma_grid(catalogue: Seq<SessionModel>, ceiling: int, each: int, s: int, i: int)
    requires
        0 <= s < catalogue.len(),
        0 <= i < each,
    ensures
        grid(catalogue, ceiling, each).len() == catalogue.len() * each,
        0 <= s * each + i < catalogue.len() * each,
        grid(catalogue, ceiling, each)[s * each + i] == row(catalogue[s], ceiling, each)[i],
    decreases catalogue.len(),
{
    let n = catalogue.len() - 1;
    let fewer = catalogue.drop_last();
    lemma_grid_len(fewer, ceiling, each);
    lemma_grid_len(catalogue, ceiling, each);
    assert((n + 1) * each == n * each + each) by (nonlinear_arith);
    if s < n {
        lemma_grid(fewer, ceiling, each, s, i);
        assert(s * each + i < n * each);
        assert(n * each <= (n + 1) * each);
    } else {
        assert(catalogue[s] == catalogue.last());
    }
}

proof fn lemma_grid_len(catalogue: Seq<SessionModel>, ceiling: int, each: int)
    requires
        0 <= each,
    ensures
        grid(catalogue, ceiling, each).len() == catalogue.len() * each,
    decreases catalogue.len(),
{
    if catalogue.len() > 0 {
        lemma_grid_len(catalogue.drop_last(), ceiling, each);
        let n = catalogue.len() - 1;
        assert((n + 1) * each == n * each + each) by (nonlinear_arith);
    } else {
        assert(0 * each == 0) by (nonlinear_arith);
    }
}

/// Every session is killed as often as every other, one session after another. The
/// kills of one are as far apart as each other, from when it opened on: the `i`th of
/// them that many parts of the time it was observed for.
pub proof fn lemma_sessions_killed_alike(
    catalogue: Seq<SessionModel>,
    run_cost: nat,
    total_budget: nat,
    s: int,
    i: int,
)
    requires
        0 <= s < catalogue.len(),
        0 <= i < per_session(catalogue.len(), run_cost, total_budget),
    ensures
        ({
            let each = per_session(catalogue.len(), run_cost, total_budget);
            let all = super::session_derived::campaign(catalogue, run_cost, total_budget);
            let span = observed_for(catalogue[s], last_ended(catalogue, run_cost));
            &&& all.len() == catalogue.len() * each
            &&& 0 <= s * each + i < all.len()
            &&& all[s * each + i].0 == catalogue[s]
            &&& all[s * each + i].1 * each <= span * i < (all[s * each + i].1 + 1) * each
        }),
{
    let each = per_session(catalogue.len(), run_cost, total_budget);
    let ceiling = last_ended(catalogue, run_cost);
    lemma_grid(catalogue, ceiling, each, s, i);
    let span = lifetime(catalogue[s], ceiling);
    let offset = span * i / each;
    assert(offset * each <= span * i < (offset + 1) * each) by (nonlinear_arith)
        requires
            each > 0,
            offset == span * i / each,
    ;
}

/// How long a session was observed for: until it closed, or until the last of them
/// ended where it did not.
pub open spec fn observed_for(session: SessionModel, ceiling: int) -> int {
    let end = if session.closed_ns is Some {
        session.closed_ns->0 as int
    } else {
        ceiling
    };
    if end < session.opened_ns {
        0
    } else {
        end - session.opened_ns
    }
}

/// As many kills are made as the time there is allows, the same of every session,
/// and at least one of each.
pub proof fn lemma_budget_split(sessions: nat, run_cost: nat, total_budget: nat)
    requires
        sessions > 0,
    ensures
        per_session(sessions, run_cost, total_budget) >= 1,
        per_session(sessions, run_cost, total_budget) > 1 && run_cost > 0 ==> per_session(
            sessions,
            run_cost,
            total_budget,
        ) * sessions * run_cost <= total_budget,
        run_cost > 0 ==> total_budget < (per_session(sessions, run_cost, total_budget) + 1)
            * sessions * run_cost,
{
    let cost = at_least_one(run_cost as int);
    let whole = total_budget as int / cost;
    let total = at_least_one(whole);
    let n = sessions as int;
    let each = total / n;
    let got = at_least_one(each);
    assert(whole * cost <= total_budget < (whole + 1) * cost) by (nonlinear_arith)
        requires
            cost > 0,
            whole == total_budget as int / cost,
    ;
    assert(each * n <= total < (each + 1) * n) by (nonlinear_arith)
        requires
            n > 0,
            each == total / n,
    ;
    if run_cost > 0 {
        if got > 1 {
            assert(got * n * cost <= total_budget) by (nonlinear_arith)
                requires
                    got * n <= whole,
                    whole * cost <= total_budget,
                    cost > 0,
            {
                assert((got * n) * cost <= whole * cost);
            }
        }
        assert(total_budget < (got + 1) * n * cost) by (nonlinear_arith)
            requires
                total_budget < (whole + 1) * cost,
                whole <= total,
                total + 1 <= (each + 1) * n,
                each <= got,
                n > 0,
                cost > 0,
        {
            assert((each + 1) * n <= (got + 1) * n);
            assert((whole + 1) * cost <= ((got + 1) * n) * cost);
        }
    }
}

/// The last of the sessions ended no sooner than any of them, and when one of them
/// did. One that was still open is taken to have ended a run behind its opening.
pub proof fn lemma_last_to_end(catalogue: Seq<SessionModel>, run_cost: nat)
    requires
        catalogue.len() > 0,
    ensures
        forall|s: int|
            0 <= s < catalogue.len() ==> ended(#[trigger] catalogue[s], run_cost) <= last_ended(
                catalogue,
                run_cost,
            ),
        last_ended(catalogue, run_cost) == 0 || exists|s: int|
            0 <= s < catalogue.len() && ended(#[trigger] catalogue[s], run_cost) == last_ended(
                catalogue,
                run_cost,
            ),
        forall|s: int|
            0 <= s < catalogue.len() ==> ended(#[trigger] catalogue[s], run_cost) == (
            if catalogue[s].closed_ns is Some {
                catalogue[s].closed_ns->0 as int
            } else if run_cost == 0 {
                catalogue[s].opened_ns + 1
            } else {
                catalogue[s].opened_ns + run_cost
            }),
    decreases catalogue.len(),
{
    let fewer = catalogue.drop_last();
    assert(catalogue[catalogue.len() - 1] == catalogue.last());
    if fewer.len() > 0 {
        lemma_last_to_end(fewer, run_cost);
        assert forall|s: int| 0 <= s < catalogue.len() implies ended(
            #[trigger] catalogue[s],
            run_cost,
        ) <= last_ended(catalogue, run_cost) by {
            if s < fewer.len() {
                assert(fewer[s] == catalogue[s]);
            }
        }
        if last_ended(catalogue, run_cost) != 0 {
            if last_ended(catalogue, run_cost) == last_ended(fewer, run_cost) {
                let s = choose|s: int|
                    0 <= s < fewer.len() && ended(#[trigger] fewer[s], run_cost) == last_ended(
                        fewer,
                        run_cost,
                    );
                assert(ended(catalogue[s], run_cost) == last_ended(catalogue, run_cost));
            }
        }
    } else {
        assert(last_ended(fewer, run_cost) == 0);
    }
}

} // verus!
