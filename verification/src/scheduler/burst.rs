//! Burst scheduler: for each burst of packets a service exchanged (per
//! direction), anchor kills at the burst's edges, just before its first
//! packet, at its midpoint, and just after its last packet. Anchors are packet
//! counts, so a kill fires relative to observed traffic rather than a wall
//! clock. Schedules are emitted round-robin across `(service, direction)` so a
//! budget-truncated campaign samples every edge evenly rather than exhausting
//! one service and never reaching another.

use vstd::prelude::*;

use std::collections::VecDeque;

use super::{PacketSchedule, Schedule};
use crate::protocol::{Direction, ServiceProfile, ServiceProfileModel};
use crate::turns::{interleaved, longest, round_of};

verus! {

/// Consecutive packets more than this far apart start a new burst.
pub const BURST_GAP_NS: u128 = 20_000_000;

/// Whether the packets are in the order they crossed.
pub open spec fn in_order(packets: Seq<u128>) -> bool {
    forall|i: int, j: int| 0 <= i <= j < packets.len() ==> packets[i] <= packets[j]
}

/// Whether a burst ends with the packet at `j`.
pub open spec fn ends(packets: Seq<u128>, j: int) -> bool {
    j + 1 == packets.len() || packets[j + 1] - packets[j] > BURST_GAP_NS
}

/// Whether the packets from `i` to `j` are one burst.
pub open spec fn one_burst(packets: Seq<u128>, i: int, j: int) -> bool {
    &&& 0 <= i <= j < packets.len()
    &&& i == 0 || ends(packets, i - 1)
    &&& ends(packets, j)
    &&& forall|k: int| i <= k < j ==> !#[trigger] ends(packets, k)
}

/// Whether `k` is before, in the middle of or after the burst from `i` to `j`.
/// A count `k` means "freeze once `k` packets have crossed", so `i` lands just
/// before the burst and `j + 1` just after it.
pub open spec fn marks(i: int, j: int, k: int) -> bool {
    k == i || k == (i + j + 2) / 2 || k == j + 1
}

/// Whether a kill is anchored at the count `k`.
pub open spec fn anchored(packets: Seq<u128>, k: int) -> bool {
    exists|i: int, j: int| #[trigger] one_burst(packets, i, j) && marks(i, j, k)
}

/// The counts up to `n` a kill is anchored at, in order.
pub open spec fn anchors_below(packets: Seq<u128>, n: nat) -> Seq<u32>
    decreases n,
{
    if n == 0 {
        Seq::empty()
    } else {
        let rest = anchors_below(packets, (n - 1) as nat);
        if anchored(packets, n - 1) {
            rest.push((n - 1) as u32)
        } else {
            rest
        }
    }
}

/// The counts a kill is anchored at, in order, each once.
pub open spec fn anchors(packets: Seq<u128>) -> Seq<u32> {
    anchors_below(packets, packets.len() + 1)
}

/// Cluster `packets` (sorted timestamps) into bursts by inter-packet gap and
/// return the before / during / after anchor packet counts, sorted and deduped.
/// A count `K` means "freeze once `K` packets have crossed": `K = first - 1`
/// lands just before a burst, `K = last` just after it.
pub fn burst_anchors(packets: &[u128]) -> (r: Vec<u32>)
    requires
        in_order(packets@),
        packets@.len() <= u32::MAX,
    ensures
        r@ == anchors(packets@),
{
    let n: usize = packets.len();
    let ghost seen = packets@;
    // Which counts short of the last packet are anchors. The count of every
    // packet is one wherever there is a packet.
    let mut marked: Vec<bool> = Vec::new();
    for filled in 0..n
        invariant
            marked@.len() == filled,
            forall|k: int| 0 <= k < filled ==> !#[trigger] marked@[k],
    {
        marked.push(false);
    }
    // 0-based index of the current burst's first packet.
    let mut start: usize = 0;
    for j in 0..n
        invariant
            seen == packets@,
            n == seen.len(),
            in_order(seen),
            marked@.len() == n,
            start <= j,
            j == n ==> start == n,
            start == 0 || ends(seen, start - 1),
            start > 0 ==> exists|i: int| #[trigger] one_burst(seen, i, start - 1),
            forall|k: int| start <= k < j ==> !#[trigger] ends(seen, k),
            forall|k: int|
                0 <= k < n ==> (#[trigger] marked@[k] <==> exists|i: int, e: int|
                    #[trigger] one_burst(seen, i, e) && e < j && marks(i, e, k)),
    {
        let ghost before = marked@;
        let ends_burst = if j == n - 1 {
            true
        } else {
            packets[j + 1] - packets[j] > BURST_GAP_NS
        };
        assert(ends_burst == ends(seen, j as int));
        if ends_burst {
            let mid: usize = start + (j - start) / 2 + 1;
            proof {
                assert(one_burst(seen, start as int, j as int));
                assert((start + j + 2) / 2 == mid);
            }
            marked.set(start, true);
            if mid < n {
                marked.set(mid, true);
            }
            if j + 1 < n {
                marked.set(j + 1, true);
            }
            proof {
                assert forall|k: int| 0 <= k < n implies (#[trigger] marked@[k] <==> exists|i: int, e: int|
                    #[trigger] one_burst(seen, i, e) && e < j + 1 && marks(i, e, k)) by {
                    if marks(start as int, j as int, k) {
                        assert(one_burst(seen, start as int, j as int));
                    } else {
                        assert(marked@[k] == before[k]);
                        if exists|i: int, e: int|
                            #[trigger] one_burst(seen, i, e) && e < j + 1 && marks(i, e, k) {
                            let (i, e) = choose|i: int, e: int|
                                #[trigger] one_burst(seen, i, e) && e < j + 1 && marks(i, e, k);
                            if e == j {
                                if i < start {
                                    assert(ends(seen, start - 1));
                                }
                                if i > start {
                                    assert(ends(seen, i - 1));
                                }
                            }
                            assert(e < j);
                        }
                    }
                }
                assert(one_burst(seen, start as int, (j + 1) - 1));
            }
            start = j + 1;
        } else {
            proof {
                assert forall|k: int| 0 <= k < n implies (#[trigger] marked@[k] <==> exists|i: int, e: int|
                    #[trigger] one_burst(seen, i, e) && e < j + 1 && marks(i, e, k)) by {
                    if exists|i: int, e: int|
                        #[trigger] one_burst(seen, i, e) && e < j + 1 && marks(i, e, k) {
                        let (i, e) = choose|i: int, e: int|
                            #[trigger] one_burst(seen, i, e) && e < j + 1 && marks(i, e, k);
                        assert(e < j);
                    }
                }
            }
        }
    }
    let mut out: Vec<u32> = Vec::new();
    for k in 0..n
        invariant
            n == seen.len(),
            n <= u32::MAX,
            marked@.len() == n,
            forall|k: int|
                0 <= k < n ==> (#[trigger] marked@[k] <==> exists|i: int, e: int|
                    #[trigger] one_burst(seen, i, e) && e < n && marks(i, e, k)),
            out@ == anchors_below(seen, k as nat),
    {
        assert(marked@[k as int] == anchored(seen, k as int));
        if marked[k] {
            out.push(k as u32);
        }
    }
    if n > 0 {
        proof {
            let i = choose|i: int| #[trigger] one_burst(seen, i, n - 1);
            assert(one_burst(seen, i, n - 1) && marks(i, n - 1, n as int));
        }
        out.push(n as u32);
    }
    out
}

proof fn lemma_anchors_below(packets: Seq<u128>, n: nat)
    requires
        n <= u32::MAX + 1,
    ensures
        forall|i: int, j: int|
            0 <= i < j < anchors_below(packets, n).len() ==> anchors_below(packets, n)[i]
                < anchors_below(packets, n)[j],
        forall|k: u32|
            #[trigger] anchors_below(packets, n).contains(k) <==> k < n && anchored(
                packets,
                k as int,
            ),
    decreases n,
{
    if n > 0 {
        lemma_anchors_below(packets, (n - 1) as nat);
        let rest = anchors_below(packets, (n - 1) as nat);
        let all = anchors_below(packets, n);
        assert forall|i: int, j: int| 0 <= i < j < all.len() implies all[i] < all[j] by {
            if j == rest.len() {
                assert(rest.contains(rest[i]));
            }
        }
        assert forall|k: u32| #[trigger] all.contains(k) <==> k < n && anchored(packets, k as int) by {
            if all.contains(k) {
                let i = choose|i: int| 0 <= i < all.len() && all[i] == k;
                if i < rest.len() {
                    assert(rest[i] == k);
                    assert(rest.contains(k));
                }
            }
            if k < n && anchored(packets, k as int) {
                if k < n - 1 {
                    assert(rest.contains(k));
                    let i = choose|i: int| 0 <= i < rest.len() && rest[i] == k;
                    assert(all[i] == k);
                } else {
                    assert(all[rest.len() as int] == k);
                }
            }
        }
    } else {
        assert(anchors_below(packets, n) =~= Seq::empty());
    }
}

/// The anchors are in order and each there once, and are exactly the counts
/// before, in the middle of and after each burst. There are none where, and only
/// where, nothing crossed.
pub proof fn lemma_anchors(packets: Seq<u128>)
    requires
        packets.len() <= u32::MAX,
    ensures
        forall|i: int, j: int| 0 <= i < j < anchors(packets).len() ==> anchors(packets)[i] < anchors(
            packets,
        )[j],
        forall|k: u32| #[trigger] anchors(packets).contains(k) <==> anchored(packets, k as int),
        anchors(packets).len() == 0 <==> packets.len() == 0,
{
    lemma_anchors_below(packets, packets.len() + 1);
    assert forall|k: u32| #[trigger] anchors(packets).contains(k) <==> anchored(packets, k as int) by {
        if anchored(packets, k as int) {
            let (i, j) = choose|i: int, j: int|
                #[trigger] one_burst(packets, i, j) && marks(i, j, k as int);
            assert(k <= packets.len());
        }
    }
    if packets.len() > 0 {
        lemma_first_burst(packets, 0);
        let j = choose|j: int| #[trigger] one_burst(packets, 0, j);
        assert(one_burst(packets, 0, j) && marks(0, j, 0));
        assert(anchors(packets).contains(0u32));
    } else {
        assert(anchors_below(packets, 0) =~= Seq::empty());
        assert(!anchored(packets, 0));
    }
}

/// Where something crossed there is a burst that begins with the first packet.
proof fn lemma_first_burst(packets: Seq<u128>, from: int)
    requires
        0 <= from < packets.len(),
        forall|k: int| 0 <= k < from ==> !#[trigger] ends(packets, k),
    ensures
        exists|j: int| #[trigger] one_burst(packets, 0, j),
    decreases packets.len() - from,
{
    if ends(packets, from) {
        assert(one_burst(packets, 0, from));
    } else {
        lemma_first_burst(packets, from + 1);
    }
}

/// One kill of a service: the direction whose packets are counted, and the
/// count.
pub struct Shot {
    pub service: Seq<char>,
    pub direction: Direction,
    pub count: u32,
}

/// The kills of one service that count packets one way.
pub open spec fn shots_of(service: Seq<char>, direction: Direction, packets: Seq<u128>) -> Seq<Shot> {
    anchors(packets).map_values(|count: u32| Shot { service, direction, count })
}

/// The kills of each service, one list for each way packets crossed.
pub open spec fn shots(profiles: Seq<ServiceProfileModel>) -> Seq<Seq<Shot>>
    decreases profiles.len(),
{
    if profiles.len() == 0 {
        Seq::empty()
    } else {
        let profile = profiles.last();
        shots(profiles.drop_last()).push(
            shots_of(profile.service, Direction::ClientToUpstream, profile.client_to_upstream),
        ).push(shots_of(profile.service, Direction::UpstreamToClient, profile.upstream_to_client))
    }
}

/// Every kill, each list's first before any list's second.
pub open spec fn campaign(profiles: Seq<ServiceProfileModel>) -> Seq<Shot> {
    interleaved(shots(profiles), longest(shots(profiles)))
}

/// The schedules that fire `shots`, numbered from zero.
pub open spec fn schedules_of(shots: Seq<Shot>) -> Seq<PacketSchedule> {
    Seq::new(
        shots.len(),
        |i: int|
            PacketSchedule {
                schedule_id: i as u32,
                service: shots[i].service,
                direction: shots[i].direction,
                fault_packet_index: shots[i].count,
                payload: Seq::empty(),
            },
    )
}

/// Whether the packets of a profile are in order and few enough to be counted.
pub open spec fn countable(profile: ServiceProfileModel) -> bool {
    &&& in_order(profile.client_to_upstream)
    &&& in_order(profile.upstream_to_client)
    &&& profile.client_to_upstream.len() <= u32::MAX
    &&& profile.upstream_to_client.len() <= u32::MAX
}

/// Kills at the edges and the middle of every burst.
pub struct BurstScheduler {
    total: usize,
    schedules: VecDeque<Schedule>,
}

/// The anchors of one way packets crossed one service.
struct Anchored<'a> {
    service: &'a String,
    direction: Direction,
    anchors: Vec<u32>,
}

impl<'a> Anchored<'a> {
    spec fn shots(&self) -> Seq<Shot> {
        self.anchors@.map_values(
            |count: u32| Shot { service: self.service@, direction: self.direction, count },
        )
    }
}

spec fn all_shots(anchored: Seq<Anchored<'_>>) -> Seq<Seq<Shot>> {
    anchored.map_values(|edge: Anchored<'_>| edge.shots())
}

proof fn lemma_interleaved_grows<T>(lists: Seq<Seq<T>>, rounds: nat, all: nat)
    requires
        rounds <= all,
    ensures
        interleaved(lists, rounds).len() <= interleaved(lists, all).len(),
    decreases all,
{
    if rounds < all {
        lemma_interleaved_grows(lists, rounds, (all - 1) as nat);
    }
}

proof fn lemma_round_grows<T>(lists: Seq<Seq<T>>, n: int, round: int)
    requires
        0 <= n <= lists.len(),
    ensures
        round_of(lists.take(n), round).len() <= round_of(lists, round).len(),
    decreases lists.len() - n,
{
    if n == lists.len() {
        assert(lists.take(n) =~= lists);
    } else {
        lemma_round_grows(lists, n + 1, round);
        assert(lists.take(n + 1).drop_last() =~= lists.take(n));
    }
}

impl BurstScheduler {
    /// The schedules still to come, in order.
    pub closed spec fn upcoming(&self) -> Seq<PacketSchedule> {
        self.schedules.deep_view()
    }

    /// How many schedules there were to start with.
    pub closed spec fn counted(&self) -> nat {
        self.total as nat
    }

    /// Build schedules from the per-service packet timestamps Learn observed.
    /// Each direction's packets are clustered into bursts; each burst yields a
    /// before / during / after anchor, deduped per direction.
    pub fn new(profiles: &[ServiceProfile]) -> (r: BurstScheduler)
        requires
            forall|i: int|
                0 <= i < profiles.deep_view().len() ==> countable(#[trigger] profiles.deep_view()[i]),
            campaign(profiles.deep_view()).len() <= u32::MAX,
        ensures
            r.upcoming() == schedules_of(campaign(profiles.deep_view())),
            r.counted() == campaign(profiles.deep_view()).len(),
    {
        let ghost model = profiles.deep_view();
        // (service, direction) -> sorted, deduped anchor packet counts.
        let mut anchored: Vec<Anchored<'_>> = Vec::new();
        let mut max_len: usize = 0;
        proof {
            assert(model.take(0) =~= Seq::empty());
            assert(all_shots(anchored@) =~= Seq::empty());
        }
        for i in 0..profiles.len()
            invariant
                model == profiles.deep_view(),
                forall|i: int| 0 <= i < model.len() ==> countable(#[trigger] model[i]),
                all_shots(anchored@) == shots(model.take(i as int)),
                max_len == longest(shots(model.take(i as int))),
        {
            let profile = &profiles[i];
            let ghost before = all_shots(anchored@);
            proof {
                assert(model[i as int] == profile.deep_view());
                assert(model.take(i + 1).drop_last() =~= model.take(i as int));
                assert(model.take(i + 1).last() == profile.deep_view());
            }
            let out = Anchored {
                service: &profile.service,
                direction: Direction::ClientToUpstream,
                anchors: burst_anchors(profile.client_to_upstream.as_slice()),
            };
            let back = Anchored {
                service: &profile.service,
                direction: Direction::UpstreamToClient,
                anchors: burst_anchors(profile.upstream_to_client.as_slice()),
            };
            let ghost first = out.shots();
            let ghost second = back.shots();
            proof {
                assert(first =~= shots_of(
                    profile.service@,
                    Direction::ClientToUpstream,
                    profile.client_to_upstream@,
                ));
                assert(second =~= shots_of(
                    profile.service@,
                    Direction::UpstreamToClient,
                    profile.upstream_to_client@,
                ));
                assert(before.push(first).drop_last() =~= before);
                assert(before.push(first).push(second).drop_last() =~= before.push(first));
                assert(longest(before.push(first)) == if first.len() > longest(before) {
                    first.len()
                } else {
                    longest(before)
                });
                assert(shots(model.take(i + 1)) == before.push(first).push(second));
            }
            if out.anchors.len() > max_len {
                max_len = out.anchors.len();
            }
            if back.anchors.len() > max_len {
                max_len = back.anchors.len();
            }
            anchored.push(out);
            assert(all_shots(anchored@) =~= before.push(first));
            anchored.push(back);
            assert(all_shots(anchored@) =~= before.push(first).push(second));
        }
        proof {
            assert(model.take(model.len() as int) =~= model);
        }
        let ghost lists = shots(model);
        // Round-robin across (service, direction): emit each edge's Nth anchor
        // before moving to its N+1th, so a truncated campaign covers every edge.
        let mut schedules: VecDeque<Schedule> = VecDeque::new();
        let mut next_id: u64 = 0;
        assert(schedules.deep_view() =~= schedules_of(interleaved(lists, 0)));
        for round in 0..max_len
            invariant
                lists == all_shots(anchored@),
                max_len == longest(lists),
                campaign(model).len() <= u32::MAX,
                campaign(model) == interleaved(lists, max_len as nat),
                next_id == interleaved(lists, round as nat).len(),
                schedules.deep_view() == schedules_of(interleaved(lists, round as nat)),
        {
            let ghost before = interleaved(lists, round as nat);
            proof {
                lemma_interleaved_grows(lists, round as nat + 1, max_len as nat);
                assert(lists.take(0) =~= Seq::empty());
                assert(before + round_of(lists.take(0), round as int) =~= before);
            }
            for e in 0..anchored.len()
                invariant
                    lists == all_shots(anchored@),
                    before == interleaved(lists, round as nat),
                    before.len() + round_of(lists, round as int).len() <= u32::MAX,
                    next_id == before.len() + round_of(lists.take(e as int), round as int).len(),
                    schedules.deep_view() == schedules_of(
                        before + round_of(lists.take(e as int), round as int),
                    ),
            {
                let ghost so_far = schedules.deep_view();
                let ghost here = round_of(lists.take(e as int), round as int);
                proof {
                    assert(lists.take(e + 1).drop_last() =~= lists.take(e as int));
                    assert(lists.take(e + 1).last() == anchored@[e as int].shots());
                    lemma_round_grows(lists, e + 1, round as int);
                }
                let edge = &anchored[e];
                if round < edge.anchors.len() {
                    let schedule = Schedule {
                        schedule_id: next_id as u32,
                        service: edge.service.clone(),
                        direction: edge.direction,
                        fault_packet_index: edge.anchors[round],
                        payload: Vec::new(),
                    };
                    let ghost added = schedule.deep_view();
                    schedules.push_back(schedule);
                    next_id += 1;
                    proof {
                        let shot = edge.shots()[round as int];
                        assert(before + here.push(shot) =~= (before + here).push(shot));
                        assert(schedules.deep_view() =~= so_far.push(added));
                        assert(added.payload =~= Seq::empty());
                        assert(so_far.push(added) =~= schedules_of((before + here).push(shot)));
                    }
                }
            }
            assert(lists.take(lists.len() as int) =~= lists);
        }
        let total = schedules.len();
        BurstScheduler { total, schedules }
    }

    /// Total schedules generated, for coverage reporting against how many the
    /// runner actually dispatched within its wall-clock budget.
    pub fn total(&self) -> (r: usize)
        ensures
            r == self.counted(),
    {
        self.total
    }

    /// The next schedule, or `None` once every one has been handed out.
    pub fn next(&mut self) -> (r: Option<Schedule>)
        ensures
            match r {
                Some(schedule) => {
                    &&& old(self).upcoming().len() > 0
                    &&& schedule.deep_view() == old(self).upcoming()[0]
                    &&& final(self).upcoming() == old(self).upcoming().skip(1)
                },
                None => {
                    &&& old(self).upcoming().len() == 0
                    &&& final(self).upcoming().len() == 0
                },
            },
            final(self).counted() == old(self).counted(),
    {
        let ghost before = self.schedules.deep_view();
        let r = self.schedules.pop_front();
        proof {
            if r is Some {
                assert(self.schedules.deep_view() =~= before.skip(1));
            }
        }
        r
    }
}

} // verus!
