//! What a catalogue of traffic comes to, said of the connections it was read from.

use vstd::prelude::*;

use crate::protocol::{
    Burst, ConnId, Direction, EdgeModel, EdgeProfileModel, EventKindModel, EventModel,
    SessionModel, WriteRecord,
};
use crate::proxy_log::{
    burst, bursts_from, carried, catalogue, conn_of, crossed, crossings, dialler, earlier,
    edge_before, edge_of, holder, is_conn, lemma_bursts_tile, opened_before, profile_of, seen_edges,
    times, without, Address, CrossingModel, SessionsModel,
};
use crate::sorting::{lemma_sorted_in_order, lemma_sorted_keeps, stable_sorted};
use crate::text::{text_order, Order};

verus! {

/// Whether that is who dialled from that address: the first service said to hold
/// it, or nobody of the fleet.
pub open spec fn dialled(
    addresses: Seq<(Address, Seq<char>)>,
    peer: Option<Address>,
    client: Option<Seq<char>>,
) -> bool {
    match peer {
        None => client is None,
        Some(address) => match client {
            None => held_by_none(addresses, address),
            Some(name) => held_first(addresses, address, name),
        },
    }
}

/// Whether no service is said to hold that address.
pub open spec fn held_by_none(addresses: Seq<(Address, Seq<char>)>, address: Address) -> bool {
    forall|k: int| 0 <= k < addresses.len() ==> (#[trigger] addresses[k]).0 != address
}

/// Whether that is the first service said to hold that address.
pub open spec fn held_first(
    addresses: Seq<(Address, Seq<char>)>,
    address: Address,
    name: Seq<char>,
) -> bool {
    exists|k: int| #[trigger] first_held(addresses, address, name, k)
}

/// Whether the service at `k` is the first that holds that address.
pub open spec fn first_held(
    addresses: Seq<(Address, Seq<char>)>,
    address: Address,
    name: Seq<char>,
    k: int,
) -> bool {
    &&& 0 <= k < addresses.len()
    &&& addresses[k] == (address, name)
    &&& forall|h: int| 0 <= h < k ==> (#[trigger] addresses[h]).0 != address
}

proof fn lemma_holder(addresses: Seq<(Address, Seq<char>)>, address: Address)
    ensures
        holder(addresses, address) is Some ==> held_first(
            addresses,
            address,
            holder(addresses, address)->0,
        ),
        holder(addresses, address) is None ==> held_by_none(addresses, address),
    decreases addresses.len(),
{
    if addresses.len() == 0 {
        assert(holder(addresses, address) is None);
    } else {
        let rest = addresses.skip(1);
        if addresses[0].0 == address {
            assert(holder(addresses, address) == Some(addresses[0].1));
            assert(first_held(addresses, address, addresses[0].1, 0));
        } else {
            lemma_holder(rest, address);
            assert(holder(addresses, address) == holder(rest, address));
            match holder(rest, address) {
                Some(name) => {
                    let k = choose|k: int| #[trigger] first_held(rest, address, name, k);
                    assert(rest[k] == addresses[k + 1]);
                    assert forall|h: int| 0 <= h < k + 1 implies (#[trigger] addresses[h]).0
                        != address by {
                        if h > 0 {
                            assert(rest[h - 1] == addresses[h]);
                        }
                    }
                    assert(first_held(addresses, address, name, k + 1));
                },
                None => {
                    assert forall|k: int| 0 <= k < addresses.len() implies (
                    #[trigger] addresses[k]).0 != address by {
                        if k > 0 {
                            assert(rest[k - 1] == addresses[k]);
                        }
                    }
                },
            }
        }
    }
}

proof fn lemma_dialled(addresses: Seq<(Address, Seq<char>)>, peer: Option<Address>)
    ensures
        dialled(addresses, peer, dialler(addresses, peer)),
{
    if let Some(address) = peer {
        lemma_holder(addresses, address);
    }
}

/// Whether a packet is that write of that connection: it crossed to the service
/// the connection is of, from whoever dialled, the way it was written, and as
/// long after the start as it was written.
pub open spec fn is_packet(
    session: SessionModel,
    peer: Option<Address>,
    addresses: Seq<(Address, Seq<char>)>,
    start: u128,
    w: int,
    packet: CrossingModel,
) -> bool {
    &&& 0 <= w < session.writes.len()
    &&& session.writes[w].ts_ns == start + packet.at
    &&& session.writes[w].direction == packet.direction
    &&& packet.edge.upstream == session.service
    &&& dialled(addresses, peer, packet.edge.client)
}

/// What crossed in one connection is what was written in it from the start on, in
/// the order it was written.
pub proof fn lemma_one_connection(
    session: SessionModel,
    peer: Option<Address>,
    addresses: Seq<(Address, Seq<char>)>,
    start: u128,
)
    ensures
        ({
            let packets = crossed(edge_of(session, peer, addresses), session.writes, start);
            let written = session.writes.filter(|write: WriteRecord| write.ts_ns >= start);
            &&& packets.len() == written.len()
            &&& forall|k: int|
                0 <= k < packets.len() ==> {
                    let packet = #[trigger] packets[k];
                    &&& written[k].ts_ns == start + packet.at
                    &&& written[k].direction == packet.direction
                    &&& packet.edge.upstream == session.service
                    &&& dialled(addresses, peer, packet.edge.client)
                }
        }),
{
    lemma_dialled(addresses, peer);
    lemma_crossed(edge_of(session, peer, addresses), session.writes, start);
}

proof fn lemma_crossed(edge: EdgeModel, writes: Seq<WriteRecord>, start: u128)
    ensures
        ({
            let packets = crossed(edge, writes, start);
            let written = writes.filter(|write: WriteRecord| write.ts_ns >= start);
            &&& packets.len() == written.len()
            &&& forall|k: int|
                0 <= k < packets.len() ==> {
                    let packet = #[trigger] packets[k];
                    &&& written[k].ts_ns == start + packet.at
                    &&& written[k].direction == packet.direction
                    &&& packet.edge == edge
                }
        }),
    decreases writes.len(),
{
    reveal(Seq::filter);
    if writes.len() > 0 {
        lemma_crossed(edge, writes.drop_last(), start);
    }
}

/// A packet is in what crossed the fleet exactly where some connection has a write
/// that is that packet, from the start on.
pub proof fn lemma_packets_are_writes(
    sessions: Seq<SessionModel>,
    peers: Seq<Option<Address>>,
    addresses: Seq<(Address, Seq<char>)>,
    start: u128,
)
    requires
        sessions.len() <= peers.len(),
    ensures
        forall|packet: CrossingModel| #[trigger]
            crossings(sessions, peers, addresses, start).contains(packet) <==> exists|s: int, w: int|
                0 <= s < sessions.len() && #[trigger] is_packet(
                    sessions[s],
                    peers[s],
                    addresses,
                    start,
                    w,
                    packet,
                ),
    decreases sessions.len(),
{
    let all = crossings(sessions, peers, addresses, start);
    assert forall|packet: CrossingModel| #[trigger] all.contains(packet) <==> exists|s: int, w: int|
        0 <= s < sessions.len() && #[trigger] is_packet(
            sessions[s],
            peers[s],
            addresses,
            start,
            w,
            packet,
        ) by {
        if sessions.len() > 0 {
            let n = sessions.len() - 1;
            let fewer = sessions.drop_last();
            lemma_packets_are_writes(fewer, peers, addresses, start);
            let rest = crossings(fewer, peers, addresses, start);
            let here = crossed(edge_of(sessions[n], peers[n], addresses), sessions[n].writes, start);
            vstd::seq_lib::lemma_seq_concat_contains_all_elements(rest, here, packet);
            lemma_packets_here(sessions[n], peers[n], addresses, start, packet);
            if rest.contains(packet) {
                let (s, w) = choose|s: int, w: int|
                    0 <= s < fewer.len() && #[trigger] is_packet(
                        fewer[s],
                        peers[s],
                        addresses,
                        start,
                        w,
                        packet,
                    );
                assert(is_packet(sessions[s], peers[s], addresses, start, w, packet));
            }
            if here.contains(packet) {
                let w = choose|w: int| #[trigger]
                    is_packet(sessions[n], peers[n], addresses, start, w, packet);
                assert(is_packet(sessions[n], peers[n], addresses, start, w, packet));
            }
            if exists|s: int, w: int|
                0 <= s < sessions.len() && #[trigger] is_packet(
                    sessions[s],
                    peers[s],
                    addresses,
                    start,
                    w,
                    packet,
                ) {
                let (s, w) = choose|s: int, w: int|
                    0 <= s < sessions.len() && #[trigger] is_packet(
                        sessions[s],
                        peers[s],
                        addresses,
                        start,
                        w,
                        packet,
                    );
                if s < n {
                    assert(is_packet(fewer[s], peers[s], addresses, start, w, packet));
                }
            }
        }
    }
}

proof fn lemma_dialled_once(
    addresses: Seq<(Address, Seq<char>)>,
    peer: Option<Address>,
    a: Option<Seq<char>>,
    b: Option<Seq<char>>,
)
    requires
        dialled(addresses, peer, a),
        dialled(addresses, peer, b),
    ensures
        a == b,
{
    if let Some(address) = peer {
        if let Some(x) = a {
            let i = choose|k: int| #[trigger] first_held(addresses, address, x, k);
            assert(addresses[i].0 == address);
            if let Some(y) = b {
                let j = choose|k: int| #[trigger] first_held(addresses, address, y, k);
                assert(addresses[j].0 == address);
                assert(i == j);
            }
        } else if let Some(y) = b {
            let j = choose|k: int| #[trigger] first_held(addresses, address, y, k);
            assert(addresses[j].0 == address);
        }
    }
}

proof fn lemma_packets_here(
    session: SessionModel,
    peer: Option<Address>,
    addresses: Seq<(Address, Seq<char>)>,
    start: u128,
    packet: CrossingModel,
)
    ensures
        crossed(edge_of(session, peer, addresses), session.writes, start).contains(packet)
            <==> exists|w: int| #[trigger]
            is_packet(session, peer, addresses, start, w, packet),
{
    let edge = edge_of(session, peer, addresses);
    let packets = crossed(edge, session.writes, start);
    let late = |write: WriteRecord| write.ts_ns >= start;
    let written = session.writes.filter(late);
    lemma_dialled(addresses, peer);
    lemma_crossed(edge, session.writes, start);
    if packets.contains(packet) {
        let k = choose|k: int| 0 <= k < packets.len() && packets[k] == packet;
        assert(written.contains(written[k]));
        session.writes.lemma_filter_contains_rev(late, written[k]);
        let w = choose|w: int| 0 <= w < session.writes.len() && session.writes[w] == written[k];
        assert(is_packet(session, peer, addresses, start, w, packet));
    }
    if exists|w: int| #[trigger] is_packet(session, peer, addresses, start, w, packet) {
        let w = choose|w: int| #[trigger]
            is_packet(session, peer, addresses, start, w, packet);
        lemma_dialled_once(addresses, peer, packet.edge.client, edge.client);
        session.writes.lemma_filter_contains(late, w);
        let k = choose|k: int| 0 <= k < written.len() && written[k] == session.writes[w];
        assert(packets[k] == packet);
    }
}

/// When packets crossed an edge one way is when each of them did that crossed that
/// edge that way, in the order they were read.
pub proof fn lemma_times(packets: Seq<CrossingModel>, edge: EdgeModel, direction: Direction)
    ensures
        ({
            let there = packets.filter(
                |packet: CrossingModel| packet.edge == edge && packet.direction == direction,
            );
            &&& times(packets, edge, direction).len() == there.len()
            &&& forall|k: int|
                0 <= k < there.len() ==> #[trigger] times(packets, edge, direction)[k]
                    == there[k].at
        }),
    decreases packets.len(),
{
    reveal(Seq::filter);
    if packets.len() > 0 {
        lemma_times(packets.drop_last(), edge, direction);
    }
}

proof fn lemma_seen(packets: Seq<CrossingModel>)
    ensures
        forall|edge: EdgeModel| #[trigger]
            seen_edges(packets).contains(edge) <==> exists|k: int|
                0 <= k < packets.len() && (#[trigger] packets[k]).edge == edge,
        forall|i: int, j: int|
            0 <= i < j < seen_edges(packets).len() ==> #[trigger] seen_edges(packets)[i]
                != #[trigger] seen_edges(packets)[j],
    decreases packets.len(),
{
    if packets.len() > 0 {
        let fewer = packets.drop_last();
        lemma_seen(fewer);
        let rest = seen_edges(fewer);
        let all = seen_edges(packets);
        let last = packets.last().edge;
        assert forall|edge: EdgeModel| #[trigger] all.contains(edge) <==> exists|k: int|
            0 <= k < packets.len() && (#[trigger] packets[k]).edge == edge by {
            if rest.contains(edge) {
                let k = choose|k: int| 0 <= k < fewer.len() && (#[trigger] fewer[k]).edge == edge;
                assert(packets[k].edge == edge);
                let i = choose|i: int| 0 <= i < rest.len() && rest[i] == edge;
                assert(all[i] == edge);
            }
            if edge == last {
                assert(packets[packets.len() - 1].edge == edge);
                if !rest.contains(edge) {
                    assert(all[rest.len() as int] == edge);
                }
            }
            if exists|k: int| 0 <= k < packets.len() && (#[trigger] packets[k]).edge == edge {
                let k = choose|k: int|
                    0 <= k < packets.len() && (#[trigger] packets[k]).edge == edge;
                if k < fewer.len() {
                    assert(fewer[k].edge == edge);
                    assert(rest.contains(edge));
                }
            }
            if all.contains(edge) && !rest.contains(edge) {
                let i = choose|i: int| 0 <= i < all.len() && all[i] == edge;
                if i < rest.len() {
                    assert(rest[i] == edge);
                }
                assert(edge == last);
            }
        }
    }
}

/// Whether two packets are further apart than a burst holds together.
pub open spec fn apart(times: Seq<u128>, j: int) -> bool {
    times[j + 1] - times[j] > 20_000_000
}

/// Whether those are the bursts of packets that crossed at those times. They tile
/// the packets. Inside each no two packets that follow one another are further
/// apart than twenty milliseconds, and between two they are. Each counts its
/// packets and has its middle half way between its first packet and its last.
pub open spec fn are_the_bursts(times: Seq<u128>, bursts: Seq<Burst>) -> bool {
    &&& bursts.len() == 0 <==> times.len() == 0
    &&& bursts.len() > 0 ==> bursts[0].start == 0 && bursts.last().end == times.len()
    &&& forall|k: int| 0 < k < bursts.len() ==> (#[trigger] bursts[k]).start == bursts[k - 1].end
    &&& forall|k: int| 0 <= k < bursts.len() ==> one_run(times, #[trigger] bursts[k])
}

/// Whether a burst is a longest run of packets that are not apart.
pub open spec fn one_run(times: Seq<u128>, burst: Burst) -> bool {
    &&& 0 <= burst.start < burst.end <= times.len()
    &&& burst.packets == burst.end - burst.start
    &&& burst.mid == (burst.start + 1 + burst.end) / 2
    &&& burst.end < times.len() ==> apart(times, burst.end - 1)
    &&& forall|j: int| burst.start <= j < burst.end - 1 ==> !#[trigger] apart(times, j)
}

proof fn lemma_bursts(times: Seq<u128>)
    requires
        times.len() <= u32::MAX,
    ensures
        are_the_bursts(times, bursts_from(times, 0, 0)),
{
    if times.len() > 0 {
        lemma_bursts_tile(times);
        let all = bursts_from(times, 0, 0);
        assert forall|k: int| 0 <= k < all.len() implies one_run(times, #[trigger] all[k]) by {
            let burst = all[k];
            assert(crate::scheduler::burst::one_burst(times, burst.start as int, burst.end - 1));
            assert forall|j: int| burst.start <= j < burst.end - 1 implies !#[trigger] apart(
                times,
                j,
            ) by {
                assert(!crate::scheduler::burst::ends(times, j));
            }
        }
    }
}

/// Whether a profile says of an edge what crossed it each way.
pub open spec fn tells_of(packets: Seq<CrossingModel>, profile: EdgeProfileModel) -> bool {
    &&& profile.placements.len() == 0
    &&& carries(packets, profile.edge, Direction::ClientToUpstream, profile.client_to_upstream)
    &&& carries(packets, profile.edge, Direction::UpstreamToClient, profile.upstream_to_client)
}

/// Whether those are the bursts an edge carried one way: those of the times its
/// packets crossed it that way, put in order.
pub open spec fn carries(
    packets: Seq<CrossingModel>,
    edge: EdgeModel,
    direction: Direction,
    bursts: Seq<Burst>,
) -> bool {
    let there = packets.filter(
        |packet: CrossingModel| packet.edge == edge && packet.direction == direction,
    ).map_values(|packet: CrossingModel| packet.at);
    exists|sorted: Seq<u128>| #[trigger]
        are_the_bursts(sorted, bursts) && sorted.to_multiset() == there.to_multiset()
            && forall|i: int, j: int|
            0 <= i < j < sorted.len() ==> #[trigger] sorted[i] <= #[trigger] sorted[j]
}

proof fn lemma_carries(packets: Seq<CrossingModel>, edge: EdgeModel, direction: Direction)
    requires
        times(packets, edge, direction).len() <= u32::MAX,
    ensures
        carries(packets, edge, direction, carried(packets, edge, direction)),
{
    let there = packets.filter(
        |packet: CrossingModel| packet.edge == edge && packet.direction == direction,
    ).map_values(|packet: CrossingModel| packet.at);
    let when = times(packets, edge, direction);
    lemma_times(packets, edge, direction);
    assert(when =~= there);
    let sorted = stable_sorted(when, earlier());
    lemma_sorted_keeps(when, earlier());
    lemma_sorted_in_order(when, earlier());
    lemma_bursts(sorted);
    assert forall|i: int, j: int| 0 <= i < j < sorted.len() implies #[trigger] sorted[i]
        <= #[trigger] sorted[j] by {
        assert(!earlier()(sorted[j], sorted[i]));
    }
}

/// Whether one edge comes before another in a catalogue: a caller from outside the
/// fleet before any other, and then by name.
pub open spec fn listed_before(a: EdgeModel, b: EdgeModel) -> bool {
    ||| a.client is None && b.client is Some
    ||| a.client is None && b.client is None && text_order(a.upstream, b.upstream) == Order::Less
    ||| a.client is Some && b.client is Some && text_order(a.client->0, b.client->0) == Order::Less
    ||| a.client is Some && a.client == b.client && text_order(a.upstream, b.upstream)
        == Order::Less
}

/// A catalogue has every edge something crossed, and no other, each once, and says
/// of each what crossed it each way. An edge comes behind none that it is listed
/// before.
pub proof fn lemma_catalogue_is_the_traffic(
    sessions: Seq<SessionModel>,
    peers: Seq<Option<Address>>,
    addresses: Seq<(Address, Seq<char>)>,
    start: u128,
)
    requires
        crate::proxy_log::countable(crossings(sessions, peers, addresses, start)),
    ensures
        ({
            let packets = crossings(sessions, peers, addresses, start);
            let profiles = catalogue(sessions, peers, addresses, start);
            &&& forall|edge: EdgeModel|
                (exists|i: int| 0 <= i < profiles.len() && (#[trigger] profiles[i]).edge == edge)
                    <==> #[trigger] crosses(packets, edge)
            &&& forall|i: int| 0 <= i < profiles.len() ==> tells_of(packets, #[trigger] profiles[i])
            &&& profiles.len() == seen_edges(packets).len()
            &&& forall|i: int, j: int|
                0 <= i < j < seen_edges(packets).len() ==> #[trigger] seen_edges(packets)[i]
                    != #[trigger] seen_edges(packets)[j]
        }),
{
    broadcast use vstd::seq_lib::group_to_multiset_ensures;

    let packets = crossings(sessions, peers, addresses, start);
    let profiles = catalogue(sessions, peers, addresses, start);
    let edges = seen_edges(packets);
    let sorted = stable_sorted(edges, edge_before());
    lemma_seen(packets);
    lemma_sorted_keeps(edges, edge_before());
    assert forall|edge: EdgeModel|
        (exists|i: int| 0 <= i < profiles.len() && (#[trigger] profiles[i]).edge == edge)
            <==> #[trigger] crosses(packets, edge) by {
        assert(sorted.contains(edge) <==> sorted.to_multiset().contains(edge));
        assert(edges.contains(edge) <==> edges.to_multiset().contains(edge));
        if exists|i: int| 0 <= i < profiles.len() && (#[trigger] profiles[i]).edge == edge {
            let i = choose|i: int| 0 <= i < profiles.len() && (#[trigger] profiles[i]).edge == edge;
            assert(sorted[i] == edge);
            assert(sorted.contains(edge));
        }
        if crosses(packets, edge) {
            assert(edges.contains(edge));
            let i = choose|i: int| 0 <= i < sorted.len() && sorted[i] == edge;
            assert(profiles[i].edge == edge);
        }
    }
    assert forall|i: int| 0 <= i < profiles.len() implies tells_of(
        packets,
        #[trigger] profiles[i],
    ) by {
        let edge = sorted[i];
        assert(profiles[i] == profile_of(packets, edge));
        assert(times(packets, edge, Direction::ClientToUpstream).len() <= u32::MAX);
        assert(times(packets, edge, Direction::UpstreamToClient).len() <= u32::MAX);
        lemma_carries(packets, edge, Direction::ClientToUpstream);
        lemma_carries(packets, edge, Direction::UpstreamToClient);
    }
}

/// Whether something crossed an edge.
pub open spec fn crosses(packets: Seq<CrossingModel>, edge: EdgeModel) -> bool {
    exists|k: int| 0 <= k < packets.len() && (#[trigger] packets[k]).edge == edge
}

/// Edges are put in the order they are listed in.
pub proof fn lemma_edges_listed(a: EdgeModel, b: EdgeModel)
    ensures
        edge_before()(a, b) <==> listed_before(a, b),
{
}

/// Whether that is the connection an event is of.
pub open spec fn of_that(session: SessionModel, service: Seq<char>, id: ConnId) -> bool {
    session.service == service && session.conn_id == id
}

/// What an event does to a connection that was open: one that opens in its place or
/// fails ends it unheard of, one that closes ends it, and a write is one more.
/// Nothing else changes it, and no event of another connection does.
pub open spec fn stays_as(
    before: SessionModel,
    service: Seq<char>,
    event: EventModel,
    after: SessionModel,
) -> bool {
    if of_that(before, service, event.id) {
        match event.kind {
            EventKindModel::Opened { .. } => false,
            EventKindModel::Closed { .. } => false,
            EventKindModel::Failed { .. } => false,
            EventKindModel::Wrote { direction, bytes } => {
                &&& after.writes.len() == before.writes.len() + 1
                &&& after.writes.drop_last() == before.writes
                &&& after.writes.last() == (WriteRecord { ts_ns: event.ts_ns, direction, bytes })
                &&& after.service == before.service
                &&& after.conn_id == before.conn_id
                &&& after.peer == before.peer
                &&& after.opened_ns == before.opened_ns
                &&& after.closed_ns == before.closed_ns
            },
            _ => after == before,
        }
    } else {
        after == before
    }
}

/// Whether a connection is the one an event opens.
pub open spec fn opens_as(service: Seq<char>, event: EventModel, after: SessionModel) -> bool {
    &&& event.kind matches EventKindModel::Opened { peer } && after.peer == peer
    &&& of_that(after, service, event.id)
    &&& after.opened_ns == event.ts_ns
    &&& after.closed_ns is None
    &&& after.writes.len() == 0
}

/// Whether a connection is one that an event closes, with all that was known of
/// it.
pub open spec fn closes_as(
    before: SessionModel,
    service: Seq<char>,
    event: EventModel,
    after: SessionModel,
) -> bool {
    &&& event.kind is Closed
    &&& of_that(before, service, event.id)
    &&& after.closed_ns == Some(event.ts_ns)
    &&& after.service == before.service
    &&& after.conn_id == before.conn_id
    &&& after.peer == before.peer
    &&& after.opened_ns == before.opened_ns
    &&& after.writes == before.writes
}

proof fn lemma_found(opened: Seq<SessionModel>, service: Seq<char>, id: ConnId)
    ensures
        match conn_of(opened, service, id) {
            Some(session) => opened.contains(session) && of_that(session, service, id),
            None => forall|i: int|
                0 <= i < opened.len() ==> !of_that(#[trigger] opened[i], service, id),
        },
    decreases opened.len(),
{
    if opened.len() > 0 {
        let rest = opened.skip(1);
        lemma_found(rest, service, id);
        assert(opened[0] == opened[0]);
        match conn_of(rest, service, id) {
            Some(session) => {
                let i = choose|i: int| 0 <= i < rest.len() && rest[i] == session;
                assert(opened[i + 1] == session);
            },
            None => {
                assert forall|i: int| 0 <= i < opened.len() && !of_that(opened[0], service, id)
                    implies !of_that(#[trigger] opened[i], service, id) by {
                    if i > 0 {
                        assert(rest[i - 1] == opened[i]);
                    }
                }
            },
        }
    }
}

/// The connections that are open after an event are those that were and stay, and
/// the one it opens. Those that are finished are those that were, and the one it
/// closes.
pub proof fn lemma_one_event(sessions: SessionsModel, service: Seq<char>, event: EventModel)
    requires
        sessions.distinct(),
    ensures
        ({
            let then = sessions.accepting(service, event);
            &&& forall|after: SessionModel| #[trigger]
                then.opened.contains(after) <==> opens_as(service, event, after) || exists|i: int|
                    0 <= i < sessions.opened.len() && #[trigger] stays_as(
                        sessions.opened[i],
                        service,
                        event,
                        after,
                    )
            &&& forall|after: SessionModel| #[trigger]
                then.finished.contains(after) <==> sessions.finished.contains(after)
                    || exists|i: int|
                    0 <= i < sessions.opened.len() && #[trigger] closes_as(
                        sessions.opened[i],
                        service,
                        event,
                        after,
                    )
        }),
{
    let then = sessions.accepting(service, event);
    let opened = sessions.opened;
    assert forall|after: SessionModel| #[trigger] then.opened.contains(after) <==> opens_as(
        service,
        event,
        after,
    ) || exists|i: int|
        0 <= i < opened.len() && #[trigger] stays_as(opened[i], service, event, after) by {
        lemma_open_after(sessions, service, event, after);
    }
    assert forall|after: SessionModel| #[trigger] then.finished.contains(after)
        <==> sessions.finished.contains(after) || exists|i: int|
        0 <= i < opened.len() && #[trigger] closes_as(opened[i], service, event, after) by {
        lemma_finished_after(sessions, service, event, after);
    }
}

proof fn lemma_left_out(
    opened: Seq<SessionModel>,
    service: Seq<char>,
    id: ConnId,
    after: SessionModel,
)
    ensures
        without(opened, service, id).contains(after) <==> exists|i: int|
            0 <= i < opened.len() && #[trigger] opened[i] == after && !of_that(after, service, id),
{
    let others = |session: SessionModel| !is_conn(session, service, id);
    let left = without(opened, service, id);
    assert(left == opened.filter(others));
    if left.contains(after) {
        opened.lemma_filter_contains_rev(others, after);
        let k = choose|k: int| 0 <= k < left.len() && left[k] == after;
        opened.lemma_filter_pred(others, k);
        let i = choose|i: int| 0 <= i < opened.len() && opened[i] == after;
        assert(opened[i] == after);
    }
    if exists|i: int|
        0 <= i < opened.len() && #[trigger] opened[i] == after && !of_that(after, service, id) {
        let i = choose|i: int|
            0 <= i < opened.len() && #[trigger] opened[i] == after && !of_that(after, service, id);
        opened.lemma_filter_contains(others, i);
    }
}

proof fn lemma_open_after(
    sessions: SessionsModel,
    service: Seq<char>,
    event: EventModel,
    after: SessionModel,
)
    ensures
        sessions.accepting(service, event).opened.contains(after) <==> opens_as(
            service,
            event,
            after,
        ) || exists|i: int|
            0 <= i < sessions.opened.len() && #[trigger] stays_as(
                sessions.opened[i],
                service,
                event,
                after,
            ),
{
    let opened = sessions.opened;
    let then = sessions.accepting(service, event).opened;
    let left = without(opened, service, event.id);
    lemma_left_out(opened, service, event.id, after);
    lemma_found(opened, service, event.id);
    if left.contains(after) {
        let i = choose|i: int|
            0 <= i < opened.len() && #[trigger] opened[i] == after && !of_that(
                after,
                service,
                event.id,
            );
        assert(stays_as(opened[i], service, event, after));
    }
    match event.kind {
        EventKindModel::Opened { peer } => {
            let fresh = then.last();
            assert(then =~= left.push(fresh));
            if opens_as(service, event, after) {
                assert(after.writes =~= fresh.writes);
                assert(after == fresh);
                assert(then[left.len() as int] == after);
            }
            if left.contains(after) {
                let k = choose|k: int| 0 <= k < left.len() && left[k] == after;
                assert(then[k] == after);
            }
            if then.contains(after) {
                let k = choose|k: int| 0 <= k < then.len() && then[k] == after;
                if k < left.len() {
                    assert(left[k] == after);
                }
            }
            if exists|i: int|
                0 <= i < opened.len() && #[trigger] stays_as(opened[i], service, event, after) {
                let i = choose|i: int|
                    0 <= i < opened.len() && #[trigger] stays_as(opened[i], service, event, after);
                assert(opened[i] == after);
            }
        },
        EventKindModel::Wrote { direction, bytes } => {
            let write = WriteRecord { ts_ns: event.ts_ns, direction, bytes };
            if then.contains(after) {
                let i = choose|i: int| 0 <= i < then.len() && then[i] == after;
                assert(opened[i].writes.push(write).drop_last() =~= opened[i].writes);
                assert(stays_as(opened[i], service, event, after));
            }
            if exists|i: int|
                0 <= i < opened.len() && #[trigger] stays_as(opened[i], service, event, after) {
                let i = choose|i: int|
                    0 <= i < opened.len() && #[trigger] stays_as(opened[i], service, event, after);
                if of_that(opened[i], service, event.id) {
                    assert(after.writes =~= opened[i].writes.push(write));
                    assert(after == (SessionModel { writes: opened[i].writes.push(write), ..opened[i] }));
                }
                assert(then[i] == after);
            }
        },
        EventKindModel::Closed { .. } => {
            if exists|i: int|
                0 <= i < opened.len() && #[trigger] stays_as(opened[i], service, event, after) {
                let i = choose|i: int|
                    0 <= i < opened.len() && #[trigger] stays_as(opened[i], service, event, after);
                assert(opened[i] == after);
            }
            if conn_of(opened, service, event.id) is None && then.contains(after) {
                let i = choose|i: int| 0 <= i < opened.len() && opened[i] == after;
                assert(!of_that(opened[i], service, event.id));
            }
        },
        EventKindModel::Failed { .. } => {
            if exists|i: int|
                0 <= i < opened.len() && #[trigger] stays_as(opened[i], service, event, after) {
                let i = choose|i: int|
                    0 <= i < opened.len() && #[trigger] stays_as(opened[i], service, event, after);
                assert(opened[i] == after);
            }
        },
        _ => {
            if then.contains(after) {
                let i = choose|i: int| 0 <= i < opened.len() && opened[i] == after;
                assert(stays_as(opened[i], service, event, after));
            }
        },
    }
}

proof fn lemma_finished_after(
    sessions: SessionsModel,
    service: Seq<char>,
    event: EventModel,
    after: SessionModel,
)
    requires
        sessions.distinct(),
    ensures
        sessions.accepting(service, event).finished.contains(after) <==> sessions.finished.contains(
            after,
        ) || exists|i: int|
            0 <= i < sessions.opened.len() && #[trigger] closes_as(
                sessions.opened[i],
                service,
                event,
                after,
            ),
{
    let opened = sessions.opened;
    let then = sessions.accepting(service, event).finished;
    lemma_found(opened, service, event.id);
    if event.kind is Closed {
        match conn_of(opened, service, event.id) {
            Some(session) => {
                let ended = SessionModel { closed_ns: Some(event.ts_ns), ..session };
                assert(then =~= sessions.finished.push(ended));
                let at = choose|i: int| 0 <= i < opened.len() && opened[i] == session;
                assert(closes_as(opened[at], service, event, ended));
                assert(then[sessions.finished.len() as int] == ended);
                if sessions.finished.contains(after) {
                    let k = choose|k: int|
                        0 <= k < sessions.finished.len() && sessions.finished[k] == after;
                    assert(then[k] == after);
                }
                if then.contains(after) {
                    let k = choose|k: int| 0 <= k < then.len() && then[k] == after;
                    if k < sessions.finished.len() {
                        assert(sessions.finished[k] == after);
                    }
                }
                if exists|i: int|
                    0 <= i < opened.len() && #[trigger] closes_as(opened[i], service, event, after) {
                    let i = choose|i: int|
                        0 <= i < opened.len() && #[trigger] closes_as(
                            opened[i],
                            service,
                            event,
                            after,
                        );
                    if i < at {
                        assert(!is_conn(opened[i], opened[at].service, opened[at].conn_id));
                    } else if at < i {
                        assert(!is_conn(opened[at], opened[i].service, opened[i].conn_id));
                    }
                    assert(after == ended);
                }
            },
            None => {},
        }
    }
}

/// Connections are listed by when they opened, then by their service, then by
/// their number, and each is listed that is finished or open.
pub proof fn lemma_connections_listed(sessions: SessionsModel)
    ensures
        sessions.listed().to_multiset() == (sessions.finished + sessions.opened).to_multiset(),
        forall|a: SessionModel, b: SessionModel| #[trigger]
            opened_before()(a, b) <==> a.opened_ns < b.opened_ns || (a.opened_ns == b.opened_ns && (
            text_order(a.service, b.service) == Order::Less || (a.service == b.service && a.conn_id
                < b.conn_id))),
{
    lemma_sorted_keeps(sessions.finished + sessions.opened, opened_before());
}

} // verus!
