//! Sessions correlated from proxy events, and the traffic profiles they make.

use crucible::protocol::{Burst, ConnEvent, Direction, Edge, EdgeProfile, Session, WriteRecord};
use crucible::proxy_log::{
    bursts, edge_profiles_from_sessions, sample_to_frame, Address, Sessions, MAX_TOTAL_BURSTS,
};

const PEER: &str = "127.0.0.1:1";

fn v4(a: u8, b: u8, c: u8, d: u8) -> Address {
    Address::V4(u32::from_be_bytes([a, b, c, d]))
}

#[test]
fn a_single_packet_collapses_to_one_placeable_point() {
    let [burst] = bursts(&[1_000]).try_into().expect("one burst");
    assert_eq!((burst.start, burst.mid, burst.end), (0, 1, 1));
    assert_eq!(burst.packets, 1);
}

#[test]
fn proxy_log_contiguous_packets_are_one_burst() {
    let [burst] = bursts(&[1_000, 2_000, 3_000, 4_000])
        .try_into()
        .expect("one burst");
    assert_eq!((burst.start, burst.mid, burst.end), (0, 2, 4));
    assert_eq!(burst.packets, 4);
}

#[test]
fn a_gap_splits_bursts() {
    let packets = [1_000, 2_000, 100_000_000, 101_000_000];
    let [first, second] = bursts(&packets).try_into().expect("two bursts");
    assert_eq!((first.start, first.mid, first.end), (0, 1, 2));
    assert_eq!((second.start, second.mid, second.end), (2, 3, 4));
}

#[test]
fn bursts_tile_what_crossed() {
    let packets = [1, 2, 30_000_000, 60_000_000, 60_000_001];
    let found = bursts(&packets);
    assert_eq!(found.iter().map(|b| b.packets).sum::<u32>(), 5);
    assert_eq!(found[0].start, 0);
    for pair in found.windows(2) {
        assert_eq!(pair[0].end, pair[1].start);
    }
    assert_eq!(found[found.len() - 1].end, 5);
    assert!(bursts(&[]).is_empty());
}

#[test]
fn edge_profiles_split_by_direction_and_skip_pre_scenario_writes() {
    let session = Session {
        service: "db".into(),
        conn_id: 0,
        peer: PEER.to_string(),
        opened_ns: 0,
        closed_ns: None,
        writes: vec![
            // Before scenario start (50): ignored.
            WriteRecord {
                ts_ns: 10,
                direction: Direction::ClientToUpstream,
                bytes: 1,
            },
            // One client-to-upstream packet after start.
            WriteRecord {
                ts_ns: 100,
                direction: Direction::ClientToUpstream,
                bytes: 1,
            },
            // One upstream-to-client packet after start.
            WriteRecord {
                ts_ns: 120,
                direction: Direction::UpstreamToClient,
                bytes: 1,
            },
        ],
    };
    let addresses = [(v4(127, 0, 0, 1), "api".to_string())];
    let profiles =
        edge_profiles_from_sessions(&[session], &[Some(v4(127, 0, 0, 1))], 50, &addresses);
    assert_eq!(profiles.len(), 1);
    assert_eq!(profiles[0].edge.client.as_deref(), Some("api"));
    assert_eq!(profiles[0].edge.upstream, "db");
    // One post-start packet each direction, so one burst carrying it.
    assert_eq!(profiles[0].client_to_upstream.len(), 1);
    assert_eq!(profiles[0].client_to_upstream[0].packets, 1);
    assert_eq!(profiles[0].upstream_to_client.len(), 1);
    assert_eq!(profiles[0].upstream_to_client[0].packets, 1);
}

/// One packet on `at`, from `peer`, to `service`.
fn dialled(service: &str, peer: &str, at: u128) -> Session {
    Session {
        service: service.into(),
        conn_id: 0,
        peer: format!("{peer}:1"),
        opened_ns: 0,
        closed_ns: None,
        writes: vec![WriteRecord {
            ts_ns: at,
            direction: Direction::ClientToUpstream,
            bytes: 1,
        }],
    }
}

/// Two services dialling one upstream are two edges. Sharing a profile
/// would make `k` count another client's packets, so a fault would land
/// where the schedule never named.
#[test]
fn one_upstream_dialled_by_two_services_is_two_edges() {
    let addresses = [
        (v4(10, 0, 0, 1), "api".to_string()),
        (v4(10, 0, 0, 2), "inventory".to_string()),
    ];
    let sessions = [
        dialled("db", "10.0.0.1", 100),
        dialled("db", "10.0.0.2", 200),
    ];
    let peers = [Some(v4(10, 0, 0, 1)), Some(v4(10, 0, 0, 2))];
    let profiles = edge_profiles_from_sessions(&sessions, &peers, 0, &addresses);
    let clients: Vec<Option<&str>> = profiles
        .iter()
        .map(|profile| profile.edge.client.as_deref())
        .collect();
    assert_eq!(clients, [Some("api"), Some("inventory")]);
}

#[test]
fn a_peer_the_fleet_does_not_hold_dialled_from_outside_it() {
    let sessions = [dialled("api", "192.168.1.5", 100)];
    let peers = [Some(v4(192, 168, 1, 5))];
    let profiles = edge_profiles_from_sessions(&sessions, &peers, 0, &[]);
    assert_eq!(profiles[0].edge.client, None);
}

#[test]
fn a_catalogue_keeps_no_more_bursts_than_fit() {
    let gap: u128 = 100_000_000;
    let writes: Vec<WriteRecord> = (0..300u128)
        .map(|i| WriteRecord {
            ts_ns: i * gap,
            direction: Direction::ClientToUpstream,
            bytes: 1,
        })
        .collect();
    let mut session = dialled("db", "10.0.0.1", 0);
    session.writes = writes;
    let profiles = edge_profiles_from_sessions(&[session], &[None], 0, &[]);
    let kept: usize = profiles
        .iter()
        .map(|p| p.client_to_upstream.len() + p.upstream_to_client.len())
        .sum();
    assert_eq!(kept, MAX_TOTAL_BURSTS);
}

#[test]
fn writes_are_folded_into_session() {
    let mut sessions = Sessions::new();
    sessions.accept_event("db", ConnEvent::opened_at(0, 100, PEER.into()));
    sessions.accept_event(
        "db",
        ConnEvent::wrote_at(0, 150, Direction::ClientToUpstream, 32),
    );
    sessions.accept_event(
        "db",
        ConnEvent::wrote_at(0, 180, Direction::UpstreamToClient, 64),
    );
    sessions.accept_event("db", ConnEvent::closed_at(0, 200, 0, 0));
    let out: Vec<_> = sessions.into_sessions();
    assert_eq!(out.len(), 1);
    assert_eq!(out[0].writes.len(), 2);
    assert_eq!(out[0].writes[0].ts_ns, 150);
    assert_eq!(out[0].writes[0].direction, Direction::ClientToUpstream);
    assert_eq!(out[0].writes[0].bytes, 32);
}

#[test]
fn open_without_close_keeps_writes() {
    let out: Vec<_> = Sessions::from_events(vec![
        ("api".into(), ConnEvent::opened_at(0, 100, PEER.into())),
        (
            "api".into(),
            ConnEvent::wrote_at(0, 120, Direction::ClientToUpstream, 16),
        ),
    ])
    .into_sessions();
    assert_eq!(out.len(), 1);
    assert_eq!(out[0].closed_ns, None);
    assert_eq!(out[0].writes.len(), 1);
}

#[test]
fn failed_drops_pending() {
    let out: Vec<_> = Sessions::from_events(vec![
        ("api".into(), ConnEvent::opened_at(0, 100, PEER.into())),
        (
            "api".into(),
            ConnEvent::failed_at(0, 150, "upstream refused"),
        ),
    ])
    .into_sessions();
    assert!(out.is_empty());
}

/// Bursts of one packet, with a busy one of two every seventh.
fn uneven(many: u32) -> Vec<Burst> {
    let mut found = Vec::new();
    let mut start = 0;
    for i in 0..many {
        let packets = if i % 7 == 0 { 2 } else { 1 };
        found.push(Burst { start, mid: start + 1, end: start + packets, packets });
        start += packets;
    }
    found
}

/// Whether `few` is `many` with some left out.
fn left_of(few: &[Burst], many: &[Burst]) -> bool {
    let mut rest = many.iter();
    few.iter().all(|burst| rest.any(|other| other == burst))
}

#[test]
fn what_is_left_of_an_edge_keeps_its_order() {
    let held: Vec<(Vec<Burst>, Vec<Burst>)> = vec![(uneven(70), uneven(30)), (uneven(1), uneven(40))];
    let profiles: Vec<EdgeProfile> = held
        .iter()
        .map(|(sent, received)| EdgeProfile {
            edge: Edge { client: None, upstream: "db".into() },
            placements: Vec::new(),
            client_to_upstream: sent.clone(),
            upstream_to_client: received.clone(),
        })
        .collect();
    let left = sample_to_frame(profiles);
    let mut kept = 0;
    let mut busy = 0;
    for (profile, (sent, received)) in left.iter().zip(&held) {
        assert!(left_of(&profile.client_to_upstream, sent));
        assert!(left_of(&profile.upstream_to_client, received));
        for burst in profile.client_to_upstream.iter().chain(&profile.upstream_to_client) {
            kept += 1;
            busy += usize::from(burst.packets == 2);
        }
    }
    assert_eq!(kept, MAX_TOTAL_BURSTS);
    assert_eq!(busy, 10 + 5 + 1 + 6, "no busy burst is dropped for a quieter one");
}
