//! Schedules anchored to packets, to time, and to nothing.

use crucible::protocol::{Direction, ServiceProfile, Session};
use crucible::scheduler::burst::burst_anchors;
use crucible::scheduler::random::RandomScheduler;
use crucible::scheduler::session_derived::SessionDerivedScheduler;
use crucible::scheduler::BurstScheduler;
use crucible::time::Duration;

fn profile(service: &str, c2u: Vec<u128>, u2c: Vec<u128>) -> ServiceProfile {
    ServiceProfile {
        service: service.into(),
        client_to_upstream: c2u,
        upstream_to_client: u2c,
    }
}

#[test]
fn packets_of_nothing_yield_nothing() {
    let mut s = BurstScheduler::new(&[]);
    assert_eq!(s.total(), 0);
    assert!(s.next().is_none());
}

#[test]
fn single_packet_burst_anchors_before_and_after() {
    // One packet is a one-packet burst: before (K=0) and after (K=1); the
    // midpoint coincides with after and dedupes away.
    assert_eq!(burst_anchors(&[10_000_000]), vec![0, 1]);
}

#[test]
fn a_gap_splits_bursts_and_shares_the_boundary_anchor() {
    // Two single-packet bursts 40ms apart: {0,1} from the first, {1,2} from
    // the second; K=1 (after A / before B) dedupes.
    assert_eq!(burst_anchors(&[10_000_000, 50_000_000]), vec![0, 1, 2]);
}

#[test]
fn burst_contiguous_packets_are_one_burst() {
    // Three packets 1ms apart: one burst [1..3] -> before 0, mid 2, after 3.
    assert_eq!(
        burst_anchors(&[10_000_000, 11_000_000, 12_000_000]),
        vec![0, 2, 3]
    );
}

#[test]
fn packets_of_both_directions_are_scheduled() {
    let scheduler = BurstScheduler::new(&[profile("db", vec![10_000_000], vec![20_000_000])]);
    let all: Vec<_> = std::iter::from_fn({
        let mut s = scheduler;
        move || s.next()
    })
    .collect();
    assert!(all
        .iter()
        .any(|s| s.direction == Direction::ClientToUpstream));
    assert!(all
        .iter()
        .any(|s| s.direction == Direction::UpstreamToClient));
}

#[test]
fn emission_is_round_robin_across_services() {
    let scheduler = BurstScheduler::new(&[
        profile("api", vec![10_000_000], vec![]),
        profile("db", vec![10_000_000], vec![]),
    ]);
    let first_two: Vec<_> = std::iter::from_fn({
        let mut s = scheduler;
        move || s.next()
    })
    .take(2)
    .map(|s| s.service)
    .collect();
    assert!(first_two.contains(&"api".to_string()));
    assert!(first_two.contains(&"db".to_string()));
}

#[test]
fn yields_count_then_none() {
    let mut scheduler = RandomScheduler::new(3);
    for expected_id in 0..3 {
        let schedule = scheduler.next().unwrap();
        assert_eq!(schedule.schedule_id, expected_id);
        assert!(schedule.payload.is_empty());
    }
    assert!(scheduler.next().is_none());
}

#[test]
fn zero_count_is_empty() {
    assert!(RandomScheduler::new(0).next().is_none());
}

fn session(service: &str, conn_id: u64, opened_ns: u128, closed_ns: Option<u128>) -> Session {
    Session {
        service: service.into(),
        conn_id,
        peer: "127.0.0.1:1".into(),
        opened_ns,
        closed_ns,
        writes: Vec::new(),
    }
}

#[test]
fn splits_budget_evenly_across_sessions_and_time() {
    let catalogue = vec![
        session("db", 0, 0, Some(1_000)),
        session("broker", 0, 0, Some(1_000)),
    ];
    // 100ms budget, 10ms run cost => 10 schedules total, 5 per session
    let scheduler = SessionDerivedScheduler::new(
        &catalogue,
        Duration::from_millis(10),
        Duration::from_millis(100),
    );
    let all: Vec<_> = std::iter::from_fn({
        let mut s = scheduler;
        move || s.next()
    })
    .collect();
    assert_eq!(all.len(), 10);
    let db: Vec<_> = all.iter().filter(|s| s.session.service == "db").collect();
    assert_eq!(db.len(), 5);
    let offsets: Vec<_> = db.iter().map(|s| s.fault_offset_ns).collect();
    assert_eq!(offsets, vec![0, 200, 400, 600, 800]);
}

#[test]
fn empty_catalogue_yields_nothing() {
    let mut scheduler =
        SessionDerivedScheduler::new(&[], Duration::from_secs(1), Duration::from_secs(10));
    assert!(scheduler.next().is_none());
}

#[test]
fn still_open_session_uses_max_observed_time_as_ceiling() {
    let catalogue = vec![session("db", 0, 0, Some(500)), session("api", 0, 100, None)];
    let scheduler = SessionDerivedScheduler::new(
        &catalogue,
        Duration::from_millis(10),
        Duration::from_millis(20),
    );
    let all: Vec<_> = std::iter::from_fn({
        let mut s = scheduler;
        move || s.next()
    })
    .collect();
    assert_eq!(all.len(), 2);
    let api = all.iter().find(|s| s.session.service == "api").unwrap();
    assert_eq!(api.fault_offset_ns, 0);
}

#[test]
fn schedule_ids_are_dense_and_unique() {
    let catalogue = vec![
        session("db", 0, 0, Some(100)),
        session("broker", 0, 0, Some(100)),
        session("api", 0, 0, Some(100)),
    ];
    let mut scheduler = SessionDerivedScheduler::new(
        &catalogue,
        Duration::from_millis(10),
        Duration::from_millis(60),
    );
    let mut ids = Vec::new();
    while let Some(s) = scheduler.next() {
        ids.push(s.schedule_id);
    }
    let expected: Vec<u32> = (0..u32::try_from(ids.len()).unwrap()).collect();
    assert_eq!(ids, expected);
}

#[test]
fn there_are_no_anchors_where_nothing_crossed() {
    assert!(burst_anchors(&[]).is_empty());
    assert_eq!(
        burst_anchors(&[10_000_000, 11_000_000, 90_000_000, 91_000_000, 92_000_000]),
        vec![0, 1, 2, 4, 5],
    );
}
