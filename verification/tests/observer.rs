//! The log of what a fleet's proxies saw.

use crucible::observer::{read_chunk, read_line, EventIndex, Line, Wait};
use crucible::protocol::{ConnEvent, Direction};

const PEER: &str = "127.0.0.1:1";

#[test]
fn packet_count_tracks_service_and_direction() {
    let mut index = EventIndex::default();
    for (svc, ts, dir) in [
        ("db", 10, Direction::ClientToUpstream),
        ("db", 20, Direction::ClientToUpstream),
        ("db", 30, Direction::UpstreamToClient),
        ("api", 40, Direction::ClientToUpstream),
    ] {
        index.record(svc.into(), ConnEvent::wrote_at(0, ts, dir, 1));
    }
    assert_eq!(index.packet_count("db", Direction::ClientToUpstream), 2);
    assert_eq!(index.packet_count("db", Direction::UpstreamToClient), 1);
    assert_eq!(index.packet_count("api", Direction::ClientToUpstream), 1);
    assert_eq!(index.packet_count("api", Direction::UpstreamToClient), 0);
    assert_eq!(
        index.packet_count("missing", Direction::ClientToUpstream),
        0
    );
}

#[test]
fn only_wrote_events_count_as_packets() {
    let mut index = EventIndex::default();
    index.record("db".into(), ConnEvent::opened_at(0, 5, PEER.into()));
    index.record("db".into(), ConnEvent::closed_at(0, 15, 0, 0));
    assert_eq!(index.packet_count("db", Direction::ClientToUpstream), 0);
    assert_eq!(index.packet_count("db", Direction::UpstreamToClient), 0);
}

#[test]
fn freeze_count_tracks_only_froze_events() {
    let mut index = EventIndex::default();
    assert_eq!(index.freeze_count(), 0);
    // Traffic is not a freeze.
    index.record(
        "db".into(),
        ConnEvent::wrote_at(0, 10, Direction::ClientToUpstream, 1),
    );
    assert_eq!(index.freeze_count(), 0);
    index.record(
        "db".into(),
        ConnEvent::froze_at(0, 20, "publish:1:after".to_owned()),
    );
    assert_eq!(index.freeze_count(), 1);
    index.record(
        "db".into(),
        ConnEvent::froze_at(0, 30, "publish:2:after".to_owned()),
    );
    assert_eq!(index.freeze_count(), 2);
}

/// We ask twice whether the fault fired, once while the scenario runs and
/// again once it ends. If the second ask started counting from scratch it
/// would miss a freeze that had already arrived, and we would report a fault
/// that fired as one that never did.
#[test]
fn a_freeze_stays_seen_by_every_wait_that_shares_a_baseline() {
    let mut index = EventIndex::default();
    let baseline = 0;
    assert_eq!(index.wait_for_freeze(baseline, false), Wait::Again);
    assert_eq!(index.wait_for_freeze(baseline, true), Wait::Over(false));
    index.record(
        "db".into(),
        ConnEvent::froze_at(0, 20, "publish:1:after".to_owned()),
    );
    assert_eq!(index.wait_for_freeze(baseline, false), Wait::Over(true));
    index.record(
        "db".into(),
        ConnEvent::wrote_at(0, 30, Direction::ClientToUpstream, 1),
    );
    assert_eq!(
        index.wait_for_freeze(baseline, true),
        Wait::Over(true),
        "the same freeze answers a later wait"
    );
    assert_eq!(index.froze_at_ns(), Some(20));
}

#[test]
fn last_event_ns_is_the_max_timestamp() {
    let mut index = EventIndex::default();
    assert_eq!(index.last_event_ns(), None);
    // Record out of order; the latest timestamp must win regardless.
    index.record(
        "db".into(),
        ConnEvent::wrote_at(0, 30, Direction::ClientToUpstream, 1),
    );
    index.record(
        "db".into(),
        ConnEvent::wrote_at(0, 10, Direction::UpstreamToClient, 1),
    );
    index.record(
        "db".into(),
        ConnEvent::wrote_at(0, 20, Direction::ClientToUpstream, 1),
    );
    assert_eq!(index.last_event_ns(), Some(30));
}

#[test]
fn sessions_correlates_recorded_events() {
    let mut index = EventIndex::default();
    index.record("db".into(), ConnEvent::opened_at(0, 100, PEER.into()));
    index.record(
        "db".into(),
        ConnEvent::wrote_at(0, 120, Direction::ClientToUpstream, 8),
    );
    index.record("db".into(), ConnEvent::closed_at(0, 140, 0, 0));
    let sessions = index.sessions();
    assert_eq!(sessions.len(), 1);
    assert_eq!(sessions[0].service, "db");
    assert_eq!(sessions[0].writes.len(), 1);
}

#[test]
fn a_fleet_is_quiet_once_nothing_has_crossed_for_long_enough() {
    let mut index = EventIndex::default();
    assert!(index.wait_for_quiescence(5, 10, false), "nothing has crossed at all");
    index.record(
        "db".into(),
        ConnEvent::wrote_at(0, 100, Direction::ClientToUpstream, 1),
    );
    assert!(!index.wait_for_quiescence(109, 10, false));
    assert!(index.wait_for_quiescence(110, 10, false));
    assert!(!index.wait_for_quiescence(50, 10, false), "a clock behind the event");
    assert!(index.wait_for_quiescence(50, 10, true), "out of time");
}

#[test]
fn a_wait_for_a_report_is_over_when_its_time_is() {
    let index = EventIndex::default();
    assert_eq!(index.wait_for_placed(false), None);
    assert_eq!(index.wait_for_placed(true), Some(None));
    assert!(index.placed().is_empty());
}

#[test]
fn a_line_is_a_service_and_what_it_says() {
    assert_eq!(
        read_line("db\t{\"id\":0}"),
        Some(Line::Event { service: "db".to_string(), json: "{\"id\":0}".to_string() })
    );
    assert_eq!(read_line("  \t "), None);
    assert_eq!(
        read_line(" no tag here "),
        Some(Line::Untagged("no tag here".to_string()))
    );
}

#[test]
fn lines_may_be_cut_anywhere() {
    let text = "db\t{1}\n\napi\t{2}\nrest".as_bytes();
    let mut whole: Vec<u8> = Vec::new();
    let expected = read_chunk(&mut whole, text);
    assert_eq!(expected.len(), 2);
    for at in 0..text.len() {
        let mut buffer: Vec<u8> = Vec::new();
        let mut lines = read_chunk(&mut buffer, &text[..at]);
        lines.extend(read_chunk(&mut buffer, &text[at..]));
        assert_eq!(lines, expected);
        assert_eq!(buffer, b"rest".to_vec());
    }
}

#[test]
fn bytes_that_are_not_text_are_replaced() {
    let mut buffer: Vec<u8> = Vec::new();
    let lines = read_chunk(&mut buffer, b"db\t{\xff}\n");
    assert_eq!(
        lines,
        vec![Line::Event { service: "db".to_string(), json: "{\u{fffd}}".to_string() }]
    );
}

#[test]
fn an_event_advances_only_the_count_of_its_kind() {
    let mut index = EventIndex::default();
    let counts = |index: &EventIndex| {
        (
            index.freeze_count(),
            index.packet_count("db", Direction::ClientToUpstream),
            index.packet_count("db", Direction::UpstreamToClient),
        )
    };
    index.record("db".into(), ConnEvent::opened_at(0, 1, PEER.into()));
    assert_eq!(counts(&index), (0, 0, 0));
    index.record("db".into(), ConnEvent::wrote_at(0, 2, Direction::ClientToUpstream, 8));
    assert_eq!(counts(&index), (0, 1, 0));
    index.record("db".into(), ConnEvent::wrote_at(0, 3, Direction::UpstreamToClient, 8));
    assert_eq!(counts(&index), (0, 1, 1));
    index.record("db".into(), ConnEvent::froze_at(0, 4, "m".into()));
    assert_eq!(counts(&index), (1, 1, 1));
}
