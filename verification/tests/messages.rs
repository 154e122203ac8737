//! What runner, workers and proxies say, and how it is framed and kept.

use crucible::engine::event_bus::RunnerEvent;
use crucible::ipc::codec::{read_header, write_frame, TooLarge, HEADER_SIZE, MAX_FRAME_SIZE};
use crucible::ipc::message::{RunnerToWorker, WorkerEvent, WorkerToRunner};
use crucible::ipc::{heartbeat_interval, heartbeat_timeout};
use crucible::journal::{default_path, Base};
use crucible::plan::Fleet;
use crucible::progress::Progress;
use crucible::protocol::{FaultMissReason, FaultReport};
use crucible::proxy::{ConnEventKind, Forwarded, Proxy};
use crucible::scenario::{classify, orders_url, Answer, Orders};
use crucible::schedule::{Purpose, Schedule};
use crucible::time::Duration;
use crucible::verdict::{Ack, Readings};

#[test]
fn write_frame_rejects_oversized_payload() {
    let big = vec![0u8; MAX_FRAME_SIZE + 1];
    let refused = write_frame(&big).expect_err("too large");
    assert_eq!(refused, TooLarge { size: MAX_FRAME_SIZE + 1, max: MAX_FRAME_SIZE });
    assert_eq!(refused.spell(), "frame too large: 16777217 bytes exceeds 16777216");
}

#[test]
fn read_frame_rejects_oversized_declared_length() {
    let bad_len = u32::try_from(MAX_FRAME_SIZE + 1).unwrap().to_be_bytes();
    assert!(matches!(read_header(&bad_len), Err(TooLarge { .. })));
}

#[test]
fn a_frame_reads_back_as_what_was_written() {
    for len in [0usize, 1, 255, 256, 65_536, 70_000] {
        let payload: Vec<u8> = (0..len).map(|i| (i % 251) as u8).collect();
        let frame = write_frame(&payload).expect("fits");
        assert_eq!(read_header(&frame[..HEADER_SIZE]), Ok(len));
        assert_eq!(&frame[HEADER_SIZE..], &payload[..]);
        assert_eq!(&frame[..HEADER_SIZE], &(len as u32).to_be_bytes());
    }
    assert!(write_frame(&vec![0u8; MAX_FRAME_SIZE]).is_ok());
}

#[test]
fn several_heartbeats_fit_in_the_timeout() {
    assert_eq!(heartbeat_interval(), Duration::from_secs(2));
    assert_eq!(heartbeat_timeout(), Duration::from_secs(10));
}

fn reference(id: u32, landed: Vec<usize>) -> RunnerEvent {
    let fleet = Fleet { name: "f".into(), deployment: "docker".into(), services: Vec::new() };
    RunnerEvent::RunnerMessage {
        worker_id: 1,
        message: RunnerToWorker::Run(Box::new(Schedule::reference(
            id,
            fleet,
            Vec::new(),
            Vec::new(),
            landed,
            Duration::from_secs(1),
        ))),
    }
}

#[test]
fn a_reference_run_answers_for_its_own_steps() {
    let event = reference(4, vec![1, 2]);
    let other = vec![1];
    let own = vec![1, 2];
    assert!(event.answers(&[&other, &own]));
    assert!(!event.answers(&[&other]));
    assert!(!event.answers(&[]));
    let moved = RunnerEvent::Moved { schedule: 4, to: Progress::Errored };
    assert!(!moved.answers(&[&own]));
}

#[test]
fn an_event_says_which_schedule_it_is_about() {
    assert_eq!(reference(4, Vec::new()).about(), Some(4));
    let moved = RunnerEvent::Moved { schedule: 6, to: Progress::Running { worker: 2 } };
    assert_eq!(moved.about(), Some(6));
    let result = RunnerEvent::WorkerMessage {
        worker_id: 0,
        message: WorkerToRunner::RunResult {
            schedule_id: 7,
            readings: Box::new(Readings::empty()),
        },
    };
    assert_eq!(result.about(), Some(7));
    let report = FaultReport::missed(9, "db".into(), FaultMissReason::ScenarioEndedBeforeAnchor);
    let fault = RunnerEvent::WorkerMessage {
        worker_id: 0,
        message: WorkerToRunner::Event(WorkerEvent::Fault(report)),
    };
    assert_eq!(fault.about(), Some(9));
    for message in [
        WorkerToRunner::Ready,
        WorkerToRunner::Heartbeat,
        WorkerToRunner::Event(WorkerEvent::Log("hello".into())),
    ] {
        assert_eq!(RunnerEvent::WorkerMessage { worker_id: 0, message }.about(), None);
    }
    let ack = RunnerEvent::RunnerMessage {
        worker_id: 0,
        message: RunnerToWorker::HelloAck { runner_version: "0.1.0".into() },
    };
    assert_eq!(ack.about(), None);
    let fitted = RunnerEvent::Fitted {
        schedules: vec![(1, Purpose::Learn)],
        eta: Duration::from_secs(90),
        workers: 3,
    };
    assert_eq!(fitted.about(), None);
}

#[test]
fn the_journal_is_kept_under_the_state_home() {
    assert_eq!(
        default_path(true, 12),
        (
            Base::StateHome,
            vec![
                "crucible".to_string(),
                "logs".to_string(),
                "12".to_string(),
                "journal.ndjson".to_string(),
            ]
        )
    );
    let (base, parts) = default_path(false, 12);
    assert_eq!(base, Base::Home);
    assert_eq!(parts[0], ".local/state");
    assert_eq!(parts.len(), 5);
}

#[test]
fn a_status_decides_whether_the_service_took_responsibility() {
    assert_eq!(classify(200), Ack::Acked);
    assert_eq!(classify(299), Ack::Acked);
    assert_eq!(classify(300), Ack::Unknown);
    assert_eq!(classify(400), Ack::Rejected);
    assert_eq!(classify(499), Ack::Rejected);
    assert_eq!(classify(500), Ack::Unknown);
    assert_eq!(classify(199), Ack::Unknown);
}

#[test]
fn orders_are_placed_in_order_whatever_comes_of_them() {
    let mut orders = Orders::new();
    let mut placed = Vec::new();
    let mut answers = vec![
        Answer::Failed { connecting: false, reason: "timed out".into() },
        Answer::Failed { connecting: true, reason: "refused".into() },
        Answer::Response { status: 201, body: b"ok".to_vec() },
    ];
    while let Some(order) = orders.next() {
        placed.push((order.item, order.quantity));
        orders.answered(b"{}".to_vec(), answers.pop().expect("three orders"));
    }
    assert_eq!(
        placed,
        vec![
            ("book".to_string(), 4),
            ("noodles".to_string(), 10),
            ("usb-c cable".to_string(), 1),
        ]
    );
    let exchanges = orders.into_exchanges();
    let acks: Vec<Ack> = exchanges.iter().map(|e| e.ack).collect();
    assert_eq!(acks, [Ack::Acked, Ack::Rejected, Ack::Unknown]);
    assert_eq!(exchanges[0].operation, "POST /orders");
    assert_eq!(exchanges[0].response, b"ok".to_vec());
    assert_eq!(exchanges[1].response, b"refused".to_vec());
    assert_eq!(exchanges[2].request, b"{}".to_vec());
    assert_eq!(orders_url("127.0.0.1:80"), "http://127.0.0.1:80/orders");
}

#[test]
fn connections_are_tracked_from_opening_to_end() {
    let mut proxy = Proxy::new("127.0.0.1:9");
    let a = proxy.accepted();
    let b = proxy.accepted();
    assert_eq!((a, b), (0, 1));
    let opened = proxy.opened(a, "127.0.0.1:1", 5);
    assert_eq!(opened.id, a);
    assert_eq!(opened.kind, ConnEventKind::Opened { peer: "127.0.0.1:1".into() });
    proxy.opened(b, "127.0.0.1:2", 6);
    let ids: Vec<u64> = proxy.snapshot().iter().map(|meta| meta.id).collect();
    assert_eq!(ids, [0, 1]);
    let closed = proxy.closed(a, Forwarded::Done { up: 3, down: 4 });
    assert_eq!(
        closed.kind,
        ConnEventKind::Closed { bytes_client_to_upstream: 3, bytes_upstream_to_client: 4 }
    );
    let left = proxy.snapshot();
    assert_eq!(left.len(), 1);
    assert_eq!((left[0].id, left[0].opened_at), (1, 6));
    let failed = proxy.closed(b, Forwarded::Failed("reset".into()));
    assert_eq!(failed.kind, ConnEventKind::Failed { reason: "forwarding: reset".into() });
    assert!(proxy.snapshot().is_empty());
}

#[test]
fn an_upstream_that_cannot_be_dialled_is_reported() {
    let mut proxy = Proxy::new("127.0.0.1:9");
    let id = proxy.accepted();
    let event = proxy.not_dialled(id, "connection refused");
    assert_eq!(
        event.kind,
        ConnEventKind::Failed {
            reason: "dial upstream 127.0.0.1:9: connection refused".into()
        }
    );
    assert!(proxy.snapshot().is_empty());
}
