//! What holds of every run, on one.

use amq_protocol::frame::{gen_frame, AMQPContentHeader, AMQPFrame, WriteContext};
use amq_protocol::protocol::basic::{AMQPMethod, AMQPProperties, Ack, Deliver, Publish};
use amq_protocol::protocol::AMQPClass;
use crucible::amqp::frame::FRAME_END;
use crucible::amqp::reader::{Consuming, Reader};
use crucible::amqp::NAME;
use crucible::dsl::lexer::{lex, TokenKind};
use crucible::engine::scheduler::recovery::ways;
use crucible::fault::{Anchor, By, Drive, Fault};
use crucible::ipc::message::Verdict;
use crucible::kind::Kinds;
use crucible::plan::{Check, Value};
use crucible::protocol::{At, Did, Direction, Edge, FaultReport, Primitive, Primitives};
use crucible::schema::CmpOp;
use crucible::time::Duration;
use crucible::verdict::{
    Ack as Answer, Baseline, Invariant, Judged, Observed, Outcome, Readings, References,
};

const CHANNEL: u16 = 1;
const TAG: u64 = 7;

fn wire(frame: &AMQPFrame) -> Vec<u8> {
    let write = gen_frame::<Vec<u8>>(frame);
    let (bytes, _) = write(WriteContext::from(Vec::new()))
        .expect("a frame serialises")
        .into_inner();
    bytes
}

fn method(method: AMQPMethod) -> Vec<u8> {
    wire(&AMQPFrame::Method(CHANNEL, AMQPClass::Basic(method)))
}

fn content(properties: AMQPProperties, payload: &[u8]) -> Vec<u8> {
    let mut bytes = wire(&AMQPFrame::Header(
        CHANNEL,
        AMQPContentHeader {
            class_id: 60,
            body_size: payload.len() as u64,
            properties,
        },
    ));
    bytes.extend(wire(&AMQPFrame::Body(CHANNEL, payload.to_vec())));
    bytes
}

fn delivery(tag: u64, redelivered: bool, properties: AMQPProperties, payload: &[u8]) -> Vec<u8> {
    let mut bytes = method(AMQPMethod::Deliver(Deliver {
        consumer_tag: "consumer-1".into(),
        delivery_tag: tag,
        redelivered,
        ..Default::default()
    }));
    bytes.extend(content(properties, payload));
    bytes
}

fn ack(tag: u64) -> Vec<u8> {
    method(AMQPMethod::Ack(Ack {
        delivery_tag: tag,
        multiple: false,
    }))
}

/// Some traffic of every kind a fleet sends.
fn traffic() -> Vec<u8> {
    let mut bytes = method(AMQPMethod::Publish(Publish::default()));
    bytes.extend(content(AMQPProperties::default(), b"an order"));
    bytes.extend(ack(TAG));
    bytes.extend(delivery(TAG, false, AMQPProperties::default(), b"another"));
    bytes
}

#[test]
fn traffic_may_be_cut_anywhere() {
    let bytes = traffic();
    let whole = Reader::new(Direction::ClientToUpstream).carry(
        &mut Consuming::default(),
        &bytes,
        false,
    );
    assert_eq!(whole.forward.concat(), bytes);
    for cut in 0..=bytes.len() {
        let mut consuming = Consuming::default();
        let mut reader = Reader::new(Direction::ClientToUpstream);
        let first = reader.carry(&mut consuming, &bytes[..cut], false);
        let then = reader.carry(&mut consuming, &bytes[cut..], false);
        let mut forward = first.forward.concat();
        forward.extend(then.forward.concat());
        assert_eq!(forward, bytes, "cut at {cut}");
        let mut marks: Vec<String> = first.found.into_iter().map(|found| found.mark).collect();
        marks.extend(then.found.into_iter().map(|found| found.mark));
        let expected: Vec<String> = whole.found.iter().map(|found| found.mark.clone()).collect();
        assert_eq!(marks, expected, "cut at {cut}");
    }
}

#[test]
fn a_reorder_takes_nothing_away() {
    let mut consuming = Consuming::default();
    let mut reader = Reader::watching(Direction::UpstreamToClient, "reorder:1".into());
    let first = delivery(1, false, AMQPProperties::default(), b"one");
    let second = delivery(2, false, AMQPProperties::default(), b"two");
    assert!(reader.carry(&mut consuming, &first, true).forward.is_empty());
    let released = reader.carry(&mut consuming, &second, true).forward.concat();
    assert_eq!(released, [second, first].concat());
}

/// A refusal is the protocol's own nack: the class and method, the tag, and a
/// byte of flags that asks for the message back.
#[test]
fn a_refusal_is_written_as_the_protocol_has_it() {
    let mut readers = Kinds::new(
        NAME,
        Some((Direction::ClientToUpstream, format!("redeliver:{TAG}"))),
    )
    .connection();
    let sent = delivery(TAG, false, AMQPProperties::default(), b"an order");
    readers.carry(Direction::UpstreamToClient, &sent, false);
    let carried = readers.carry(Direction::ClientToUpstream, &ack(TAG), true);
    assert_eq!(carried.did, Some(Did::Asked));
    assert_eq!(
        carried.forward.concat(),
        [1, 0, 1, 0, 0, 0, 13, 0, 60, 0, 120, 0, 0, 0, 0, 0, 0, 0, 7, 2, FRAME_END]
    );
}

/// What comes of a delivery coming round again, with these properties and that
/// payload.
fn comes_round(first: AMQPProperties, again: AMQPProperties, payload: &[u8]) -> Option<Did> {
    let mut readers = Kinds::new(
        NAME,
        Some((Direction::ClientToUpstream, format!("redeliver:{TAG}"))),
    )
    .connection();
    let sent = delivery(TAG, false, first, b"an order");
    readers.carry(Direction::UpstreamToClient, &sent, false);
    readers.carry(Direction::ClientToUpstream, &ack(TAG), true);
    let back = delivery(TAG + 1, true, again, payload);
    readers.carry(Direction::UpstreamToClient, &back, false).did
}

#[test]
fn a_message_is_known_by_what_the_fleet_called_it() {
    let named = || AMQPProperties::default().with_message_id("order-1".into());
    let other = || AMQPProperties::default().with_message_id("order-2".into());
    assert!(matches!(
        comes_round(named(), named(), b"worded otherwise"),
        Some(Did::Placed(_))
    ));
    assert_eq!(comes_round(named(), other(), b"an order"), None);
    let correlated = || AMQPProperties::default().with_correlation_id("order-1".into());
    assert!(matches!(
        comes_round(correlated(), correlated(), b"worded otherwise"),
        Some(Did::Placed(_))
    ));
    assert_eq!(
        comes_round(correlated(), AMQPProperties::default(), b"an order"),
        None
    );
}

#[test]
fn a_message_is_asked_for_once() {
    let mut readers = Kinds::new(
        NAME,
        Some((Direction::ClientToUpstream, format!("redeliver:{TAG}"))),
    )
    .connection();
    let plain = AMQPProperties::default;
    readers.carry(
        Direction::UpstreamToClient,
        &delivery(TAG, false, plain(), b"an order"),
        false,
    );
    readers.carry(Direction::ClientToUpstream, &ack(TAG), true);
    let again = delivery(TAG + 1, true, plain(), b"an order");
    assert!(matches!(
        readers.carry(Direction::UpstreamToClient, &again, false).did,
        Some(Did::Placed(_))
    ));
    let third = delivery(TAG + 2, true, plain(), b"an order");
    assert_eq!(
        readers.carry(Direction::UpstreamToClient, &third, false).did,
        None
    );
}

#[test]
fn spans_count_bytes_and_stand_in_order() {
    let src = "naïve \"é\" 12 ? fin";
    let (tokens, errors) = lex(src);
    assert_eq!(errors.len(), 2, "{errors:?}");
    let mut end = 0;
    for token in &tokens {
        assert!(token.span.start >= end && token.span.end <= src.len());
        assert!(src.is_char_boundary(token.span.start) && src.is_char_boundary(token.span.end));
        end = token.span.end;
    }
    let quoted = tokens
        .iter()
        .find(|token| src[token.span.start..token.span.end].starts_with('"'))
        .expect("the text is a token");
    assert_eq!(&src[quoted.span.start..quoted.span.end], "\"é\"");
}

#[test]
fn aiming_a_primitive_and_reading_it_back_is_where_it_started() {
    for primitive in Primitive::all() {
        let drive = Drive::try_from(primitive).expect("every primitive can be aimed");
        assert_eq!(Primitive::from(drive), primitive);
    }
}

#[test]
fn a_placed_fault_keeps_its_moment_and_what_it_takes() {
    let edge = || Edge {
        client: Some("api".into()),
        upstream: "db".into(),
    };
    let anchor = || {
        Anchor::crossing(
            edge(),
            Direction::ClientToUpstream,
            "3".into(),
            "a write".into(),
        )
    };
    for (by, pressed) in [
        (By::Kill("db".into()), Invariant::Durable),
        (By::Cut(edge()), Invariant::Durable),
        (By::Repeat(edge()), Invariant::Idempotent),
        (By::Reorder(edge()), Invariant::Converges),
    ] {
        let fault = Fault::at(anchor(), by.clone());
        assert_eq!(fault.anchor(), Some(&anchor()));
        assert_eq!(fault.taking(), &by);
        assert_eq!(fault.pressed(), pressed);
        assert!(Invariant::could_show(false, fault.primitive()).contains(&pressed));
    }
    assert_eq!(Fault::throughout(By::Cut(edge())).anchor(), None);
}

fn check() -> Check {
    Check {
        service: "db".into(),
        observer: "mariadb".into(),
        observable: vec!["writes".into(), "count".into()],
        args: Vec::new(),
        filter: None,
        op: CmpOp::Eq,
        value: Value::Int(0),
    }
}

/// A run degraded throughout, of a fault-free run that stood at each of `points`.
fn degraded(acks: &[Answer], points: &[i64], settled: i64) -> Readings {
    let mut run = Readings::empty();
    run.fault = Some(FaultReport::fired(
        0,
        "db",
        Primitive::Kill,
        At::Throughout,
        0,
    ));
    run.outcomes = acks.iter().map(|ack| Outcome { ack: *ack }).collect();
    run.checks = vec![Observed {
        check: check(),
        value: Some(Value::Int(settled)),
    }];
    run.fault_free = Baseline::unsettled(
        points
            .iter()
            .map(|point| vec![Some(Value::Int(*point))])
            .collect(),
    );
    run
}

/// A fleet that accepted nothing had nothing to catch up on, so what it lost was
/// not lost by failing to.
#[test]
fn only_work_that_was_accepted_can_be_caught_up_on() {
    let Verdict::Fail { broke, reason } =
        degraded(&[Answer::Acked, Answer::Acked], &[0, 1, 2], 1).verdict()
    else {
        panic!("settling short is a failure");
    };
    assert_eq!(broke, Some(Invariant::Recovers));
    assert!(reason.contains("was never caught up on, which is recovery"), "{reason}");
    let Verdict::Fail { broke, reason } =
        degraded(&[Answer::Rejected, Answer::Rejected], &[5, 6, 7], 3).verdict()
    else {
        panic!("holding less than before is a failure");
    };
    assert_eq!(broke, Some(Invariant::Durable));
    assert!(reason.contains("which is durability"), "{reason}");
    let Verdict::Fail { broke, .. } =
        degraded(&[Answer::Acked, Answer::Acked], &[0, 1, 2], 3).verdict()
    else {
        panic!("holding more is a failure");
    };
    assert_eq!(broke, Some(Invariant::Idempotent));
}

#[test]
fn where_a_run_stood_on_the_way_changes_nothing() {
    let mut run = degraded(&[Answer::Acked, Answer::Acked], &[0, 1, 2], 2);
    assert_eq!(run.verdict(), Verdict::Pass);
    run.trajectory.push(vec![Some(Value::Int(9))]);
    assert_eq!(run.verdict(), Verdict::Pass);
}

#[test]
fn spans_of_time_are_spelled_as_they_are_debugged() {
    assert_eq!(Value::Duration(Duration::from_millis(1500)).spell(), "1.5s");
    assert_eq!(Value::Duration(Duration::new(0, 250_000_000)).spell(), "250ms");
    assert_eq!(Duration::new(1, 1_500_000_000), Duration::from_millis(2500));
}

#[test]
fn texts_are_quoted_as_they_are_debugged() {
    assert_eq!(Value::Str("a \"b\"\n".into()).spell(), "\"a \\\"b\\\"\\n\"");
}

#[test]
fn only_the_last_token_is_the_end_and_a_word_says_what_it_covers() {
    let src = "fleet naïve { a1_b = 30s; } // é\n\"end\" !=";
    let (tokens, _) = lex(src);
    let (last, rest) = tokens.split_last().expect("there is always an end");
    assert_eq!(last.kind, TokenKind::Eof);
    assert_eq!((last.span.start, last.span.end), (src.len(), src.len()));
    let mut words = Vec::new();
    for token in rest {
        assert_ne!(token.kind, TokenKind::Eof);
        assert!(token.span.start < token.span.end);
        if let TokenKind::Ident(word) = &token.kind {
            assert_eq!(word, &src[token.span.start..token.span.end]);
            words.push(word.as_str());
        }
    }
    assert_eq!(words, ["fleet", "na", "ve", "a1_b"]);
}

#[test]
fn two_sources_read_one_behind_the_other() {
    for first in ["fleet f { x: \"é\"; } // a note", "a <", "12", "word", ""] {
        for second in ["= b", "s", "more ? 7h \"open", "// é\n!", ""] {
            let (mut tokens, errors) = lex(first);
            assert!(errors.is_empty(), "{errors:?}");
            let (behind, faults) = lex(second);
            let (joined, found) = lex(&format!("{first}\n{second}"));
            let by = first.len() + 1;
            tokens.pop();
            assert_eq!(joined.len(), tokens.len() + behind.len());
            for (token, alone) in joined.iter().zip(&tokens) {
                assert_eq!(token, alone);
            }
            for (token, alone) in joined[tokens.len()..].iter().zip(&behind) {
                assert_eq!(token.kind, alone.kind);
                assert_eq!(token.span.start, alone.span.start + by);
                assert_eq!(token.span.end, alone.span.end + by);
            }
            assert_eq!(found.len(), faults.len());
            for (error, alone) in found.iter().zip(&faults) {
                assert_eq!(error.message, alone.message);
                assert_eq!(error.span.start, alone.span.start + by);
                assert_eq!(error.span.end, alone.span.end + by);
            }
        }
    }
}

/// Three steps in doubt leave eight sets. The fault-free run answers for four of
/// them, so the others are asked for.
#[test]
fn a_run_asks_for_each_set_once_and_in_order() {
    let run = degraded(&[Answer::Unknown; 3], &[0, 1, 2, 3], 9);
    let Judged::Pending(sets) = run.judge(&References::new()) else {
        panic!("no reference run was taken");
    };
    assert_eq!(sets, [vec![2], vec![3], vec![1, 3], vec![2, 3]]);
    let run = degraded(&[Answer::Unknown; 4], &[0, 1, 2, 3, 4], 9);
    let Judged::Pending(sets) = run.judge(&References::new()) else {
        panic!("no reference run was taken");
    };
    assert_eq!(sets.len(), 16 - 5);
    for pair in sets.windows(2) {
        assert!((pair[0].len(), &pair[0]) < (pair[1].len(), &pair[1]));
    }
}

fn settling(at: i64) -> Baseline {
    Baseline::unsettled(vec![vec![Some(Value::Int(at))]])
}

/// Reference runs are the same where they found the same, in whatever order they
/// were taken and whatever was found before.
#[test]
fn reference_runs_are_what_was_found_last_of_each_set() {
    let taken = |runs: &[(&[usize], i64)]| {
        let mut references = References::new();
        for (landed, at) in runs {
            references.insert(landed.to_vec(), settling(*at));
        }
        references
    };
    let once = taken(&[(&[], 0), (&[1, 3], 2), (&[2], 5), (&[2, 3], 4)]);
    let again = taken(&[(&[2, 3], 4), (&[2], 9), (&[1, 3], 2), (&[], 7), (&[2], 5), (&[], 0)]);
    assert_eq!(once, again);
    assert_eq!(again.get(&[2]), Some(&settling(5)));
    assert_eq!(again.get(&[]), Some(&settling(0)));
    assert_eq!(again.get(&[1, 3]), Some(&settling(2)));
    assert_eq!(again.get(&[1]), None);
    assert_ne!(once, taken(&[(&[], 0), (&[1, 3], 2), (&[2], 9), (&[2, 3], 4)]));
    assert_ne!(once, References::new());
}

#[test]
fn primitives_are_a_set() {
    let given = [Primitive::Drop, Primitive::Kill, Primitive::Drop, Primitive::Cut];
    let set = Primitives::of(&given);
    assert_eq!(set.as_slice(), [Primitive::Kill, Primitive::Cut, Primitive::Drop]);
    assert_eq!(set, Primitives::of(&[Primitive::Cut, Primitive::Drop, Primitive::Kill]));
    assert_ne!(set, Primitives::of(&[Primitive::Cut, Primitive::Kill]));
    assert!(set.contains(Primitive::Drop) && !set.contains(Primitive::Reorder));
    assert_eq!(ways(&set), [Drive::Kill, Drive::Cut]);
    assert_eq!(ways(&Primitives::of(&[Primitive::Reorder])), []);
}
