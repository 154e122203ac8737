//! What a fleet does with its messages, read off the wire.

use amq_protocol::frame::parsing::parse_frame;
use amq_protocol::frame::{gen_frame, AMQPContentHeader, AMQPFrame, WriteContext};
use amq_protocol::protocol::basic::{AMQPMethod, AMQPProperties, Ack, Deliver, GetOk, Publish};
use amq_protocol::protocol::AMQPClass;
use crucible::amqp::message::{decode, read, Message, Operation};
use crucible::amqp::reader::{Consuming, Reader};
use crucible::amqp::NAME;
use crucible::kind::{Kinds, Readers};
use crucible::protocol::{Did, Direction, Doing, Placement, Primitive};

const CHANNEL: u16 = 1;
/// Which way the traffic these read runs.
const WAY: Direction = Direction::ClientToUpstream;
const TAG: u64 = 7;

/// A frame as it goes on the wire.
fn wire(frame: &AMQPFrame) -> Vec<u8> {
    let write = gen_frame::<Vec<u8>>(frame);
    let (bytes, _) = write(WriteContext::from(Vec::new()))
        .expect("a frame serialises")
        .into_inner();
    bytes
}

/// A method frame in the class a fault is placed against.
fn method(method: AMQPMethod) -> Vec<u8> {
    wire(&AMQPFrame::Method(CHANNEL, AMQPClass::Basic(method)))
}

/// The content header that follows a message, stating its body size.
fn header(size: u64) -> Vec<u8> {
    wire(&AMQPFrame::Header(
        CHANNEL,
        AMQPContentHeader {
            class_id: 60,
            body_size: size,
            properties: AMQPProperties::default(),
        },
    ))
}

fn body(payload: &[u8]) -> Vec<u8> {
    wire(&AMQPFrame::Body(CHANNEL, payload.to_vec()))
}

/// A publish carrying `payload`.
fn publish(payload: &[u8]) -> Vec<u8> {
    let mut bytes = method(AMQPMethod::Publish(Publish::default()));
    bytes.extend(header(payload.len() as u64));
    if !payload.is_empty() {
        bytes.extend(body(payload));
    }
    bytes
}

fn ack() -> Vec<u8> {
    method(AMQPMethod::Ack(Ack {
        delivery_tag: TAG,
        multiple: false,
    }))
}

/// A delivery the broker pushed. This names its consumer.
fn pushed(redelivered: bool, payload: &[u8]) -> Vec<u8> {
    let mut bytes = method(AMQPMethod::Deliver(Deliver {
        consumer_tag: "consumer-1".into(),
        delivery_tag: TAG,
        redelivered,
        ..Default::default()
    }));
    bytes.extend(header(payload.len() as u64));
    bytes.extend(body(payload));
    bytes
}

/// A delivery a consumer fetched.
fn fetched(redelivered: bool, payload: &[u8]) -> Vec<u8> {
    let mut bytes = method(AMQPMethod::GetOk(GetOk {
        delivery_tag: TAG,
        redelivered,
        ..Default::default()
    }));
    bytes.extend(header(payload.len() as u64));
    bytes.extend(body(payload));
    bytes
}

/// What `bytes` say the fleet did.
fn ops(bytes: &[u8]) -> (Vec<Message>, usize) {
    read(&decode(bytes, 0))
}

/// The operations `bytes` carry.
fn operations(bytes: &[u8]) -> Vec<Operation> {
    ops(bytes)
        .0
        .iter()
        .map(|message| message.operation)
        .collect()
}

/// A delivery of `payload` the broker labelled `tag`.
fn delivered(tag: u64, payload: &[u8]) -> Vec<u8> {
    let mut bytes = method(AMQPMethod::Deliver(Deliver {
        consumer_tag: "consumer-1".into(),
        delivery_tag: tag,
        redelivered: false,
        ..Default::default()
    }));
    bytes.extend(header(payload.len() as u64));
    bytes.extend(body(payload));
    bytes
}

/// The marks a run offered.
fn marks(found: Vec<Placement>) -> Vec<String> {
    found.into_iter().map(|placement| placement.mark).collect()
}

/// The delivery tags in `bytes`, in the order they go on the wire.
fn tags(bytes: &[u8]) -> Vec<u64> {
    operations(bytes)
        .into_iter()
        .filter_map(|operation| match operation {
            Operation::Deliver { tag, .. } => Some(tag),
            _ => None,
        })
        .collect()
}

/// Placements a fault-free run of `bytes` offers.
fn placements(bytes: &[u8]) -> Vec<Placement> {
    Reader::new(WAY)
        .carry(&mut Consuming::default(), bytes, false)
        .found
}

/// Where a run watching `mark` holds the fleet.
fn freeze(bytes: &[u8], mark: &str) -> Option<usize> {
    Reader::watching(WAY, mark.to_owned())
        .carry(&mut Consuming::default(), bytes, true)
        .freeze_after
}

/// A consumer's connection to the broker: what it is sent, and what it sends
/// back, watching for `mark` on the way out.
fn consumer(mark: &str) -> Readers {
    Kinds::new(NAME, Some((WAY, mark.to_owned()))).connection()
}

/// Every ack is a message the consumer has finished with, so every ack is
/// somewhere the fleet could be asked to do the same work twice.
#[test]
fn an_ack_offers_to_have_the_message_delivered_again() {
    let offered: Vec<(String, Doing)> = placements(&ack())
        .into_iter()
        .map(|placement| (placement.mark, placement.doing))
        .collect();
    assert!(
        offered.contains(&(format!("redeliver:{TAG}"), Doing::Rewriting(Primitive::Redeliver))),
        "{offered:?}"
    );
}

/// Nothing else is: a publish has not been delivered to anyone, and a
/// delivery has not been finished with.
#[test]
fn nothing_else_offers_a_redelivery() {
    for bytes in [
        publish(b"an order"),
        pushed(false, b"an order"),
        fetched(false, b"an order"),
    ] {
        let marks: Vec<String> = placements(&bytes)
            .into_iter()
            .map(|placement| placement.mark)
            .collect();
        assert!(
            !marks.iter().any(|mark| mark.starts_with("redeliver:")),
            "{marks:?}"
        );
    }
}

#[test]
fn a_redelivery_refuses_the_ack_and_asks_for_the_message_back() {
    let mut readers = consumer(&format!("redeliver:{TAG}"));
    readers.carry(Direction::UpstreamToClient, &pushed(false, b"an order"), false);
    let forward = readers.carry(WAY, &ack(), true).forward.concat();

    assert_eq!(operations(&forward), [Operation::Reject { tag: TAG }]);
    let (_, refusal) = parse_frame(forward.as_slice()).expect("a frame");
    let AMQPFrame::Method(_, AMQPClass::Basic(AMQPMethod::Nack(nack))) = refusal else {
        panic!("a refusal is a nack: {refusal:?}");
    };
    assert!(
        nack.requeue,
        "asking for it back is what makes it come again"
    );
}

#[test]
fn a_redelivery_is_placed_only_when_the_message_comes_round_again() {
    let mut readers = consumer(&format!("redeliver:{TAG}"));
    readers.carry(Direction::UpstreamToClient, &pushed(false, b"an order"), false);
    assert_eq!(readers.carry(WAY, &ack(), true).did, Some(Did::Asked));

    let redelivered = pushed(true, b"an order");
    let again = readers.carry(Direction::UpstreamToClient, &redelivered, false);
    assert!(matches!(again.did, Some(Did::Placed(_))), "{:?}", again.did);
}

#[test]
fn another_message_coming_round_again_places_nothing() {
    let mut readers = consumer(&format!("redeliver:{TAG}"));
    readers.carry(Direction::UpstreamToClient, &pushed(false, b"an order"), false);
    readers.carry(WAY, &ack(), true);

    let unrelated = pushed(true, b"a different order");
    assert_eq!(readers.carry(Direction::UpstreamToClient, &unrelated, false).did, None);
}

/// A delivery is only somewhere to reorder once another follows it: with
/// nothing behind it to go first, holding it back takes the message away.
#[test]
fn a_delivery_offers_a_reorder_once_another_follows_it() {
    let mut consuming = Consuming::default();
    let mut reader = Reader::new(Direction::UpstreamToClient);
    let first = delivered(1, b"an order");
    assert!(
        marks(reader.carry(&mut consuming, &first, false).found)
            .iter()
            .all(|mark| !mark.starts_with("reorder:")),
        "nothing has followed it yet"
    );
    let second = delivered(2, b"another order");
    assert!(marks(reader.carry(&mut consuming, &second, false).found).contains(&"reorder:1".to_owned()));
}

#[test]
fn a_reorder_holds_a_message_back_until_the_next_one_has_gone() {
    let mut consuming = Consuming::default();
    let mut reader = Reader::watching(Direction::UpstreamToClient, "reorder:1".into());

    let first = delivered(1, b"an order");
    let held = reader.carry(&mut consuming, &first, true);
    assert!(held.forward.is_empty(), "the marked message is kept back");
    assert_eq!(held.did, Some(Did::Asked));

    let second = delivered(2, b"another order");
    let released = reader.carry(&mut consuming, &second, true);
    assert_eq!(
        tags(&released.forward.concat()),
        [2, 1],
        "the one sent first arrives second"
    );
    assert!(
        matches!(released.did, Some(Did::Placed(_))),
        "{:?}",
        released.did
    );
}

#[test]
fn an_ack_for_a_delivery_nothing_saw_is_not_refused() {
    let mut readers = consumer(&format!("redeliver:{TAG}"));
    let bytes = ack();
    let carried = readers.carry(WAY, &bytes, true);
    assert!(
        matches!(carried.did, Some(Did::Unplaceable(_))),
        "{:?}",
        carried.did
    );
    assert_eq!(
        operations(&carried.forward.concat()),
        [Operation::Ack { tag: TAG }],
        "left alone"
    );
}

/// A fault before an operation and one after it leave different sides
/// holding the message, so each is its own placement.
#[test]
fn a_fault_can_go_either_side_of_an_operation() {
    let marks: Vec<String> = placements(&ack())
        .into_iter()
        .map(|placement| placement.mark)
        .collect();
    for side in ["before", "after"] {
        assert!(marks.contains(&format!("ack:{TAG}:{side}")), "{marks:?}");
    }
}

/// An ack is one frame, so a fault before it lets nothing of it go and a
/// fault after it lets the whole of it go.
#[test]
fn the_fleet_is_held_where_the_watched_mark_falls() {
    let bytes = ack();
    assert_eq!(freeze(&bytes, &format!("ack:{TAG}:before")), Some(0));
    assert_eq!(freeze(&bytes, &format!("ack:{TAG}:after")), Some(1));
}

#[test]
fn a_mark_this_run_never_reaches_holds_nothing() {
    assert_eq!(freeze(&ack(), "ack:999:after"), None);
}

/// The delivery tag names the message, so a fault placed here is placed on
/// what the broker labelled rather than on however far into the run it fell.
#[test]
fn a_placement_on_a_delivery_names_the_message() {
    let marks: Vec<String> = placements(&pushed(false, b"an order"))
        .into_iter()
        .map(|placement| placement.mark)
        .collect();
    assert_eq!(
        marks,
        [
            format!("deliver:{TAG}:before"),
            format!("deliver:{TAG}:after")
        ]
    );
}

#[test]
fn a_delivery_says_whether_the_broker_has_sent_it_before() {
    for redelivered in [true, false] {
        for bytes in [
            pushed(redelivered, b"an order"),
            fetched(redelivered, b"an order"),
        ] {
            assert_eq!(
                operations(&bytes),
                [Operation::Deliver {
                    tag: TAG,
                    redelivered
                }]
            );
        }
    }
}

#[test]
fn a_publish_is_its_method_header_and_body() {
    let bytes = publish(b"an order");
    let (messages, taken) = ops(&bytes);
    assert_eq!(taken, 3);
    assert_eq!(messages[0].operation, Operation::Publish);
    assert_eq!(messages[0].at, 0..bytes.len(), "the whole of it");
}

/// A message arrives over as many reads as the kernel gives it. The one
/// that completes it is where the fleet is held, and the offset is into
/// that read rather than into everything the reader has seen.
#[test]
fn a_message_split_across_reads_is_held_on_the_read_that_finishes_it() {
    let bytes = publish(b"an order");
    let split = bytes.len() - 4;
    let mut consuming = Consuming::default();
    let mut reader = Reader::watching(WAY, "publish:1:after".to_owned());
    assert_eq!(
        reader.carry(&mut consuming, &bytes[..split], true).freeze_after,
        None,
        "still arriving"
    );
    assert_eq!(
        reader.carry(&mut consuming, &bytes[split..], true).freeze_after,
        Some(1),
        "the frame that finished it"
    );
}

/// What comes back is what arrived, so nothing the parser does not
/// understand can be lost by writing it out again.
#[test]
fn what_is_carried_is_what_arrived() {
    let bytes = [publish(b"an order"), ack()].concat();
    assert_eq!(
        Reader::new(WAY)
            .carry(&mut Consuming::default(), &bytes, false)
            .forward
            .concat(),
        bytes
    );
}

/// A read can end mid-frame. Half a frame is not something the fleet can
/// act on, so it waits for the rest and goes out whole.
#[test]
fn a_frame_split_across_reads_goes_out_whole() {
    let bytes = ack();
    let split = bytes.len() - 4;
    let mut consuming = Consuming::default();
    let mut reader = Reader::new(WAY);
    assert!(
        reader.carry(&mut consuming, &bytes[..split], false).forward.is_empty(),
        "none of it is whole yet"
    );
    assert_eq!(reader.carry(&mut consuming, &bytes[split..], false).forward.concat(), bytes);
}

/// A fault that goes before an operation which began in an earlier read
/// holds everything in this one, since what it was to precede has gone.
#[test]
fn a_message_split_before_the_mark_holds_the_whole_read() {
    let bytes = publish(b"an order");
    let split = bytes.len() - 4;
    let mut consuming = Consuming::default();
    let mut reader = Reader::watching(WAY, "publish:1:before".to_owned());
    assert_eq!(reader.carry(&mut consuming, &bytes[..split], true).freeze_after, None);
    assert_eq!(reader.carry(&mut consuming, &bytes[split..], true).freeze_after, Some(0));
}
