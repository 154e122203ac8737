//! The kinds a fleet can be read as.

use amq_protocol::frame::{gen_frame, AMQPContentHeader, AMQPFrame, WriteContext};
use amq_protocol::protocol::basic::{AMQPMethod, AMQPProperties, Ack, Deliver, Qos};
use amq_protocol::protocol::AMQPClass;
use crucible::amqp::reader::Consuming;
use crucible::amqp::NAME;
use crucible::kind::{is_read, nth, Kinds, Readers};
use crucible::protocol::Direction;

/// The channel the traffic under test runs on.
const CHANNEL: u16 = 1;

/// An unread kind watching for a moment on the way in.
fn watching() -> Kinds {
    Kinds::new("http", Some((Direction::ClientToUpstream, "2".to_owned())))
}

/// A frame as it goes on the wire.
fn wire(frame: &AMQPFrame) -> Vec<u8> {
    let write = gen_frame::<Vec<u8>>(frame);
    let (bytes, _) = write(WriteContext::from(Vec::new()))
        .expect("a frame serialises")
        .into_inner();
    bytes
}

fn method(method: AMQPMethod) -> Vec<u8> {
    wire(&AMQPFrame::Method(CHANNEL, AMQPClass::Basic(method)))
}

/// A consumer saying it will hold one delivery at a time, which leaves it
/// nowhere to be told things out of order.
fn takes_one_at_a_time() -> Vec<u8> {
    method(AMQPMethod::Qos(Qos {
        prefetch_count: 1,
        global: false,
    }))
}

/// A delivery the broker labelled `tag`, carrying a body.
fn delivery(tag: u64) -> Vec<u8> {
    let payload = b"an order";
    let mut bytes = method(AMQPMethod::Deliver(Deliver {
        consumer_tag: "consumer-1".into(),
        delivery_tag: tag,
        redelivered: false,
        ..Default::default()
    }));
    bytes.extend(wire(&AMQPFrame::Header(
        CHANNEL,
        AMQPContentHeader {
            class_id: 60,
            body_size: payload.len() as u64,
            properties: AMQPProperties::default(),
        },
    )));
    bytes.extend(wire(&AMQPFrame::Body(CHANNEL, payload.to_vec())));
    bytes
}

/// A consumer finishing with the delivery the broker labelled `tag`.
fn finished_with(tag: u64) -> Vec<u8> {
    method(AMQPMethod::Ack(Ack {
        delivery_tag: tag,
        multiple: false,
    }))
}

/// Whether two deliveries down `readers` offer somewhere to reorder.
///
/// The consumer finishes with each before the next arrives, so what it was
/// told it could hold is all this connection leaves behind.
fn offers_a_reorder(readers: &mut Readers) -> bool {
    let mut offered = false;
    for tag in [1, 2] {
        offered |= readers
            .carry(Direction::UpstreamToClient, &delivery(tag), false)
            .found
            .iter()
            .any(|placement| placement.mark.starts_with("reorder:"));
        readers.carry(Direction::ClientToUpstream, &finished_with(tag), false);
    }
    offered
}

#[test]
fn a_kind_with_a_plugin_is_read_by_it() {
    assert!(is_read(NAME));
}

/// A fleet speaking something with no plugin still runs; the framework just
/// has to work out where to fault it without help.
#[test]
fn a_kind_with_no_plugin_is_carried_untouched() {
    assert!(!is_read("http"));
    let mut reader = Kinds::new("http", None).connection().client_to_upstream;
    let carried = reader.carry(&mut Consuming::default(), b"anything at all", false);
    assert_eq!(carried.forward.concat(), b"anything at all");
    assert_eq!(carried.freeze_after, None);
    assert!(carried.found.is_empty());
}

/// With no plugin to recognise anything, one read off the wire is the only
/// boundary there is, so every one of them is a moment a fault could go on.
#[test]
fn a_kind_with_no_plugin_offers_every_read() {
    let mut reader = watching().connection().client_to_upstream;
    assert_eq!(reader.carry(&mut Consuming::default(), b"one", true).freeze_after, Some(1));
    assert_eq!(reader.carry(&mut Consuming::default(), b"two", true).freeze_after, Some(1));
}

/// The two directions of one connection read the same traffic between
/// them: what the consumer told the broker on the way out settles what the
/// deliveries coming back are worth.
#[test]
fn the_two_directions_of_a_connection_agree() {
    let mut readers = Kinds::new(NAME, None).connection();
    readers.carry(Direction::ClientToUpstream, &takes_one_at_a_time(), false);
    assert!(!offers_a_reorder(&mut readers));
}

/// A connection agrees with itself and with nothing else. A channel numbers
/// its deliveries from the connection it is on, so one connection's
/// bookkeeping read as another's would answer for the wrong traffic.
#[test]
fn one_connection_does_not_answer_for_another() {
    let kinds = Kinds::new(NAME, None);
    let mut consumer = kinds.connection();
    consumer.carry(Direction::ClientToUpstream, &takes_one_at_a_time(), false);
    assert!(!offers_a_reorder(&mut consumer));

    let mut another = kinds.connection();
    assert!(
        offers_a_reorder(&mut another),
        "this one said nothing about how many it would hold"
    );
}

/// Only the direction a schedule named offers moments; the other way is
/// carried and nothing more.
#[test]
fn the_other_direction_offers_nothing() {
    let mut other = watching().connection().upstream_to_client;
    assert_eq!(other.carry(&mut Consuming::default(), b"reply", true).freeze_after, None);
}

/// A mark on an unread kind is a count the framework keeps, so a plugin's
/// own mark is the first thing it offers and nothing is counted through.
#[test]
fn a_read_kind_names_its_own_moment() {
    assert_eq!(nth("http", "3"), 3);
    assert_eq!(nth(NAME, "ack:7:before"), 1);
}
