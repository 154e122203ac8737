//! What the protocol's own parser reads off the wire, and what it writes there.

use vstd::prelude::*;

use amq_protocol::frame::parsing::parse_frame;
use amq_protocol::frame::AMQPFrame::{Body, Header, Method};
use amq_protocol::frame::{gen_frame, WriteContext};
use amq_protocol::protocol::basic;
use amq_protocol::protocol::basic::AMQPMethod::{Ack, Deliver, GetOk, Nack, Publish, Qos, Reject};
use amq_protocol::protocol::AMQPClass::Basic;

use self::Parsed::{
    Acked, Delivered, Fetched, Head, Housekeeping, Limited, Nacked, Other, Payload, Published,
    Rejected,
};
use super::frame::FRAME_END;

verus! {

/// What a frame says, as far as a fault needs to know.
#[derive(Debug, PartialEq, Eq)]
pub enum Parsed {
    /// A message going to the broker.
    Published,
    /// A message the broker pushed: its delivery tag, and whether it was
    /// delivered before.
    Delivered(u64, bool),
    /// A message a consumer fetched: its delivery tag, and whether it was
    /// delivered before.
    Fetched(u64, bool),
    /// A consumer is done with the delivery of that tag.
    Acked(u64),
    /// A consumer refuses the delivery of that tag.
    Rejected(u64),
    /// A consumer refuses the delivery of that tag, the other way the protocol
    /// has of saying so.
    Nacked(u64),
    /// How many deliveries a consumer will hold at once.
    Limited(u16),
    /// Any other method.
    Housekeeping,
    /// A content header, which says how many body bytes follow it.
    Head(u64),
    /// A run of message payload.
    Payload(Vec<u8>),
    /// Anything else.
    Other,
}

/// What a [`Parsed`] says.
pub enum ParsedModel {
    Published,
    Delivered(u64, bool),
    Fetched(u64, bool),
    Acked(u64),
    Rejected(u64),
    Nacked(u64),
    Limited(u16),
    Housekeeping,
    Head(u64),
    Payload(Seq<u8>),
    Other,
}

impl DeepView for Parsed {
    type V = ParsedModel;

    open spec fn deep_view(&self) -> ParsedModel {
        match self {
            Parsed::Published => ParsedModel::Published,
            Parsed::Delivered(tag, redelivered) => ParsedModel::Delivered(*tag, *redelivered),
            Parsed::Fetched(tag, redelivered) => ParsedModel::Fetched(*tag, *redelivered),
            Parsed::Acked(tag) => ParsedModel::Acked(*tag),
            Parsed::Rejected(tag) => ParsedModel::Rejected(*tag),
            Parsed::Nacked(tag) => ParsedModel::Nacked(*tag),
            Parsed::Limited(count) => ParsedModel::Limited(*count),
            Parsed::Housekeeping => ParsedModel::Housekeeping,
            Parsed::Head(size) => ParsedModel::Head(*size),
            Parsed::Payload(payload) => ParsedModel::Payload(payload@),
            Parsed::Other => ParsedModel::Other,
        }
    }
}

/// What `parse_frame` reads at the front of some bytes: how many bytes it
/// leaves, the channel of the frame and what it says, or `None` where there is
/// no whole frame there.
pub uninterp spec fn parsed(bytes: Seq<u8>) -> Option<(usize, u16, ParsedModel)>;

/// The frame at the front of `bytes`: `amq_protocol`'s `parse_frame`.
///
/// What it reads is named and not stated. It always takes some of the bytes,
/// and what it reads rests on the bytes it takes alone: a frame that is whole
/// reads the same whatever comes behind it.
#[verifier::external_body]
pub(crate) fn parse(bytes: &[u8]) -> (r: Option<(usize, u16, Parsed)>)
    ensures
        r.deep_view() == parsed(bytes@),
        r matches Some(front) ==> front.0 < bytes@.len(),
        r matches Some(front) ==> forall|more: Seq<u8>|
            bytes@.len() + more.len() <= usize::MAX ==> #[trigger] parsed(bytes@ + more) == Some(
                ((front.0 + more.len()) as usize, front.1, front.2.deep_view()),
            ),
{
    parse_frame(bytes).ok().map(|(rest, frame)| (rest.len(), frame.channel_id(), match frame {
        Method(_, Basic(method)) => match method {
            Publish(_) => Published,
            Deliver(m) => Delivered(m.delivery_tag, m.redelivered),
            GetOk(m) => Fetched(m.delivery_tag, m.redelivered),
            Ack(m) => Acked(m.delivery_tag),
            Reject(m) => Rejected(m.delivery_tag),
            Nack(m) => Nacked(m.delivery_tag),
            Qos(m) => Limited(m.prefetch_count),
            _ => Housekeeping,
        },
        Method(..) => Housekeeping,
        Header(_, header) => Head(header.body_size),
        Body(_, payload) => Payload(payload), _ => Other,
    }))
}

/// The message id in a content header frame, if it has one.
pub uninterp spec fn message_ids(frame: Seq<u8>) -> Option<Seq<char>>;

/// The message id in a content header frame, if it has one: `amq_protocol`'s
/// `AMQPProperties::message_id` on the properties of the frame. What it is, is
/// named and not stated.
#[verifier::external_body]
pub(crate) fn message_id(frame: &[u8]) -> (r: Option<String>)
    ensures
        r.deep_view() == message_ids(frame@),
{
    match parse_frame(frame) {
        Ok((_, Header(_, header))) => header.properties.message_id().as_ref().map(ToString::to_string),
        _ => None,
    }
}

/// The correlation id in a content header frame, if it has one.
pub uninterp spec fn correlation_ids(frame: Seq<u8>) -> Option<Seq<char>>;

/// The correlation id in a content header frame, if it has one:
/// `amq_protocol`'s `AMQPProperties::correlation_id` on the properties of the
/// frame. What it is, is named and not stated.
#[verifier::external_body]
pub(crate) fn correlation_id(frame: &[u8]) -> (r: Option<String>)
    ensures
        r.deep_view() == correlation_ids(frame@),
{
    match parse_frame(frame) {
        Ok((_, Header(_, header))) => {
            header.properties.correlation_id().as_ref().map(ToString::to_string)
        },
        _ => None,
    }
}

/// The `len` least significant bytes of `n`, most significant first.
pub open spec fn spelled(n: nat, len: nat) -> Seq<u8>
    decreases len,
{
    if len == 0 {
        Seq::empty()
    } else {
        spelled(n / 256, (len - 1) as nat).push((n % 256) as u8)
    }
}

/// A refusal of the delivery of a tag, as it goes on the wire.
pub open spec fn nack_frame(channel: u16, tag: u64, multiple: bool, requeue: bool) -> Seq<u8> {
    let flags: u8 = if multiple && requeue {
        3
    } else if requeue {
        2
    } else if multiple {
        1
    } else {
        0
    };
    seq![1u8] + spelled(channel as nat, 2) + spelled(13, 4) + spelled(60, 2) + spelled(120, 2)
        + spelled(tag as nat, 8) + seq![flags, FRAME_END]
}

/// A refusal of the delivery of `tag`, as it goes on the wire: `amq_protocol`'s
/// `gen_frame` on a nack, into a vector. A vector takes every byte it is given,
/// so the frame is always written, and what is written is the frame the protocol
/// gives a nack.
#[verifier::external_body]
pub(crate) fn write_nack(channel: u16, tag: u64, multiple: bool, requeue: bool) -> (r: Option<Vec<u8>>)
    ensures
        r is Some,
        r->0@ == nack_frame(channel, tag, multiple, requeue),
{
    let frame = Method(channel, Basic(Nack(basic::Nack { delivery_tag: tag, multiple, requeue })));
    let write = gen_frame::<Vec<u8>>(&frame);
    let written = write(WriteContext::from(Vec::new())).ok()?;
    Some(written.into_inner().0)
}

} // verus!
