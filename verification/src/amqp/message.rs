//! AMQP traffic read as the operations a fleet performs.
//!
//! Publishing is not one frame: a method frame saying so, a content header
//! giving the body's size, then body frames until that many bytes have gone. A
//! fault placed at the second publish has to mean the whole of it, which is what
//! this recovers from the frames the protocol's own parser hands over.

use vstd::prelude::*;
use vstd::std_specs::hash::*;

use core::ops::Range;
use std::collections::hash_map::DefaultHasher;
use std::hash::Hasher;

use super::wire::{
    correlation_id, correlation_ids, message_id, message_ids, parse, parsed, Parsed, ParsedModel,
};

verus! {

/// What a fleet was doing, in terms a fault is placed against.
#[derive(Clone, Copy, Debug, PartialEq, Eq, Structural)]
pub enum Operation {
    /// A message going to the broker.
    Publish,
    /// A message handed to a consumer, whether pushed or fetched.
    Deliver {
        /// What the broker labelled it, which names it on this channel.
        tag: u64,
        /// Whether this message has been delivered before.
        redelivered: bool,
    },
    /// A consumer saying it is done with one.
    Ack { tag: u64 },
    /// A consumer refusing one, which is what makes the broker requeue it.
    Reject { tag: u64 },
    /// A consumer saying how many it will hold at once.
    Qos { prefetch: u16 },
    /// Connection and channel management.
    Housekeeping,
}

impl DeepView for Operation {
    type V = Operation;

    open spec fn deep_view(&self) -> Operation {
        *self
    }
}

impl Operation {
    /// What the fleet is doing, or `None` for a frame that starts nothing: a
    /// header or body belonging to a method frame that came before it.
    pub open spec fn read_in(frame: ParsedModel) -> Option<Operation> {
        match frame {
            ParsedModel::Published => Some(Operation::Publish),
            ParsedModel::Delivered(tag, redelivered) => Some(
                Operation::Deliver { tag, redelivered },
            ),
            ParsedModel::Fetched(tag, redelivered) => Some(Operation::Deliver { tag, redelivered }),
            ParsedModel::Acked(tag) => Some(Operation::Ack { tag }),
            ParsedModel::Rejected(tag) => Some(Operation::Reject { tag }),
            ParsedModel::Nacked(tag) => Some(Operation::Reject { tag }),
            ParsedModel::Limited(prefetch) => Some(Operation::Qos { prefetch }),
            ParsedModel::Housekeeping => Some(Operation::Housekeeping),
            ParsedModel::Head(_) => None,
            ParsedModel::Payload(_) => None,
            ParsedModel::Other => None,
        }
    }

    /// Whether this carries a message body, and so spans more than its method
    /// frame.
    pub open spec fn carries(self) -> bool {
        self is Publish || self is Deliver
    }

    /// What the fleet is doing, or `None` for a frame that starts nothing.
    pub fn of(frame: &Parsed) -> (r: Option<Operation>)
        ensures
            r == Operation::read_in(frame.deep_view()),
    {
        match frame {
            Parsed::Published => Some(Operation::Publish),
            Parsed::Delivered(tag, redelivered) => Some(
                Operation::Deliver { tag: *tag, redelivered: *redelivered },
            ),
            Parsed::Fetched(tag, redelivered) => Some(
                Operation::Deliver { tag: *tag, redelivered: *redelivered },
            ),
            Parsed::Acked(tag) => Some(Operation::Ack { tag: *tag }),
            Parsed::Rejected(tag) => Some(Operation::Reject { tag: *tag }),
            Parsed::Nacked(tag) => Some(Operation::Reject { tag: *tag }),
            Parsed::Limited(prefetch) => Some(Operation::Qos { prefetch: *prefetch }),
            Parsed::Housekeeping => Some(Operation::Housekeeping),
            Parsed::Head(_) => None,
            Parsed::Payload(_) => None,
            Parsed::Other => None,
        }
    }

    /// Whether this carries a message body, and so spans more than its method
    /// frame.
    pub fn has_body(&self) -> (r: bool)
        ensures
            r == self.carries(),
    {
        match self {
            Operation::Publish => true,
            Operation::Deliver { .. } => true,
            _ => false,
        }
    }
}

/// What names a message across deliveries of it.
///
/// A delivery tag counts what the broker has sent on a channel, so the same
/// message sent twice is two tags. What the fleet called it holds across both;
/// failing that, what it carried does.
#[derive(Debug, PartialEq, Eq)]
pub enum Identity {
    /// What the fleet called it, in a message id or a correlation id.
    Named(String),
    /// What it carried, for a fleet that named nothing. Two messages of the
    /// same shape are one identity, which is as far as a body can tell.
    Carried(u64),
}

/// What an [`Identity`] is.
pub enum IdentityModel {
    Named(Seq<char>),
    Carried(u64),
}

impl DeepView for Identity {
    type V = IdentityModel;

    open spec fn deep_view(&self) -> IdentityModel {
        match self {
            Identity::Named(name) => IdentityModel::Named(name@),
            Identity::Carried(hash) => IdentityModel::Carried(*hash),
        }
    }
}

impl Clone for Identity {
    fn clone(&self) -> (r: Identity)
        ensures
            r.deep_view() == self.deep_view(),
    {
        match self {
            Identity::Named(name) => Identity::Named(name.clone()),
            Identity::Carried(hash) => Identity::Carried(*hash),
        }
    }
}

impl Identity {
    /// Whether two identities are one.
    pub fn same(&self, other: &Identity) -> (r: bool)
        ensures
            r == (self.deep_view() == other.deep_view()),
    {
        match (self, other) {
            (Identity::Named(a), Identity::Named(b)) => *a == *b,
            (Identity::Carried(a), Identity::Carried(b)) => *a == *b,
            _ => false,
        }
    }
}

/// One frame, and where it sat in the stream it was parsed from.
#[derive(Debug, PartialEq, Eq)]
pub struct Framed {
    pub frame: Parsed,
    pub channel: u16,
    /// What the fleet called the message, where this is a content header.
    pub message_id: Option<String>,
    /// What the fleet called what the message answers, where this is a content
    /// header.
    pub correlation_id: Option<String>,
    pub start: usize,
    pub end: usize,
}

/// What a [`Framed`] is.
#[verifier::ext_equal]
pub struct FramedModel {
    pub frame: ParsedModel,
    pub channel: u16,
    pub message_id: Option<Seq<char>>,
    pub correlation_id: Option<Seq<char>>,
    pub start: int,
    pub end: int,
}

impl DeepView for Framed {
    type V = FramedModel;

    open spec fn deep_view(&self) -> FramedModel {
        FramedModel {
            frame: self.frame.deep_view(),
            channel: self.channel,
            message_id: self.message_id.deep_view(),
            correlation_id: self.correlation_id.deep_view(),
            start: self.start as int,
            end: self.end as int,
        }
    }
}

/// How many bytes the whole frame at the front of `bytes` takes, or zero where
/// there is none.
pub open spec fn taken(bytes: Seq<u8>) -> int {
    match parsed(bytes) {
        Some((rest, _, _)) => if rest < bytes.len() {
            bytes.len() - rest
        } else {
            0
        },
        None => 0,
    }
}

/// The frame those `bytes` are, where it sits at `offset` in the stream.
pub open spec fn framed(bytes: Seq<u8>, offset: int) -> FramedModel {
    let (_, channel, frame) = parsed(bytes)->0;
    let own = bytes.take(taken(bytes));
    FramedModel {
        frame,
        channel,
        message_id: if frame is Head {
            message_ids(own)
        } else {
            None
        },
        correlation_id: if frame is Head {
            correlation_ids(own)
        } else {
            None
        },
        start: offset,
        end: offset + taken(bytes),
    }
}

/// Every whole frame at the front of `bytes`, which sit at `offset` in the
/// stream.
///
/// One still arriving is left where it is: the parser says so rather than
/// guessing, so a frame split across reads is never half read.
pub open spec fn frames_of(bytes: Seq<u8>, offset: int) -> Seq<FramedModel>
    decreases bytes.len(),
{
    if taken(bytes) > 0 {
        seq![framed(bytes, offset)] + frames_of(bytes.skip(taken(bytes)), offset + taken(bytes))
    } else {
        Seq::empty()
    }
}

/// How many bytes the whole frames at the front of `bytes` take.
pub open spec fn whole_len(bytes: Seq<u8>) -> int
    decreases bytes.len(),
{
    if taken(bytes) > 0 {
        taken(bytes) + whole_len(bytes.skip(taken(bytes)))
    } else {
        0
    }
}

/// How the frames of a stream stand: one after another from `offset`, each with
/// something in it.
pub open spec fn in_line(frames: Seq<FramedModel>, offset: int, end: int) -> bool {
    &&& frames.len() > 0 ==> frames[0].start == offset && frames.last().end == end
    &&& frames.len() == 0 ==> offset == end
    &&& forall|k: int| 0 <= k < frames.len() ==> (#[trigger] frames[k]).start < frames[k].end
    &&& forall|k: int| 0 < k < frames.len() ==> (#[trigger] frames[k]).start == frames[k - 1].end
}

/// The frames at the front of a stream stand one after another from its start.
pub proof fn lemma_frames_in_line(bytes: Seq<u8>, offset: int)
    ensures
        0 <= whole_len(bytes) <= bytes.len(),
        in_line(frames_of(bytes, offset), offset, offset + whole_len(bytes)),
        frames_of(bytes, offset).len() <= whole_len(bytes),
    decreases bytes.len(),
{
    if taken(bytes) > 0 {
        let n = taken(bytes);
        lemma_frames_in_line(bytes.skip(n), offset + n);
        let more = frames_of(bytes.skip(n), offset + n);
        let all = frames_of(bytes, offset);
        assert(all =~= seq![framed(bytes, offset)] + more);
        assert forall|k: int| 0 < k < all.len() implies (#[trigger] all[k]).start == all[k - 1].end by {
            assert(all[k] == more[k - 1]);
            if k > 1 {
                assert(all[k - 1] == more[k - 2]);
            }
        }
        assert forall|k: int| 0 <= k < all.len() implies (#[trigger] all[k]).start < all[k].end by {
            if k > 0 {
                assert(all[k] == more[k - 1]);
            }
        }
        if more.len() > 0 {
            assert(all.last() == more.last());
        }
    }
}

/// Whether `more` arriving behind `bytes` leaves the frames already whole as
/// they were, and is read on from where they end.
pub open spec fn reads_on(bytes: Seq<u8>, more: Seq<u8>, offset: int) -> bool {
    let rest = bytes.skip(whole_len(bytes)) + more;
    &&& frames_of(bytes + more, offset) == frames_of(bytes, offset) + frames_of(
        rest,
        offset + whole_len(bytes),
    )
    &&& whole_len(bytes + more) == whole_len(bytes) + whole_len(rest)
}

/// Reads on past one frame whose reading rests on its own bytes alone.
#[verifier::rlimit(40)]
proof fn lemma_reads_on(bytes: Seq<u8>, more: Seq<u8>, offset: int)
    requires
        taken(bytes) > 0,
        taken(bytes + more) == taken(bytes),
        parsed(bytes + more) is Some,
        parsed(bytes) is Some,
        (parsed(bytes + more)->0).1 == (parsed(bytes)->0).1,
        (parsed(bytes + more)->0).2 == (parsed(bytes)->0).2,
        reads_on(bytes.skip(taken(bytes)), more, offset + taken(bytes)),
    ensures
        reads_on(bytes, more, offset),
{
    let n = taken(bytes);
    let rest = bytes.skip(n);
    let whole = bytes + more;
    let w = whole_len(rest);
    let first = framed(bytes, offset);
    let middle = frames_of(rest, offset + n);
    let last = frames_of(rest.skip(w) + more, offset + n + w);
    assert(0 <= w <= rest.len()) by {
        lemma_frames_in_line(rest, offset + n);
    }
    assert(whole_len(bytes) == n + w);
    assert(bytes.skip(n + w) =~= rest.skip(w));
    assert(whole.take(n) =~= bytes.take(n));
    assert(whole.skip(n) =~= rest + more);
    assert(framed(whole, offset) =~= first);
    assert(frames_of(whole, offset) == seq![first] + frames_of(rest + more, offset + n));
    assert(frames_of(bytes, offset) == seq![first] + middle);
    assert(seq![first] + (middle + last) =~= (seq![first] + middle) + last);
}

/// Every whole frame at the front of `bytes`, which sit at `offset` in the
/// stream.
///
/// However a stream is cut into reads, the same frames come out of it: what is
/// whole already stays as it is whatever arrives behind it.
pub fn decode(bytes: &[u8], offset: usize) -> (r: Vec<Framed>)
    requires
        offset + bytes@.len() <= usize::MAX,
    ensures
        r.deep_view() == frames_of(bytes@, offset as int),
        forall|more: Seq<u8>|
            bytes@.len() + more.len() <= usize::MAX ==> #[trigger] reads_on(
                bytes@,
                more,
                offset as int,
            ),
{
    let mut frames: Vec<Framed> = Vec::new();
    let mut at: usize = 0;
    let n: usize = bytes.len();
    let ghost whole = frames_of(bytes@, offset as int);
    proof {
        assert(bytes@.skip(0) =~= bytes@);
        assert(frames.deep_view() + whole =~= whole);
    }
    loop
        invariant
            n == bytes@.len(),
            at <= n,
            offset + n <= usize::MAX,
            whole == frames_of(bytes@, offset as int),
            frames.deep_view() + frames_of(bytes@.skip(at as int), offset + at) == whole,
            forall|more: Seq<u8>|
                n + more.len() <= usize::MAX && reads_on(
                    bytes@.skip(at as int),
                    more,
                    offset + at,
                ) ==> #[trigger] reads_on(bytes@, more, offset as int),
        ensures
            frames.deep_view() == whole,
            forall|more: Seq<u8>|
                n + more.len() <= usize::MAX ==> #[trigger] reads_on(bytes@, more, offset as int),
        decreases n - at,
    {
        let ghost rest = bytes@.skip(at as int);
        let tail = vstd::slice::slice_subrange(bytes, at, n);
        assert(tail@ =~= rest);
        match parse(tail) {
            Some((left, channel, frame)) => {
                let end: usize = n - left;
                let own = vstd::slice::slice_subrange(bytes, at, end);
                assert(own@ =~= rest.take(taken(rest)));
                let heads = match &frame {
                    Parsed::Head(_) => true,
                    _ => false,
                };
                let (message_id, correlation_id) = if heads {
                    (message_id(own), correlation_id(own))
                } else {
                    (None, None)
                };
                let next = Framed {
                    frame,
                    channel,
                    message_id,
                    correlation_id,
                    start: offset + at,
                    end: offset + end,
                };
                let ghost before = frames.deep_view();
                let ghost added = next.deep_view();
                frames.push(next);
                proof {
                    assert(added =~= framed(rest, offset + at));
                    assert(rest.skip(taken(rest)) =~= bytes@.skip(end as int));
                    let more = frames_of(bytes@.skip(end as int), offset + end);
                    assert(frames.deep_view() =~= before.push(added));
                    assert(before + (seq![added] + more) =~= before.push(added) + more);
                    assert forall|more: Seq<u8>|
                        n + more.len() <= usize::MAX && reads_on(
                            bytes@.skip(end as int),
                            more,
                            offset + end,
                        ) implies #[trigger] reads_on(bytes@, more, offset as int) by {
                        assert(parsed(rest + more) == Some(
                            ((left + more.len()) as usize, channel, (parsed(rest)->0).2),
                        ));
                        assert(taken(rest + more) == taken(rest));
                        lemma_reads_on(rest, more, offset + at);
                        assert(reads_on(bytes@.skip(at as int), more, offset + at));
                    }
                }
                at = end;
            },
            None => {
                proof {
                    assert(frames.deep_view() + Seq::empty() =~= frames.deep_view());
                    assert forall|more: Seq<u8>| n + more.len() <= usize::MAX implies
                        #[trigger] reads_on(bytes@, more, offset as int) by {
                        assert(rest.skip(0) =~= rest);
                        let all = frames_of(rest + more, offset + at);
                        assert(Seq::<FramedModel>::empty() + all =~= all);
                        assert(reads_on(bytes@.skip(at as int), more, offset + at));
                    }
                }
                break;
            },
        }
    }
    frames
}

/// How many body frames from `from` on it takes to carry `wanted` bytes, or
/// `None` while they are still arriving.
pub open spec fn body_frames(frames: Seq<FramedModel>, from: int, wanted: int) -> Option<nat>
    decreases frames.len() - from,
{
    if wanted <= 0 {
        Some(0)
    } else if from >= frames.len() {
        None
    } else {
        match frames[from].frame {
            ParsedModel::Payload(payload) => match body_frames(
                frames,
                from + 1,
                wanted - payload.len(),
            ) {
                Some(n) => Some(n + 1),
                None => None,
            },
            _ => Some(0),
        }
    }
}

/// How many frames follow the method frame at `at` in its message, or `None`
/// while its body is still arriving. A message whose body is empty has no body
/// frames at all. Where what follows is not a content header, nothing says where
/// the message ends, and its method frame is all that can be claimed.
pub open spec fn followed_by(frames: Seq<FramedModel>, at: int) -> Option<nat> {
    if at + 1 >= frames.len() {
        None
    } else {
        match frames[at + 1].frame {
            ParsedModel::Head(size) => match body_frames(frames, at + 2, size as int) {
                Some(n) => Some(n + 1),
                None => None,
            },
            _ => Some(0),
        }
    }
}

/// How many frames follow the method frame at `at` in its message, or `None`
/// while its body is still arriving.
fn body_ends(frames: &Vec<Framed>, at: usize) -> (r: Option<usize>)
    requires
        at < frames@.len(),
    ensures
        followed_by(frames.deep_view(), at as int) is None <==> r is None,
        r is Some ==> r->0 == followed_by(frames.deep_view(), at as int)->0 && at + r->0
            < frames@.len(),
{
    let ghost model = frames.deep_view();
    let n: usize = frames.len();
    if at + 1 >= n {
        return None;
    }
    let size = match &frames[at + 1].frame {
        Parsed::Head(size) => *size,
        _ => {
            return Some(0);
        },
    };
    assert(model[at + 1] == frames@[at + 1].deep_view());
    let mut left: u64 = size;
    let mut last: usize = at + 1;
    let ghost whole = body_frames(model, at + 2, size as int);
    while left > 0
        invariant
            n == frames@.len(),
            model == frames.deep_view(),
            at < last < n,
            whole == body_frames(model, at + 2, size as int),
            followed_by(model, at as int) == (match whole {
                Some(k) => Some(k + 1),
                None => None::<nat>,
            }),
            whole == (match body_frames(model, last + 1, left as int) {
                Some(k) => Some((last - at - 1 + k) as nat),
                None => None::<nat>,
            }),
        decreases n - last,
    {
        if last + 1 >= n {
            return None;
        }
        assert(model[last + 1] == frames@[last + 1].deep_view());
        match &frames[last + 1].frame {
            Parsed::Payload(payload) => {
                let carried: u64 = payload.len() as u64;
                proof {
                    let after = body_frames(model, last + 2, left - payload@.len());
                    assert(body_frames(model, last + 1, left as int) == (match after {
                        Some(k) => Some(k + 1),
                        None => None::<nat>,
                    }));
                    if carried >= left {
                        assert(after == Some(0nat));
                        assert(body_frames(model, last + 2, 0) == Some(0nat));
                    }
                }
                if carried >= left {
                    left = 0;
                } else {
                    left = left - carried;
                }
                last = last + 1;
            },
            _ => {
                return Some(last - at);
            },
        }
    }
    Some(last - at)
}

/// Everything the body frames from `from` on carried, as it is hashed: each one
/// led by how long it is.
pub open spec fn payloads(frames: Seq<FramedModel>, from: int) -> Seq<Seq<u8>>
    decreases frames.len() - from,
{
    if from >= frames.len() {
        Seq::empty()
    } else {
        match frames[from].frame {
            ParsedModel::Payload(payload) => seq![
                vstd::bytes::spec_u64_to_le_bytes(payload.len() as u64),
                payload,
            ] + payloads(frames, from + 1),
            _ => Seq::empty(),
        }
    }
}

/// What the frames of a message from `at` say it is.
pub open spec fn identity_of(frames: Seq<FramedModel>, at: int) -> Option<IdentityModel> {
    if at + 1 < frames.len() && frames[at + 1].frame is Head {
        match (frames[at + 1].message_id, frames[at + 1].correlation_id) {
            (Some(name), _) => Some(IdentityModel::Named(name)),
            (None, Some(name)) => Some(IdentityModel::Named(name)),
            (None, None) => Some(
                IdentityModel::Carried(DefaultHasher::spec_finish(payloads(frames, at + 2))),
            ),
        }
    } else {
        None
    }
}

impl Identity {
    /// What the frames of a message from `at` say it is.
    fn of(frames: &Vec<Framed>, at: usize) -> (r: Option<Identity>)
        requires
            at < frames@.len(),
        ensures
            r.deep_view() == identity_of(frames.deep_view(), at as int),
    {
        let ghost model = frames.deep_view();
        let n: usize = frames.len();
        if at + 1 >= n {
            return None;
        }
        let header = &frames[at + 1];
        assert(model[at + 1] == header.deep_view());
        match &header.frame {
            Parsed::Head(_) => {},
            _ => {
                return None;
            },
        }
        if let Some(name) = &header.message_id {
            return Some(Identity::Named(name.clone()));
        }
        if let Some(name) = &header.correlation_id {
            return Some(Identity::Named(name.clone()));
        }
        let mut carried = DefaultHasher::new();
        let mut next: usize = at + 2;
        let ghost all = payloads(model, at + 2);
        assert(carried@ + all =~= all);
        loop
            invariant
                n == frames@.len(),
                at + 2 <= next <= n || next == at + 2,
                at + 1 < n,
                model == frames.deep_view(),
                all == payloads(model, at + 2),
                carried@ + payloads(model, next as int) == all,
            ensures
                carried@ == all,
            decreases n - next,
        {
            if next >= n {
                assert(carried@ + Seq::empty() =~= carried@);
                break;
            }
            assert(model[next as int] == frames@[next as int].deep_view());
            match &frames[next].frame {
                Parsed::Payload(payload) => {
                    let ghost before = carried@;
                    let len = vstd::bytes::u64_to_le_bytes(payload.len() as u64);
                    carried.write(len.as_slice());
                    carried.write(payload.as_slice());
                    proof {
                        let rest = payloads(model, next + 1);
                        assert(before + (seq![len@, payload@] + rest) =~= before.push(len@).push(
                            payload@,
                        ) + rest);
                    }
                    next = next + 1;
                },
                _ => {
                    assert(carried@ + Seq::empty() =~= carried@);
                    break;
                },
            }
        }
        Some(Identity::Carried(carried.finish()))
    }
}

/// One operation, and every byte of it, so holding it back or letting it go is
/// a matter of copying `at` or not.
#[derive(Debug, PartialEq, Eq)]
pub struct Message {
    pub operation: Operation,
    pub channel: u16,
    pub at: Range<usize>,
    /// What this is, for an operation that carries a message.
    pub identity: Option<Identity>,
}

/// What a [`Message`] is.
#[verifier::ext_equal]
pub struct MessageModel {
    pub operation: Operation,
    pub channel: u16,
    pub start: int,
    pub end: int,
    pub identity: Option<IdentityModel>,
}

impl DeepView for Message {
    type V = MessageModel;

    open spec fn deep_view(&self) -> MessageModel {
        MessageModel {
            operation: self.operation,
            channel: self.channel,
            start: self.at.start as int,
            end: self.at.end as int,
            identity: self.identity.deep_view(),
        }
    }
}

/// The message `operation` is, which starts with the frame at `at` and has
/// `more` frames behind it.
pub open spec fn message(
    frames: Seq<FramedModel>,
    at: int,
    more: nat,
    operation: Operation,
) -> MessageModel {
    MessageModel {
        operation,
        channel: frames[at].channel,
        start: frames[at].start,
        end: frames[at + more].end,
        identity: if operation.carries() {
            identity_of(frames, at)
        } else {
            None
        },
    }
}

/// The operations the frames from `at` on make up.
///
/// An operation still arriving is left out along with the frames it has so far:
/// half a publish is not a publish, and holding one back before its body is
/// here would leave the broker waiting rather than the fleet losing a message.
pub open spec fn messages_from(frames: Seq<FramedModel>, at: int) -> Seq<MessageModel>
    decreases
        (if at < frames.len() {
            frames.len() - at
        } else {
            0
        }),
{
    if at >= frames.len() {
        Seq::empty()
    } else {
        match Operation::read_in(frames[at].frame) {
            None => messages_from(frames, at + 1),
            Some(operation) => if operation.carries() {
                match followed_by(frames, at) {
                    None => Seq::empty(),
                    Some(more) => seq![message(frames, at, more, operation)] + messages_from(
                        frames,
                        at + more + 1,
                    ),
                }
            } else {
                seq![message(frames, at, 0, operation)] + messages_from(frames, at + 1)
            },
        }
    }
}

/// How many frames from the first on those operations account for.
pub open spec fn frames_read(frames: Seq<FramedModel>, at: int) -> int
    decreases
        (if at < frames.len() {
            frames.len() - at
        } else {
            0
        }),
{
    if at >= frames.len() {
        at
    } else {
        match Operation::read_in(frames[at].frame) {
            None => frames_read(frames, at + 1),
            Some(operation) => if operation.carries() {
                match followed_by(frames, at) {
                    None => at,
                    Some(more) => frames_read(frames, at + more + 1),
                }
            } else {
                frames_read(frames, at + 1)
            },
        }
    }
}

/// Read `frames` as the operations they make up, and say how many frames those
/// account for.
pub fn read(frames: &Vec<Framed>) -> (r: (Vec<Message>, usize))
    ensures
        r.0.deep_view() == messages_from(frames.deep_view(), 0),
        r.1 == frames_read(frames.deep_view(), 0),
        r.1 <= frames@.len(),
        r.0@.len() <= r.1,
{
    let ghost model = frames.deep_view();
    let n: usize = frames.len();
    let mut messages: Vec<Message> = Vec::new();
    let mut taken: usize = 0;
    let ghost all = messages_from(model, 0);
    assert(messages.deep_view() + all =~= all);
    while taken < n
        invariant
            n == frames@.len(),
            taken <= n,
            messages@.len() <= taken,
            model == frames.deep_view(),
            all == messages_from(model, 0),
            messages.deep_view() + messages_from(model, taken as int) == all,
            frames_read(model, taken as int) == frames_read(model, 0),
        decreases n - taken,
    {
        let framed = &frames[taken];
        assert(model[taken as int] == framed.deep_view());
        match Operation::of(&framed.frame) {
            None => {
                taken = taken + 1;
            },
            Some(operation) => {
                let more: usize = if operation.has_body() {
                    match body_ends(frames, taken) {
                        Some(more) => more,
                        None => {
                            assert(messages.deep_view() + Seq::empty() =~= messages.deep_view());
                            return (messages, taken);
                        },
                    }
                } else {
                    0
                };
                let identity = if operation.has_body() {
                    Identity::of(frames, taken)
                } else {
                    None
                };
                let last = &frames[taken + more];
                assert(model[taken + more] == last.deep_view());
                let next = Message {
                    operation,
                    channel: framed.channel,
                    at: framed.start..last.end,
                    identity,
                };
                let ghost before = messages.deep_view();
                let ghost added = next.deep_view();
                messages.push(next);
                proof {
                    assert(added =~= message(model, taken as int, more as nat, operation));
                    let rest = messages_from(model, taken + more + 1);
                    assert(messages.deep_view() =~= before.push(added));
                    assert(before + (seq![added] + rest) =~= before.push(added) + rest);
                }
                taken = taken + more + 1;
            },
        }
    }
    assert(messages.deep_view() + Seq::empty() =~= messages.deep_view());
    (messages, taken)
}

} // verus!
