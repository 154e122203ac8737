//! One connection to a broker, read a direction at a time.

use vstd::prelude::*;

use vstd::string::*;

use super::message::{
    decode, frames_of, frames_read, lemma_frames_in_line, messages_from, read, reads_on, whole_len,
    Framed, FramedModel, Identity, IdentityModel, Message, MessageModel, Operation,
};
use super::wire::{nack_frame, write_nack};
use crate::bytes::{copy, extend};
use crate::protocol::{
    Did, DidModel, Direction, Doing, Placement, PlacementModel, Primitive,
};
use crate::text::{decimal, spell};

verus! {

/// Whether a note is for another channel.
pub open spec fn elsewhere<V>(channel: u16) -> spec_fn((u16, V)) -> bool {
    |note: (u16, V)| note.0 != channel
}

/// What is noted for a channel, with `value` noted in place of what was.
pub open spec fn noted<V>(notes: Seq<(u16, V)>, channel: u16, value: V) -> Seq<(u16, V)> {
    notes.filter(elsewhere(channel)).push((channel, value))
}

/// What is noted for a channel.
pub open spec fn note_on<V>(notes: Seq<(u16, V)>, channel: u16) -> Option<V>
    decreases notes.len(),
{
    if notes.len() == 0 {
        None
    } else if notes.last().0 == channel {
        Some(notes.last().1)
    } else {
        note_on(notes.drop_last(), channel)
    }
}

/// Notes `value` for a channel, in place of what was noted for it.
fn note<V: Copy>(notes: &mut Vec<(u16, V)>, channel: u16, value: V)
    ensures
        final(notes)@ == noted(old(notes)@, channel, value),
{
    let ghost before = notes@;
    let ghost kept = elsewhere::<V>(channel);
    let mut out: Vec<(u16, V)> = Vec::new();
    let n = notes.len();
    assert(before.take(0).filter(kept) =~= Seq::empty()) by {
        reveal(Seq::filter);
    }
    for i in 0..n
        invariant
            n == notes@.len(),
            before == notes@,
            kept == elsewhere::<V>(channel),
            out@ == before.take(i as int).filter(kept),
    {
        proof {
            reveal(Seq::filter);
            assert(before.take(i + 1).drop_last() =~= before.take(i as int));
        }
        let entry = notes[i];
        if entry.0 != channel {
            out.push(entry);
        }
    }
    assert(before.take(n as int) =~= before);
    out.push((channel, value));
    *notes = out;
}

/// What is noted for a channel.
fn noted_on<V: Copy>(notes: &Vec<(u16, V)>, channel: u16) -> (r: Option<V>)
    ensures
        r == note_on(notes@, channel),
{
    let mut i: usize = notes.len();
    assert(notes@.take(i as int) =~= notes@);
    while i > 0
        invariant
            i <= notes@.len(),
            note_on(notes@, channel) == note_on(notes@.take(i as int), channel),
        decreases i,
    {
        let ghost rest = notes@.take(i as int);
        assert(rest.drop_last() =~= notes@.take(i - 1));
        let entry = notes[i - 1];
        if entry.0 == channel {
            return Some(entry.1);
        }
        i = i - 1;
    }
    None
}

/// What the two directions of a connection have to agree on.
///
/// A delivery and the ack that ends it cross opposite ways, so neither reader
/// sees both. What a redelivery can be recognised by came with the delivery,
/// and what asks for one is the ack.
#[derive(Debug)]
pub struct Consuming {
    /// What the consumer holds and has not finished with, by the channel and
    /// the tag naming each delivery of it. Bounded by the prefetch the channel
    /// negotiated, since that is how many the broker will let it hold at once.
    outstanding: Vec<(u16, u64, Identity)>,
    /// The message a fault asked the broker to send again.
    asked: Option<Identity>,
    /// How many deliveries the consumer said it will hold at once, by channel.
    limits: Vec<(u16, u16)>,
}

/// What a [`Consuming`] holds.
#[verifier::ext_equal]
pub struct ConsumingModel {
    pub outstanding: Seq<(u16, u64, IdentityModel)>,
    pub asked: Option<IdentityModel>,
    pub limits: Seq<(u16, u16)>,
}

impl DeepView for Consuming {
    type V = ConsumingModel;

    closed spec fn deep_view(&self) -> ConsumingModel {
        ConsumingModel {
            outstanding: self.outstanding.deep_view(),
            asked: self.asked.deep_view(),
            limits: self.limits@,
        }
    }
}

/// Whether what a consumer holds is another delivery.
pub open spec fn another(channel: u16, tag: u64) -> spec_fn((u16, u64, IdentityModel)) -> bool {
    |held: (u16, u64, IdentityModel)| !(held.0 == channel && held.1 == tag)
}

/// What the consumer holds besides that delivery.
pub open spec fn besides(
    outstanding: Seq<(u16, u64, IdentityModel)>,
    channel: u16,
    tag: u64,
) -> Seq<(u16, u64, IdentityModel)> {
    outstanding.filter(another(channel, tag))
}

/// What the consumer holds as that delivery.
pub open spec fn held_as(
    outstanding: Seq<(u16, u64, IdentityModel)>,
    channel: u16,
    tag: u64,
) -> Option<IdentityModel>
    decreases outstanding.len(),
{
    if outstanding.len() == 0 {
        None
    } else if outstanding.last().0 == channel && outstanding.last().1 == tag {
        Some(outstanding.last().2)
    } else {
        held_as(outstanding.drop_last(), channel, tag)
    }
}

/// What a fault says of itself when the message it asked for came round again.
pub open spec fn came_again() -> DidModel {
    DidModel::Placed("the broker delivered the message again"@)
}

impl ConsumingModel {
    /// Nothing delivered yet.
    pub open spec fn none() -> ConsumingModel {
        ConsumingModel { outstanding: Seq::empty(), asked: None, limits: Seq::empty() }
    }

    /// The broker has handed that to the consumer as `tag`.
    pub open spec fn delivered(
        self,
        channel: u16,
        tag: u64,
        identity: Option<IdentityModel>,
    ) -> ConsumingModel {
        match identity {
            Some(identity) => ConsumingModel {
                outstanding: besides(self.outstanding, channel, tag).push((channel, tag, identity)),
                ..self
            },
            None => self,
        }
    }

    /// The consumer is done with `tag`, one way or another.
    pub open spec fn finished(self, channel: u16, tag: u64) -> ConsumingModel {
        ConsumingModel { outstanding: besides(self.outstanding, channel, tag), ..self }
    }

    /// Whether `identity` is what a fault asked for.
    pub open spec fn answered_by(self, identity: Option<IdentityModel>) -> bool {
        self.asked is Some && self.asked == identity
    }

    /// What the consumer holds once `message` has crossed. One fault asks once,
    /// so what it asked for is forgotten when it comes, and the next redelivery
    /// is the fleet's own doing.
    pub open spec fn following(self, message: MessageModel) -> ConsumingModel {
        match message.operation {
            Operation::Deliver { tag, redelivered } => {
                let held = self.delivered(message.channel, tag, message.identity);
                if redelivered && self.answered_by(message.identity) {
                    ConsumingModel { asked: None, ..held }
                } else {
                    held
                }
            },
            Operation::Ack { tag } => self.finished(message.channel, tag),
            Operation::Reject { tag } => self.finished(message.channel, tag),
            Operation::Qos { prefetch } => ConsumingModel {
                limits: noted(self.limits, message.channel, prefetch),
                ..self
            },
            Operation::Publish => self,
            Operation::Housekeeping => self,
        }
    }

    /// What a fault says of itself once `message` has crossed.
    pub open spec fn tells(self, message: MessageModel) -> Option<DidModel> {
        match message.operation {
            Operation::Deliver { redelivered, .. } => if redelivered && self.answered_by(
                message.identity,
            ) {
                Some(came_again())
            } else {
                None
            },
            _ => None,
        }
    }

    /// Whether the consumer takes one delivery at a time on `channel`, which
    /// leaves it nowhere to be told things out of order.
    pub open spec fn one_at_a_time(self, channel: u16) -> bool {
        note_on(self.limits, channel) == Some(1u16)
    }
}

impl Default for Consuming {
    fn default() -> (r: Consuming)
        ensures
            r.deep_view() == ConsumingModel::none(),
    {
        let r = Consuming { outstanding: Vec::new(), asked: None, limits: Vec::new() };
        proof {
            assert(r.outstanding.deep_view() =~= Seq::empty());
        }
        r
    }
}

impl Consuming {
    /// The consumer is done with `tag`, one way or another.
    fn finished(&mut self, channel: u16, tag: u64)
        ensures
            final(self).deep_view() == old(self).deep_view().finished(channel, tag),
    {
        let ghost model = self.outstanding.deep_view();
        let ghost keeps = another(channel, tag);
        let mut out: Vec<(u16, u64, Identity)> = Vec::new();
        assert(out.deep_view() =~= model.take(0).filter(keeps)) by {
            reveal(Seq::filter);
        }
        for i in 0..self.outstanding.len()
            invariant
                model == self.outstanding.deep_view(),
                keeps == another(channel, tag),
                out.deep_view() == model.take(i as int).filter(keeps),
        {
            proof {
                reveal(Seq::filter);
                assert(model.take(i + 1).drop_last() =~= model.take(i as int));
                assert(model[i as int] == self.outstanding@[i as int].deep_view());
            }
            let held = &self.outstanding[i];
            if !(held.0 == channel && held.1 == tag) {
                let ghost before = out.deep_view();
                let kept = (held.0, held.1, held.2.clone());
                let ghost added = kept.deep_view();
                out.push(kept);
                assert(out.deep_view() =~= before.push(added));
            }
        }
        assert(model.take(model.len() as int) =~= model);
        self.outstanding = out;
    }

    /// The broker has handed `identity` to the consumer as `tag`.
    fn delivered(&mut self, channel: u16, tag: u64, identity: &Option<Identity>)
        ensures
            final(self).deep_view() == old(self).deep_view().delivered(
                channel,
                tag,
                identity.deep_view(),
            ),
    {
        if let Some(identity) = identity {
            self.finished(channel, tag);
            let ghost before = self.outstanding.deep_view();
            let held = (channel, tag, identity.clone());
            let ghost added = held.deep_view();
            self.outstanding.push(held);
            assert(self.outstanding.deep_view() =~= before.push(added));
        }
    }

    /// What the consumer is holding as `tag`.
    fn holding(&self, channel: u16, tag: u64) -> (r: Option<Identity>)
        ensures
            r.deep_view() == held_as(self.deep_view().outstanding, channel, tag),
    {
        let ghost model = self.outstanding.deep_view();
        let mut i: usize = self.outstanding.len();
        assert(model.take(i as int) =~= model);
        while i > 0
            invariant
                i <= self.outstanding@.len(),
                model == self.outstanding.deep_view(),
                model == self.deep_view().outstanding,
                held_as(model, channel, tag) == held_as(model.take(i as int), channel, tag),
            decreases i,
        {
            let held = &self.outstanding[i - 1];
            proof {
                let rest = model.take(i as int);
                assert(rest.drop_last() =~= model.take(i - 1));
                assert(model[i - 1] == held.deep_view());
            }
            if held.0 == channel && held.1 == tag {
                return Some(held.2.clone());
            }
            i = i - 1;
        }
        None
    }

    /// Ask for `identity` to be sent again.
    fn ask(&mut self, identity: Identity)
        ensures
            final(self).deep_view() == (ConsumingModel {
                asked: Some(identity.deep_view()),
                ..old(self).deep_view()
            }),
    {
        self.asked = Some(identity);
    }

    /// Whether `identity` is what was asked for, forgetting it if it is: one
    /// fault asks once, so the next redelivery is the fleet's own doing.
    fn answers(&mut self, identity: &Option<Identity>) -> (r: bool)
        ensures
            r == old(self).deep_view().answered_by(identity.deep_view()),
            final(self).deep_view() == if r {
                (ConsumingModel { asked: None, ..old(self).deep_view() })
            } else {
                old(self).deep_view()
            },
    {
        let same = match (&self.asked, identity) {
            (Some(asked), Some(identity)) => asked.same(identity),
            _ => false,
        };
        if same {
            self.asked = None;
        }
        same
    }

    /// Follow what the consumer is holding, and say when the message a fault
    /// asked for comes round again.
    fn track(&mut self, message: &Message) -> (r: Option<Did>)
        ensures
            r.deep_view() == old(self).deep_view().tells(message.deep_view()),
            final(self).deep_view() == old(self).deep_view().following(message.deep_view()),
    {
        match message.operation {
            Operation::Deliver { tag, redelivered } => {
                self.delivered(message.channel, tag, &message.identity);
                if redelivered && self.answers(&message.identity) {
                    Some(Did::Placed("the broker delivered the message again".to_owned()))
                } else {
                    None
                }
            },
            Operation::Ack { tag } => {
                self.finished(message.channel, tag);
                None
            },
            Operation::Reject { tag } => {
                self.finished(message.channel, tag);
                None
            },
            Operation::Qos { prefetch } => {
                note(&mut self.limits, message.channel, prefetch);
                None
            },
            Operation::Publish => None,
            Operation::Housekeeping => None,
        }
    }

    /// Whether the consumer takes one delivery at a time on `channel`.
    fn takes_one(&self, channel: u16) -> (r: bool)
        ensures
            r == self.deep_view().one_at_a_time(channel),
    {
        match noted_on(&self.limits, channel) {
            Some(limit) => limit == 1,
            None => false,
        }
    }
}

/// One whole frame on its way back to the wire, and where it sat in the stream.
///
/// Its bytes are the ones that arrived, so nothing the parser does not
/// understand can be lost by writing it out again. Only one a fault replaced
/// is not.
#[derive(Debug)]
struct Wire {
    start: usize,
    end: usize,
    bytes: Vec<u8>,
}

/// A frame on its way back to the wire.
#[verifier::ext_equal]
pub struct WireModel {
    pub start: int,
    pub end: int,
    pub bytes: Seq<u8>,
}

impl DeepView for Wire {
    type V = WireModel;

    closed spec fn deep_view(&self) -> WireModel {
        WireModel { start: self.start as int, end: self.end as int, bytes: self.bytes@ }
    }
}

/// What `frames` of `bytes`, which sit at `offset` in the stream, go back to the
/// wire as.
pub open spec fn wired(bytes: Seq<u8>, frames: Seq<FramedModel>, offset: int) -> Seq<WireModel> {
    Seq::new(
        frames.len(),
        |i: int|
            WireModel {
                start: frames[i].start,
                end: frames[i].end,
                bytes: bytes.subrange(frames[i].start - offset, frames[i].end - offset),
            },
    )
}

/// What the frames at the front of `bytes`, which sit at `offset` in the
/// stream, go back to the wire as.
pub open spec fn wire_of(bytes: Seq<u8>, offset: int) -> Seq<WireModel> {
    wired(bytes, frames_of(bytes, offset), offset)
}

/// Which side of an operation a fault goes.
#[derive(Clone, Copy, Debug, PartialEq, Eq, Structural)]
pub enum Side {
    Before,
    After,
}

impl Side {
    /// The side as a mark names it.
    pub open spec fn spelling(self) -> Seq<char> {
        match self {
            Side::Before => "before"@,
            Side::After => "after"@,
        }
    }

    /// Where in the stream the fleet is held on `message`.
    pub open spec fn boundary(self, message: MessageModel) -> int {
        match self {
            Side::Before => message.start,
            Side::After => message.end,
        }
    }

    /// The side as a mark names it.
    pub fn spell(&self) -> (r: &'static str)
        ensures
            r@ == self.spelling(),
    {
        match self {
            Side::Before => "before",
            Side::After => "after",
        }
    }

    /// How many of `wire` go out before the fleet is held on `message`.
    ///
    /// A message that began in an earlier read has already had those frames go,
    /// so the most this side can still hold back is everything in this one.
    fn holds(&self, wire: &Vec<Wire>, message: &Message) -> (r: usize)
        ensures
            r == gone_by(wire.deep_view(), self.boundary(message.deep_view())),
    {
        let boundary: usize = match self {
            Side::Before => message.at.start,
            Side::After => message.at.end,
        };
        let ghost model = wire.deep_view();
        let n: usize = wire.len();
        let mut i: usize = 0;
        assert(model.skip(0) =~= model);
        while i < n
            invariant
                i <= n,
                n == wire@.len(),
                model == wire.deep_view(),
                boundary as int == self.boundary(message.deep_view()),
                gone_by(model, boundary as int) == i + gone_by(
                    model.skip(i as int),
                    boundary as int,
                ),
            decreases n - i,
        {
            proof {
                let rest = model.skip(i as int);
                assert(rest[0] == model[i as int]);
                assert(model[i as int] == wire@[i as int].deep_view());
                assert(rest.skip(1) =~= model.skip(i + 1));
            }
            if wire[i].end > boundary {
                return i;
            }
            i = i + 1;
        }
        n
    }
}

/// How many of `wire` end at or before `boundary`, from the first on.
pub open spec fn gone_by(wire: Seq<WireModel>, boundary: int) -> nat
    decreases wire.len(),
{
    if wire.len() == 0 || wire[0].end > boundary {
        0
    } else {
        1 + gone_by(wire.skip(1), boundary)
    }
}

/// Where the acknowledgement of `tag` offers to have the fleet do the same
/// thing twice.
///
/// A consumer's ack is the broker letting go of its copy. Refusing it instead,
/// asking for the message back, is how the broker itself is made to send it
/// again, so what arrives is a redelivery the fleet would have to be ready for
/// rather than a copy this made up.
pub open spec fn redelivery_of(tag: u64, direction: Direction) -> PlacementModel {
    PlacementModel {
        direction,
        mark: "redeliver:"@ + decimal(tag as nat),
        why: "a message the consumer finished with, delivered to it again"@,
        doing: Doing::Rewriting(Primitive::Redeliver),
    }
}

/// Where a message the broker has already sent offers to arrive after one sent
/// later, which is what a fleet relying on the order it was told things would
/// not survive.
///
/// A delivery is only offered once another follows it: holding one back with
/// nothing behind it to go first would take the message away rather than
/// reorder it, and that is a different fault.
pub open spec fn reorder_of(tag: u64, direction: Direction) -> PlacementModel {
    PlacementModel {
        direction,
        mark: "reorder:"@ + decimal(tag as nat),
        why: "a message held back until after the one the broker sent next"@,
        doing: Doing::Rewriting(Primitive::Reorder),
    }
}

/// A moment on one side of the operation `name`.
pub open spec fn moment(
    name: Seq<char>,
    side: Side,
    why: Seq<char>,
    direction: Direction,
) -> PlacementModel {
    PlacementModel {
        direction,
        mark: name + ":"@ + side.spelling(),
        why,
        doing: Doing::Holding,
    }
}

/// What an operation is called, given how many were published so far.
pub open spec fn called(operation: Operation, published: nat) -> Seq<char> {
    match operation {
        Operation::Publish => "publish:"@ + decimal(published + 1),
        Operation::Deliver { tag, .. } => "deliver:"@ + decimal(tag as nat),
        Operation::Ack { tag } => "ack:"@ + decimal(tag as nat),
        Operation::Reject { tag } => "reject:"@ + decimal(tag as nat),
        Operation::Qos { .. } => Seq::empty(),
        Operation::Housekeeping => Seq::empty(),
    }
}

/// What faulting before an operation catches, or `None` where it catches
/// nothing.
pub open spec fn catches_before(operation: Operation) -> Option<Seq<char>> {
    match operation {
        Operation::Publish => Some(
            "a publish the sender has committed to and the broker has not seen"@,
        ),
        Operation::Deliver { .. } => Some(
            "a delivery the broker has released and the consumer has not seen"@,
        ),
        Operation::Ack { .. } => Some("an ack the consumer has sent and the broker has not seen"@),
        Operation::Reject { .. } => Some(
            "a refusal the consumer has sent and the broker has not seen"@,
        ),
        Operation::Qos { .. } => None,
        Operation::Housekeeping => None,
    }
}

/// What faulting after an operation catches, or `None` where it catches
/// nothing.
pub open spec fn catches_after(operation: Operation) -> Option<Seq<char>> {
    match operation {
        Operation::Publish => Some("a publish the broker has taken but not confirmed"@),
        Operation::Deliver { .. } => Some("a delivery the consumer has but has not acknowledged"@),
        Operation::Ack { .. } => Some("an ack the broker has taken, releasing its copy"@),
        Operation::Reject { .. } => Some(
            "a refusal the broker has taken, requeueing or dead-lettering it"@,
        ),
        Operation::Qos { .. } => None,
        Operation::Housekeeping => None,
    }
}

/// Reads one direction of one connection, across as many reads as it takes.
///
/// A frame can arrive split over several reads and a message over several
/// frames, so what is not yet whole is held here until the rest of it turns up.
#[derive(Debug)]
pub struct Reader {
    /// Bytes of a frame that has not finished arriving.
    pending: Vec<u8>,
    /// Whole frames of an operation that has not finished arriving.
    frames: Vec<Framed>,
    /// Bytes parsed into `frames`, which is what makes every extent count from
    /// the same place however the stream was broken up.
    taken: usize,
    /// Publishes this has seen, which is what a mark counts.
    published: usize,
    /// The moment a schedule named, watched for as the run goes.
    watching: Option<String>,
    /// The last delivery this carried on each channel, so the one before can be
    /// offered as somewhere the fleet could be told things out of order.
    last: Vec<(u16, u64)>,
    /// A message kept back, waiting for the one the broker sent next to go
    /// first.
    held: Option<Vec<u8>>,
    /// Which way this reader's traffic runs, which every placement it finds is
    /// on.
    direction: Direction,
}

/// What a [`Reader`] holds.
#[verifier::ext_equal]
pub struct ReaderModel {
    pub pending: Seq<u8>,
    pub frames: Seq<FramedModel>,
    pub taken: int,
    pub published: nat,
    pub watching: Option<Seq<char>>,
    pub last: Seq<(u16, u64)>,
    pub held: Option<Seq<u8>>,
    pub direction: Direction,
}

impl DeepView for Reader {
    type V = ReaderModel;

    closed spec fn deep_view(&self) -> ReaderModel {
        ReaderModel {
            pending: self.pending@,
            frames: self.frames.deep_view(),
            taken: self.taken as int,
            published: self.published as nat,
            watching: self.watching.deep_view(),
            last: self.last@,
            held: match self.held {
                Some(held) => Some(held@),
                None => None,
            },
            direction: self.direction,
        }
    }
}

impl ReaderModel {
    /// A reader that has seen nothing, and watches for that.
    pub open spec fn fresh(direction: Direction, watching: Option<Seq<char>>) -> ReaderModel {
        ReaderModel {
            pending: Seq::empty(),
            frames: Seq::empty(),
            taken: 0,
            published: 0,
            watching,
            last: Seq::empty(),
            held: None,
            direction,
        }
    }

    /// Whether no more was published than has crossed, and nothing is watched
    /// for while a message is kept back.
    pub open spec fn wf(self) -> bool {
        &&& self.published + self.frames.len() <= self.taken
        &&& self.held is Some ==> self.watching is None
    }

    /// Whether `placement` is the moment a schedule named.
    pub open spec fn watches(self, placement: PlacementModel) -> bool {
        self.watching == Some(placement.mark)
    }
}

/// What carrying one read has come to so far.
#[verifier::ext_equal]
pub struct RunModel {
    pub wire: Seq<WireModel>,
    pub freeze_after: Option<nat>,
    pub found: Seq<PlacementModel>,
    pub did: Option<DidModel>,
    /// What a reorder keeps back.
    pub keep: Option<(int, int)>,
    /// Whether what is kept back goes.
    pub release: bool,
}

/// A reader part of the way through a read, and what both directions of its
/// connection agree on.
#[verifier::ext_equal]
pub struct Carrying {
    pub reader: ReaderModel,
    pub run: RunModel,
    pub consuming: ConsumingModel,
}

/// Where among `wire` the frame from `start` to `end` is, or the length where
/// it is not.
pub open spec fn place_of(wire: Seq<WireModel>, start: int, end: int) -> nat
    decreases wire.len(),
{
    if wire.len() == 0 || (wire[0].start == start && wire[0].end == end) {
        0
    } else {
        1 + place_of(wire.skip(1), start, end)
    }
}

impl Carrying {
    /// Refuse `message` in place of the ack that would have let the broker drop
    /// it, and ask for the message it ends to be sent again.
    ///
    /// Nothing is placed yet, the broker may dead-letter the message instead of
    /// requeueing it.
    pub open spec fn refusing(self, message: MessageModel, tag: u64) -> Carrying {
        let said = |why: Seq<char>|
            Carrying {
                run: RunModel { did: Some(DidModel::Unplaceable(why)), ..self.run },
                ..self
            };
        let at = place_of(self.run.wire, message.start, message.end) as int;
        match held_as(self.consuming.outstanding, message.channel, tag) {
            None => said(
                "nothing said what the consumer was finishing with, so a redelivery of it could not be told from any other"@,
            ),
            Some(identity) => if at >= self.run.wire.len() {
                said("the ack had already gone"@)
            } else {
                let refusal = nack_frame(message.channel, tag, false, true);
                Carrying {
                    run: RunModel {
                        wire: self.run.wire.update(
                            at,
                            WireModel { bytes: refusal, ..self.run.wire[at] },
                        ),
                        did: Some(DidModel::Asked),
                        ..self.run
                    },
                    consuming: ConsumingModel { asked: Some(identity), ..self.consuming },
                    ..self
                }
            },
        }
    }

    /// With `placement` offered.
    pub open spec fn finding(self, placement: PlacementModel) -> Carrying {
        Carrying { run: RunModel { found: self.run.found.push(placement), ..self.run }, ..self }
    }

    /// Having watched for what a schedule named. It names one moment, so once
    /// that is done there is nothing left to watch for.
    pub open spec fn done_watching(self) -> Carrying {
        Carrying { reader: ReaderModel { watching: None, ..self.reader }, ..self }
    }

    /// Once a redelivery has been offered, and asked for where it is what a
    /// schedule named.
    pub open spec fn offering(self, message: MessageModel, placing: bool) -> Carrying {
        match message.operation {
            Operation::Ack { tag } => {
                let placement = redelivery_of(tag, self.reader.direction);
                let then = if placing && self.reader.watches(placement) {
                    self.done_watching().refusing(message, tag)
                } else {
                    self
                };
                then.finding(placement)
            },
            _ => self,
        }
    }

    /// Once a reorder has been offered, and begun where it is what a schedule
    /// named.
    ///
    /// A delivery is offered once another follows it, so what the schedule names
    /// is known to have something to go behind, and is not offered to a consumer
    /// that takes one at a time.
    pub open spec fn ordering(self, message: MessageModel, placing: bool) -> Carrying {
        match message.operation {
            Operation::Deliver { tag, .. } => {
                let noted_last = Carrying {
                    reader: ReaderModel {
                        last: noted(self.reader.last, message.channel, tag),
                        ..self.reader
                    },
                    ..self
                };
                let then = match note_on(self.reader.last, message.channel) {
                    Some(before) => if self.consuming.one_at_a_time(message.channel) {
                        noted_last
                    } else {
                        noted_last.finding(reorder_of(before, self.reader.direction))
                    },
                    None => noted_last,
                };
                if placing && self.reader.watches(reorder_of(tag, self.reader.direction)) {
                    let done = then.done_watching();
                    Carrying {
                        run: RunModel { keep: Some((message.start, message.end)), ..done.run },
                        ..done
                    }
                } else if self.reader.held is Some {
                    // The one the broker sent next, which goes first.
                    Carrying { run: RunModel { release: true, ..then.run }, ..then }
                } else {
                    then
                }
            },
            _ => self,
        }
    }

    /// Once what the consumer holds has followed `message`.
    pub open spec fn tracking(self, message: MessageModel) -> Carrying {
        let did = match self.consuming.tells(message) {
            Some(did) => Some(did),
            None => self.run.did,
        };
        Carrying {
            run: RunModel { did, ..self.run },
            consuming: self.consuming.following(message),
            ..self
        }
    }

    /// Once a moment has been offered, and the fleet held there where it is what
    /// a schedule named.
    pub open spec fn holding(
        self,
        message: MessageModel,
        side: Side,
        name: Seq<char>,
        why: Seq<char>,
    ) -> Carrying {
        let placement = moment(name, side, why, self.reader.direction);
        let then = if self.reader.watches(placement) {
            Carrying {
                run: RunModel {
                    freeze_after: Some(gone_by(self.run.wire, side.boundary(message))),
                    ..self.run
                },
                ..self
            }
        } else {
            self
        };
        then.finding(placement)
    }

    /// Once a fault has been placed either side of `message`.
    pub open spec fn counting(self, message: MessageModel) -> Carrying {
        let name = called(message.operation, self.reader.published);
        match (catches_before(message.operation), catches_after(message.operation)) {
            (Some(before), Some(after)) => {
                let counted = if message.operation is Publish {
                    Carrying {
                        reader: ReaderModel {
                            published: self.reader.published + 1,
                            ..self.reader
                        },
                        ..self
                    }
                } else {
                    self
                };
                counted.holding(message, Side::Before, name, before).holding(
                    message,
                    Side::After,
                    name,
                    after,
                )
            },
            _ => self,
        }
    }

    /// Once `message` has been dealt with. What the consumer holds follows after
    /// the fault, which reads what it is holding before this lets go of it.
    pub open spec fn after(self, message: MessageModel, placing: bool) -> Carrying {
        self.offering(message, placing).ordering(message, placing).tracking(message).counting(
            message,
        )
    }

    /// Once every message has been dealt with, in order.
    pub open spec fn after_all(self, messages: Seq<MessageModel>, placing: bool) -> Carrying
        decreases messages.len(),
    {
        if messages.len() == 0 {
            self
        } else {
            self.after_all(messages.drop_last(), placing).after(messages.last(), placing)
        }
    }
}

/// Whether a reorder keeps that frame back.
pub open spec fn keeps(keep: Option<(int, int)>, frame: WireModel) -> bool {
    keep matches Some((start, end)) && start <= frame.start < end
}

/// The frames that go on.
pub open spec fn going(wire: Seq<WireModel>, keep: Option<(int, int)>) -> Seq<Seq<u8>>
    decreases wire.len(),
{
    if wire.len() == 0 {
        Seq::empty()
    } else {
        let rest = going(wire.drop_last(), keep);
        if keeps(keep, wire.last()) {
            rest
        } else {
            rest.push(wire.last().bytes)
        }
    }
}

/// The bytes of the frames kept back.
pub open spec fn staying(wire: Seq<WireModel>, keep: Option<(int, int)>) -> Seq<u8>
    decreases wire.len(),
{
    if wire.len() == 0 {
        Seq::empty()
    } else {
        let rest = staying(wire.drop_last(), keep);
        if keeps(keep, wire.last()) {
            rest + wire.last().bytes
        } else {
            rest
        }
    }
}

/// What came of carrying one read.
#[derive(Debug, PartialEq, Eq)]
pub struct Carried {
    /// What goes on, a frame at a time.
    pub forward: Vec<Vec<u8>>,
    /// How many of those go before the fleet is held, where a schedule named a
    /// moment among them.
    pub freeze_after: Option<usize>,
    /// The moments this read offers.
    pub found: Vec<Placement>,
    /// What a fault placed here says of itself.
    pub did: Option<Did>,
}

/// What a [`Carried`] holds.
#[verifier::ext_equal]
pub struct CarriedModel {
    pub forward: Seq<Seq<u8>>,
    pub freeze_after: Option<nat>,
    pub found: Seq<PlacementModel>,
    pub did: Option<DidModel>,
}

impl DeepView for Carried {
    type V = CarriedModel;

    open spec fn deep_view(&self) -> CarriedModel {
        CarriedModel {
            forward: self.forward.deep_view(),
            freeze_after: match self.freeze_after {
                Some(n) => Some(n as nat),
                None => None,
            },
            found: self.found.deep_view(),
            did: self.did.deep_view(),
        }
    }
}

/// What a fault says of itself when what it held back has gone.
pub open spec fn went_after() -> DidModel {
    DidModel::Placed("a message the broker sent first arrived after the one it sent next"@)
}

impl Carrying {
    /// What the reader is left holding back.
    pub open spec fn left_held(self) -> Option<Seq<u8>> {
        let kept = staying(self.run.wire, self.run.keep);
        if kept.len() > 0 {
            Some(kept)
        } else {
            self.reader.held
        }
    }

    /// What came of the read.
    pub open spec fn carried(self) -> CarriedModel {
        let forward = going(self.run.wire, self.run.keep);
        let did = if staying(self.run.wire, self.run.keep).len() > 0 {
            Some(DidModel::Asked)
        } else {
            self.run.did
        };
        let releases = self.run.release && self.left_held() is Some;
        CarriedModel {
            forward: if releases {
                forward.push(self.left_held()->0)
            } else {
                forward
            },
            freeze_after: self.run.freeze_after,
            found: self.run.found,
            did: if releases {
                Some(went_after())
            } else {
                did
            },
        }
    }

    /// The reader once the read is over.
    pub open spec fn left(self) -> ReaderModel {
        ReaderModel {
            held: if self.run.release {
                None
            } else {
                self.left_held()
            },
            ..self.reader
        }
    }
}

impl ReaderModel {
    /// The reader once it has taken `bytes` off the wire, with what was read of
    /// them gone from it.
    pub open spec fn having_read(self, bytes: Seq<u8>) -> ReaderModel {
        let stream = self.pending + bytes;
        let frames = self.frames + frames_of(stream, self.taken);
        ReaderModel {
            pending: stream.skip(whole_len(stream)),
            frames: frames.skip(frames_read(frames, 0)),
            taken: self.taken + whole_len(stream),
            ..self
        }
    }

    /// The operations those bytes complete.
    pub open spec fn completed_by(self, bytes: Seq<u8>) -> Seq<MessageModel> {
        messages_from(self.frames + frames_of(self.pending + bytes, self.taken), 0)
    }

    /// Where carrying `bytes` starts.
    pub open spec fn starting(self, consuming: ConsumingModel, bytes: Seq<u8>) -> Carrying {
        Carrying {
            reader: self.having_read(bytes),
            run: RunModel {
                wire: wire_of(self.pending + bytes, self.taken),
                freeze_after: None,
                found: Seq::empty(),
                did: None,
                keep: None,
                release: false,
            },
            consuming,
        }
    }

    /// Where carrying `bytes` ends.
    pub open spec fn carrying(
        self,
        consuming: ConsumingModel,
        bytes: Seq<u8>,
        placing: bool,
    ) -> Carrying {
        self.starting(consuming, bytes).after_all(self.completed_by(bytes), placing)
    }
}

/// What carrying one read has come to so far.
struct Run {
    wire: Vec<Wire>,
    freeze_after: Option<usize>,
    found: Vec<Placement>,
    did: Option<Did>,
    keep: Option<(usize, usize)>,
    release: bool,
}

impl DeepView for Run {
    type V = RunModel;

    closed spec fn deep_view(&self) -> RunModel {
        RunModel {
            wire: self.wire.deep_view(),
            freeze_after: match self.freeze_after {
                Some(n) => Some(n as nat),
                None => None,
            },
            found: self.found.deep_view(),
            did: self.did.deep_view(),
            keep: match self.keep {
                Some((start, end)) => Some((start as int, end as int)),
                None => None,
            },
            release: self.release,
        }
    }
}

impl Run {
    /// With `placement` offered.
    fn find(&mut self, placement: Placement)
        ensures
            final(self).deep_view() == (RunModel {
                found: old(self).deep_view().found.push(placement.deep_view()),
                ..old(self).deep_view()
            }),
    {
        let ghost before = self.found.deep_view();
        let ghost added = placement.deep_view();
        self.found.push(placement);
        assert(self.found.deep_view() =~= before.push(added));
    }
}

/// A text and a number behind it.
fn numbered(text: &str, n: u128) -> (r: String)
    ensures
        r@ == text@ + decimal(n as nat),
{
    let mut out = text.to_owned();
    let number = spell(n);
    out.append(number.as_str());
    out
}

/// Where the acknowledgement of `tag` offers to have the fleet do the same
/// thing twice.
fn redelivery(tag: u64, direction: Direction) -> (r: Placement)
    ensures
        r.deep_view() == redelivery_of(tag, direction),
{
    Placement {
        direction,
        mark: numbered("redeliver:", tag as u128),
        why: "a message the consumer finished with, delivered to it again".to_owned(),
        doing: Doing::Rewriting(Primitive::Redeliver),
    }
}

/// Where a message the broker has already sent offers to arrive after one sent
/// later.
fn reorderable(followed: u64, direction: Direction) -> (r: Placement)
    ensures
        r.deep_view() == reorder_of(followed, direction),
{
    Placement {
        direction,
        mark: numbered("reorder:", followed as u128),
        why: "a message held back until after the one the broker sent next".to_owned(),
        doing: Doing::Rewriting(Primitive::Reorder),
    }
}

impl Reader {
    /// Whether no more was published than has crossed, and nothing is watched
    /// for while a message is kept back.
    pub open spec fn wf(&self) -> bool {
        self.deep_view().wf()
    }

    /// Reads a fault-free run, so we can say where a fault should go.
    pub fn new(direction: Direction) -> (r: Reader)
        ensures
            r.deep_view() == ReaderModel::fresh(direction, None),
            r.wf(),
    {
        let r = Reader {
            pending: Vec::new(),
            frames: Vec::new(),
            taken: 0,
            published: 0,
            watching: None,
            last: Vec::new(),
            held: None,
            direction,
        };
        assert(r.frames.deep_view() =~= Seq::empty());
        r
    }

    /// Reads a faulted run, holding the fleet when it sees `mark`.
    pub fn watching(direction: Direction, mark: String) -> (r: Reader)
        ensures
            r.deep_view() == ReaderModel::fresh(direction, Some(mark@)),
            r.wf(),
    {
        let mut r = Reader::new(direction);
        r.watching = Some(mark);
        r
    }

    /// Whether `placement` is the moment a schedule named.
    fn watches(&self, placement: &Placement) -> (r: bool)
        ensures
            r == self.deep_view().watches(placement.deep_view()),
    {
        match &self.watching {
            Some(mark) => *mark == placement.mark,
            None => false,
        }
    }

    /// Take the next `bytes` off the wire and return every whole frame in them
    /// along with the operations those completed, in the order they were sent.
    ///
    /// A frame that has not finished arriving is held back until the rest of it
    /// turns up, so what comes out is always something the protocol recognises.
    /// Extents count from the first byte this reader ever saw, so a message
    /// that arrived over several reads still says where it began.
    fn read(&mut self, bytes: &[u8]) -> (r: (Vec<Wire>, Vec<Message>))
        requires
            old(self).wf(),
            old(self).deep_view().taken + old(self).deep_view().pending.len() + bytes@.len()
                <= usize::MAX,
        ensures
            final(self).deep_view() == old(self).deep_view().having_read(bytes@),
            r.0.deep_view() == wire_of(
                old(self).deep_view().pending + bytes@,
                old(self).deep_view().taken,
            ),
            r.1.deep_view() == old(self).deep_view().completed_by(bytes@),
            final(self).deep_view().published + final(self).deep_view().frames.len() + r.1@.len()
                <= final(self).deep_view().taken,
            forall|more: Seq<u8>|
                old(self).deep_view().pending.len() + bytes@.len() + more.len() <= usize::MAX
                    ==> #[trigger] reads_on(
                    old(self).deep_view().pending + bytes@,
                    more,
                    old(self).deep_view().taken,
                ),
    {
        let ghost model = self.deep_view();
        let taken: usize = self.taken;
        extend(&mut self.pending, bytes);
        let ghost stream = model.pending + bytes@;
        let decoded = decode(self.pending.as_slice(), taken);
        let ghost found = frames_of(stream, taken as int);
        proof {
            lemma_frames_in_line(stream, taken as int);
            lemma_within(found, taken as int, taken + whole_len(stream));
        }
        let mut wire: Vec<Wire> = Vec::new();
        let mut frames: Vec<Framed> = Vec::new();
        std::mem::swap(&mut frames, &mut self.frames);
        let mut consumed: usize = 0;
        let ghost target = wire_of(stream, taken as int);
        let ghost all = decoded@;
        assert(wire.deep_view() =~= target.take(0));
        assert(frames.deep_view() + found.take(0) =~= frames.deep_view());
        for framed in it: decoded
            invariant
                it.seq() == all,
                found.len() == all.len(),
                forall|k: int| 0 <= k < all.len() ==> (#[trigger] all[k]).deep_view() == found[k],
                found == frames_of(stream, taken as int),
                target == wire_of(stream, taken as int),
                self.pending@ == stream,
                forall|k: int|
                    0 <= k < found.len() ==> taken <= (#[trigger] found[k]).start <= found[k].end
                        <= taken + stream.len(),
                wire.deep_view() == target.take(it.index() as int),
                frames.deep_view() == model.frames + found.take(it.index() as int),
                it.index() == 0 ==> consumed == 0,
                it.index() > 0 ==> taken + consumed == found[it.index() - 1].end,
        {
            let ghost n = it.index() as int;
            assert(all[n].deep_view() == found[n]);
            let next = Wire {
                start: framed.start,
                end: framed.end,
                bytes: copy(self.pending.as_slice(), framed.start - taken, framed.end - taken),
            };
            consumed = framed.end - taken;
            let ghost wired = wire.deep_view();
            let ghost added = next.deep_view();
            wire.push(next);
            let ghost held = frames.deep_view();
            let ghost joined = framed.deep_view();
            frames.push(framed);
            proof {
                assert(added =~= target[n]);
                assert(wire.deep_view() =~= wired.push(added));
                assert(target.take(n + 1) =~= wired.push(added));
                assert(frames.deep_view() =~= held.push(joined));
                assert(found.take(n + 1) =~= found.take(n).push(found[n]));
                assert(model.frames + found.take(n + 1) =~= (model.frames + found.take(n)).push(
                    found[n],
                ));
            }
        }
        proof {
            assert(target.take(target.len() as int) =~= target);
            assert(found.take(found.len() as int) =~= found);
            assert(consumed == whole_len(stream));
        }
        self.pending = copy(self.pending.as_slice(), consumed, self.pending.len());
        self.taken = taken + consumed;
        assert(self.pending@ =~= stream.skip(consumed as int));
        // Frames belonging to an operation still arriving are left for the rest
        // of it to turn up.
        let ghost held = frames.deep_view();
        let (messages, whole) = read(&frames);
        let ghost list = frames@;
        let mut left: Vec<Framed> = Vec::new();
        let mut i: usize = 0;
        assert(left.deep_view() =~= Seq::empty());
        for framed in it: frames
            invariant
                it.seq() == list,
                i == it.index(),
                whole <= list.len(),
                list.len() == held.len(),
                list.len() <= usize::MAX,
                forall|k: int| 0 <= k < list.len() ==> (#[trigger] list[k]).deep_view() == held[k],
                left.deep_view() == (if i <= whole {
                    Seq::empty()
                } else {
                    held.subrange(whole as int, i as int)
                }),
        {
            assert(list[i as int].deep_view() == held[i as int]);
            if i >= whole {
                let ghost before = left.deep_view();
                let ghost added = framed.deep_view();
                left.push(framed);
                proof {
                    assert(left.deep_view() =~= before.push(added));
                    assert(held.subrange(whole as int, i + 1) =~= before.push(added));
                }
            }
            i += 1;
        }
        proof {
            assert(left.deep_view() =~= held.skip(whole as int));
        }
        self.frames = left;
        (wire, messages)
    }
}

proof fn lemma_within(frames: Seq<FramedModel>, offset: int, end: int)
    requires
        super::message::in_line(frames, offset, end),
    ensures
        forall|k: int|
            0 <= k < frames.len() ==> offset <= (#[trigger] frames[k]).start <= frames[k].end <= end,
    decreases frames.len(),
{
    if frames.len() > 0 {
        let rest = frames.drop_last();
        assert(frames.last() == frames[frames.len() - 1]);
        if rest.len() > 0 {
            assert(rest.last() == frames[frames.len() - 2]);
            assert(rest[0] == frames[0]);
            assert forall|k: int| 0 <= k < rest.len() implies (#[trigger] rest[k]).start
                < rest[k].end by {
                assert(rest[k] == frames[k]);
            }
            assert forall|k: int| 0 < k < rest.len() implies (#[trigger] rest[k]).start == rest[k
                - 1].end by {
                assert(rest[k] == frames[k]);
                assert(rest[k - 1] == frames[k - 1]);
            }
            lemma_within(rest, offset, rest.last().end);
            assert forall|k: int| 0 <= k < frames.len() implies offset <= (#[trigger] frames[k]).start
                <= frames[k].end <= end by {
                if k < rest.len() {
                    assert(rest[k] == frames[k]);
                }
                assert(offset <= rest[rest.len() - 1].start);
            }
        }
    }
}

/// A reader part of the way through a read.
spec fn part_way(reader: Reader, run: Run, consuming: Consuming) -> Carrying {
    Carrying {
        reader: reader.deep_view(),
        run: run.deep_view(),
        consuming: consuming.deep_view(),
    }
}

impl Reader {
    /// Refuse `message` in place of the ack that would have let the broker drop
    /// it, and ask for the message it ends to be sent again.
    fn refuse(&self, run: &mut Run, consuming: &mut Consuming, message: &Message, tag: u64)
        ensures
            part_way(*self, *final(run), *final(consuming)) == part_way(
                *self,
                *old(run),
                *old(consuming),
            ).refusing(message.deep_view(), tag),
    {
        let ghost start = part_way(*self, *run, *consuming);
        let identity = match consuming.holding(message.channel, tag) {
            Some(identity) => identity,
            None => {
                run.did = Some(
                    Did::Unplaceable(
                        "nothing said what the consumer was finishing with, so a redelivery of it could not be told from any other".to_owned(),
                    ),
                );
                return;
            },
        };
        let ghost wire = run.wire.deep_view();
        let n: usize = run.wire.len();
        let mut at: usize = 0;
        assert(wire.skip(0) =~= wire);
        while at < n && !(run.wire[at].start == message.at.start && run.wire[at].end
            == message.at.end)
            invariant
                at <= n,
                n == run.wire@.len(),
                wire == run.wire.deep_view(),
                place_of(wire, message.at.start as int, message.at.end as int) == at + place_of(
                    wire.skip(at as int),
                    message.at.start as int,
                    message.at.end as int,
                ),
            decreases n - at,
        {
            proof {
                assert(wire[at as int] == run.wire@[at as int].deep_view());
                assert(wire.skip(at as int)[0] == wire[at as int]);
                assert(wire.skip(at as int).skip(1) =~= wire.skip(at + 1));
            }
            at += 1;
        }
        proof {
            if at < n {
                assert(wire[at as int] == run.wire@[at as int].deep_view());
                assert(wire.skip(at as int)[0] == wire[at as int]);
            }
        }
        if at == n {
            run.did = Some(Did::Unplaceable("the ack had already gone".to_owned()));
            return;
        }
        match write_nack(message.channel, tag, false, true) {
            Some(refusal) => {
                let ghost list = run.wire@;
                let mut ack = run.wire.remove(at);
                ack.bytes = refusal;
                let ghost refused = ack.deep_view();
                run.wire.insert(at, ack);
                proof {
                    assert(run.wire@ =~= list.update(at as int, ack));
                    assert(run.wire.deep_view() =~= wire.update(at as int, refused));
                }
                run.did = Some(Did::Asked);
                consuming.ask(identity);
            },
            None => {
                run.did = Some(Did::Unplaceable("a refusal could not be written".to_owned()));
            },
        }
    }

    /// Offer a redelivery, and ask for it where it is what a schedule named.
    fn offer(&mut self, run: &mut Run, consuming: &mut Consuming, message: &Message, placing: bool)
        ensures
            part_way(*final(self), *final(run), *final(consuming)) == part_way(
                *old(self),
                *old(run),
                *old(consuming),
            ).offering(message.deep_view(), placing),
    {
        if let Operation::Ack { tag } = message.operation {
            let placement = redelivery(tag, self.direction);
            if placing && self.watches(&placement) {
                // The schedule names one moment, so once this is done there is
                // nothing left to watch for.
                self.watching = None;
                self.refuse(run, consuming, message, tag);
            }
            run.find(placement);
        }
    }

    /// Offer a reorder, and begin it where it is what a schedule named.
    fn order(&mut self, run: &mut Run, consuming: &Consuming, message: &Message, placing: bool)
        ensures
            part_way(*final(self), *final(run), *consuming) == part_way(
                *old(self),
                *old(run),
                *consuming,
            ).ordering(message.deep_view(), placing),
    {
        if let Operation::Deliver { tag, .. } = message.operation {
            // A delivery is offered once another follows it, so what the
            // schedule names is known to have something to go behind.
            let before = noted_on(&self.last, message.channel);
            note(&mut self.last, message.channel, tag);
            if let Some(before) = before {
                if !consuming.takes_one(message.channel) {
                    run.find(reorderable(before, self.direction));
                }
            }
            let own = reorderable(tag, self.direction);
            if placing && self.watches(&own) {
                self.watching = None;
                run.keep = Some((message.at.start, message.at.end));
            } else if self.held.is_some() {
                // The one the broker sent next, which goes first.
                run.release = true;
            }
        }
    }

    /// Offer a moment on one side of `message`, and hold the fleet there where
    /// it is what a schedule named.
    fn hold(&self, run: &mut Run, message: &Message, side: Side, name: &str, why: &str)
        ensures
            forall|consuming: ConsumingModel|
                (Carrying {
                    reader: self.deep_view(),
                    run: final(run).deep_view(),
                    consuming,
                }) == #[trigger] (Carrying {
                    reader: self.deep_view(),
                    run: old(run).deep_view(),
                    consuming,
                }).holding(message.deep_view(), side, name@, why@),
    {
        let mut mark = name.to_owned();
        mark.append(":");
        mark.append(side.spell());
        let placement = Placement {
            direction: self.direction,
            mark,
            why: why.to_owned(),
            doing: Doing::Holding,
        };
        if self.watches(&placement) {
            run.freeze_after = Some(side.holds(&run.wire, message));
        }
        run.find(placement);
    }

    /// Count `message` and place a fault either side of it.
    fn count(&mut self, run: &mut Run, consuming: &Consuming, message: &Message)
        requires
            old(self).deep_view().published < usize::MAX,
        ensures
            part_way(*final(self), *final(run), *consuming) == part_way(
                *old(self),
                *old(run),
                *consuming,
            ).counting(message.deep_view()),
    {
        let (name, before, after) = match message.operation {
            Operation::Publish => {
                self.published = self.published + 1;
                (
                    numbered("publish:", self.published as u128),
                    "a publish the sender has committed to and the broker has not seen",
                    "a publish the broker has taken but not confirmed",
                )
            },
            Operation::Deliver { tag, .. } => (
                numbered("deliver:", tag as u128),
                "a delivery the broker has released and the consumer has not seen",
                "a delivery the consumer has but has not acknowledged",
            ),
            Operation::Ack { tag } => (
                numbered("ack:", tag as u128),
                "an ack the consumer has sent and the broker has not seen",
                "an ack the broker has taken, releasing its copy",
            ),
            Operation::Reject { tag } => (
                numbered("reject:", tag as u128),
                "a refusal the consumer has sent and the broker has not seen",
                "a refusal the broker has taken, requeueing or dead-lettering it",
            ),
            Operation::Qos { .. } => {
                return;
            },
            Operation::Housekeeping => {
                return;
            },
        };
        self.hold(run, message, Side::Before, name.as_str(), before);
        self.hold(run, message, Side::After, name.as_str(), after);
    }

    /// Takes what came off the wire, and says what of it goes on, where the
    /// fleet is held, and what moments it offers. `placing` says whether a fault
    /// may be placed here.
    pub fn carry(&mut self, consuming: &mut Consuming, bytes: &[u8], placing: bool) -> (r: Carried)
        requires
            old(self).wf(),
            old(self).deep_view().taken + old(self).deep_view().pending.len() + bytes@.len()
                <= usize::MAX,
        ensures
            ({
                let end = old(self).deep_view().carrying(
                    old(consuming).deep_view(),
                    bytes@,
                    placing,
                );
                &&& r.deep_view() == end.carried()
                &&& final(self).deep_view() == end.left()
                &&& final(consuming).deep_view() == end.consuming
            }),
            final(self).wf(),
            final(self).deep_view().taken + final(self).deep_view().pending.len() == old(
                self,
            ).deep_view().taken + old(self).deep_view().pending.len() + bytes@.len(),
            forall|more: Seq<u8>|
                old(self).deep_view().pending.len() + bytes@.len() + more.len() <= usize::MAX
                    ==> #[trigger] reads_on(
                    old(self).deep_view().pending + bytes@,
                    more,
                    old(self).deep_view().taken,
                ),
    {
        let ghost model = self.deep_view();
        let ghost agreed = consuming.deep_view();
        let (wire, messages) = self.read(bytes);
        proof {
            lemma_frames_in_line(model.pending + bytes@, model.taken);
        }
        let ghost total = model.taken + model.pending.len() + bytes@.len();
        let mut run = Run {
            wire,
            freeze_after: None,
            found: Vec::new(),
            did: None,
            keep: None,
            release: false,
        };
        assert(run.found.deep_view() =~= Seq::empty());
        let ghost completed = model.completed_by(bytes@);
        let ghost start = model.starting(agreed, bytes@);
        proof {
            assert(part_way(*self, run, *consuming) =~= start);
            assert(completed.take(0) =~= Seq::empty());
        }
        for i in 0..messages.len()
            invariant
                completed == messages.deep_view(),
                part_way(*self, run, *consuming) == start.after_all(
                    completed.take(i as int),
                    placing,
                ),
                self.published + self.frames@.len() + messages@.len() - i <= self.taken,
                self.held is Some ==> self.watching is None,
                run.keep is Some ==> self.watching is None,
                self.taken + self.pending@.len() == total,
        {
            let message = &messages[i];
            let ghost told = message.deep_view();
            proof {
                assert(completed.take(i + 1).drop_last() =~= completed.take(i as int));
                assert(completed[i as int] == told);
            }
            let ghost here = part_way(*self, run, *consuming);
            self.offer(&mut run, consuming, message, placing);
            let ghost offered = part_way(*self, run, *consuming);
            proof {
                lemma_keeps_place(here, told, placing);
                assert(offered == here.offering(told, placing));
            }
            self.order(&mut run, consuming, message, placing);
            let ghost ordered = part_way(*self, run, *consuming);
            // After the fault, which reads what the consumer is holding before
            // this lets go of it.
            if let Some(answered) = consuming.track(message) {
                run.did = Some(answered);
            }
            let ghost followed = part_way(*self, run, *consuming);
            assert(followed =~= ordered.tracking(told));
            self.count(&mut run, consuming, message);
            proof {
                let now = part_way(*self, run, *consuming);
                assert(now == here.after(told, placing));
                assert(now.reader.frames.len() == self.frames@.len());
                assert(here.reader.frames.len() == now.reader.frames.len());
                lemma_after(here, told, placing);
            }
        }
        assert(completed.take(completed.len() as int) =~= completed);
        let ghost end = part_way(*self, run, *consuming);
        let Run { wire, freeze_after, found, mut did, keep, release } = run;
        let mut forward: Vec<Vec<u8>> = Vec::new();
        let mut kept: Vec<u8> = Vec::new();
        let ghost frames = end.run.wire;
        let ghost all = wire@;
        assert(forward.deep_view() =~= going(frames.take(0), end.run.keep));
        for frame in it: wire
            invariant
                it.seq() == all,
                frames.len() == all.len(),
                forall|k: int| 0 <= k < all.len() ==> (#[trigger] all[k]).deep_view() == frames[k],
                end.run.keep == (match keep {
                    Some((start, end)) => Some((start as int, end as int)),
                    None => None,
                }),
                forward.deep_view() == going(frames.take(it.index() as int), end.run.keep),
                kept@ == staying(frames.take(it.index() as int), end.run.keep),
        {
            let ghost n = it.index() as int;
            proof {
                assert(all[n].deep_view() == frames[n]);
                assert(frames.take(n + 1).drop_last() =~= frames.take(n));
            }
            let stays = match keep {
                Some((start, end)) => start <= frame.start && frame.start < end,
                None => false,
            };
            if stays {
                extend(&mut kept, frame.bytes.as_slice());
            } else {
                let ghost before = forward.deep_view();
                let ghost added = frame.bytes@;
                assert(frame.bytes.deep_view() =~= frame.bytes@);
                forward.push(frame.bytes);
                assert(forward.deep_view() =~= before.push(added));
            }
        }
        proof {
            assert(frames.take(frames.len() as int) =~= frames);
            if keep is None {
                lemma_nothing_stays(frames);
            }
        }
        if kept.len() > 0 {
            self.held = Some(kept);
            did = Some(Did::Asked);
        }
        if release {
            let mut held: Option<Vec<u8>> = None;
            std::mem::swap(&mut held, &mut self.held);
            if let Some(kept) = held {
                let ghost before = forward.deep_view();
                let ghost added = kept@;
                assert(kept.deep_view() =~= kept@);
                forward.push(kept);
                assert(forward.deep_view() =~= before.push(added));
                did = Some(
                    Did::Placed(
                        "a message the broker sent first arrived after the one it sent next".to_owned(),
                    ),
                );
            }
        }
        Carried { forward, freeze_after, found, did }
    }
}

/// Dealing with a message leaves where a reader has got to alone, and counts no
/// more than one publish.
proof fn lemma_keeps_place(here: Carrying, message: MessageModel, placing: bool)
    ensures
        here.offering(message, placing).reader.published == here.reader.published,
        here.offering(message, placing).ordering(message, placing).tracking(
            message,
        ).reader.published == here.reader.published,
        here.after(message, placing).reader.taken == here.reader.taken,
        here.after(message, placing).reader.frames == here.reader.frames,
        here.after(message, placing).reader.published <= here.reader.published + 1,
{
}

/// Only what a schedule named has a message kept back or rewritten, or the
/// fleet held, and it names one moment.
pub proof fn lemma_after(here: Carrying, message: MessageModel, placing: bool)
    ensures
        ({
            let then = here.after(message, placing);
            &&& then.reader.pending == here.reader.pending
            &&& then.reader.taken == here.reader.taken
            &&& then.reader.frames == here.reader.frames
            &&& then.reader.held == here.reader.held
            &&& then.reader.direction == here.reader.direction
            &&& here.reader.watching is None ==> then.reader.watching is None && then.run.wire
                == here.run.wire && then.run.keep == here.run.keep && then.run.freeze_after
                == here.run.freeze_after
            &&& (here.run.keep is Some ==> here.reader.watching is None) ==> (then.run.keep is Some
                ==> then.reader.watching is None)
            &&& here.reader.held is None ==> then.run.release == here.run.release
            &&& then.run.wire.len() == here.run.wire.len()
        }),
{
}

/// Nothing stays behind where nothing is kept.
pub proof fn lemma_nothing_stays(wire: Seq<WireModel>)
    ensures
        staying(wire, None).len() == 0,
    decreases wire.len(),
{
    if wire.len() > 0 {
        lemma_nothing_stays(wire.drop_last());
    }
}

} // verus!
