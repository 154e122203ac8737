//! What crossing a broker's traffic comes to, said of the frames the parser read
//! and the moments, bytes and answers they give.

use vstd::prelude::*;

use super::message::{
    body_frames, followed_by, frames_read, identity_of, message, messages_from, FramedModel,
    IdentityModel, MessageModel, Operation,
};
use super::reader::{
    another, besides, elsewhere, going, gone_by, held_as, keeps, note_on, noted, place_of, staying,
    Carrying, ConsumingModel, ReaderModel, WireModel,
};
use super::wire::{nack_frame, ParsedModel};
use crate::protocol::{DidModel, Direction, Doing, PlacementModel, Primitive};
use crate::text::decimal;

verus! {

/// What is noted for a channel is what was noted for it last, and nothing noted
/// for another.
pub proof fn lemma_notes<V>(notes: Seq<(u16, V)>, channel: u16, value: V)
    ensures
        note_on(noted(notes, channel, value), channel) == Some(value),
        forall|other: u16|
            other != channel ==> #[trigger] note_on(noted(notes, channel, value), other) == note_on(
                notes,
                other,
            ),
        note_on(Seq::<(u16, V)>::empty(), channel) is None,
{
    let kept = notes.filter(elsewhere(channel));
    assert(kept.push((channel, value)).drop_last() =~= kept);
    assert forall|other: u16| other != channel implies #[trigger] note_on(
        noted(notes, channel, value),
        other,
    ) == note_on(notes, other) by {
        lemma_notes_elsewhere(notes, channel, other);
    }
}

proof fn lemma_notes_elsewhere<V>(notes: Seq<(u16, V)>, channel: u16, other: u16)
    requires
        other != channel,
    ensures
        note_on(notes.filter(elsewhere(channel)), other) == note_on(notes, other),
    decreases notes.len(),
{
    reveal(Seq::filter);
    if notes.len() > 0 {
        let rest = notes.drop_last();
        lemma_notes_elsewhere(rest, channel, other);
        let kept = rest.filter(elsewhere(channel));
        assert(kept.push(notes.last()).drop_last() =~= kept);
    }
}

/// What a consumer holds as a delivery is what came with it, until it is finished
/// with. Other deliveries are held as they were.
pub proof fn lemma_held(
    consuming: ConsumingModel,
    channel: u16,
    tag: u64,
    identity: IdentityModel,
)
    ensures
        ({
            let then = consuming.delivered(channel, tag, Some(identity));
            &&& held_as(then.outstanding, channel, tag) == Some(identity)
            &&& forall|c: u16, t: u64|
                c != channel || t != tag ==> #[trigger] held_as(then.outstanding, c, t) == held_as(
                    consuming.outstanding,
                    c,
                    t,
                )
            &&& then.asked == consuming.asked && then.limits == consuming.limits
        }),
        ({
            let then = consuming.finished(channel, tag);
            &&& held_as(then.outstanding, channel, tag) is None
            &&& forall|c: u16, t: u64|
                c != channel || t != tag ==> #[trigger] held_as(then.outstanding, c, t) == held_as(
                    consuming.outstanding,
                    c,
                    t,
                )
            &&& then.asked == consuming.asked && then.limits == consuming.limits
        }),
        consuming.delivered(channel, tag, None) == consuming,
        held_as(ConsumingModel::none().outstanding, channel, tag) is None,
{
    let kept = besides(consuming.outstanding, channel, tag);
    let more = kept.push((channel, tag, identity));
    assert(more.drop_last() =~= kept);
    lemma_let_go(consuming.outstanding, channel, tag);
    assert forall|c: u16, t: u64| c != channel || t != tag implies #[trigger] held_as(more, c, t)
        == held_as(consuming.outstanding, c, t) by {
        assert(held_as(kept, c, t) == held_as(consuming.outstanding, c, t));
    }
}

proof fn lemma_let_go(outstanding: Seq<(u16, u64, IdentityModel)>, channel: u16, tag: u64)
    ensures
        held_as(besides(outstanding, channel, tag), channel, tag) is None,
        forall|c: u16, t: u64|
            c != channel || t != tag ==> #[trigger] held_as(besides(outstanding, channel, tag), c, t)
                == held_as(outstanding, c, t),
    decreases outstanding.len(),
{
    reveal(Seq::filter);
    if outstanding.len() > 0 {
        let rest = outstanding.drop_last();
        lemma_let_go(rest, channel, tag);
        let kept = rest.filter(another(channel, tag));
        assert(kept == besides(rest, channel, tag));
        assert(kept.push(outstanding.last()).drop_last() =~= kept);
        assert forall|c: u16, t: u64| c != channel || t != tag implies #[trigger] held_as(
            besides(outstanding, channel, tag),
            c,
            t,
        ) == held_as(outstanding, c, t) by {
            assert(held_as(besides(rest, channel, tag), c, t) == held_as(rest, c, t));
        }
    }
}

/// A moment the fleet is held at.
pub open spec fn held_at(direction: Direction, mark: Seq<char>, why: Seq<char>) -> PlacementModel {
    PlacementModel { direction, mark, why, doing: Doing::Holding }
}

/// A moment what crosses is changed at.
pub open spec fn changed_at(
    direction: Direction,
    mark: Seq<char>,
    why: Seq<char>,
    by: Primitive,
) -> PlacementModel {
    PlacementModel { direction, mark, why, doing: Doing::Rewriting(by) }
}

/// The moments one frame that begins an operation offers, from what the parser
/// read it as: an ack offers a redelivery and both sides of itself, a refusal
/// both sides of itself and nothing else, a publish both sides of itself by how
/// many there have been, and a delivery both sides of itself, with the delivery
/// before it offered to be overtaken where there was one and the consumer holds
/// more than one at a time. Nothing else offers anything.
pub open spec fn offered(
    frame: ParsedModel,
    direction: Direction,
    published: nat,
    before: Option<u64>,
    limit: Option<u16>,
) -> Seq<PlacementModel> {
    match frame {
        ParsedModel::Acked(tag) => {
            let n = decimal(tag as nat);
            seq![
                changed_at(
                    direction,
                    "redeliver:"@ + n,
                    "a message the consumer finished with, delivered to it again"@,
                    Primitive::Redeliver,
                ),
                held_at(
                    direction,
                    "ack:"@ + n + ":"@ + "before"@,
                    "an ack the consumer has sent and the broker has not seen"@,
                ),
                held_at(
                    direction,
                    "ack:"@ + n + ":"@ + "after"@,
                    "an ack the broker has taken, releasing its copy"@,
                ),
            ]
        },
        ParsedModel::Rejected(tag) | ParsedModel::Nacked(tag) => {
            let n = decimal(tag as nat);
            seq![
                held_at(
                    direction,
                    "reject:"@ + n + ":"@ + "before"@,
                    "a refusal the consumer has sent and the broker has not seen"@,
                ),
                held_at(
                    direction,
                    "reject:"@ + n + ":"@ + "after"@,
                    "a refusal the broker has taken, requeueing or dead-lettering it"@,
                ),
            ]
        },
        ParsedModel::Published => {
            let n = decimal(published + 1);
            seq![
                held_at(
                    direction,
                    "publish:"@ + n + ":"@ + "before"@,
                    "a publish the sender has committed to and the broker has not seen"@,
                ),
                held_at(
                    direction,
                    "publish:"@ + n + ":"@ + "after"@,
                    "a publish the broker has taken but not confirmed"@,
                ),
            ]
        },
        ParsedModel::Delivered(tag, _) | ParsedModel::Fetched(tag, _) => {
            let n = decimal(tag as nat);
            (match before {
                Some(before) => if limit == Some(1u16) {
                    Seq::empty()
                } else {
                    seq![
                        changed_at(
                            direction,
                            "reorder:"@ + decimal(before as nat),
                            "a message held back until after the one the broker sent next"@,
                            Primitive::Reorder,
                        ),
                    ]
                },
                None => Seq::empty(),
            }) + seq![
                held_at(
                    direction,
                    "deliver:"@ + n + ":"@ + "before"@,
                    "a delivery the broker has released and the consumer has not seen"@,
                ),
                held_at(
                    direction,
                    "deliver:"@ + n + ":"@ + "after"@,
                    "a delivery the consumer has but has not acknowledged"@,
                ),
            ]
        },
        _ => Seq::empty(),
    }
}

/// Whether a frame begins an operation, rather than carrying on one that a frame
/// before it began.
pub open spec fn begins(frame: ParsedModel) -> bool {
    !(frame is Head || frame is Payload || frame is Other)
}

/// Whether a frame begins an operation a message goes with.
pub open spec fn brings(frame: ParsedModel) -> bool {
    frame is Published || frame is Delivered || frame is Fetched
}

/// Whether `m` is the operation the frame at `at` begins, as far as it says.
pub open spec fn begun_by(frames: Seq<FramedModel>, at: int, m: MessageModel) -> bool {
    &&& 0 <= at < frames.len()
    &&& begins(frames[at].frame)
    &&& m.channel == frames[at].channel
    &&& m.start == frames[at].start
    &&& !brings(frames[at].frame) ==> m.end == frames[at].end && m.identity is None
    &&& brings(frames[at].frame) ==> m.identity == identity_of(frames, at) && exists|more: nat|
        #[trigger] goes_with(frames, at, more) && m.end == frames[at + more].end
    &&& Operation::read_in(frames[at].frame) == Some(m.operation)
}

/// How many bytes of payload the `n` frames from `from` on carry.
pub open spec fn payload_len(frames: Seq<FramedModel>, from: int, n: nat) -> int
    decreases n,
{
    if n == 0 {
        0
    } else {
        payload_len(frames, from, (n - 1) as nat) + match frames[from + n - 1].frame {
            ParsedModel::Payload(payload) => payload.len() as int,
            _ => 0,
        }
    }
}

/// Whether the `n` frames from `from` on are all payload.
pub open spec fn all_payload(frames: Seq<FramedModel>, from: int, n: nat) -> bool {
    &&& from + n <= frames.len()
    &&& forall|k: int| from <= k < from + n ==> (#[trigger] frames[k]).frame is Payload
}

/// Whether `more` frames go with the one at `at`: its content header and as many
/// frames of payload as the header says bytes follow, or as there are before
/// something else comes. Without a header behind it none do.
pub open spec fn goes_with(frames: Seq<FramedModel>, at: int, more: nat) -> bool {
    &&& at + 1 < frames.len()
    &&& frames[at + 1].frame matches ParsedModel::Head(size) ==> {
        &&& more >= 1
        &&& all_payload(frames, at + 2, (more - 1) as nat)
        &&& more > 1 ==> payload_len(frames, at + 2, (more - 2) as nat) < size
        &&& payload_len(frames, at + 2, (more - 1) as nat) >= size || (at + 1 + more < frames.len()
            && !(frames[at + 1 + more].frame is Payload))
    }
    &&& !(frames[at + 1].frame is Head) ==> more == 0
}

/// Whether what goes with the frame at `at` is still arriving: the frames run out
/// before its header has come, or before the payload the header promises has.
pub open spec fn still_arriving(frames: Seq<FramedModel>, at: int) -> bool {
    &&& brings(frames[at].frame)
    &&& at + 1 < frames.len() ==> {
        &&& frames[at + 1].frame matches ParsedModel::Head(size)
        &&& all_payload(frames, at + 2, (frames.len() - at - 2) as nat)
        &&& payload_len(frames, at + 2, (frames.len() - at - 2) as nat) < size
    }
}

proof fn lemma_payload_first(frames: Seq<FramedModel>, from: int, n: nat)
    requires
        n > 0,
    ensures
        payload_len(frames, from, n) == payload_len(frames, from + 1, (n - 1) as nat)
            + match frames[from].frame {
            ParsedModel::Payload(payload) => payload.len() as int,
            _ => 0,
        },
    decreases n,
{
    if n > 1 {
        lemma_payload_first(frames, from, (n - 1) as nat);
        assert(payload_len(frames, from + 1, (n - 1) as nat) == payload_len(
            frames,
            from + 1,
            (n - 2) as nat,
        ) + match frames[from + n - 1].frame {
            ParsedModel::Payload(payload) => payload.len() as int,
            _ => 0,
        });
    } else {
        reveal_with_fuel(payload_len, 2);
    }
}

proof fn lemma_body(frames: Seq<FramedModel>, from: int, wanted: int)
    requires
        0 <= from,
    ensures
        match body_frames(frames, from, wanted) {
            Some(n) => {
                &&& from <= frames.len() || wanted <= 0
                &&& n > 0 ==> all_payload(frames, from, n)
                &&& n > 0 ==> payload_len(frames, from, (n - 1) as nat) < wanted
                &&& payload_len(frames, from, n) >= wanted || (from + n < frames.len() && !(frames[from
                    + n].frame is Payload))
            },
            None => {
                &&& from <= frames.len() ==> all_payload(frames, from, (frames.len() - from) as nat)
                    && payload_len(frames, from, (frames.len() - from) as nat) < wanted
                &&& wanted > 0
            },
        },
    decreases frames.len() - from,
{
    if wanted > 0 && from < frames.len() {
        match frames[from].frame {
            ParsedModel::Payload(payload) => {
                lemma_body(frames, from + 1, wanted - payload.len());
                match body_frames(frames, from + 1, wanted - payload.len()) {
                    Some(n) => {
                        lemma_payload_first(frames, from, n + 1);
                        if n > 0 {
                            lemma_payload_first(frames, from, n);
                        }
                        assert forall|k: int| from <= k < from + n + 1 implies (
                        #[trigger] frames[k]).frame is Payload by {
                            if k > from {
                                assert(n > 0);
                            }
                        }
                    },
                    None => {
                        lemma_payload_first(frames, from, (frames.len() - from) as nat);
                        assert forall|k: int| from <= k < frames.len() implies (
                        #[trigger] frames[k]).frame is Payload by {}
                    },
                }
            },
            _ => {},
        }
    }
}

proof fn lemma_follows(frames: Seq<FramedModel>, at: int)
    requires
        0 <= at < frames.len(),
        brings(frames[at].frame),
    ensures
        match followed_by(frames, at) {
            Some(more) => goes_with(frames, at, more) && at + more < frames.len(),
            None => still_arriving(frames, at),
        },
        followed_by(frames, at) matches Some(more) ==> forall|k: int|
            at < k <= at + more ==> !begins((#[trigger] frames[k]).frame),
{
    if at + 1 < frames.len() {
        match frames[at + 1].frame {
            ParsedModel::Head(size) => {
                lemma_body(frames, at + 2, size as int);
            },
            _ => {},
        }
    }
}

/// Whether the operations are those the frames begin, one for one and in order,
/// up to the frame at `end`.
pub open spec fn accounted(
    frames: Seq<FramedModel>,
    messages: Seq<MessageModel>,
    at: Seq<int>,
    from: int,
    end: int,
) -> bool {
    &&& at.len() == messages.len()
    &&& forall|i: int|
        0 <= i < messages.len() ==> from <= #[trigger] at[i] < end && begun_by(
            frames,
            at[i],
            messages[i],
        )
    &&& forall|i: int, j: int| 0 <= i < j < at.len() ==> #[trigger] at[i] < #[trigger] at[j]
    &&& forall|k: int|
        from <= k < end && begins((#[trigger] frames[k]).frame) ==> exists|i: int|
            0 <= i < at.len() && #[trigger] at[i] == k
}

proof fn lemma_accounted(frames: Seq<FramedModel>, from: int)
    requires
        0 <= from <= frames.len(),
    ensures
        from <= frames_read(frames, from) <= frames.len(),
        frames_read(frames, from) < frames.len() ==> still_arriving(
            frames,
            frames_read(frames, from),
        ),
        exists|at: Seq<int>| #[trigger]
            accounted(frames, messages_from(frames, from), at, from, frames_read(frames, from)),
    decreases frames.len() - from,
{
    let end = frames_read(frames, from);
    let messages = messages_from(frames, from);
    if from >= frames.len() {
        assert(accounted(frames, messages, Seq::empty(), from, end));
    } else {
        match Operation::read_in(frames[from].frame) {
            None => {
                lemma_accounted(frames, from + 1);
                let at = choose|at: Seq<int>| #[trigger]
                    accounted(frames, messages, at, from + 1, end);
                assert(accounted(frames, messages, at, from, end));
            },
            Some(operation) => {
                if operation.carries() {
                    lemma_follows(frames, from);
                }
                if operation.carries() && followed_by(frames, from) is None {
                    assert(accounted(frames, messages, Seq::empty(), from, end));
                } else {
                    let more = if operation.carries() {
                        followed_by(frames, from)->0
                    } else {
                        0
                    };
                    let first = message(frames, from, more, operation);
                    let next = from + more + 1;
                    lemma_accounted(frames, next);
                    let rest = messages_from(frames, next);
                    let later = choose|at: Seq<int>| #[trigger]
                        accounted(frames, rest, at, next, end);
                    let at = seq![from] + later;
                    assert(messages == seq![first] + rest);
                    assert(begun_by(frames, from, first));
                    assert forall|i: int| 0 <= i < messages.len() implies from <= #[trigger] at[i] < end
                        && begun_by(frames, at[i], messages[i]) by {
                        if i > 0 {
                            assert(at[i] == later[i - 1]);
                            assert(messages[i] == rest[i - 1]);
                        }
                    }
                    assert forall|i: int, j: int| 0 <= i < j < at.len() implies #[trigger] at[i]
                        < #[trigger] at[j] by {
                        assert(at[j] == later[j - 1]);
                        if i > 0 {
                            assert(at[i] == later[i - 1]);
                        }
                    }
                    assert forall|k: int|
                        from <= k < end && begins((#[trigger] frames[k]).frame) implies exists|i: int|
                        0 <= i < at.len() && #[trigger] at[i] == k by {
                        if k == from {
                            assert(at[0] == k);
                        } else {
                            assert(k >= next);
                            let i = choose|i: int| 0 <= i < later.len() && #[trigger] later[i] == k;
                            assert(at[i + 1] == k);
                        }
                    }
                    assert(accounted(frames, messages, at, from, end));
                }
            },
        }
    }
}

/// The operations a stream's frames make up are exactly those its frames begin,
/// one for one and in order, each over the frames that go with it. Reading stops
/// short of the last frame only at an operation that is still arriving.
pub proof fn lemma_operations_are_the_frames(frames: Seq<FramedModel>)
    ensures
        0 <= frames_read(frames, 0) <= frames.len(),
        frames_read(frames, 0) < frames.len() ==> still_arriving(frames, frames_read(frames, 0)),
        exists|at: Seq<int>| #[trigger]
            accounted(frames, messages_from(frames, 0), at, 0, frames_read(frames, 0)),
{
    lemma_accounted(frames, 0);
}

/// A message is what the fleet called it: by its message id, or failing that by
/// its correlation id. One it called nothing is what it carried, and without a
/// content header nothing says what a message is.
pub proof fn lemma_identity_means(
    a: Seq<FramedModel>,
    i: int,
    b: Seq<FramedModel>,
    j: int,
)
    requires
        0 <= i < a.len(),
        0 <= j < b.len(),
    ensures
        identity_of(a, i) is Some <==> i + 1 < a.len() && a[i + 1].frame is Head,
        i + 1 < a.len() && a[i + 1].frame is Head ==> match (
            a[i + 1].message_id,
            a[i + 1].correlation_id,
        ) {
            (Some(name), _) => identity_of(a, i) == Some(IdentityModel::Named(name)),
            (None, Some(name)) => identity_of(a, i) == Some(IdentityModel::Named(name)),
            (None, None) => identity_of(a, i)->0 is Carried && (j + 1 < b.len() && b[j + 1].frame is Head
                && b[j + 1].message_id is None && b[j + 1].correlation_id is None && super::message::payloads(
                a,
                i + 2,
            ) == super::message::payloads(b, j + 2) ==> identity_of(a, i) == identity_of(b, j)),
        },
{
}

/// Whether `n` frames go before the fleet is held at `boundary`: those that end
/// there or sooner, and the next does not.
pub open spec fn held_after(wire: Seq<WireModel>, boundary: int, n: nat) -> bool {
    &&& n <= wire.len()
    &&& forall|i: int| 0 <= i < n ==> (#[trigger] wire[i]).end <= boundary
    &&& n < wire.len() ==> wire[n as int].end > boundary
}

proof fn lemma_gone_by(wire: Seq<WireModel>, boundary: int)
    ensures
        held_after(wire, boundary, gone_by(wire, boundary)),
    decreases wire.len(),
{
    if wire.len() > 0 && wire[0].end <= boundary {
        let rest = wire.skip(1);
        lemma_gone_by(rest, boundary);
        let n = gone_by(rest, boundary);
        assert forall|i: int| 0 <= i < n + 1 implies (#[trigger] wire[i]).end <= boundary by {
            if i > 0 {
                assert(rest[i - 1] == wire[i]);
            }
        }
        if n < rest.len() {
            assert(rest[n as int] == wire[n as int + 1]);
        }
    }
}

proof fn lemma_place_of(wire: Seq<WireModel>, start: int, end: int)
    ensures
        ({
            let n = place_of(wire, start, end) as int;
            &&& n <= wire.len()
            &&& n < wire.len() ==> wire[n].start == start && wire[n].end == end
            &&& forall|i: int|
                0 <= i < n ==> !((#[trigger] wire[i]).start == start && wire[i].end == end)
        }),
    decreases wire.len(),
{
    if wire.len() > 0 && !(wire[0].start == start && wire[0].end == end) {
        let rest = wire.skip(1);
        lemma_place_of(rest, start, end);
        let n = place_of(rest, start, end) as int;
        assert forall|i: int| 0 <= i < n + 1 implies !((#[trigger] wire[i]).start == start
            && wire[i].end == end) by {
            if i > 0 {
                assert(rest[i - 1] == wire[i]);
            }
        }
        if n < rest.len() {
            assert(rest[n] == wire[n + 1]);
        }
    }
}

/// What crossing one frame that begins an operation offers is what the frame was
/// read as, with every moment on the way the reader's traffic runs. Nothing that
/// was offered before is taken back.
pub proof fn lemma_frame_offers(
    here: Carrying,
    frames: Seq<FramedModel>,
    at: int,
    m: MessageModel,
    placing: bool,
)
    requires
        begun_by(frames, at, m),
    ensures
        here.after(m, placing).run.found == here.run.found + offered(
            frames[at].frame,
            here.reader.direction,
            here.reader.published,
            note_on(here.reader.last, frames[at].channel),
            note_on(here.consuming.limits, frames[at].channel),
        ),
        here.after(m, placing).reader.published == here.reader.published + (if frames[at].frame is Published {
            1nat
        } else {
            0nat
        }),
        here.after(m, placing).reader.direction == here.reader.direction,
{
    let then = here.after(m, placing);
    let more = offered(
        frames[at].frame,
        here.reader.direction,
        here.reader.published,
        note_on(here.reader.last, frames[at].channel),
        note_on(here.consuming.limits, frames[at].channel),
    );
    assert(then.run.found =~= here.run.found + more);
}

/// What crossing one frame does to what is remembered of the connection. A
/// delivery is the last on its channel and is held as what it is, an ack or a
/// refusal lets go of it, and a limit is the channel's from then on. Nothing else
/// is remembered differently.
pub proof fn lemma_frame_remembered(
    here: Carrying,
    frames: Seq<FramedModel>,
    at: int,
    m: MessageModel,
    placing: bool,
)
    requires
        begun_by(frames, at, m),
    ensures
        ({
            let then = here.after(m, placing);
            let frame = frames[at].frame;
            let channel = frames[at].channel;
            let holds = |c: u16, t: u64| held_as(then.consuming.outstanding, c, t);
            let held = |c: u16, t: u64| held_as(here.consuming.outstanding, c, t);
            &&& match frame {
                ParsedModel::Delivered(tag, _) | ParsedModel::Fetched(tag, _) => {
                    &&& note_on(then.reader.last, channel) == Some(tag)
                    &&& m.identity is Some ==> holds(channel, tag) == m.identity
                    &&& m.identity is None ==> holds(channel, tag) == held(channel, tag)
                    &&& forall|c: u16, t: u64| c != channel || t != tag ==> #[trigger] held_as(then.consuming.outstanding, c, t) == held(c, t)
                },
                ParsedModel::Acked(tag) | ParsedModel::Rejected(tag) | ParsedModel::Nacked(tag) => {
                    &&& holds(channel, tag) is None
                    &&& forall|c: u16, t: u64| c != channel || t != tag ==> #[trigger] held_as(then.consuming.outstanding, c, t) == held(c, t)
                    &&& then.reader.last == here.reader.last
                },
                _ => then.consuming.outstanding == here.consuming.outstanding && then.reader.last
                    == here.reader.last,
            }
            &&& forall|c: u16| c != channel ==> #[trigger] note_on(then.reader.last, c) == note_on(
                here.reader.last,
                c,
            )
            &&& frame matches ParsedModel::Limited(limit) ==> note_on(then.consuming.limits, channel)
                == Some(limit)
            &&& !(frame is Limited) ==> then.consuming.limits == here.consuming.limits
            &&& forall|c: u16| c != channel ==> #[trigger] note_on(then.consuming.limits, c) == note_on(
                here.consuming.limits,
                c,
            )
        }),
{
    match frames[at].frame {
        ParsedModel::Delivered(tag, _) | ParsedModel::Fetched(tag, _) => {
            lemma_notes(here.reader.last, frames[at].channel, tag);
            if m.identity is Some {
                lemma_held(here.consuming, frames[at].channel, tag, m.identity->0);
            }
        },
        ParsedModel::Acked(tag) | ParsedModel::Rejected(tag) | ParsedModel::Nacked(tag) => {
            let some = IdentityModel::Carried(0);
            lemma_held(here.consuming, frames[at].channel, tag, some);
        },
        ParsedModel::Limited(limit) => {
            lemma_notes(here.consuming.limits, frames[at].channel, limit);
        },
        _ => {},
    }
}

/// What a frame does where a schedule named a moment.
///
/// The fleet is held before a frame once the frames before it have gone, and
/// after it once its last has. Where the redelivery an ack offers was named, the
/// ack goes out as a refusal that asks for the message back, provided it is known
/// what message that is and the ack has not gone; where the overtaking of a
/// delivery was named, it and all that goes with it are kept back. No other frame
/// changes what goes on or what is kept.
pub proof fn lemma_frame_places(
    here: Carrying,
    frames: Seq<FramedModel>,
    at: int,
    m: MessageModel,
    placing: bool,
)
    requires
        begun_by(frames, at, m),
    ensures
        ({
            let then = here.after(m, placing);
            let frame = frames[at].frame;
            let channel = frames[at].channel;
            let named = here.reader.watching;
            let asks = placing && frame is Acked && named == Some(
                "redeliver:"@ + decimal(frame->Acked_0 as nat),
            );
            let overtakes = placing && match frame {
                ParsedModel::Delivered(tag, _) | ParsedModel::Fetched(tag, _) => named == Some(
                    "reorder:"@ + decimal(tag as nat),
                ),
                _ => false,
            };
            &&& asks ==> {
                let tag = frame->Acked_0;
                let known = held_as(here.consuming.outstanding, channel, tag);
                let goes = exists|k: int|
                    0 <= k < here.run.wire.len() && (#[trigger] here.run.wire[k]).start == m.start
                        && here.run.wire[k].end == m.end;
                &&& then.reader.watching is None
                &&& known is Some && goes ==> {
                    &&& then.run.did == Some(DidModel::Asked)
                    &&& then.consuming.asked == known
                    &&& exists|k: int|
                        0 <= k < here.run.wire.len() && (#[trigger] here.run.wire[k]).start == m.start
                            && here.run.wire[k].end == m.end && then.run.wire == here.run.wire.update(
                            k,
                            WireModel {
                                bytes: nack_frame(channel, tag, false, true),
                                ..here.run.wire[k]
                            },
                        )
                }
                &&& !(known is Some && goes) ==> then.run.did is Some
                    && then.run.did->0 is Unplaceable && then.run.wire == here.run.wire && then.consuming.asked == here.consuming.asked
            }
            &&& !asks ==> then.run.wire == here.run.wire
            &&& overtakes ==> then.reader.watching is None && then.run.keep == Some((m.start, m.end))
            &&& !overtakes ==> then.run.keep == here.run.keep
            &&& !asks && !overtakes ==> then.reader.watching == named
            &&& then.run.release <==> here.run.release || ((frame is Delivered || frame is Fetched)
                && !overtakes && here.reader.held is Some)
        }),
{
    lemma_place_of(here.run.wire, m.start, m.end);
    match frames[at].frame {
        ParsedModel::Acked(tag) => {
            let n = place_of(here.run.wire, m.start, m.end) as int;
            if n < here.run.wire.len() {
                assert(here.run.wire[n].start == m.start);
            }
        },
        _ => {},
    }
}

/// What a schedule's moment holds the fleet at: where a frame offers the moment
/// that was named, what goes before the fleet is held is what came before the
/// frame, or all of it, by the side that was named.
pub proof fn lemma_frame_holds(
    here: Carrying,
    frames: Seq<FramedModel>,
    at: int,
    m: MessageModel,
    placing: bool,
    name: Seq<char>,
)
    requires
        begun_by(frames, at, m),
        name == match frames[at].frame {
            ParsedModel::Published => "publish:"@ + decimal(here.reader.published + 1),
            ParsedModel::Delivered(tag, _) | ParsedModel::Fetched(tag, _) => "deliver:"@ + decimal(
                tag as nat,
            ),
            ParsedModel::Acked(tag) => "ack:"@ + decimal(tag as nat),
            ParsedModel::Rejected(tag) | ParsedModel::Nacked(tag) => "reject:"@ + decimal(tag as nat),
            _ => here.reader.watching->0,
        },
        here.after(m, placing).reader.watching == here.reader.watching,
    ensures
        ({
            let then = here.after(m, placing);
            let named = here.reader.watching;
            let silent = frames[at].frame is Limited || frames[at].frame is Housekeeping;
            &&& !silent && named == Some(name + ":"@ + "before"@) ==> then.run.freeze_after is Some
                && held_after(then.run.wire, m.start, then.run.freeze_after->0)
            &&& !silent && named == Some(name + ":"@ + "after"@) ==> then.run.freeze_after is Some
                && held_after(then.run.wire, m.end, then.run.freeze_after->0)
            &&& silent || (named != Some(name + ":"@ + "before"@) && named != Some(
                name + ":"@ + "after"@,
            )) ==> then.run.freeze_after == here.run.freeze_after
        }),
{
    let wire = here.after(m, placing).run.wire;
    lemma_gone_by(wire, m.start);
    lemma_gone_by(wire, m.end);
    let b = name + ":"@ + "before"@;
    let a = name + ":"@ + "after"@;
    assert(b != a) by {
        reveal_strlit("before");
        reveal_strlit("after");
        assert(b.len() != a.len());
    }
}

/// A fault that asked for a message says it is placed when, and only when, that
/// message is delivered to the consumer again, and it is then asked for no
/// longer.
pub proof fn lemma_came_round(
    here: Carrying,
    frames: Seq<FramedModel>,
    at: int,
    m: MessageModel,
    placing: bool,
)
    requires
        begun_by(frames, at, m),
        !(frames[at].frame is Acked),
    ensures
        ({
            let then = here.after(m, placing);
            let again = here.consuming.asked is Some && m.identity == here.consuming.asked && match frames[at].frame {
                ParsedModel::Delivered(_, redelivered) => redelivered,
                ParsedModel::Fetched(_, redelivered) => redelivered,
                _ => false,
            };
            &&& again ==> then.run.did is Some && then.run.did->0 is Placed && then.consuming.asked is None
            &&& !again ==> then.run.did == here.run.did && then.consuming.asked
                == here.consuming.asked
        }),
{
}

/// The frames that go on are those that are not kept back, in the order they
/// came, and what is kept back is the bytes of the others. Where the fleet is to
/// be told things out of order, what was kept back goes once the message the
/// broker sent next has, behind all of it.
pub proof fn lemma_kept_goes_last(end: Carrying)
    ensures
        ({
            let done = end.carried();
            let inside = |frame: WireModel|
                end.run.keep matches Some((from, to)) && from <= frame.start < to;
            let sent = end.run.wire.filter(|frame: WireModel| !inside(frame)).map_values(
                |frame: WireModel| frame.bytes,
            );
            let kept = super::laws::laid_out(end.run.wire.filter(inside));
            let waiting = if kept.len() > 0 {
                Some(kept)
            } else {
                end.reader.held
            };
            &&& end.run.release && waiting is Some ==> done.forward == sent.push(waiting->0)
                && done.did is Some && done.did->0 is Placed && end.left().held is None
            &&& !(end.run.release && waiting is Some) ==> done.forward == sent
            &&& !end.run.release ==> end.left().held == waiting && (kept.len() > 0 ==> done.did == Some(
                DidModel::Asked,
            ))
            &&& !end.run.release && kept.len() == 0 ==> done.did == end.run.did
            &&& done.found == end.run.found
            &&& done.freeze_after == end.run.freeze_after
        }),
{
    lemma_going(end.run.wire, end.run.keep);
}

proof fn lemma_going(wire: Seq<WireModel>, keep: Option<(int, int)>)
    ensures
        ({
            let inside = |frame: WireModel| keep matches Some((from, to)) && from <= frame.start < to;
            let outside = |frame: WireModel| !inside(frame);
            &&& going(wire, keep) == wire.filter(outside).map_values(|frame: WireModel| frame.bytes)
            &&& staying(wire, keep) == super::laws::laid_out(wire.filter(inside))
        }),
    decreases wire.len(),
{
    reveal(Seq::filter);
    let inside = |frame: WireModel| keep matches Some((from, to)) && from <= frame.start < to;
    let outside = |frame: WireModel| !inside(frame);
    let bytes = |frame: WireModel| frame.bytes;
    if wire.len() == 0 {
        assert(going(wire, keep) =~= wire.filter(outside).map_values(bytes));
        assert(staying(wire, keep) =~= super::laws::laid_out(wire.filter(inside)));
    } else {
        let rest = wire.drop_last();
        let last = wire.last();
        lemma_going(rest, keep);
        if keeps(keep, last) {
            let kept = rest.filter(inside);
            assert(kept.push(last).drop_last() =~= kept);
        } else {
            let sent = rest.filter(outside);
            assert(sent.push(last).map_values(bytes) =~= sent.map_values(bytes).push(last.bytes));
        }
    }
}

/// The state a read is in once the first `n` of its operations have been dealt
/// with.
pub open spec fn once(
    reader: ReaderModel,
    consuming: ConsumingModel,
    bytes: Seq<u8>,
    placing: bool,
    n: int,
) -> Carrying {
    reader.starting(consuming, bytes).after_all(reader.completed_by(bytes).take(n), placing)
}

/// What a read comes to is what its operations come to, dealt with one after
/// another from the first: it starts with nothing offered, asked or kept, and
/// each operation is dealt with where the one before it left off.
pub proof fn lemma_one_after_another(
    reader: ReaderModel,
    consuming: ConsumingModel,
    bytes: Seq<u8>,
    placing: bool,
)
    ensures
        ({
            let messages = reader.completed_by(bytes);
            let start = once(reader, consuming, bytes, placing, 0);
            &&& start.run.found.len() == 0 && start.run.did is None && start.run.keep is None
            &&& start.run.freeze_after is None && !start.run.release
            &&& start.consuming == consuming
            &&& start.reader.watching == reader.watching && start.reader.held == reader.held
            &&& start.reader.published == reader.published && start.reader.last == reader.last
            &&& start.reader.direction == reader.direction
            &&& forall|n: int|
                0 <= n < messages.len() ==> #[trigger] once(reader, consuming, bytes, placing, n + 1)
                    == once(reader, consuming, bytes, placing, n).after(messages[n], placing)
            &&& reader.carrying(consuming, bytes, placing) == once(
                reader,
                consuming,
                bytes,
                placing,
                messages.len() as int,
            )
        }),
{
    let messages = reader.completed_by(bytes);
    assert(messages.take(0) =~= Seq::empty());
    assert(messages.take(messages.len() as int) =~= messages);
    assert forall|n: int| 0 <= n < messages.len() implies #[trigger] once(
        reader,
        consuming,
        bytes,
        placing,
        n + 1,
    ) == once(reader, consuming, bytes, placing, n).after(messages[n], placing) by {
        assert(messages.take(n + 1).drop_last() =~= messages.take(n));
        assert(messages.take(n + 1).last() == messages[n]);
    }
}

/// Whether a frame accounts for a moment: it is one of the moments the frame
/// offers, whatever came before it.
pub open spec fn explains(frame: ParsedModel, direction: Direction, found: PlacementModel) -> bool {
    exists|published: nat, before: Option<u64>, limit: Option<u16>| #[trigger]
        offered(frame, direction, published, before, limit).contains(found)
}

proof fn lemma_explained(
    reader: ReaderModel,
    consuming: ConsumingModel,
    bytes: Seq<u8>,
    placing: bool,
    frames: Seq<FramedModel>,
    at: Seq<int>,
    end: int,
    n: int,
)
    requires
        accounted(frames, reader.completed_by(bytes), at, 0, end),
        end <= frames.len(),
        0 <= n <= reader.completed_by(bytes).len(),
    ensures
        once(reader, consuming, bytes, placing, n).reader.direction == reader.direction,
        forall|i: int|
            0 <= i < once(reader, consuming, bytes, placing, n).run.found.len() ==> exists|k: int|
                0 <= k < frames.len() && explains(
                    (#[trigger] frames[k]).frame,
                    reader.direction,
                    #[trigger] once(reader, consuming, bytes, placing, n).run.found[i],
                ),
    decreases n,
{
    lemma_one_after_another(reader, consuming, bytes, placing);
    if n > 0 {
        let here = once(reader, consuming, bytes, placing, n - 1);
        let then = once(reader, consuming, bytes, placing, n);
        let m = reader.completed_by(bytes)[n - 1];
        let k = at[n - 1];
        lemma_explained(reader, consuming, bytes, placing, frames, at, end, n - 1);
        assert(once(reader, consuming, bytes, placing, (n - 1) + 1) == here.after(m, placing));
        assert(begun_by(frames, k, m));
        lemma_frame_offers(here, frames, k, m, placing);
        let more = offered(
            frames[k].frame,
            here.reader.direction,
            here.reader.published,
            note_on(here.reader.last, frames[k].channel),
            note_on(here.consuming.limits, frames[k].channel),
        );
        assert forall|i: int| 0 <= i < then.run.found.len() implies exists|k: int|
            0 <= k < frames.len() && explains(
                (#[trigger] frames[k]).frame,
                reader.direction,
                #[trigger] then.run.found[i],
            ) by {
            if i < here.run.found.len() {
                assert(then.run.found[i] == here.run.found[i]);
            } else {
                assert(then.run.found[i] == more[i - here.run.found.len()]);
                assert(more.contains(then.run.found[i]));
                assert(explains(frames[k].frame, reader.direction, then.run.found[i]));
            }
        }
    }
}

/// Every moment a read offers is one that a frame the parser read offers. So a
/// redelivery is offered, and a moment is named after an ack, only where a frame
/// was read as an ack of that delivery, and a frame read as a refusal accounts
/// for nothing but the two sides of that refusal.
pub proof fn lemma_moments_are_read(
    reader: ReaderModel,
    consuming: ConsumingModel,
    bytes: Seq<u8>,
    placing: bool,
)
    ensures
        ({
            let frames = reader.frames + super::message::frames_of(
                reader.pending + bytes,
                reader.taken,
            );
            let found = reader.carrying(consuming, bytes, placing).carried().found;
            forall|i: int|
                0 <= i < found.len() ==> exists|k: int|
                    0 <= k < frames.len() && explains(
                        (#[trigger] frames[k]).frame,
                        reader.direction,
                        #[trigger] found[i],
                    )
        }),
{
    let frames = reader.frames + super::message::frames_of(reader.pending + bytes, reader.taken);
    let messages = reader.completed_by(bytes);
    lemma_operations_are_the_frames(frames);
    let end = frames_read(frames, 0);
    let at = choose|at: Seq<int>| #[trigger] accounted(frames, messages, at, 0, end);
    lemma_one_after_another(reader, consuming, bytes, placing);
    lemma_explained(
        reader,
        consuming,
        bytes,
        placing,
        frames,
        at,
        end,
        messages.len() as int,
    );
}

} // verus!
