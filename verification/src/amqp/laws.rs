//! What holds of a connection whatever crosses it.

use vstd::prelude::*;

use super::message::{
    body_frames, followed_by, frames_of, frames_read, in_line, lemma_frames_in_line,
    message, messages_from, reads_on, taken, whole_len, FramedModel, MessageModel, Operation,
};
use super::reader::{
    going, keeps, lemma_after, lemma_nothing_stays, staying, wire_of, wired, Carrying,
    ConsumingModel, ReaderModel, WireModel,
};

verus! {

/// Runs of bytes, one behind another.
pub open spec fn joined(parts: Seq<Seq<u8>>) -> Seq<u8>
    decreases parts.len(),
{
    if parts.len() == 0 {
        Seq::empty()
    } else {
        joined(parts.drop_last()) + parts.last()
    }
}

/// The bytes of every frame, one behind another.
pub open spec fn laid_out(wire: Seq<WireModel>) -> Seq<u8>
    decreases wire.len(),
{
    if wire.len() == 0 {
        Seq::empty()
    } else {
        laid_out(wire.drop_last()) + wire.last().bytes
    }
}

/// A consumer that has been told a message came round again was told it once:
/// whatever comes next is the fleet's own doing.
pub proof fn lemma_asks_once(consuming: ConsumingModel, first: MessageModel, next: MessageModel)
    requires
        consuming.tells(first) is Some,
    ensures
        consuming.following(first).asked is None,
        consuming.following(first).tells(next) is None,
{
}

/// A fault that asked for a message back is placed only by that message: a
/// delivery the broker has not made before places nothing, and neither does one
/// of another message.
pub proof fn lemma_placed_by_what_was_asked(consuming: ConsumingModel, message: MessageModel)
    ensures
        consuming.tells(message) is Some ==> message.operation is Deliver
            && message.operation->redelivered && consuming.asked is Some && message.identity
            == consuming.asked,
{
}

proof fn lemma_after_all(here: Carrying, messages: Seq<MessageModel>, placing: bool)
    ensures
        ({
            let then = here.after_all(messages, placing);
            &&& then.reader.pending == here.reader.pending
            &&& then.reader.taken == here.reader.taken
            &&& then.reader.frames == here.reader.frames
            &&& then.reader.held == here.reader.held
            &&& here.reader.watching is None ==> then.reader.watching is None && then.run.wire
                == here.run.wire && then.run.keep == here.run.keep && then.run.freeze_after
                == here.run.freeze_after
            &&& (here.run.keep is Some ==> here.reader.watching is None) ==> (then.run.keep is Some
                ==> then.reader.watching is None)
            &&& here.reader.held is None ==> then.run.release == here.run.release
        }),
    decreases messages.len(),
{
    if messages.len() > 0 {
        lemma_after_all(here, messages.drop_last(), placing);
        lemma_after(here.after_all(messages.drop_last(), placing), messages.last(), placing);
    }
}

proof fn lemma_going_all(wire: Seq<WireModel>)
    ensures
        joined(going(wire, None)) == laid_out(wire),
        going(wire, None).len() == wire.len(),
    decreases wire.len(),
{
    if wire.len() > 0 {
        lemma_going_all(wire.drop_last());
        let rest = going(wire.drop_last(), None);
        assert(going(wire, None) == rest.push(wire.last().bytes));
        assert(rest.push(wire.last().bytes).drop_last() =~= rest);
    }
}

proof fn lemma_laid_out(bytes: Seq<u8>, frames: Seq<FramedModel>, offset: int, end: int, n: int)
    requires
        in_line(frames, offset, end),
        end - offset <= bytes.len(),
        0 <= n <= frames.len(),
    ensures
        laid_out(wired(bytes, frames, offset).take(n)) == bytes.take(
            if n == 0 {
                0
            } else {
                frames[n - 1].end - offset
            },
        ),
    decreases n,
{
    let wire = wired(bytes, frames, offset);
    if n > 0 {
        lemma_laid_out(bytes, frames, offset, end, n - 1);
        assert(wire.take(n).drop_last() =~= wire.take(n - 1));
        lemma_extents(frames, offset, end, n - 1);
        let from = frames[n - 1].start - offset;
        let to = frames[n - 1].end - offset;
        assert(bytes.take(from) + bytes.subrange(from, to) =~= bytes.take(to));
    } else {
        assert(wire.take(0) =~= Seq::empty());
        assert(bytes.take(0) =~= Seq::empty());
    }
}

proof fn lemma_extents(frames: Seq<FramedModel>, offset: int, end: int, n: int)
    requires
        in_line(frames, offset, end),
        0 <= n < frames.len(),
    ensures
        offset <= frames[n].start < frames[n].end <= end,
        frames[n].start == if n == 0 {
            offset
        } else {
            frames[n - 1].end
        },
    decreases n + frames.len(),
{
    lemma_starts_after(frames, offset, end, n);
    lemma_ends_before(frames, offset, end, n);
}

proof fn lemma_starts_after(frames: Seq<FramedModel>, offset: int, end: int, n: int)
    requires
        in_line(frames, offset, end),
        0 <= n < frames.len(),
    ensures
        offset <= frames[n].start,
    decreases n,
{
    if n > 0 {
        lemma_starts_after(frames, offset, end, n - 1);
        assert(frames[n - 1].start < frames[n - 1].end);
        assert(frames[n].start == frames[n - 1].end);
    }
}

proof fn lemma_ends_before(frames: Seq<FramedModel>, offset: int, end: int, n: int)
    requires
        in_line(frames, offset, end),
        0 <= n < frames.len(),
    ensures
        frames[n].end <= end,
    decreases frames.len() - n,
{
    if n + 1 < frames.len() {
        lemma_ends_before(frames, offset, end, n + 1);
        assert(frames[n + 1].start == frames[n].end);
    }
}

/// The frames at the front of a stream, laid out again, are the bytes they took.
pub proof fn lemma_wire_is_the_stream(bytes: Seq<u8>, offset: int)
    ensures
        laid_out(wire_of(bytes, offset)) == bytes.take(whole_len(bytes)),
{
    let wire = wire_of(bytes, offset);
    let frames = frames_of(bytes, offset);
    lemma_frames_in_line(bytes, offset);
    lemma_laid_out(bytes, frames, offset, offset + whole_len(bytes), frames.len() as int);
    assert(wire.take(wire.len() as int) =~= wire);
}

/// What is carried is what arrived: a reader that watches for nothing and keeps
/// nothing back sends on every whole frame as it came, holds the fleet nowhere,
/// and keeps the frame still arriving.
pub proof fn lemma_carried_is_what_arrived(
    reader: ReaderModel,
    consuming: ConsumingModel,
    bytes: Seq<u8>,
    placing: bool,
)
    requires
        reader.watching is None,
        reader.held is None,
    ensures
        ({
            let end = reader.carrying(consuming, bytes, placing);
            let stream = reader.pending + bytes;
            &&& joined(end.carried().forward) == stream.take(whole_len(stream))
            &&& end.left().pending == stream.skip(whole_len(stream))
            &&& joined(end.carried().forward) + end.left().pending == stream
            &&& end.carried().freeze_after is None
            &&& end.left().held is None
            &&& end.left().watching is None
            &&& end.left().taken == reader.taken + whole_len(stream)
        }),
{
    let start = reader.starting(consuming, bytes);
    let stream = reader.pending + bytes;
    lemma_after_all(start, reader.completed_by(bytes), placing);
    lemma_going_all(start.run.wire);
    lemma_nothing_stays(start.run.wire);
    lemma_wire_is_the_stream(stream, reader.taken);
    lemma_frames_in_line(stream, reader.taken);
    assert(stream.take(whole_len(stream)) + stream.skip(whole_len(stream)) =~= stream);
}

/// A frame split across reads goes out whole: however what crosses is cut into
/// reads, a reader that watches for nothing sends on the same bytes.
///
/// That more arriving leaves the frames already whole as they were is what
/// [`super::reader::Reader::carry`] ensures of what it read.
pub proof fn lemma_cut_anywhere(
    reader: ReaderModel,
    consuming: ConsumingModel,
    a: Seq<u8>,
    b: Seq<u8>,
    placing: bool,
)
    requires
        reader.watching is None,
        reader.held is None,
        reads_on(reader.pending + a, b, reader.taken),
    ensures
        ({
            let first = reader.carrying(consuming, a, placing);
            let then = first.left().carrying(first.consuming, b, placing);
            let once = reader.carrying(consuming, a + b, placing);
            &&& joined(first.carried().forward) + joined(then.carried().forward) == joined(
                once.carried().forward,
            )
            &&& then.left().pending == once.left().pending
            &&& then.left().taken == once.left().taken
        }),
{
    let first = reader.carrying(consuming, a, placing);
    lemma_carried_is_what_arrived(reader, consuming, a, placing);
    lemma_carried_is_what_arrived(first.left(), first.consuming, b, placing);
    lemma_carried_is_what_arrived(reader, consuming, a + b, placing);
    let stream = reader.pending + a;
    let n = whole_len(stream);
    let rest = stream.skip(n) + b;
    assert(reader.pending + (a + b) =~= stream + b);
    assert(0 <= n <= stream.len() && 0 <= whole_len(rest) <= rest.len()) by {
        lemma_frames_in_line(stream, reader.taken);
        lemma_frames_in_line(rest, reader.taken + n);
    }
    lemma_seam(stream, b, n, whole_len(rest));
}

proof fn lemma_seam(a: Seq<u8>, b: Seq<u8>, n: int, m: int)
    requires
        0 <= n <= a.len(),
        0 <= m <= a.len() - n + b.len(),
    ensures
        a.take(n) + (a.skip(n) + b).take(m) == (a + b).take(n + m),
        (a.skip(n) + b).skip(m) == (a + b).skip(n + m),
{
    assert(a.take(n) + (a.skip(n) + b).take(m) =~= (a + b).take(n + m));
    assert((a.skip(n) + b).skip(m) =~= (a + b).skip(n + m));
}

/// What an operation is and where it stands in the stream.
pub struct Spoken {
    pub operation: Operation,
    pub channel: u16,
    pub start: int,
    pub end: int,
}

/// What each message is and where it stands in the stream.
pub open spec fn spoken(messages: Seq<MessageModel>) -> Seq<Spoken> {
    messages.map_values(
        |m: MessageModel|
            Spoken { operation: m.operation, channel: m.channel, start: m.start, end: m.end },
    )
}

proof fn lemma_body_stands(f: Seq<FramedModel>, g: Seq<FramedModel>, from: int, wanted: int)
    requires
        0 <= from,
        body_frames(f, from, wanted) is Some,
    ensures
        body_frames(f + g, from, wanted) == body_frames(f, from, wanted),
        wanted <= 0 || from + body_frames(f, from, wanted)->0 <= f.len(),
    decreases f.len() - from,
{
    if wanted > 0 {
        assert((f + g)[from] == f[from]);
        match f[from].frame {
            super::wire::ParsedModel::Payload(payload) => {
                lemma_body_stands(f, g, from + 1, wanted - payload.len());
            },
            _ => {},
        }
    }
}

proof fn lemma_follows_stands(f: Seq<FramedModel>, g: Seq<FramedModel>, at: int)
    requires
        0 <= at,
        followed_by(f, at) is Some,
    ensures
        followed_by(f + g, at) == followed_by(f, at),
        at + followed_by(f, at)->0 < f.len(),
{
    assert((f + g)[at + 1] == f[at + 1]);
    match f[at + 1].frame {
        super::wire::ParsedModel::Head(size) => {
            lemma_body_stands(f, g, at + 2, size as int);
        },
        _ => {},
    }
}

proof fn lemma_read_bounds(f: Seq<FramedModel>, at: int)
    requires
        0 <= at <= f.len(),
    ensures
        at <= frames_read(f, at) <= f.len(),
    decreases f.len() - at,
{
    if at < f.len() {
        match Operation::read_in(f[at].frame) {
            None => lemma_read_bounds(f, at + 1),
            Some(operation) => {
                if operation.carries() {
                    if followed_by(f, at) is Some {
                        lemma_follows_stands(f, Seq::empty(), at);
                        lemma_read_bounds(f, at + followed_by(f, at)->0 + 1);
                    }
                } else {
                    lemma_read_bounds(f, at + 1);
                }
            },
        }
    }
}

proof fn lemma_messages_go_on(f: Seq<FramedModel>, g: Seq<FramedModel>, at: int)
    requires
        0 <= at <= f.len(),
    ensures
        spoken(messages_from(f + g, at)) == spoken(messages_from(f, at)) + spoken(
            messages_from(f + g, frames_read(f, at)),
        ),
        frames_read(f + g, at) == frames_read(f + g, frames_read(f, at)),
    decreases f.len() - at,
{
    let both = f + g;
    let tail = spoken(messages_from(both, frames_read(f, at)));
    if at >= f.len() {
        assert(spoken(Seq::empty()) + tail =~= tail);
    } else {
        assert(both[at] == f[at]);
        match Operation::read_in(f[at].frame) {
            None => lemma_messages_go_on(f, g, at + 1),
            Some(operation) => {
                if operation.carries() && followed_by(f, at) is None {
                    assert(spoken(Seq::empty()) + tail =~= tail);
                } else {
                    let more: nat = if operation.carries() {
                        followed_by(f, at)->0
                    } else {
                        0
                    };
                    if operation.carries() {
                        lemma_follows_stands(f, g, at);
                    }
                    lemma_messages_go_on(f, g, at + more + 1);
                    assert(both[at + more] == f[at + more]);
                    let one = message(f, at, more, operation);
                    let other = message(both, at, more, operation);
                    let rest = messages_from(f, at + more + 1);
                    let whole = messages_from(both, at + more + 1);
                    assert(spoken(seq![one] + rest) =~= spoken(seq![one]) + spoken(rest));
                    assert(spoken(seq![other] + whole) =~= spoken(seq![other]) + spoken(whole));
                    assert(spoken(seq![one]) =~= spoken(seq![other]));
                    assert(spoken(seq![one]) + (spoken(rest) + tail) =~= spoken(seq![one]) + spoken(
                        rest,
                    ) + tail);
                }
            },
        }
    }
}

proof fn lemma_body_shift(s: Seq<FramedModel>, k: int, from: int, wanted: int)
    requires
        0 <= k <= from,
        k <= s.len(),
    ensures
        body_frames(s, from, wanted) == body_frames(s.skip(k), from - k, wanted),
    decreases s.len() - from,
{
    if wanted > 0 && from < s.len() {
        assert(s.skip(k)[from - k] == s[from]);
        match s[from].frame {
            super::wire::ParsedModel::Payload(payload) => {
                lemma_body_shift(s, k, from + 1, wanted - payload.len());
            },
            _ => {},
        }
    }
}

proof fn lemma_messages_shift(s: Seq<FramedModel>, k: int, at: int)
    requires
        0 <= k <= at,
        k <= s.len(),
    ensures
        spoken(messages_from(s, at)) == spoken(messages_from(s.skip(k), at - k)),
    decreases (if at < s.len() { s.len() - at } else { 0 }),
{
    let cut = s.skip(k);
    if at < s.len() {
        assert(cut[at - k] == s[at]);
        if at + 1 < s.len() {
            assert(cut[at - k + 1] == s[at + 1]);
        }
        match Operation::read_in(s[at].frame) {
            None => lemma_messages_shift(s, k, at + 1),
            Some(operation) => {
                if operation.carries() {
                    assert(followed_by(s, at) == followed_by(cut, at - k)) by {
                        if at + 1 < s.len() {
                            match s[at + 1].frame {
                                super::wire::ParsedModel::Head(size) => {
                                    lemma_body_shift(s, k, at + 2, size as int);
                                },
                                _ => {},
                            }
                        }
                    }
                }
                if !operation.carries() || followed_by(s, at) is Some {
                    let more: nat = if operation.carries() {
                        followed_by(s, at)->0
                    } else {
                        0
                    };
                    if operation.carries() {
                        lemma_follows_stands(s, Seq::empty(), at);
                    }
                    lemma_messages_shift(s, k, at + more + 1);
                    assert(cut[at - k + more] == s[at + more]);
                    let one = message(s, at, more, operation);
                    let other = message(cut, at - k, more, operation);
                    let rest = messages_from(s, at + more + 1);
                    let whole = messages_from(cut, at - k + more + 1);
                    assert(spoken(seq![one] + rest) =~= spoken(seq![one]) + spoken(rest));
                    assert(spoken(seq![other] + whole) =~= spoken(seq![other]) + spoken(whole));
                    assert(spoken(seq![one]) =~= spoken(seq![other]));
                }
            },
        }
    }
}

/// However what crosses is cut into reads, it makes up the same operations, in
/// the same order and standing in the same places of the stream.
pub proof fn lemma_operations_cut_anywhere(
    reader: ReaderModel,
    consuming: ConsumingModel,
    a: Seq<u8>,
    b: Seq<u8>,
    placing: bool,
)
    requires
        reads_on(reader.pending + a, b, reader.taken),
    ensures
        ({
            let first = reader.carrying(consuming, a, placing);
            spoken(reader.completed_by(a + b)) == spoken(reader.completed_by(a)) + spoken(
                first.left().completed_by(b),
            )
        }),
{
    let first = reader.carrying(consuming, a, placing);
    lemma_after_all(reader.starting(consuming, a), reader.completed_by(a), placing);
    let stream = reader.pending + a;
    let f = reader.frames + frames_of(stream, reader.taken);
    let rest = stream.skip(whole_len(stream)) + b;
    let g = frames_of(rest, reader.taken + whole_len(stream));
    assert(reader.pending + (a + b) =~= stream + b);
    assert(reader.frames + frames_of(stream + b, reader.taken) =~= f + g);
    lemma_messages_go_on(f, g, 0);
    let k = frames_read(f, 0);
    lemma_read_bounds(f, 0);
    lemma_messages_shift(f + g, k, k);
    assert((f + g).skip(k) =~= f.skip(k) + g);
}

proof fn lemma_split(wire: Seq<WireModel>, keep: Option<(int, int)>)
    ensures
        joined(going(wire, keep)).to_multiset().add(staying(wire, keep).to_multiset()) == laid_out(
            wire,
        ).to_multiset(),
    decreases wire.len(),
{
    if wire.len() > 0 {
        let rest = wire.drop_last();
        let last = wire.last().bytes;
        lemma_split(rest, keep);
        vstd::seq_lib::lemma_multiset_commutative(laid_out(rest), last);
        if keeps(keep, wire.last()) {
            vstd::seq_lib::lemma_multiset_commutative(staying(rest, keep), last);
        } else {
            let sent = going(rest, keep);
            assert(sent.push(last).drop_last() =~= sent);
            vstd::seq_lib::lemma_multiset_commutative(joined(sent), last);
        }
        assert(joined(going(wire, keep)).to_multiset().add(staying(wire, keep).to_multiset())
            =~= laid_out(wire).to_multiset());
    } else {
        assert(joined(going(wire, keep)) =~= Seq::empty());
        broadcast use vstd::seq_lib::group_to_multiset_ensures;

        assert(Seq::<u8>::empty().to_multiset() =~= vstd::multiset::Multiset::empty());
        assert(joined(going(wire, keep)).to_multiset().add(staying(wire, keep).to_multiset())
            =~= laid_out(wire).to_multiset());
    }
}

/// The bytes a reader keeps back.
pub open spec fn kept_back(held: Option<Seq<u8>>) -> Seq<u8> {
    match held {
        Some(held) => held,
        None => Seq::empty(),
    }
}

/// A reorder takes nothing away: where no ack was rewritten, every byte that
/// arrived whole, or was kept back before, is sent on or still kept back.
pub proof fn lemma_nothing_is_lost(
    reader: ReaderModel,
    consuming: ConsumingModel,
    bytes: Seq<u8>,
    placing: bool,
)
    requires
        reader.wf(),
        reader.carrying(consuming, bytes, placing).run.wire == wire_of(
            reader.pending + bytes,
            reader.taken,
        ),
    ensures
        ({
            let end = reader.carrying(consuming, bytes, placing);
            let stream = reader.pending + bytes;
            joined(end.carried().forward).to_multiset().add(
                kept_back(end.left().held).to_multiset(),
            ) == stream.take(whole_len(stream)).to_multiset().add(
                kept_back(reader.held).to_multiset(),
            )
        }),
{
    broadcast use vstd::seq_lib::group_to_multiset_ensures;

    let end = reader.carrying(consuming, bytes, placing);
    let stream = reader.pending + bytes;
    lemma_after_all(reader.starting(consuming, bytes), reader.completed_by(bytes), placing);
    lemma_wire_is_the_stream(stream, reader.taken);
    let wire = end.run.wire;
    let keep = end.run.keep;
    lemma_split(wire, keep);
    let sent = going(wire, keep);
    let kept = staying(wire, keep);
    assert(Seq::<u8>::empty().to_multiset() =~= vstd::multiset::Multiset::empty());
    if reader.held is Some {
        assert(keep is None);
        lemma_nothing_stays(wire);
    }
    if kept.len() == 0 {
        assert(kept =~= Seq::empty());
    }
    let held = kept_back(end.left_held());
    assert(held.to_multiset() == kept.to_multiset().add(kept_back(reader.held).to_multiset())) by {
        assert(kept.to_multiset().add(kept_back(reader.held).to_multiset()) =~= held.to_multiset());
    }
    if end.run.release && end.left_held() is Some {
        assert(sent.push(held).drop_last() =~= sent);
        vstd::seq_lib::lemma_multiset_commutative(joined(sent), held);
    }
    assert(joined(end.carried().forward).to_multiset().add(
        kept_back(end.left().held).to_multiset(),
    ) =~= stream.take(whole_len(stream)).to_multiset().add(kept_back(reader.held).to_multiset()));
}

} // verus!
