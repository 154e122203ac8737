//! AMQP 0-9-1 wire framing.
//!
//! ```text
//! | type | channel | size | payload | frame end |
//! |   1  |    2    |   4  |  size   |     1     |
//! ```
//!
//! A connection opens with a protocol header instead, which is not a frame.
//!
//! Only what a fault needs to recognise is decoded. Everything else is carried
//! through as bytes: the proxy forwards what it does not understand rather than
//! rewriting it, so a fleet speaking a dialect this does not know still runs.

use vstd::prelude::*;

use crate::bytes::{big_endian, read_u16, read_u32, read_u64};

use core::ops::Range;

verus! {

/// Marks the end of every frame.
pub const FRAME_END: u8 = 0xCE;

/// How many bytes come before a frame's payload.
pub const HEADER_LEN: usize = 7;

/// How many bytes of a frame are not its payload.
pub const FRAMING: usize = 8;

/// How many bytes open a connection, before any frame.
pub const PREAMBLE: usize = 8;

/// Whether the bytes begin with `AMQP`, which is followed by four version bytes
/// and sent once before any frame.
pub open spec fn opens(bytes: Seq<u8>) -> bool {
    bytes.len() >= 4 && bytes[0] == 65 && bytes[1] == 77 && bytes[2] == 81 && bytes[3] == 80
}

/// What a frame carries, as far as this needs to know.
#[derive(Clone, Copy, Debug, PartialEq, Eq, Structural)]
pub enum Kind {
    /// A class and method the peers are invoking on each other.
    Method { class: u16, method: u16 },
    /// The properties and body size of a message about to follow.
    Header,
    /// A run of message payload. A message may take several.
    Body,
    /// Keeps an idle connection open, and belongs to no message.
    Heartbeat,
    /// A frame type this does not know, which is carried through untouched.
    Other(u8),
}

impl DeepView for Kind {
    type V = Kind;

    open spec fn deep_view(&self) -> Kind {
        *self
    }
}

/// What a frame of type `ty` with that payload carries. A method frame too
/// short to name a method travels as itself: nothing can be done with it.
pub open spec fn kind_of(ty: u8, payload: Seq<u8>) -> Kind {
    if ty == 1 {
        if payload.len() >= 4 {
            Kind::Method {
                class: big_endian(payload.subrange(0, 2)) as u16,
                method: big_endian(payload.subrange(2, 4)) as u16,
            }
        } else {
            Kind::Other(ty)
        }
    } else if ty == 2 {
        Kind::Header
    } else if ty == 3 {
        Kind::Body
    } else if ty == 8 {
        Kind::Heartbeat
    } else {
        Kind::Other(ty)
    }
}

/// How many body bytes a content header says will follow it.
///
/// ```text
/// | class id | weight | body size | properties |
/// |    2     |   2    |     8     |     ..     |
/// ```
pub open spec fn stated_size(payload: Seq<u8>) -> Option<u64> {
    if payload.len() >= 12 {
        Some(big_endian(payload.subrange(4, 12)) as u64)
    } else {
        None
    }
}

/// One frame, and where it sat in the stream it was decoded from.
#[derive(Debug, PartialEq, Eq)]
pub struct Frame {
    pub kind: Kind,
    /// Which channel it belongs to. Zero is the connection itself.
    pub channel: u16,
    /// Its bytes, header and frame-end included, so forwarding one is copying
    /// this range back out.
    pub at: Range<usize>,
    /// For a content header, how many body bytes follow it. This is the only
    /// thing that says where a message ends.
    pub body_size: Option<u64>,
}

/// What a [`Frame`] is.
#[verifier::ext_equal]
pub struct FrameModel {
    pub kind: Kind,
    pub channel: u16,
    pub start: int,
    pub end: int,
    pub body_size: Option<u64>,
}

impl FrameModel {
    /// The same frame, further along the stream.
    pub open spec fn moved(self, by: int) -> FrameModel {
        FrameModel { start: self.start + by, end: self.end + by, ..self }
    }
}

impl DeepView for Frame {
    type V = FrameModel;

    open spec fn deep_view(&self) -> FrameModel {
        FrameModel {
            kind: self.kind,
            channel: self.channel,
            start: self.at.start as int,
            end: self.at.end as int,
            body_size: self.body_size,
        }
    }
}

impl Clone for Frame {
    fn clone(&self) -> (r: Frame)
        ensures
            r.deep_view() == self.deep_view(),
    {
        Frame {
            kind: self.kind,
            channel: self.channel,
            at: self.at.start..self.at.end,
            body_size: self.body_size,
        }
    }
}

/// The frame at the front of `bytes`, or `None` if not all of it is here yet, or
/// if it is no frame at all.
pub open spec fn front(bytes: Seq<u8>) -> Option<FrameModel> {
    if opens(bytes) {
        if bytes.len() >= PREAMBLE {
            Some(
                FrameModel {
                    kind: Kind::Other(0),
                    channel: 0,
                    start: 0,
                    end: PREAMBLE as int,
                    body_size: None,
                },
            )
        } else {
            None
        }
    } else if bytes.len() < HEADER_LEN {
        None
    } else {
        let size = big_endian(bytes.subrange(3, 7)) as int;
        let end = HEADER_LEN + size + 1;
        if bytes.len() < end || bytes[end - 1] != FRAME_END {
            None
        } else {
            let payload = bytes.subrange(HEADER_LEN as int, end - 1);
            let kind = kind_of(bytes[0], payload);
            Some(
                FrameModel {
                    kind,
                    channel: big_endian(bytes.subrange(1, 3)) as u16,
                    start: 0,
                    end,
                    body_size: if kind == Kind::Header {
                        stated_size(payload)
                    } else {
                        None
                    },
                },
            )
        }
    }
}

/// Every whole frame at the front of `bytes`, which sit at `offset` in the
/// stream.
pub open spec fn frames_at(bytes: Seq<u8>, offset: int) -> Seq<FrameModel>
    decreases bytes.len(),
{
    match front(bytes) {
        Some(frame) => if 0 < frame.end <= bytes.len() {
            seq![frame.moved(offset)] + frames_at(bytes.skip(frame.end), offset + frame.end)
        } else {
            Seq::empty()
        },
        None => Seq::empty(),
    }
}

/// How many bytes the whole frames at the front of `bytes` occupy.
pub open spec fn framed_len(bytes: Seq<u8>) -> int
    decreases bytes.len(),
{
    match front(bytes) {
        Some(frame) => if 0 < frame.end <= bytes.len() {
            frame.end + framed_len(bytes.skip(frame.end))
        } else {
            0
        },
        None => 0,
    }
}

impl Frame {
    /// The bytes it carries, which is its own less the framing around them.
    pub fn payload_len(&self) -> (r: usize)
        ensures
            r == if self.deep_view().end - self.deep_view().start >= FRAMING {
                self.deep_view().end - self.deep_view().start - FRAMING
            } else {
                0
            },
            self.at.start + 8 <= self.at.end ==> self.at.start + 7 + r + 1 == self.at.end,
            self.at.start + 8 > self.at.end ==> r == 0,
    {
        if self.at.end >= self.at.start && self.at.end - self.at.start >= FRAMING {
            self.at.end - self.at.start - FRAMING
        } else {
            0
        }
    }
}

/// What was read out of a stream, and how much of it was consumed.
#[derive(Debug, PartialEq, Eq)]
pub struct Decoded {
    pub frames: Vec<Frame>,
    /// Bytes the frames occupy. What follows is a frame still arriving, which
    /// the caller keeps until the rest of it does.
    pub consumed: usize,
}

impl Default for Decoded {
    fn default() -> (r: Decoded)
        ensures
            r.frames@.len() == 0,
            r.consumed == 0,
    {
        Decoded { frames: Vec::new(), consumed: 0 }
    }
}

/// The frame at the front of what `bytes` holds from `at` on.
fn one(bytes: &[u8], at: usize) -> (r: Option<Frame>)
    requires
        at <= bytes@.len(),
    ensures
        r.deep_view() == (match front(bytes@.skip(at as int)) {
            Some(frame) => Some(frame.moved(at as int)),
            None => None,
        }),
        r is Some ==> at < r->0.at.end <= bytes@.len(),
{
    let ghost rest = bytes@.skip(at as int);
    let n: usize = bytes.len() - at;
    if n >= 4 && bytes[at] == 65 && bytes[at + 1] == 77 && bytes[at + 2] == 81 && bytes[at + 3]
        == 80 {
        // The opening handshake, which is no frame at all. Reported as one so a
        // caller can forward it without knowing that.
        if n < PREAMBLE {
            return None;
        }
        return Some(
            Frame { kind: Kind::Other(0), channel: 0, at: at..at + PREAMBLE, body_size: None },
        );
    }
    if n < HEADER_LEN {
        return None;
    }
    let size: usize = read_u32(bytes, at + 3) as usize;
    proof {
        assert(rest.subrange(3, 7) =~= bytes@.subrange(at + 3, at + 7));
    }
    // The frame-end byte follows the payload and is part of the frame.
    if n - HEADER_LEN < 1 || n - HEADER_LEN - 1 < size {
        return None;
    }
    let end: usize = at + HEADER_LEN + size + 1;
    if bytes[end - 1] != FRAME_END {
        // Not a frame at all. There is nothing to hand back: the stream is not
        // AMQP and the caller carries the bytes through.
        return None;
    }
    let ghost payload = rest.subrange(HEADER_LEN as int, HEADER_LEN + size);
    let ty = bytes[at];
    let kind = if ty == 1 {
        if size >= 4 {
            proof {
                assert(payload.subrange(0, 2) =~= bytes@.subrange(
                    at + HEADER_LEN,
                    at + HEADER_LEN + 2,
                ));
                assert(payload.subrange(2, 4) =~= bytes@.subrange(
                    at + HEADER_LEN + 2,
                    at + HEADER_LEN + 4,
                ));
            }
            Kind::Method {
                class: read_u16(bytes, at + HEADER_LEN),
                method: read_u16(bytes, at + HEADER_LEN + 2),
            }
        } else {
            Kind::Other(ty)
        }
    } else if ty == 2 {
        Kind::Header
    } else if ty == 3 {
        Kind::Body
    } else if ty == 8 {
        Kind::Heartbeat
    } else {
        Kind::Other(ty)
    };
    let body_size = if ty == 2 && size >= 12 {
        proof {
            assert(payload.subrange(4, 12) =~= bytes@.subrange(
                at + HEADER_LEN + 4,
                at + HEADER_LEN + 12,
            ));
        }
        Some(read_u64(bytes, at + HEADER_LEN + 4))
    } else {
        None
    };
    proof {
        assert(rest.subrange(1, 3) =~= bytes@.subrange(at + 1, at + 3));
        assert(rest[0] == bytes@[at as int]);
    }
    Some(Frame { kind, channel: read_u16(bytes, at + 1), at: at..end, body_size })
}

/// Decode every whole frame at the front of `bytes`.
///
/// A partial frame at the end is left for the next call: the caller holds the
/// remainder and hands it back with what arrives next.
pub fn decode(bytes: &[u8]) -> (r: Decoded)
    ensures
        r.frames.deep_view() == frames_at(bytes@, 0),
        r.consumed == framed_len(bytes@),
{
    let mut frames: Vec<Frame> = Vec::new();
    let mut at: usize = 0;
    let ghost whole = frames_at(bytes@, 0);
    proof {
        assert(bytes@.skip(0) =~= bytes@);
        assert(frames.deep_view() + whole =~= whole);
    }
    loop
        invariant
            at <= bytes@.len(),
            whole == frames_at(bytes@, 0),
            frames.deep_view() + frames_at(bytes@.skip(at as int), at as int) == whole,
            at + framed_len(bytes@.skip(at as int)) == framed_len(bytes@),
        ensures
            frames.deep_view() == whole,
            at == framed_len(bytes@),
        decreases bytes@.len() - at,
    {
        let ghost rest = bytes@.skip(at as int);
        match one(bytes, at) {
            Some(frame) => {
                let ghost before = frames.deep_view();
                let ghost added = frame.deep_view();
                let ghost came = at as int;
                at = frame.at.end;
                frames.push(frame);
                proof {
                    assert(rest.skip(at - came) =~= bytes@.skip(at as int));
                    let more = frames_at(bytes@.skip(at as int), at as int);
                    assert(frames.deep_view() =~= before.push(added));
                    assert(before + (seq![added] + more) =~= before.push(added) + more);
                }
            },
            None => {
                proof {
                    assert(frames.deep_view() + Seq::empty() =~= frames.deep_view());
                }
                break;
            },
        }
    }
    Decoded { frames, consumed: at }
}

proof fn lemma_front_stands(a: Seq<u8>, b: Seq<u8>)
    requires
        front(a) is Some,
    ensures
        front(a + b) == front(a),
        0 < front(a)->0.end <= a.len(),
{
    let whole = a + b;
    if !opens(a) {
        assert(a.len() >= HEADER_LEN);
        assert(whole[0] == a[0] && whole[1] == a[1] && whole[2] == a[2] && whole[3] == a[3]);
        assert(whole.subrange(3, 7) =~= a.subrange(3, 7));
        assert(whole.subrange(1, 3) =~= a.subrange(1, 3));
        let end = HEADER_LEN + big_endian(a.subrange(3, 7)) as int + 1;
        assert(whole.subrange(HEADER_LEN as int, end - 1) =~= a.subrange(HEADER_LEN as int, end - 1));
        assert(whole[end - 1] == a[end - 1]);
    }
}

proof fn lemma_frames_moved(bytes: Seq<u8>, offset: int, by: int)
    ensures
        frames_at(bytes, offset + by) == frames_at(bytes, offset).map_values(
            |frame: FrameModel| frame.moved(by),
        ),
    decreases bytes.len(),
{
    let shift = |frame: FrameModel| frame.moved(by);
    match front(bytes) {
        Some(frame) => {
            if 0 < frame.end <= bytes.len() {
                lemma_frames_moved(bytes.skip(frame.end), offset + frame.end, by);
                let rest = frames_at(bytes.skip(frame.end), offset + frame.end);
                assert((seq![frame.moved(offset)] + rest).map_values(shift) =~= seq![
                    frame.moved(offset + by),
                ] + rest.map_values(shift));
            } else {
                assert(frames_at(bytes, offset).map_values(shift) =~= Seq::empty());
            }
        },
        None => {
            assert(frames_at(bytes, offset).map_values(shift) =~= Seq::empty());
        },
    }
}

/// However a stream is cut into reads, the same frames come out of it: decoding
/// a first read, then what it left behind with a second one, is decoding both
/// together.
pub proof fn lemma_decode_cut(a: Seq<u8>, b: Seq<u8>)
    ensures
        0 <= framed_len(a) <= a.len(),
        frames_at(a + b, 0) == frames_at(a, 0) + frames_at(
            a.skip(framed_len(a)) + b,
            framed_len(a),
        ),
        framed_len(a + b) == framed_len(a) + framed_len(a.skip(framed_len(a)) + b),
    decreases a.len(),
{
    match front(a) {
        Some(frame) => {
            lemma_front_stands(a, b);
            let rest = a.skip(frame.end);
            lemma_decode_cut(rest, b);
            assert((a + b).skip(frame.end) =~= rest + b);
            assert(rest.skip(framed_len(rest)) =~= a.skip(framed_len(a)));
            lemma_frames_moved(rest + b, 0, frame.end);
            lemma_frames_moved(rest, 0, frame.end);
            lemma_frames_moved(rest.skip(framed_len(rest)) + b, framed_len(rest), frame.end);
            let shift = |f: FrameModel| f.moved(frame.end);
            let tail = frames_at(rest.skip(framed_len(rest)) + b, framed_len(rest));
            assert((frames_at(rest, 0) + tail).map_values(shift) =~= frames_at(rest, 0).map_values(
                shift,
            ) + tail.map_values(shift));
            assert(seq![frame.moved(0)] + (frames_at(rest, frame.end) + tail.map_values(shift))
                =~= seq![frame.moved(0)] + frames_at(rest, frame.end) + tail.map_values(shift));
        },
        None => {
            assert(a.skip(0) =~= a);
            assert(frames_at(a, 0) + frames_at(a + b, 0) =~= frames_at(a + b, 0));
        },
    }
}

/// The frames of a stream stand one after another from its start, with nothing
/// between them, and end where what was consumed does.
pub proof fn lemma_frames_tile(bytes: Seq<u8>, offset: int)
    ensures
        ({
            let frames = frames_at(bytes, offset);
            &&& 0 <= framed_len(bytes) <= bytes.len()
            &&& frames.len() == 0 <==> framed_len(bytes) == 0
            &&& frames.len() > 0 ==> frames[0].start == offset && frames.last().end == offset
                + framed_len(bytes)
            &&& forall|k: int|
                0 < k < frames.len() ==> (#[trigger] frames[k]).start == frames[k - 1].end
        }),
    decreases bytes.len(),
{
    match front(bytes) {
        Some(frame) => {
            lemma_front_stands(bytes, Seq::empty());
            let rest = bytes.skip(frame.end);
            lemma_frames_tile(rest, offset + frame.end);
            let frames = frames_at(bytes, offset);
            let more = frames_at(rest, offset + frame.end);
            assert(frames =~= seq![frame.moved(offset)] + more);
            assert forall|k: int| 0 < k < frames.len() implies (#[trigger] frames[k]).start
                == frames[k - 1].end by {
                assert(frames[k] == more[k - 1]);
                if k > 1 {
                    assert(frames[k - 1] == more[k - 2]);
                }
            }
            if more.len() > 0 {
                assert(frames.last() == more.last());
            }
        },
        None => {},
    }
}

} // verus!
