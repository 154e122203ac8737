//! What a frame is on the wire.
//!
//! A frame written out byte by byte is read back as what was written, and
//! nothing else is read as a frame.

use vstd::prelude::*;

use super::frame::{framed_len, frames_at, front, opens, Kind};
use crate::bytes::{big_endian, lemma_big_endian_four};

verus! {

/// The two bytes a number below sixty-five thousand is written as.
pub open spec fn in_two(n: int) -> Seq<u8> {
    seq![(n / 256) as u8, (n % 256) as u8]
}

/// The four bytes a number is written as.
pub open spec fn in_four(n: int) -> Seq<u8> {
    in_two(n / 65536) + in_two(n % 65536)
}

/// A frame of that type and channel round a payload, as it is written.
pub open spec fn laid_out(ty: u8, channel: u16, payload: Seq<u8>) -> Seq<u8> {
    seq![ty] + in_two(channel as int) + in_four(payload.len() as int) + payload + seq![206u8]
}

/// What every peer sends before its first frame, whatever version it speaks.
pub open spec fn greets(bytes: Seq<u8>) -> bool {
    &&& bytes.len() >= 4
    &&& bytes.take(4) == seq![65u8, 77u8, 81u8, 80u8]
}

/// Whether `n` is what two bytes come to, the first counting for more.
pub open spec fn two_come_to(first: u8, second: u8, n: int) -> bool {
    n - second == first * 256
}

/// Whether a frame of that type and payload is of that kind.
pub open spec fn is_of_kind(ty: u8, payload: Seq<u8>, kind: Kind) -> bool {
    match kind {
        Kind::Method { class, method } => {
            &&& ty == 1
            &&& payload.len() >= 4
            &&& two_come_to(payload[0], payload[1], class as int)
            &&& two_come_to(payload[2], payload[3], method as int)
        },
        Kind::Header => ty == 2,
        Kind::Body => ty == 3,
        Kind::Heartbeat => ty == 8,
        Kind::Other(other) => {
            &&& other == ty
            &&& ty == 1 ==> payload.len() < 4
            &&& ty != 2 && ty != 3 && ty != 8
        },
    }
}

/// Whether a content header with that payload says `size` bytes of message
/// follow it: the last eight of its first twelve bytes, each counting for two
/// hundred and fifty-six of the next.
pub open spec fn says_size(payload: Seq<u8>, size: u64) -> bool {
    &&& payload.len() >= 12
    &&& size == payload[11] + 256 * (payload[10] + 256 * (payload[9] + 256 * (payload[8] + 256 * (
    payload[7] + 256 * (payload[6] + 256 * (payload[5] + 256 * payload[4]))))))
}

proof fn lemma_two(bytes: Seq<u8>)
    requires
        bytes.len() == 2,
    ensures
        big_endian(bytes) == bytes[0] * 256 + bytes[1],
        big_endian(bytes) < 65536,
{
    reveal_with_fuel(big_endian, 3);
}

proof fn lemma_eight(bytes: Seq<u8>)
    requires
        bytes.len() == 8,
    ensures
        big_endian(bytes) == bytes[7] + 256 * (bytes[6] + 256 * (bytes[5] + 256 * (bytes[4] + 256 * (
        bytes[3] + 256 * (bytes[2] + 256 * (bytes[1] + 256 * bytes[0])))))),
        big_endian(bytes) <= u64::MAX,
{
    reveal_with_fuel(big_endian, 9);
}

/// What is read at the front of `bytes` that do not greet, in one piece.
proof fn lemma_read_off(bytes: Seq<u8>)
    requires
        !greets(bytes),
        bytes.len() >= 7,
    ensures
        front(bytes) matches Some(frame) ==> {
            let payload = bytes.subrange(7, frame.end - 1);
            &&& frame.start == 0
            &&& 8 <= frame.end <= bytes.len()
            &&& in_four(frame.end - 8) == bytes.subrange(3, 7)
            &&& bytes[frame.end - 1] == 206
            &&& two_come_to(bytes[1], bytes[2], frame.channel as int)
            &&& is_of_kind(bytes[0], payload, frame.kind)
            &&& frame.body_size is Some ==> says_size(payload, frame.body_size->0)
            &&& frame.body_size is Some <==> frame.kind is Header && payload.len() >= 12
        },
        front(bytes) is None ==> {
            let size = ((bytes[3] * 256 + bytes[4]) * 256 + bytes[5]) * 256 + bytes[6];
            bytes.len() < size + 8 || bytes[size + 7] != 206
        },
{
    assert(!opens(bytes)) by {
        if opens(bytes) {
            assert(bytes.take(4) =~= seq![65u8, 77u8, 81u8, 80u8]);
        }
    }
    let length = bytes.subrange(3, 7);
    lemma_big_endian_four(length);
    lemma_two(bytes.subrange(1, 3));
    let size = big_endian(length) as int;
    assert(size == ((bytes[3] * 256 + bytes[4]) * 256 + bytes[5]) * 256 + bytes[6]);
    assert(size / 65536 == bytes[3] * 256 + bytes[4]);
    assert(size % 65536 == bytes[5] * 256 + bytes[6]);
    assert(in_four(size) =~= length);
    if let Some(frame) = front(bytes) {
        let payload = bytes.subrange(7, frame.end - 1);
        assert(frame.end == size + 8);
        if payload.len() >= 4 {
            lemma_two(payload.subrange(0, 2));
            lemma_two(payload.subrange(2, 4));
        }
        if payload.len() >= 12 {
            lemma_eight(payload.subrange(4, 12));
        }
    }
}

/// A frame written out is read back as it was written, whatever comes behind it:
/// on its channel, of the kind its type and its first bytes give it, as long as
/// it is, and with the length of the message it announces. What follows it is
/// read as if it stood alone.
pub proof fn lemma_frame_reads_back(ty: u8, channel: u16, payload: Seq<u8>, rest: Seq<u8>)
    requires
        payload.len() < 0x1_0000_0000,
        !greets(laid_out(ty, channel, payload) + rest),
    ensures
        ({
            let bytes = laid_out(ty, channel, payload) + rest;
            &&& front(bytes) matches Some(frame)
            &&& frame.start == 0
            &&& frame.end == payload.len() + 8
            &&& frame.channel == channel
            &&& is_of_kind(ty, payload, frame.kind)
            &&& frame.body_size is Some ==> says_size(payload, frame.body_size->0)
            &&& frame.body_size is Some <==> ty == 2 && payload.len() >= 12
            &&& framed_len(bytes) == payload.len() + 8 + framed_len(rest)
            &&& frames_at(bytes, 0).len() == 1 + frames_at(rest, 0).len()
            &&& frames_at(bytes, 0)[0] == frame
        }),
{
    let whole = laid_out(ty, channel, payload);
    let bytes = whole + rest;
    let n = payload.len() as int;
    assert(whole.len() == n + 8);
    assert(bytes[0] == ty);
    assert(bytes.subrange(1, 3) =~= in_two(channel as int));
    assert(bytes.subrange(3, 7) =~= in_four(n));
    assert(bytes.subrange(7, n + 7) =~= payload);
    assert(bytes[n + 7] == 206);
    assert(bytes.skip(n + 8) =~= rest);
    assert(bytes[1] == bytes.subrange(1, 3)[0] && bytes[2] == bytes.subrange(1, 3)[1]);
    let four = bytes.subrange(3, 7);
    assert(four[0] == bytes[3] && four[1] == bytes[4] && four[2] == bytes[5] && four[3] == bytes[6]);
    let high = n / 65536;
    let low = n % 65536;
    assert(((bytes[3] * 256 + bytes[4]) * 256 + bytes[5]) * 256 + bytes[6] == n);
    lemma_read_off(bytes);
    let frame = front(bytes)->0;
    lemma_big_endian_four(four);
    lemma_as_far_along(rest, n + 8, 0);
}

/// Where bytes stand in the stream moves their frames and adds none.
proof fn lemma_as_far_along(bytes: Seq<u8>, one: int, other: int)
    ensures
        frames_at(bytes, one).len() == frames_at(bytes, other).len(),
    decreases bytes.len(),
{
    if let Some(frame) = front(bytes) {
        if 0 < frame.end <= bytes.len() {
            lemma_as_far_along(bytes.skip(frame.end), one + frame.end, other + frame.end);
        }
    }
}

/// Nothing is read as a frame but a frame that was written out whole, or the
/// eight bytes a peer greets with, which are on no channel and are no kind of
/// frame. So of bytes that end before their frame does, or that do not end as a
/// frame must, none are taken.
pub proof fn lemma_nothing_else_is_a_frame(bytes: Seq<u8>)
    ensures
        front(bytes) matches Some(frame) ==> {
            &&& frame.start == 0
            &&& greets(bytes) ==> frame.end == 8 && frame.channel == 0 && frame.body_size is None
                && frame.kind == Kind::Other(0)
            &&& !greets(bytes) ==> bytes.take(frame.end) == laid_out(
                bytes[0],
                frame.channel,
                bytes.subrange(7, frame.end - 1),
            )
        },
        greets(bytes) ==> (front(bytes) is Some <==> bytes.len() >= 8),
        front(bytes) is None ==> frames_at(bytes, 0).len() == 0 && framed_len(bytes) == 0,
{
    if greets(bytes) {
        let four = bytes.take(4);
        assert(four[0] == 65 && four[1] == 77 && four[2] == 81 && four[3] == 80);
        assert(opens(bytes));
    } else if bytes.len() >= 7 {
        lemma_read_off(bytes);
        if let Some(frame) = front(bytes) {
            let payload = bytes.subrange(7, frame.end - 1);
            let channel = frame.channel as int;
            assert(channel / 256 == bytes[1] && channel % 256 == bytes[2]);
            assert(in_two(channel) =~= bytes.subrange(1, 3));
            assert(payload.len() == frame.end - 8);
            assert(bytes.take(frame.end) =~= laid_out(bytes[0], frame.channel, payload));
        }
    } else {
        assert(!opens(bytes)) by {
            if opens(bytes) {
                assert(bytes.take(4) =~= seq![65u8, 77u8, 81u8, 80u8]);
            }
        }
    }
}

} // verus!
