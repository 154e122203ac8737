//! Length-prefixed framing for IPC messages.

use vstd::prelude::*;

use vstd::string::*;

use crate::bytes::{big_endian, extend, lemma_big_endian_four, read_u32};
use crate::text::{decimal, spell};

verus! {

/// Maximum size of a single frame. Anything larger is refused as malformed.
///
/// A bound on what a peer may claim to be sending, not on what a message may
/// say.
pub const MAX_FRAME_SIZE: usize = 16777216;

/// How many bytes say how long a frame's payload is.
pub const HEADER_SIZE: usize = 4;

/// A frame's payload is larger than a frame may hold.
#[derive(Clone, Copy, Debug, PartialEq, Eq, Structural)]
pub struct TooLarge {
    pub size: usize,
    pub max: usize,
}

impl TooLarge {
    /// The refusal as a report words it.
    pub fn spell(&self) -> (r: String)
        ensures
            r@ == "frame too large: "@ + decimal(self.size as nat) + " bytes exceeds "@ + decimal(
                self.max as nat,
            ),
    {
        let mut out = "frame too large: ".to_owned();
        let size = spell(self.size as u128);
        let max = spell(self.max as u128);
        out.append(size.as_str());
        out.append(" bytes exceeds ");
        out.append(max.as_str());
        out
    }
}

/// A payload's length in four bytes, most significant first.
pub open spec fn header(len: nat) -> Seq<u8> {
    seq![
        (len / 0x100_0000 % 256) as u8,
        (len / 0x1_0000 % 256) as u8,
        (len / 0x100 % 256) as u8,
        (len % 256) as u8,
    ]
}

/// A payload behind its length.
pub open spec fn framed(payload: Seq<u8>) -> Seq<u8> {
    header(payload.len()) + payload
}

/// Whether a payload of that size fits in a frame.
pub open spec fn fits(size: nat) -> bool {
    size <= MAX_FRAME_SIZE
}

/// What a frame's header declares of its payload.
pub open spec fn declared(head: Seq<u8>) -> Result<usize, TooLarge> {
    let size = big_endian(head);
    if fits(size) {
        Ok(size as usize)
    } else {
        Err(TooLarge { size: size as usize, max: MAX_FRAME_SIZE })
    }
}

/// The frame that carries an encoded message.
///
/// # Errors
/// Refuses a message that exceeds [`MAX_FRAME_SIZE`].
pub fn write_frame(payload: &[u8]) -> (r: Result<Vec<u8>, TooLarge>)
    ensures
        match r {
            Ok(frame) => fits(payload@.len()) && frame@ == framed(payload@),
            Err(e) => !fits(payload@.len()) && e == (TooLarge {
                size: payload@.len() as usize,
                max: MAX_FRAME_SIZE,
            }),
        },
{
    let len: usize = payload.len();
    if len > MAX_FRAME_SIZE {
        return Err(TooLarge { size: len, max: MAX_FRAME_SIZE });
    }
    let mut frame: Vec<u8> = Vec::new();
    frame.push((len / 0x100_0000 % 256) as u8);
    frame.push((len / 0x1_0000 % 256) as u8);
    frame.push((len / 0x100 % 256) as u8);
    frame.push((len % 256) as u8);
    assert(frame@ =~= header(payload@.len()));
    extend(&mut frame, payload);
    Ok(frame)
}

/// How many bytes of payload follow a frame's header.
///
/// # Errors
/// Refuses a declared length that exceeds [`MAX_FRAME_SIZE`].
pub fn read_header(head: &[u8]) -> (r: Result<usize, TooLarge>)
    requires
        head@.len() == HEADER_SIZE,
    ensures
        r == declared(head@),
{
    assert(head@.subrange(0, 4) =~= head@);
    let size: usize = read_u32(head, 0) as usize;
    if size > MAX_FRAME_SIZE {
        return Err(TooLarge { size, max: MAX_FRAME_SIZE });
    }
    Ok(size)
}

/// A frame reads back as what was written: its header declares the length of
/// its payload, and that many bytes behind the header are the payload, whatever
/// follows.
pub proof fn lemma_frame_round_trip(payload: Seq<u8>, rest: Seq<u8>)
    requires
        fits(payload.len()),
    ensures
        ({
            let stream = framed(payload) + rest;
            let head = stream.take(HEADER_SIZE as int);
            &&& declared(head) == Ok::<usize, TooLarge>(payload.len() as usize)
            &&& stream.subrange(HEADER_SIZE as int, HEADER_SIZE + payload.len()) == payload
            &&& stream.skip(HEADER_SIZE + payload.len() as int) == rest
        }),
{
    let stream = framed(payload) + rest;
    let n = payload.len();
    let head = stream.take(4);
    assert(head =~= header(n));
    lemma_big_endian_four(head);
    assert(n / 0x100_0000 % 256 == n / 0x100_0000);
    assert(((n / 0x100_0000 * 256 + n / 0x1_0000 % 256) * 256 + n / 0x100 % 256) * 256 + n % 256
        == n);
    assert(stream.subrange(4, 4 + n as int) =~= payload);
    assert(stream.skip(4 + n as int) =~= rest);
}

/// A length is taken up to sixteen mebibytes and refused above: so where its first
/// byte is nought, or it is exactly that. It is taken, or refused, as the number its
/// bytes make up, each counting for two hundred and fifty-six of the next.
pub proof fn lemma_how_long(head: Seq<u8>)
    requires
        head.len() == 4,
    ensures
        declared(head) is Ok <==> head[0] == 0 || head == seq![1u8, 0u8, 0u8, 0u8],
        declared(head) matches Ok(size) ==> size == head[3] + 256 * (head[2] + 256 * (head[1] + 256
            * head[0])),
        declared(head) matches Err(refused) ==> refused.size as int == head[3] + 256 * (head[2]
            + 256 * (head[1] + 256 * head[0])) && refused.max as int == 16 * 1024 * 1024,
{
    lemma_big_endian_four(head);
    if head[0] == 1 && head[1] == 0 && head[2] == 0 && head[3] == 0 {
        assert(head =~= seq![1u8, 0u8, 0u8, 0u8]);
    }
}

} // verus!
