//! Runs of bytes.

use vstd::prelude::*;

verus! {

/// The bytes from `from` up to `to`.
pub fn copy(bytes: &[u8], from: usize, to: usize) -> (r: Vec<u8>)
    requires
        from <= to <= bytes@.len(),
    ensures
        r@ == bytes@.subrange(from as int, to as int),
{
    let mut out: Vec<u8> = Vec::new();
    for i in from..to
        invariant
            from <= to <= bytes@.len(),
            out@ == bytes@.subrange(from as int, i as int),
    {
        out.push(bytes[i]);
        assert(bytes@.subrange(from as int, i + 1) =~= bytes@.subrange(from as int, i as int).push(
            bytes@[i as int],
        ));
    }
    out
}

/// Puts `more` behind `bytes`.
pub fn extend(bytes: &mut Vec<u8>, more: &[u8])
    ensures
        final(bytes)@ == old(bytes)@ + more@,
{
    let ghost before = bytes@;
    for i in 0..more.len()
        invariant
            bytes@ == before + more@.take(i as int),
    {
        bytes.push(more[i]);
        assert(before + more@.take(i + 1) =~= (before + more@.take(i as int)).push(more@[i as int]));
    }
    assert(more@.take(more@.len() as int) =~= more@);
}

/// The number `bytes` spell, most significant first.
pub open spec fn big_endian(bytes: Seq<u8>) -> nat
    decreases bytes.len(),
{
    if bytes.len() == 0 {
        0
    } else {
        big_endian(bytes.drop_last()) * 256 + bytes.last() as nat
    }
}

proof fn lemma_big_endian_two(bytes: Seq<u8>)
    requires
        bytes.len() == 2,
    ensures
        big_endian(bytes) == bytes[0] * 256 + bytes[1],
{
    reveal_with_fuel(big_endian, 3);
}

/// Four bytes, one at a time.
pub proof fn lemma_big_endian_four(bytes: Seq<u8>)
    requires
        bytes.len() == 4,
    ensures
        big_endian(bytes) == ((bytes[0] * 256 + bytes[1]) * 256 + bytes[2]) * 256 + bytes[3],
{
    reveal_with_fuel(big_endian, 5);
}

proof fn lemma_big_endian_eight(bytes: Seq<u8>)
    requires
        bytes.len() == 8,
    ensures
        big_endian(bytes) == big_endian(bytes.take(4)) * 0x1_0000_0000 + big_endian(bytes.skip(4)),
{
    lemma_big_endian_four(bytes.take(4));
    lemma_big_endian_four(bytes.skip(4));
    assert(bytes.drop_last().drop_last().drop_last().drop_last() =~= bytes.take(4));
    reveal_with_fuel(big_endian, 5);
}

/// Two bytes at `at`, most significant first.
pub fn read_u16(bytes: &[u8], at: usize) -> (r: u16)
    requires
        at + 2 <= bytes@.len(),
    ensures
        r == big_endian(bytes@.subrange(at as int, at + 2)),
{
    proof {
        lemma_big_endian_two(bytes@.subrange(at as int, at + 2));
    }
    bytes[at] as u16 * 256 + bytes[at + 1] as u16
}

/// Four bytes at `at`, most significant first.
pub fn read_u32(bytes: &[u8], at: usize) -> (r: u32)
    requires
        at + 4 <= bytes@.len(),
    ensures
        r == big_endian(bytes@.subrange(at as int, at + 4)),
{
    proof {
        lemma_big_endian_four(bytes@.subrange(at as int, at + 4));
    }
    ((bytes[at] as u32 * 256 + bytes[at + 1] as u32) * 256 + bytes[at + 2] as u32) * 256 + bytes[at
        + 3] as u32
}

/// Eight bytes at `at`, most significant first.
pub fn read_u64(bytes: &[u8], at: usize) -> (r: u64)
    requires
        at + 8 <= bytes@.len(),
    ensures
        r == big_endian(bytes@.subrange(at as int, at + 8)),
{
    let end: usize = bytes.len();
    assert(at + 8 <= end);
    let high: u64 = read_u32(bytes, at) as u64;
    let low: u64 = read_u32(bytes, at + 4) as u64;
    proof {
        let all = bytes@.subrange(at as int, at + 8);
        lemma_big_endian_eight(all);
        assert(all.take(4) =~= bytes@.subrange(at as int, at + 4));
        assert(all.skip(4) =~= bytes@.subrange(at + 4, at + 8));
    }
    high * 0x1_0000_0000 + low
}

} // verus!
