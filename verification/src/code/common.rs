//! Small helpers shared by the codecs of this module.

use crate::code::bits::spec_mask;
use crate::error::Error;
use crate::reader::Reader;
use vstd::prelude::*;

verus! {

/// For each bit of a byte, most significant first, the byte in which only
/// that bit is set.
pub const BIT_HOLE_MASKS: [u8; 8] = [
    0b1000_0000,
    0b0100_0000,
    0b0010_0000,
    0b0001_0000,
    0b0000_1000,
    0b0000_0100,
    0b0000_0010,
    0b0000_0001,
];

/// The byte in which only bit `o` is set, counting from the most
/// significant bit.
pub fn bit_hole_mask(o: usize) -> (m: u8)
    requires
        o < 8,
    ensures
        m == spec_mask(o as int),
{
    let m = BIT_HOLE_MASKS[o];
    proof {
        reveal(spec_mask);
        assert(0x80u8 >> 0u8 == 0b1000_0000u8 && 0x80u8 >> 1u8 == 0b0100_0000u8 && 0x80u8 >> 2u8
            == 0b0010_0000u8 && 0x80u8 >> 3u8 == 0b0001_0000u8 && 0x80u8 >> 4u8 == 0b0000_1000u8
            && 0x80u8 >> 5u8 == 0b0000_0100u8 && 0x80u8 >> 6u8 == 0b0000_0010u8 && 0x80u8 >> 7u8
            == 0b0000_0001u8) by (bit_vector);
    }
    m
}

/// The eight bytes of `s`, most significant first.
pub open spec fn spec_pack_u64(s: u64) -> Seq<u8> {
    seq![
        (s >> 56) as u8,
        ((s >> 48) & 0xff) as u8,
        ((s >> 40) & 0xff) as u8,
        ((s >> 32) & 0xff) as u8,
        ((s >> 24) & 0xff) as u8,
        ((s >> 16) & 0xff) as u8,
        ((s >> 8) & 0xff) as u8,
        (s & 0xff) as u8,
    ]
}

/// The number whose eight bytes, most significant first, start `b`.
pub open spec fn spec_unpack_u64(b: Seq<u8>) -> u64 {
    (b[0] as u64) << 56 | (b[1] as u64) << 48 | (b[2] as u64) << 40 | (b[3] as u64) << 32 | (
    b[4] as u64) << 24 | (b[5] as u64) << 16 | (b[6] as u64) << 8 | (b[7] as u64)
}

/// Unpacking what was packed gives the number back.
pub proof fn lemma_u64_roundtrip(s: u64)
    ensures
        spec_pack_u64(s).len() == 8,
        spec_unpack_u64(spec_pack_u64(s)) == s,
{
    assert(s == (((s >> 56) as u8) as u64) << 56 | ((((s >> 48) & 0xff) as u8) as u64) << 48 | ((((s
        >> 40) & 0xff) as u8) as u64) << 40 | ((((s >> 32) & 0xff) as u8) as u64) << 32 | ((((s
        >> 24) & 0xff) as u8) as u64) << 24 | ((((s >> 16) & 0xff) as u8) as u64) << 16 | ((((s
        >> 8) & 0xff) as u8) as u64) << 8 | (((s & 0xff) as u8) as u64)) by (bit_vector);
}

/// Packs a number as eight bytes, most significant first.
pub fn pack_u64(s: u64) -> (v: Vec<u8>)
    ensures
        v@ == spec_pack_u64(s),
{
    let mut v: Vec<u8> = Vec::with_capacity(8);
    v.push((s >> 56) as u8);
    v.push(((s >> 48) & 0xff) as u8);
    v.push(((s >> 40) & 0xff) as u8);
    v.push(((s >> 32) & 0xff) as u8);
    v.push(((s >> 24) & 0xff) as u8);
    v.push(((s >> 16) & 0xff) as u8);
    v.push(((s >> 8) & 0xff) as u8);
    v.push((s & 0xff) as u8);
    proof {
        assert(s >> 56 <= 0xff) by (bit_vector);
        assert(v@ =~= spec_pack_u64(s));
    }
    v
}

/// Reads eight bytes and gives the number they pack, most significant byte
/// first. Where fewer than eight bytes are left the call fails with
/// [`Error::UnexpectedEof`] and reads nothing.
pub fn unpack_u64(r: &mut Reader) -> (res: Result<u64, Error>)
    requires
        old(r).wf(),
    ensures
        final(r).wf(),
        final(r).source() == old(r).source(),
        old(r).remaining().len() >= 8 ==> res == Ok::<u64, Error>(
            spec_unpack_u64(old(r).remaining()),
        ) && final(r).consumed() == old(r).consumed() + 8,
        old(r).remaining().len() < 8 ==> res == Err::<u64, Error>(Error::UnexpectedEof)
            && final(r).consumed() == old(r).consumed(),
{
    match r.read_exact(8) {
        Err(e) => Err(e),
        Ok(b) => {
            let n = (b[0] as u64) << 56 | (b[1] as u64) << 48 | (b[2] as u64) << 40 | (b[3] as u64)
                << 32 | (b[4] as u64) << 24 | (b[5] as u64) << 16 | (b[6] as u64) << 8 | (
            b[7] as u64);
            Ok(n)
        },
    }
}

} // verus!
