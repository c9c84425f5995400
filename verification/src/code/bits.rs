//! Bit sequences and the bytes that carry them, most significant bit first.

use vstd::prelude::*;

verus! {

/// The byte in which only bit `k` is set, counting from the most
/// significant bit.
#[verifier::opaque]
pub open spec fn spec_mask(k: int) -> u8 {
    0x80u8 >> (k as u8)
}

/// Whether bit `k` of `b` is set, counting from the most significant bit.
#[verifier::opaque]
pub open spec fn bit_of(b: u8, k: int) -> bool {
    b & spec_mask(k) != 0
}

/// The byte in which the first `r` bits are set and no other.
#[verifier::opaque]
pub open spec fn spec_high_mask(r: int) -> u8 {
    !(0xffu8 >> (r as u8))
}

/// The bits that a run of bytes holds.
pub open spec fn bits_of(bytes: Seq<u8>) -> Seq<bool> {
    Seq::new(8 * bytes.len(), |i: int| bit_of(bytes[i / 8], i % 8))
}

/// The byte whose eight bits are those of `bits` from index `8 * j` on,
/// with `0` wherever `bits` has ended.
#[verifier::opaque]
pub open spec fn byte_at(bits: Seq<bool>, j: int) -> u8 {
    let b = |k: int| if 8 * j + k < bits.len() && bits[8 * j + k] { spec_mask(k) } else { 0u8 };
    b(0) | b(1) | b(2) | b(3) | b(4) | b(5) | b(6) | b(7)
}

/// The bytes that carry `bits`, the last one padded with `0` bits.
#[verifier::opaque]
pub open spec fn bytes_of(bits: Seq<bool>) -> Seq<u8> {
    Seq::new(((bits.len() + 7) / 8) as nat, |j: int| byte_at(bits, j))
}

/// Whether no bit of `bits` is `1`.
pub open spec fn all_zero(bits: Seq<bool>) -> bool {
    forall|i: int| 0 <= i < bits.len() ==> !bits[i]
}

/// Whether `a` is the start of `b`.
pub open spec fn is_prefix(a: Seq<bool>, b: Seq<bool>) -> bool {
    a.len() <= b.len() && a =~= b.take(a.len() as int)
}

/// Whether a bit of a byte is set is whether the byte and the mask of the
/// bit have a bit in common.
pub proof fn lemma_bit_of_mask_test(b: u8, k: int)
    ensures
        bit_of(b, k) == (b & spec_mask(k) != 0),
{
    reveal(bit_of);
}

/// A bit of `x | y` is set where it is set in `x` or in `y`.
pub proof fn lemma_bit_of_or(x: u8, y: u8, k: int)
    requires
        0 <= k < 8,
    ensures
        bit_of(x | y, k) == (bit_of(x, k) || bit_of(y, k)),
{
    reveal(bit_of);
    reveal(spec_mask);
    let kk = k as u8;
    assert(kk < 8 ==> (((x | y) & (0x80u8 >> kk) != 0) == ((x & (0x80u8 >> kk) != 0) || (y & (0x80u8
        >> kk) != 0)))) by (bit_vector);
}

/// In the mask of a bit, that bit is set and no other.
pub proof fn lemma_bit_of_mask(o: int, k: int)
    requires
        0 <= k < 8,
        0 <= o < 8,
    ensures
        bit_of(spec_mask(o), k) == (k == o),
{
    reveal(bit_of);
    reveal(spec_mask);
    let kk = k as u8;
    let oo = o as u8;
    assert(kk < 8 && oo < 8 ==> (((0x80u8 >> oo) & (0x80u8 >> kk) != 0) == (kk == oo)))
        by (bit_vector);
}

/// No bit of `0` is set.
pub proof fn lemma_bit_of_zero(k: int)
    requires
        0 <= k < 8,
    ensures
        !bit_of(0u8, k),
{
    reveal(bit_of);
    reveal(spec_mask);
    let kk = k as u8;
    assert(0u8 & (0x80u8 >> kk) == 0) by (bit_vector);
}

/// A byte is what its eight bits are.
pub proof fn lemma_byte_ext(x: u8, y: u8)
    requires
        forall|k: int| 0 <= k < 8 ==> bit_of(x, k) == bit_of(y, k),
    ensures
        x == y,
{
    reveal(bit_of);
    reveal(spec_mask);
    assert(bit_of(x, 0) == bit_of(y, 0));
    assert(bit_of(x, 1) == bit_of(y, 1));
    assert(bit_of(x, 2) == bit_of(y, 2));
    assert(bit_of(x, 3) == bit_of(y, 3));
    assert(bit_of(x, 4) == bit_of(y, 4));
    assert(bit_of(x, 5) == bit_of(y, 5));
    assert(bit_of(x, 6) == bit_of(y, 6));
    assert(bit_of(x, 7) == bit_of(y, 7));
    assert((((x & (0x80u8 >> 0u8) != 0) == (y & (0x80u8 >> 0u8) != 0)) && ((x & (0x80u8 >> 1u8)
        != 0) == (y & (0x80u8 >> 1u8) != 0)) && ((x & (0x80u8 >> 2u8) != 0) == (y & (0x80u8
        >> 2u8) != 0)) && ((x & (0x80u8 >> 3u8) != 0) == (y & (0x80u8 >> 3u8) != 0)) && ((x & (
    0x80u8 >> 4u8) != 0) == (y & (0x80u8 >> 4u8) != 0)) && ((x & (0x80u8 >> 5u8) != 0) == (y & (
    0x80u8 >> 5u8) != 0)) && ((x & (0x80u8 >> 6u8) != 0) == (y & (0x80u8 >> 6u8) != 0)) && ((x & (
    0x80u8 >> 7u8) != 0) == (y & (0x80u8 >> 7u8) != 0))) ==> x == y) by (bit_vector);
}

/// The mask of the first bits grows by the mask of the next bit.
pub proof fn lemma_high_mask_step(r: int)
    requires
        0 <= r < 8,
    ensures
        spec_high_mask(0) == 0,
        spec_high_mask(r) | spec_mask(r) == spec_high_mask(r + 1),
{
    reveal(spec_mask);
    reveal(spec_high_mask);
    let rr = r as u8;
    assert(!(0xffu8 >> 0u8) == 0) by (bit_vector);
    assert(rr < 8 ==> !(0xffu8 >> rr) | (0x80u8 >> rr) == !(0xffu8 >> ((rr + 1) as u8)))
        by (bit_vector);
}

/// Of a byte under the mask of the first `r` bits, the first `r` bits are
/// left.
pub proof fn lemma_bit_of_and_high_mask(x: u8, r: int, k: int)
    requires
        0 <= k < 8,
        0 <= r <= 8,
    ensures
        bit_of(x & spec_high_mask(r), k) == (k < r && bit_of(x, k)),
{
    reveal(bit_of);
    reveal(spec_mask);
    reveal(spec_high_mask);
    let kk = k as u8;
    let rr = r as u8;
    assert(kk < 8 && rr <= 8 ==> (((x & !(0xffu8 >> rr)) & (0x80u8 >> kk) != 0) == (kk < rr && (x
        & (0x80u8 >> kk) != 0)))) by (bit_vector);
}

/// Bit `k` of `b >> n` is bit `k - n` of `b`, and `0` before that.
pub proof fn lemma_bit_of_shr(b: u8, n: int, k: int)
    requires
        0 <= k < 8,
        0 <= n < 8,
    ensures
        bit_of(b >> (n as u8), k) == (k >= n && bit_of(b, k - n)),
{
    reveal(bit_of);
    reveal(spec_mask);
    let kk = k as u8;
    let nn = n as u8;
    assert(kk < 8 && nn < 8 ==> ((((b >> nn) & (0x80u8 >> kk)) != 0) == (kk >= nn && (b & (0x80u8
        >> ((kk - nn) as u8)) != 0)))) by (bit_vector);
}

/// Bit `k` of `b << n` is bit `k + n` of `b`, and `0` where that is past
/// the end of the byte.
pub proof fn lemma_bit_of_shl(b: u8, n: int, k: int)
    requires
        0 <= k < 8,
        0 <= n < 8,
    ensures
        bit_of(b << (n as u8), k) == (k + n < 8 && bit_of(b, k + n)),
{
    reveal(bit_of);
    reveal(spec_mask);
    let kk = k as u8;
    let nn = n as u8;
    assert(kk < 8 && nn < 8 ==> ((((b << nn) & (0x80u8 >> kk)) != 0) == (kk + nn < 8 && (b & (0x80u8
        >> ((kk + nn) as u8)) != 0)))) by (bit_vector);
}

/// Each bit of the byte that `byte_at` builds is the bit of `bits` it was
/// built from.
pub proof fn lemma_bit_of_byte_at(bits: Seq<bool>, j: int, k: int)
    requires
        0 <= k < 8,
    ensures
        bit_of(byte_at(bits, j), k) == (8 * j + k < bits.len() && bits[8 * j + k]),
{
    reveal(byte_at);
    let b = |i: int| if 8 * j + i < bits.len() && bits[8 * j + i] { spec_mask(i) } else { 0u8 };
    assert forall|i: int| 0 <= i < 8 implies bit_of(#[trigger] b(i), k) == (i == k && 8 * j + i
        < bits.len() && bits[8 * j + i]) by {
        lemma_bit_of_mask(i, k);
        lemma_bit_of_zero(k);
    }
    let x1 = b(0) | b(1);
    let x2 = x1 | b(2);
    let x3 = x2 | b(3);
    let x4 = x3 | b(4);
    let x5 = x4 | b(5);
    let x6 = x5 | b(6);
    let x7 = x6 | b(7);
    lemma_bit_of_or(b(0), b(1), k);
    lemma_bit_of_or(x1, b(2), k);
    lemma_bit_of_or(x2, b(3), k);
    lemma_bit_of_or(x3, b(4), k);
    lemma_bit_of_or(x4, b(5), k);
    lemma_bit_of_or(x5, b(6), k);
    lemma_bit_of_or(x6, b(7), k);
    assert(byte_at(bits, j) == x7);
}

/// `bits` take as many bytes as hold them, each built by `byte_at`.
pub proof fn lemma_bytes_of(bits: Seq<bool>)
    ensures
        bytes_of(bits).len() == (bits.len() + 7) / 8,
        forall|j: int|
            0 <= j < (bits.len() + 7) / 8 ==> #[trigger] bytes_of(bits)[j] == byte_at(bits, j),
{
    reveal(bytes_of);
}

/// The bytes that carry `bits` hold `bits` and then only `0` bits.
pub proof fn lemma_bits_of_bytes_of(bits: Seq<bool>)
    ensures
        bytes_of(bits).len() == (bits.len() + 7) / 8,
        bits_of(bytes_of(bits)).len() == 8 * ((bits.len() + 7) / 8),
        forall|i: int|
            0 <= i < 8 * ((bits.len() + 7) / 8) ==> #[trigger] bits_of(bytes_of(bits))[i] == (i
                < bits.len() && bits[i]),
{
    lemma_bytes_of(bits);
    assert forall|i: int| 0 <= i < 8 * ((bits.len() + 7) / 8) implies #[trigger] bits_of(
        bytes_of(bits),
    )[i] == (i < bits.len() && bits[i]) by {
        lemma_bit_of_byte_at(bits, i / 8, i % 8);
    }
}

/// Bytes are the bytes that carry their own bits.
pub proof fn lemma_bytes_of_bits_of(bytes: Seq<u8>)
    ensures
        bytes_of(bits_of(bytes)) == bytes,
{
    let bits = bits_of(bytes);
    lemma_bytes_of(bits);
    assert forall|j: int| 0 <= j < bytes.len() implies byte_at(bits, j) == bytes[j] by {
        assert forall|k: int| 0 <= k < 8 implies bit_of(byte_at(bits, j), k) == bit_of(
            bytes[j],
            k,
        ) by {
            lemma_bit_of_byte_at(bits, j, k);
            assert((8 * j + k) / 8 == j);
            assert((8 * j + k) % 8 == k);
        }
        lemma_byte_ext(byte_at(bits, j), bytes[j]);
    }
    assert(bytes_of(bits) =~= bytes);
}

} // verus!
