//! One codeword of a prefix code.

use crate::code::bits::{
    all_zero, bit_of, bits_of, bytes_of, lemma_bit_of_and_high_mask, lemma_bit_of_byte_at,
    lemma_bit_of_mask, lemma_bit_of_mask_test, lemma_bit_of_or, lemma_bit_of_zero, lemma_byte_ext,
    lemma_bytes_of, lemma_high_mask_step, spec_high_mask,
};
use crate::code::common::{bit_hole_mask, pack_u64, spec_pack_u64, spec_unpack_u64, unpack_u64};
use crate::error::Error;
use crate::reader::Reader;
use vstd::prelude::*;
use vstd::string::StringExecFns;

verus! {

/// An indivisible code point of a [prefix code]: a sequence of bits.
///
/// Letters are ordered by their bytes first, as byte strings are, and by
/// their number of bits second.
///
/// [prefix code]: https://en.wikipedia.org/wiki/Prefix_code
#[derive(Clone, Debug, Eq, Hash, Ord, PartialEq, PartialOrd)]
pub struct Letter {
    data: Vec<u8>,
    bit_count: u64,
}

impl View for Letter {
    type V = Seq<bool>;

    /// The bits of the letter, first bit first.
    closed spec fn view(&self) -> Seq<bool> {
        bits_of(self.data@).take(self.bit_count as int)
    }
}

/// The order of byte strings: byte by byte, and a string before the
/// strings that it starts.
pub open spec fn bytes_lt(a: Seq<u8>, b: Seq<u8>) -> bool
    decreases a.len(),
{
    if b.len() == 0 {
        false
    } else if a.len() == 0 {
        true
    } else if a[0] != b[0] {
        a[0] < b[0]
    } else {
        bytes_lt(a.skip(1), b.skip(1))
    }
}

/// The order of letters, by their bits: by the bytes that carry the bits
/// first, as byte strings, and by the number of bits second.
pub open spec fn letter_lt(a: Seq<bool>, b: Seq<bool>) -> bool {
    bytes_lt(bytes_of(a), bytes_of(b)) || (bytes_of(a) == bytes_of(b) && a.len() < b.len())
}

/// No byte string comes before itself.
pub proof fn lemma_bytes_lt_irreflexive(a: Seq<u8>)
    ensures
        !bytes_lt(a, a),
    decreases a.len(),
{
    if a.len() > 0 {
        lemma_bytes_lt_irreflexive(a.skip(1));
    }
}

/// What comes before a byte string comes before all that it comes
/// before.
pub proof fn lemma_bytes_lt_transitive(a: Seq<u8>, b: Seq<u8>, c: Seq<u8>)
    requires
        bytes_lt(a, b),
        bytes_lt(b, c),
    ensures
        bytes_lt(a, c),
    decreases a.len(),
{
    if a.len() > 0 && a[0] == b[0] && b[0] == c[0] {
        lemma_bytes_lt_transitive(a.skip(1), b.skip(1), c.skip(1));
    }
}

/// No letter comes before itself, and what comes before a letter comes
/// before all that the letter comes before.
pub proof fn lemma_letter_lt_order(a: Seq<bool>, b: Seq<bool>, c: Seq<bool>)
    ensures
        !letter_lt(a, a),
        letter_lt(a, b) && letter_lt(b, c) ==> letter_lt(a, c),
{
    lemma_bytes_lt_irreflexive(bytes_of(a));
    if letter_lt(a, b) && letter_lt(b, c) {
        if bytes_lt(bytes_of(a), bytes_of(b)) && bytes_lt(bytes_of(b), bytes_of(c)) {
            lemma_bytes_lt_transitive(bytes_of(a), bytes_of(b), bytes_of(c));
        }
    }
}

/// The bits written with the digits `0` and `1`.
pub open spec fn spec_digits(bits: Seq<bool>) -> Seq<char> {
    Seq::new(
        bits.len(),
        |i: int|
            if bits[i] {
                '1'
            } else {
                '0'
            },
    )
}

/// The bytes that `Letter::pack` writes for a letter with the bits `bits`.
pub open spec fn spec_packed_letter(bits: Seq<bool>) -> Seq<u8> {
    spec_pack_u64(bits.len() as u64) + bytes_of(bits)
}

/// The number of bytes that a packed letter takes at the start of `s`,
/// if `s` holds a whole one.
pub open spec fn spec_packed_letter_len(s: Seq<u8>) -> Option<int> {
    if s.len() < 8 {
        None
    } else {
        let n = (spec_unpack_u64(s) as int + 7) / 8;
        if s.len() - 8 < n {
            None
        } else {
            Some(8 + n)
        }
    }
}

/// The bits of the packed letter at the start of `s`.
pub open spec fn spec_unpacked_letter(s: Seq<u8>) -> Seq<bool> {
    bits_of(s.skip(8)).take(spec_unpack_u64(s) as int)
}

impl Letter {
    /// The letter holds just the bytes that its bits need, and the bits
    /// of the last byte that are no bits of the letter are `0`.
    pub closed spec fn wf(&self) -> bool {
        &&& self.data@.len() == (self.bit_count + 7) / 8
        &&& forall|i: int|
            self.bit_count <= i < 8 * self.data@.len() ==> !#[trigger] bits_of(self.data@)[i]
    }

    /// A well-formed letter has as many bits as it counts.
    pub proof fn lemma_len(&self)
        requires
            self.wf(),
        ensures
            self@.len() == self.spec_bit_count(),
            self.spec_data().len() == (self@.len() + 7) / 8,
    {
    }

    /// The bytes of a well-formed letter are those that carry its bits.
    pub proof fn lemma_data(&self)
        requires
            self.wf(),
        ensures
            self.spec_data() == bytes_of(self@),
    {
        let bits = self@;
        lemma_bytes_of(bits);
        assert forall|j: int| 0 <= j < self.data@.len() implies self.data@[j] == bytes_of(
            bits,
        )[j] by {
            assert forall|k: int| 0 <= k < 8 implies bit_of(self.data@[j], k) == bit_of(
                bytes_of(bits)[j],
                k,
            ) by {
                lemma_bit_of_byte_at(bits, j, k);
                let i = 8 * j + k;
                assert(i / 8 == j && i % 8 == k);
                assert(bits_of(self.data@)[i] == bit_of(self.data@[j], k));
            }
            lemma_byte_ext(self.data@[j], bytes_of(bits)[j]);
        }
        assert(self.data@ =~= bytes_of(bits));
    }

    /// Each bit of a well-formed letter stands in its bytes, and the bits
    /// of the bytes past the letter are not set.
    pub proof fn lemma_bits(&self)
        requires
            self.wf(),
        ensures
            self@.len() == self.spec_bit_count(),
            self.spec_data().len() == (self@.len() + 7) / 8,
            forall|j: int, k: int|
                0 <= j < self.spec_data().len() && 0 <= k < 8 ==> #[trigger] bit_of(
                    self.spec_data()[j],
                    k,
                ) == (8 * j + k < self@.len() && self@[8 * j + k]),
    {
        assert forall|j: int, k: int|
            0 <= j < self.data@.len() && 0 <= k < 8 implies #[trigger] bit_of(self.data@[j], k)
            == (8 * j + k < self@.len() && self@[8 * j + k]) by {
            let i = 8 * j + k;
            assert(i / 8 == j && i % 8 == k);
            assert(bits_of(self.data@)[i] == bit_of(self.data@[j], k));
        }
    }

    /// The number of bits that the letter counts.
    pub closed spec fn spec_bit_count(&self) -> u64 {
        self.bit_count
    }

    /// The bytes that the letter holds.
    pub closed spec fn spec_data(&self) -> Seq<u8> {
        self.data@
    }

    /// Two well-formed letters with the same bits are the same letter.
    pub proof fn lemma_eq(&self, other: &Letter)
        requires
            self.wf(),
            other.wf(),
            self@ == other@,
        ensures
            self.spec_data() == other.spec_data(),
            self.spec_bit_count() == other.spec_bit_count(),
    {
        self.lemma_len();
        self.lemma_data();
        other.lemma_len();
        other.lemma_data();
    }

    /// Create a new letter with given data and number of bits.
    ///
    /// Trailing bits in data (beyond `bit_count`) are ignored.
    pub fn new(data: &[u8], bit_count: u64) -> (l: Self)
        requires
            bit_count <= 8 * data@.len(),
        ensures
            l.wf(),
            l@ == bits_of(data@).take(bit_count as int),
    {
        let whole: u64 = bit_count / 8;
        assert(data.len() == data@.len());
        assert(whole <= data@.len() && (bit_count % 8 != 0 ==> whole < data@.len()));
        let num_bytes: usize = whole as usize + if bit_count % 8 == 0 {
            0
        } else {
            1
        };
        assert(num_bytes == (bit_count + 7) / 8);
        let mut v: Vec<u8> = Vec::with_capacity(num_bytes);
        let mut i: usize = 0;
        while i < num_bytes
            invariant
                i <= num_bytes <= data@.len(),
                v@ == data@.take(i as int),
            decreases num_bytes - i,
        {
            v.push(data[i]);
            assert(v@ =~= data@.take(i + 1));
            i = i + 1;
        }
        let mut l = Self { data: v, bit_count };
        proof {
            assert forall|i: int| 0 <= i < bit_count implies bits_of(l.data@)[i] == bits_of(
                data@,
            )[i] by {
                assert(i / 8 < num_bytes);
            }
            assert(bits_of(l.data@).take(bit_count as int) =~= bits_of(data@).take(
                bit_count as int,
            ));
        }
        l.clear_trailing_bits();
        l
    }

    /// Sets the bits of the last byte that are no bits of the letter to `0`.
    fn clear_trailing_bits(&mut self)
        requires
            old(self).data@.len() == (old(self).bit_count + 7) / 8,
        ensures
            final(self).wf(),
            final(self)@ == old(self)@,
    {
        if self.bit_count % 8 == 0 {
            return ;
        }
        let r: usize = (self.bit_count % 8) as usize;
        let mut mask: u8 = 0;
        let mut i: usize = 0;
        proof {
            lemma_high_mask_step(0);
        }
        while i < r
            invariant
                i <= r < 8,
                mask == spec_high_mask(i as int),
            decreases r - i,
        {
            let m = bit_hole_mask(i);
            proof {
                lemma_high_mask_step(i as int);
            }
            mask = mask | m;
            i = i + 1;
        }
        let last = self.data.len() - 1;
        let b = self.data[last] & mask;
        self.data.set(last, b);
        proof {
            let od = old(self).data@;
            let nd = self.data@;
            assert forall|i: int| 0 <= i < 8 * nd.len() implies bits_of(nd)[i] == (bits_of(od)[i]
                && i < self.bit_count) by {
                if i / 8 == last {
                    lemma_bit_of_and_high_mask(od[last as int], r as int, i % 8);
                }
            }
            assert(self@ =~= old(self)@);
        }
    }

    /// Create a new letter with 0 bits.
    ///
    /// Useful for incremental construction using `self.push0()` and
    /// `self.push1()`.
    pub fn empty() -> (l: Self)
        ensures
            l.wf(),
            l@ == Seq::<bool>::empty(),
    {
        Letter::with_capacity(0)
    }

    /// Create a new letter with 0 bits but with capacity for `capacity`
    /// bits.
    ///
    /// Useful for incremental construction using `self.push0()` and
    /// `self.push1()`.
    pub fn with_capacity(capacity: u64) -> (l: Self)
        ensures
            l.wf(),
            l@ == Seq::<bool>::empty(),
    {
        let bytes: u64 = capacity / 8 + if capacity % 8 == 0 {
            0
        } else {
            1
        };
        let l = Self {
            data: Vec::with_capacity(if bytes <= usize::MAX as u64 {
                bytes as usize
            } else {
                0
            }),
            bit_count: 0,
        };
        assert(l@ =~= Seq::<bool>::empty());
        l
    }

    /// Create a new letter with the given data.
    ///
    /// The created letter has `bit_count` of `8 * len(bytes)`.
    pub fn from_bytes(bytes: &[u8]) -> (l: Self)
        requires
            8 * bytes@.len() <= u64::MAX,
        ensures
            l.wf(),
            l@ == bits_of(bytes@),
    {
        let l = Self::new(bytes, 8 * bytes.len() as u64);
        assert(bits_of(bytes@).take(8 * bytes@.len() as int) =~= bits_of(bytes@));
        l
    }

    /// Extend this Letter with a `0` bit.
    pub fn push0(&mut self)
        requires
            old(self).wf(),
            old(self)@.len() < u64::MAX,
        ensures
            final(self).wf(),
            final(self)@ == old(self)@.push(false),
    {
        self.push(false);
    }

    /// Extend this Letter with a `1` bit.
    pub fn push1(&mut self)
        requires
            old(self).wf(),
            old(self)@.len() < u64::MAX,
        ensures
            final(self).wf(),
            final(self)@ == old(self)@.push(true),
    {
        self.push(true)
    }

    /// Return whether the bit at given index is set.
    ///
    /// Returns an error if the index is out of bounds.
    pub fn at(&self, i: usize) -> (res: Result<bool, Error>)
        requires
            self.wf(),
        ensures
            i < self@.len() ==> res == Ok::<bool, Error>(self@[i as int]),
            i >= self@.len() ==> res == Err::<bool, Error>(Error::IndexOutOfBounds),
    {
        proof {
            self.lemma_len();
        }
        if i as u64 >= self.bit_count {
            return Err(Error::IndexOutOfBounds);
        }
        let b = i / 8;
        let o = i % 8;
        proof {
            lemma_bit_of_mask_test(self.data@[b as int], o as int);
        }
        Ok(self.data[b] & bit_hole_mask(o) != 0)
    }

    /// The bits of the letter, written with the digits `0` and `1`.
    pub fn to_string(&self) -> (s: String)
        requires
            self.wf(),
        ensures
            s@ == spec_digits(self@),
    {
        proof {
            self.lemma_len();
            reveal_strlit("0");
            reveal_strlit("1");
        }
        let mut s = String::new();
        let mut i: u64 = 0;
        while i < self.bit_count
            invariant
                self.wf(),
                self@.len() == self.bit_count,
                i <= self.bit_count,
                "0"@ == seq!['0'],
                "1"@ == seq!['1'],
                s@ == spec_digits(self@.take(i as int)),
            decreases self.bit_count - i,
        {
            if self.bit(i) {
                s.append("1");
            } else {
                s.append("0");
            }
            proof {
                assert(s@ =~= spec_digits(self@.take(i + 1)));
            }
            i = i + 1;
        }
        proof {
            assert(self@.take(i as int) =~= self@);
        }
        s
    }

    /// Whether this letter comes before `other` in the order of letters.
    pub fn precedes(&self, other: &Letter) -> (b: bool)
        requires
            self.wf(),
            other.wf(),
        ensures
            b == letter_lt(self@, other@),
    {
        proof {
            self.lemma_len();
            self.lemma_data();
            other.lemma_len();
            other.lemma_data();
        }
        let ghost a = self.data@;
        let ghost b = other.data@;
        let mut i: usize = 0;
        proof {
            assert(a.skip(0) =~= a);
            assert(b.skip(0) =~= b);
        }
        while i < self.data.len() && i < other.data.len()
            invariant
                a == self.data@,
                b == other.data@,
                a == bytes_of(self@),
                b == bytes_of(other@),
                i <= a.len(),
                i <= b.len(),
                a.take(i as int) == b.take(i as int),
                bytes_lt(a, b) == bytes_lt(a.skip(i as int), b.skip(i as int)),
            decreases a.len() - i,
        {
            proof {
                assert(a.skip(i as int)[0] == a[i as int]);
                assert(b.skip(i as int)[0] == b[i as int]);
                assert(a.skip(i as int).skip(1) =~= a.skip(i + 1));
                assert(b.skip(i as int).skip(1) =~= b.skip(i + 1));
            }
            if self.data[i] != other.data[i] {
                proof {
                    if a == b {
                        assert(a[i as int] == b[i as int]);
                    }
                }
                return self.data[i] < other.data[i];
            }
            proof {
                assert(a.take(i + 1) =~= a.take(i as int).push(a[i as int]));
                assert(b.take(i + 1) =~= b.take(i as int).push(b[i as int]));
            }
            i = i + 1;
        }
        proof {
            if a.len() == b.len() {
                assert(a.take(i as int) =~= a);
                assert(b.take(i as int) =~= b);
            }
        }
        if self.data.len() != other.data.len() {
            self.data.len() < other.data.len()
        } else {
            self.bit_count < other.bit_count
        }
    }

    /// Whether `other` is the same letter.
    pub fn same(&self, other: &Letter) -> (b: bool)
        requires
            self.wf(),
            other.wf(),
        ensures
            b == (self@ == other@),
    {
        proof {
            self.lemma_len();
            other.lemma_len();
            if self@ == other@ {
                self.lemma_eq(other);
            }
        }
        if self.bit_count != other.bit_count {
            return false;
        }
        let mut i: usize = 0;
        while i < self.data.len()
            invariant
                self.data@.len() == other.data@.len(),
                i <= self.data@.len(),
                self.data@.take(i as int) == other.data@.take(i as int),
                self@ == other@ ==> self.data@ == other.data@,
            decreases self.data@.len() - i,
        {
            if self.data[i] != other.data[i] {
                return false;
            }
            proof {
                assert(self.data@.take(i + 1) =~= self.data@.take(i as int).push(
                    self.data@[i as int],
                ));
                assert(other.data@.take(i + 1) =~= other.data@.take(i as int).push(
                    other.data@[i as int],
                ));
            }
            i = i + 1;
        }
        proof {
            assert(self.data@.take(i as int) =~= self.data@);
            assert(other.data@.take(i as int) =~= other.data@);
        }
        true
    }

    /// A copy of the letter.
    pub fn duplicate(&self) -> (l: Letter)
        ensures
            l@ == self@,
            l.wf() == self.wf(),
            l.spec_data() == self.spec_data(),
            l.spec_bit_count() == self.spec_bit_count(),
    {
        let data = self.data.clone();
        assert(data@ =~= self.data@);
        Letter { data, bit_count: self.bit_count }
    }

    /// Bit `i` of the letter, which must be one of its bits.
    pub fn bit(&self, i: u64) -> (b: bool)
        requires
            self.wf(),
            i < self@.len(),
        ensures
            b == self@[i as int],
    {
        proof {
            self.lemma_len();
        }
        assert(i / 8 < self.data.len());
        let b = (i / 8) as usize;
        let o = (i % 8) as usize;
        proof {
            lemma_bit_of_mask_test(self.data@[b as int], o as int);
        }
        self.data[b] & bit_hole_mask(o) != 0
    }

    /// Extends the letter with the bit `bit`.
    fn push(&mut self, bit: bool)
        requires
            old(self).wf(),
            old(self)@.len() < u64::MAX,
        ensures
            final(self).wf(),
            final(self)@ == old(self)@.push(bit),
    {
        proof {
            self.lemma_len();
        }
        let n = self.bit_count;
        if self.bit_count % 8 == 0 {
            self.data.push(0u8);
        }
        self.bit_count = self.bit_count + 1;
        let ghost mid = self.data@;
        proof {
            let od = old(self).data@;
            assert(mid.len() == (n + 8) / 8);
            assert forall|i: int| 0 <= i < 8 * mid.len() implies #[trigger] bits_of(mid)[i] == (i
                < n && bits_of(od)[i]) by {
                if i / 8 >= od.len() {
                    lemma_bit_of_zero(i % 8);
                } else {
                    assert(mid[i / 8] == od[i / 8]);
                }
            }
        }
        if bit {
            self.set1(self.bit_count - 1);
        }
        proof {
            let nd = self.data@;
            assert forall|i: int| 0 <= i < 8 * nd.len() implies #[trigger] bits_of(nd)[i] == ((i
                == n && bit) || (i < n && bits_of(old(self).data@)[i])) by {
                assert(bits_of(mid)[i] == (i < n && bits_of(old(self).data@)[i]));
            }
            assert(self@ =~= old(self)@.push(bit));
        }
    }

    /// Sets bit `i`, which must be a bit of the letter.
    fn set1(&mut self, i: u64)
        requires
            i < old(self).bit_count,
            old(self).data@.len() == (old(self).bit_count + 7) / 8,
        ensures
            final(self).bit_count == old(self).bit_count,
            final(self).data@.len() == old(self).data@.len(),
            forall|j: int|
                0 <= j < 8 * final(self).data@.len() ==> #[trigger] bits_of(final(self).data@)[j]
                    == (j == i || bits_of(old(self).data@)[j]),
    {
        assert(i / 8 < self.data.len());
        let b = (i / 8) as usize;
        let o = (i % 8) as usize;
        let m = bit_hole_mask(o);
        let x = self.data[b] | m;
        self.data.set(b, x);
        proof {
            let od = old(self).data@;
            let nd = self.data@;
            assert forall|j: int| 0 <= j < 8 * nd.len() implies #[trigger] bits_of(nd)[j] == (j
                == i || bits_of(od)[j]) by {
                if j / 8 == b {
                    lemma_bit_of_or(od[b as int], m, j % 8);
                    lemma_bit_of_mask(o as int, j % 8);
                }
            }
        }
    }

    /// Checks that the letter has a `1` bit.
    pub fn validate(&self) -> (res: Result<(), Error>)
        requires
            self.wf(),
        ensures
            all_zero(self@) ==> res == Err::<(), Error>(Error::InvalidAlphabet),
            !all_zero(self@) ==> res == Ok::<(), Error>(()),
    {
        if self.all_zeroes() {
            Err(Error::InvalidAlphabet)
        } else {
            Ok(())
        }
    }

    /// The bytes that carry the bits of the letter.
    pub fn data(&self) -> (d: &Vec<u8>)
        requires
            self.wf(),
        ensures
            d@ == bytes_of(self@),
            d@ == self.spec_data(),
    {
        proof {
            self.lemma_data();
        }
        &self.data
    }

    /// The number of bits of the letter.
    pub fn bit_count(&self) -> (n: u64)
        requires
            self.wf(),
        ensures
            n == self@.len(),
            n == self.spec_bit_count(),
    {
        proof {
            self.lemma_len();
        }
        self.bit_count
    }

    /// Appends the packed letter to `w`: the number of bits as eight bytes,
    /// most significant first, then the bytes that carry the bits.
    pub fn pack(self, w: &mut Vec<u8>) -> (res: Result<(), Error>)
        requires
            self.wf(),
        ensures
            res.is_ok(),
            final(w)@ == old(w)@ + spec_packed_letter(self@),
    {
        self.write(w);
        Ok(())
    }

    /// Appends the packed letter to `w` and keeps the letter.
    pub fn write(&self, w: &mut Vec<u8>)
        requires
            self.wf(),
        ensures
            final(w)@ == old(w)@ + spec_packed_letter(self@),
    {
        proof {
            self.lemma_len();
            self.lemma_data();
        }
        let mut n = pack_u64(self.bit_count);
        w.append(&mut n);
        w.extend_from_slice(self.data.as_slice());
        assert(w@ =~= old(w)@ + spec_packed_letter(self@));
    }

    /// Reads a letter that [`Letter::pack`] wrote. Bits of the last byte
    /// that are no bits of the letter are taken as `0`.
    ///
    /// Where `r` ends before the letter does, the call fails with
    /// [`Error::UnexpectedEof`].
    pub fn unpack(r: &mut Reader) -> (res: Result<Self, Error>)
        requires
            old(r).wf(),
        ensures
            final(r).wf(),
            final(r).source() == old(r).source(),
            final(r).consumed() >= old(r).consumed(),
            match spec_packed_letter_len(old(r).remaining()) {
                Some(n) => res.is_ok() && res.unwrap().wf() && res.unwrap()@
                    == spec_unpacked_letter(old(r).remaining()) && final(r).consumed() == old(
                    r,
                ).consumed() + n,
                None => res.is_err() && res.unwrap_err() == Error::UnexpectedEof,
            },
    {
        let bit_count = match unpack_u64(r) {
            Err(e) => {
                return Err(e);
            },
            Ok(n) => n,
        };
        let byte_count: u64 = bit_count / 8 + if bit_count % 8 == 0 {
            0
        } else {
            1
        };
        proof {
            let s = old(r).remaining();
            assert(bit_count == spec_unpack_u64(s));
            assert(byte_count == (bit_count + 7) / 8);
            assert(r.remaining() =~= s.skip(8));
            old(r).lemma_bounded();
        }
        if byte_count > usize::MAX as u64 {
            return Err(Error::UnexpectedEof);
        }
        let data = match r.read_exact(byte_count as usize) {
            Err(e) => {
                return Err(e);
            },
            Ok(d) => d,
        };
        let l = Self::new(data, bit_count);
        proof {
            let s = old(r).remaining();
            assert(data@ =~= s.skip(8).take(byte_count as int));
            assert forall|i: int| 0 <= i < bit_count implies bits_of(data@)[i] == bits_of(
                s.skip(8),
            )[i] by {
                assert(i / 8 < byte_count);
            }
            assert(bits_of(data@).take(bit_count as int) =~= bits_of(s.skip(8)).take(
                bit_count as int,
            ));
        }
        Ok(l)
    }

    /// Whether the letter has no `1` bit.
    fn all_zeroes(&self) -> (z: bool)
        requires
            self.wf(),
        ensures
            z == all_zero(self@),
    {
        proof {
            self.lemma_len();
        }
        let mut j: usize = 0;
        while j < self.data.len()
            invariant
                self.wf(),
                self@.len() == self.bit_count,
                j <= self.data@.len(),
                forall|i: int| 0 <= i < 8 * j && i < self.bit_count ==> !self@[i],
            decreases self.data.len() - j,
        {
            let b = self.data[j];
            if b != 0 {
                proof {
                    if forall|k: int| 0 <= k < 8 ==> !bit_of(b, k) {
                        assert forall|k: int| 0 <= k < 8 implies bit_of(b, k) == bit_of(0u8, k) by {
                            lemma_bit_of_zero(k);
                        }
                        lemma_byte_ext(b, 0u8);
                    }
                    let k = choose|k: int| 0 <= k < 8 && bit_of(b, k);
                    let i = 8 * j + k;
                    assert(i / 8 == j && i % 8 == k);
                    assert(bits_of(self.data@)[i]);
                    assert(self@[i]);
                }
                return false;
            }
            proof {
                assert forall|i: int|
                    0 <= i < 8 * (j + 1) && i < self.bit_count implies !self@[i] by {
                    if i >= 8 * j {
                        assert(i / 8 == j);
                        lemma_bit_of_zero(i % 8);
                    }
                }
            }
            j = j + 1;
        }
        true
    }
}

} // verus!
