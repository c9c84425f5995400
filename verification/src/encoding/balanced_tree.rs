//! Create a new balanced tree [`Encoding`].
//!
//! All letters in this encoding are fixed width bit strings. The smallest
//! width necessary to generate the required number of [`Letter`]s is used.
//!
//! The generated [`Encoding`] is stable: calling `new` on a [`Model`]
//! repeatedly yields the same [`Encoding`].

use crate::assoc::{entry_views, spec_keys};
use crate::code::alphabet::{all_wf, countable, valid_code, views};
use crate::code::bits::{all_zero, bit_of, bits_of, is_prefix, lemma_bit_of_mask_test, spec_mask};
use crate::code::common::{pack_u64, spec_pack_u64};
use crate::code::letter::Letter;
use crate::encoding::{from_letters, spec_by_letter, spec_zip, Encoding};
use crate::error::Error;
use crate::model::{lemma_sorted, spec_sorted, Model};
use crate::tokens::Token;
use vstd::arithmetic::power2::{lemma2_to64, lemma_pow2_unfold, pow2};
use vstd::prelude::*;
use vstd::std_specs::bits::{axiom_u64_leading_zeros, u64_leading_zeros};

verus! {

/// The number of bits that it takes to write `n`: the least width `w`
/// with `n < 2^w`.
pub open spec fn spec_width(n: u64) -> u64 {
    (64 - u64_leading_zeros(n)) as u64
}

/// The number `v` written with `w` bits, most significant bit first.
pub open spec fn spec_fixed(v: u64, w: u64) -> Seq<bool> {
    Seq::new(w as nat, |j: int| (v >> ((w - 1 - j) as u64)) & 1 == 1)
}

/// The letters of the balanced tree code for `n` tokens: the numbers from
/// `1` on, each written with as many bits as it takes to write `n`.
/// The number `0` is left out, since its letter would hold no `1` bit.
pub open spec fn spec_letters(n: nat) -> Seq<Seq<bool>> {
    Seq::new(n, |k: int| spec_fixed((k + 1) as u64, spec_width(n as u64)))
}

/// Whether `v` can be written with `w` bits.
pub open spec fn spec_fits(v: u64, w: u64) -> bool {
    w >= 64 || v >> w == 0
}

/// Create a new balanced tree encoding: the tokens of the model, from the
/// most frequent on, get the letters of the numbers from `1` on, all of a
/// width.
pub fn new<T: Token>(m: Model<T>) -> (res: Result<Encoding<T>, Error>)
    requires
        m.wf(),
    ensures
        res is Ok,
        res->Ok_0.wf(),
        res->Ok_0.spec_map() == spec_by_letter(
            spec_zip(
                spec_keys(spec_sorted(m.spec_entries())),
                spec_letters(m.spec_entries().len()),
            ),
        ),
        res is Ok ==> valid_code(res->Ok_0.spec_alphabet()),
{
    let sorted = m.sorted();
    proof {
        lemma_sorted(m.spec_entries());
        assert(entry_views(sorted@).len() == sorted@.len());
    }
    match letters(sorted.len()) {
        Err(e) => Err(e),
        Ok(letters) => {
            proof {
                assert(views(letters@).len() == letters@.len());
            }
            from_letters(&sorted, letters)
        },
    }
}

/// The letters of the balanced tree code for `n` tokens.
pub fn letters(n: usize) -> (res: Result<Vec<Letter>, Error>)
    ensures
        res is Ok,
        all_wf(res->Ok_0@),
        views(res->Ok_0@) == spec_letters(n as nat),
        valid_code(views(res->Ok_0@)),
{
    proof {
        lemma_letters_valid(n as nat);
    }
    let mut letters: Vec<Letter> = Vec::with_capacity(n);
    let mut letter_generator = match LetterGenerator::new(log2(n as u64)) {
        Err(e) => {
            return Err(e);
        },
        Ok(g) => g,
    };
    let mut k: usize = 0;
    while k < n
        invariant
            k <= n,
            letter_generator.wf(),
            letter_generator.spec_bit_count() == spec_width(n as u64),
            letter_generator.spec_current() == k + 1,
            all_wf(letters@),
            letters@.len() == k,
            forall|i: int|
                0 <= i < k ==> (#[trigger] letters@[i])@ == spec_fixed(
                    (i + 1) as u64,
                    spec_width(n as u64),
                ),
        decreases n - k,
    {
        proof {
            letter_generator.lemma_more(n as u64);
        }
        match letter_generator.next() {
            // The width is chosen so that the letters do not run out.
            None => {},
            Some(l) => {
                letters.push(l);
            },
        }
        k = k + 1;
    }
    proof {
        assert(views(letters@) =~= spec_letters(n as nat));
    }
    Ok(letters)
}

/// Gives the letters of one width, from the letter of the number `1` on.
#[derive(Clone, Debug)]
pub struct LetterGenerator {
    bit_count: u64,
    current: u128,
    max: u128,
}

impl LetterGenerator {
    /// The generator has not passed the last letter of its width.
    pub closed spec fn wf(&self) -> bool {
        &&& self.bit_count <= 64
        &&& self.max == 1u128 << (self.bit_count as u128)
        &&& 1 <= self.current <= self.max
    }

    /// The width of the letters.
    pub closed spec fn spec_bit_count(&self) -> u64 {
        self.bit_count
    }

    /// The number whose letter comes next.
    pub closed spec fn spec_current(&self) -> int {
        self.current as int
    }

    /// Whether a letter is left: the number whose letter comes next is
    /// below `2^w`, for the width `w` of the letters.
    pub open spec fn spec_more(&self) -> bool {
        self.spec_current() < pow2(self.spec_bit_count() as nat)
    }

    /// The width is 64 bits at most, and the number whose letter comes
    /// next lies from `1` to `2^w`.
    pub proof fn lemma_current(&self)
        requires
            self.wf(),
        ensures
            self.spec_bit_count() <= 64,
            1 <= self.spec_current() <= pow2(self.spec_bit_count() as nat),
    {
        lemma_shl_pow2(self.bit_count);
    }

    /// With the width of `n`, the letters of the numbers up to `n` are
    /// left.
    pub proof fn lemma_more(&self, n: u64)
        requires
            self.wf(),
            self.spec_bit_count() == spec_width(n),
            self.spec_current() <= n,
        ensures
            self.spec_more(),
    {
        lemma_width_fits(n, n);
        let w = self.bit_count;
        assert(w == 64 ==> (1u128 << (w as u128)) > (n as u128)) by (bit_vector);
        assert(w as u128 == w);
        lemma_shl_pow2(w);
    }

    /// A generator of the letters of `bit_count` bits.
    ///
    /// Fails with [`Error::TooManyTokens`] for more than 64 bits.
    pub fn new(bit_count: u64) -> (res: Result<Self, Error>)
        ensures
            bit_count <= 64 ==> res is Ok && res->Ok_0.wf() && res->Ok_0.spec_bit_count()
                == bit_count && res->Ok_0.spec_current() == 1,
            bit_count > 64 ==> res is Err && res->Err_0 == Error::TooManyTokens,
    {
        if bit_count > 64 {
            return Err(Error::TooManyTokens);
        }
        let w = bit_count as u128;
        assert(w <= 64 ==> 1u128 << w >= 1) by (bit_vector);
        Ok(
            Self {
                bit_count,
                // Do not use the code all-0s as it is indistinguishable from
                // trailing 0s when decompressing text.
                current: 1,
                max: 1u128 << w,
            },
        )
    }

    /// The next letter, or `None` when all the letters of the width have
    /// been given.
    pub fn next(&mut self) -> (res: Option<Letter>)
        requires
            old(self).wf(),
        ensures
            final(self).wf(),
            final(self).spec_bit_count() == old(self).spec_bit_count(),
            old(self).spec_more() ==> res is Some && res->Some_0.wf() && res->Some_0@
                == spec_fixed(old(self).spec_current() as u64, old(self).spec_bit_count())
                && final(self).spec_current() == old(self).spec_current() + 1,
            !old(self).spec_more() ==> {
                &&& res is None
                &&& final(self).spec_current() == old(self).spec_current()
            },
    {
        proof {
            lemma_shl_pow2(self.bit_count);
        }
        if self.current >= self.max {
            return None;
        }
        let w = self.bit_count;
        let c = self.current;
        assert(1 <= c && c < (1u128 << (w as u128)) && w <= 64 ==> w >= 1 && c
            <= 0xffff_ffff_ffff_ffffu128) by (bit_vector);
        let v = self.current as u64;
        let x = v << (64 - w);
        let bytes = pack_u64(x);
        let l = Letter::new(bytes.as_slice(), w);
        proof {
            assert forall|j: int| 0 <= j < w implies #[trigger] bits_of(bytes@)[j] == spec_fixed(
                v,
                w,
            )[j] by {
                lemma_pack_u64_bits(x, j);
                let jj = j as u64;
                assert(1 <= w <= 64 && jj < w ==> (((v << ((64 - w) as u64)) >> ((63 - jj) as u64))
                    & 1 == 1) == ((v >> ((w - 1 - jj) as u64)) & 1 == 1)) by (bit_vector);
            }
            assert(l@ =~= spec_fixed(v, w));
        }
        self.current = self.current + 1;
        Some(l)
    }
}

/// The number of bits that it takes to write `n`.
pub fn log2(n: u64) -> (w: u64)
    ensures
        w == spec_width(n),
        w <= 64,
{
    proof {
        axiom_u64_leading_zeros(n);
    }
    let max: u64 = 64;
    let zeroes = n.leading_zeros() as u64;
    max - zeroes
}

/// The letters of the balanced tree code are a valid code.
pub proof fn lemma_letters_valid(n: nat)
    requires
        n <= u64::MAX,
    ensures
        valid_code(spec_letters(n)),
{
    let letters = spec_letters(n);
    let w = spec_width(n as u64);
    assert forall|i: int, j: int|
        0 <= i < letters.len() && 0 <= j < letters.len() && i != j implies !is_prefix(
        #[trigger] letters[i],
        #[trigger] letters[j],
    ) by {
        lemma_width_fits((i + 1) as u64, n as u64);
        lemma_width_fits((j + 1) as u64, n as u64);
        lemma_fixed_injective((i + 1) as u64, (j + 1) as u64, w);
        if is_prefix(letters[i], letters[j]) {
            assert(letters[i] =~= letters[j]);
        }
    }
    assert forall|i: int| 0 <= i < letters.len() implies !all_zero(#[trigger] letters[i]) by {
        lemma_width_fits((i + 1) as u64, n as u64);
        lemma_fixed_nonzero((i + 1) as u64, w);
    }
}

/// A letter of the balanced tree code has 64 bits at most.
pub proof fn lemma_letters_short(n: nat)
    requires
        n <= u64::MAX,
    ensures
        countable(spec_letters(n)),
{
    lemma_width_fits(0, n as u64);
}

/// A number of which something is left after shifting has a bit that is
/// set, at or above the shift.
proof fn lemma_has_bit(x: u64, j: u64)
    requires
        j < 64,
        x >> j != 0,
    ensures
        exists|k: u64| j <= k < 64 && #[trigger] (x >> k) & 1 == 1,
    decreases 64 - j,
{
    if (x >> j) & 1 == 1 {
    } else {
        assert((x >> j) != 0 && (x >> j) & 1 != 1 && j < 64 ==> j < 63 && x >> ((j + 1) as u64)
            != 0) by (bit_vector);
        lemma_has_bit(x, (j + 1) as u64);
    }
}

/// Two different numbers that can be written with `w` bits differ in one
/// of these bits.
proof fn lemma_fixed_injective(a: u64, b: u64, w: u64)
    requires
        a != b,
        w <= 64,
        spec_fits(a, w),
        spec_fits(b, w),
    ensures
        spec_fixed(a, w) != spec_fixed(b, w),
{
    let x = a ^ b;
    assert(a != b ==> (a ^ b) >> 0 != 0) by (bit_vector);
    lemma_has_bit(x, 0);
    let k = choose|k: u64| 0 <= k < 64 && #[trigger] (x >> k) & 1 == 1;
    assert(((a ^ b) >> k) & 1 == 1 ==> ((a >> k) & 1 == 1) != ((b >> k) & 1 == 1))
        by (bit_vector);
    assert(w < 64 && a >> w == 0 && b >> w == 0 && k >= w && k < 64 ==> ((a ^ b) >> k) & 1 != 1)
        by (bit_vector);
    let j = w - 1 - k;
    assert((w - 1 - j) as u64 == k);
    assert(spec_fixed(a, w)[j] != spec_fixed(b, w)[j]);
}

/// A number that is not `0` and can be written with `w` bits has a `1`
/// among these bits.
proof fn lemma_fixed_nonzero(a: u64, w: u64)
    requires
        a != 0,
        w <= 64,
        spec_fits(a, w),
    ensures
        !all_zero(spec_fixed(a, w)),
{
    assert(a != 0 ==> a >> 0 != 0) by (bit_vector);
    lemma_has_bit(a, 0);
    let k = choose|k: u64| 0 <= k < 64 && #[trigger] (a >> k) & 1 == 1;
    assert(w < 64 && a >> w == 0 && k >= w && k < 64 ==> (a >> k) & 1 != 1) by (bit_vector);
    let j = w - 1 - k;
    assert((w - 1 - j) as u64 == k);
    assert(spec_fixed(a, w)[j]);
}

/// Shifting `1` up by `w` bits gives `2^w`.
proof fn lemma_shl_pow2(w: u64)
    requires
        w <= 64,
    ensures
        (1u128 << (w as u128)) == pow2(w as nat),
    decreases w,
{
    if w == 0 {
        lemma2_to64();
        assert(1u128 << 0u128 == 1) by (bit_vector);
    } else {
        let v = (w - 1) as u64;
        lemma_shl_pow2(v);
        lemma_pow2_unfold(w as nat);
        assert(v < 64 ==> 1u128 << ((v + 1) as u128) == 2 * (1u128 << (v as u128)))
            by (bit_vector);
        assert((v + 1) as u128 == w as u128);
    }
}

/// Each number up to `n` can be written with as many bits as `n`.
proof fn lemma_width_fits(v: u64, n: u64)
    requires
        v <= n,
    ensures
        spec_width(n) <= 64,
        spec_fits(v, spec_width(n)),
        spec_width(n) < 64 ==> n < (1u128 << spec_width(n)),
{
    axiom_u64_leading_zeros(n);
    let w = spec_width(n);
    assert(n >> w == 0);
    assert(v <= n && w < 64 && n >> w == 0 ==> v >> w == 0) by (bit_vector);
    assert(w < 64 && n >> w == 0 ==> (n as u128) < (1u128 << w)) by (bit_vector);
}

/// Bit `j` of a number, counted from its most significant bit, stands in
/// its packed bytes as bit `j`.
proof fn lemma_pack_u64_bits(x: u64, j: int)
    requires
        0 <= j < 64,
    ensures
        bit_of(spec_pack_u64(x)[j / 8], j % 8) == ((x >> ((63 - j) as u64)) & 1 == 1),
{
    let k = (j % 8) as u64;
    let i = j / 8;
    let b = spec_pack_u64(x)[i];
    lemma_bit_of_mask_test(b, j % 8);
    reveal(spec_mask);
    if i == 0 {
        assert(k < 8 ==> ((((x >> 56) as u8) & (0x80u8 >> (k as u8))) != 0) == ((x >> ((63
            - k) as u64)) & 1 == 1)) by (bit_vector);
    } else if i == 1 {
        assert(k < 8 ==> (((((x >> 48) & 0xff) as u8) & (0x80u8 >> (k as u8))) != 0) == ((x >> ((55
            - k) as u64)) & 1 == 1)) by (bit_vector);
    } else if i == 2 {
        assert(k < 8 ==> (((((x >> 40) & 0xff) as u8) & (0x80u8 >> (k as u8))) != 0) == ((x >> ((47
            - k) as u64)) & 1 == 1)) by (bit_vector);
    } else if i == 3 {
        assert(k < 8 ==> (((((x >> 32) & 0xff) as u8) & (0x80u8 >> (k as u8))) != 0) == ((x >> ((39
            - k) as u64)) & 1 == 1)) by (bit_vector);
    } else if i == 4 {
        assert(k < 8 ==> (((((x >> 24) & 0xff) as u8) & (0x80u8 >> (k as u8))) != 0) == ((x >> ((31
            - k) as u64)) & 1 == 1)) by (bit_vector);
    } else if i == 5 {
        assert(k < 8 ==> (((((x >> 16) & 0xff) as u8) & (0x80u8 >> (k as u8))) != 0) == ((x >> ((23
            - k) as u64)) & 1 == 1)) by (bit_vector);
    } else if i == 6 {
        assert(k < 8 ==> (((((x >> 8) & 0xff) as u8) & (0x80u8 >> (k as u8))) != 0) == ((x >> ((15
            - k) as u64)) & 1 == 1)) by (bit_vector);
    } else {
        assert(k < 8 ==> ((((x & 0xff) as u8) & (0x80u8 >> (k as u8))) != 0) == ((x >> ((7
            - k) as u64)) & 1 == 1)) by (bit_vector);
    }
}

} // verus!
