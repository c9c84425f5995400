//! Create a new [Shannon encoding].
//!
//! The Shannon encoding scheme is defined thus:
//!
//! Let the tokens, sorted in decreasing order of frequency be
//! `t1, t2, t3 ...`
//!
//! Let the probability of occurrence of the tokens be `f1, f2, f3 ...`
//!
//! Define the numbers `l1, l2, l3 ...` such that `lk` = `ceil(log2(1/fk))`
//!
//! Let the cumulative probabilities be `c1, c2, c3 ...`, each the sum of
//! the probabilities of the tokens before.
//!
//! Then, the code is `e1, e2, e3 ...` such that `ek` = first `lk` bits of
//! the binary expansion of `ck`.
//!
//! A probability is held as the number of occurrences that it stands for,
//! out of the total number of occurrences. So all the arithmetic is exact.
//!
//! [Shannon encoding]: https://en.wikipedia.org/wiki/Shannon%E2%80%93Fano_coding

use crate::assoc::{entry_views, spec_keys};
use crate::code::alphabet::{all_wf, countable, valid_code, views};
use crate::code::bits::{all_zero, is_prefix};
use crate::code::letter::Letter;
use crate::encoding::{from_letters, spec_by_letter, spec_zip, Encoding};
use crate::error::Error;
use crate::model::{freqs_of, lemma_sorted, spec_freqs, spec_sorted, Model};
use crate::sums::{
    lemma_sum_bounds, lemma_sum_nonnegative, lemma_sum_take, lemma_sum_take_le, sum,
};
use crate::tokens::Token;
use vstd::arithmetic::power2::{lemma2_to64, lemma_pow2_unfold, pow2};
use vstd::prelude::*;

verus! {

/// The length of the letter of a token that occurs `f` times out of
/// `total`: the least `l` with `f * 2^l >= total`, which is
/// `ceil(log2(total / f))`.
pub open spec fn spec_length(f: int, total: int) -> nat
    decreases
            (if f < total {
                total - f
            } else {
                0
            }),
{
    if f <= 0 || f >= total {
        0
    } else {
        1 + spec_length(2 * f, total)
    }
}

/// The first `l` bits of the binary expansion of `c / total`: again and
/// again `c` is doubled, and where that gives `total` or more, the bit is
/// `1` and `total` is taken off.
pub open spec fn spec_expansion(c: int, total: int, l: nat) -> Seq<bool>
    decreases l,
{
    if l == 0 {
        Seq::empty()
    } else if 2 * c >= total {
        seq![true] + spec_expansion(2 * c - total, total, (l - 1) as nat)
    } else {
        seq![false] + spec_expansion(2 * c, total, (l - 1) as nat)
    }
}

/// The letter of a token that occurs `f` times out of `total`, behind
/// tokens that occur `c` times together. The letter of the first token
/// would hold only `0` bits, so a `1` bit is put at its end.
pub open spec fn spec_letter(c: int, f: int, total: int) -> Seq<bool> {
    let bits = spec_expansion(c, total, spec_length(f, total));
    if c == 0 {
        bits.push(true)
    } else {
        bits
    }
}

/// The letters of the Shannon code for tokens with the frequencies `freqs`,
/// in the order of the tokens.
pub open spec fn spec_letters(freqs: Seq<u64>) -> Seq<Seq<bool>> {
    Seq::new(
        freqs.len(),
        |k: int| spec_letter(sum(freqs.take(k)), freqs[k] as int, sum(freqs)),
    )
}

/// Create a new Shannon encoding: the tokens of the model, from the most
/// frequent on, get the letters of the Shannon code for their
/// frequencies.
pub fn new<T: Token>(m: Model<T>) -> (res: Result<Encoding<T>, Error>)
    requires
        m.wf(),
    ensures
        res is Ok,
        res->Ok_0.wf(),
        res->Ok_0.spec_map() == spec_by_letter(
            spec_zip(
                spec_keys(spec_sorted(m.spec_entries())),
                spec_letters(spec_freqs(spec_sorted(m.spec_entries()))),
            ),
        ),
        res is Ok ==> valid_code(res->Ok_0.spec_alphabet()),
{
    let total = m.total();
    let tk = m.sorted();
    let fk = freqs_of(&tk);
    proof {
        lemma_sorted(m.spec_entries());
        assert forall|i: int| 0 <= i < fk@.len() implies #[trigger] fk@[i] >= 1 by {
            assert(entry_views(tk@)[i].1 >= 1);
        }
        assert forall|i: int, j: int| 0 <= i <= j < fk@.len() implies #[trigger] fk@[i]
            >= #[trigger] fk@[j] by {
            assert(entry_views(tk@)[i].1 >= entry_views(tk@)[j].1);
        }
        lemma_letters_valid(fk@);
    }
    let ek = letters(&fk, total);
    proof {
        assert(views(ek@).len() == ek@.len());
        assert(entry_views(tk@).len() == tk@.len());
    }
    from_letters(&tk, ek)
}

/// The letters of the Shannon code for tokens with the frequencies `freqs`,
/// in the order of the tokens.
pub fn letters(freqs: &Vec<u64>, total: u64) -> (res: Vec<Letter>)
    requires
        total == sum(freqs@),
        forall|i: int| 0 <= i < freqs@.len() ==> #[trigger] freqs@[i] >= 1,
    ensures
        all_wf(res@),
        views(res@) == spec_letters(freqs@),
{
    let mut res: Vec<Letter> = Vec::with_capacity(freqs.len());
    let mut ck = CumulativeProbabilities::new(freqs);
    let mut k: usize = 0;
    while k < freqs.len()
        invariant
            total == sum(freqs@),
            forall|i: int| 0 <= i < freqs@.len() ==> #[trigger] freqs@[i] >= 1,
            k <= freqs@.len(),
            ck.wf(),
            ck.spec_freqs() == freqs@,
            ck.spec_passed() == k,
            all_wf(res@),
            res@.len() == k,
            forall|i: int|
                0 <= i < k ==> (#[trigger] res@[i])@ == spec_letter(
                    sum(freqs@.take(i)),
                    freqs@[i] as int,
                    sum(freqs@),
                ),
        decreases freqs@.len() - k,
    {
        proof {
            lemma_sum_take_le(freqs@, k as int);
            lemma_sum_nonnegative(freqs@.take(k as int));
        }
        let c = match ck.next() {
            Some(c) => c,
            None => 0,
        };
        let len = l(freqs[k], total);
        let letter = e(c, len, total);
        res.push(letter);
        k = k + 1;
    }
    proof {
        assert(views(res@) =~= spec_letters(freqs@));
    }
    res
}

/// The length of the letter of a token that occurs `f` times out of
/// `total`.
pub fn l(f: u64, total: u64) -> (len: u64)
    requires
        1 <= f,
    ensures
        len == spec_length(f as int, total as int),
        len <= 64,
{
    proof {
        lemma2_to64();
        assert(total <= pow2(64) * f) by (nonlinear_arith)
            requires
                total <= 0xffff_ffff_ffff_ffff,
                pow2(64) == 0x10000000000000000,
                f >= 1,
        ;
        lemma_length_bound(f as int, total as int, 64);
    }
    let mut x: u128 = f as u128;
    let mut len: u64 = 0;
    while x < total as u128
        invariant
            1 <= x,
            spec_length(f as int, total as int) == len + spec_length(x as int, total as int),
            spec_length(f as int, total as int) <= 64,
        decreases
                (if x < total {
                    total - x
                } else {
                    0
                }),
    {
        x = x * 2;
        len = len + 1;
    }
    len
}

/// The first `l` bits of the binary expansion of `c / total`, and a `1` bit
/// after them where `c` is `0`.
pub fn e(c: u64, l: u64, total: u64) -> (letter: Letter)
    requires
        c <= total,
        l < u64::MAX - 1,
    ensures
        letter.wf(),
        letter@ == (if c == 0 {
            spec_expansion(c as int, total as int, l as nat).push(true)
        } else {
            spec_expansion(c as int, total as int, l as nat)
        }),
{
    let mut letter = Letter::with_capacity(l);
    let mut mut_c: u128 = c as u128;
    let mut i: u64 = 0;
    proof {
        assert(letter@ + spec_expansion(c as int, total as int, l as nat) =~= spec_expansion(
            c as int,
            total as int,
            l as nat,
        ));
    }
    while i < l
        invariant
            i <= l < u64::MAX - 1,
            letter.wf(),
            letter@.len() == i,
            mut_c <= total,
            spec_expansion(c as int, total as int, l as nat) == letter@ + spec_expansion(
                mut_c as int,
                total as int,
                (l - i) as nat,
            ),
        decreases l - i,
    {
        let ghost before = letter@;
        let ghost c0 = mut_c as int;
        mut_c = mut_c * 2;
        if mut_c >= total as u128 {
            letter.push1();
            mut_c = mut_c - total as u128;
            proof {
                assert(before + (seq![true] + spec_expansion(
                    mut_c as int,
                    total as int,
                    (l - i - 1) as nat,
                )) =~= letter@ + spec_expansion(mut_c as int, total as int, (l - i - 1) as nat));
            }
        } else {
            letter.push0();
            proof {
                assert(before + (seq![false] + spec_expansion(
                    mut_c as int,
                    total as int,
                    (l - i - 1) as nat,
                )) =~= letter@ + spec_expansion(mut_c as int, total as int, (l - i - 1) as nat));
            }
        }
        i = i + 1;
    }
    proof {
        assert(letter@ + Seq::<bool>::empty() =~= letter@);
    }
    // The right Shannon letter for the first token holds only zeroes, but
    // a `Letter` of zeroes is not allowed. Putting a "1" at the end does
    // not break the prefix property of the code.
    //
    // It does make the letter of the most frequent token longer.
    if c == 0 {
        letter.push1();
    }
    letter
}

/// Gives, for each token in its turn, the number of times that the tokens
/// before it occur together.
pub struct CumulativeProbabilities<'a> {
    freqs: &'a Vec<u64>,
    next: usize,
    sum: u64,
}

impl<'a> CumulativeProbabilities<'a> {
    /// The sum stands at the sum of the frequencies that were passed.
    pub closed spec fn wf(&self) -> bool {
        &&& self.next <= self.freqs@.len()
        &&& self.sum == sum(self.freqs@.take(self.next as int))
        &&& sum(self.freqs@) <= u64::MAX
    }

    /// The frequencies that are summed up.
    pub closed spec fn spec_freqs(&self) -> Seq<u64> {
        self.freqs@
    }

    /// How many of the frequencies were passed.
    pub closed spec fn spec_passed(&self) -> int {
        self.next as int
    }

    /// Starts before the first of `freqs`.
    pub fn new(freqs: &'a Vec<u64>) -> (c: Self)
        requires
            sum(freqs@) <= u64::MAX,
        ensures
            c.wf(),
            c.spec_freqs() == freqs@,
            c.spec_passed() == 0,
    {
        proof {
            assert(freqs@.take(0) =~= Seq::<u64>::empty());
        }
        Self { freqs, next: 0, sum: 0 }
    }

    /// The sum of the frequencies passed so far; then passes one more.
    /// Gives `None` when all are passed.
    pub fn next(&mut self) -> (res: Option<u64>)
        requires
            old(self).wf(),
        ensures
            final(self).wf(),
            final(self).spec_freqs() == old(self).spec_freqs(),
            old(self).spec_passed() < old(self).spec_freqs().len() ==> res == Some(
                sum(old(self).spec_freqs().take(old(self).spec_passed())) as u64,
            ) && final(self).spec_passed() == old(self).spec_passed() + 1,
            old(self).spec_passed() >= old(self).spec_freqs().len() ==> {
                &&& res is None
                &&& final(self).spec_passed() == old(self).spec_passed()
            },
    {
        if self.next < self.freqs.len() {
            let old_sum = self.sum;
            proof {
                lemma_sum_take(self.freqs@, self.next as int);
                lemma_sum_take_le(self.freqs@, self.next + 1);
            }
            self.sum = self.sum + self.freqs[self.next];
            self.next = self.next + 1;
            Some(old_sum)
        } else {
            None
        }
    }
}

/// The letters of the Shannon code are a valid code, for frequencies that
/// stand in their order, highest first: no letter is the start of another,
/// and each holds a `1` bit.
pub proof fn lemma_letters_valid(freqs: Seq<u64>)
    requires
        forall|i: int| 0 <= i < freqs.len() ==> #[trigger] freqs[i] >= 1,
        forall|i: int, j: int|
            0 <= i <= j < freqs.len() ==> #[trigger] freqs[i] >= #[trigger] freqs[j],
    ensures
        valid_code(spec_letters(freqs)),
{
    let letters = spec_letters(freqs);
    assert forall|i: int, j: int|
        0 <= i < letters.len() && 0 <= j < letters.len() && i != j implies !is_prefix(
        #[trigger] letters[i],
        #[trigger] letters[j],
    ) by {
        if i < j {
            let x = lemma_letters_differ(freqs, i, j);
            if is_prefix(letters[i], letters[j]) {
                assert(letters[j].take(letters[i].len() as int)[x] == letters[j][x]);
            }
        } else {
            let x = lemma_letters_differ(freqs, j, i);
            if is_prefix(letters[i], letters[j]) {
                assert(letters[j].take(letters[i].len() as int)[x] == letters[j][x]);
            }
        }
    }
    assert forall|j: int| 0 <= j < letters.len() implies !all_zero(#[trigger] letters[j]) by {
        let total = sum(freqs);
        if j == 0 {
            assert(freqs.take(0) =~= Seq::<u64>::empty());
            let len = spec_length(freqs[0] as int, total);
            lemma_expansion_len(0, total, len);
            assert(letters[0][len as int]);
        } else {
            let x = lemma_letters_differ(freqs, 0, j);
            assert(freqs.take(0) =~= Seq::<u64>::empty());
            lemma_sum_bounds(freqs, 0);
            lemma_expansion_zero(total, spec_length(freqs[0] as int, total));
            assert(letters[j][x]);
        }
    }
}

/// Two letters of the Shannon code differ at a place that both have, for
/// frequencies that stand in their order, highest first: the place is
/// one of the first bits of the expansion for the earlier letter.
proof fn lemma_letters_differ(freqs: Seq<u64>, i: int, j: int) -> (x: int)
    requires
        forall|i: int| 0 <= i < freqs.len() ==> #[trigger] freqs[i] >= 1,
        forall|i: int, j: int|
            0 <= i <= j < freqs.len() ==> #[trigger] freqs[i] >= #[trigger] freqs[j],
        0 <= i < j < freqs.len(),
    ensures
        0 <= x < spec_length(freqs[i] as int, sum(freqs)),
        x < spec_letters(freqs)[i].len(),
        x < spec_letters(freqs)[j].len(),
        spec_letters(freqs)[i][x] != spec_letters(freqs)[j][x],
        spec_letters(freqs)[i][x] == spec_expansion(
            sum(freqs.take(i)),
            sum(freqs),
            spec_length(freqs[i] as int, sum(freqs)),
        )[x],
{
    let total = sum(freqs);
    let ci = sum(freqs.take(i));
    let cj = sum(freqs.take(j));
    let fi = freqs[i] as int;
    let fj = freqs[j] as int;
    let li = spec_length(fi, total);
    let lj = spec_length(fj, total);
    lemma_sum_nonnegative(freqs.take(i));
    lemma_sum_take(freqs, j);
    lemma_sum_take_le(freqs, j + 1);
    lemma_sum_take(freqs, i);
    lemma_sum_take_le(freqs.take(j), i + 1);
    assert(freqs.take(j).take(i + 1) =~= freqs.take(i + 1));
    lemma_length_falls(fi, fj, total);
    let x = lemma_expansions_differ(ci, cj, fi, total, li);
    lemma_expansion_prefix(cj, total, li, lj);
    lemma_expansion_len(ci, total, li);
    lemma_expansion_len(cj, total, lj);
    x
}

/// A token that occurs more often has no longer a letter.
proof fn lemma_length_falls(f: int, g: int, total: int)
    requires
        1 <= g <= f,
    ensures
        spec_length(f, total) <= spec_length(g, total),
    decreases
            (if g < total {
                total - g
            } else {
                0
            }),
{
    if g < total && f < total {
        lemma_length_falls(2 * f, 2 * g, total);
    }
}

/// The expansion of `0` holds no `1` bit.
proof fn lemma_expansion_zero(total: int, l: nat)
    requires
        total > 0,
    ensures
        forall|i: int| 0 <= i < l ==> !(#[trigger] spec_expansion(0, total, l)[i]),
    decreases l,
{
    if l > 0 {
        let rest = spec_expansion(0, total, (l - 1) as nat);
        lemma_expansion_zero(total, (l - 1) as nat);
        lemma_expansion_len(0, total, (l - 1) as nat);
        assert forall|i: int| 0 <= i < l implies !(#[trigger] spec_expansion(0, total, l)[i]) by {
            if i > 0 {
                assert((seq![false] + rest)[i] == rest[i - 1]);
            }
        }
    }
}

/// The first bits of a longer expansion are the shorter expansion.
proof fn lemma_expansion_prefix(c: int, total: int, l: nat, m: nat)
    requires
        l <= m,
    ensures
        forall|i: int|
            0 <= i < l ==> #[trigger] spec_expansion(c, total, m)[i] == spec_expansion(
                c,
                total,
                l,
            )[i],
    decreases l,
{
    if l > 0 {
        let bit = 2 * c >= total;
        let next = if bit {
            2 * c - total
        } else {
            2 * c
        };
        let short = spec_expansion(next, total, (l - 1) as nat);
        let long = spec_expansion(next, total, (m - 1) as nat);
        lemma_expansion_prefix(next, total, (l - 1) as nat, (m - 1) as nat);
        lemma_expansion_len(next, total, (l - 1) as nat);
        lemma_expansion_len(next, total, (m - 1) as nat);
        assert forall|i: int| 0 <= i < l implies #[trigger] spec_expansion(c, total, m)[i]
            == spec_expansion(c, total, l)[i] by {
            if i > 0 {
                assert((seq![bit] + long)[i] == long[i - 1]);
                assert((seq![bit] + short)[i] == short[i - 1]);
            }
        }
    }
}

/// The expansions of two numbers differ within the first `l` bits where
/// the numbers lie as far apart as a frequency whose letter has `l` bits
/// at most: at a place that this gives.
proof fn lemma_expansions_differ(a: int, b: int, d: int, total: int, l: nat) -> (x: int)
    requires
        0 <= a,
        b < total,
        1 <= d <= b - a,
        spec_length(d, total) <= l,
    ensures
        0 <= x < l,
        spec_expansion(a, total, l)[x] != spec_expansion(b, total, l)[x],
    decreases l,
{
    let bit_a = 2 * a >= total;
    let bit_b = 2 * b >= total;
    let next_a = if bit_a {
        2 * a - total
    } else {
        2 * a
    };
    let next_b = if bit_b {
        2 * b - total
    } else {
        2 * b
    };
    let rest_a = spec_expansion(next_a, total, (l - 1) as nat);
    let rest_b = spec_expansion(next_b, total, (l - 1) as nat);
    assert(spec_expansion(a, total, l) == seq![bit_a] + rest_a);
    assert(spec_expansion(b, total, l) == seq![bit_b] + rest_b);
    if bit_a != bit_b {
        0
    } else {
        let x = lemma_expansions_differ(next_a, next_b, 2 * d, total, (l - 1) as nat);
        lemma_expansion_len(next_a, total, (l - 1) as nat);
        lemma_expansion_len(next_b, total, (l - 1) as nat);
        assert((seq![bit_a] + rest_a)[x + 1] == rest_a[x]);
        assert((seq![bit_b] + rest_b)[x + 1] == rest_b[x]);
        x + 1
    }
}

/// A letter of the Shannon code has 65 bits at most.
pub proof fn lemma_letters_short(freqs: Seq<u64>)
    requires
        freqs.len() <= u64::MAX,
        forall|i: int| 0 <= i < freqs.len() ==> #[trigger] freqs[i] >= 1,
        sum(freqs) <= u64::MAX,
    ensures
        countable(spec_letters(freqs)),
{
    assert forall|i: int| 0 <= i < freqs.len() implies (#[trigger] spec_letters(freqs)[i]).len()
        <= u64::MAX by {
        let f = freqs[i] as int;
        let total = sum(freqs);
        lemma2_to64();
        assert(total <= pow2(64) * f) by (nonlinear_arith)
            requires
                total <= 0xffff_ffff_ffff_ffff,
                pow2(64) == 0x10000000000000000,
                f >= 1,
        ;
        lemma_length_bound(f, total, 64);
        lemma_expansion_len(sum(freqs.take(i)), total, spec_length(f, total));
    }
}

/// A length is at most the number of times that the frequency must be
/// doubled to reach the total.
proof fn lemma_length_bound(f: int, total: int, steps: nat)
    requires
        1 <= f,
        total <= pow2(steps) * f,
    ensures
        spec_length(f, total) <= steps,
    decreases steps,
{
    if f < total {
        if steps == 0 {
            lemma2_to64();
            assert(pow2(0) * f == f);
        } else {
            lemma_pow2_unfold(steps);
            let half = pow2((steps - 1) as nat);
            assert(pow2(steps) * f == half * (2 * f)) by (nonlinear_arith)
                requires
                    pow2(steps) == 2 * half,
            ;
            lemma_length_bound(2 * f, total, (steps - 1) as nat);
        }
    }
}

/// The expansion to `l` bits has `l` bits.
pub proof fn lemma_expansion_len(c: int, total: int, l: nat)
    ensures
        spec_expansion(c, total, l).len() == l,
    decreases l,
{
    if l > 0 {
        if 2 * c >= total {
            lemma_expansion_len(2 * c - total, total, (l - 1) as nat);
        } else {
            lemma_expansion_len(2 * c, total, (l - 1) as nat);
        }
    }
}

} // verus!
