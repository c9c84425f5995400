//! Create a new [Fano encoding].
//!
//! The tokens, sorted by frequency, are split in two where their
//! cumulative probability comes closest to half of the whole; those
//! before the split get a `0` bit and those after it a `1` bit; and each
//! part is split again in the same way until it holds one token.
//!
//! A cumulative probability is held as the number of occurrences that it
//! stands for. So all the arithmetic is exact.
//!
//! [Fano encoding]: https://en.wikipedia.org/wiki/Shannon%E2%80%93Fano_coding

use crate::assoc::{entry_views, lemma_collected_distinct, spec_keys};
use crate::code::alphabet::{countable, valid_code};
use crate::code::bits::{all_zero, is_prefix};
use crate::code::letter::Letter;
use crate::encoding::{
    lemma_by_letter_valid, letters_wf, spec_by_letter, spec_letters_of, spec_zip, Encoding,
};
use crate::error::Error;
use crate::model::{lemma_sorted, spec_freqs, spec_sorted, Model};
use crate::sums::{lemma_sum_nonnegative, lemma_sum_take, lemma_sum_take_le, sum};
use crate::tokens::Token;
use vstd::prelude::*;

verus! {

/// Windows up to this length are searched for their split one by one.
pub const LINEAR_SEARCH_THRESHOLD: usize = 6;

/// Whether `c` can be the cumulative frequencies of a window: there is
/// one at least, they are above `0`, and each is above the one before.
pub open spec fn rising(c: Seq<u64>) -> bool {
    &&& c.len() >= 1
    &&& c[0] >= 1
    &&& forall|i: int, j: int| 0 <= i < j < c.len() ==> c[i] < c[j]
}

/// Twice the distance of `c[i]` from half of the last of `c`.
pub open spec fn spec_dist(c: Seq<u64>, i: int) -> int {
    let d = 2 * c[i] - c.last();
    if d >= 0 {
        d
    } else {
        -d
    }
}

/// The part of `c` between `left` and `right` that the search by halves
/// narrows the split down to: the part is halved, and the half taken in
/// which half of the last of `c` falls, as long as the part is longer
/// than the threshold.
pub open spec fn spec_narrow(c: Seq<u64>, left: int, right: int) -> (int, int)
    decreases right - left,
{
    if 0 <= left && right - left > LINEAR_SEARCH_THRESHOLD {
        let mid = (left + right) / 2;
        if 2 * c[mid] > c.last() {
            spec_narrow(c, left, mid)
        } else {
            spec_narrow(c, mid, right)
        }
    } else {
        (left, right)
    }
}

/// The first place from `i` on, before `right`, that is farther from half
/// of the last of `c` than the place before it; or `right`.
pub open spec fn spec_scan(c: Seq<u64>, i: int, right: int) -> int
    decreases right - i,
{
    if i >= right {
        right
    } else if spec_dist(c, i) > spec_dist(c, i - 1) {
        i
    } else {
        spec_scan(c, i + 1, right)
    }
}

/// The place where a window with the cumulative frequencies `c` is split.
pub open spec fn spec_split(c: Seq<u64>) -> int {
    let (left, right) = spec_narrow(c, 0, c.len() as int);
    spec_scan(c, left + 1, right)
}

/// The letters of the tokens of a window with the cumulative frequencies
/// `c`, below the bits `prefix`: the window is split, the tokens before
/// the split get letters below `prefix` and a `0` bit, those after it
/// below `prefix` and a `1` bit. The one token of a window of one gets
/// `prefix`.
pub open spec fn spec_codes(c: Seq<u64>, prefix: Seq<bool>) -> Seq<Seq<bool>>
    decreases c.len(),
{
    if c.len() <= 1 {
        Seq::new(c.len(), |i: int| prefix)
    } else {
        let s = spec_split(c);
        if 0 < s < c.len() {
            spec_codes(c.take(s), prefix.push(false)) + spec_codes(c.skip(s), prefix.push(true))
        } else {
            Seq::new(c.len(), |i: int| prefix)
        }
    }
}

/// For each of `freqs`, the sum of the frequencies up to it.
pub open spec fn spec_cumulative(freqs: Seq<u64>) -> Seq<u64> {
    Seq::new(freqs.len(), |i: int| sum(freqs.take(i + 1)) as u64)
}

/// The letters of the Fano code for tokens with the frequencies `freqs`,
/// in the order of the tokens. Each letter starts with a `1` bit.
pub open spec fn spec_letters(freqs: Seq<u64>) -> Seq<Seq<bool>> {
    spec_codes(spec_cumulative(freqs), seq![true])
}

/// Create a new Fano encoding: the tokens of the model, from the most
/// frequent on, get the letters of the Fano code for their frequencies.
pub fn new<T: Token>(m: Model<T>) -> (res: Result<Encoding<T>, Error>)
    requires
        m.wf(),
    ensures
        res is Ok,
        res->Ok_0.wf(),
        res->Ok_0.spec_map() == spec_by_letter(
            spec_zip(
                spec_keys(spec_sorted(m.spec_entries())),
                spec_letters(spec_freqs(spec_sorted(m.spec_entries()))),
            ),
        ),
        res is Ok ==> valid_code(res->Ok_0.spec_alphabet()),
{
    let flattened = m.sorted();
    let ghost sorted = spec_sorted(m.spec_entries());
    let ghost keys = spec_keys(sorted);
    let ghost freqs = spec_freqs(sorted);
    let ghost letters = spec_letters(freqs);
    let ghost zipped = spec_zip(keys, letters);
    proof {
        lemma_sorted(m.spec_entries());
        assert forall|i: int| 0 <= i < freqs.len() implies #[trigger] freqs[i] >= 1 by {
            assert(sorted[i].1 >= 1);
        }
        lemma_letters_valid(freqs);
    }
    let mut pairs: Vec<(T, Letter)> = Vec::with_capacity(flattened.len());
    if flattened.len() > 0 {
        let cumulative = cumulate(&flattened);
        proof {
            lemma_cumulative(freqs);
        }
        let mut iter = CodeIter::new(Window::new(cumulative.as_slice()));
        proof {
            assert(entry_views(pairs@) + spec_zip(iter.pending_tokens(), iter.pending())
                =~= zipped);
        }
        loop
            invariant
                iter.wf(),
                letters_wf(pairs@),
                entry_views(pairs@) + spec_zip(iter.pending_tokens(), iter.pending()) == zipped,
            ensures
                entry_views(pairs@) == zipped,
                letters_wf(pairs@),
            decreases iter.pending().len(),
        {
            let ghost before = pairs@;
            let ghost ts = iter.pending_tokens();
            let ghost ls = iter.pending();
            proof {
                iter.lemma_pending();
            }
            match iter.next() {
                None => {
                    proof {
                        iter.lemma_pending();
                        assert(spec_zip(ts, ls) =~= Seq::<(T::V, Seq<bool>)>::empty());
                        assert(spec_zip(iter.pending_tokens(), iter.pending()) =~= Seq::<
                            (T::V, Seq<bool>),
                        >::empty());
                        assert(entry_views(pairs@) + spec_zip(ts, ls) =~= entry_views(pairs@));
                    }
                    break ;
                },
                Some(pair) => {
                    pairs.push(pair);
                    proof {
                        assert(entry_views(pairs@) =~= entry_views(before).push((ts[0], ls[0])));
                        assert(entry_views(pairs@) + spec_zip(ts.skip(1), ls.skip(1))
                            =~= entry_views(before) + spec_zip(ts, ls));
                        assert forall|x: int| 0 <= x < pairs@.len() implies (
                        #[trigger] pairs@[x]).1.wf() by {
                            if x < before.len() {
                                assert(pairs@[x] == before[x]);
                            }
                        }
                    }
                },
            }
        }
    } else {
        proof {
            assert(entry_views(pairs@) =~= zipped);
        }
    }
    proof {
        assert(spec_keys(zipped) =~= keys);
        lemma_collected_distinct(zipped);
        lemma_by_letter_valid(zipped);
        assert(spec_letters_of(zipped) =~= letters);
    }
    Encoding::new(pairs)
}

/// The tokens of `entries`, each with the sum of the frequencies up to
/// it.
fn cumulate<T: Token>(entries: &Vec<(T, u64)>) -> (cumulative: Vec<(T, u64)>)
    requires
        sum(spec_freqs(entry_views(entries@))) <= u64::MAX,
    ensures
        spec_keys(entry_views(cumulative@)) == spec_keys(entry_views(entries@)),
        spec_freqs(entry_views(cumulative@)) == spec_cumulative(
            spec_freqs(entry_views(entries@)),
        ),
{
    let ghost freqs = spec_freqs(entry_views(entries@));
    let mut cumulative: Vec<(T, u64)> = Vec::with_capacity(entries.len());
    let mut total: u64 = 0;
    let mut i: usize = 0;
    proof {
        assert(freqs.take(0) =~= Seq::<u64>::empty());
    }
    while i < entries.len()
        invariant
            freqs == spec_freqs(entry_views(entries@)),
            sum(freqs) <= u64::MAX,
            i <= entries@.len(),
            cumulative@.len() == i,
            total == sum(freqs.take(i as int)),
            forall|j: int|
                0 <= j < i ==> (#[trigger] cumulative@[j]).0@ == entries@[j].0@ && cumulative@[j].1
                    == sum(freqs.take(j + 1)),
        decreases entries@.len() - i,
    {
        proof {
            lemma_sum_take(freqs, i as int);
            lemma_sum_take_le(freqs, i + 1);
        }
        total = total + entries[i].1;
        cumulative.push((entries[i].0.duplicate(), total));
        i = i + 1;
    }
    proof {
        assert(spec_keys(entry_views(cumulative@)) =~= spec_keys(entry_views(entries@)));
        assert(spec_freqs(entry_views(cumulative@)) =~= spec_cumulative(freqs));
    }
    cumulative
}

/// A run of tokens in the order of their frequencies, each with the
/// cumulative frequency up to it.
#[derive(Debug, PartialEq)]
pub struct Window<'a, T: Token>(&'a [(T, u64)]);

/// What a window is refined to.
#[derive(Debug, PartialEq)]
pub enum Refinement<'a, T: Token> {
    /// The windows before and after the split of the window.
    Split(Window<'a, T>, Window<'a, T>),
    /// The one token of the window.
    Terminal(T),
}

impl<'a, T: Token> Window<'a, T> {
    /// The tokens of the window with their cumulative frequencies.
    pub closed spec fn spec_data(&self) -> Seq<(T::V, u64)> {
        entry_views(self.0@)
    }

    /// The cumulative frequencies of the window.
    pub open spec fn spec_values(&self) -> Seq<u64> {
        spec_freqs(self.spec_data())
    }

    /// The cumulative frequencies rise.
    pub open spec fn wf(&self) -> bool {
        rising(self.spec_values())
    }

    /// The window of `data`.
    pub fn new(data: &'a [(T, u64)]) -> (w: Self)
        ensures
            w.spec_data() == entry_views(data@),
    {
        Self(data)
    }

    /// The number of tokens of the window.
    pub fn len(&self) -> (n: usize)
        ensures
            n == self.spec_data().len(),
    {
        self.0.len()
    }

    /// The one token of a window of one, or the two windows that a longer
    /// window is split into.
    pub fn refine(self) -> (res: Refinement<'a, T>)
        requires
            self.wf(),
        ensures
            self.spec_data().len() == 1 ==> (res matches Refinement::Terminal(t) && t@
                == self.spec_data()[0].0),
            self.spec_data().len() > 1 ==> (res matches Refinement::Split(left, right)
                && left.spec_data() == self.spec_data().take(spec_split(self.spec_values()))
                && right.spec_data() == self.spec_data().skip(spec_split(self.spec_values()))
                && left.wf() && right.wf() && 0 < spec_split(self.spec_values())
                < self.spec_data().len()),
    {
        if self.0.len() == 1 {
            Refinement::Terminal(self.0[0].0.duplicate())
        } else {
            let total = self.0[self.0.len() - 1].1;
            let split = self.find_split_binary_search(total);
            proof {
                lemma_split(self.spec_values());
                let s = spec_split(self.spec_values());
                assert(spec_freqs(self.spec_data().take(s)) =~= self.spec_values().take(s));
                assert(spec_freqs(self.spec_data().skip(s)) =~= self.spec_values().skip(s));
            }
            self.split_at(split)
        }
    }

    /// The place of the split: the search by halves narrows it down, and
    /// the scan finds it.
    fn find_split_binary_search(&self, total: u64) -> (split: usize)
        requires
            self.spec_data().len() > 1,
            total == self.spec_values().last(),
        ensures
            split == spec_split(self.spec_values()),
            split <= self.spec_data().len(),
    {
        let ghost c = self.spec_values();
        let mut left: usize = 0;
        let mut right: usize = self.0.len();
        while right - left > LINEAR_SEARCH_THRESHOLD
            invariant
                c == self.spec_values(),
                total == c.last(),
                left + 2 <= right <= c.len(),
                spec_narrow(c, 0, c.len() as int) == spec_narrow(c, left as int, right as int),
            decreases right - left,
        {
            let mid = left + (right - left) / 2;
            assert(mid == (left + right) / 2);
            if 2 * (self.0[mid].1 as u128) > total as u128 {
                right = mid;
            } else {
                left = mid;
            }
        }
        proof {
            lemma_scan(c, left + 1, right as int, 0);
        }
        self.find_split_linear(total, left, right)
    }

    /// The first place after `left`, before `right`, that is farther from
    /// half of `total` than the place before it; or `right`.
    fn find_split_linear(&self, total: u64, left: usize, right: usize) -> (split: usize)
        requires
            left + 1 < right <= self.spec_data().len(),
            total == self.spec_values().last(),
        ensures
            split == spec_scan(self.spec_values(), left + 1, right as int),
    {
        let ghost c = self.spec_values();
        let mut diff = dist(self.0[left].1, total);
        let mut i: usize = left + 1;
        while i < right
            invariant
                c == self.spec_values(),
                total == c.last(),
                left < i <= right <= c.len(),
                diff == spec_dist(c, i - 1),
                spec_scan(c, left + 1, right as int) == spec_scan(c, i as int, right as int),
            decreases right - i,
        {
            let ndiff = dist(self.0[i].1, total);
            if ndiff > diff {
                return i;
            }
            diff = ndiff;
            i = i + 1;
        }
        right
    }

    /// The windows before and after the place `split`.
    fn split_at(self, split: usize) -> (res: Refinement<'a, T>)
        requires
            split <= self.spec_data().len(),
        ensures
            res matches Refinement::Split(left, right) && left.spec_data()
                == self.spec_data().take(split as int) && right.spec_data()
                == self.spec_data().skip(split as int),
    {
        let len = self.0.len();
        let left = vstd::slice::slice_subrange(self.0, 0, split);
        let right = vstd::slice::slice_subrange(self.0, split, len);
        proof {
            assert(entry_views(left@) =~= self.spec_data().take(split as int));
            assert(entry_views(right@) =~= self.spec_data().skip(split as int));
        }
        Refinement::Split(Self(left), Self(right))
    }
}

/// Twice the distance of `c` from half of `total`.
fn dist(c: u64, total: u64) -> (d: u128)
    ensures
        d == (if 2 * c - total >= 0 {
            2 * c - total
        } else {
            total - 2 * c
        }),
{
    let twice = 2 * (c as u128);
    if twice >= total as u128 {
        twice - total as u128
    } else {
        total as u128 - twice
    }
}

/// A step on the way down to a window: to the left, with the window to
/// the right of it yet to be gone into, or to the right.
pub enum Frame<'a, T: Token> {
    Left { residual: Window<'a, T> },
    Right,
}

/// The bits of the steps of `stack`: `0` for a step to the left and `1`
/// for a step to the right.
pub open spec fn spec_frame_bits<T: Token>(stack: Seq<Frame<T>>) -> Seq<bool> {
    Seq::new(stack.len(), |i: int| stack[i] is Right)
}

/// The letters that are yet to come from `stack`: for each step to the
/// left, from the last one back, the letters of the window to the right
/// of it, which lie below the steps before that step and a step to the
/// right.
pub open spec fn spec_pending<T: Token>(stack: Seq<Frame<T>>) -> Seq<Seq<bool>>
    decreases stack.len(),
{
    if stack.len() == 0 {
        Seq::empty()
    } else {
        match stack.last() {
            Frame::Right => spec_pending(stack.drop_last()),
            Frame::Left { residual } => spec_codes(
                residual.spec_values(),
                spec_frame_bits(stack.drop_last()).push(true),
            ) + spec_pending(stack.drop_last()),
        }
    }
}

/// The tokens whose letters are yet to come from `stack`, in the order of
/// the letters.
pub open spec fn spec_pending_tokens<T: Token>(stack: Seq<Frame<T>>) -> Seq<T::V>
    decreases stack.len(),
{
    if stack.len() == 0 {
        Seq::empty()
    } else {
        match stack.last() {
            Frame::Right => spec_pending_tokens(stack.drop_last()),
            Frame::Left { residual } => spec_keys(residual.spec_data()) + spec_pending_tokens(
                stack.drop_last(),
            ),
        }
    }
}

/// Whether the windows of `stack` are windows.
pub open spec fn stack_ok<T: Token>(stack: Seq<Frame<T>>) -> bool {
    forall|i: int|
        0 <= i < stack.len() ==> ((#[trigger] stack[i]) matches Frame::Left { residual }
            ==> residual.wf())
}

/// Gives the tokens of a window with their letters, one by one.
///
/// The steps down to the window whose token comes next are held as a
/// stack, not as calls within calls.
pub struct CodeIter<'a, T: Token>(Vec<Frame<'a, T>>);

impl<'a, T: Token> CodeIter<'a, T> {
    /// The windows that the steps hold are windows.
    pub closed spec fn wf(&self) -> bool {
        stack_ok(self.0@)
    }

    /// The letters that are yet to come.
    pub closed spec fn pending(&self) -> Seq<Seq<bool>> {
        spec_pending(self.0@)
    }

    /// The tokens whose letters are yet to come.
    pub closed spec fn pending_tokens(&self) -> Seq<T::V> {
        spec_pending_tokens(self.0@)
    }

    /// As many letters are yet to come as tokens.
    pub proof fn lemma_pending(&self)
        requires
            self.wf(),
        ensures
            self.pending().len() == self.pending_tokens().len(),
    {
        lemma_pending_len(self.0@);
    }

    /// Gives the tokens of `window` with their letters. The letters start
    /// with a `1` bit.
    pub fn new(window: Window<'a, T>) -> (iter: Self)
        requires
            window.wf(),
        ensures
            iter.wf(),
            iter.pending() == spec_codes(window.spec_values(), seq![true]),
            iter.pending_tokens() == spec_keys(window.spec_data()),
    {
        let mut stack: Vec<Frame<'a, T>> = Vec::new();
        stack.push(Frame::Left { residual: window });
        proof {
            let s = stack@;
            assert(s.drop_last() =~= Seq::<Frame<T>>::empty());
            assert(spec_frame_bits(s.drop_last()).push(true) =~= seq![true]);
            assert(spec_pending(s.drop_last()) =~= Seq::<Seq<bool>>::empty());
            assert(spec_pending_tokens(s.drop_last()) =~= Seq::<T::V>::empty());
            assert(s.last() == Frame::Left { residual: window });
            assert(spec_pending(s) =~= spec_codes(window.spec_values(), seq![true]));
            assert(spec_pending_tokens(s) =~= spec_keys(window.spec_data()));
        }
        Self(stack)
    }

    /// The next token with its letter, or `None` when all have been given.
    pub fn next(&mut self) -> (res: Option<(T, Letter)>)
        requires
            old(self).wf(),
        ensures
            final(self).wf(),
            old(self).pending().len() == 0 ==> res is None && final(self).pending().len() == 0,
            old(self).pending().len() > 0 ==> {
                &&& res is Some
                &&& res->Some_0.1.wf()
                &&& res->Some_0.1@ == old(self).pending()[0]
                &&& res->Some_0.0@ == old(self).pending_tokens()[0]
                &&& final(self).pending() == old(self).pending().skip(1)
                &&& final(self).pending_tokens() == old(self).pending_tokens().skip(1)
            },
    {
        proof {
            lemma_pending_len(self.0@);
        }
        let residual = match self.unroll() {
            None => {
                return None;
            },
            Some(residual) => residual,
        };
        let ghost below = self.0@;
        self.0.push(Frame::Right);
        proof {
            let s = self.0@;
            assert(s.drop_last() =~= below);
            assert(spec_frame_bits(s) =~= spec_frame_bits(below).push(true));
            assert forall|i: int| 0 <= i < s.len() implies ((#[trigger] s[i]) matches Frame::Left {
                residual,
            } ==> residual.wf()) by {
                if i < below.len() {
                    assert(s[i] == below[i]);
                }
            }
            lemma_codes(residual.spec_values(), spec_frame_bits(s));
        }
        let ret = self.descend(residual);
        Some(ret)
    }

    /// Goes down from the window `node` to its first token, by steps to
    /// the left, and gives the token with its letter.
    fn descend(&mut self, node: Window<'a, T>) -> (res: (T, Letter))
        requires
            old(self).wf(),
            node.wf(),
        ensures
            final(self).wf(),
            res.1.wf(),
            res.1@ == (spec_codes(node.spec_values(), spec_frame_bits(old(self).0@))
                + spec_pending(old(self).0@))[0],
            res.0@ == (spec_keys(node.spec_data()) + spec_pending_tokens(old(self).0@))[0],
            spec_pending(final(self).0@) == (spec_codes(
                node.spec_values(),
                spec_frame_bits(old(self).0@),
            ) + spec_pending(old(self).0@)).skip(1),
            spec_pending_tokens(final(self).0@) == (spec_keys(node.spec_data())
                + spec_pending_tokens(old(self).0@)).skip(1),
    {
        let ghost all = spec_codes(node.spec_values(), spec_frame_bits(self.0@)) + spec_pending(
            self.0@,
        );
        let ghost all_tokens = spec_keys(node.spec_data()) + spec_pending_tokens(self.0@);
        let mut cur = node;
        loop
            invariant
                stack_ok(self.0@),
                cur.wf(),
                all == spec_codes(node.spec_values(), spec_frame_bits(old(self).0@))
                    + spec_pending(old(self).0@),
                all_tokens == spec_keys(node.spec_data()) + spec_pending_tokens(old(self).0@),
                all == spec_codes(cur.spec_values(), spec_frame_bits(self.0@)) + spec_pending(
                    self.0@,
                ),
                all_tokens == spec_keys(cur.spec_data()) + spec_pending_tokens(self.0@),
            decreases cur.spec_data().len(),
        {
            let ghost c = cur.spec_values();
            let ghost d = cur.spec_data();
            let ghost stack = self.0@;
            let ghost bits = spec_frame_bits(stack);
            match cur.refine() {
                Refinement::Terminal(t) => {
                    let letter = self.read_letter();
                    proof {
                        assert(spec_codes(c, bits) =~= seq![bits]);
                        assert(spec_keys(d) =~= seq![d[0].0]);
                        assert(all.skip(1) =~= spec_pending(stack));
                        assert(all_tokens.skip(1) =~= spec_pending_tokens(stack));
                    }
                    return (t, letter);
                },
                Refinement::Split(left, right) => {
                    self.0.push(Frame::Left { residual: right });
                    proof {
                        let s = spec_split(c);
                        let stack2 = self.0@;
                        assert(stack2.drop_last() =~= stack);
                        assert(stack2.last() == Frame::Left { residual: right });
                        assert(spec_frame_bits(stack2) =~= bits.push(false));
                        assert(left.spec_values() =~= c.take(s));
                        assert(right.spec_values() =~= c.skip(s));
                        assert(spec_codes(c, bits) == spec_codes(c.take(s), bits.push(false))
                            + spec_codes(c.skip(s), bits.push(true)));
                        assert(spec_codes(left.spec_values(), spec_frame_bits(stack2))
                            + spec_pending(stack2) =~= all);
                        assert(spec_keys(d) =~= spec_keys(d.take(s)) + spec_keys(d.skip(s)));
                        assert(spec_keys(left.spec_data()) + spec_pending_tokens(stack2)
                            =~= all_tokens);
                        assert forall|i: int| 0 <= i < stack2.len() implies ((
                        #[trigger] stack2[i]) matches Frame::Left { residual }
                            ==> residual.wf()) by {
                            if i < stack.len() {
                                assert(stack2[i] == stack[i]);
                            }
                        }
                    }
                    cur = left;
                },
            }
        }
    }

    /// Takes steps back up to the last step to the left, and gives the
    /// window to the right of it; or `None` where no step to the left is
    /// left.
    fn unroll(&mut self) -> (res: Option<Window<'a, T>>)
        requires
            old(self).wf(),
        ensures
            final(self).wf(),
            res is None ==> {
                &&& spec_pending(old(self).0@).len() == 0
                &&& spec_pending(final(self).0@).len() == 0
            },
            res is Some ==> {
                &&& res->Some_0.wf()
                &&& spec_pending(old(self).0@) == spec_codes(
                    res->Some_0.spec_values(),
                    spec_frame_bits(final(self).0@).push(true),
                ) + spec_pending(final(self).0@)
                &&& spec_pending_tokens(old(self).0@) == spec_keys(res->Some_0.spec_data())
                    + spec_pending_tokens(final(self).0@)
            },
    {
        loop
            invariant
                stack_ok(self.0@),
                spec_pending(self.0@) == spec_pending(old(self).0@),
                spec_pending_tokens(self.0@) == spec_pending_tokens(old(self).0@),
            decreases self.0@.len(),
        {
            let ghost stack = self.0@;
            match self.0.pop() {
                None => {
                    return None;
                },
                Some(frame) => {
                    proof {
                        assert(self.0@ =~= stack.drop_last());
                        assert(frame == stack[stack.len() - 1]);
                        assert forall|i: int| 0 <= i < self.0@.len() implies ((
                        #[trigger] self.0@[i]) matches Frame::Left { residual }
                            ==> residual.wf()) by {
                            assert(self.0@[i] == stack[i]);
                        }
                    }
                    match frame {
                        Frame::Right => {},
                        Frame::Left { residual } => {
                            return Some(residual);
                        },
                    }
                },
            }
        }
    }

    /// The letter of the steps: a `0` bit for each step to the left and a
    /// `1` bit for each step to the right.
    fn read_letter(&self) -> (letter: Letter)
        ensures
            letter.wf(),
            letter@ == spec_frame_bits(self.0@),
    {
        proof {
            assert(self.0.len() == self.0@.len());
        }
        let mut letter = Letter::with_capacity(self.0.len() as u64);
        let mut i: usize = 0;
        while i < self.0.len()
            invariant
                i <= self.0@.len() <= usize::MAX,
                letter.wf(),
                letter@ == spec_frame_bits(self.0@).take(i as int),
            decreases self.0@.len() - i,
        {
            match &self.0[i] {
                Frame::Left { residual: _ } => letter.push0(),
                Frame::Right => letter.push1(),
            }
            proof {
                assert(letter@ =~= spec_frame_bits(self.0@).take(i + 1));
            }
            i = i + 1;
        }
        proof {
            assert(spec_frame_bits(self.0@).take(i as int) =~= spec_frame_bits(self.0@));
        }
        letter
    }
}

/// The letters of the Fano code are a valid code.
pub proof fn lemma_letters_valid(freqs: Seq<u64>)
    requires
        forall|i: int| 0 <= i < freqs.len() ==> #[trigger] freqs[i] >= 1,
        sum(freqs) <= u64::MAX,
    ensures
        spec_letters(freqs).len() == freqs.len(),
        valid_code(spec_letters(freqs)),
{
    let letters = spec_letters(freqs);
    if freqs.len() >= 1 {
        lemma_cumulative(freqs);
        lemma_codes(spec_cumulative(freqs), seq![true]);
        assert forall|i: int| 0 <= i < letters.len() implies !all_zero(#[trigger] letters[i]) by {
            assert(is_prefix(seq![true], letters[i]));
            assert(letters[i][0] == letters[i].take(1)[0]);
        }
    }
}

/// A letter of the Fano code has no more bits than there are tokens.
pub proof fn lemma_letters_short(freqs: Seq<u64>)
    requires
        freqs.len() <= u64::MAX,
        forall|i: int| 0 <= i < freqs.len() ==> #[trigger] freqs[i] >= 1,
        sum(freqs) <= u64::MAX,
    ensures
        countable(spec_letters(freqs)),
{
    lemma_letters_valid(freqs);
    if freqs.len() >= 1 {
        lemma_cumulative(freqs);
        lemma_codes_len(spec_cumulative(freqs), seq![true]);
    }
}

/// The search by halves leaves a part of two places at least.
pub proof fn lemma_narrow(c: Seq<u64>, left: int, right: int)
    requires
        0 <= left,
        left + 2 <= right,
    ensures
        left <= spec_narrow(c, left, right).0,
        spec_narrow(c, left, right).0 + 2 <= spec_narrow(c, left, right).1,
        spec_narrow(c, left, right).1 <= right,
    decreases right - left,
{
    if right - left > LINEAR_SEARCH_THRESHOLD {
        let mid = (left + right) / 2;
        if 2 * c[mid] > c.last() {
            lemma_narrow(c, left, mid);
        } else {
            lemma_narrow(c, mid, right);
        }
    }
}

/// The scan ends in its range, and at the latest where a place is
/// farther than the place before it.
pub proof fn lemma_scan(c: Seq<u64>, i: int, right: int, j: int)
    requires
        i <= right,
    ensures
        i <= spec_scan(c, i, right) <= right,
        i <= j < right && spec_dist(c, j) > spec_dist(c, j - 1) ==> spec_scan(c, i, right) <= j,
    decreases right - i,
{
    if i < right && !(spec_dist(c, i) > spec_dist(c, i - 1)) {
        lemma_scan(c, i + 1, right, j);
    }
}

/// A window of two tokens or more is split into two windows.
pub proof fn lemma_split(c: Seq<u64>)
    requires
        rising(c),
        c.len() >= 2,
    ensures
        0 < spec_split(c) < c.len(),
        rising(c.take(spec_split(c))),
        rising(c.skip(spec_split(c))),
{
    let n = c.len() as int;
    lemma_narrow(c, 0, n);
    let (left, right) = spec_narrow(c, 0, n);
    assert(c[n - 2] < c[n - 1]);
    assert(c[0] <= c[n - 2]);
    assert(spec_dist(c, n - 1) > spec_dist(c, n - 2));
    lemma_scan(c, left + 1, right, n - 1);
    let s = spec_split(c);
    assert forall|i: int, j: int| 0 <= i < j < c.take(s).len() implies c.take(s)[i] < c.take(
        s,
    )[j] by {
        assert(c[i] < c[j]);
    }
    assert forall|i: int, j: int| 0 <= i < j < c.skip(s).len() implies c.skip(s)[i] < c.skip(
        s,
    )[j] by {
        assert(c[s + i] < c[s + j]);
    }
    assert(c[0] <= c[s]);
}

/// There are as many letters as tokens in a window, each below the
/// prefix, and none is the start of another.
pub proof fn lemma_codes(c: Seq<u64>, prefix: Seq<bool>)
    requires
        rising(c),
    ensures
        spec_codes(c, prefix).len() == c.len(),
        forall|i: int| 0 <= i < c.len() ==> is_prefix(prefix, #[trigger] spec_codes(c, prefix)[i]),
        forall|i: int, j: int|
            0 <= i < c.len() && 0 <= j < c.len() && i != j ==> !is_prefix(
                #[trigger] spec_codes(c, prefix)[i],
                #[trigger] spec_codes(c, prefix)[j],
            ),
    decreases c.len(),
{
    let codes = spec_codes(c, prefix);
    if c.len() == 1 {
        assert(prefix =~= prefix.take(prefix.len() as int));
    } else {
        lemma_split(c);
        let s = spec_split(c);
        let side0 = prefix.push(false);
        let side1 = prefix.push(true);
        let a = spec_codes(c.take(s), side0);
        let b = spec_codes(c.skip(s), side1);
        lemma_codes(c.take(s), side0);
        lemma_codes(c.skip(s), side1);
        assert(codes == a + b);
        assert forall|i: int| 0 <= i < c.len() implies is_prefix(prefix, #[trigger] codes[i]) by {
            if i < s {
                assert(codes[i] == a[i]);
                assert(is_prefix(side0, a[i]));
                assert(prefix =~= a[i].take(prefix.len() as int)) by {
                    assert(side0 =~= a[i].take(side0.len() as int));
                    assert forall|k: int| 0 <= k < prefix.len() implies prefix[k] == a[i][k] by {
                        assert(side0[k] == a[i].take(side0.len() as int)[k]);
                    }
                }
            } else {
                assert(codes[i] == b[i - s]);
                assert(is_prefix(side1, b[i - s]));
                assert(prefix =~= b[i - s].take(prefix.len() as int)) by {
                    assert(side1 =~= b[i - s].take(side1.len() as int));
                    assert forall|k: int| 0 <= k < prefix.len() implies prefix[k]
                        == b[i - s][k] by {
                        assert(side1[k] == b[i - s].take(side1.len() as int)[k]);
                    }
                }
            }
        }
        assert forall|i: int, j: int|
            0 <= i < c.len() && 0 <= j < c.len() && i != j implies !is_prefix(
            #[trigger] codes[i],
            #[trigger] codes[j],
        ) by {
            let n = prefix.len() as int;
            if i < s && j < s {
                assert(codes[i] == a[i] && codes[j] == a[j]);
            } else if i >= s && j >= s {
                assert(codes[i] == b[i - s] && codes[j] == b[j - s]);
            } else if i < s {
                assert(codes[i] == a[i] && codes[j] == b[j - s]);
                assert(is_prefix(side0, a[i]) && is_prefix(side1, b[j - s]));
                assert(a[i][n] == side0.take(side0.len() as int)[n]);
                assert(a[i][n] == a[i].take(side0.len() as int)[n]);
                assert(b[j - s][n] == b[j - s].take(side1.len() as int)[n]);
                if is_prefix(a[i], b[j - s]) {
                    assert(a[i][n] == b[j - s].take(a[i].len() as int)[n]);
                }
            } else {
                assert(codes[i] == b[i - s] && codes[j] == a[j]);
                assert(is_prefix(side0, a[j]) && is_prefix(side1, b[i - s]));
                assert(a[j][n] == a[j].take(side0.len() as int)[n]);
                assert(b[i - s][n] == b[i - s].take(side1.len() as int)[n]);
                if is_prefix(b[i - s], a[j]) {
                    assert(b[i - s][n] == a[j].take(b[i - s].len() as int)[n]);
                }
            }
        }
    }
}

/// A letter of a window lies no more steps below the prefix than the
/// window has tokens.
pub proof fn lemma_codes_len(c: Seq<u64>, prefix: Seq<bool>)
    requires
        rising(c),
    ensures
        spec_codes(c, prefix).len() == c.len(),
        forall|i: int|
            0 <= i < c.len() ==> (#[trigger] spec_codes(c, prefix)[i]).len() < prefix.len()
                + c.len(),
    decreases c.len(),
{
    if c.len() > 1 {
        lemma_split(c);
        let s = spec_split(c);
        let a = spec_codes(c.take(s), prefix.push(false));
        let b = spec_codes(c.skip(s), prefix.push(true));
        lemma_codes_len(c.take(s), prefix.push(false));
        lemma_codes_len(c.skip(s), prefix.push(true));
        assert forall|i: int| 0 <= i < c.len() implies (#[trigger] spec_codes(c, prefix)[i]).len()
            < prefix.len() + c.len() by {
            if i < s {
                assert(spec_codes(c, prefix)[i] == a[i]);
            } else {
                assert(spec_codes(c, prefix)[i] == b[i - s]);
            }
        }
    }
}

/// The cumulative frequencies of frequencies above `0` can be those of a
/// window.
pub proof fn lemma_cumulative(freqs: Seq<u64>)
    requires
        freqs.len() >= 1,
        forall|i: int| 0 <= i < freqs.len() ==> #[trigger] freqs[i] >= 1,
        sum(freqs) <= u64::MAX,
    ensures
        rising(spec_cumulative(freqs)),
        forall|i: int|
            0 <= i < freqs.len() ==> #[trigger] spec_cumulative(freqs)[i] == sum(
                freqs.take(i + 1),
            ),
{
    let c = spec_cumulative(freqs);
    assert forall|i: int| 0 <= i < freqs.len() implies #[trigger] c[i] == sum(
        freqs.take(i + 1),
    ) && (i > 0 ==> c[i - 1] < c[i]) && c[i] >= 1 by {
        lemma_sum_take_le(freqs, i + 1);
        lemma_sum_nonnegative(freqs.take(i + 1));
        lemma_sum_take(freqs, i);
        lemma_sum_nonnegative(freqs.take(i));
        if i > 0 {
            lemma_sum_take_le(freqs, i);
        }
    }
    assert forall|i: int, j: int| 0 <= i < j < c.len() implies c[i] < c[j] by {
        lemma_rising_steps(c, i, j);
    }
}

/// Numbers that rise from each to the next rise from each to all that
/// follow.
proof fn lemma_rising_steps(c: Seq<u64>, i: int, j: int)
    requires
        forall|k: int| 0 < k < c.len() ==> c[k - 1] < #[trigger] c[k],
        0 <= i < j < c.len(),
    ensures
        c[i] < c[j],
    decreases j - i,
{
    if i + 1 < j {
        lemma_rising_steps(c, i, j - 1);
    }
}

/// As many letters are yet to come as tokens.
pub proof fn lemma_pending_len<T: Token>(stack: Seq<Frame<T>>)
    requires
        stack_ok(stack),
    ensures
        spec_pending(stack).len() == spec_pending_tokens(stack).len(),
    decreases stack.len(),
{
    if stack.len() > 0 {
        assert(stack_ok(stack.drop_last())) by {
            assert forall|i: int| 0 <= i < stack.drop_last().len() implies ((
            #[trigger] stack.drop_last()[i]) matches Frame::Left { residual }
                ==> residual.wf()) by {
                assert(stack.drop_last()[i] == stack[i]);
            }
        }
        lemma_pending_len(stack.drop_last());
        match stack.last() {
            Frame::Right => {},
            Frame::Left { residual } => {
                assert(stack[stack.len() - 1] == stack.last());
                lemma_codes(
                    residual.spec_values(),
                    spec_frame_bits(stack.drop_last()).push(true),
                );
            },
        }
    }
}

} // verus!
