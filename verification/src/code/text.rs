//! Packing a stream of letters into bytes, bit after bit, and parsing the
//! letters back out of the bytes.

use crate::code::alphabet::{
    buildable, has_prefix, lemma_valid_code_builds, prefix_free, valid_code, Alphabet, Node,
};
use crate::code::bits::{
    all_zero, bit_of, bits_of, bytes_of, is_prefix, lemma_bit_of_byte_at, lemma_bit_of_mask_test,
    lemma_bit_of_or, lemma_bit_of_shl, lemma_bit_of_shr, lemma_bit_of_zero,
    lemma_bits_of_bytes_of, lemma_byte_ext, lemma_bytes_of,
};
use crate::code::common::bit_hole_mask;
use crate::code::letter::Letter;
use crate::error::Error;
use crate::reader::Reader;
use vstd::prelude::*;

verus! {

/// The bits of each letter of `text`, in their order.
pub open spec fn text_views(text: Seq<&Letter>) -> Seq<Seq<bool>> {
    Seq::new(text.len(), |i: int| text[i]@)
}

/// The bits of all the letters of `text`, one letter after the other.
pub open spec fn concat(text: Seq<Seq<bool>>) -> Seq<bool>
    decreases text.len(),
{
    if text.len() == 0 {
        Seq::empty()
    } else {
        concat(text.drop_last()) + text.last()
    }
}

/// The bytes of a packed text: the bits of its letters with nothing in
/// between, the last byte filled up with `0` bits.
pub open spec fn spec_pack(text: Seq<Seq<bool>>) -> Seq<u8> {
    bytes_of(concat(text))
}

/// The letters of `letters` with the indices `text`, in the order of
/// `text`.
pub open spec fn chosen(letters: Seq<Seq<bool>>, text: Seq<int>) -> Seq<Seq<bool>> {
    Seq::new(text.len(), |k: int| letters[text[k]])
}

/// What the parser finds at the start of `rest`.
pub enum Step {
    /// The letter with this index in the alphabet.
    Letter(int),
    /// Nothing but padding: the text has ended.
    End,
    /// No letter, and not padding.
    Fail(Error),
}

/// Whether `letters[i]` is a letter that stands at the start of `rest`.
pub open spec fn stands_at(letters: Seq<Seq<bool>>, rest: Seq<bool>, i: int) -> bool {
    0 <= i < letters.len() && letters[i].len() > 0 && is_prefix(letters[i], rest)
}

/// What stands at the start of `rest`: a letter of `letters`; or only `0`
/// bits, which are padding; or the start of a letter that `rest` is too
/// short for; or bits that start no letter.
pub open spec fn spec_step(letters: Seq<Seq<bool>>, rest: Seq<bool>) -> Step {
    if exists|i: int| stands_at(letters, rest, i) {
        Step::Letter(choose|i: int| stands_at(letters, rest, i))
    } else if all_zero(rest) {
        Step::End
    } else if has_prefix(letters, rest) {
        Step::Fail(Error::IncompleteCodeword)
    } else {
        Step::Fail(Error::TrailingData)
    }
}

/// The letters that `bits` spell, by their indices in `letters`, up to the
/// end of the text or the first failure, and that failure if there is one.
pub open spec fn spec_parse(letters: Seq<Seq<bool>>, bits: Seq<bool>) -> (Seq<int>, Option<Error>)
    decreases bits.len(),
{
    match spec_step(letters, bits) {
        Step::Letter(i) => {
            if stands_at(letters, bits, i) {
                let (more, end) = spec_parse(letters, bits.skip(letters[i].len() as int));
                (seq![i] + more, end)
            } else {
                (Seq::empty(), None)
            }
        },
        Step::End => (Seq::empty(), None),
        Step::Fail(e) => (Seq::empty(), Some(e)),
    }
}

/// How parsing ends at bits at whose start no letter stands: without a
/// failure where the bits are padding, else with the failure that the
/// bits are.
pub open spec fn spec_end(letters: Seq<Seq<bool>>, tail: Seq<bool>) -> Option<Error> {
    match spec_step(letters, tail) {
        Step::Fail(e) => Some(e),
        _ => None,
    }
}

/// Whether `text` holds, one for one, the letters of `letters` with the
/// indices `idx`.
pub open spec fn spelled(text: Seq<&Letter>, letters: Seq<Seq<bool>>, idx: Seq<int>) -> bool {
    &&& text.len() == idx.len()
    &&& forall|k: int|
        0 <= k < text.len() ==> (#[trigger] text[k]).wf() && 0 <= idx[k] < letters.len()
            && text[k]@ == letters[idx[k]]
}

/// Write a packed stream of letters: their bits with nothing in between,
/// the last byte filled up with `0` bits.
///
/// Returns the number of bytes written: as many as it takes to hold all
/// the bits.
pub fn pack(letters: &[&Letter], w: &mut Vec<u8>) -> (res: Result<usize, Error>)
    requires
        forall|i: int| 0 <= i < letters@.len() ==> (#[trigger] letters@[i]).wf(),
    ensures
        final(w)@ == old(w)@ + spec_pack(text_views(letters@)),
        res == Ok::<usize, Error>(spec_pack(text_views(letters@)).len() as usize),
        spec_pack(text_views(letters@)).len() == (concat(text_views(letters@)).len() + 7) / 8,
{
    proof {
        lemma_bytes_of(concat(text_views(letters@)));
    }
    let ghost text = text_views(letters@);
    let ghost start = w@;
    let ghost done: Seq<bool> = Seq::empty();
    let mut bytes_written: usize = 0;
    let mut byte_buffer_len: u64 = 0;
    let mut byte_buffer: u8 = 0;
    proof {
        assert(w@.skip(start.len() as int) =~= Seq::<u8>::empty());
        assert(text.take(0) =~= Seq::<Seq<bool>>::empty());
        assert forall|k: int| 0 <= k < 8 implies !bit_of(0u8, k) by {
            lemma_bit_of_zero(k);
        }
    }
    let mut i: usize = 0;
    while i < letters.len()
        invariant
            forall|i: int| 0 <= i < letters@.len() ==> (#[trigger] letters@[i]).wf(),
            text == text_views(letters@),
            i <= letters@.len(),
            done == concat(text.take(i as int)),
            w@.len() == start.len() + bytes_written,
            w@.take(start.len() as int) == start,
            packed_state(
                done,
                w@.skip(start.len() as int),
                byte_buffer,
                byte_buffer_len as int,
            ),
        decreases letters@.len() - i,
    {
        let l = letters[i];
        let ghost base = done;
        let n = l.bit_count();
        let data = l.data();
        let mut remaining_bit_count = n;
        proof {
            l.lemma_bits();
            assert(l@.take(0) =~= Seq::<bool>::empty());
            assert(base + Seq::<bool>::empty() =~= base);
        }
        let mut j: usize = 0;
        while j < data.len()
            invariant
                l.wf(),
                n == l@.len(),
                data@ == l.spec_data(),
                data@.len() == (n + 7) / 8,
                forall|j: int, k: int|
                    0 <= j < data@.len() && 0 <= k < 8 ==> #[trigger] bit_of(data@[j], k) == (8
                        * j + k < n && l@[8 * j + k]),
                j <= data@.len(),
                j < data@.len() ==> remaining_bit_count == n - 8 * j,
                j < data@.len() ==> done == base + l@.take(8 * j),
                j == data@.len() ==> done == base + l@,
                w@.len() == start.len() + bytes_written,
                w@.take(start.len() as int) == start,
                packed_state(
                    done,
                    w@.skip(start.len() as int),
                    byte_buffer,
                    byte_buffer_len as int,
                ),
            decreases data@.len() - j,
        {
            let b = data[j];
            let ghost out = w@.skip(start.len() as int);
            let ghost upto = if 8 * j + 8 <= n {
                8 * j + 8
            } else {
                n as int
            };
            let ghost chunk = l@.subrange(8 * j, upto);
            proof {
                assert forall|k: int| 0 <= k < 8 implies #[trigger] bit_of(b, k) == (k
                    < chunk.len() && chunk[k]) by {
                    assert(bit_of(data@[j as int], k) == (8 * j + k < n && l@[8 * j + k]));
                }
                assert(done + chunk =~= base + l@.take(upto));
                if j + 1 == data@.len() {
                    assert(l@.take(upto) =~= l@);
                }
            }
            let ghost buffer0 = byte_buffer;
            let ghost len0 = byte_buffer_len as int;
            byte_buffer = byte_buffer | (b >> (byte_buffer_len as u8));
            if remaining_bit_count >= 8 - byte_buffer_len {
                proof {
                    lemma_pack_emit(done, out, buffer0, len0, b, chunk);
                    assert(w@.push(byte_buffer).skip(start.len() as int) =~= out.push(byte_buffer));
                    assert(w@.push(byte_buffer).take(start.len() as int) =~= w@.take(
                        start.len() as int,
                    ));
                }
                w.push(byte_buffer);
                assert(w.len() == w@.len());
                bytes_written = bytes_written + 1;
                byte_buffer = safe_overflow_leftshift(b, 8 - byte_buffer_len);
                if remaining_bit_count > 8 {
                    remaining_bit_count = remaining_bit_count - 8;
                } else {
                    byte_buffer_len = (byte_buffer_len + remaining_bit_count) % 8;
                    remaining_bit_count = 0;
                }
            } else {
                proof {
                    lemma_pack_keep(done, out, buffer0, len0, b, chunk);
                }
                byte_buffer_len = byte_buffer_len + remaining_bit_count;
            }
            proof {
                done = done + chunk;
            }
            j = j + 1;
        }
        proof {
            lemma_concat_push(text.take(i as int), l@);
            assert(text.take(i + 1) =~= text.take(i as int).push(l@));
        }
        i = i + 1;
    }
    proof {
        assert(text.take(i as int) =~= text);
        lemma_pack_finish(done, w@.skip(start.len() as int), byte_buffer, byte_buffer_len as int);
    }
    let ghost out = w@.skip(start.len() as int);
    if byte_buffer_len > 0 {
        proof {
            assert(w@.push(byte_buffer).skip(start.len() as int) =~= out.push(byte_buffer));
            assert(w@.push(byte_buffer).take(start.len() as int) =~= w@.take(start.len() as int));
        }
        w.push(byte_buffer);
        assert(w.len() == w@.len());
        bytes_written = bytes_written + 1;
    }
    proof {
        assert(w@ =~= w@.take(start.len() as int) + w@.skip(start.len() as int));
    }
    Ok(bytes_written)
}

/// The last bit of a byte.
const RIGHT_MASK_7: u8 = 0b1;

/// The last two bits of a byte.
const RIGHT_MASK_6: u8 = 0b11;

/// The last three bits of a byte.
const RIGHT_MASK_5: u8 = 0b111;

/// The last four bits of a byte.
const RIGHT_MASK_4: u8 = 0b1111;

/// The last five bits of a byte.
const RIGHT_MASK_3: u8 = 0b11111;

/// The last six bits of a byte.
const RIGHT_MASK_2: u8 = 0b111111;

/// The last seven bits of a byte.
const RIGHT_MASK_1: u8 = 0b1111111;

/// What is left of `b` when its first `s` bits are shifted out. Shifting
/// out all eight bits leaves `0`.
pub open spec fn spec_leftshift(b: u8, s: int) -> u8 {
    if s >= 8 {
        0u8
    } else {
        b << (s as u8)
    }
}

/// Shifts the first `s` bits out of `b`.
fn safe_overflow_leftshift(b: u8, s: u64) -> (r: u8)
    requires
        s <= 8,
    ensures
        r == spec_leftshift(b, s as int),
{
    if s == 8 {
        return 0;
    }
    let masked = match s {
        0 => b,
        1 => b & RIGHT_MASK_1,
        2 => b & RIGHT_MASK_2,
        3 => b & RIGHT_MASK_3,
        4 => b & RIGHT_MASK_4,
        5 => b & RIGHT_MASK_5,
        6 => b & RIGHT_MASK_6,
        _ => b & RIGHT_MASK_7,
    };
    let sh = s as u8;
    assert(masked << sh == b << sh) by (bit_vector)
        requires
            sh < 8,
            sh == 0 ==> masked == b,
            sh == 1 ==> masked == b & 0b1111111,
            sh == 2 ==> masked == b & 0b111111,
            sh == 3 ==> masked == b & 0b11111,
            sh == 4 ==> masked == b & 0b1111,
            sh == 5 ==> masked == b & 0b111,
            sh == 6 ==> masked == b & 0b11,
            sh == 7 ==> masked == b & 0b1,
    ;
    masked << sh
}

/// Read previously pack()ed text given the corresponding Alphabet.
///
/// The parser that is returned gives the letters one by one.
pub fn parse<'a>(a: &'a Alphabet, r: Reader<'a>) -> (res: Result<TextParser<'a>, Error>)
    requires
        a.wf(),
        r.wf(),
    ensures
        res.is_ok(),
        res.unwrap().wf(),
        res.unwrap().alphabet() == a@,
        res.unwrap().pending() == Some(bits_of(r.remaining())),
{
    Ok(TextParser::new(a, r))
}

/// Parses letters out of bytes, one at a time.
pub struct TextParser<'a> {
    root: Node<'a>,
    state: TextParserState<'a>,
    letters: Ghost<Seq<Seq<bool>>>,
}

impl<'a> TextParser<'a> {
    /// The parser holds the trie of its alphabet.
    pub closed spec fn wf(&self) -> bool {
        &&& self.state.wf()
        &&& buildable(self.letters@)
        &&& self.root.represents(self.letters@, Seq::empty())
    }

    /// The bits of the letters of the alphabet that the parser reads by.
    pub closed spec fn alphabet(&self) -> Seq<Seq<bool>> {
        self.letters@
    }

    /// The bits that the parser has yet to read, or `None` when it has
    /// come to the end of the text or has failed.
    pub closed spec fn pending(&self) -> Option<Seq<bool>> {
        if self.state.eof {
            None
        } else {
            Some(self.state.remaining_bits())
        }
    }

    /// A parser of the bytes that `r` has yet to give, by the alphabet `a`.
    pub fn new(a: &'a Alphabet, r: Reader<'a>) -> (parser: Self)
        requires
            a.wf(),
            r.wf(),
        ensures
            parser.wf(),
            parser.alphabet() == a@,
            parser.pending() == Some(bits_of(r.remaining())),
    {
        proof {
            a.lemma_wf();
            lemma_valid_code_builds(a@);
        }
        let root = match a.tree() {
            Ok(root) => root,
            Err(_) => Node::Internal { zero: None, one: None },
        };
        let parser = TextParser {
            root,
            state: TextParserState { r, current_byte: 0, current_bit_offset: 8, eof: false },
            letters: Ghost(a@),
        };
        proof {
            let bytes = r.source();
            let c = r.consumed() as int;
            assert forall|i: int| 0 <= i < 8 * (bytes.len() - c) implies bits_of(bytes).skip(
                8 * c,
            )[i] == bits_of(r.remaining())[i] by {
                assert((8 * c + i) / 8 == c + i / 8);
                assert((8 * c + i) % 8 == i % 8);
            }
            assert(parser.state.remaining_bits() =~= bits_of(r.remaining()));
        }
        parser
    }

    /// Parses the next letter.
    ///
    /// Gives `None` at the end of the text, and from then on; after a
    /// failure too.
    pub fn next_letter(&mut self) -> (res: Option<Result<&'a Letter, Error>>)
        requires
            old(self).wf(),
        ensures
            final(self).wf(),
            final(self).alphabet() == old(self).alphabet(),
            match old(self).pending() {
                None => res.is_none() && final(self).pending().is_none(),
                Some(rest) => match spec_step(old(self).alphabet(), rest) {
                    Step::Letter(i) => {
                        &&& stands_at(old(self).alphabet(), rest, i)
                        &&& final(self).pending() == Some(
                            rest.skip(old(self).alphabet()[i].len() as int),
                        )
                        &&& res matches Some(Ok(l)) && l.wf() && l@ == old(self).alphabet()[i]
                    },
                    Step::End => res.is_none() && final(self).pending().is_none(),
                    Step::Fail(e) => {
                        &&& res == Some(Err::<&Letter, Error>(e))
                        &&& final(self).pending().is_none()
                    },
                },
            },
    {
        if self.state.eof {
            return None;
        }
        proof {
            assert(Seq::<bool>::empty() + self.state.remaining_bits()
                =~= self.state.remaining_bits());
        }
        Self::parse_one(
            &mut self.state,
            &self.root,
            true,
            Ghost(self.letters@),
            Ghost(Seq::empty()),
        )
    }

    /// Parses all the letters that are left.
    ///
    /// Gives the letters up to the end of the text, or the first failure.
    pub fn collect(self) -> (res: Result<Vec<&'a Letter>, Error>)
        requires
            self.wf(),
        ensures
            match self.pending() {
                None => res.is_ok() && res.unwrap()@.len() == 0,
                Some(rest) => match spec_parse(self.alphabet(), rest).1 {
                    None => res.is_ok() && spelled(
                        res.unwrap()@,
                        self.alphabet(),
                        spec_parse(self.alphabet(), rest).0,
                    ),
                    Some(e) => res.is_err() && res.unwrap_err() == e,
                },
            },
    {
        let mut parser = self;
        let mut out: Vec<&'a Letter> = Vec::new();
        let ghost letters = self.alphabet();
        let ghost mut idx: Seq<int> = Seq::empty();
        loop
            invariant
                parser.wf(),
                parser.alphabet() == letters,
                letters == self.alphabet(),
                spelled(out@, letters, idx),
                match self.pending() {
                    None => parser.pending().is_none() && idx.len() == 0,
                    Some(rest) => match parser.pending() {
                        None => spec_parse(letters, rest) == (idx, None::<Error>),
                        Some(now) => spec_parse(letters, rest) == (
                            idx + spec_parse(letters, now).0,
                            spec_parse(letters, now).1,
                        ),
                    },
                },
            decreases
                    (match parser.pending() {
                        None => 0,
                        Some(now) => now.len() + 1,
                    }),
        {
            let ghost before = parser.pending();
            match parser.next_letter() {
                None => {
                    proof {
                        if let Some(now) = before {
                            assert(idx + Seq::<int>::empty() =~= idx);
                        }
                    }
                    return Ok(out);
                },
                Some(Err(e)) => {
                    return Err(e);
                },
                Some(Ok(l)) => {
                    let ghost out0 = out@;
                    let ghost idx0 = idx;
                    out.push(l);
                    proof {
                        let now = before.unwrap();
                        let i = spec_step(letters, now)->Letter_0;
                        let after = now.skip(letters[i].len() as int);
                        assert(idx + (seq![i] + spec_parse(letters, after).0) =~= idx.push(i)
                            + spec_parse(letters, after).0);
                        idx = idx.push(i);
                        assert forall|k: int| 0 <= k < out@.len() implies (#[trigger] out@[k]).wf()
                            && 0 <= idx[k] < letters.len() && out@[k]@ == letters[idx[k]] by {
                            if k < out0.len() {
                                assert(out@[k] == out0[k]);
                                assert(idx[k] == idx0[k]);
                            }
                        }
                    }
                },
            }
        }
    }

    /// Reads bits along the branches of the trie from `node` on, until a
    /// leaf gives a letter, or the bits end, or the trie has no branch for
    /// a bit. `trivial_tail` tells whether all the bits read on the way to
    /// `node` are `0`.
    fn parse_one<'b>(
        state: &'b mut TextParserState<'a>,
        node: &'b Node<'a>,
        trivial_tail: bool,
        Ghost(letters): Ghost<Seq<Seq<bool>>>,
        Ghost(p): Ghost<Seq<bool>>,
    ) -> (res: Option<Result<&'a Letter, Error>>)
        requires
            old(state).wf(),
            !old(state).eof,
            buildable(letters),
            node.represents(letters, p),
            p.len() == 0 || has_prefix(letters, p),
            trivial_tail == all_zero(p),
        ensures
            final(state).wf(),
            final(state).r.source() == old(state).r.source(),
            match spec_step(letters, p + old(state).remaining_bits()) {
                Step::Letter(i) => {
                    &&& stands_at(letters, p + old(state).remaining_bits(), i)
                    &&& !final(state).eof
                    &&& final(state).remaining_bits() == (p + old(state).remaining_bits()).skip(
                        letters[i].len() as int,
                    )
                    &&& res matches Some(Ok(l)) && l.wf() && l@ == letters[i]
                },
                Step::End => res.is_none() && final(state).eof,
                Step::Fail(e) => res == Some(Err::<&Letter, Error>(e)) && final(state).eof,
            },
        decreases node,
    {
        let ghost rem = state.remaining_bits();
        match node {
            Node::Leaf { letter } => {
                proof {
                    lemma_step_leaf(letters, p, rem);
                }
                Some(Ok(*letter))
            },
            Node::Internal { zero, one } => {
                let b = match state.next_bit() {
                    None => {
                        state.eof = true;
                        proof {
                            assert(p + rem =~= p);
                            lemma_step_eof(letters, p);
                        }
                        if trivial_tail {
                            return None;
                        } else {
                            return Some(Err(Error::IncompleteCodeword));
                        }
                    },
                    Some(b) => b,
                };
                let ghost q = p.push(b);
                let ghost rem1 = state.remaining_bits();
                proof {
                    assert(p + rem =~= q + rem1);
                    if trivial_tail && !b {
                        assert forall|i: int| 0 <= i < q.len() implies !q[i] by {
                            if i < p.len() {
                                assert(q[i] == p[i]);
                            }
                        }
                    } else if b {
                        assert(q[p.len() as int]);
                    } else {
                        let i = choose|i: int| 0 <= i < p.len() && p[i];
                        assert(q[i]);
                    }
                }
                let next = if b {
                    one
                } else {
                    zero
                };
                match next {
                    None => {
                        state.eof = true;
                        proof {
                            lemma_step_miss(letters, p, b, rem1);
                        }
                        proof {
                            if !all_zero(q) {
                                let i = choose|i: int| 0 <= i < q.len() && q[i];
                                assert((q + rem1)[i]);
                            }
                        }
                        if trivial_tail && !b {
                            let mut scanning = true;
                            let ghost mut seen = q;
                            while scanning
                                invariant
                                    state.wf(),
                                    state.eof,
                                    state.r.source() == old(state).r.source(),
                                    rem == old(state).remaining_bits(),
                                    p + rem == q + rem1,
                                    all_zero(q + rem1) ==> spec_step(letters, q + rem1)
                                        == Step::End,
                                    !all_zero(q + rem1) ==> spec_step(letters, q + rem1)
                                        == Step::Fail(Error::TrailingData),
                                    scanning ==> all_zero(seen) && q + rem1 == seen
                                        + state.remaining_bits(),
                                    !scanning ==> !all_zero(q + rem1),
                                decreases state.remaining_bits().len() + if scanning {
                                    1int
                                } else {
                                    0int
                                },
                            {
                                let ghost rem2 = state.remaining_bits();
                                match state.next_bit() {
                                    None => {
                                        proof {
                                            assert(q + rem1 =~= seen);
                                        }
                                        return None;
                                    },
                                    Some(true) => {
                                        proof {
                                            assert((q + rem1)[seen.len() as int] == rem2[0]);
                                        }
                                        // A bit that is set, in what should be padding.
                                        scanning = false;
                                    },
                                    Some(false) => {
                                        proof {
                                            assert(seen + rem2 =~= seen.push(false)
                                                + state.remaining_bits());
                                            seen = seen.push(false);
                                        }
                                    },
                                }
                            }
                        }
                        Some(Err(Error::TrailingData))
                    },
                    Some(next) => {
                        Self::parse_one(state, &*next, trivial_tail && !b, Ghost(letters), Ghost(q))
                    },
                }
            },
        }
    }
}

/// The bits not yet read, the byte in hand, and whether parsing is over.
struct TextParserState<'a> {
    r: Reader<'a>,
    current_byte: u8,
    current_bit_offset: usize,
    eof: bool,
}

impl<'a> TextParserState<'a> {
    /// The byte in hand is the last byte read, as far as bits of it are
    /// left.
    spec fn wf(&self) -> bool {
        &&& self.r.wf()
        &&& self.current_bit_offset <= 8
        &&& self.current_bit_offset < 8 ==> self.r.consumed() >= 1 && self.current_byte
            == self.r.source()[self.r.consumed() - 1]
    }

    /// The index, among the bits of all the bytes, of the next bit.
    spec fn bit_pos(&self) -> int {
        8 * self.r.consumed() + self.current_bit_offset - 8
    }

    /// The bits not yet read.
    spec fn remaining_bits(&self) -> Seq<bool> {
        bits_of(self.r.source()).skip(self.bit_pos())
    }

    /// Reads one bit, or `None` at the end of the bytes.
    fn next_bit(&mut self) -> (b: Option<bool>)
        requires
            old(self).wf(),
        ensures
            final(self).wf(),
            final(self).r.source() == old(self).r.source(),
            final(self).eof == old(self).eof,
            old(self).remaining_bits().len() == 0 ==> b.is_none() && final(self).remaining_bits()
                == old(self).remaining_bits(),
            old(self).remaining_bits().len() > 0 ==> b == Some(old(self).remaining_bits()[0])
                && final(self).remaining_bits() == old(self).remaining_bits().skip(1),
    {
        if self.current_bit_offset == 8 {
            match self.r.read_byte() {
                None => {
                    return None;
                },
                Some(b) => {
                    self.current_byte = b;
                },
            }
            self.current_bit_offset = 0;
        }
        proof {
            lemma_bit_of_mask_test(self.current_byte, self.current_bit_offset as int);
            let pos = old(self).bit_pos();
            assert(pos == 8 * (self.r.consumed() - 1) + self.current_bit_offset);
            assert(pos / 8 == self.r.consumed() - 1 && pos % 8 == self.current_bit_offset);
        }
        let b = self.current_byte & bit_hole_mask(self.current_bit_offset) != 0;
        self.current_bit_offset = self.current_bit_offset + 1;
        proof {
            assert(self.remaining_bits() =~= old(self).remaining_bits().skip(1));
        }
        Some(b)
    }
}

/// Packing a text and parsing the bytes gives the text back: for every
/// valid code and every sequence of its letters, the bytes that hold the
/// packed letters parse into just those letters, and the parse ends
/// without a failure.
pub proof fn lemma_pack_parse_roundtrip(letters: Seq<Seq<bool>>, text: Seq<int>)
    requires
        valid_code(letters),
        forall|k: int| 0 <= k < text.len() ==> 0 <= #[trigger] text[k] < letters.len(),
    ensures
        spec_parse(letters, bits_of(spec_pack(chosen(letters, text)))) == (text, None::<Error>),
{
    let bits = concat(chosen(letters, text));
    let padded = bits_of(bytes_of(bits));
    lemma_bits_of_bytes_of(bits);
    let tail = padded.skip(bits.len() as int);
    assert(padded =~= bits + tail);
    assert forall|i: int| 0 <= i < tail.len() implies !tail[i] by {
        assert(tail[i] == padded[bits.len() + i]);
    }
    lemma_parse_concat(letters, text, tail);
}

/// Bits behind the letters of a text that are all `0` are padding:
/// parsing gives the letters of the text, no letter more, and no failure.
pub proof fn lemma_parse_concat(letters: Seq<Seq<bool>>, text: Seq<int>, tail: Seq<bool>)
    requires
        valid_code(letters),
        forall|k: int| 0 <= k < text.len() ==> 0 <= #[trigger] text[k] < letters.len(),
        all_zero(tail),
    ensures
        spec_parse(letters, concat(chosen(letters, text)) + tail) == (text, None::<Error>),
{
    lemma_padding_is_no_letter(letters, tail);
    lemma_parse_tail(letters, text, tail);
}

/// Bits behind the letters of a text that are not all `0`, and of which
/// no start is a letter, are refused. Where they are the start of a
/// letter, the letter is cut short, and parsing gives the letters of the
/// text and fails with [`Error::IncompleteCodeword`]. Else it gives the
/// letters of the text and fails with [`Error::TrailingData`].
pub proof fn lemma_stray_bits(letters: Seq<Seq<bool>>, text: Seq<int>, tail: Seq<bool>)
    requires
        valid_code(letters),
        forall|k: int| 0 <= k < text.len() ==> 0 <= #[trigger] text[k] < letters.len(),
        !all_zero(tail),
        forall|i: int| !stands_at(letters, tail, i),
    ensures
        has_prefix(letters, tail) ==> spec_parse(letters, concat(chosen(letters, text)) + tail)
            == (text, Some(Error::IncompleteCodeword)),
        !has_prefix(letters, tail) ==> spec_parse(letters, concat(chosen(letters, text)) + tail)
            == (text, Some(Error::TrailingData)),
{
    lemma_parse_tail(letters, text, tail);
}

/// Parsing takes the letters of a valid code back out of their bits in a
/// row, up to bits at whose start no letter stands, and ends as these
/// bits make it end.
pub proof fn lemma_parse_tail(letters: Seq<Seq<bool>>, text: Seq<int>, tail: Seq<bool>)
    requires
        valid_code(letters),
        forall|k: int| 0 <= k < text.len() ==> 0 <= #[trigger] text[k] < letters.len(),
        forall|i: int| !stands_at(letters, tail, i),
    ensures
        spec_parse(letters, concat(chosen(letters, text)) + tail) == (
            text,
            spec_end(letters, tail),
        ),
    decreases text.len(),
{
    lemma_valid_code_builds(letters);
    if text.len() == 0 {
        assert(concat(chosen(letters, text)) + tail =~= tail);
        assert(text =~= Seq::<int>::empty());
    } else {
        let first = text[0];
        let l = letters[first];
        let later = text.skip(1);
        assert(chosen(letters, text) =~= seq![l] + chosen(letters, later));
        lemma_concat_front(l, chosen(letters, later));
        let rem = concat(chosen(letters, later)) + tail;
        let bits = concat(chosen(letters, text)) + tail;
        assert(bits =~= l + rem);
        lemma_step_leaf(letters, l, rem);
        let i = spec_step(letters, bits)->Letter_0;
        if i != first {
            assert(!is_prefix(letters[i], letters[first]));
            assert(letters[i] =~= letters[first].take(letters[i].len() as int));
        }
        lemma_parse_tail(letters, later, tail);
        assert(seq![first] + later =~= text);
    }
}

/// No letter of a valid code stands at the start of bits that are all
/// `0`.
pub proof fn lemma_padding_is_no_letter(letters: Seq<Seq<bool>>, tail: Seq<bool>)
    requires
        valid_code(letters),
        all_zero(tail),
    ensures
        forall|i: int| !stands_at(letters, tail, i),
{
    assert forall|i: int| !stands_at(letters, tail, i) by {
        if stands_at(letters, tail, i) {
            assert(!all_zero(letters[i]));
            let k = choose|k: int| 0 <= k < letters[i].len() && letters[i][k];
            assert(tail.take(letters[i].len() as int)[k] == tail[k]);
        }
    }
}

/// The bits of a text with one more letter are the bits of the text and
/// then those of the letter.
pub proof fn lemma_concat_push(text: Seq<Seq<bool>>, l: Seq<bool>)
    ensures
        concat(text.push(l)) == concat(text) + l,
{
    assert(text.push(l).drop_last() =~= text);
}

/// The bits of a text with one more letter in front are the bits of the
/// letter and then those of the text.
pub proof fn lemma_concat_front(l: Seq<bool>, text: Seq<Seq<bool>>)
    ensures
        concat(seq![l] + text) == l + concat(text),
    decreases text.len(),
{
    let whole = seq![l] + text;
    if text.len() == 0 {
        assert(whole.drop_last() =~= Seq::<Seq<bool>>::empty());
        assert(concat(whole.drop_last()) =~= Seq::<bool>::empty());
        assert(concat(whole) =~= l + concat(text));
    } else {
        assert(whole.drop_last() =~= seq![l] + text.drop_last());
        lemma_concat_front(l, text.drop_last());
        assert(concat(whole) =~= l + concat(text));
    }
}

/// Bit `k` of what is left of `b` when its first `s` bits are shifted
/// out is bit `k + s` of `b`.
proof fn lemma_bit_of_leftshift(b: u8, s: int, k: int)
    requires
        0 <= k < 8,
        0 <= s <= 8,
    ensures
        bit_of(spec_leftshift(b, s), k) == (k + s < 8 && bit_of(b, k + s)),
{
    if s == 8 {
        lemma_bit_of_zero(k);
    } else {
        lemma_bit_of_shl(b, s, k);
    }
}

/// What the packer holds when it has taken the bits `done`: `out` holds
/// each whole byte of them, and `buffer` the `len` bits after those, in
/// front of `0` bits.
pub open spec fn packed_state(done: Seq<bool>, out: Seq<u8>, buffer: u8, len: int) -> bool {
    &&& 0 <= len < 8
    &&& done.len() == 8 * out.len() + len
    &&& forall|j: int, k: int|
        0 <= j < out.len() && 0 <= k < 8 ==> #[trigger] bit_of(out[j], k) == done[8 * j + k]
    &&& forall|k: int|
        0 <= k < 8 ==> #[trigger] bit_of(buffer, k) == (k < len && done[8 * out.len() + k])
}

/// Taking a byte `b` that holds the bits `chunk`, where they fill the
/// buffer up: the full byte goes out, the rest of `b` stays.
proof fn lemma_pack_emit(
    done: Seq<bool>,
    out: Seq<u8>,
    buffer: u8,
    len: int,
    b: u8,
    chunk: Seq<bool>,
)
    requires
        packed_state(done, out, buffer, len),
        chunk.len() <= 8,
        len + chunk.len() >= 8,
        forall|k: int| 0 <= k < 8 ==> #[trigger] bit_of(b, k) == (k < chunk.len() && chunk[k]),
    ensures
        packed_state(
            done + chunk,
            out.push(buffer | (b >> (len as u8))),
            spec_leftshift(b, 8 - len),
            len + chunk.len() - 8,
        ),
{
    let full = buffer | (b >> (len as u8));
    let rest = spec_leftshift(b, 8 - len);
    let done2 = done + chunk;
    let out2 = out.push(full);
    let len2 = len + chunk.len() - 8;
    assert forall|j: int, k: int| 0 <= j < out2.len() && 0 <= k < 8 implies #[trigger] bit_of(
        out2[j],
        k,
    ) == done2[8 * j + k] by {
        if j < out.len() {
            assert(out2[j] == out[j]);
            assert(bit_of(out[j], k) == done[8 * j + k]);
        } else {
            lemma_bit_of_or(buffer, b >> (len as u8), k);
            lemma_bit_of_shr(b, len, k);
            if k >= len {
                assert(bit_of(b, k - len) == (k - len < chunk.len() && chunk[k - len]));
            }
        }
    }
    assert forall|k: int| 0 <= k < 8 implies #[trigger] bit_of(rest, k) == (k < len2 && done2[8
        * out2.len() + k]) by {
        lemma_bit_of_leftshift(b, 8 - len, k);
        if k + 8 - len < 8 {
            assert(bit_of(b, k + 8 - len) == (k + 8 - len < chunk.len() && chunk[k + 8 - len]));
        }
    }
}

/// Taking a byte `b` that holds the bits `chunk`, where they do not fill
/// the buffer up: they join the buffer.
proof fn lemma_pack_keep(
    done: Seq<bool>,
    out: Seq<u8>,
    buffer: u8,
    len: int,
    b: u8,
    chunk: Seq<bool>,
)
    requires
        packed_state(done, out, buffer, len),
        len + chunk.len() < 8,
        forall|k: int| 0 <= k < 8 ==> #[trigger] bit_of(b, k) == (k < chunk.len() && chunk[k]),
    ensures
        packed_state(done + chunk, out, buffer | (b >> (len as u8)), len + chunk.len()),
{
    let buffer2 = buffer | (b >> (len as u8));
    let done2 = done + chunk;
    assert forall|j: int, k: int| 0 <= j < out.len() && 0 <= k < 8 implies #[trigger] bit_of(
        out[j],
        k,
    ) == done2[8 * j + k] by {
        assert(bit_of(out[j], k) == done[8 * j + k]);
    }
    assert forall|k: int| 0 <= k < 8 implies #[trigger] bit_of(buffer2, k) == (k < len
        + chunk.len() && done2[8 * out.len() + k]) by {
        lemma_bit_of_or(buffer, b >> (len as u8), k);
        lemma_bit_of_shr(b, len, k);
        if k >= len {
            assert(bit_of(b, k - len) == (k - len < chunk.len() && chunk[k - len]));
        }
    }
}

/// At the end, the bytes that went out, and the buffer after them if it
/// holds a bit, are the bytes that carry the bits taken.
proof fn lemma_pack_finish(done: Seq<bool>, out: Seq<u8>, buffer: u8, len: int)
    requires
        packed_state(done, out, buffer, len),
    ensures
        len == 0 ==> out == bytes_of(done),
        len > 0 ==> out.push(buffer) == bytes_of(done),
{
    let all = if len == 0 {
        out
    } else {
        out.push(buffer)
    };
    lemma_bytes_of(done);
    assert forall|j: int| 0 <= j < all.len() implies all[j] == bytes_of(done)[j] by {
        assert forall|k: int| 0 <= k < 8 implies bit_of(all[j], k) == bit_of(
            bytes_of(done)[j],
            k,
        ) by {
            lemma_bit_of_byte_at(done, j, k);
            if j < out.len() {
                assert(all[j] == out[j]);
                assert(bit_of(out[j], k) == done[8 * j + k]);
            }
        }
        lemma_byte_ext(all[j], bytes_of(done)[j]);
    }
    assert(all =~= bytes_of(done));
}

/// Two starts of one sequence: the shorter is a start of the longer.
pub proof fn lemma_prefixes_compare(a: Seq<bool>, b: Seq<bool>, s: Seq<bool>)
    requires
        is_prefix(a, s),
        is_prefix(b, s),
        a.len() <= b.len(),
    ensures
        is_prefix(a, b),
{
    assert(a =~= b.take(a.len() as int));
}

/// A start of a start is a start.
pub proof fn lemma_prefix_trans(a: Seq<bool>, b: Seq<bool>, c: Seq<bool>)
    requires
        is_prefix(a, b),
        is_prefix(b, c),
    ensures
        is_prefix(a, c),
{
    assert(a =~= c.take(a.len() as int));
}

/// On a path of the trie, no letter ends before the path does.
proof fn lemma_no_short_letter(letters: Seq<Seq<bool>>, p: Seq<bool>, i: int)
    requires
        prefix_free(letters),
        has_prefix(letters, p),
        0 <= i < letters.len(),
        is_prefix(letters[i], p),
    ensures
        letters[i] == p,
{
    let j = choose|j: int| 0 <= j < letters.len() && is_prefix(p, #[trigger] letters[j]);
    lemma_prefix_trans(letters[i], p, letters[j]);
    if i != j {
        assert(!is_prefix(letters[i], letters[j]));
    }
    assert(letters[i] =~= p);
}

/// Where the path read so far ends in a leaf, the letter of the leaf is
/// what stands at the start of the bits.
proof fn lemma_step_leaf(letters: Seq<Seq<bool>>, p: Seq<bool>, rem: Seq<bool>)
    requires
        buildable(letters),
        letters.contains(p),
    ensures
        (p + rem).skip(p.len() as int) == rem,
        spec_step(letters, p + rem) matches Step::Letter(i) && stands_at(letters, p + rem, i)
            && letters[i] == p,
{
    let rest = p + rem;
    let i0 = choose|i: int| 0 <= i < letters.len() && letters[i] == p;
    assert(is_prefix(p, rest)) by {
        assert(p =~= rest.take(p.len() as int));
    }
    assert(stands_at(letters, rest, i0));
    let i = choose|i: int| stands_at(letters, rest, i);
    if letters[i].len() <= p.len() {
        lemma_prefixes_compare(letters[i], p, rest);
    } else {
        lemma_prefixes_compare(p, letters[i], rest);
    }
    if i != i0 {
        assert(!is_prefix(letters[i], letters[i0]));
        assert(!is_prefix(letters[i0], letters[i]));
    }
    assert(rest.skip(p.len() as int) =~= rem);
}

/// Where the bits end at an inner node of the trie, they were padding if
/// all of them are `0`, and else a letter cut short.
proof fn lemma_step_eof(letters: Seq<Seq<bool>>, p: Seq<bool>)
    requires
        buildable(letters),
        !letters.contains(p),
        p.len() == 0 || has_prefix(letters, p),
    ensures
        all_zero(p) ==> spec_step(letters, p) == Step::End,
        !all_zero(p) ==> spec_step(letters, p) == Step::Fail(Error::IncompleteCodeword),
{
    assert forall|i: int| !stands_at(letters, p, i) by {
        if stands_at(letters, p, i) {
            lemma_no_short_letter(letters, p, i);
        }
    }
}

/// Where the trie has no child for the next bit, the bits are padding if
/// all of them are `0`, and else belong to no letter.
proof fn lemma_step_miss(letters: Seq<Seq<bool>>, p: Seq<bool>, b: bool, rem: Seq<bool>)
    requires
        buildable(letters),
        !letters.contains(p),
        p.len() == 0 || has_prefix(letters, p),
        !has_prefix(letters, p.push(b)),
    ensures
        all_zero(p.push(b) + rem) ==> spec_step(letters, p.push(b) + rem) == Step::End,
        !all_zero(p.push(b) + rem) ==> spec_step(letters, p.push(b) + rem) == Step::Fail(
            Error::TrailingData,
        ),
{
    let q = p.push(b);
    let rest = q + rem;
    assert(is_prefix(q, rest)) by {
        assert(q =~= rest.take(q.len() as int));
    }
    assert(is_prefix(p, q)) by {
        assert(p =~= q.take(p.len() as int));
    }
    lemma_prefix_trans(p, q, rest);
    assert forall|i: int| !stands_at(letters, rest, i) by {
        if stands_at(letters, rest, i) {
            if letters[i].len() <= p.len() {
                lemma_prefixes_compare(letters[i], p, rest);
                lemma_no_short_letter(letters, p, i);
            } else {
                lemma_prefixes_compare(q, letters[i], rest);
            }
        }
    }
    if has_prefix(letters, rest) {
        let j = choose|j: int| 0 <= j < letters.len() && is_prefix(rest, #[trigger] letters[j]);
        lemma_prefix_trans(q, rest, letters[j]);
    }
}

} // verus!
