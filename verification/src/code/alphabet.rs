//! The ordered set of the letters of one prefix code, and its trie.

use crate::code::bits::{all_zero, bits_of, bytes_of, is_prefix, lemma_bits_of_bytes_of};
use crate::code::common::{
    lemma_u64_roundtrip, pack_u64, spec_pack_u64, spec_unpack_u64, unpack_u64,
};
use crate::code::letter::{
    spec_packed_letter, spec_packed_letter_len, spec_unpacked_letter, Letter,
};
use crate::error::Error;
use crate::reader::Reader;
use vstd::prelude::*;

verus! {

/// Whether some letter of `letters` starts with `p`.
pub open spec fn has_prefix(letters: Seq<Seq<bool>>, p: Seq<bool>) -> bool {
    exists|i: int| 0 <= i < letters.len() && is_prefix(p, #[trigger] letters[i])
}

/// The prefix property: no letter is the start of another.
pub open spec fn prefix_free(letters: Seq<Seq<bool>>) -> bool {
    forall|i: int, j: int|
        0 <= i < letters.len() && 0 <= j < letters.len() && i != j ==> !is_prefix(
            #[trigger] letters[i],
            #[trigger] letters[j],
        )
}

/// What makes a sequence of letters a code that can be told from padding:
/// the prefix property, and a `1` bit in every letter.
pub open spec fn valid_code(letters: Seq<Seq<bool>>) -> bool {
    &&& prefix_free(letters)
    &&& forall|i: int| 0 <= i < letters.len() ==> !all_zero(#[trigger] letters[i])
}

/// Whether the letter `l` is no start of a letter of `letters`, and none
/// of them is a start of it.
pub open spec fn fits(letters: Seq<Seq<bool>>, l: Seq<bool>) -> bool {
    forall|i: int|
        0 <= i < letters.len() ==> !is_prefix(#[trigger] letters[i], l) && !is_prefix(
            l,
            letters[i],
        )
}

/// Whether the letter `l` cannot join `letters`: it is empty, or it is the
/// start of one of them, or one of them is the start of it.
pub open spec fn clashes(letters: Seq<Seq<bool>>, l: Seq<bool>) -> bool {
    ||| l.len() == 0
    ||| exists|i: int|
        0 <= i < letters.len() && (is_prefix(#[trigger] letters[i], l) || is_prefix(l, letters[i]))
}

/// Whether `letters` can stand in one trie: none is empty, and none is the
/// start of another.
pub open spec fn buildable(letters: Seq<Seq<bool>>) -> bool {
    &&& prefix_free(letters)
    &&& forall|i: int| 0 <= i < letters.len() ==> (#[trigger] letters[i]).len() > 0
}

/// Whether the number of `letters` and the number of bits of each of them
/// are numbers that can be packed.
pub open spec fn countable(letters: Seq<Seq<bool>>) -> bool {
    &&& letters.len() <= u64::MAX
    &&& forall|i: int| 0 <= i < letters.len() ==> (#[trigger] letters[i]).len() <= u64::MAX
}

/// The bits of each letter of `letters`, in their order.
pub open spec fn views(letters: Seq<Letter>) -> Seq<Seq<bool>> {
    Seq::new(letters.len(), |i: int| letters[i]@)
}

/// Whether every letter of `letters` is well formed.
pub open spec fn all_wf(letters: Seq<Letter>) -> bool {
    forall|i: int| 0 <= i < letters.len() ==> (#[trigger] letters[i]).wf()
}

/// The bytes of the packed letters of `letters`, one after the other.
pub open spec fn spec_packed_letters(letters: Seq<Seq<bool>>) -> Seq<u8>
    decreases letters.len(),
{
    if letters.len() == 0 {
        Seq::empty()
    } else {
        spec_packed_letters(letters.drop_last()) + spec_packed_letter(letters.last())
    }
}

/// The bytes that [`Alphabet::pack`] writes: the number of letters as eight
/// bytes, most significant first, and the packed letters in their order.
pub open spec fn spec_packed_alphabet(letters: Seq<Seq<bool>>) -> Seq<u8> {
    spec_pack_u64(letters.len() as u64) + spec_packed_letters(letters)
}

/// The `n` letters packed at the start of `s`, and the number of bytes
/// they take, if `s` holds that many whole letters.
pub open spec fn spec_unpacked_letters(s: Seq<u8>, n: nat) -> Option<(Seq<Seq<bool>>, int)>
    decreases n,
{
    if n == 0 {
        Some((Seq::empty(), 0))
    } else {
        match spec_packed_letter_len(s) {
            None => None,
            Some(k) => match spec_unpacked_letters(s.skip(k), (n - 1) as nat) {
                None => None,
                Some((rest, m)) => Some((seq![spec_unpacked_letter(s)] + rest, k + m)),
            },
        }
    }
}

/// The letters of the alphabet packed at the start of `s`, and the number
/// of bytes that the packed alphabet takes, if `s` holds a whole one.
pub open spec fn spec_unpacked_alphabet(s: Seq<u8>) -> Option<(Seq<Seq<bool>>, int)> {
    if s.len() < 8 {
        None
    } else {
        match spec_unpacked_letters(s.skip(8), spec_unpack_u64(s) as nat) {
            None => None,
            Some((letters, n)) => Some((letters, 8 + n)),
        }
    }
}

/// A node of the trie of an alphabet.
///
/// The path from the root to a leaf, `zero` for a `0` bit and `one` for a
/// `1` bit, spells the letter at that leaf.
#[derive(Debug, PartialEq)]
pub enum Node<'a> {
    Internal { zero: Option<Box<Node<'a>>>, one: Option<Box<Node<'a>>> },
    Leaf { letter: &'a Letter },
}

impl<'a> Node<'a> {
    /// Whether this node is the part of the trie of `letters` that lies
    /// at the end of the path `prefix`: a leaf where `prefix` is a letter,
    /// else a node with a child for each bit by which a letter goes on.
    pub open spec fn represents(self, letters: Seq<Seq<bool>>, prefix: Seq<bool>) -> bool
        decreases self,
    {
        match self {
            Node::Leaf { letter } => letter.wf() && letter@ == prefix && letters.contains(prefix),
            Node::Internal { zero, one } => {
                &&& !letters.contains(prefix)
                &&& zero is Some <==> has_prefix(letters, prefix.push(false))
                &&& one is Some <==> has_prefix(letters, prefix.push(true))
                &&& zero matches Some(z) ==> z.represents(letters, prefix.push(false))
                &&& one matches Some(o) ==> o.represents(letters, prefix.push(true))
            },
        }
    }

    /// A node with a `zero` child only.
    pub fn new0(zero: Node<'a>) -> (n: Node<'a>)
        ensures
            n == (Node::Internal { zero: Some(Box::new(zero)), one: None }),
    {
        Node::Internal { zero: Some(Box::new(zero)), one: None }
    }

    /// A node with a `one` child only.
    pub fn new1(one: Node<'a>) -> (n: Node<'a>)
        ensures
            n == (Node::Internal { zero: None, one: Some(Box::new(one)) }),
    {
        Node::Internal { zero: None, one: Some(Box::new(one)) }
    }

    /// A leaf for the letter `l`.
    pub fn newl(l: &'a Letter) -> (n: Node<'a>)
        ensures
            n == (Node::Leaf { letter: l }),
    {
        Node::Leaf { letter: l }
    }

    /// A node with both children.
    pub fn new(zero: Node<'a>, one: Node<'a>) -> (n: Node<'a>)
        ensures
            n == (Node::Internal { zero: Some(Box::new(zero)), one: Some(Box::new(one)) }),
    {
        Node::Internal { zero: Some(Box::new(zero)), one: Some(Box::new(one)) }
    }
}

/// Alphabet is an ordered list of unique Letters with the prefix property,
/// each with a `1` bit.
#[derive(Clone, Debug, Default, Eq, PartialEq)]
pub struct Alphabet(Vec<Letter>);

impl View for Alphabet {
    type V = Seq<Seq<bool>>;

    /// The bits of the letters, in the order of the alphabet.
    closed spec fn view(&self) -> Seq<Seq<bool>> {
        views(self.0@)
    }
}

impl Alphabet {
    /// The letters are well formed and make a valid code.
    pub closed spec fn wf(&self) -> bool {
        &&& all_wf(self.0@)
        &&& valid_code(self@)
    }

    /// The letters that the alphabet holds.
    pub closed spec fn spec_letters(&self) -> Seq<Letter> {
        self.0@
    }

    /// A well-formed alphabet is a valid code of well-formed letters.
    pub proof fn lemma_wf(&self)
        requires
            self.wf(),
        ensures
            valid_code(self@),
            all_wf(self.spec_letters()),
            self@ == views(self.spec_letters()),
    {
    }

    /// No letter of an alphabet is the start of another letter of it.
    pub proof fn lemma_prefix_property(&self, i: int, j: int)
        requires
            self.wf(),
            0 <= i < self@.len(),
            0 <= j < self@.len(),
            i != j,
        ensures
            !is_prefix(self@[i], self@[j]),
    {
    }

    /// Every letter of an alphabet has a `1` bit.
    pub proof fn lemma_no_zero_letter(&self, i: int)
        requires
            self.wf(),
            0 <= i < self@.len(),
        ensures
            !all_zero(self@[i]),
    {
    }

    /// Create a new Alphabet with the given [`Letter`]s.
    ///
    /// The order of letters is significant.
    /// [`Self::pack()`] & [`Self::unpack()`] conserve the order.
    ///
    /// Fails with [`Error::InvalidAlphabet`] where a letter is the start of
    /// another or holds no `1` bit.
    pub fn new(letters: Vec<Letter>) -> (res: Result<Self, Error>)
        requires
            all_wf(letters@),
        ensures
            valid_code(views(letters@)) ==> res.is_ok() && res.unwrap().wf() && res.unwrap()@
                == views(letters@) && res.unwrap().spec_letters() == letters@,
            !valid_code(views(letters@)) ==> res.is_err() && res.unwrap_err()
                == Error::InvalidAlphabet,
    {
        match Self::validate(&letters) {
            Err(e) => Err(e),
            Ok(()) => Ok(Alphabet(letters)),
        }
    }

    /// Number of letters in the alphabet.
    pub fn len(&self) -> (n: usize)
        ensures
            n == self@.len(),
    {
        self.0.len()
    }

    /// Check whether this alphabet is empty.
    pub fn is_empty(&self) -> (e: bool)
        ensures
            e == (self@.len() == 0),
    {
        self.0.len() == 0
    }

    /// Return a reference to the ordered [`Letter`]s in this alphabet.
    pub fn letters(&self) -> (v: &Vec<Letter>)
        ensures
            v@ == self.spec_letters(),
            views(v@) == self@,
            self.wf() ==> all_wf(v@),
    {
        &self.0
    }

    /// Serialize the alphabet to `w`: the number of letters, then each
    /// letter in the order of the alphabet.
    ///
    /// Can be deserialized back to an alphabet with [`Self::unpack()`].
    pub fn pack(self, w: &mut Vec<u8>) -> (res: Result<(), Error>)
        requires
            self.wf(),
        ensures
            res.is_ok(),
            final(w)@ == old(w)@ + spec_packed_alphabet(self@),
    {
        self.write(w);
        Ok(())
    }

    /// Serialize the alphabet to `w` and keep it.
    pub fn write(&self, w: &mut Vec<u8>)
        requires
            self.wf(),
        ensures
            final(w)@ == old(w)@ + spec_packed_alphabet(self@),
    {
        let letter_count = self.0.len();
        let mut n = pack_u64(letter_count as u64);
        w.append(&mut n);
        let ghost start = w@;
        let mut i: usize = 0;
        proof {
            assert(self@.take(0) =~= Seq::<Seq<bool>>::empty());
            assert(start + spec_packed_letters(self@.take(0)) =~= start);
        }
        while i < self.0.len()
            invariant
                self.wf(),
                i <= self.0@.len(),
                w@ == start + spec_packed_letters(self@.take(i as int)),
            decreases self.0@.len() - i,
        {
            self.0[i].write(w);
            proof {
                let done = self@.take(i as int);
                let more = self@.take(i + 1);
                assert(more.drop_last() =~= done);
                assert(more.last() == self.0@[i as int]@);
                assert(w@ =~= start + spec_packed_letters(more));
            }
            i = i + 1;
        }
        proof {
            assert(self@.take(i as int) =~= self@);
            assert(w@ =~= old(w)@ + spec_packed_alphabet(self@));
        }
    }

    /// Deserialize an alphabet written with [`Self::pack()`].
    ///
    /// Fails with [`Error::UnexpectedEof`] where `r` ends before the
    /// alphabet does, and with [`Error::InvalidAlphabet`] where the letters
    /// read are no valid code.
    pub fn unpack(r: &mut Reader) -> (res: Result<Self, Error>)
        requires
            old(r).wf(),
        ensures
            final(r).wf(),
            final(r).source() == old(r).source(),
            final(r).consumed() >= old(r).consumed(),
            match spec_unpacked_alphabet(old(r).remaining()) {
                None => res.is_err() && res.unwrap_err() == Error::UnexpectedEof,
                Some((letters, n)) => if valid_code(letters) {
                    &&& res.is_ok()
                    &&& res.unwrap().wf()
                    &&& res.unwrap()@ == letters
                    &&& final(r).consumed() == old(r).consumed() + n
                } else {
                    res.is_err() && res.unwrap_err() == Error::InvalidAlphabet
                },
            },
    {
        let ghost s0 = r.remaining();
        let letter_count = match unpack_u64(r) {
            Err(e) => {
                return Err(e);
            },
            Ok(n) => n,
        };
        let ghost s1 = r.remaining();
        let ghost c1 = r.consumed();
        proof {
            assert(s1 =~= s0.skip(8));
        }
        let mut letters: Vec<Letter> = Vec::new();
        let ghost mut acc: Seq<Seq<bool>> = Seq::empty();
        let mut k: u64 = 0;
        while k < letter_count
            invariant
                r.wf(),
                r.source() == old(r).source(),
                s0 == old(r).remaining(),
                s0.len() >= 8,
                s1 == s0.skip(8),
                letter_count == spec_unpack_u64(s0),
                k <= letter_count,
                all_wf(letters@),
                acc == views(letters@),
                r.consumed() >= c1,
                c1 >= old(r).consumed(),
                spec_unpacked_letters(s1, letter_count as nat) == (match spec_unpacked_letters(
                    r.remaining(),
                    (letter_count - k) as nat,
                ) {
                    None => None::<(Seq<Seq<bool>>, int)>,
                    Some((rest, m)) => Some((acc + rest, r.consumed() - c1 + m)),
                }),
            decreases letter_count - k,
        {
            let ghost cur = r.remaining();
            let ghost c = r.consumed();
            let l = match Letter::unpack(r) {
                Err(e) => {
                    return Err(e);
                },
                Ok(l) => l,
            };
            proof {
                let len = spec_packed_letter_len(cur).unwrap();
                assert(r.remaining() =~= cur.skip(len));
                match spec_unpacked_letters(cur.skip(len), (letter_count - k - 1) as nat) {
                    None => {},
                    Some((rest, m)) => {
                        assert(acc + (seq![l@] + rest) =~= acc.push(l@) + rest);
                    },
                }
                assert(views(letters@.push(l)) =~= acc.push(l@));
                acc = acc.push(l@);
            }
            letters.push(l);
            k = k + 1;
        }
        proof {
            assert(acc + Seq::<Seq<bool>>::empty() =~= acc);
        }
        match Self::validate(&letters) {
            Err(e) => Err(e),
            Ok(()) => Ok(Alphabet(letters)),
        }
    }

    /// The trie of the alphabet: from its root, the path of the bits of a
    /// letter ends in the leaf of that letter, and no other path ends in
    /// a leaf.
    pub fn tree<'a>(&'a self) -> (res: Result<Node<'a>, Error>)
        requires
            self.wf(),
        ensures
            res.is_ok(),
            res.unwrap() is Internal,
            res.unwrap().represents(self@, Seq::empty()),
    {
        proof {
            lemma_valid_code_builds(self@);
        }
        Self::build(&self.0)
    }

    /// Checks that `letters` are a valid code.
    fn validate(letters: &Vec<Letter>) -> (res: Result<(), Error>)
        requires
            all_wf(letters@),
        ensures
            valid_code(views(letters@)) ==> res == Ok::<(), Error>(()),
            !valid_code(views(letters@)) ==> res == Err::<(), Error>(Error::InvalidAlphabet),
    {
        let mut i: usize = 0;
        while i < letters.len()
            invariant
                all_wf(letters@),
                i <= letters@.len(),
                forall|j: int| 0 <= j < i ==> !all_zero(#[trigger] views(letters@)[j]),
            decreases letters@.len() - i,
        {
            match letters[i].validate() {
                Err(e) => {
                    assert(all_zero(views(letters@)[i as int]));
                    return Err(e);
                },
                Ok(()) => {},
            }
            i = i + 1;
        }
        match Self::build(letters) {
            Err(_) => Err(Error::InvalidAlphabet),
            Ok(_) => {
                Ok(())
            },
        }
    }

    /// Builds the trie of `letters`, letter by letter.
    ///
    /// Fails with [`Error::DuplicatePrefix`] where one of the letters is
    /// empty or is the start of another.
    pub fn build<'a>(letters: &'a Vec<Letter>) -> (res: Result<Node<'a>, Error>)
        requires
            all_wf(letters@),
        ensures
            buildable(views(letters@)) ==> res.is_ok() && res.unwrap() is Internal
                && res.unwrap().represents(views(letters@), Seq::empty()),
            !buildable(views(letters@)) ==> res.is_err() && res.unwrap_err()
                == Error::DuplicatePrefix,
    {
        let mut root = Node::Internal { zero: None, one: None };
        let ghost all = views(letters@);
        if letters.len() == 0 {
            // No text can be parsed with an empty alphabet.
            return Ok(root);
        }
        let mut i: usize = 0;
        while i < letters.len()
            invariant
                all_wf(letters@),
                all == views(letters@),
                i <= letters@.len(),
                buildable(all.take(i as int)),
                root.represents(all.take(i as int), Seq::empty()),
            decreases letters@.len() - i,
        {
            let l = &letters[i];
            let ghost done = all.take(i as int);
            proof {
                assert(l@.take(0) =~= Seq::<bool>::empty());
                assert(all.take(i + 1) =~= done.push(l@));
            }
            match Self::follow_branch(&mut root, l, 0, Ghost(done)) {
                Err(e) => {
                    proof {
                        lemma_clash_spoils(all, i as int);
                    }
                    return Err(e);
                },
                Ok(()) => {
                    proof {
                        lemma_no_clash_keeps(done, l@);
                    }
                },
            }
            i = i + 1;
        }
        proof {
            assert(all.take(i as int) =~= all);
        }
        Ok(root)
    }

    /// Follows the branch of `tree` that spells `l` from `offset` on, as far as
    /// it goes, and hangs the rest of `l` there.
    ///
    /// Fails where `l` clashes with a letter of the trie: where the branch
    /// ends in a leaf before `l` does, or `l` ends before the branch does.
    fn follow_branch<'a, 'b>(
        tree: &'b mut Node<'a>,
        l: &'a Letter,
        offset: u64,
        Ghost(letters): Ghost<Seq<Seq<bool>>>,
    ) -> (res: Result<(), Error>)
        requires
            l.wf(),
            offset <= l@.len(),
            old(tree).represents(letters, l@.take(offset as int)),
            offset == 0 || has_prefix(letters, l@.take(offset as int)),
            forall|m: int| 0 <= m < offset ==> !letters.contains(#[trigger] l@.take(m)),
        ensures
            clashes(letters, l@) ==> res == Err::<(), Error>(Error::DuplicatePrefix),
            !clashes(letters, l@) ==> res == Ok::<(), Error>(()) && final(tree).represents(
                letters.push(l@),
                l@.take(offset as int),
            ),
        decreases l@.len() - offset,
    {
        let ghost p = l@.take(offset as int);
        let ghost more = letters.push(l@);
        if offset >= l.bit_count() {
            proof {
                assert(p =~= l@);
                if offset != 0 {
                    let i = choose|i: int|
                        0 <= i < letters.len() && is_prefix(p, #[trigger] letters[i]);
                    assert(is_prefix(l@, letters[i]));
                }
            }
            return Err(Error::DuplicatePrefix);
        }
        let b = l.bit(offset);
        proof {
            assert(p.push(b) =~= l@.take(offset + 1));
            assert(is_prefix(p, l@));
        }
        match tree {
            Node::Leaf { .. } => {
                proof {
                    let i = choose|i: int| 0 <= i < letters.len() && letters[i] == p;
                    assert(is_prefix(letters[i], l@));
                }
                Err(Error::DuplicatePrefix)
            },
            Node::Internal { zero, one } => {
                let ghost z0 = *zero;
                let ghost o0 = *one;
                let child = if b {
                    one
                } else {
                    zero
                };
                match child {
                    Some(c) => {
                        let r = Self::follow_branch(c, l, offset + 1, Ghost(letters));
                        proof {
                            if !clashes(letters, l@) {
                                lemma_branch_step(letters, l@, offset as int);
                                if b {
                                    if let Some(z) = z0 {
                                        lemma_represents_extend(*z, letters, l@, p.push(false));
                                    }
                                } else {
                                    if let Some(o) = o0 {
                                        lemma_represents_extend(*o, letters, l@, p.push(true));
                                    }
                                }
                            }
                        }
                        r
                    },
                    None => {
                        proof {
                            lemma_no_clash(letters, l@, offset as int);
                            lemma_branch_step(letters, l@, offset as int);
                            if b {
                                if let Some(z) = z0 {
                                    lemma_represents_extend(*z, letters, l@, p.push(false));
                                }
                            } else {
                                if let Some(o) = o0 {
                                    lemma_represents_extend(*o, letters, l@, p.push(true));
                                }
                            }
                        }
                        let t = Self::tail(l, offset + 1, Ghost(letters));
                        *child = Some(Box::new(t));
                        Ok(())
                    },
                }
            },
        }
    }

    /// The branch of a trie that holds the bits of `l` from `offset` on and
    /// ends in a leaf for `l`.
    fn tail<'a>(l: &'a Letter, offset: u64, Ghost(letters): Ghost<Seq<Seq<bool>>>) -> (n: Node<'a>)
        requires
            l.wf(),
            offset <= l@.len(),
            !has_prefix(letters, l@.take(offset as int)),
        ensures
            n.represents(letters.push(l@), l@.take(offset as int)),
        decreases l@.len() - offset,
    {
        let n = l.bit_count();
        let ghost more = letters.push(l@);
        let ghost p = l@.take(offset as int);
        if offset >= n {
            proof {
                assert(p =~= l@);
                assert(more[letters.len() as int] == l@);
            }
            return Node::Leaf { letter: l };
        }
        let b = l.bit(offset);
        proof {
            assert(p.push(b) =~= l@.take(offset + 1));
            lemma_tail_step(letters, l@, offset as int);
        }
        let rest = Self::tail(l, offset + 1, Ghost(letters));
        if b {
            Node::Internal { zero: None, one: Some(Box::new(rest)) }
        } else {
            Node::Internal { zero: Some(Box::new(rest)), one: None }
        }
    }
}

/// A valid code can stand in one trie.
pub proof fn lemma_valid_code_builds(letters: Seq<Seq<bool>>)
    requires
        valid_code(letters),
    ensures
        buildable(letters),
{
    assert forall|i: int| 0 <= i < letters.len() implies (#[trigger] letters[i]).len() > 0 by {
        assert(!all_zero(letters[i]));
    }
}

/// Letters with one more letter among them are a valid code just when
/// they are one without it, and it fits them and has a `1` bit.
pub proof fn lemma_valid_insert(letters: Seq<Seq<bool>>, p: int, l: Seq<bool>)
    requires
        0 <= p <= letters.len(),
    ensures
        valid_code(letters.insert(p, l)) == (valid_code(letters) && fits(letters, l) && !all_zero(
            l,
        )),
{
    let more = letters.insert(p, l);
    letters.insert_ensures(p, l);
    let back = |i: int|
        if i < p {
            i
        } else {
            i + 1
        };
    assert forall|i: int| 0 <= i < letters.len() implies more[back(i)]
        == #[trigger] letters[i] by {}
    if valid_code(more) {
        assert forall|i: int, j: int|
            0 <= i < letters.len() && 0 <= j < letters.len() && i != j implies !is_prefix(
            #[trigger] letters[i],
            #[trigger] letters[j],
        ) by {
            assert(!is_prefix(more[back(i)], more[back(j)]));
        }
        assert forall|i: int| 0 <= i < letters.len() implies !all_zero(#[trigger] letters[i]) by {
            assert(!all_zero(more[back(i)]));
        }
        assert forall|i: int| 0 <= i < letters.len() implies !is_prefix(#[trigger] letters[i], l)
            && !is_prefix(l, letters[i]) by {
            assert(!is_prefix(more[back(i)], more[p]));
            assert(!is_prefix(more[p], more[back(i)]));
        }
        assert(!all_zero(more[p]));
    }
    if valid_code(letters) && fits(letters, l) && !all_zero(l) {
        assert forall|i: int, j: int|
            0 <= i < more.len() && 0 <= j < more.len() && i != j implies !is_prefix(
            #[trigger] more[i],
            #[trigger] more[j],
        ) by {
            let i0 = if i < p {
                i
            } else {
                i - 1
            };
            let j0 = if j < p {
                j
            } else {
                j - 1
            };
            if i != p && j != p {
                assert(more[i] == letters[i0] && more[j] == letters[j0]);
            } else if i == p {
                assert(more[j] == letters[j0]);
            } else {
                assert(more[i] == letters[i0]);
            }
        }
        assert forall|i: int| 0 <= i < more.len() implies !all_zero(#[trigger] more[i]) by {
            if i != p {
                let i0 = if i < p {
                    i
                } else {
                    i - 1
                };
                assert(more[i] == letters[i0]);
            }
        }
    }
}

/// A letter that clashes with those before it spoils the whole sequence.
proof fn lemma_clash_spoils(all: Seq<Seq<bool>>, i: int)
    requires
        0 <= i < all.len(),
        clashes(all.take(i), all[i]),
    ensures
        !buildable(all),
{
    let done = all.take(i);
    if all[i].len() != 0 {
        let j = choose|j: int|
            0 <= j < done.len() && (is_prefix(#[trigger] done[j], all[i]) || is_prefix(
                all[i],
                done[j],
            ));
        assert(done[j] == all[j]);
    }
}

/// A letter that does not clash with the letters of a sequence that can
/// stand in one trie can join them.
proof fn lemma_no_clash_keeps(done: Seq<Seq<bool>>, l: Seq<bool>)
    requires
        buildable(done),
        !clashes(done, l),
    ensures
        buildable(done.push(l)),
{
    let more = done.push(l);
    assert forall|i: int, j: int|
        0 <= i < more.len() && 0 <= j < more.len() && i != j implies !is_prefix(
        #[trigger] more[i],
        #[trigger] more[j],
    ) by {
        if i < done.len() && j < done.len() {
            assert(more[i] == done[i] && more[j] == done[j]);
        } else if i < done.len() {
            assert(more[i] == done[i]);
        } else {
            assert(more[j] == done[j]);
        }
    }
    assert forall|i: int| 0 <= i < more.len() implies (#[trigger] more[i]).len() > 0 by {
        if i < done.len() {
            assert(more[i] == done[i]);
        }
    }
}

/// A letter that leaves the trie at an inner node, past no leaf, clashes
/// with no letter of the trie.
proof fn lemma_no_clash(letters: Seq<Seq<bool>>, l: Seq<bool>, offset: int)
    requires
        0 <= offset < l.len(),
        forall|m: int| 0 <= m <= offset ==> !letters.contains(#[trigger] l.take(m)),
        !has_prefix(letters, l.take(offset + 1)),
    ensures
        !clashes(letters, l),
{
    let q = l.take(offset + 1);
    assert forall|i: int| 0 <= i < letters.len() implies !(is_prefix(#[trigger] letters[i], l)
        || is_prefix(l, letters[i])) by {
        let s = letters[i];
        if is_prefix(s, l) {
            if s.len() <= offset {
                assert(s =~= l.take(s.len() as int));
                assert(letters.contains(l.take(s.len() as int)));
            } else {
                assert(q =~= s.take(offset + 1));
                assert(is_prefix(q, s));
            }
        }
        if is_prefix(l, s) {
            assert(q =~= s.take(offset + 1));
            assert(is_prefix(q, s));
        }
    }
}

/// Where `l` passes through an inner node of the trie of `letters`, that
/// node has the same place in the trie of `letters` with `l`: `l` is not
/// the letter that ends there, the child on the side of `l` is there, and
/// the child on the other side is there if it was before.
proof fn lemma_branch_step(letters: Seq<Seq<bool>>, l: Seq<bool>, offset: int)
    requires
        0 <= offset < l.len(),
        !letters.contains(l.take(offset)),
    ensures
        !letters.push(l).contains(l.take(offset)),
        has_prefix(letters.push(l), l.take(offset).push(l[offset])),
        has_prefix(letters.push(l), l.take(offset).push(!l[offset])) <==> has_prefix(
            letters,
            l.take(offset).push(!l[offset]),
        ),
        !is_prefix(l.take(offset).push(!l[offset]), l),
{
    let more = letters.push(l);
    let p = l.take(offset);
    let q = p.push(l[offset]);
    let x = p.push(!l[offset]);
    assert(q =~= l.take(offset + 1));
    assert(is_prefix(q, more[letters.len() as int]));
    assert(!is_prefix(x, l)) by {
        if is_prefix(x, l) {
            assert(x[offset] == l.take(offset + 1)[offset]);
        }
    }
    assert(!more.contains(p)) by {
        if more.contains(p) {
            let i = choose|i: int| 0 <= i < more.len() && more[i] == p;
            if i < letters.len() {
                assert(letters[i] == p);
            }
        }
    }
    if has_prefix(more, x) {
        let i = choose|i: int| 0 <= i < more.len() && is_prefix(x, #[trigger] more[i]);
        assert(more[i] == letters[i]);
    }
    if has_prefix(letters, x) {
        let i = choose|i: int| 0 <= i < letters.len() && is_prefix(x, #[trigger] letters[i]);
        assert(more[i] == letters[i]);
    }
}

/// Below the point where `l` leaves the trie of `letters`, the trie of
/// `letters` with `l` holds only `l`.
proof fn lemma_tail_step(letters: Seq<Seq<bool>>, l: Seq<bool>, offset: int)
    requires
        0 <= offset < l.len(),
        !has_prefix(letters, l.take(offset)),
    ensures
        !has_prefix(letters, l.take(offset + 1)),
        !letters.push(l).contains(l.take(offset)),
        has_prefix(letters.push(l), l.take(offset + 1)),
        !has_prefix(letters.push(l), l.take(offset).push(!l[offset])),
{
    let more = letters.push(l);
    let p = l.take(offset);
    let q = l.take(offset + 1);
    let x = p.push(!l[offset]);
    assert(is_prefix(p, q)) by {
        assert(p =~= q.take(offset));
    }
    assert(is_prefix(p, x)) by {
        assert(p =~= x.take(offset));
    }
    assert forall|i: int| 0 <= i < letters.len() implies !is_prefix(q, #[trigger] letters[i])
        && !is_prefix(x, letters[i]) && letters[i] != p by {
        if is_prefix(q, letters[i]) {
            assert(p =~= letters[i].take(offset));
        }
        if is_prefix(x, letters[i]) {
            assert(p =~= letters[i].take(offset));
        }
        if letters[i] == p {
            assert(p =~= letters[i].take(offset));
        }
    }
    assert(is_prefix(q, more[letters.len() as int])) by {
        assert(q =~= l.take(offset + 1));
    }
    assert(!is_prefix(x, l)) by {
        if is_prefix(x, l) {
            assert(x[offset] == l.take(offset + 1)[offset]);
        }
    }
    assert forall|i: int| 0 <= i < more.len() implies !is_prefix(x, #[trigger] more[i]) && more[i]
        != p by {
        if i < letters.len() {
            assert(more[i] == letters[i]);
        }
    }
}

/// A subtrie stays what it is when a letter joins that does not pass
/// through it.
pub proof fn lemma_represents_extend(
    n: Node,
    letters: Seq<Seq<bool>>,
    l: Seq<bool>,
    prefix: Seq<bool>,
)
    requires
        n.represents(letters, prefix),
        !is_prefix(prefix, l),
    ensures
        n.represents(letters.push(l), prefix),
    decreases n,
{
    let more = letters.push(l);
    assert forall|q: Seq<bool>| is_prefix(prefix, q) implies (has_prefix(more, q) <==> has_prefix(
        letters,
        q,
    )) by {
        if has_prefix(more, q) {
            let i = choose|i: int| 0 <= i < more.len() && is_prefix(q, #[trigger] more[i]);
            if i == letters.len() {
                assert(is_prefix(prefix, l)) by {
                    assert(prefix =~= q.take(prefix.len() as int));
                    assert(q =~= l.take(q.len() as int));
                    assert(prefix =~= l.take(prefix.len() as int));
                }
            }
            assert(more[i] == letters[i]);
        }
        if has_prefix(letters, q) {
            let i = choose|i: int| 0 <= i < letters.len() && is_prefix(q, #[trigger] letters[i]);
            assert(more[i] == letters[i]);
        }
    }
    assert(more.contains(prefix) <==> letters.contains(prefix)) by {
        if more.contains(prefix) {
            let i = choose|i: int| 0 <= i < more.len() && more[i] == prefix;
            assert(i < letters.len()) by {
                if i == letters.len() {
                    assert(prefix =~= l.take(prefix.len() as int));
                }
            }
            assert(letters[i] == prefix);
        }
        if letters.contains(prefix) {
            let i = choose|i: int| 0 <= i < letters.len() && letters[i] == prefix;
            assert(more[i] == prefix);
        }
    }
    match n {
        Node::Leaf { letter } => {},
        Node::Internal { zero, one } => {
            let side0 = prefix.push(false);
            let side1 = prefix.push(true);
            assert(is_prefix(prefix, side0)) by {
                assert(prefix =~= side0.take(prefix.len() as int));
            }
            assert(is_prefix(prefix, side1)) by {
                assert(prefix =~= side1.take(prefix.len() as int));
            }
            assert(!is_prefix(side0, l)) by {
                if is_prefix(side0, l) {
                    assert(prefix =~= l.take(prefix.len() as int));
                }
            }
            assert(!is_prefix(side1, l)) by {
                if is_prefix(side1, l) {
                    assert(prefix =~= l.take(prefix.len() as int));
                }
            }
            if let Some(z) = zero {
                lemma_represents_extend(*z, letters, l, side0);
            }
            if let Some(o) = one {
                lemma_represents_extend(*o, letters, l, side1);
            }
        },
    }
}

/// The packed letters of a sequence with one more letter in front are the
/// packed letter and then the packed letters of the sequence.
pub proof fn lemma_packed_letters_front(l: Seq<bool>, letters: Seq<Seq<bool>>)
    ensures
        spec_packed_letters(seq![l] + letters) == spec_packed_letter(l) + spec_packed_letters(
            letters,
        ),
    decreases letters.len(),
{
    let whole = seq![l] + letters;
    if letters.len() == 0 {
        assert(whole.drop_last() =~= Seq::<Seq<bool>>::empty());
        assert(spec_packed_letters(whole.drop_last()) =~= Seq::<u8>::empty());
        assert(spec_packed_letters(whole) =~= spec_packed_letter(l) + spec_packed_letters(
            letters,
        ));
    } else {
        assert(whole.drop_last() =~= seq![l] + letters.drop_last());
        lemma_packed_letters_front(l, letters.drop_last());
        assert(spec_packed_letters(whole) =~= spec_packed_letter(l) + spec_packed_letters(
            letters,
        ));
    }
}

/// A packed letter, whatever follows it, unpacks to the letter.
pub proof fn lemma_letter_roundtrip(bits: Seq<bool>, rest: Seq<u8>)
    requires
        bits.len() <= u64::MAX,
    ensures
        spec_packed_letter_len(spec_packed_letter(bits) + rest) == Some(
            spec_packed_letter(bits).len() as int,
        ),
        spec_unpacked_letter(spec_packed_letter(bits) + rest) == bits,
{
    let n = bits.len() as u64;
    let s = spec_packed_letter(bits) + rest;
    lemma_u64_roundtrip(n);
    lemma_bits_of_bytes_of(bits);
    assert(spec_unpack_u64(s) == spec_unpack_u64(spec_pack_u64(n))) by {
        assert(forall|i: int| 0 <= i < 8 ==> s[i] == spec_pack_u64(n)[i]);
    }
    let body = s.skip(8);
    assert(body =~= bytes_of(bits) + rest);
    assert forall|i: int| 0 <= i < bits.len() implies bits_of(body)[i] == bits[i] by {
        assert(i / 8 < bytes_of(bits).len());
        assert(body[i / 8] == bytes_of(bits)[i / 8]);
        assert(bits_of(bytes_of(bits))[i] == bits[i]);
    }
    assert(bits_of(body).take(n as int) =~= bits);
}

/// Packed letters, whatever follows them, unpack to the letters.
pub proof fn lemma_letters_roundtrip(letters: Seq<Seq<bool>>, rest: Seq<u8>)
    requires
        forall|i: int| 0 <= i < letters.len() ==> (#[trigger] letters[i]).len() <= u64::MAX,
    ensures
        spec_unpacked_letters(spec_packed_letters(letters) + rest, letters.len()) == Some(
            (letters, spec_packed_letters(letters).len() as int),
        ),
    decreases letters.len(),
{
    if letters.len() == 0 {
        assert(letters =~= Seq::<Seq<bool>>::empty());
    } else {
        let l = letters[0];
        let later = letters.skip(1);
        assert(letters =~= seq![l] + later);
        lemma_packed_letters_front(l, later);
        let s = spec_packed_letters(letters) + rest;
        let after = spec_packed_letters(later) + rest;
        assert(s =~= spec_packed_letter(l) + after);
        lemma_letter_roundtrip(l, after);
        assert(s.skip(spec_packed_letter(l).len() as int) =~= after);
        lemma_letters_roundtrip(later, rest);
    }
}

/// Unpacking a packed alphabet gives its letters, in their order, and
/// takes the bytes of the packed alphabet, whatever bytes follow them.
pub proof fn lemma_alphabet_roundtrip(letters: Seq<Seq<bool>>, rest: Seq<u8>)
    requires
        countable(letters),
    ensures
        spec_unpacked_alphabet(spec_packed_alphabet(letters) + rest) == Some(
            (letters, spec_packed_alphabet(letters).len() as int),
        ),
{
    let n = letters.len() as u64;
    let s = spec_packed_alphabet(letters) + rest;
    lemma_u64_roundtrip(n);
    assert(spec_unpack_u64(s) == spec_unpack_u64(spec_pack_u64(n))) by {
        assert(forall|i: int| 0 <= i < 8 ==> s[i] == spec_pack_u64(n)[i]);
    }
    assert(s.skip(8) =~= spec_packed_letters(letters) + rest);
    lemma_letters_roundtrip(letters, rest);
}

} // verus!
