//! Putting letters for tokens, and tokens for letters.

use crate::assoc::{entry_views, find, key_views, spec_find};
use crate::code::alphabet::valid_code;
use crate::code::bits::is_prefix;
use crate::code::letter::Letter;
use crate::encoding::letters_wf;
use crate::error::Error;
use crate::tokens::Token;
use vstd::prelude::*;

verus! {

/// Whether `encoding` holds a letter for each of `input`.
pub open spec fn spec_known<V>(encoding: Seq<(V, Seq<bool>)>, input: Seq<V>) -> bool {
    forall|i: int|
        0 <= i < input.len() ==> spec_find(encoding, #[trigger] input[i]) < encoding.len()
}

/// The letters that `encoding` gives for the tokens of `input`, in their
/// order.
pub open spec fn spec_encoded<V>(encoding: Seq<(V, Seq<bool>)>, input: Seq<V>) -> Seq<Seq<bool>> {
    Seq::new(input.len(), |i: int| encoding[spec_find(encoding, input[i])].1)
}

/// The places in `encoding` of the letters of the tokens of `input`.
pub open spec fn spec_places<V>(encoding: Seq<(V, Seq<bool>)>, input: Seq<V>) -> Seq<int> {
    Seq::new(input.len(), |i: int| spec_find(encoding, input[i]))
}

/// The bits of each of `letters`, in their order.
pub open spec fn ref_views(letters: Seq<&Letter>) -> Seq<Seq<bool>> {
    Seq::new(letters.len(), |i: int| letters[i]@)
}

/// The place of the first entry for the letter `l`, or the number of
/// entries where there is none.
pub open spec fn spec_find_letter<V>(encoding: Seq<(Seq<bool>, V)>, l: Seq<bool>) -> int
    decreases encoding.len(),
{
    if encoding.len() == 0 {
        0
    } else if encoding[0].0 == l {
        0
    } else {
        1 + spec_find_letter(encoding.skip(1), l)
    }
}

/// The views of the letters of `encoding`, each with the view of its
/// token.
pub open spec fn reverse_views<T: Token>(encoding: Seq<(&Letter, &T)>) -> Seq<(Seq<bool>, T::V)> {
    Seq::new(encoding.len(), |i: int| (encoding[i].0@, encoding[i].1@))
}

/// Whether `encoding` holds a token for each of `input`.
pub open spec fn spec_known_letters<V>(
    encoding: Seq<(Seq<bool>, V)>,
    input: Seq<Seq<bool>>,
) -> bool {
    forall|i: int|
        0 <= i < input.len() ==> spec_find_letter(encoding, #[trigger] input[i]) < encoding.len()
}

/// The tokens that `encoding` gives for the letters of `input`, in their
/// order.
pub open spec fn spec_decoded<V>(encoding: Seq<(Seq<bool>, V)>, input: Seq<Seq<bool>>) -> Seq<V> {
    Seq::new(input.len(), |i: int| encoding[spec_find_letter(encoding, input[i])].1)
}

/// The letter of each token of `input`.
///
/// Fails with [`Error::UnknownToken`] where `encoding` has no letter for a
/// token.
pub fn encode<'a, T: Token>(encoding: &'a Vec<(T, Letter)>, input: &Vec<T>) -> (res: Result<
    Vec<&'a Letter>,
    Error,
>)
    ensures
        spec_known(entry_views(encoding@), key_views(input@)) ==> res is Ok && ref_views(
            res->Ok_0@,
        ) == spec_encoded(entry_views(encoding@), key_views(input@)) && (letters_wf(encoding@)
            ==> forall|i: int| 0 <= i < res->Ok_0@.len() ==> (#[trigger] res->Ok_0@[i]).wf()),
        !spec_known(entry_views(encoding@), key_views(input@)) ==> res is Err && res->Err_0
            == Error::UnknownToken,
{
    let ghost e = entry_views(encoding@);
    let ghost keys = key_views(input@);
    let mut out: Vec<&'a Letter> = Vec::with_capacity(input.len());
    let mut i: usize = 0;
    while i < input.len()
        invariant
            e == entry_views(encoding@),
            keys == key_views(input@),
            i <= input@.len(),
            out@.len() == i,
            forall|j: int| 0 <= j < i ==> spec_find(e, #[trigger] keys[j]) < e.len(),
            forall|j: int|
                0 <= j < i ==> (#[trigger] out@[j])@ == e[spec_find(e, keys[j])].1 && (letters_wf(
                    encoding@,
                ) ==> out@[j].wf()),
        decreases input@.len() - i,
    {
        let j = find(encoding, &input[i]);
        if j >= encoding.len() {
            proof {
                assert(!(spec_find(e, keys[i as int]) < e.len()));
            }
            return Err(Error::UnknownToken);
        }
        out.push(&encoding[j].1);
        i = i + 1;
    }
    proof {
        assert(ref_views(out@) =~= spec_encoded(e, keys));
    }
    Ok(out)
}

/// The token of each letter of `input`.
///
/// Fails with [`Error::UnknownLetter`] where `encoding` has no token for a
/// letter.
pub fn decode<T: Token>(encoding: &Vec<(&Letter, &T)>, input: &Vec<&Letter>) -> (res: Result<
    Vec<T>,
    Error,
>)
    requires
        forall|i: int| 0 <= i < encoding@.len() ==> (#[trigger] encoding@[i]).0.wf(),
        forall|i: int| 0 <= i < input@.len() ==> (#[trigger] input@[i]).wf(),
    ensures
        spec_known_letters(reverse_views(encoding@), ref_views(input@)) ==> res is Ok && key_views(
            res->Ok_0@,
        ) == spec_decoded(reverse_views(encoding@), ref_views(input@)),
        !spec_known_letters(reverse_views(encoding@), ref_views(input@)) ==> res is Err
            && res->Err_0 == Error::UnknownLetter,
{
    let ghost e = reverse_views(encoding@);
    let ghost letters = ref_views(input@);
    let mut out: Vec<T> = Vec::with_capacity(input.len());
    let mut i: usize = 0;
    while i < input.len()
        invariant
            forall|i: int| 0 <= i < encoding@.len() ==> (#[trigger] encoding@[i]).0.wf(),
            forall|i: int| 0 <= i < input@.len() ==> (#[trigger] input@[i]).wf(),
            e == reverse_views(encoding@),
            letters == ref_views(input@),
            i <= input@.len(),
            out@.len() == i,
            forall|j: int| 0 <= j < i ==> spec_find_letter(e, #[trigger] letters[j]) < e.len(),
            forall|j: int|
                0 <= j < i ==> (#[trigger] out@[j])@ == e[spec_find_letter(e, letters[j])].1,
        decreases input@.len() - i,
    {
        let l = input[i];
        let mut j: usize = 0;
        proof {
            assert(e.skip(0) =~= e);
        }
        while j < encoding.len() && !encoding[j].0.same(l)
            invariant
                forall|i: int| 0 <= i < encoding@.len() ==> (#[trigger] encoding@[i]).0.wf(),
                l.wf(),
                e == reverse_views(encoding@),
                j <= encoding@.len(),
                spec_find_letter(e, l@) == j + spec_find_letter(e.skip(j as int), l@),
            decreases encoding@.len() - j,
        {
            proof {
                assert(e.skip(j as int)[0] == e[j as int]);
                assert(e.skip(j as int).skip(1) =~= e.skip(j + 1));
            }
            j = j + 1;
        }
        proof {
            if j < encoding.len() {
                assert(e.skip(j as int)[0] == e[j as int]);
            }
            assert(letters[i as int] == l@);
        }
        if j >= encoding.len() {
            return Err(Error::UnknownLetter);
        }
        out.push(encoding[j].1.duplicate());
        i = i + 1;
    }
    proof {
        assert(key_views(out@) =~= spec_decoded(e, letters));
    }
    Ok(out)
}

/// The place that `spec_find_letter` gives is the first place of the
/// letter, or the number of entries where no entry has the letter.
pub proof fn lemma_find_letter<V>(encoding: Seq<(Seq<bool>, V)>, l: Seq<bool>)
    ensures
        0 <= spec_find_letter(encoding, l) <= encoding.len(),
        spec_find_letter(encoding, l) < encoding.len() ==> encoding[spec_find_letter(
            encoding,
            l,
        )].0 == l,
        forall|i: int| 0 <= i < spec_find_letter(encoding, l) ==> (#[trigger] encoding[i]).0 != l,
    decreases encoding.len(),
{
    if encoding.len() > 0 && encoding[0].0 != l {
        let rest = encoding.skip(1);
        lemma_find_letter(rest, l);
        assert forall|i: int| 0 <= i < spec_find_letter(encoding, l) implies (
        #[trigger] encoding[i]).0 != l by {
            if i > 0 {
                assert(encoding[i] == rest[i - 1]);
            }
        }
    }
}

/// The letters of a valid code, read back by the map from the letters to
/// the tokens, give the tokens whose letters they are.
pub proof fn lemma_letters_known<V>(
    map: Seq<(V, Seq<bool>)>,
    reverse: Seq<(Seq<bool>, V)>,
    idx: Seq<int>,
    letters: Seq<Seq<bool>>,
)
    requires
        valid_code(Seq::new(map.len(), |i: int| map[i].1)),
        reverse.len() == map.len(),
        forall|i: int|
            0 <= i < map.len() ==> (#[trigger] reverse[i]).0 == map[i].1 && reverse[i].1
                == map[i].0,
        letters.len() == idx.len(),
        forall|k: int|
            0 <= k < idx.len() ==> 0 <= #[trigger] idx[k] < map.len() && letters[k]
                == map[idx[k]].1,
    ensures
        spec_known_letters(reverse, letters),
        spec_decoded(reverse, letters) == Seq::new(idx.len(), |k: int| map[idx[k]].0),
{
    let code = Seq::new(map.len(), |i: int| map[i].1);
    assert forall|k: int| 0 <= k < letters.len() implies spec_find_letter(
        reverse,
        #[trigger] letters[k],
    ) == idx[k] by {
        let l = letters[k];
        lemma_find_letter(reverse, l);
        let r = spec_find_letter(reverse, l);
        assert(reverse[idx[k]].0 == l);
        if r != idx[k] {
            assert(code[r] == l && code[idx[k]] == l);
            assert(is_prefix(code[r], code[idx[k]])) by {
                assert(l =~= l.take(l.len() as int));
            }
        }
    }
    assert(spec_decoded(reverse, letters) =~= Seq::new(idx.len(), |k: int| map[idx[k]].0));
}

} // verus!
