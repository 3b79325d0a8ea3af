//! The dictionary filter: which candidate lines become valid words.

use vstd::prelude::*;
use vstd::assert_seqs_equal;
use crate::word::{
    Word, bit_of, canon, is_upper, lemma_canon_shape, lemma_mask_contains, line_views, make_word,
    mask_of, wf_word,
};
use crate::puzzle::{
    Puzzle, chain_ok, lemma_side_of_bounds, lemma_whole_mask_is_side_union, no_repeated_sides,
    side_of, split_commas, strips,
};

verus! {

/// True when no byte of the sequence is an ASCII space.
pub open spec fn no_space(s: Seq<u8>) -> bool {
    forall|k: int| 0 <= k < s.len() ==> (#[trigger] s[k]) != 32
}

/// True when the raw line contains no space character.
pub fn no_spaces(bytes: &[u8]) -> (r: bool)
    ensures
        r == no_space(bytes@),
{
    let n = bytes.len();
    for i in 0..n
        invariant
            n == bytes@.len(),
            forall|k: int| 0 <= k < i ==> (#[trigger] bytes@[k]) != 32,
    {
        if bytes[i] == 32 {
            proof {
                assert(bytes@[i as int] == 32);
            }
            return false;
        }
    }
    true
}

/// The cheap pre-filter on a raw dictionary line: at least three bytes and
/// no spaces.
pub fn valid_word(bytes: &[u8]) -> (r: bool)
    ensures
        r == (bytes@.len() >= 3 && no_space(bytes@)),
{
    if bytes.len() < 3 {
        false
    } else {
        no_spaces(bytes)
    }
}

/// Admission of one raw dictionary line: it passes the raw pre-filter, its
/// canonical form has more than two letters, its letters all lie in the
/// puzzle's combined mask, and no two adjacent canonical letters resolve to
/// the same side.
pub open spec fn admits(line: Seq<u8>, sides: Seq<Seq<u8>>, whole_mask: u32) -> bool {
    &&& line.len() >= 3
    &&& no_space(line)
    &&& canon(line).len() > 2
    &&& mask_of(canon(line)) & whole_mask == mask_of(canon(line))
    &&& chain_ok(canon(line), sides)
}

/// The canonical forms of the admitted lines among the first `n`, in order.
pub open spec fn admitted_canons(
    lines: Seq<Seq<u8>>,
    sides: Seq<Seq<u8>>,
    whole_mask: u32,
    n: int,
) -> Seq<Seq<u8>>
    decreases n,
{
    if n <= 0 {
        Seq::empty()
    } else {
        let rest = admitted_canons(lines, sides, whole_mask, n - 1);
        if admits(lines[n - 1], sides, whole_mask) {
            rest.push(canon(lines[n - 1]))
        } else {
            rest
        }
    }
}

/// Streams the dictionary lines once and keeps, in source order, the
/// normalized form of every line the puzzle admits.
pub fn filter_words(lines: &Vec<Vec<u8>>, puzzle: &Puzzle) -> (words: Vec<Word>)
    requires
        puzzle.sides@.len() <= 0x7fff_ffff,
    ensures
        strips(words@) == admitted_canons(
            line_views(lines@),
            strips(puzzle.sides@),
            puzzle.whole.mask,
            lines@.len() as int,
        ),
        forall|k: int| 0 <= k < words@.len() ==> wf_word(#[trigger] words@[k]),
        forall|k: int|
            0 <= k < words@.len() ==> (#[trigger] words@[k]).mask & puzzle.whole.mask == words@[
                k
            ].mask,
{
    let mut words: Vec<Word> = Vec::new();
    let n = lines.len();
    proof {
        assert(strips(words@) =~= Seq::<Seq<u8>>::empty());
    }
    for i in 0..n
        invariant
            n == lines@.len(),
            puzzle.sides@.len() <= 0x7fff_ffff,
            strips(words@) == admitted_canons(
                line_views(lines@),
                strips(puzzle.sides@),
                puzzle.whole.mask,
                i as int,
            ),
            forall|k: int| 0 <= k < words@.len() ==> wf_word(#[trigger] words@[k]),
            forall|k: int|
                0 <= k < words@.len() ==> (#[trigger] words@[k]).mask & puzzle.whole.mask
                    == words@[k].mask,
    {
        let ghost lv = line_views(lines@);
        let ghost sv = strips(puzzle.sides@);
        let line = &lines[i];
        proof {
            assert(lv[i as int] == lines@[i as int]@);
        }
        if valid_word(line.as_slice()) {
            match make_word(line.as_slice()) {
                None => {
                    proof {
                        assert(!admits(lv[i as int], sv, puzzle.whole.mask));
                    }
                },
                Some(w) => {
                    if (w.mask & puzzle.whole.mask) == w.mask && w.strip.len() > 2 {
                        if no_repeated_sides(w.strip.as_slice(), &puzzle.sides) {
                            let ghost old_words = words@;
                            let ghost wv = w.strip@;
                            words.push(w);
                            proof {
                                assert(admits(lv[i as int], sv, puzzle.whole.mask));
                                assert_seqs_equal!(strips(words@)
                                    == strips(old_words).push(wv));
                            }
                        } else {
                            proof {
                                assert(!admits(lv[i as int], sv, puzzle.whole.mask));
                            }
                        }
                    } else {
                        proof {
                            assert(!admits(lv[i as int], sv, puzzle.whole.mask));
                        }
                    }
                },
            }
        } else {
            proof {
                assert(!admits(lv[i as int], sv, puzzle.whole.mask));
            }
        }
    }
    words
}

/// A line with no spaces is admitted exactly when its canonical form has at
/// least three letters, all of them lie in the puzzle's combined mask, and
/// no two adjacent canonical letters resolve to the same side.  The second
/// premise says that the combined mask holds exactly the letters found on
/// some side.
pub proof fn lemma_admission(line: Seq<u8>, sides: Seq<Seq<u8>>, whole_mask: u32)
    requires
        no_space(line),
        forall|c: u8|
            is_upper(c) ==> ((whole_mask & #[trigger] bit_of(c) != 0) <==> exists|i: int|
                0 <= i < sides.len() && (#[trigger] sides[i]).contains(c)),
    ensures
        admits(line, sides, whole_mask) <==> {
            &&& canon(line).len() >= 3
            &&& mask_of(canon(line)) & whole_mask == mask_of(canon(line))
            &&& (forall|k: int|
                0 <= k < canon(line).len() - 1 ==> (#[trigger] side_of(canon(line)[k], sides))
                    != side_of(canon(line)[k + 1], sides))
        },
{
    lemma_canon_shape(line);
    let cl = canon(line);
    let m = mask_of(cl);
    if cl.len() >= 3 && m & whole_mask == m {
        let c0 = cl[0];
        assert(cl.contains(c0));
        lemma_mask_contains(cl, c0);
        let b = bit_of(c0);
        assert(whole_mask & b != 0) by (bit_vector)
            requires
                m & whole_mask == m,
                m & b != 0,
        ;
        lemma_side_of_bounds(c0, sides);
        assert(side_of(c0, sides) != -1);
    }
}

/// The admission law against a puzzle built from its comma-delimited text:
/// when the sides are the canonical forms of the text's pieces and the
/// combined mask comes from normalizing the whole text, a spaceless line is
/// admitted exactly when its canonical form has at least three letters, its
/// letters lie in the combined mask, and no two adjacent canonical letters
/// resolve to the same side.
pub proof fn lemma_admission_for_puzzle(
    line: Seq<u8>,
    text: Seq<u8>,
    sides: Seq<Seq<u8>>,
    whole_mask: u32,
)
    requires
        no_space(line),
        sides.len() == split_commas(text).len(),
        forall|i: int|
            0 <= i < sides.len() ==> sides[i] == canon(#[trigger] split_commas(text)[i]),
        whole_mask == mask_of(canon(text)),
    ensures
        admits(line, sides, whole_mask) <==> {
            &&& canon(line).len() >= 3
            &&& mask_of(canon(line)) & whole_mask == mask_of(canon(line))
            &&& (forall|k: int|
                0 <= k < canon(line).len() - 1 ==> (#[trigger] side_of(canon(line)[k], sides))
                    != side_of(canon(line)[k + 1], sides))
        },
{
    lemma_whole_mask_is_side_union(text, sides, whole_mask);
    lemma_admission(line, sides, whole_mask);
}

} // verus!
