//! The puzzle model: sides, the combined letter set, and side lookup.

use vstd::prelude::*;
use vstd::assert_seqs_equal;
use crate::word::{
    Word, bit_of, canon, has_dup, is_upper, lemma_canon_shape, lemma_mask_contains, line_views,
    make_word, has_repeating_letters, mask_of, wf_word,
};

verus! {

/// The canonical letter sequences of a list of words.
pub open spec fn strips(ws: Seq<Word>) -> Seq<Seq<u8>> {
    ws.map_values(|w: Word| w.strip@)
}

/// The index of the first side whose letters contain `c`, or -1 when no
/// side does.
pub open spec fn side_of(c: u8, sides: Seq<Seq<u8>>) -> int
    decreases sides.len(),
{
    if sides.len() == 0 {
        -1
    } else if sides.first().contains(c) {
        0
    } else {
        let r = side_of(c, sides.drop_first());
        if r == -1 {
            -1
        } else {
            r + 1
        }
    }
}

pub proof fn lemma_side_of_found(c: u8, sides: Seq<Seq<u8>>, i: int)
    requires
        0 <= i < sides.len(),
        sides[i].contains(c),
        forall|j: int| 0 <= j < i ==> !(#[trigger] sides[j]).contains(c),
    ensures
        side_of(c, sides) == i,
    decreases i,
{
    if i == 0 {
    } else {
        assert(sides.first() == sides[0]);
        assert(forall|j: int| 0 <= j < sides.len() - 1 ==> #[trigger] sides.drop_first()[j]
            == sides[j + 1]);
        lemma_side_of_found(c, sides.drop_first(), i - 1);
    }
}

pub proof fn lemma_side_of_none(c: u8, sides: Seq<Seq<u8>>)
    requires
        forall|j: int| 0 <= j < sides.len() ==> !(#[trigger] sides[j]).contains(c),
    ensures
        side_of(c, sides) == -1,
    decreases sides.len(),
{
    if sides.len() == 0 {
    } else {
        assert(sides.first() == sides[0]);
        assert(forall|j: int| 0 <= j < sides.len() - 1 ==> #[trigger] sides.drop_first()[j]
            == sides[j + 1]);
        lemma_side_of_none(c, sides.drop_first());
    }
}

/// What the sentinel and a real side index mean: -1 exactly when no side
/// holds the letter, otherwise the first side that does.
pub proof fn lemma_side_of_bounds(c: u8, sides: Seq<Seq<u8>>)
    ensures
        side_of(c, sides) == -1 ==> forall|j: int|
            0 <= j < sides.len() ==> !(#[trigger] sides[j]).contains(c),
        side_of(c, sides) != -1 ==> 0 <= side_of(c, sides) < sides.len() && sides[side_of(
            c,
            sides,
        )].contains(c),
    decreases sides.len(),
{
    if sides.len() == 0 {
    } else {
        assert(sides.first() == sides[0]);
        assert(forall|j: int| 0 <= j < sides.len() - 1 ==> #[trigger] sides.drop_first()[j]
            == sides[j + 1]);
        lemma_side_of_bounds(c, sides.drop_first());
        if side_of(c, sides) == -1 {
            assert forall|j: int| 0 <= j < sides.len() implies !(#[trigger] sides[j]).contains(
                c,
            ) by {
                if j > 0 {
                    assert(sides.drop_first()[j - 1] == sides[j]);
                    assert(!sides.drop_first()[j - 1].contains(c));
                }
            }
        }
    }
}

/// True when no two consecutive letters of `s` resolve to the same side
/// index, and the first letter lies on some side.
pub open spec fn chain_ok(s: Seq<u8>, sides: Seq<Seq<u8>>) -> bool {
    s.len() == 0 || (side_of(s[0], sides) != -1 && forall|k: int|
        0 <= k < s.len() - 1 ==> (#[trigger] side_of(s[k], sides)) != side_of(s[k + 1], sides))
}

fn strip_contains(s: &Vec<u8>, c: u8) -> (r: bool)
    ensures
        r == s@.contains(c),
{
    let n = s.len();
    for k in 0..n
        invariant
            n == s@.len(),
            forall|t: int| 0 <= t < k ==> s@[t] != c,
    {
        if s[k] == c {
            proof {
                assert(s@[k as int] == c);
            }
            return true;
        }
    }
    false
}

/// The index of the first puzzle side whose letters contain `*byte`, or -1
/// when the byte is on no side.
pub fn get_side(byte: &u8, sides: &Vec<Word>) -> (r: i32)
    requires
        sides@.len() <= 0x7fff_ffff,
    ensures
        r as int == side_of(*byte, strips(sides@)),
{
    let c = *byte;
    let n = sides.len();
    for i in 0..n
        invariant
            c == *byte,
            n == sides@.len(),
            n <= 0x7fff_ffff,
            forall|j: int| 0 <= j < i ==> !(#[trigger] strips(sides@)[j]).contains(c),
    {
        proof {
            assert(strips(sides@)[i as int] == sides@[i as int].strip@);
        }
        if strip_contains(&sides[i].strip, c) {
            proof {
                lemma_side_of_found(c, strips(sides@), i as int);
            }
            return i as i32;
        }
    }
    proof {
        lemma_side_of_none(c, strips(sides@));
    }
    -1
}

/// True when walking `bytes` letter by letter never lands on the same side
/// twice in a row (a letter on no side counts as the sentinel -1, which
/// also clashes with the initial state and with another such letter).
pub fn no_repeated_sides(bytes: &[u8], sides: &Vec<Word>) -> (r: bool)
    requires
        sides@.len() <= 0x7fff_ffff,
    ensures
        r == chain_ok(bytes@, strips(sides@)),
{
    let mut last_side: i32 = -1;
    let n = bytes.len();
    for i in 0..n
        invariant
            n == bytes@.len(),
            sides@.len() <= 0x7fff_ffff,
            last_side as int == if i == 0 {
                -1
            } else {
                side_of(bytes@[i - 1], strips(sides@))
            },
            i > 0 ==> side_of(bytes@[0], strips(sides@)) != -1,
            forall|k: int|
                0 <= k < i - 1 ==> (#[trigger] side_of(bytes@[k], strips(sides@))) != side_of(
                    bytes@[k + 1],
                    strips(sides@),
                ),
    {
        let this_side = get_side(&bytes[i], sides);
        if this_side == last_side {
            proof {
                if i > 0 {
                    assert(side_of(bytes@[i - 1], strips(sides@)) == side_of(
                        bytes@[i as int],
                        strips(sides@),
                    ));
                }
            }
            return false;
        }
        last_side = this_side;
    }
    true
}

/// The pieces of a byte sequence split on commas; an input without commas
/// is a single piece, and empty pieces are kept.
pub open spec fn split_commas(s: Seq<u8>) -> Seq<Seq<u8>>
    decreases s.len(),
{
    if s.len() == 0 {
        seq![Seq::empty()]
    } else if s.last() == 44 {
        split_commas(s.drop_last()).push(Seq::empty())
    } else {
        let init = split_commas(s.drop_last());
        init.update(init.len() - 1, init.last().push(s.last()))
    }
}

pub proof fn lemma_split_commas_len(s: Seq<u8>)
    ensures
        split_commas(s).len() >= 1,
    decreases s.len(),
{
    if s.len() == 0 {
    } else {
        lemma_split_commas_len(s.drop_last());
    }
}

fn split_sides(text: &[u8]) -> (parts: Vec<Vec<u8>>)
    ensures
        line_views(parts@) == split_commas(text@),
        parts@.len() >= 1,
{
    let mut parts: Vec<Vec<u8>> = Vec::new();
    parts.push(Vec::new());
    proof {
        assert_seqs_equal!(line_views(parts@) == split_commas(text@.subrange(0, 0)));
    }
    let n = text.len();
    for i in 0..n
        invariant
            n == text@.len(),
            parts@.len() >= 1,
            line_views(parts@) == split_commas(text@.subrange(0, i as int)),
    {
        let c = text[i];
        proof {
            assert(text@.subrange(0, i + 1).drop_last() =~= text@.subrange(0, i as int));
            assert(text@.subrange(0, i + 1).last() == c);
        }
        if c == 44 {
            let ghost old_parts = parts@;
            let empty: Vec<u8> = Vec::new();
            parts.push(empty);
            proof {
                assert_seqs_equal!(line_views(parts@)
                    == line_views(old_parts).push(Seq::empty()));
            }
        } else {
            let ghost old_parts = parts@;
            let mut lastp = match parts.pop() {
                Some(p) => p,
                None => Vec::new(),
            };
            lastp.push(c);
            parts.push(lastp);
            proof {
                let prev = split_commas(text@.subrange(0, i as int));
                assert(lastp@ == old_parts.last()@.push(c));
                assert_seqs_equal!(line_views(parts@)
                    == prev.update(prev.len() - 1, prev.last().push(c)), k => {
                    assert(line_views(old_parts)[old_parts.len() - 1] == old_parts.last()@);
                    if k < old_parts.len() - 1 {
                        assert(line_views(old_parts)[k] == old_parts[k]@);
                        assert(parts@[k] == old_parts[k]);
                    }
                });
            }
        }
    }
    proof {
        assert(text@.subrange(0, n as int) =~= text@);
    }
    parts
}

/// The union of the letter masks of the canonical forms of the pieces.
pub open spec fn union_mask(parts: Seq<Seq<u8>>) -> u32
    decreases parts.len(),
{
    if parts.len() == 0 {
        0u32
    } else {
        union_mask(parts.drop_last()) | mask_of(canon(parts.last()))
    }
}

/// Normalizing a comma-delimited text as a whole gives the same letter
/// mask as normalizing each comma-separated piece and joining the masks.
pub proof fn lemma_split_mask(s: Seq<u8>)
    ensures
        mask_of(canon(s)) == union_mask(split_commas(s)),
    decreases s.len(),
{
    lemma_split_commas_len(s);
    if s.len() == 0 {
        let q = seq![Seq::<u8>::empty()];
        assert(q.len() == 1);
        assert(q.drop_last() =~= Seq::<Seq<u8>>::empty());
        assert(q.last() =~= Seq::<u8>::empty());
        assert(union_mask(Seq::<Seq<u8>>::empty()) == 0u32);
        assert(canon(Seq::<u8>::empty()) =~= Seq::<u8>::empty());
        assert(mask_of(Seq::<u8>::empty()) == 0u32);
        assert(union_mask(q) == 0u32 | 0u32);
        assert(0u32 | 0u32 == 0u32) by (bit_vector);
    } else {
        lemma_split_mask(s.drop_last());
        lemma_split_commas_len(s.drop_last());
        let c = s.last();
        let init = split_commas(s.drop_last());
        let u = union_mask(init.drop_last());
        let ml = mask_of(canon(init.last()));
        if c == 44 {
            let q = init.push(Seq::<u8>::empty());
            assert(q.drop_last() =~= init);
            assert(union_mask(q) == union_mask(init) | mask_of(canon(Seq::empty())));
            assert(forall|m: u32| m | 0u32 == m) by (bit_vector);
        } else {
            let q = init.update(init.len() - 1, init.last().push(c));
            assert(q.drop_last() =~= init.drop_last());
            assert(q.last() == init.last().push(c));
            assert(union_mask(q) == u | mask_of(canon(init.last().push(c))));
            assert(init.last().push(c).drop_last() =~= init.last());
            if (65 <= c && c <= 90) || (97 <= c && c <= 122) {
                let b = bit_of(crate::word::to_upper(c));
                assert(canon(s) == canon(s.drop_last()).push(crate::word::to_upper(c)));
                assert(canon(s).drop_last() =~= canon(s.drop_last()));
                assert(mask_of(canon(s)) == mask_of(canon(s.drop_last())) | b);
                assert(canon(init.last().push(c)) == canon(init.last()).push(
                    crate::word::to_upper(c),
                ));
                assert(canon(init.last().push(c)).drop_last() =~= canon(init.last()));
                assert(mask_of(canon(init.last().push(c))) == ml | b);
                assert(mask_of(canon(s.drop_last())) == u | ml);
                assert(forall|x: u32, y: u32, z: u32| (x | y) | z == x | (y | z)) by (bit_vector);
            } else {
                assert(canon(s) == canon(s.drop_last()));
                assert(canon(init.last().push(c)) == canon(init.last()));
                assert(union_mask(q) == u | ml);
            }
        }
    }
}

proof fn lemma_union_mask_bit(parts: Seq<Seq<u8>>, c: u8)
    ensures
        (union_mask(parts) & bit_of(c) != 0) <==> exists|i: int|
            0 <= i < parts.len() && mask_of(canon(#[trigger] parts[i])) & bit_of(c) != 0,
    decreases parts.len(),
{
    let b = bit_of(c);
    if parts.len() == 0 {
        assert(0u32 & b == 0) by (bit_vector);
    } else {
        lemma_union_mask_bit(parts.drop_last(), c);
        let u = union_mask(parts.drop_last());
        let ml = mask_of(canon(parts.last()));
        assert(((u | ml) & b != 0) <==> (u & b != 0 || ml & b != 0)) by (bit_vector);
        if u & b != 0 {
            let i = choose|i: int|
                0 <= i < parts.drop_last().len() && mask_of(
                    canon(#[trigger] parts.drop_last()[i]),
                ) & b != 0;
            assert(parts[i] == parts.drop_last()[i]);
        }
        if ml & b != 0 {
            assert(parts[parts.len() - 1] == parts.last());
        }
        if exists|i: int| 0 <= i < parts.len() && mask_of(canon(#[trigger] parts[i])) & b != 0 {
            let i = choose|i: int|
                0 <= i < parts.len() && mask_of(canon(#[trigger] parts[i])) & b != 0;
            if i < parts.len() - 1 {
                assert(parts.drop_last()[i] == parts[i]);
            }
        }
    }
}

/// For a puzzle whose sides are the canonical forms of the comma-separated
/// pieces of the text, and whose combined mask comes from normalizing the
/// whole text, the combined mask holds exactly the letters found on some
/// side.
pub proof fn lemma_whole_mask_is_side_union(text: Seq<u8>, sides: Seq<Seq<u8>>, whole_mask: u32)
    requires
        sides.len() == split_commas(text).len(),
        forall|i: int|
            0 <= i < sides.len() ==> sides[i] == canon(#[trigger] split_commas(text)[i]),
        whole_mask == mask_of(canon(text)),
    ensures
        forall|c: u8|
            is_upper(c) ==> ((whole_mask & #[trigger] bit_of(c) != 0) <==> exists|i: int|
                0 <= i < sides.len() && (#[trigger] sides[i]).contains(c)),
{
    lemma_split_mask(text);
    let parts = split_commas(text);
    assert forall|c: u8|
        is_upper(c) implies ((whole_mask & #[trigger] bit_of(c) != 0) <==> exists|i: int|
        0 <= i < sides.len() && (#[trigger] sides[i]).contains(c)) by {
        lemma_union_mask_bit(parts, c);
        assert forall|i: int| 0 <= i < parts.len() implies ((mask_of(
            canon(#[trigger] parts[i]),
        ) & bit_of(c) != 0) <==> sides[i].contains(c)) by {
            lemma_canon_shape(parts[i]);
            lemma_mask_contains(canon(parts[i]), c);
            assert(sides[i] == canon(parts[i]));
        }
        if whole_mask & bit_of(c) != 0 {
            let i = choose|i: int|
                0 <= i < parts.len() && mask_of(canon(#[trigger] parts[i])) & bit_of(c) != 0;
            assert(sides[i].contains(c));
        }
        if exists|i: int| 0 <= i < sides.len() && (#[trigger] sides[i]).contains(c) {
            let i = choose|i: int| 0 <= i < sides.len() && (#[trigger] sides[i]).contains(c);
            assert(mask_of(canon(parts[i])) & bit_of(c) != 0);
        }
    }
}

/// The reasons puzzle construction can fail.
#[derive(Clone, Copy, PartialEq, Eq, Structural, Debug)]
pub enum PuzzleError {
    /// The puzzle text splits into fewer than three sides.
    TooFewSides,
    /// Some letter occurs more than once across the whole puzzle.
    RepeatingLetter,
    /// A side, or the whole puzzle, holds no letter at all.
    InvalidWord,
}

/// A validated puzzle: one normalized word per side, and the whole puzzle
/// text normalized into a single word.
pub struct Puzzle {
    pub sides: Vec<Word>,
    pub whole: Word,
}

/// Builds a puzzle from its comma-delimited text: splits into sides,
/// normalizes each, and validates that there are at least three sides and
/// that no letter repeats across the whole puzzle.
pub fn build_puzzle(text: &[u8]) -> (r: Result<Puzzle, PuzzleError>)
    ensures
        match r {
            Ok(p) => {
                &&& split_commas(text@).len() >= 3
                &&& (forall|i: int|
                    0 <= i < split_commas(text@).len() ==> canon(
                        #[trigger] split_commas(text@)[i],
                    ).len() > 0)
                &&& canon(text@).len() > 0
                &&& !has_dup(canon(text@))
                &&& p.sides@.len() == split_commas(text@).len()
                &&& (forall|i: int|
                    0 <= i < p.sides@.len() ==> (#[trigger] p.sides@[i]).strip@ == canon(
                        split_commas(text@)[i],
                    ) && wf_word(p.sides@[i]))
                &&& p.whole.strip@ == canon(text@)
                &&& wf_word(p.whole)
            },
            Err(PuzzleError::InvalidWord) => (exists|i: int|
                0 <= i < split_commas(text@).len() && canon(
                    #[trigger] split_commas(text@)[i],
                ).len() == 0) || canon(text@).len() == 0,
            Err(PuzzleError::TooFewSides) => split_commas(text@).len() < 3 && (forall|i: int|
                0 <= i < split_commas(text@).len() ==> canon(
                    #[trigger] split_commas(text@)[i],
                ).len() > 0),
            Err(PuzzleError::RepeatingLetter) => {
                &&& split_commas(text@).len() >= 3
                &&& (forall|i: int|
                    0 <= i < split_commas(text@).len() ==> canon(
                        #[trigger] split_commas(text@)[i],
                    ).len() > 0)
                &&& canon(text@).len() > 0
                &&& has_dup(canon(text@))
            },
        },
{
    let parts = split_sides(text);
    let mut sides: Vec<Word> = Vec::new();
    let np = parts.len();
    for i in 0..np
        invariant
            np == parts@.len(),
            line_views(parts@) == split_commas(text@),
            sides@.len() == i,
            forall|j: int|
                0 <= j < i ==> (#[trigger] sides@[j]).strip@ == canon(split_commas(text@)[j])
                    && wf_word(sides@[j]),
            forall|j: int| 0 <= j < i ==> canon(#[trigger] split_commas(text@)[j]).len() > 0,
    {
        proof {
            assert(line_views(parts@)[i as int] == parts@[i as int]@);
        }
        match make_word(parts[i].as_slice()) {
            None => {
                proof {
                    assert(canon(split_commas(text@)[i as int]).len() == 0);
                }
                return Err(PuzzleError::InvalidWord);
            },
            Some(w) => {
                sides.push(w);
            },
        }
    }
    if sides.len() < 3 {
        return Err(PuzzleError::TooFewSides);
    }
    match make_word(text) {
        None => Err(PuzzleError::InvalidWord),
        Some(whole) => {
            if has_repeating_letters(&whole) {
                Err(PuzzleError::RepeatingLetter)
            } else {
                Ok(Puzzle { sides, whole })
            }
        },
    }
}

} // verus!
