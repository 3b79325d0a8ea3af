//! Letter normalization: canonical upper-case form and letter masks.

use vstd::prelude::*;

verus! {

/// True of the ASCII code of a letter, either case.
pub open spec fn is_alpha(c: u8) -> bool {
    (65 <= c && c <= 90) || (97 <= c && c <= 122)
}

/// True of the ASCII code of an upper-case letter.
pub open spec fn is_upper(c: u8) -> bool {
    65 <= c && c <= 90
}

/// Maps a lower-case ASCII letter to its upper-case form; every other byte is unchanged.
pub open spec fn to_upper(c: u8) -> u8 {
    if 97 <= c && c <= 122 {
        (c - 32) as u8
    } else {
        c
    }
}

/// The whole sequence mapped through `to_upper`.
pub open spec fn upper_all(s: Seq<u8>) -> Seq<u8> {
    s.map_values(|c: u8| to_upper(c))
}

/// The canonical form of a byte sequence: non-letters dropped, letters
/// upper-cased, order preserved.
pub open spec fn canon(s: Seq<u8>) -> Seq<u8>
    decreases s.len(),
{
    if s.len() == 0 {
        Seq::empty()
    } else if is_alpha(s.last()) {
        canon(s.drop_last()).push(to_upper(s.last()))
    } else {
        canon(s.drop_last())
    }
}

/// The mask bit of an upper-case letter: bit 0 for A up to bit 25 for Z.
pub open spec fn bit_of(c: u8) -> u32 {
    1u32 << ((c - 65) as u32)
}

/// The letter mask of a sequence of upper-case letters: the union of the
/// mask bits of its elements, duplicates collapsed.
pub open spec fn mask_of(s: Seq<u8>) -> u32
    decreases s.len(),
{
    if s.len() == 0 {
        0u32
    } else {
        mask_of(s.drop_last()) | bit_of(s.last())
    }
}

/// The views of a sequence of byte vectors, element by element.
pub open spec fn line_views(ls: Seq<Vec<u8>>) -> Seq<Seq<u8>> {
    ls.map_values(|l: Vec<u8>| l@)
}

/// True when some byte occurs twice in the sequence.
pub open spec fn has_dup(s: Seq<u8>) -> bool {
    exists|i: int, j: int| 0 <= i < j < s.len() && s[i] == s[j]
}

/// A normalized word: its canonical letters, first and last letter, and
/// letter mask.
pub struct Word {
    pub strip: Vec<u8>,
    pub start: u8,
    pub end: u8,
    pub mask: u32,
}

/// Well-formedness of a `Word`: the canonical letters are a non-empty
/// sequence of upper-case letters, and the remaining fields are determined
/// by them.
pub open spec fn wf_word(w: Word) -> bool {
    &&& w.strip@.len() > 0
    &&& (forall|k: int| 0 <= k < w.strip@.len() ==> is_upper(#[trigger] w.strip@[k]))
    &&& w.start == w.strip@[0]
    &&& w.end == w.strip@.last()
    &&& w.mask == mask_of(w.strip@)
}

/// Every canonical letter is an upper-case letter, and normalization never
/// lengthens its input.
pub proof fn lemma_canon_shape(s: Seq<u8>)
    ensures
        forall|k: int| 0 <= k < canon(s).len() ==> is_upper(#[trigger] canon(s)[k]),
        canon(s).len() <= s.len(),
    decreases s.len(),
{
    if s.len() == 0 {
    } else {
        lemma_canon_shape(s.drop_last());
    }
}

/// Normalization is insensitive to the case of its input: upper-casing the
/// raw bytes first changes neither the canonical form nor the letter mask.
pub proof fn lemma_mask_case_insensitive(s: Seq<u8>)
    ensures
        canon(upper_all(s)) == canon(s),
        mask_of(canon(upper_all(s))) == mask_of(canon(s)),
    decreases s.len(),
{
    if s.len() == 0 {
        assert(upper_all(s) =~= Seq::<u8>::empty());
    } else {
        lemma_mask_case_insensitive(s.drop_last());
        assert(upper_all(s).drop_last() =~= upper_all(s.drop_last()));
        assert(upper_all(s).last() == to_upper(s.last()));
        assert(is_alpha(to_upper(s.last())) == is_alpha(s.last()));
        assert(to_upper(to_upper(s.last())) == to_upper(s.last()));
    }
}

/// A letter's bit is set in the mask of an upper-case sequence exactly when
/// the letter occurs in the sequence.
pub proof fn lemma_mask_contains(s: Seq<u8>, c: u8)
    requires
        forall|k: int| 0 <= k < s.len() ==> is_upper(#[trigger] s[k]),
        is_upper(c),
    ensures
        (mask_of(s) & bit_of(c) != 0) <==> s.contains(c),
    decreases s.len(),
{
    if s.len() == 0 {
        let b = bit_of(c);
        assert(0u32 & b == 0) by (bit_vector);
    } else {
        lemma_mask_contains(s.drop_last(), c);
        let m = mask_of(s.drop_last());
        let b1 = bit_of(s.last());
        let b2 = bit_of(c);
        assert(((m | b1) & b2 != 0) <==> (m & b2 != 0 || b1 & b2 != 0)) by (bit_vector);
        let d1 = ((s.last() - 65) as u32);
        let d2 = ((c - 65) as u32);
        assert(d1 < 26 && d2 < 26);
        assert(((1u32 << d1) & (1u32 << d2) != 0) <==> d1 == d2) by (bit_vector)
            requires
                d1 < 26 && d2 < 26,
        ;
        assert((d1 == d2) <==> (s.last() == c));
        if s.drop_last().contains(c) {
            let k = choose|k: int| 0 <= k < s.drop_last().len() && s.drop_last()[k] == c;
            assert(s[k] == c);
        }
        if s.contains(c) {
            let k = choose|k: int| 0 <= k < s.len() && s[k] == c;
            if k < s.len() - 1 {
                assert(s.drop_last()[k] == c);
            }
        }
    }
}

/// Normalizes a byte sequence into a [`Word`]: drops non-letters,
/// upper-cases the rest, and records the first letter, last letter and
/// letter mask.  Returns `None` when the input holds no letter at all.
pub fn make_word(bytes: &[u8]) -> (r: Option<Word>)
    ensures
        match r {
            Some(w) => canon(bytes@).len() > 0 && w.strip@ == canon(bytes@) && wf_word(w),
            None => canon(bytes@).len() == 0,
        },
{
    let mut strp: Vec<u8> = Vec::new();
    let mut msk: u32 = 0;
    let n = bytes.len();
    for i in 0..n
        invariant
            n == bytes@.len(),
            strp@ == canon(bytes@.subrange(0, i as int)),
            msk == mask_of(canon(bytes@.subrange(0, i as int))),
    {
        let c = bytes[i];
        proof {
            assert(bytes@.subrange(0, i + 1).drop_last() =~= bytes@.subrange(0, i as int));
            assert(bytes@.subrange(0, i + 1).last() == c);
            let q = canon(bytes@.subrange(0, i as int));
            if is_alpha(c) {
                let u = to_upper(c);
                assert(q.push(u).drop_last() =~= q);
                assert(mask_of(q.push(u)) == mask_of(q) | bit_of(u));
            }
        }
        if 65 <= c && c <= 90 {
            strp.push(c);
            msk = msk | (1u32 << ((c - 65) as u32));
        } else if 97 <= c && c <= 122 {
            proof {
                assert(bit_of(to_upper(c)) == 1u32 << ((c - 97) as u32));
            }
            strp.push(c - 32);
            msk = msk | (1u32 << ((c - 97) as u32));
        }
    }
    proof {
        assert(bytes@.subrange(0, n as int) =~= bytes@);
        lemma_canon_shape(bytes@);
    }
    if strp.len() == 0 {
        None
    } else {
        let sb: u8 = strp[0];
        let eb: u8 = strp[strp.len() - 1];
        Some(Word { strip: strp, start: sb, end: eb, mask: msk })
    }
}

/// True when some letter occurs more than once in the word's canonical form.
pub fn has_repeating_letters(w: &Word) -> (r: bool)
    ensures
        r == has_dup(w.strip@),
{
    let bytes = &w.strip;
    let n = bytes.len();
    for i in 0..n
        invariant
            bytes@ == w.strip@,
            n == bytes@.len(),
            forall|a: int, b: int| 0 <= a < i && a < b < n ==> bytes@[a] != bytes@[b],
    {
        for j in (i + 1)..n
            invariant
                bytes@ == w.strip@,
                n == bytes@.len(),
                i < n,
                forall|a: int, b: int| 0 <= a < i && a < b < n ==> bytes@[a] != bytes@[b],
                forall|b: int| i < b < j ==> bytes@[i as int] != bytes@[b],
        {
            if bytes[i] == bytes[j] {
                proof {
                    assert((i as int) < (j as int) && (j as int) < w.strip@.len());
                    assert(w.strip@[i as int] == w.strip@[j as int]);
                }
                return true;
            }
        }
    }
    false
}

} // verus!
