//! The pairwise search over the valid-word collection.

use vstd::prelude::*;
use vstd::assert_seqs_equal;
use crate::word::{Word, wf_word};
use crate::filter::admitted_canons;
use crate::puzzle::strips;

verus! {

/// One reported solution: the indices of the two words in the valid-word
/// collection, in play order.
#[derive(Clone, Copy, PartialEq, Eq, Structural, Debug)]
pub struct Solution {
    pub w1: usize,
    pub w2: usize,
}

/// True when the two words chain (the first's last letter is the second's
/// first letter) and together cover every letter of the combined mask.
pub open spec fn pair_ok(w1: Word, w2: Word, whole_mask: u32) -> bool {
    w1.end == w2.start && ((w1.mask | w2.mask) & whole_mask) == whole_mask
}

/// The index pairs reported for word `i` against the first `j` candidates.
pub open spec fn row_upto(ws: Seq<Word>, whole_mask: u32, i: int, j: int) -> Seq<(int, int)>
    decreases j,
{
    if j <= 0 {
        Seq::empty()
    } else {
        let rest = row_upto(ws, whole_mask, i, j - 1);
        if pair_ok(ws[i], ws[j - 1], whole_mask) {
            rest.push((i, j - 1))
        } else {
            rest
        }
    }
}

/// The index pairs reported for the first `i` words, each against the
/// whole collection, in nested iteration order.
pub open spec fn sols_upto(ws: Seq<Word>, whole_mask: u32, i: int) -> Seq<(int, int)>
    decreases i,
{
    if i <= 0 {
        Seq::empty()
    } else {
        sols_upto(ws, whole_mask, i - 1) + row_upto(ws, whole_mask, i - 1, ws.len() as int)
    }
}

/// Every reported index pair, in nested iteration order.
pub open spec fn solutions(ws: Seq<Word>, whole_mask: u32) -> Seq<(int, int)> {
    sols_upto(ws, whole_mask, ws.len() as int)
}

/// The view of a reported pair list as index pairs.
pub open spec fn sol_views(rs: Seq<Solution>) -> Seq<(int, int)> {
    rs.map_values(|s: Solution| (s.w1 as int, s.w2 as int))
}

/// Tries every ordered pair of valid words, a word against itself
/// included, and reports each pair that chains and covers the combined
/// mask, in nested iteration order.
pub fn solve(words: &Vec<Word>, whole_mask: u32) -> (rs: Vec<Solution>)
    ensures
        sol_views(rs@) == solutions(words@, whole_mask),
{
    let mut rs: Vec<Solution> = Vec::new();
    let n = words.len();
    proof {
        assert(sol_views(rs@) =~= Seq::<(int, int)>::empty());
    }
    for i in 0..n
        invariant
            n == words@.len(),
            sol_views(rs@) == sols_upto(words@, whole_mask, i as int),
    {
        proof {
            assert(sols_upto(words@, whole_mask, i as int) + row_upto(
                words@,
                whole_mask,
                i as int,
                0,
            ) =~= sols_upto(words@, whole_mask, i as int));
        }
        for j in 0..n
            invariant
                n == words@.len(),
                i < n,
                sol_views(rs@) == sols_upto(words@, whole_mask, i as int) + row_upto(
                    words@,
                    whole_mask,
                    i as int,
                    j as int,
                ),
        {
            if words[i].end == words[j].start && ((words[i].mask | words[j].mask) & whole_mask)
                == whole_mask {
                let ghost old_rs = rs@;
                rs.push(Solution { w1: i, w2: j });
                proof {
                    assert(pair_ok(words@[i as int], words@[j as int], whole_mask));
                    assert_seqs_equal!(sol_views(rs@)
                        == sol_views(old_rs).push((i as int, j as int)));
                }
            }
        }
    }
    rs
}

/// For two words whose letters all lie in the combined mask, covering the
/// combined mask is the same as the union of the two letter masks being
/// exactly the combined mask.
pub proof fn lemma_cover_is_equality(m1: u32, m2: u32, whole_mask: u32)
    requires
        m1 & whole_mask == m1,
        m2 & whole_mask == m2,
    ensures
        (((m1 | m2) & whole_mask) == whole_mask) <==> ((m1 | m2) == whole_mask),
{
    assert((((m1 | m2) & whole_mask) == whole_mask) <==> ((m1 | m2) == whole_mask))
        by (bit_vector)
        requires
            m1 & whole_mask == m1,
            m2 & whole_mask == m2,
    ;
}

proof fn lemma_push_contains<T>(s: Seq<T>, x: T, y: T)
    ensures
        s.push(x).contains(y) <==> (s.contains(y) || x == y),
{
    if s.push(x).contains(y) {
        let k = choose|k: int| 0 <= k < s.push(x).len() && s.push(x)[k] == y;
        if k < s.len() {
            assert(s[k] == y);
        }
    }
    if s.contains(y) {
        let k = choose|k: int| 0 <= k < s.len() && s[k] == y;
        assert(s.push(x)[k] == y);
    }
    assert(s.push(x)[s.len() as int] == x);
}

proof fn lemma_concat_contains<T>(s1: Seq<T>, s2: Seq<T>, y: T)
    ensures
        (s1 + s2).contains(y) <==> (s1.contains(y) || s2.contains(y)),
{
    if (s1 + s2).contains(y) {
        let k = choose|k: int| 0 <= k < (s1 + s2).len() && (s1 + s2)[k] == y;
        if k < s1.len() {
            assert(s1[k] == y);
        } else {
            assert(s2[k - s1.len()] == y);
        }
    }
    if s1.contains(y) {
        let k = choose|k: int| 0 <= k < s1.len() && s1[k] == y;
        assert((s1 + s2)[k] == y);
    }
    if s2.contains(y) {
        let k = choose|k: int| 0 <= k < s2.len() && s2[k] == y;
        assert((s1 + s2)[k + s1.len()] == y);
    }
}

proof fn lemma_row_upto_contains(ws: Seq<Word>, wm: u32, i: int, jmax: int, a: int, b: int)
    ensures
        row_upto(ws, wm, i, jmax).contains((a, b)) <==> (a == i && 0 <= b < jmax && pair_ok(
            ws[i],
            ws[b],
            wm,
        )),
    decreases jmax,
{
    if jmax <= 0 {
    } else {
        lemma_row_upto_contains(ws, wm, i, jmax - 1, a, b);
        lemma_push_contains(row_upto(ws, wm, i, jmax - 1), (i, jmax - 1), (a, b));
    }
}

proof fn lemma_sols_upto_contains(ws: Seq<Word>, wm: u32, imax: int, a: int, b: int)
    ensures
        sols_upto(ws, wm, imax).contains((a, b)) <==> (0 <= a < imax && 0 <= b < ws.len()
            && pair_ok(ws[a], ws[b], wm)),
    decreases imax,
{
    if imax <= 0 {
    } else {
        lemma_sols_upto_contains(ws, wm, imax - 1, a, b);
        lemma_row_upto_contains(ws, wm, imax - 1, ws.len() as int, a, b);
        lemma_concat_contains(
            sols_upto(ws, wm, imax - 1),
            row_upto(ws, wm, imax - 1, ws.len() as int),
            (a, b),
        );
    }
}

/// A pair of indices is reported exactly when both indices are in range,
/// the first word's last letter equals the second word's first letter, and
/// the two letter masks together cover the whole combined mask.  A word
/// paired with itself is reported under the same conditions.
pub proof fn lemma_solution_reported(ws: Seq<Word>, whole_mask: u32, i: int, j: int)
    ensures
        solutions(ws, whole_mask).contains((i, j)) <==> (0 <= i < ws.len() && 0 <= j < ws.len()
            && pair_ok(ws[i], ws[j], whole_mask)),
{
    lemma_sols_upto_contains(ws, whole_mask, ws.len() as int, i, j);
}

proof fn lemma_row_congruent(ws1: Seq<Word>, ws2: Seq<Word>, wm: u32, i: int, j: int)
    requires
        ws1.len() == ws2.len(),
        0 <= i < ws1.len(),
        j <= ws1.len(),
        forall|k: int|
            0 <= k < ws1.len() ==> ((#[trigger] ws1[k]).start == ws2[k].start && ws1[k].end
                == ws2[k].end && ws1[k].mask == ws2[k].mask),
    ensures
        row_upto(ws1, wm, i, j) == row_upto(ws2, wm, i, j),
    decreases j,
{
    if j <= 0 {
    } else {
        lemma_row_congruent(ws1, ws2, wm, i, j - 1);
    }
}

proof fn lemma_sols_congruent(ws1: Seq<Word>, ws2: Seq<Word>, wm: u32, i: int)
    requires
        ws1.len() == ws2.len(),
        i <= ws1.len(),
        forall|k: int|
            0 <= k < ws1.len() ==> ((#[trigger] ws1[k]).start == ws2[k].start && ws1[k].end
                == ws2[k].end && ws1[k].mask == ws2[k].mask),
    ensures
        sols_upto(ws1, wm, i) == sols_upto(ws2, wm, i),
    decreases i,
{
    if i <= 0 {
    } else {
        lemma_sols_congruent(ws1, ws2, wm, i - 1);
        lemma_row_congruent(ws1, ws2, wm, i - 1, ws1.len() as int);
    }
}

/// Running the pipeline twice over the same dictionary lines and the same
/// puzzle data gives the same canonical word list and the same reported
/// pairs: the output is determined by the inputs alone.
pub proof fn lemma_pipeline_deterministic(
    lines: Seq<Seq<u8>>,
    sides: Seq<Seq<u8>>,
    whole_mask: u32,
    ws1: Seq<Word>,
    ws2: Seq<Word>,
)
    requires
        strips(ws1) == admitted_canons(lines, sides, whole_mask, lines.len() as int),
        strips(ws2) == admitted_canons(lines, sides, whole_mask, lines.len() as int),
        forall|k: int| 0 <= k < ws1.len() ==> wf_word(#[trigger] ws1[k]),
        forall|k: int| 0 <= k < ws2.len() ==> wf_word(#[trigger] ws2[k]),
    ensures
        strips(ws1) == strips(ws2),
        solutions(ws1, whole_mask) == solutions(ws2, whole_mask),
{
    assert(ws1.len() == strips(ws1).len());
    assert(ws2.len() == strips(ws2).len());
    assert forall|k: int|
        0 <= k < ws1.len() implies ((#[trigger] ws1[k]).start == ws2[k].start && ws1[k].end
        == ws2[k].end && ws1[k].mask == ws2[k].mask) by {
        assert(strips(ws1)[k] == ws1[k].strip@);
        assert(strips(ws2)[k] == ws2[k].strip@);
        assert(ws1[k].strip@ == ws2[k].strip@);
    }
    lemma_sols_congruent(ws1, ws2, whole_mask, ws1.len() as int);
}

} // verus!
