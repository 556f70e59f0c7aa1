//! A verified edit-distance metric: the lexical similarity oracle, scored in
//! thousandths so that the decision thresholds are exact integers.

use vstd::prelude::*;
use vstd::arithmetic::div_mod::{lemma_div_is_ordered, lemma_div_multiples_vanish};
use crate::alignment::text_processor::{
    prep_for_distance_measuring_chars, spec_prep_for_distance_measuring,
};
use crate::chars::str_to_chars;

verus! {

pub open spec fn spec_min3(a: int, b: int, c: int) -> int {
    if a <= b && a <= c {
        a
    } else if b <= c {
        b
    } else {
        c
    }
}

/// Edit distance between the first `i` characters of `a` and the first `j`
/// characters of `b`: the least number of single-character insertions,
/// deletions and substitutions turning one into the other.
pub open spec fn spec_lev(a: Seq<char>, b: Seq<char>, i: int, j: int) -> int
    decreases i + j,
{
    if i <= 0 {
        if j <= 0 {
            0
        } else {
            j
        }
    } else if j <= 0 {
        i
    } else {
        let c: int = if a[i - 1] == b[j - 1] {
            0
        } else {
            1
        };
        spec_min3(
            spec_lev(a, b, i - 1, j) + 1,
            spec_lev(a, b, i, j - 1) + 1,
            spec_lev(a, b, i - 1, j - 1) + c,
        )
    }
}

/// The distance is non-negative and never exceeds the longer prefix.
pub proof fn lemma_lev_bounds(a: Seq<char>, b: Seq<char>, i: int, j: int)
    requires
        0 <= i,
        0 <= j,
    ensures
        0 <= spec_lev(a, b, i, j),
        spec_lev(a, b, i, j) <= (if i >= j {
            i
        } else {
            j
        }),
    decreases i + j,
{
    if i <= 0 || j <= 0 {
    } else {
        lemma_lev_bounds(a, b, i - 1, j);
        lemma_lev_bounds(a, b, i, j - 1);
        lemma_lev_bounds(a, b, i - 1, j - 1);
    }
}

/// A sequence is at distance zero from itself.
pub proof fn lemma_lev_self(a: Seq<char>, i: int)
    requires
        0 <= i <= a.len(),
    ensures
        spec_lev(a, a, i, i) == 0,
    decreases i,
{
    if i > 0 {
        lemma_lev_self(a, i - 1);
        lemma_lev_bounds(a, a, i - 1, i);
        lemma_lev_bounds(a, a, i, i - 1);
    }
}

/// Edit distance between two character vectors, by the usual row-by-row
/// dynamic programme.
pub fn levenshtein(a: &Vec<char>, b: &Vec<char>) -> (r: usize)
    ensures
        r == spec_lev(a@, b@, a@.len() as int, b@.len() as int),
{
    let n = a.len();
    let m = b.len();

    // row for i == 0: the distance to the empty prefix is the length
    let mut prev: Vec<usize> = Vec::new();
    prev.push(0);
    while prev.len() <= m
        invariant
            n == a@.len(),
            m == b@.len(),
            1 <= prev@.len() <= m + 1,
            forall|j: int| 0 <= j < prev@.len() ==> prev@[j] == spec_lev(a@, b@, 0, j),
        decreases m + 1 - prev.len(),
    {
        let j = prev.len();
        prev.push(j);
    }

    let mut i0: usize = 0;
    while i0 < n
        invariant
            n == a@.len(),
            m == b@.len(),
            i0 <= n,
            prev@.len() == m + 1,
            forall|j: int| 0 <= j <= m ==> prev@[j] == spec_lev(a@, b@, i0 as int, j),
        decreases n - i0,
    {
        let i = i0 + 1;
        let mut cur: Vec<usize> = Vec::new();
        cur.push(i);
        proof {
            assert(cur@[0] == spec_lev(a@, b@, i as int, 0));
        }
        let mut j0: usize = 0;
        while j0 < m
            invariant
                n == a@.len(),
                m == b@.len(),
                i == i0 + 1 <= n,
                j0 <= m,
                prev@.len() == m + 1,
                forall|jj: int| 0 <= jj <= m ==> prev@[jj] == spec_lev(a@, b@, i0 as int, jj),
                cur@.len() == j0 + 1,
                forall|jj: int| 0 <= jj <= j0 ==> cur@[jj] == spec_lev(a@, b@, i as int, jj),
            decreases m - j0,
        {
            let j = j0 + 1;
            let c: usize = if a[i - 1] == b[j - 1] {
                0
            } else {
                1
            };
            let x = if prev[j] < cur[j - 1] {
                prev[j]
            } else {
                cur[j - 1]
            };
            let y = prev[j - 1];
            proof {
                lemma_lev_bounds(a@, b@, i - 1, j - 1);
                lemma_lev_bounds(a@, b@, i - 1, j as int);
                lemma_lev_bounds(a@, b@, i as int, j - 1);
            }
            // min of (x + 1) and (y + c), computed without letting x + 1
            // overflow when x is already the distance ceiling
            let d = if y + c <= x {
                y + c
            } else {
                x + 1
            };
            proof {
                assert(d == spec_lev(a@, b@, i as int, j as int));
            }
            cur.push(d);
            j0 = j;
        }
        prev = cur;
        i0 = i;
    }
    prev[m]
}

/// The edit-distance ratio between two already-normalised sequences, in
/// thousandths: 1000 means identical, 0 means nothing in common.
pub open spec fn spec_lex_ratio(x: Seq<char>, y: Seq<char>) -> int {
    let m = if x.len() >= y.len() {
        x.len() as int
    } else {
        y.len() as int
    };
    if m == 0 {
        1000
    } else {
        (m - spec_lev(x, y, x.len() as int, y.len() as int)) * 1000 / m
    }
}

/// The lexical similarity of two raw lines: both are normalised with
/// `prep_for_distance_measuring`, then scored by edit-distance ratio.
pub open spec fn spec_levenshtein_ratio(a: Seq<char>, b: Seq<char>) -> int {
    spec_lex_ratio(spec_prep_for_distance_measuring(a), spec_prep_for_distance_measuring(b))
}

/// The ratio always lies between 0 and 1000.
pub proof fn lemma_lex_ratio_range(x: Seq<char>, y: Seq<char>)
    ensures
        0 <= spec_lex_ratio(x, y) <= 1000,
{
    let m = if x.len() >= y.len() {
        x.len() as int
    } else {
        y.len() as int
    };
    if m != 0 {
        let d = spec_lev(x, y, x.len() as int, y.len() as int);
        lemma_lev_bounds(x, y, x.len() as int, y.len() as int);
        lemma_div_is_ordered(0, (m - d) * 1000, m);
        lemma_div_is_ordered((m - d) * 1000, m * 1000, m);
        lemma_div_multiples_vanish(1000, m);
        assert(m * 1000 == 1000 * m) by (nonlinear_arith);
        assert((m - d) * 1000 >= 0) by (nonlinear_arith)
            requires
                m - d >= 0,
        ;
        assert((m - d) * 1000 <= m * 1000) by (nonlinear_arith)
            requires
                m - d <= m,
        ;
    }
}

/// A sequence compared with itself scores 1000.
pub proof fn lemma_lex_ratio_self(x: Seq<char>)
    ensures
        spec_lex_ratio(x, x) == 1000,
{
    let m = x.len() as int;
    if m != 0 {
        lemma_lev_self(x, m);
        lemma_div_multiples_vanish(1000, m);
        assert((m - 0) * 1000 == m * 1000);
        assert(m * 1000 == 1000 * m) by (nonlinear_arith);
    }
}

/// The lexical similarity of a line with itself is always 1000, whatever
/// the normalisation leaves of it.
pub proof fn lemma_levenshtein_ratio_self(a: Seq<char>)
    ensures
        spec_levenshtein_ratio(a, a) == 1000,
{
    lemma_lex_ratio_self(spec_prep_for_distance_measuring(a));
}

/// Normalised edit-distance similarity of two raw lines, in thousandths.
pub fn levenshtein_ratio(a: &str, b: &str) -> (r: u32)
    ensures
        r == spec_levenshtein_ratio(a@, b@),
        r <= 1000,
{
    let va = str_to_chars(a);
    let vb = str_to_chars(b);
    let xa = prep_for_distance_measuring_chars(&va);
    let xb = prep_for_distance_measuring_chars(&vb);
    lex_ratio(&xa, &xb)
}

/// Edit-distance ratio of two already-normalised character vectors.
pub fn lex_ratio(xa: &Vec<char>, xb: &Vec<char>) -> (r: u32)
    ensures
        r == spec_lex_ratio(xa@, xb@),
        r <= 1000,
{
    let d = levenshtein(xa, xb);
    let la = xa.len();
    let lb = xb.len();
    let m = if la >= lb {
        la
    } else {
        lb
    };
    proof {
        lemma_lex_ratio_range(xa@, xb@);
        lemma_lev_bounds(xa@, xb@, xa@.len() as int, xb@.len() as int);
    }
    if m == 0 {
        1000
    } else {
        let q: u128 = ((m - d) as u128) * 1000u128 / (m as u128);
        proof {
            assert((m - d) as u128 * 1000u128 == ((m as int - d as int) * 1000)) by (
            nonlinear_arith)
                requires
                    d <= m,
                    m <= usize::MAX,
            ;
            assert(q == spec_lex_ratio(xa@, xb@));
        }
        q as u32
    }
}

} // verus!
