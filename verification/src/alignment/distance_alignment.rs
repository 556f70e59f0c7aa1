//! The first, cheap alignment pass: resolves a step with the lexical
//! (edit-distance) metric alone.

use vstd::prelude::*;
use crate::alignment::levenshtein::{
    levenshtein_ratio, lex_ratio, spec_levenshtein_ratio, lemma_lex_ratio_range,
};
use crate::alignment::text_processor::{
    candidate_from_mask, lemma_segmentation_len, prep_for_distance_measuring_chars,
    spec_boundaries, spec_prep_for_distance_measuring, spec_segmentation, spec_split_count,
    spec_split_groups, split_count, split_groups_exact,
};
use crate::chars::str_to_chars;
use vstd::string::StrSliceExecFns;

verus! {

pub open spec fn min_int(a: int, b: int) -> int {
    if a <= b {
        a
    } else {
        b
    }
}

pub open spec fn max3_int(a: int, b: int, c: int) -> int {
    if a >= b && a >= c {
        a
    } else if b >= c {
        b
    } else {
        c
    }
}

/// Sum of the lexical similarities of the first `k` segment pairs.
pub open spec fn spec_seg_total(cand: Seq<Seq<char>>, splits: Seq<Seq<char>>, k: int) -> int
    decreases k,
{
    if k <= 0 {
        0
    } else {
        spec_seg_total(cand, splits, k - 1) + spec_levenshtein_ratio(cand[k - 1], splits[k - 1])
    }
}

/// Mean lexical similarity of one candidate segmentation against the next
/// modified lines, divided by the candidate's full segment count.
pub open spec fn spec_candidate_mean(cand: Seq<Seq<char>>, splits: Seq<Seq<char>>) -> int {
    spec_seg_total(cand, splits, min_int(cand.len() as int, splits.len() as int)) / (
    cand.len() as int)
}

/// Best mean over the first `upto` candidates, with the winning candidate's
/// segment count; a candidate wins only by strictly beating the best so far.
pub open spec fn spec_split_best(
    cands: Seq<Seq<Seq<char>>>,
    splits: Seq<Seq<char>>,
    upto: int,
) -> (int, int)
    decreases upto,
{
    if upto <= 0 {
        (0int, 0int)
    } else {
        let prev = spec_split_best(cands, splits, upto - 1);
        let mean = spec_candidate_mean(cands[upto - 1], splits);
        if mean > prev.0 {
            (mean, cands[upto - 1].len() as int)
        } else {
            prev
        }
    }
}

/// The progressive-concatenation search over space-joined prefixes: the
/// state after considering the first `i` original lines is the globally
/// best score so far, the number of lines merged beyond the first in the
/// best-scoring prefix, and the concatenation built so far.
pub open spec fn spec_merge_fold(parts: Seq<Seq<char>>, target: Seq<char>, i: int) -> (
    int,
    int,
    Seq<char>,
)
    decreases i,
{
    if i <= 1 {
        (spec_levenshtein_ratio(target, parts[0]), 0int, parts[0])
    } else {
        let prev = spec_merge_fold(parts, target, i - 1);
        let cat = prev.2 + seq![' '] + parts[i - 1];
        let sc = spec_levenshtein_ratio(cat, target);
        if sc > prev.0 {
            (sc, i - 1, cat)
        } else {
            (prev.0, prev.1, cat)
        }
    }
}

pub open spec fn spec_abs_diff(a: int, b: int) -> int {
    if a >= b {
        a - b
    } else {
        b - a
    }
}

/// The window of modified lines a split of `line` is matched against.
pub open spec fn spec_split_window(
    modi: Seq<Seq<char>>,
    mi: int,
    la: int,
    line: Seq<char>,
) -> Seq<Seq<char>> {
    let cnt = min_int(spec_split_count(line), la);
    modi.subrange(mi, min_int(mi + cnt, modi.len() as int))
}

/// How many original lines the lexical merge search may consume: at least
/// two when the lengths hint that this line plus the next matches the
/// counterpart better than this line alone, and at least the split count
/// of either side, capped by the lookahead.
pub open spec fn spec_lex_merge_count(
    orig: Seq<Seq<char>>,
    modi: Seq<Seq<char>>,
    p: int,
    mi: int,
    la: int,
) -> int {
    let single = orig[p].len() + orig[p + 1].len() + 1;
    let minimal: int = if spec_abs_diff(modi[mi].len() as int, single as int) < spec_abs_diff(
        modi[mi].len() as int,
        orig[p].len() as int,
    ) {
        2
    } else {
        1
    };
    min_int(
        max3_int(minimal, spec_split_count(orig[p]), spec_split_count(modi[mi])),
        la,
    )
}

/// The original lines the lexical merge search runs over.
pub open spec fn spec_merge_parts(
    orig: Seq<Seq<char>>,
    modi: Seq<Seq<char>>,
    p: int,
    mi: int,
    la: int,
) -> Seq<Seq<char>> {
    orig.subrange(p, min_int(p + spec_lex_merge_count(orig, modi, p, mi, la), orig.len() as int))
}

pub proof fn lemma_seg_total_bounds(cand: Seq<Seq<char>>, splits: Seq<Seq<char>>, k: int)
    requires
        k >= 0,
    ensures
        0 <= spec_seg_total(cand, splits, k) <= 1000 * k,
    decreases k,
{
    if k > 0 {
        lemma_seg_total_bounds(cand, splits, k - 1);
        lemma_lex_ratio_range(
            spec_prep_for_distance_measuring(cand[k - 1]),
            spec_prep_for_distance_measuring(splits[k - 1]),
        );
    }
}

pub proof fn lemma_candidate_mean_range(cand: Seq<Seq<char>>, splits: Seq<Seq<char>>)
    requires
        cand.len() > 0,
    ensures
        0 <= spec_candidate_mean(cand, splits) <= 1000,
{
    let k = min_int(cand.len() as int, splits.len() as int);
    let n = cand.len() as int;
    lemma_seg_total_bounds(cand, splits, k);
    let t = spec_seg_total(cand, splits, k);
    vstd::arithmetic::div_mod::lemma_div_is_ordered(0, t, n);
    vstd::arithmetic::div_mod::lemma_div_is_ordered(t, 1000 * n, n);
    vstd::arithmetic::div_mod::lemma_div_multiples_vanish(1000, n);
    assert(1000 * k <= 1000 * n) by (nonlinear_arith)
        requires
            k <= n,
    ;
}

pub proof fn lemma_split_best_range(cands: Seq<Seq<Seq<char>>>, splits: Seq<Seq<char>>, upto: int)
    requires
        forall|i: int| 0 <= i < cands.len() ==> #[trigger] cands[i].len() > 0,
        upto <= cands.len(),
    ensures
        0 <= spec_split_best(cands, splits, upto).0 <= 1000,
        0 <= spec_split_best(cands, splits, upto).1,
    decreases upto,
{
    if upto > 0 {
        lemma_split_best_range(cands, splits, upto - 1);
        lemma_candidate_mean_range(cands[upto - 1], splits);
    }
}

pub proof fn lemma_merge_fold_bounds(parts: Seq<Seq<char>>, target: Seq<char>, i: int)
    requires
        parts.len() >= 1,
        1 <= i <= parts.len(),
    ensures
        0 <= spec_merge_fold(parts, target, i).0 <= 1000,
        0 <= spec_merge_fold(parts, target, i).1 <= i - 1,
    decreases i,
{
    if i <= 1 {
        lemma_lex_ratio_range(
            spec_prep_for_distance_measuring(target),
            spec_prep_for_distance_measuring(parts[0]),
        );
    } else {
        lemma_merge_fold_bounds(parts, target, i - 1);
        let prev = spec_merge_fold(parts, target, i - 1);
        lemma_lex_ratio_range(
            spec_prep_for_distance_measuring(prev.2 + seq![' '] + parts[i - 1]),
            spec_prep_for_distance_measuring(target),
        );
    }
}

/// Best mean lexical similarity of any candidate segmentation of `line`
/// against the given next modified lines, and the modified lines the
/// winning segmentation would consume.
pub fn calc_split_similarity(line: &str, splits: &Vec<String>) -> (r: (u32, Vec<String>))
    requires
        spec_boundaries(line@).len() <= 63,
    ensures
        ({
            let best = spec_split_best(
                spec_split_groups(line@),
                splits.deep_view(),
                spec_split_groups(line@).len() as int,
            );
            r.0 == best.0 && r.0 <= 1000 && r.1.deep_view() == splits.deep_view().take(
                min_int(best.1, splits.deep_view().len() as int),
            )
        }),
{
    let cands = split_groups_exact(line);
    let ghost cv = spec_split_groups(line@);
    proof {
        assert forall|i: int|
            0 <= i < cv.len() implies #[trigger] cv[i].len() > 0 && cv[i].len() <= 64 by {
            assert(candidate_from_mask(cv[i], line@));
            let m = choose|m: u64|
                1 <= m < (1u64 << (spec_boundaries(line@).len() as u64)) && cv[i]
                    == #[trigger] spec_segmentation(line@, m);
            lemma_segmentation_len(line@, m);
        }
    }
    let mut best: u32 = 0;
    let mut best_len: usize = 0;
    let mut ci: usize = 0;
    while ci < cands.len()
        invariant
            cands.deep_view() == cv,
            cands@.len() == cv.len(),
            forall|i: int| 0 <= i < cv.len() ==> #[trigger] cv[i].len() > 0 && #[trigger] cv[i].len() <= 64,
            ci <= cv.len(),
            best <= 1000,
            best as int == spec_split_best(cv, splits.deep_view(), ci as int).0,
            best_len as int == spec_split_best(cv, splits.deep_view(), ci as int).1,
        decreases cands@.len() - ci,
    {
        let cand = &cands[ci];
        proof {
            assert(cand.deep_view() == cv[ci as int]);
        }
        let k = cand.len();
        let lim = if k < splits.len() {
            k
        } else {
            splits.len()
        };
        let mut total: u64 = 0;
        let mut i: usize = 0;
        while i < lim
            invariant
                cand.deep_view() == cv[ci as int],
                0 <= (ci as int) < cv.len(),
                k == cand@.len(),
                1 <= k <= 64,
                k as int == cv[ci as int].len(),
                lim == min_int(k as int, splits.deep_view().len() as int),
                lim <= splits@.len(),
                i <= lim,
                total == spec_seg_total(cv[ci as int], splits.deep_view(), i as int),
                total <= 1000 * i,
                i <= 64,
            decreases lim - i,
        {
            let sc = levenshtein_ratio(cand[i].as_str(), splits[i].as_str());
            proof {
                assert(cand.deep_view()[i as int] == cand@[i as int]@);
                assert(splits.deep_view()[i as int] == splits@[i as int]@);
            }
            total = total + sc as u64;
            i = i + 1;
        }
        let mean64: u64 = total / (k as u64);
        proof {
            lemma_seg_total_bounds(cv[ci as int], splits.deep_view(), lim as int);
            lemma_candidate_mean_range(cv[ci as int], splits.deep_view());
            assert(mean64 as int == spec_candidate_mean(cv[ci as int], splits.deep_view()));
        }
        let mean: u32 = mean64 as u32;
        if mean > best {
            best = mean;
            best_len = k;
        }
        ci = ci + 1;
    }
    // hand back the modified lines the winning segmentation consumes
    let take_n = if best_len < splits.len() {
        best_len
    } else {
        splits.len()
    };
    let mut prefix: Vec<String> = Vec::new();
    let mut i: usize = 0;
    while i < take_n
        invariant
            take_n <= splits@.len(),
            i <= take_n,
            prefix.deep_view() =~= splits.deep_view().take(i as int),
        decreases take_n - i,
    {
        let ghost oldp = prefix.deep_view();
        prefix.push(splits[i].clone());
        proof {
            assert(prefix.deep_view() =~= oldp.push(splits.deep_view()[i as int]));
            assert(prefix.deep_view() =~= splits.deep_view().take(i + 1));
        }
        i = i + 1;
    }
    proof {
        lemma_split_best_range(cv, splits.deep_view(), cv.len() as int);
        assert(prefix.deep_view() =~= splits.deep_view().take(
            min_int(best_len as int, splits.deep_view().len() as int),
        ));
    }
    (best, prefix)
}

/// Progressively concatenate original lines (space-joined) and keep the
/// prefix whose concatenation best matches `merged_line`; returns that
/// score and a prefix of the lines whose length is the number of lines the
/// best-scoring concatenation merges beyond the first.
pub fn calc_merge_similarity(line_parts: &Vec<String>, merged_line: &str) -> (r: (
    u32,
    Vec<String>,
))
    requires
        line_parts@.len() >= 1,
    ensures
        ({
            let f = spec_merge_fold(
                line_parts.deep_view(),
                merged_line@,
                line_parts.deep_view().len() as int,
            );
            r.0 == f.0 && r.0 <= 1000 && 0 <= f.1 < line_parts@.len()
                && r.1.deep_view() == line_parts.deep_view().take(f.1)
        }),
{
    let ghost pv = line_parts.deep_view();
    let target = str_to_chars(merged_line);
    let mut cat = str_to_chars(line_parts[0].as_str());
    proof {
        assert(pv[0] == line_parts@[0]@);
    }
    let mut highest = levenshtein_ratio(merged_line, line_parts[0].as_str());
    let mut merged_nr: usize = 0;
    let mut i: usize = 1;
    proof {
        lemma_merge_fold_bounds(pv, merged_line@, 1);
    }
    while i < line_parts.len()
        invariant
            pv == line_parts.deep_view(),
            pv.len() == line_parts@.len() >= 1,
            target@ == merged_line@,
            1 <= i <= pv.len(),
            highest as int == spec_merge_fold(pv, merged_line@, i as int).0,
            merged_nr as int == spec_merge_fold(pv, merged_line@, i as int).1,
            cat@ == spec_merge_fold(pv, merged_line@, i as int).2,
            highest <= 1000,
            merged_nr < i,
        decreases pv.len() - i,
    {
        let part = str_to_chars(line_parts[i].as_str());
        proof {
            assert(pv[i as int] == line_parts@[i as int]@);
        }
        let ghost cat0 = cat@;
        cat.push(' ');
        proof {
            assert(cat@ =~= cat0 + seq![' '] + part@.take(0));
        }
        let mut t: usize = 0;
        while t < part.len()
            invariant
                t <= part@.len(),
                cat@ == cat0 + seq![' '] + part@.take(t as int),
            decreases part@.len() - t,
        {
            cat.push(part[t]);
            proof {
                assert(cat@ =~= cat0 + seq![' '] + part@.take(t + 1));
            }
            t = t + 1;
        }
        proof {
            assert(cat@ =~= cat0 + seq![' '] + pv[i as int]);
        }
        let sc = ratio_chars(&cat, &target);
        proof {
            lemma_merge_fold_bounds(pv, merged_line@, i + 1);
        }
        if sc > highest {
            highest = sc;
            merged_nr = i;
        }
        i = i + 1;
    }
    let mut prefix: Vec<String> = Vec::new();
    let mut j: usize = 0;
    while j < merged_nr
        invariant
            merged_nr < line_parts@.len(),
            j <= merged_nr,
            prefix.deep_view() =~= line_parts.deep_view().take(j as int),
        decreases merged_nr - j,
    {
        let ghost oldp = prefix.deep_view();
        prefix.push(line_parts[j].clone());
        proof {
            assert(prefix.deep_view() =~= oldp.push(line_parts.deep_view()[j as int]));
            assert(prefix.deep_view() =~= line_parts.deep_view().take(j + 1));
        }
        j = j + 1;
    }
    (highest, prefix)
}

/// Lexical similarity of two raw texts held as character vectors.
pub fn ratio_chars(a: &Vec<char>, b: &Vec<char>) -> (r: u32)
    ensures
        r == spec_levenshtein_ratio(a@, b@),
        r <= 1000,
{
    let xa = prep_for_distance_measuring_chars(a);
    let xb = prep_for_distance_measuring_chars(b);
    lex_ratio(&xa, &xb)
}

/// How the lexical pass resolved a step, if it did.
#[derive(PartialEq, Eq, Structural, Clone, Copy, Debug)]
pub enum DistanceResolution {
    /// The current pairing is already a confident direct match.
    Direct,
    /// The original line was split in two across the next modified lines.
    Split,
    /// This many further original lines were merged into the counterpart.
    Merge(usize),
    /// Nothing confident; the semantic pass decides.
    Unresolved,
}

/// The outcome of the lexical pass as a value: resolution plus the score
/// reported for it.
pub open spec fn spec_distance_alignment(
    orig: Seq<Seq<char>>,
    modi: Seq<Seq<char>>,
    p: int,
    mi: int,
    la: int,
) -> (DistanceResolution, int) {
    let cur = spec_levenshtein_ratio(orig[p], modi[mi]);
    let window = spec_split_window(modi, mi, la, orig[p]);
    let sp = spec_split_best(
        spec_split_groups(orig[p]),
        window,
        spec_split_groups(orig[p]).len() as int,
    ).0;
    let parts = spec_merge_parts(orig, modi, p, mi, la);
    let mf = spec_merge_fold(parts, modi[mi], parts.len() as int);
    let best = max3_int(cur, sp, mf.0);
    if cur >= 850 {
        (DistanceResolution::Direct, cur)
    } else if best < 600 || best == cur {
        (DistanceResolution::Unresolved, cur)
    } else if best == sp {
        (DistanceResolution::Split, sp)
    } else {
        (DistanceResolution::Merge(mf.1 as usize), mf.0)
    }
}

/// One step of the lexical pass.  Resolution and score are a function of the
/// two tracks and the current hypothesis alone; the caller applies the
/// corresponding state change.
pub fn text_distance_alignment(
    original: &Vec<String>,
    modified: &Vec<String>,
    position: usize,
    mod_index: usize,
    lookahead: usize,
) -> (r: (DistanceResolution, u32))
    requires
        position + 1 < original@.len(),
        mod_index < modified@.len(),
        lookahead >= 1,
        spec_boundaries(original.deep_view()[position as int]).len() <= 63,
    ensures
        ({
            let orig = original.deep_view();
            let modi = modified.deep_view();
            let p = position as int;
            let mi = mod_index as int;
            let cur = spec_levenshtein_ratio(orig[p], modi[mi]);
            let window = spec_split_window(modi, mi, lookahead as int, orig[p]);
            let sp = spec_split_best(
                spec_split_groups(orig[p]),
                window,
                spec_split_groups(orig[p]).len() as int,
            ).0;
            let parts = spec_merge_parts(orig, modi, p, mi, lookahead as int);
            let mf = spec_merge_fold(parts, modi[mi], parts.len() as int);
            let best = max3_int(cur, sp, mf.0);
            r.0 == spec_distance_alignment(orig, modi, p, mi, lookahead as int).0 && r.1 as int
                == spec_distance_alignment(orig, modi, p, mi, lookahead as int).1
                && r.1 <= 1000 && if cur >= 850 {
                r == (DistanceResolution::Direct, cur as u32)
            } else if best < 600 || best == cur {
                r == (DistanceResolution::Unresolved, cur as u32)
            } else if best == sp {
                r == (DistanceResolution::Split, sp as u32)
            } else {
                r.0 == DistanceResolution::Merge(mf.1 as usize) && r.1 == mf.0
            }
        }),
{
    let ghost orig = original.deep_view();
    let ghost modi = modified.deep_view();
    let original_text = &original[position];
    let modified_text = &modified[mod_index];
    proof {
        assert(orig[position as int] == original@[position as int]@);
        assert(modi[mod_index as int] == modified@[mod_index as int]@);
    }
    let current = levenshtein_ratio(original_text.as_str(), modified_text.as_str());
    if current >= 850 {
        return (DistanceResolution::Direct, current);
    }
    // the modified lines a split could consume
    let sc = split_count(original_text.as_str());
    let cnt = if sc < lookahead {
        sc
    } else {
        lookahead
    };
    let wend = if cnt < modified.len() - mod_index {
        mod_index + cnt
    } else {
        modified.len()
    };
    let mut window: Vec<String> = Vec::new();
    let mut i: usize = mod_index;
    while i < wend
        invariant
            mod_index <= i <= wend <= modified@.len(),
            window.deep_view() =~= modi.subrange(mod_index as int, i as int),
            modi == modified.deep_view(),
        decreases wend - i,
    {
        let ghost oldw = window.deep_view();
        window.push(modified[i].clone());
        proof {
            assert(window.deep_view() =~= oldw.push(modi[i as int]));
            assert(window.deep_view() =~= modi.subrange(mod_index as int, i + 1));
        }
        i = i + 1;
    }
    proof {
        assert(window.deep_view() =~= spec_split_window(
            modi,
            mod_index as int,
            lookahead as int,
            orig[position as int],
        ));
    }
    let (split_similarity, _split_lines) = calc_split_similarity(original_text.as_str(), &window);

    // the original lines a merge could consume: at least two when the
    // lengths hint that this line plus the next fits the counterpart better
    let n = original.len();
    let next_text = &original[position + 1];
    proof {
        assert(orig[position as int + 1] == original@[position as int + 1]@);
    }
    let olen: u128 = original_text.as_str().unicode_len() as u128;
    let single: u128 = olen + next_text.as_str().unicode_len() as u128 + 1;
    let mlen: u128 = modified_text.as_str().unicode_len() as u128;
    let d1: u128 = if mlen >= single {
        mlen - single
    } else {
        single - mlen
    };
    let d2: u128 = if mlen >= olen {
        mlen - olen
    } else {
        olen - mlen
    };
    let minimal: u128 = if d1 < d2 {
        2
    } else {
        1
    };
    let osc: u128 = split_count(original_text.as_str()) as u128;
    let msc: u128 = split_count(modified_text.as_str()) as u128;
    let mx: u128 = {
        let a = if minimal >= osc {
            minimal
        } else {
            osc
        };
        if a >= msc {
            a
        } else {
            msc
        }
    };
    let mcnt: u128 = if mx < lookahead as u128 {
        mx
    } else {
        lookahead as u128
    };
    proof {
        assert(mcnt as int == spec_lex_merge_count(
            orig,
            modi,
            position as int,
            mod_index as int,
            lookahead as int,
        ));
    }
    let pend = if mcnt < (n - position) as u128 {
        position + mcnt as usize
    } else {
        n
    };
    let mut parts: Vec<String> = Vec::new();
    let mut i: usize = position;
    while i < pend
        invariant
            position <= i <= pend <= original@.len(),
            parts.deep_view() =~= orig.subrange(position as int, i as int),
            orig == original.deep_view(),
        decreases pend - i,
    {
        let ghost oldpp = parts.deep_view();
        parts.push(original[i].clone());
        proof {
            assert(parts.deep_view() =~= oldpp.push(orig[i as int]));
            assert(parts.deep_view() =~= orig.subrange(position as int, i + 1));
        }
        i = i + 1;
    }
    proof {
        assert(parts.deep_view() =~= spec_merge_parts(
            orig,
            modi,
            position as int,
            mod_index as int,
            lookahead as int,
        ));
        assert(parts.deep_view().len() >= 1);
    }
    let (merge_similarity, merge_lines) = calc_merge_similarity(&parts, modified_text.as_str());

    let best = {
        let a = if current >= split_similarity {
            current
        } else {
            split_similarity
        };
        if a >= merge_similarity {
            a
        } else {
            merge_similarity
        }
    };
    proof {
        let p = position as int;
        let mi = mod_index as int;
        let cur = spec_levenshtein_ratio(orig[p], modi[mi]);
        let window_s = spec_split_window(modi, mi, lookahead as int, orig[p]);
        let sp = spec_split_best(
            spec_split_groups(orig[p]),
            window_s,
            spec_split_groups(orig[p]).len() as int,
        ).0;
        let parts_s = spec_merge_parts(orig, modi, p, mi, lookahead as int);
        let mf = spec_merge_fold(parts_s, modi[mi], parts_s.len() as int);
        assert(current as int == cur);
        assert(split_similarity as int == sp);
        assert(merge_similarity as int == mf.0);
        assert(merge_lines.deep_view().len() == mf.1);
        assert(merge_lines@.len() == merge_lines.deep_view().len());
        assert(best as int == max3_int(cur, sp, mf.0));
    }
    if best < 600 || best == current {
        (DistanceResolution::Unresolved, current)
    } else if best == split_similarity {
        (DistanceResolution::Split, split_similarity)
    } else {
        (DistanceResolution::Merge(merge_lines.len()), merge_similarity)
    }
}

} // verus!
