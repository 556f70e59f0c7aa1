//! The fallback alignment pass: decides a step from semantic similarity
//! scores that the caller computes for the text pairs named in the plan.
//! Everything but the scoring itself is verified: which pairs are compared,
//! how raw pair scores aggregate, and how the decision moves the engine.

use vstd::prelude::*;
use crate::alignment::{
    records_chained, spec_nomatch_record, AlignmentAction, AlignmentEngine, AlignmentRecord,
    StepResult,
};
use crate::alignment::distance_alignment::{max3_int, min_int, spec_abs_diff, spec_split_window};
use crate::alignment::text_processor::{
    prep_for_value_measuring, prep_for_value_measuring_chars, remove_styling_chars,
    spec_prep_for_value_measuring, spec_remove_styling, spec_segmentation, spec_split_count,
    spec_split_groups, split_count, split_groups_exact,
};
use crate::chars::{chars_to_string, str_to_chars};

verus! {

/// Each element normalised for semantic comparison.
pub open spec fn spec_prep_list(xs: Seq<Seq<char>>) -> Seq<Seq<char>> {
    Seq::new(xs.len(), |i: int| spec_prep_for_value_measuring(xs[i]))
}

/// Each candidate's segments normalised for semantic comparison.
pub open spec fn spec_prep_candidates(cs: Seq<Seq<Seq<char>>>) -> Seq<Seq<Seq<char>>> {
    Seq::new(cs.len(), |i: int| spec_prep_list(cs[i]))
}

/// Joining rule for progressive merge concatenations: when the text so far
/// ends with an ellipsis and the next part starts with one, the two fuse.
pub open spec fn spec_concat_step(acc: Seq<char>, next: Seq<char>) -> Seq<char> {
    if acc.len() >= 3 && acc.subrange(acc.len() - 3, acc.len() as int) =~= seq!['.', '.', '.']
        && next.len() >= 3 && next.take(3) =~= seq!['.', '.', '.'] {
        acc.take(acc.len() - 3) + seq![' '] + next.skip(3)
    } else {
        acc + seq![' '] + next
    }
}

/// The concatenation of the first `i` parts, each with styling removed.
pub open spec fn spec_concat_upto(parts: Seq<Seq<char>>, i: int) -> Seq<char>
    decreases i,
{
    if i <= 1 {
        spec_remove_styling(parts[0])
    } else {
        spec_concat_step(spec_concat_upto(parts, i - 1), spec_remove_styling(parts[i - 1]))
    }
}

pub open spec fn spec_trailing_hint(s: Seq<char>) -> bool {
    (s.len() >= 3 && s.subrange(s.len() - 3, s.len() as int) =~= seq!['.', '.', '.']) || (s.len()
        >= 1 && s.last() == ',')
}

/// How many original lines the semantic merge search may consume: at least
/// two when the lengths hint that this line plus the next matches the
/// counterpart better than this line alone.
pub open spec fn spec_sem_merge_count(
    orig: Seq<Seq<char>>,
    modi: Seq<Seq<char>>,
    p: int,
    mi: int,
    la: int,
) -> int {
    let single = orig[p].len() + orig[p + 1].len() + 1;
    let minimal: int = if spec_abs_diff(modi[mi].len() as int, single as int) < spec_abs_diff(
        modi[mi].len() as int,
        orig[p].len() as int,
    ) {
        2
    } else {
        1
    };
    let osc = spec_split_count(orig[p]) + (if spec_trailing_hint(orig[p]) {
        1int
    } else {
        0int
    });
    let msc = spec_split_count(modi[mi]);
    min_int(max3_int(minimal, osc, msc), la)
}

/// The original lines the semantic merge search runs over.
pub open spec fn spec_sem_merge_parts(
    orig: Seq<Seq<char>>,
    modi: Seq<Seq<char>>,
    p: int,
    mi: int,
    la: int,
) -> Seq<Seq<char>> {
    orig.subrange(p, min_int(p + spec_sem_merge_count(orig, modi, p, mi, la), orig.len() as int))
}

/// Sum of the first `k` raw scores.
pub open spec fn spec_sum(scores: Seq<u32>, k: int) -> int
    decreases k,
{
    if k <= 0 {
        0
    } else {
        spec_sum(scores, k - 1) + scores[k - 1]
    }
}

/// Best mean over candidates, where candidate `i` was scored pairwise with
/// `scores[i]` and its mean divides by its full segment count; returns the
/// best mean and the winning index (-1 when nothing positive was found).
pub open spec fn spec_sem_split_best(
    cands: Seq<Seq<Seq<char>>>,
    scores: Seq<Seq<u32>>,
    upto: int,
) -> (int, int)
    decreases upto,
{
    if upto <= 0 {
        (0int, -1int)
    } else {
        let prev = spec_sem_split_best(cands, scores, upto - 1);
        let mean = spec_sum(scores[upto - 1], scores[upto - 1].len() as int) / (
        cands[upto - 1].len() as int);
        if mean > prev.0 {
            (mean, upto - 1)
        } else {
            prev
        }
    }
}

/// The coarse-acceptance merge fold: a later concatenation only replaces
/// the best when it improves by more than a tenth, and the second component
/// is how many lines beyond the first the accepted prefix merges, so the
/// reported score always belongs to the consumed prefix.
pub open spec fn spec_sem_merge_fold(scores: Seq<u32>, upto: int) -> (int, int)
    decreases upto,
{
    if upto <= 0 {
        (0int, 0int)
    } else {
        let prev = spec_sem_merge_fold(scores, upto - 1);
        if scores[upto - 1] - prev.0 > 100 {
            (scores[upto - 1] as int, upto)
        } else {
            prev
        }
    }
}

pub open spec fn spec_max_seq(s: Seq<u32>) -> int
    decreases s.len(),
{
    if s.len() == 0 {
        0
    } else if s.last() as int >= spec_max_seq(s.drop_last()) {
        s.last() as int
    } else {
        spec_max_seq(s.drop_last())
    }
}

/// The aggregated inputs of the semantic decision.
pub struct SemanticScores {
    pub current: u32,
    pub split: u32,
    pub split_segment_scores: Vec<u32>,
    pub split_segment_count: usize,
    pub merge: u32,
    pub merge_line_count: usize,
    pub prev: u32,
    pub next: u32,
    pub prev_split: u32,
    pub prev_split_merge: u32,
}

impl SemanticScores {
    pub open spec fn wf(&self) -> bool {
        &&& self.current <= 1000
        &&& self.split <= 1000
        &&& self.merge <= 1000
        &&& self.prev <= 1000
        &&& self.next <= 1000
        &&& self.prev_split <= 1000
        &&& self.prev_split_merge <= 1000
        &&& self.split_segment_count <= 64
        &&& self.merge_line_count >= 1
    }
}

/// How the semantic pass resolved a step, if it did.
#[derive(PartialEq, Eq, Structural, Clone, Copy, Debug)]
pub enum SemanticResolution {
    /// Both a split and a merge look strong: the line is an intentionally
    /// kept independent sentence; two lines are consumed as they stand.
    KeptSplit,
    /// The modified track holds an inserted line.
    Next,
    /// The previous split took one segment too many.
    Prev,
    /// Split over this many modified lines.
    Split(usize),
    /// Merge this many original lines.
    Merge(usize),
    /// The current pairing stands (or nothing is good enough).
    Unresolved,
}

/// The decision table of the semantic pass, in order, first match taken.
pub open spec fn spec_semantic_alignment(prev_was_split: bool, sc: SemanticScores) -> (
    SemanticResolution,
    int,
) {
    let cur = sc.current as int;
    let sp = sc.split as int;
    let mg = sc.merge as int;
    let best = max3_int(cur, sp, mg);
    let smax = if sc.split_segment_scores@.len() > 1 {
        spec_max_seq(sc.split_segment_scores@)
    } else {
        0int
    };
    if best >= 300 {
        if mg >= 800 && sp >= 800 {
            (SemanticResolution::KeptSplit, (mg + sp) / 2)
        } else if 10 * (sc.next as int) > 13 * best {
            (SemanticResolution::Next, sc.next as int)
        } else if (sc.prev as int) > best && prev_was_split && sc.prev_split_merge
            > sc.prev_split {
            (SemanticResolution::Prev, sc.prev as int)
        } else if sc.split_segment_scores@.len() > 1 && smax > best && sp + 200 > best {
            (SemanticResolution::Split(sc.split_segment_count), sp)
        } else if best == cur || best - cur <= 5 || (cur >= 800 && best - cur <= 100) {
            (SemanticResolution::Unresolved, cur)
        } else if best == sp {
            (SemanticResolution::Split(sc.split_segment_count), sp)
        } else if best == mg && mg - cur >= 100 {
            (SemanticResolution::Merge(sc.merge_line_count), mg)
        } else {
            (SemanticResolution::Unresolved, cur)
        }
    } else {
        // first match taken, read flat: when any part of the correction's
        // premise fails -- even a better-scoring previous line -- a good
        // enough next line still shifts the hypothesis forward
        if sc.prev > 300 && sc.prev > sc.next && prev_was_split && sc.prev_split_merge
            > sc.prev_split {
            (SemanticResolution::Prev, sc.prev as int)
        } else if sc.next > 300 {
            // the score reported for a shift is the shifted line's own
            // similarity, not the merge score
            (SemanticResolution::Next, sc.next as int)
        } else {
            (SemanticResolution::Unresolved, cur)
        }
    }
}

/// The semantic decision on aggregated scores.
pub fn semantic_alignment(prev_was_split: bool, sc: &SemanticScores) -> (r: (
    SemanticResolution,
    u32,
))
    requires
        sc.wf(),
    ensures
        r.0 == spec_semantic_alignment(prev_was_split, *sc).0,
        r.1 as int == spec_semantic_alignment(prev_was_split, *sc).1,
        r.1 <= 1000,
{
    let cur = sc.current;
    let sp = sc.split;
    let mg = sc.merge;
    let best = {
        let a = if cur >= sp {
            cur
        } else {
            sp
        };
        if a >= mg {
            a
        } else {
            mg
        }
    };
    let smax: u32 = if sc.split_segment_scores.len() > 1 {
        let mut mx: u32 = 0;
        let mut i: usize = 0;
        while i < sc.split_segment_scores.len()
            invariant
                i <= sc.split_segment_scores@.len(),
                mx as int == spec_max_seq(sc.split_segment_scores@.take(i as int)),
            decreases sc.split_segment_scores@.len() - i,
        {
            proof {
                assert(sc.split_segment_scores@.take(i + 1).drop_last()
                    =~= sc.split_segment_scores@.take(i as int));
                assert(sc.split_segment_scores@.take(i + 1).last()
                    == sc.split_segment_scores@[i as int]);
            }
            if sc.split_segment_scores[i] > mx {
                mx = sc.split_segment_scores[i];
            }
            i = i + 1;
        }
        proof {
            assert(sc.split_segment_scores@.take(sc.split_segment_scores@.len() as int)
                =~= sc.split_segment_scores@);
        }
        mx
    } else {
        0
    };
    if best >= 300 {
        if mg >= 800 && sp >= 800 {
            (SemanticResolution::KeptSplit, (mg + sp) / 2)
        } else if 10 * (sc.next as u64) > 13 * (best as u64) {
            (SemanticResolution::Next, sc.next)
        } else if sc.prev > best && prev_was_split && sc.prev_split_merge > sc.prev_split {
            (SemanticResolution::Prev, sc.prev)
        } else if sc.split_segment_scores.len() > 1 && smax > best && sp + 200 > best {
            (SemanticResolution::Split(sc.split_segment_count), sp)
        } else if best == cur || best - cur <= 5 || (cur >= 800 && best - cur <= 100) {
            (SemanticResolution::Unresolved, cur)
        } else if best == sp {
            (SemanticResolution::Split(sc.split_segment_count), sp)
        } else if best == mg && mg - cur >= 100 {
            (SemanticResolution::Merge(sc.merge_line_count), mg)
        } else {
            (SemanticResolution::Unresolved, cur)
        }
    } else {
        if sc.prev > 300 && sc.prev > sc.next && prev_was_split && sc.prev_split_merge
            > sc.prev_split {
            (SemanticResolution::Prev, sc.prev)
        } else if sc.next > 300 {
            (SemanticResolution::Next, sc.next)
        } else {
            (SemanticResolution::Unresolved, cur)
        }
    }
}

/// Best candidate segmentation by caller-supplied semantic pair scores: the
/// best mean, the winner's pair scores, and the winner's segments.
pub fn calc_split_similarity(candidates: &Vec<Vec<String>>, scores: &Vec<Vec<u32>>) -> (r: (
    u32,
    Vec<u32>,
    Vec<String>,
))
    requires
        scores@.len() == candidates@.len(),
        forall|i: int|
            0 <= i < scores@.len() ==> (#[trigger] scores@[i])@.len()
                <= candidates.deep_view()[i].len(),
        forall|i: int, j: int|
            0 <= i < scores@.len() && 0 <= j < scores@[i]@.len() ==> (#[trigger] scores@[i]@[j])
                <= 1000,
        forall|i: int| 0 <= i < candidates@.len() ==> 1 <= (#[trigger] candidates@[i])@.len()
            <= 64,
    ensures
        ({
            let best = spec_sem_split_best(
                candidates.deep_view(),
                scores.deep_view(),
                candidates@.len() as int,
            );
            &&& r.0 as int == best.0
            &&& r.0 <= 1000
            &&& (best.1 >= 0 ==> r.1@ == scores@[best.1]@ && r.2.deep_view()
                == candidates.deep_view()[best.1] && r.2@.len() == candidates@[best.1]@.len())
            &&& (best.1 < 0 ==> r.1@.len() == 0 && r.2@.len() == 0)
        }),
{
    let ghost cv = candidates.deep_view();
    let ghost sv = scores.deep_view();
    proof {
        assert forall|i: int| 0 <= i < cv.len() implies #[trigger] cv[i].len()
            == candidates@[i]@.len() by {
            assert(cv[i] == candidates@[i].deep_view());
        }
        assert forall|i: int| 0 <= i < sv.len() implies #[trigger] sv[i] == scores@[i]@ by {}
    }
    let mut best: u32 = 0;
    let mut widx: usize = 0;
    let mut has_w: bool = false;
    let mut ci: usize = 0;
    while ci < candidates.len()
        invariant
            cv == candidates.deep_view(),
            sv == scores.deep_view(),
            scores@.len() == candidates@.len(),
            forall|i: int| 0 <= i < cv.len() ==> #[trigger] cv[i].len() == candidates@[i]@.len(),
            forall|i: int| 0 <= i < sv.len() ==> #[trigger] sv[i] == scores@[i]@,
            forall|i: int| 0 <= i < scores@.len() ==> (#[trigger] scores@[i])@.len() <= cv[i].len(),
            forall|i: int, j: int|
                0 <= i < scores@.len() && 0 <= j < scores@[i]@.len() ==> (
                #[trigger] scores@[i]@[j]) <= 1000,
            forall|i: int| 0 <= i < candidates@.len() ==> 1 <= (#[trigger] candidates@[i])@.len()
                <= 64,
            ci <= candidates@.len(),
            best as int == spec_sem_split_best(cv, sv, ci as int).0,
            has_w ==> widx as int == spec_sem_split_best(cv, sv, ci as int).1,
            !has_w ==> spec_sem_split_best(cv, sv, ci as int).1 == -1,
            best <= 1000,
            has_w ==> widx < ci,
        decreases candidates@.len() - ci,
    {
        let srow = &scores[ci];
        let mut total: u64 = 0;
        let mut j: usize = 0;
        while j < srow.len()
            invariant
                srow@ == scores@[ci as int]@,
                0 <= ci < scores@.len(),
                srow@.len() <= 64,
                forall|jj: int| 0 <= jj < srow@.len() ==> (#[trigger] srow@[jj]) <= 1000,
                j <= srow@.len(),
                total == spec_sum(srow@, j as int),
                total <= 1000 * j,
            decreases srow@.len() - j,
        {
            total = total + srow[j] as u64;
            j = j + 1;
        }
        let k = candidates[ci].len();
        proof {
            assert(cv[ci as int].len() == candidates@[ci as int]@.len());
            assert(1 <= k <= 64);
            vstd::arithmetic::div_mod::lemma_div_is_ordered(0, total as int, k as int);
            vstd::arithmetic::div_mod::lemma_div_is_ordered(
                total as int,
                1000 * (k as int),
                k as int,
            );
            vstd::arithmetic::div_mod::lemma_div_multiples_vanish(1000, k as int);
            assert(total <= 1000 * (srow@.len() as int));
            assert(1000 * (srow@.len() as int) <= 1000 * (k as int)) by (nonlinear_arith)
                requires
                    srow@.len() <= k,
            ;
        }
        let mean64: u64 = total / (k as u64);
        let mean: u32 = mean64 as u32;
        proof {
            assert(mean as int == spec_sum(sv[ci as int], sv[ci as int].len() as int) / (
            cv[ci as int].len() as int));
        }
        if mean > best {
            best = mean;
            widx = ci;
            has_w = true;
        }
        ci = ci + 1;
    }
    if has_w {
        let wscores = scores[widx].clone();
        let wsegs = clone_string_vec(&candidates[widx]);
        proof {
            assert(wscores@ == scores@[widx as int]@);
            assert(wsegs.deep_view() == cv[widx as int]);
        }
        (best, wscores, wsegs)
    } else {
        (best, Vec::new(), Vec::new())
    }
}

fn clone_string_vec(v: &Vec<String>) -> (r: Vec<String>)
    ensures
        r.deep_view() == v.deep_view(),
        r@.len() == v@.len(),
{
    let mut r: Vec<String> = Vec::new();
    let mut i: usize = 0;
    while i < v.len()
        invariant
            i <= v@.len(),
            r.deep_view() =~= v.deep_view().take(i as int),
            r@.len() == i,
        decreases v@.len() - i,
    {
        let ghost oldr = r.deep_view();
        r.push(v[i].clone());
        proof {
            assert(r.deep_view() =~= oldr.push(v.deep_view()[i as int]));
            assert(r.deep_view() =~= v.deep_view().take(i + 1));
        }
        i = i + 1;
    }
    proof {
        assert(r.deep_view() =~= v.deep_view());
    }
    r
}

/// The merge search on caller-supplied scores for the progressive
/// concatenations: the best score under the coarse-acceptance rule, and the
/// original lines that merge would consume.
pub fn calc_merge_similarity(line_parts: &Vec<String>, scores: &Vec<u32>) -> (r: (
    u32,
    Vec<String>,
))
    requires
        line_parts@.len() >= 1,
        scores@.len() + 1 == line_parts@.len(),
        forall|i: int| 0 <= i < scores@.len() ==> (#[trigger] scores@[i]) <= 1000,
    ensures
        ({
            let f = spec_sem_merge_fold(scores@, scores@.len() as int);
            &&& r.0 as int == f.0
            &&& r.0 <= 1000
            &&& 0 <= f.1 <= scores@.len()
            &&& r.1.deep_view() == line_parts.deep_view().take(f.1 + 1)
            &&& r.1@.len() == f.1 + 1
        }),
{
    let pl = line_parts.len();
    let mut highest: u32 = 0;
    let mut nr: usize = 0;
    let mut i: usize = 0;
    while i < scores.len()
        invariant
            pl == line_parts@.len(),
            scores@.len() + 1 == pl,
            i <= scores@.len(),
            forall|k: int| 0 <= k < scores@.len() ==> (#[trigger] scores@[k]) <= 1000,
            highest as int == spec_sem_merge_fold(scores@, i as int).0,
            nr as int == spec_sem_merge_fold(scores@, i as int).1,
            highest <= 1000,
            nr <= i,
        decreases scores@.len() - i,
    {
        let sc = scores[i];
        if sc > highest && sc - highest > 100 {
            highest = sc;
            nr = i + 1;
        } else {
            proof {
                assert(!(scores@[i as int] - spec_sem_merge_fold(scores@, i as int).0 > 100));
            }
        }
        i = i + 1;
    }
    let mut prefix: Vec<String> = Vec::new();
    let mut j: usize = 0;
    proof {
        assert(nr < pl);
    }
    while j < nr + 1
        invariant
            pl == line_parts@.len(),
            nr < pl,
            j <= nr + 1,
            prefix.deep_view() =~= line_parts.deep_view().take(j as int),
            prefix@.len() == j,
        decreases nr + 1 - j,
    {
        let ghost oldp = prefix.deep_view();
        prefix.push(line_parts[j].clone());
        proof {
            assert(prefix.deep_view() =~= oldp.push(line_parts.deep_view()[j as int]));
            assert(prefix.deep_view() =~= line_parts.deep_view().take(j + 1));
        }
        j = j + 1;
    }
    (highest, prefix)
}


/// The text pairs the caller must score for one semantic step.  Pairs are
/// already normalised exactly as the engine compares them; the last three
/// sections are raw text, matching how the correction heuristics compare.
pub struct SemanticPlan {
    /// The current original line and its hypothesized counterpart.
    pub current_original: String,
    pub current_modified: String,
    /// The next modified lines a split would consume.
    pub window: Vec<String>,
    /// Every candidate segmentation of the current original line.
    pub candidates: Vec<Vec<String>>,
    /// The original lines a merge could consume, as raw text.
    pub merge_parts: Vec<String>,
    /// The progressive concatenations (two parts, three parts, ...).
    pub merge_concats: Vec<String>,
    /// The merge target.
    pub merge_modified: String,
    pub has_prev: bool,
    pub prev_modified: String,
    pub has_next: bool,
    pub next_modified: String,
    /// Set when the previous action was a split whose context is in range.
    pub has_prev_split: bool,
    pub prev_candidates: Vec<Vec<String>>,
    pub prev_window: Vec<String>,
    /// Per previous-line candidate: its last segment, raw.
    pub prev_last_segments: Vec<String>,
    /// Per previous-line candidate: last segment, a space, the current line.
    pub prev_merge_texts: Vec<String>,
    /// The modified line just before the current counterpart, raw.
    pub prev_split_modified: String,
}

fn prep_list(xs: &Vec<String>) -> (r: Vec<String>)
    ensures
        r.deep_view() == spec_prep_list(xs.deep_view()),
        r@.len() == xs@.len(),
{
    let mut r: Vec<String> = Vec::new();
    let mut i: usize = 0;
    while i < xs.len()
        invariant
            i <= xs@.len(),
            r@.len() == i,
            forall|k: int|
                0 <= k < i ==> #[trigger] r.deep_view()[k] == spec_prep_for_value_measuring(
                    xs.deep_view()[k],
                ),
        decreases xs@.len() - i,
    {
        let ghost oldr = r.deep_view();
        let e = prep_for_value_measuring(xs[i].as_str());
        proof {
            assert(xs.deep_view()[i as int] == xs@[i as int]@);
        }
        r.push(e);
        proof {
            assert(r.deep_view() =~= oldr.push(
                spec_prep_for_value_measuring(xs.deep_view()[i as int]),
            ));
        }
        i = i + 1;
    }
    proof {
        assert(r.deep_view() =~= spec_prep_list(xs.deep_view()));
    }
    r
}

fn prep_candidates(cs: &Vec<Vec<String>>) -> (r: Vec<Vec<String>>)
    ensures
        r.deep_view() == spec_prep_candidates(cs.deep_view()),
        r@.len() == cs@.len(),
        forall|i: int| 0 <= i < r@.len() ==> (#[trigger] r@[i])@.len() == cs@[i]@.len(),
    decreases cs@.len(),
{
    let mut r: Vec<Vec<String>> = Vec::new();
    let mut i: usize = 0;
    while i < cs.len()
        invariant
            i <= cs@.len(),
            r@.len() == i,
            forall|k: int|
                0 <= k < i ==> #[trigger] r.deep_view()[k] == spec_prep_list(cs.deep_view()[k]),
            forall|k: int| 0 <= k < i ==> (#[trigger] r@[k])@.len() == cs@[k]@.len(),
        decreases cs@.len() - i,
    {
        let row = prep_list(&cs[i]);
        proof {
            assert(cs.deep_view()[i as int] == cs@[i as int].deep_view());
        }
        let ghost oldr = r.deep_view();
        let ghost rowv = row.deep_view();
        r.push(row);
        proof {
            assert(r.deep_view() =~= oldr.push(rowv));
        }
        i = i + 1;
    }
    proof {
        assert(r.deep_view() =~= spec_prep_candidates(cs.deep_view()));
    }
    r
}

fn take_strings(xs: &Vec<String>, from: usize, to: usize) -> (r: Vec<String>)
    requires
        from <= to <= xs@.len(),
    ensures
        r.deep_view() == xs.deep_view().subrange(from as int, to as int),
        r@.len() == to - from,
{
    let mut r: Vec<String> = Vec::new();
    let mut i: usize = from;
    while i < to
        invariant
            from <= i <= to <= xs@.len(),
            r.deep_view() =~= xs.deep_view().subrange(from as int, i as int),
            r@.len() == i - from,
        decreases to - i,
    {
        let ghost oldr = r.deep_view();
        r.push(xs[i].clone());
        proof {
            assert(r.deep_view() =~= oldr.push(xs.deep_view()[i as int]));
            assert(r.deep_view() =~= xs.deep_view().subrange(from as int, i + 1));
        }
        i = i + 1;
    }
    r
}

fn ends_with_hint(v: &Vec<char>) -> (r: bool)
    ensures
        r == spec_trailing_hint(v@),
{
    let n = v.len();
    let dots = n >= 3 && v[n - 1] == '.' && v[n - 2] == '.' && v[n - 3] == '.';
    proof {
        if n >= 3 {
            assert(v@.subrange(n - 3, n as int) =~= seq![v@[n - 3], v@[n - 2], v@[n - 1]]);
            if v@[n - 3] == '.' && v@[n - 2] == '.' && v@[n - 1] == '.' {
                assert(v@.subrange(n - 3, n as int) =~= seq!['.', '.', '.']);
            } else {
                assert(!(v@.subrange(n - 3, n as int) =~= seq!['.', '.', '.']));
            }
        }
    }
    dots || (n >= 1 && v[n - 1] == ',')
}

fn concat_step(acc: &Vec<char>, next: &Vec<char>) -> (r: Vec<char>)
    ensures
        r@ == spec_concat_step(acc@, next@),
{
    let al = acc.len();
    let nl = next.len();
    let fuse = al >= 3 && acc[al - 1] == '.' && acc[al - 2] == '.' && acc[al - 3] == '.' && nl >= 3
        && next[0] == '.' && next[1] == '.' && next[2] == '.';
    proof {
        if al >= 3 {
            assert(acc@.subrange(al - 3, al as int) =~= seq![acc@[al - 3], acc@[al - 2], acc@[al
                - 1]]);
        }
        if nl >= 3 {
            assert(next@.take(3) =~= seq![next@[0], next@[1], next@[2]]);
        }
    }
    let mut r: Vec<char> = Vec::new();
    if fuse {
        let mut i: usize = 0;
        while i < al - 3
            invariant
                al == acc@.len() >= 3,
                i <= al - 3,
                r@ =~= acc@.take(i as int),
            decreases al - 3 - i,
        {
            r.push(acc[i]);
            proof {
                assert(r@ =~= acc@.take(i + 1));
            }
            i = i + 1;
        }
        r.push(' ');
        let mut j: usize = 3;
        while j < nl
            invariant
                nl == next@.len() >= 3,
                al == acc@.len() >= 3,
                3 <= j <= nl,
                r@ =~= acc@.take(al - 3) + seq![' '] + next@.subrange(3, j as int),
            decreases nl - j,
        {
            r.push(next[j]);
            proof {
                assert(r@ =~= acc@.take(al - 3) + seq![' '] + next@.subrange(3, j + 1));
            }
            j = j + 1;
        }
        proof {
            assert(next@.subrange(3, nl as int) =~= next@.skip(3));
            assert(r@ =~= spec_concat_step(acc@, next@));
        }
    } else {
        let mut i: usize = 0;
        while i < al
            invariant
                al == acc@.len(),
                i <= al,
                r@ =~= acc@.take(i as int),
            decreases al - i,
        {
            r.push(acc[i]);
            proof {
                assert(r@ =~= acc@.take(i + 1));
            }
            i = i + 1;
        }
        r.push(' ');
        let mut j: usize = 0;
        while j < nl
            invariant
                nl == next@.len(),
                al == acc@.len(),
                j <= nl,
                r@ =~= acc@ + seq![' '] + next@.take(j as int),
            decreases nl - j,
        {
            r.push(next[j]);
            proof {
                assert(r@ =~= acc@ + seq![' '] + next@.take(j + 1));
            }
            j = j + 1;
        }
        proof {
            assert(acc@.take(al as int) =~= acc@);
            assert(next@.take(nl as int) =~= next@);
            assert(r@ =~= spec_concat_step(acc@, next@));
        }
    }
    r
}

impl AlignmentEngine {
    /// Build the list of text pairs the semantic oracle must score for the
    /// pending step.
    #[verifier::rlimit(100)]
    pub fn semantic_plan(&self) -> (r: SemanticPlan)
        requires
            self.wf(),
            self.awaiting_semantic,
        ensures
            ({
                let orig = self.original.deep_view();
                let modi = self.modified.deep_view();
                let n = orig.len() as int;
                let m = modi.len() as int;
                let p = self.position as int;
                let mi = p + self.offset;
                let la = min_int(self.lookahead_range as int, n - 1);
                let parts = spec_sem_merge_parts(orig, modi, p, mi, la);
                {
                &&& r.current_original@ == spec_prep_for_value_measuring(orig[p])
                &&& r.current_modified@ == spec_prep_for_value_measuring(modi[mi])
                &&& r.window.deep_view() == spec_prep_list(
                    spec_split_window(modi, mi, la, orig[p]),
                )
                &&& r.candidates.deep_view() == spec_prep_candidates(spec_split_groups(orig[p]))
                &&& r.candidates@.len() == spec_split_groups(orig[p]).len()
                &&& (forall|i: int|
                    0 <= i < r.candidates@.len() ==> 1 <= (#[trigger] r.candidates@[i])@.len()
                        <= 64 && r.candidates@[i]@.len() == spec_split_groups(orig[p])[i].len())
                &&& r.merge_parts.deep_view() == parts
                &&& 1 <= r.merge_parts@.len() <= n - p
                &&& r.merge_concats@.len() == parts.len() - 1
                &&& (forall|i: int|
                    0 <= i < r.merge_concats@.len() ==> (#[trigger] r.merge_concats@[i])@
                        == spec_prep_for_value_measuring(spec_concat_upto(parts, i + 2)))
                &&& r.merge_modified@ == spec_prep_for_value_measuring(modi[mi])
                &&& r.has_prev == (mi >= 1)
                &&& (r.has_prev ==> r.prev_modified@ == spec_prep_for_value_measuring(
                    modi[mi - 1],
                ))
                &&& r.has_next == (mi + 1 < m)
                &&& (r.has_next ==> r.next_modified@ == spec_prep_for_value_measuring(
                    modi[mi + 1],
                ))
                &&& r.has_prev_split == (self.prev_action == AlignmentAction::Split && p >= 1 && 0
                    <= p - 1 + self.prev_offset < m && mi >= 1)
                &&& (r.has_prev_split ==> r.prev_candidates.deep_view()
                    == spec_prep_candidates(spec_split_groups(orig[p - 1]))
                    && r.prev_candidates@.len() == spec_split_groups(orig[p - 1]).len() && (
                forall|i: int|
                    0 <= i < r.prev_candidates@.len() ==> 1 <= (
                    #[trigger] r.prev_candidates@[i])@.len() <= 64 && r.prev_candidates@[i]@.len()
                        == spec_split_groups(orig[p - 1])[i].len()) && r.prev_window.deep_view()
                    == spec_prep_list(
                    spec_split_window(modi, p - 1 + self.prev_offset, la, orig[p - 1]),
                ) && r.prev_last_segments@.len() == spec_split_groups(orig[p - 1]).len() && (
                forall|i: int|
                    0 <= i < spec_split_groups(orig[p - 1]).len() ==> (
                    #[trigger] r.prev_last_segments@[i])@ == spec_split_groups(
                        orig[p - 1],
                    )[i].last()) && r.prev_merge_texts@.len() == spec_split_groups(
                    orig[p - 1],
                ).len() && (forall|i: int|
                    0 <= i < spec_split_groups(orig[p - 1]).len() ==> (
                    #[trigger] r.prev_merge_texts@[i])@ == spec_split_groups(orig[p - 1])[i].last()
                        + seq![' '] + orig[p]) && r.prev_split_modified@ == modi[mi - 1])
                }
            }),
    {
        let ghost orig = self.original.deep_view();
        let ghost modi = self.modified.deep_view();
        let n = self.original.len();
        let m = self.modified.len();
        let p = self.position;
        let mi = (p as i128 + self.offset) as usize;
        let la = if self.lookahead_range < n - 1 {
            self.lookahead_range
        } else {
            n - 1
        };
        proof {
            assert(orig[p as int] == self.original@[p as int]@);
            assert(modi[mi as int] == self.modified@[mi as int]@);
        }
        let original_text = &self.original[p];
        let modified_text = &self.modified[mi];
        let current_original = prep_for_value_measuring(original_text.as_str());
        let current_modified = prep_for_value_measuring(modified_text.as_str());

        // split section
        let sc = split_count(original_text.as_str());
        let cnt = if sc < la {
            sc
        } else {
            la
        };
        let wend = if cnt < m - mi {
            mi + cnt
        } else {
            m
        };
        let window_raw = take_strings(&self.modified, mi, wend);
        proof {
            assert(window_raw.deep_view() =~= spec_split_window(
                modi,
                mi as int,
                la as int,
                orig[p as int],
            ));
        }
        let window = prep_list(&window_raw);
        let cands_raw = split_groups_exact(original_text.as_str());
        proof {
            let cv = spec_split_groups(orig[p as int]);
            assert forall|i: int|
                0 <= i < cv.len() implies #[trigger] cv[i].len() > 0 && cv[i].len() <= 64 by {
                assert(crate::alignment::text_processor::candidate_from_mask(
                    cv[i],
                    orig[p as int],
                ));
                let mk = choose|mk: u64|
                    1 <= mk < (1u64 << (crate::alignment::text_processor::spec_boundaries(
                        orig[p as int],
                    ).len() as u64)) && cv[i] == #[trigger] spec_segmentation(
                        orig[p as int],
                        mk,
                    );
                crate::alignment::text_processor::lemma_segmentation_len(orig[p as int], mk);
            }
            assert forall|i: int| 0 <= i < cands_raw@.len() implies (
            #[trigger] cands_raw@[i])@.len() == cv[i].len() by {
                assert(cands_raw.deep_view()[i] == cands_raw@[i].deep_view());
            }
        }
        let candidates = prep_candidates(&cands_raw);
        proof {
            let cv = spec_split_groups(orig[p as int]);
            assert forall|i: int|
                0 <= i < candidates@.len() implies 1 <= (#[trigger] candidates@[i])@.len() <= 64
                && candidates@[i]@.len() == cv[i].len() by {}
        }

        // merge section
        let ov = str_to_chars(original_text.as_str());
        let nxt = str_to_chars(self.original[p + 1].as_str());
        let mv = str_to_chars(modified_text.as_str());
        proof {
            assert(orig[p as int + 1] == self.original@[p as int + 1]@);
        }
        let single: u128 = ov.len() as u128 + nxt.len() as u128 + 1;
        let mlen: u128 = mv.len() as u128;
        let olen: u128 = ov.len() as u128;
        let d1: u128 = if mlen >= single {
            mlen - single
        } else {
            single - mlen
        };
        let d2: u128 = if mlen >= olen {
            mlen - olen
        } else {
            olen - mlen
        };
        let minimal: u128 = if d1 < d2 {
            2
        } else {
            1
        };
        let osc: u128 = split_count(original_text.as_str()) as u128 + (if ends_with_hint(&ov) {
            1
        } else {
            0
        });
        let msc: u128 = split_count(modified_text.as_str()) as u128;
        let mx: u128 = {
            let a = if minimal >= osc {
                minimal
            } else {
                osc
            };
            if a >= msc {
                a
            } else {
                msc
            }
        };
        let mcnt: u128 = if mx < la as u128 {
            mx
        } else {
            la as u128
        };
        proof {
            assert(mcnt as int == spec_sem_merge_count(orig, modi, p as int, mi as int, la as int));
        }
        let pend = if mcnt < (n - p) as u128 {
            p + mcnt as usize
        } else {
            n
        };
        let merge_parts = take_strings(&self.original, p, pend);
        proof {
            assert(merge_parts.deep_view() =~= spec_sem_merge_parts(
                orig,
                modi,
                p as int,
                mi as int,
                la as int,
            ));
        }
        let ghost partsg = merge_parts.deep_view();
        let mut merge_concats: Vec<String> = Vec::new();
        let mut acc = remove_styling_chars(&str_to_chars(merge_parts[0].as_str()));
        proof {
            assert(partsg[0] == merge_parts@[0]@);
            assert(acc@ == spec_concat_upto(partsg, 1));
        }
        let mut i: usize = 1;
        while i < merge_parts.len()
            invariant
                partsg == merge_parts.deep_view(),
                partsg.len() == merge_parts@.len() >= 1,
                1 <= i <= partsg.len(),
                acc@ == spec_concat_upto(partsg, i as int),
                merge_concats@.len() == i - 1,
                forall|k: int|
                    0 <= k < i - 1 ==> (#[trigger] merge_concats@[k])@
                        == spec_prep_for_value_measuring(spec_concat_upto(partsg, k + 2)),
            decreases partsg.len() - i,
        {
            let part = remove_styling_chars(&str_to_chars(merge_parts[i].as_str()));
            proof {
                assert(partsg[i as int] == merge_parts@[i as int]@);
            }
            acc = concat_step(&acc, &part);
            let prepped = prep_for_value_measuring_chars(&acc);
            merge_concats.push(chars_to_string(&prepped));
            i = i + 1;
        }

        // neighbours
        let has_prev = mi >= 1;
        let prev_modified = if has_prev {
            proof {
                assert(modi[mi as int - 1] == self.modified@[mi as int - 1]@);
            }
            prep_for_value_measuring(self.modified[mi - 1].as_str())
        } else {
            String::new()
        };
        let has_next = mi + 1 < m;
        let next_modified = if has_next {
            proof {
                assert(modi[mi as int + 1] == self.modified@[mi as int + 1]@);
            }
            prep_for_value_measuring(self.modified[mi + 1].as_str())
        } else {
            String::new()
        };

        // previous-split correction section
        let pw_ok = if self.prev_action == AlignmentAction::Split && p >= 1 && mi >= 1 {
            let pws: i128 = (p as i128 - 1) + self.prev_offset;
            pws >= 0 && pws < m as i128
        } else {
            false
        };
        let mut prev_candidates: Vec<Vec<String>> = Vec::new();
        let mut prev_window: Vec<String> = Vec::new();
        let mut prev_last_segments: Vec<String> = Vec::new();
        let mut prev_merge_texts: Vec<String> = Vec::new();
        let mut prev_split_modified = String::new();
        if pw_ok {
            let prev_text = &self.original[p - 1];
            proof {
                assert(orig[p as int - 1] == self.original@[p as int - 1]@);
            }
            let pws = ((p as i128 - 1) + self.prev_offset) as usize;
            let psc = split_count(prev_text.as_str());
            let pcnt = if psc < la {
                psc
            } else {
                la
            };
            let pwend = if pcnt < m - pws {
                pws + pcnt
            } else {
                m
            };
            let pw_raw = take_strings(&self.modified, pws, pwend);
            proof {
                assert(pw_raw.deep_view() =~= spec_split_window(
                    modi,
                    p as int - 1 + self.prev_offset,
                    la as int,
                    orig[p as int - 1],
                ));
            }
            prev_window = prep_list(&pw_raw);
            let pc_raw = split_groups_exact(prev_text.as_str());
            proof {
                let cv = spec_split_groups(orig[p as int - 1]);
                assert forall|ii: int|
                    0 <= ii < cv.len() implies #[trigger] cv[ii].len() > 0 && cv[ii].len()
                    <= 64 by {
                    assert(crate::alignment::text_processor::candidate_from_mask(
                        cv[ii],
                        orig[p as int - 1],
                    ));
                    let mk = choose|mk: u64|
                        1 <= mk < (1u64 << (crate::alignment::text_processor::spec_boundaries(
                            orig[p as int - 1],
                        ).len() as u64)) && cv[ii] == #[trigger] spec_segmentation(
                            orig[p as int - 1],
                            mk,
                        );
                    crate::alignment::text_processor::lemma_segmentation_len(
                        orig[p as int - 1],
                        mk,
                    );
                }
                assert forall|ii: int| 0 <= ii < pc_raw@.len() implies (
                #[trigger] pc_raw@[ii])@.len() == cv[ii].len() by {
                    assert(pc_raw.deep_view()[ii] == pc_raw@[ii].deep_view());
                }
            }
            prev_candidates = prep_candidates(&pc_raw);
            proof {
                let cv = spec_split_groups(orig[p as int - 1]);
                assert forall|ii: int|
                    0 <= ii < prev_candidates@.len() implies 1 <= (
                    #[trigger] prev_candidates@[ii])@.len() <= 64 && prev_candidates@[ii]@.len()
                    == cv[ii].len() by {}
            }
            // the last segment of each candidate, and that segment joined
            // with the current original line
            let mut ci: usize = 0;
            while ci < pc_raw.len()
                invariant
                    pc_raw.deep_view() == spec_split_groups(orig[p as int - 1]),
                    forall|ii: int|
                        0 <= ii < pc_raw@.len() ==> (#[trigger] pc_raw@[ii])@.len() > 0,
                    orig == self.original.deep_view(),
                    p == self.position,
                    p < self.original@.len(),
                    ci <= pc_raw@.len(),
                    prev_last_segments@.len() == ci,
                    forall|ii: int|
                        0 <= ii < ci ==> (#[trigger] prev_last_segments@[ii])@
                            == spec_split_groups(orig[p as int - 1])[ii].last(),
                    prev_merge_texts@.len() == ci,
                    forall|ii: int|
                        0 <= ii < ci ==> (#[trigger] prev_merge_texts@[ii])@ == spec_split_groups(
                            orig[p as int - 1],
                        )[ii].last() + seq![' '] + orig[p as int],
                decreases pc_raw@.len() - ci,
            {
                let cand = &pc_raw[ci];
                let last_seg = cand[cand.len() - 1].clone();
                proof {
                    assert(cand.deep_view() == spec_split_groups(orig[p as int - 1])[ci as int]);
                    assert(cand.deep_view()[cand@.len() - 1] == cand@[cand@.len() - 1]@);
                }
                let mut joined = str_to_chars(last_seg.as_str());
                joined.push(' ');
                let ov2 = str_to_chars(self.original[p].as_str());
                let mut t: usize = 0;
                let ghost base = joined@;
                while t < ov2.len()
                    invariant
                        t <= ov2@.len(),
                        joined@ == base + ov2@.take(t as int),
                    decreases ov2@.len() - t,
                {
                    joined.push(ov2[t]);
                    proof {
                        assert(joined@ =~= base + ov2@.take(t + 1));
                    }
                    t = t + 1;
                }
                proof {
                    assert(ov2@.take(ov2@.len() as int) =~= ov2@);
                    assert(base =~= last_seg@ + seq![' ']);
                    assert(joined@ =~= last_seg@ + seq![' '] + orig[p as int]);
                }
                prev_last_segments.push(last_seg);
                prev_merge_texts.push(chars_to_string(&joined));
                ci = ci + 1;
            }
            prev_split_modified = self.modified[mi - 1].clone();
            proof {
                assert(prev_split_modified@ == modi[mi as int - 1]);
            }
        }
        SemanticPlan {
            current_original,
            current_modified,
            window,
            candidates,
            merge_parts,
            merge_concats,
            merge_modified: prep_for_value_measuring(modified_text.as_str()),
            has_prev,
            prev_modified,
            has_next,
            next_modified,
            has_prev_split: pw_ok,
            prev_candidates,
            prev_window,
            prev_last_segments,
            prev_merge_texts,
            prev_split_modified,
        }
    }

    /// Apply the semantic decision (or, if it stays unresolved, the default
    /// advance) to the pending step.  Always progresses.
    pub fn step_semantic(&mut self, scores: &SemanticScores) -> (r: StepResult)
        requires
            old(self).wf(),
            old(self).awaiting_semantic,
            scores.wf(),
            scores.next > 300 ==> old(self).position + old(self).offset + 1 < old(self).modified@.len(),
            scores.prev > 300 ==> old(self).position + old(self).offset >= 1,
            old(self).position + scores.merge_line_count <= old(self).original@.len(),
        ensures
            final(self).wf(),
            r == StepResult::Progressed,
            final(self).original == old(self).original,
            final(self).modified == old(self).modified,
            final(self).lookahead_range == old(self).lookahead_range,
            !final(self).awaiting_semantic,
            !final(self).done,
            final(self).measure() < old(self).measure(),
            ({
                let n = old(self).original@.len() as int;
                let m = old(self).modified@.len() as int;
                let p = old(self).position as int;
                let o = old(self).offset;
                let mi = p + o;
                let was_split = old(self).prev_action == AlignmentAction::Split;
                let d = spec_semantic_alignment(was_split, *scores);
                &&& (d.0 == SemanticResolution::KeptSplit ==> final(self).position == p + 2
                    && final(self).offset == o && final(self).prev_offset == old(self).prev_offset && final(self).prev_action == AlignmentAction::NoChange && final(self).records@ == old(self).records@.push(
                    (AlignmentRecord {
                        original_start: p as usize,
                        original_end: (p + 2) as usize,
                        modified_start: mi as usize,
                        modified_end: min_int(mi + 2, m) as usize,
                        action: AlignmentAction::NoChange,
                        score: d.1 as u32,
                    }),
                ))
                &&& (d.0 == SemanticResolution::Next ==> final(self).position == p && final(self).offset == o + 1 && final(self).prev_offset == o && final(self).prev_action
                    == AlignmentAction::Next && final(self).records@ == old(self).records@.push(
                    (AlignmentRecord {
                        original_start: p as usize,
                        original_end: p as usize,
                        modified_start: mi as usize,
                        modified_end: (mi + 1) as usize,
                        action: AlignmentAction::Next,
                        score: d.1 as u32,
                    }),
                ))
                &&& (d.0 == SemanticResolution::Prev ==> final(self).position == p + 1 && final(self).offset == o - 1 && final(self).prev_offset == old(self).prev_offset && final(self).prev_action == AlignmentAction::Prev && final(self).records@ == old(self).records@.push(
                    (AlignmentRecord {
                        original_start: p as usize,
                        original_end: (p + 1) as usize,
                        modified_start: (mi - 1) as usize,
                        modified_end: mi as usize,
                        action: AlignmentAction::Prev,
                        score: d.1 as u32,
                    }),
                ))
                &&& (d.0 is Split ==> final(self).position == p + 1 && final(self).offset == o
                    + d.0->Split_0 - 1 && final(self).prev_offset == o && final(self).prev_action
                    == AlignmentAction::Split && final(self).records@ == old(self).records@.push(
                    (AlignmentRecord {
                        original_start: p as usize,
                        original_end: (p + 1) as usize,
                        modified_start: mi as usize,
                        modified_end: min_int(mi + d.0->Split_0, m) as usize,
                        action: AlignmentAction::Split,
                        score: d.1 as u32,
                    }),
                ))
                &&& (d.0 is Merge ==> final(self).position == p + d.0->Merge_0 && final(self).offset == o - d.0->Merge_0 + 1 && final(self).prev_offset == o && final(self).prev_action == AlignmentAction::Merge && final(self).records@ == old(self).records@.push(
                    (AlignmentRecord {
                        original_start: p as usize,
                        original_end: (p + d.0->Merge_0) as usize,
                        modified_start: mi as usize,
                        modified_end: (mi + 1) as usize,
                        action: AlignmentAction::Merge,
                        score: d.1 as u32,
                    }),
                ))
                &&& (d.0 == SemanticResolution::Unresolved ==> final(self).position == p + 1
                    && final(self).offset == o && final(self).prev_offset == old(self).prev_offset && final(self).prev_action == AlignmentAction::NoChange && final(self).records@ == old(self).records@.push(spec_nomatch_record(p, d.1)))
            }),
    {
        let p = self.position;
        let n = self.original.len();
        let m = self.modified.len();
        let mi = (p as i128 + self.offset) as usize;
        let was_split = self.prev_action == AlignmentAction::Split;
        let (resolution, score) = semantic_alignment(was_split, scores);
        self.awaiting_semantic = false;
        match resolution {
            SemanticResolution::KeptSplit => {
                self.records.push(
                    AlignmentRecord {
                        original_start: p,
                        original_end: p + 2,
                        modified_start: mi,
                        modified_end: if m - mi >= 2 {
                            mi + 2
                        } else {
                            m
                        },
                        action: AlignmentAction::NoChange,
                        score,
                    },
                );
                self.position = p + 2;
                self.prev_action = AlignmentAction::NoChange;
                proof {
                    assert(records_chained(self.records@, self.position as int));
                }
                StepResult::Progressed
            },
            SemanticResolution::Next => {
                self.records.push(
                    AlignmentRecord {
                        original_start: p,
                        original_end: p,
                        modified_start: mi,
                        modified_end: mi + 1,
                        action: AlignmentAction::Next,
                        score,
                    },
                );
                self.prev_offset = self.offset;
                self.offset = self.offset + 1;
                self.prev_action = AlignmentAction::Next;
                proof {
                    assert(records_chained(self.records@, self.position as int));
                }
                StepResult::Progressed
            },
            SemanticResolution::Prev => {
                self.records.push(
                    AlignmentRecord {
                        original_start: p,
                        original_end: p + 1,
                        modified_start: mi - 1,
                        modified_end: mi,
                        action: AlignmentAction::Prev,
                        score,
                    },
                );
                self.offset = self.offset - 1;
                self.position = p + 1;
                self.prev_action = AlignmentAction::Prev;
                proof {
                    assert(records_chained(self.records@, self.position as int));
                }
                StepResult::Progressed
            },
            SemanticResolution::Split(k) => {
                self.records.push(
                    AlignmentRecord {
                        original_start: p,
                        original_end: p + 1,
                        modified_start: mi,
                        modified_end: if k < m - mi {
                            mi + k
                        } else {
                            m
                        },
                        action: AlignmentAction::Split,
                        score,
                    },
                );
                self.prev_offset = self.offset;
                self.offset = self.offset + (k as i128) - 1;
                self.position = p + 1;
                self.prev_action = AlignmentAction::Split;
                proof {
                    assert(records_chained(self.records@, self.position as int));
                }
                StepResult::Progressed
            },
            SemanticResolution::Merge(c) => {
                self.records.push(
                    AlignmentRecord {
                        original_start: p,
                        original_end: p + c,
                        modified_start: mi,
                        modified_end: mi + 1,
                        action: AlignmentAction::Merge,
                        score,
                    },
                );
                self.prev_offset = self.offset;
                self.offset = self.offset - (c as i128) + 1;
                self.position = p + c;
                self.prev_action = AlignmentAction::Merge;
                proof {
                    assert(records_chained(self.records@, self.position as int));
                }
                StepResult::Progressed
            },
            SemanticResolution::Unresolved => {
                self.records.push(
                    AlignmentRecord {
                        original_start: p,
                        original_end: p + 1,
                        modified_start: 0,
                        modified_end: 0,
                        action: AlignmentAction::NoChange,
                        score,
                    },
                );
                self.position = p + 1;
                self.prev_action = AlignmentAction::NoChange;
                proof {
                    assert(self.records@ =~= old(self).records@.push(
                        spec_nomatch_record(p as int, score as int),
                    ));
                    assert(records_chained(self.records@, self.position as int));
                }
                StepResult::Progressed
            },
        }
    }
}



/// The previous-split correction signals: among the previous line's
/// candidate segmentations, scored like any split search, take the winner
/// and hand back the two scores attached to it -- its last segment against
/// the modified line before the current counterpart, and that segment
/// joined with the current line against the same modified line.  Without a
/// winner both signals are zero and the correction never fires.
pub fn prev_split_scores(
    prev_candidates: &Vec<Vec<String>>,
    prev_candidate_scores: &Vec<Vec<u32>>,
    last_scores: &Vec<u32>,
    merge_scores: &Vec<u32>,
) -> (r: (u32, u32))
    requires
        prev_candidate_scores@.len() == prev_candidates@.len(),
        last_scores@.len() == prev_candidates@.len(),
        merge_scores@.len() == prev_candidates@.len(),
        forall|i: int|
            0 <= i < prev_candidate_scores@.len() ==> (#[trigger] prev_candidate_scores@[i])@.len()
                <= prev_candidates.deep_view()[i].len(),
        forall|i: int, j: int|
            0 <= i < prev_candidate_scores@.len() && 0 <= j < prev_candidate_scores@[i]@.len()
                ==> (#[trigger] prev_candidate_scores@[i]@[j]) <= 1000,
        forall|i: int|
            0 <= i < prev_candidates@.len() ==> 1 <= (#[trigger] prev_candidates@[i])@.len() <= 64,
    ensures
        ({
            let w = spec_sem_split_best(
                prev_candidates.deep_view(),
                prev_candidate_scores.deep_view(),
                prev_candidates@.len() as int,
            ).1;
            if w >= 0 {
                r.0 == last_scores@[w] && r.1 == merge_scores@[w]
            } else {
                r == (0u32, 0u32)
            }
        }),
{
    let ghost cv = prev_candidates.deep_view();
    let ghost sv = prev_candidate_scores.deep_view();
    let mut best: u32 = 0;
    let mut widx: usize = 0;
    let mut has_w: bool = false;
    let mut ci: usize = 0;
    while ci < prev_candidates.len()
        invariant
            cv == prev_candidates.deep_view(),
            sv == prev_candidate_scores.deep_view(),
            prev_candidate_scores@.len() == prev_candidates@.len(),
            forall|i: int| 0 <= i < cv.len() ==> #[trigger] cv[i].len() == prev_candidates@[i]@.len(),
            forall|i: int| 0 <= i < sv.len() ==> #[trigger] sv[i] == prev_candidate_scores@[i]@,
            forall|i: int|
                0 <= i < prev_candidate_scores@.len() ==> (
                #[trigger] prev_candidate_scores@[i])@.len() <= cv[i].len(),
            forall|i: int, j: int|
                0 <= i < prev_candidate_scores@.len() && 0 <= j
                    < prev_candidate_scores@[i]@.len() ==> (
                #[trigger] prev_candidate_scores@[i]@[j]) <= 1000,
            forall|i: int|
                0 <= i < prev_candidates@.len() ==> 1 <= (#[trigger] prev_candidates@[i])@.len()
                    <= 64,
            ci <= prev_candidates@.len(),
            best as int == spec_sem_split_best(cv, sv, ci as int).0,
            has_w ==> widx as int == spec_sem_split_best(cv, sv, ci as int).1,
            !has_w ==> spec_sem_split_best(cv, sv, ci as int).1 == -1,
            best <= 1000,
            has_w ==> widx < ci,
        decreases prev_candidates@.len() - ci,
    {
        let srow = &prev_candidate_scores[ci];
        let mut total: u64 = 0;
        let mut j: usize = 0;
        while j < srow.len()
            invariant
                srow@ == prev_candidate_scores@[ci as int]@,
                0 <= ci < prev_candidate_scores@.len(),
                srow@.len() <= 64,
                forall|jj: int| 0 <= jj < srow@.len() ==> (#[trigger] srow@[jj]) <= 1000,
                j <= srow@.len(),
                total == spec_sum(srow@, j as int),
                total <= 1000 * j,
            decreases srow@.len() - j,
        {
            total = total + srow[j] as u64;
            j = j + 1;
        }
        let k = prev_candidates[ci].len();
        proof {
            assert(cv[ci as int].len() == prev_candidates@[ci as int]@.len());
            assert(1 <= k <= 64);
            vstd::arithmetic::div_mod::lemma_div_is_ordered(0, total as int, k as int);
            vstd::arithmetic::div_mod::lemma_div_is_ordered(
                total as int,
                1000 * (k as int),
                k as int,
            );
            vstd::arithmetic::div_mod::lemma_div_multiples_vanish(1000, k as int);
            assert(total <= 1000 * (srow@.len() as int));
            assert(1000 * (srow@.len() as int) <= 1000 * (k as int)) by (nonlinear_arith)
                requires
                    srow@.len() <= k,
            ;
        }
        let mean64: u64 = total / (k as u64);
        let mean: u32 = mean64 as u32;
        proof {
            assert(mean as int == spec_sum(sv[ci as int], sv[ci as int].len() as int) / (
            cv[ci as int].len() as int));
        }
        if mean > best {
            best = mean;
            widx = ci;
            has_w = true;
        }
        ci = ci + 1;
    }
    if has_w {
        (last_scores[widx], merge_scores[widx])
    } else {
        (0, 0)
    }
}

} // verus!
