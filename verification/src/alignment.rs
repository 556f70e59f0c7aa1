//! The alignment engine: walks the original and the modified track in step,
//! resolving each original line by the lexical pass, by the semantic pass on
//! caller-supplied scores, or by recording that it has no counterpart.

pub mod distance_alignment;
pub mod levenshtein;
pub mod semantic_alignment;
pub mod text_processor;

use vstd::prelude::*;
use crate::alignment::distance_alignment::{
    min_int, spec_distance_alignment, text_distance_alignment, DistanceResolution,
};
use crate::alignment::text_processor::spec_boundaries;

verus! {

/// The action a resolved step took.
#[derive(PartialEq, Eq, Structural, Clone, Copy, Debug)]
pub enum AlignmentAction {
    /// No structural change: a direct match, or no counterpart at all.
    NoChange,
    /// Consecutive original lines were merged into one modified line.
    Merge,
    /// One original line was split over consecutive modified lines.
    Split,
    /// The modified track holds an inserted line; the hypothesis shifts.
    Next,
    /// An earlier split took one segment too many; the line belongs to the
    /// previous counterpart.
    Prev,
}

/// One emitted mapping: the original index range `[original_start,
/// original_end)` corresponds to the modified range `[modified_start,
/// modified_end)`; a no-match record has an empty modified range.
#[derive(PartialEq, Eq, Structural, Clone, Copy, Debug)]
pub struct AlignmentRecord {
    pub original_start: usize,
    pub original_end: usize,
    pub modified_start: usize,
    pub modified_end: usize,
    pub action: AlignmentAction,
    pub score: u32,
}

/// What one engine step did.
#[derive(PartialEq, Eq, Structural, Clone, Copy, Debug)]
pub enum StepResult {
    /// A record was emitted (or the step was skipped); call again.
    Progressed,
    /// The lexical pass could not resolve the step: compute semantic scores
    /// for the pairs in the semantic plan and call `step_semantic`.
    NeedSemantic,
    /// Every original index is covered; the record list is complete.
    Done,
}

/// The records' original ranges sit back to back and cover `[0, end)`.
pub open spec fn records_chained(rs: Seq<AlignmentRecord>, end: int) -> bool {
    &&& forall|i: int|
        0 <= i < rs.len() ==> (#[trigger] rs[i]).original_start <= rs[i].original_end
    &&& forall|i: int|
        0 <= i < rs.len() - 1 ==> (#[trigger] rs[i + 1]).original_start == rs[i].original_end
    &&& if rs.len() == 0 {
        end == 0
    } else {
        rs[0].original_start == 0 && rs[rs.len() - 1].original_end == end
    }
}

/// The record marking original line `q` as having no counterpart.
pub open spec fn spec_nomatch_record(q: int, score: int) -> AlignmentRecord {
    AlignmentRecord {
        original_start: q as usize,
        original_end: (q + 1) as usize,
        modified_start: 0usize,
        modified_end: 0usize,
        action: AlignmentAction::NoChange,
        score: score as u32,
    }
}

/// No-match records for every original index in `[p, n)`.
pub open spec fn spec_flush_records(p: int, n: int) -> Seq<AlignmentRecord> {
    Seq::new((n - p) as nat, |i: int| spec_nomatch_record(p + i, 0))
}

/// The engine.  `position` indexes the original track; `position + offset`
/// is the hypothesized counterpart in the modified track.
pub struct AlignmentEngine {
    pub original: Vec<String>,
    pub modified: Vec<String>,
    pub lookahead_range: usize,
    pub position: usize,
    pub offset: i128,
    pub prev_offset: i128,
    pub prev_action: AlignmentAction,
    pub records: Vec<AlignmentRecord>,
    pub awaiting_semantic: bool,
    pub done: bool,
}

/// Every line has few enough split boundaries for the candidate search.
pub open spec fn lines_wf(lines: Seq<Seq<char>>) -> bool {
    forall|i: int| 0 <= i < lines.len() ==> spec_boundaries(#[trigger] lines[i]).len() <= 63
}

impl AlignmentEngine {
    pub open spec fn wf(&self) -> bool {
        &&& lines_wf(self.original.deep_view())
        &&& lines_wf(self.modified.deep_view())
        &&& self.lookahead_range >= 1
        &&& self.position <= self.original@.len()
        &&& 0 <= self.position + self.offset
        &&& -(self.original@.len() as int) <= self.offset <= self.modified@.len() as int + 63
        &&& -(self.original@.len() as int) - 1 <= self.prev_offset <= self.modified@.len() as int
            + 63
        &&& records_chained(self.records@, self.position as int)
        &&& (self.done ==> self.position == self.original@.len())
        &&& (self.awaiting_semantic ==> !self.done && self.position + 1 < self.original@.len()
            && 0 <= self.position + self.offset < self.modified@.len())
    }

    /// Strictly decreasing across progressing steps, and at most
    /// `original.len() + modified.len()` at the start: the engine halts
    /// within that many steps.
    pub open spec fn measure(&self) -> int {
        (self.original@.len() - self.position) + (if self.position + self.offset
            >= self.modified@.len() as int {
            0int
        } else {
            self.modified@.len() - (self.position + self.offset)
        })
    }

    /// A fresh engine at the start of both tracks.
    pub fn new(original: Vec<String>, modified: Vec<String>, lookahead_range: usize) -> (r: Self)
        requires
            lines_wf(original.deep_view()),
            lines_wf(modified.deep_view()),
            lookahead_range >= 1,
        ensures
            r.wf(),
            r.original == original,
            r.modified == modified,
            r.lookahead_range == lookahead_range,
            r.position == 0,
            r.offset == 0,
            r.prev_offset == 0,
            r.prev_action == AlignmentAction::NoChange,
            r.records@.len() == 0,
            !r.awaiting_semantic,
            !r.done,
            r.measure() <= original@.len() + modified@.len(),
    {
        AlignmentEngine {
            original,
            modified,
            lookahead_range,
            position: 0,
            offset: 0,
            prev_offset: 0,
            prev_action: AlignmentAction::NoChange,
            records: Vec::new(),
            awaiting_semantic: false,
            done: false,
        }
    }

    /// One step of the walk, up to and including the lexical pass.  When the
    /// lexical pass cannot resolve the step the engine stops short of any
    /// state change and asks for semantic scores.
    pub fn step_lexical(&mut self) -> (r: StepResult)
        requires
            old(self).wf(),
            !old(self).awaiting_semantic,
        ensures
            final(self).wf(),
            final(self).original == old(self).original,
            final(self).modified == old(self).modified,
            final(self).lookahead_range == old(self).lookahead_range,
            r == StepResult::Progressed ==> final(self).measure() < old(self).measure(),
            r == StepResult::Progressed ==> !final(self).awaiting_semantic && !final(self).done,
            old(self).done ==> r == StepResult::Done && *final(self) == *old(self),
            ({
                let n = old(self).original@.len() as int;
                let p = old(self).position as int;
                let o = old(self).offset;
                // the last original line is never evaluated: reaching it ends
                // the walk, and the remaining lines get no-match records
                (!old(self).done && p + 1 >= n) ==> (r == StepResult::Done && final(self).done
                    && final(self).position == old(self).original@.len() && final(self).records@
                    == old(self).records@ + spec_flush_records(p, n) && final(self).offset == o
                    && final(self).prev_offset == old(self).prev_offset && final(self).prev_action == old(self).prev_action && !final(self).awaiting_semantic)
            }),
            ({
                let n = old(self).original@.len() as int;
                let m = old(self).modified@.len() as int;
                let p = old(self).position as int;
                let o = old(self).offset;
                // out-of-range counterpart: skip the line, no match
                (!old(self).done && p + 1 < n && !(0 <= p + o < m)) ==> (r
                    == StepResult::Progressed && !final(self).done && final(self).position == p + 1
                    && final(self).offset == o && final(self).prev_offset == old(
                    self,
                ).prev_offset && final(self).prev_action == old(self).prev_action && final(self).records@ == old(self).records@.push(spec_nomatch_record(p, 0)) && !final(self).awaiting_semantic)
            }),
            ({
                let n = old(self).original@.len() as int;
                let m = old(self).modified@.len() as int;
                let p = old(self).position as int;
                let o = old(self).offset;
                let la = min_int(old(self).lookahead_range as int, n - 1);
                let d = spec_distance_alignment(
                    old(self).original.deep_view(),
                    old(self).modified.deep_view(),
                    p,
                    p + o,
                    la,
                );
                (!old(self).done && p + 1 < n && 0 <= p + o < m) ==> {
                    &&& (d.0 == DistanceResolution::Direct ==> r == StepResult::Progressed
                        && final(self).position == p + 1 && final(self).offset == o && final(self).prev_offset == old(self).prev_offset && final(self).prev_action
                        == AlignmentAction::NoChange && final(self).records@ == old(
                        self,
                    ).records@.push(
                        (AlignmentRecord {
                            original_start: p as usize,
                            original_end: (p + 1) as usize,
                            modified_start: (p + o) as usize,
                            modified_end: (p + o + 1) as usize,
                            action: AlignmentAction::NoChange,
                            score: d.1 as u32,
                        }),
                    ))
                    &&& (d.0 == DistanceResolution::Split ==> r == StepResult::Progressed
                        && final(self).position == p + 1 && final(self).offset == o + 1 && final(self).prev_offset == o && final(self).prev_action == AlignmentAction::Split
                        && final(self).records@ == old(self).records@.push(
                        (AlignmentRecord {
                            original_start: p as usize,
                            original_end: (p + 1) as usize,
                            modified_start: (p + o) as usize,
                            modified_end: min_int(p + o + 2, m) as usize,
                            action: AlignmentAction::Split,
                            score: d.1 as u32,
                        }),
                    ))
                    &&& (d.0 is Merge ==> r == StepResult::Progressed && final(self).position
                        == p + d.0->Merge_0 + 1 && final(self).offset == o - d.0->Merge_0
                        && final(self).prev_offset == o && final(self).prev_action
                        == AlignmentAction::Merge && final(self).records@ == old(
                        self,
                    ).records@.push(
                        (AlignmentRecord {
                            original_start: p as usize,
                            original_end: (p + d.0->Merge_0 + 1) as usize,
                            modified_start: (p + o) as usize,
                            modified_end: (p + o + 1) as usize,
                            action: AlignmentAction::Merge,
                            score: d.1 as u32,
                        }),
                    ))
                    &&& (d.0 == DistanceResolution::Unresolved ==> r == StepResult::NeedSemantic
                        && final(self).position == p && final(self).offset == o && final(self).prev_offset == old(self).prev_offset && final(self).prev_action == old(
                        self,
                    ).prev_action && final(self).records@ == old(self).records@ && final(self).awaiting_semantic)
                }
            }),
    {
        if self.done {
            return StepResult::Done;
        }
        let n = self.original.len();
        let m = self.modified.len();
        let p = self.position;
        if n == 0 || p >= n - 1 {
            // flush the remaining lines as unmatched
            let mut q = p;
            while q < n
                invariant
                    p <= q <= n,
                    n == self.original@.len(),
                    self.records@ == old(self).records@ + spec_flush_records(p as int, q as int),
                    self.original == old(self).original,
                    self.modified == old(self).modified,
                    self.lookahead_range == old(self).lookahead_range,
                    self.position == old(self).position,
                    self.offset == old(self).offset,
                    self.prev_offset == old(self).prev_offset,
                    self.prev_action == old(self).prev_action,
                    self.awaiting_semantic == old(self).awaiting_semantic,
                    self.done == old(self).done,
                    p == old(self).position,
                decreases n - q,
            {
                self.records.push(
                    AlignmentRecord {
                        original_start: q,
                        original_end: q + 1,
                        modified_start: 0,
                        modified_end: 0,
                        action: AlignmentAction::NoChange,
                        score: 0,
                    },
                );
                proof {
                    assert(self.records@ =~= old(self).records@ + spec_flush_records(
                        p as int,
                        q + 1,
                    ));
                }
                q = q + 1;
            }
            self.position = n;
            self.done = true;
            proof {
                let rs = self.records@;
                let oldr = old(self).records@;
                let fl = spec_flush_records(p as int, n as int);
                assert forall|i: int|
                    0 <= i < rs.len() - 1 implies (#[trigger] rs[i + 1]).original_start
                    == rs[i].original_end by {
                    if i < oldr.len() - 1 {
                        assert(rs[i] == oldr[i] && rs[i + 1] == oldr[i + 1]);
                    } else if i == oldr.len() - 1 {
                        assert(rs[i] == oldr[i]);
                        assert(rs[i + 1] == fl[0]);
                    } else {
                        assert(rs[i] == fl[i - oldr.len()]);
                        assert(rs[i + 1] == fl[i + 1 - oldr.len()]);
                    }
                }
                assert(records_chained(self.records@, self.position as int));
            }
            return StepResult::Done;
        }
        // the hypothesized counterpart index
        let mi128: i128 = p as i128 + self.offset;
        if mi128 < 0 || mi128 >= m as i128 {
            // out of range: this original line has no counterpart
            self.records.push(
                AlignmentRecord {
                    original_start: p,
                    original_end: p + 1,
                    modified_start: 0,
                    modified_end: 0,
                    action: AlignmentAction::NoChange,
                    score: 0,
                },
            );
            self.position = p + 1;
            proof {
                assert(self.records@ =~= old(self).records@.push(
                    spec_nomatch_record(p as int, 0),
                ));
                assert(records_chained(self.records@, self.position as int));
            }
            return StepResult::Progressed;
        }
        let mi: usize = mi128 as usize;
        let la = if self.lookahead_range < n - 1 {
            self.lookahead_range
        } else {
            n - 1
        };
        proof {
            assert(self.original.deep_view()[p as int] == self.original@[p as int]@);
        }
        let (resolution, score) = text_distance_alignment(
            &self.original,
            &self.modified,
            p,
            mi,
            la,
        );
        match resolution {
            DistanceResolution::Direct => {
                self.records.push(
                    AlignmentRecord {
                        original_start: p,
                        original_end: p + 1,
                        modified_start: mi,
                        modified_end: mi + 1,
                        action: AlignmentAction::NoChange,
                        score,
                    },
                );
                self.position = p + 1;
                self.prev_action = AlignmentAction::NoChange;
                proof {
                    assert(records_chained(self.records@, self.position as int));
                }
                StepResult::Progressed
            },
            DistanceResolution::Split => {
                self.records.push(
                    AlignmentRecord {
                        original_start: p,
                        original_end: p + 1,
                        modified_start: mi,
                        modified_end: if m - mi >= 2 {
                            mi + 2
                        } else {
                            m
                        },
                        action: AlignmentAction::Split,
                        score,
                    },
                );
                self.prev_offset = self.offset;
                self.offset = self.offset + 1;
                self.position = p + 1;
                self.prev_action = AlignmentAction::Split;
                proof {
                    assert(records_chained(self.records@, self.position as int));
                }
                StepResult::Progressed
            },
            DistanceResolution::Merge(lines) => {
                proof {
                    let orig = self.original.deep_view();
                    let modi = self.modified.deep_view();
                    let parts = crate::alignment::distance_alignment::spec_merge_parts(
                        orig,
                        modi,
                        p as int,
                        mi as int,
                        la as int,
                    );
                    let mf = crate::alignment::distance_alignment::spec_merge_fold(
                        parts,
                        modi[mi as int],
                        parts.len() as int,
                    );
                    assert(parts.len() >= 1);
                    crate::alignment::distance_alignment::lemma_merge_fold_bounds(
                        parts,
                        modi[mi as int],
                        parts.len() as int,
                    );
                    assert(lines as int == mf.1);
                    assert(parts.len() <= self.original@.len() - p);
                    assert(lines + 1 <= self.original@.len() - p);
                }
                self.records.push(
                    AlignmentRecord {
                        original_start: p,
                        original_end: p + lines + 1,
                        modified_start: mi,
                        modified_end: mi + 1,
                        action: AlignmentAction::Merge,
                        score,
                    },
                );
                self.prev_offset = self.offset;
                self.offset = self.offset - lines as i128;
                self.position = p + lines + 1;
                self.prev_action = AlignmentAction::Merge;
                proof {
                    assert(records_chained(self.records@, self.position as int));
                }
                StepResult::Progressed
            },
            DistanceResolution::Unresolved => {
                self.awaiting_semantic = true;
                StepResult::NeedSemantic
            },
        }
    }
}


/// The termination bound: the measure never goes below zero and starts no
/// higher than the two track lengths combined, and every progressing step
/// strictly decreases it, so any run of the engine finishes within
/// `original.len() + modified.len()` progressing steps.
pub proof fn lemma_engine_halts(e: &AlignmentEngine)
    requires
        e.wf(),
    ensures
        0 <= e.measure(),
        e.measure() <= e.original@.len() + e.modified@.len(),
{
}

/// The output contract: once the engine is done, the records' original
/// ranges sit back to back and cover every original index exactly once.
pub proof fn lemma_records_cover_all(e: &AlignmentEngine)
    requires
        e.wf(),
        e.done,
    ensures
        records_chained(e.records@, e.original@.len() as int),
{
}

} // verus!
