use assa_merger::alignment::semantic_alignment::SemanticScores;
use assa_merger::alignment::{AlignmentAction, AlignmentEngine, StepResult};

fn lines(xs: &[&str]) -> Vec<String> {
    xs.iter().map(|s| s.to_string()).collect()
}

fn no_semantic_signal(current: u32) -> SemanticScores {
    SemanticScores {
        current,
        split: 0,
        split_segment_scores: Vec::new(),
        split_segment_count: 0,
        merge: 0,
        merge_line_count: 1,
        prev: 0,
        next: 0,
        prev_split: 0,
        prev_split_merge: 0,
    }
}

#[test]
fn merge_scenario() {
    // two original lines correspond to one modified line; the effective
    // lookahead is capped at len(original) - 1 and the final line is never
    // evaluated, so the sequences carry one trailing line each
    let mut e = AlignmentEngine::new(lines(&["A.", "B.", "pad"]), lines(&["A. B.", "pad"]), 2);
    assert_eq!(e.step_lexical(), StepResult::Progressed);
    assert_eq!(e.step_lexical(), StepResult::Done);
    assert_eq!(e.records.len(), 2);
    let r = &e.records[0];
    assert_eq!(
        (r.original_start, r.original_end, r.modified_start, r.modified_end),
        (0, 2, 0, 1)
    );
    assert_eq!(r.action, AlignmentAction::Merge);
    // the space-joined concatenation matches the counterpart exactly
    assert_eq!(r.score, 1000);
    assert_eq!(e.offset, -1);
    // the trailing line is left unmatched by construction
    assert_eq!(e.records[1].action, AlignmentAction::NoChange);
    assert_eq!((e.records[1].modified_start, e.records[1].modified_end), (0, 0));
}

#[test]
fn split_scenario() {
    // one original line splits over the next two modified lines; as in the
    // merge scenario the sequences carry trailing lines so that the capped
    // lookahead still allows a two-way split
    let mut e = AlignmentEngine::new(
        lines(&["A, and B.", "C.", "D."]),
        lines(&["A,", "and B.", "C.", "D."]),
        2,
    );
    assert_eq!(e.step_lexical(), StepResult::Progressed);
    let r = &e.records[0];
    assert_eq!(
        (r.original_start, r.original_end, r.modified_start, r.modified_end),
        (0, 1, 0, 2)
    );
    assert_eq!(r.action, AlignmentAction::Split);
    assert_eq!(r.score, 1000);
    assert_eq!(e.offset, 1);
    // the line after the split is a direct match one position further on
    assert_eq!(e.step_lexical(), StepResult::Progressed);
    assert_eq!(e.records[1].action, AlignmentAction::NoChange);
    assert_eq!((e.records[1].modified_start, e.records[1].modified_end), (2, 3));
    // the trailing line is left unmatched by construction
    assert_eq!(e.step_lexical(), StepResult::Done);
    let t = &e.records[2];
    assert_eq!((t.original_start, t.original_end), (2, 3));
    assert_eq!((t.modified_start, t.modified_end), (0, 0));
    assert_eq!(t.action, AlignmentAction::NoChange);
}

#[test]
fn insertion_scenario() {
    // the modified track holds an extra line; the semantic pass sees a much
    // better match one line ahead and shifts the hypothesis
    let mut e = AlignmentEngine::new(
        lines(&["Morning", "Night", "pad"]),
        lines(&["Morning", "INSERTED", "Night", "pad"]),
        2,
    );
    assert_eq!(e.step_lexical(), StepResult::Progressed);  // direct match
    assert_eq!(e.step_lexical(), StepResult::NeedSemantic);
    let plan = e.semantic_plan();
    assert!(plan.has_next);
    assert_eq!(plan.next_modified, "Night");
    let mut scores = no_semantic_signal(100);
    scores.merge = 100;
    scores.next = 900;
    let pos_before = e.position;
    assert_eq!(e.step_semantic(&scores), StepResult::Progressed);
    assert_eq!(e.position, pos_before);
    assert_eq!(e.offset, 1);
    let r = &e.records[1];
    assert_eq!(r.action, AlignmentAction::Next);
    assert_eq!((r.original_start, r.original_end), (1, 1));
    assert_eq!((r.modified_start, r.modified_end), (1, 2));
    assert_eq!(r.score, 900);
    // afterwards the shifted pairing is a direct match
    assert_eq!(e.step_lexical(), StepResult::Progressed);
    assert_eq!(e.step_lexical(), StepResult::Done);
    assert_eq!(e.records[2].action, AlignmentAction::NoChange);
    assert_eq!(
        (e.records[2].modified_start, e.records[2].modified_end),
        (2, 3)
    );
}

#[test]
fn no_match_scenario() {
    // nothing lexical or semantic above the floor: the line is recorded
    // with an empty modified range
    let mut e = AlignmentEngine::new(lines(&["foo", "pad"]), lines(&["zzz", "pad"]), 2);
    assert_eq!(e.step_lexical(), StepResult::NeedSemantic);
    let scores = no_semantic_signal(250);
    assert_eq!(e.step_semantic(&scores), StepResult::Progressed);
    let r = &e.records[0];
    assert_eq!(r.action, AlignmentAction::NoChange);
    assert_eq!((r.original_start, r.original_end), (0, 1));
    assert_eq!(r.modified_start, r.modified_end);
    assert_eq!(r.score, 250);
}

#[test]
fn engine_halts_within_step_bound() {
    // the engine must finish within len(original) + len(modified) resolved
    // steps, whatever the oracle says
    let orig: Vec<String> = (0..12).map(|i| format!("line number {i}")).collect();
    let modi: Vec<String> = (0..9).map(|i| format!("other text {i}")).collect();
    let bound = orig.len() + modi.len();
    let mut e = AlignmentEngine::new(orig, modi, 3);
    let mut steps = 0;
    loop {
        match e.step_lexical() {
            StepResult::Done => break,
            StepResult::Progressed => {
                steps += 1;
            }
            StepResult::NeedSemantic => {
                let scores = no_semantic_signal(0);
                assert_eq!(e.step_semantic(&scores), StepResult::Progressed);
                steps += 1;
            }
        }
        assert!(steps <= bound, "engine exceeded its step bound");
    }
    // every original index is covered exactly once, in order
    let mut next = 0;
    for r in &e.records {
        assert_eq!(r.original_start, next);
        assert!(r.original_end >= r.original_start);
        next = r.original_end;
    }
    assert_eq!(next, 12);
}

#[test]
fn merge_window_opens_on_length_hint() {
    // the counterpart has no interior punctuation, so only the length-delta
    // heuristic lets the merge search consume a second original line
    let mut e = AlignmentEngine::new(
        lines(&["Hello there", "my friend.", "pad"]),
        lines(&["Hello there my friend.", "pad"]),
        2,
    );
    assert_eq!(e.step_lexical(), StepResult::Progressed);
    let r = &e.records[0];
    assert_eq!(
        (r.original_start, r.original_end, r.modified_start, r.modified_end),
        (0, 2, 0, 1)
    );
    assert_eq!(r.action, AlignmentAction::Merge);
    assert_eq!(r.score, 1000);
}

#[test]
fn kept_sentence_scenario() {
    // both a split and a merge look strong: two lines are consumed as they
    // stand
    let mut e = AlignmentEngine::new(
        lines(&["One, two.", "Three.", "pad"]),
        lines(&["Uno dos", "Tres", "pad"]),
        2,
    );
    assert_eq!(e.step_lexical(), StepResult::NeedSemantic);
    let mut scores = no_semantic_signal(400);
    scores.split = 850;
    scores.merge = 900;
    scores.merge_line_count = 2;
    assert_eq!(e.step_semantic(&scores), StepResult::Progressed);
    assert_eq!(e.position, 2);
    let r = &e.records[0];
    assert_eq!(r.action, AlignmentAction::NoChange);
    assert_eq!((r.original_start, r.original_end), (0, 2));
    assert_eq!(r.score, 875);
}
