use assa_merger::alignment::distance_alignment;
use assa_merger::alignment::semantic_alignment::{
    calc_merge_similarity, calc_split_similarity, prev_split_scores, semantic_alignment,
    SemanticResolution, SemanticScores,
};

fn base_scores() -> SemanticScores {
    SemanticScores {
        current: 0,
        split: 0,
        split_segment_scores: Vec::new(),
        split_segment_count: 0,
        merge: 0,
        merge_line_count: 1,
        prev: 0,
        next: 0,
        prev_split: 0,
        prev_split_merge: 0,
    }
}

#[test]
fn lexical_split_aggregation() {
    let (score, consumed) = distance_alignment::calc_split_similarity(
        "A, and B.",
        &vec!["A,".to_string(), "and B.".to_string()],
    );
    assert_eq!(score, 1000);
    assert_eq!(consumed, vec!["A,".to_string(), "and B.".to_string()]);
}

#[test]
fn lexical_merge_aggregation() {
    let (score, consumed) = distance_alignment::calc_merge_similarity(
        &vec!["A.".to_string(), "B.".to_string()],
        "A. B.",
    );
    // prefixes are space-joined, so both lines together match exactly
    assert_eq!(score, 1000);
    assert_eq!(consumed, vec!["A.".to_string()]);
}

#[test]
fn semantic_split_aggregation() {
    // the second candidate has the better mean: 900 over one segment beats
    // 700 over two
    let candidates = vec![
        vec!["x".to_string(), "y".to_string()],
        vec!["z".to_string()],
    ];
    let scores = vec![vec![800u32, 600u32], vec![900u32]];
    let (best, seg_scores, segs) = calc_split_similarity(&candidates, &scores);
    assert_eq!(best, 900);
    assert_eq!(seg_scores, vec![900u32]);
    assert_eq!(segs, vec!["z".to_string()]);
}

#[test]
fn semantic_merge_aggregation_needs_clear_improvement() {
    // a later concatenation must beat the best by more than a tenth
    let parts = vec!["a".to_string(), "b".to_string(), "c".to_string()];
    let scores = vec![500u32, 580u32];
    let (best, consumed) = calc_merge_similarity(&parts, &scores);
    assert_eq!(best, 500);
    assert_eq!(consumed, vec!["a".to_string(), "b".to_string()]);

    let scores = vec![500u32, 700u32];
    let (best, consumed) = calc_merge_similarity(&parts, &scores);
    assert_eq!(best, 700);
    assert_eq!(consumed, parts);

    // the consumed prefix is the one the reported score belongs to, even
    // when an earlier concatenation was never accepted
    let scores = vec![50u32, 200u32];
    let (best, consumed) = calc_merge_similarity(&parts, &scores);
    assert_eq!(best, 200);
    assert_eq!(consumed, parts);
}

#[test]
fn decision_prev_correction() {
    // the previous split took one segment too many: the line belongs to the
    // previous counterpart
    let mut sc = base_scores();
    sc.current = 400;
    sc.prev = 700;
    sc.prev_split = 300;
    sc.prev_split_merge = 650;
    let (r, score) = semantic_alignment(true, &sc);
    assert_eq!(r, SemanticResolution::Prev);
    assert_eq!(score, 700);
    // without a preceding split the correction is not eligible
    let (r, _) = semantic_alignment(false, &sc);
    assert_eq!(r, SemanticResolution::Unresolved);
}

#[test]
fn decision_split_needs_strong_segment() {
    let mut sc = base_scores();
    sc.current = 350;
    sc.split = 500;
    sc.split_segment_scores = vec![900, 100];
    sc.split_segment_count = 2;
    let (r, score) = semantic_alignment(false, &sc);
    assert_eq!(r, SemanticResolution::Split(2));
    assert_eq!(score, 500);
}

#[test]
fn decision_merge_needs_margin_over_current() {
    let mut sc = base_scores();
    sc.current = 400;
    sc.merge = 520;
    sc.merge_line_count = 3;
    let (r, score) = semantic_alignment(false, &sc);
    assert_eq!(r, SemanticResolution::Merge(3));
    assert_eq!(score, 520);
    // too close to the current pairing: the step stays unresolved
    sc.merge = 405;
    let (r, score) = semantic_alignment(false, &sc);
    assert_eq!(r, SemanticResolution::Unresolved);
    assert_eq!(score, 400);
}

#[test]
fn low_confidence_shift_is_flat() {
    // below the floor the decision order is flat: when any part of the
    // previous-split correction's premise fails, a good enough next line
    // still shifts the hypothesis, even if the previous line scores better
    let mut sc = base_scores();
    sc.current = 200;
    sc.prev = 400;
    sc.next = 350;
    let (r, score) = semantic_alignment(false, &sc);
    assert_eq!(r, SemanticResolution::Next);
    assert_eq!(score, 350);
    // with the full premise the correction wins
    sc.prev_split = 100;
    sc.prev_split_merge = 300;
    let (r, score) = semantic_alignment(true, &sc);
    assert_eq!(r, SemanticResolution::Prev);
    assert_eq!(score, 400);
}

#[test]
fn decision_insertion_needs_clear_lead() {
    let mut sc = base_scores();
    sc.current = 400;
    sc.next = 510;
    // 510 is not more than 1.3 times 400
    let (r, _) = semantic_alignment(false, &sc);
    assert_eq!(r, SemanticResolution::Unresolved);
    sc.next = 600;
    let (r, score) = semantic_alignment(false, &sc);
    assert_eq!(r, SemanticResolution::Next);
    assert_eq!(score, 600);
}

#[test]
fn prev_split_correction_scores_follow_the_winner() {
    let candidates = vec![
        vec!["a".to_string(), "b".to_string()],
        vec!["c".to_string(), "d".to_string(), "e".to_string()],
    ];
    let candidate_scores = vec![vec![700u32, 700], vec![900, 900, 900]];
    let last = vec![111u32, 222];
    let merge = vec![333u32, 444];
    assert_eq!(
        prev_split_scores(&candidates, &candidate_scores, &last, &merge),
        (222, 444)
    );
    // with no candidates there is no winner and no correction signal
    assert_eq!(
        prev_split_scores(&Vec::new(), &Vec::new(), &Vec::new(), &Vec::new()),
        (0, 0)
    );
}
