use assa_merger::alignment::levenshtein::{levenshtein, levenshtein_ratio};
use assa_merger::alignment::text_processor::prep_for_distance_measuring;

#[test]
fn distance_matches_reference_crate() {
    let pairs = [
        ("kitten", "sitting"),
        ("flaw", "lawn"),
        ("", "abc"),
        ("same", "same"),
        ("a", ""),
        ("hello there my name is thomas", "hello there i am thomas"),
    ];
    for (a, b) in pairs {
        let va: Vec<char> = a.chars().collect();
        let vb: Vec<char> = b.chars().collect();
        assert_eq!(
            levenshtein(&va, &vb),
            strsim::levenshtein(a, b),
            "distance differs for {a:?} / {b:?}"
        );
    }
}

#[test]
fn ratio_tracks_reference_crate() {
    let pairs = [
        ("Hey there, my name is Thomas. How are you?", "Hey there."),
        ("Running right through?", "running right through"),
        ("completely different", "nothing alike here"),
        ("{\\i1}styled text", "styled text"),
    ];
    for (a, b) in pairs {
        let ours = levenshtein_ratio(a, b) as f64 / 1000.0;
        let pa = prep_for_distance_measuring(a);
        let pb = prep_for_distance_measuring(b);
        let theirs = strsim::normalized_levenshtein(&pa, &pb);
        assert!(
            (ours - theirs).abs() < 0.002,
            "ratio differs for {a:?} / {b:?}: {ours} vs {theirs}"
        );
    }
}

#[test]
fn identical_lines_score_full() {
    for a in ["Hello, world!", "a", "What?! Are You\\NSure...", ""] {
        assert_eq!(levenshtein_ratio(a, a), 1000);
    }
}

#[test]
fn ratio_stays_in_range() {
    for (a, b) in [("abc", "xyz"), ("", "something"), ("one", "two three four")] {
        let r = levenshtein_ratio(a, b);
        assert!(r <= 1000);
    }
}

#[test]
fn ratio_known_value() {
    // "ab" against "a b": one insertion over three characters
    assert_eq!(levenshtein_ratio("A.B.", "A. B."), 666);
}
