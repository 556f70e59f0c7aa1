use assa_merger::alignment::text_processor::{
    clean_spaces, prep_for_distance_measuring, prep_for_value_measuring,
    prep_for_value_measuring_batch, remove_styling, split_count, split_groups, split_indices,
    string_split_prep,
};

#[test]
fn split_indices_works() {
    assert_eq!(
        split_indices(
            r#"...w-what? \NAre you insane?!!\NNo, I am not! You are\Nsimply overreacting..."#,
        ),
        vec![10, 30, 35, 45, 55]
    );
}

#[test]
fn split_count_works() {
    assert_eq!(
        split_count(
            r#"...w-what? \NAre you insane?!!\NNo, I am not! You are\Nsimply overreacting..."#,
        ),
        6
    );
}

#[test]
fn split_groups_works() {
    assert_eq!(
        split_groups(r#"Hey, how are you?\N I'm fine thank you."#),
        vec![
            vec![
                "Hey,".to_string(),
                "how are you?".to_string(),
                "I'm fine thank you.".to_string()
            ],
            vec![
                "Hey,".to_string(),
                "how are you? I'm fine thank you.".to_string()
            ],
            vec![
                "Hey, how are you?".to_string(),
                "I'm fine thank you.".to_string()
            ],
        ],
    );
}

#[test]
fn boundaries_match_reference_scan() {
    // an equivalent way to find the punctuation runs is a regex scan;
    // compare it with the library's verified one
    let samples = [
        r#"Hello, world! How are you?"#,
        r#"One.two.three"#,
        r#"...leading and trailing..."#,
        r#"a\Nb\Nc"#,
        r#"What?!\NReally?!"#,
        r#"no punctuation at all"#,
        r#"ends with period."#,
        r#"!starts with bang"#,
    ];
    let re = regex::Regex::new(r"[?!,.:;]+").unwrap();
    for text in samples {
        let mut expected: Vec<usize> = Vec::new();
        for mat in re.find_iter(text) {
            if mat.start() == 0 || mat.end() == text.len() {
                continue;
            }
            expected.push(mat.end());
        }
        let newline_indices: Vec<usize> = text.match_indices(r#"\N"#).map(|m| m.0).collect();
        for i in newline_indices {
            if i == 0 {
                continue;
            }
            if !expected.contains(&i) && !expected.contains(&(i - 1)) {
                expected.push(i + 2)
            }
        }
        expected.sort();
        assert_eq!(split_indices(text), expected, "boundaries differ for {text:?}");
    }
}

#[test]
fn remove_styling_strips_override_tags() {
    assert_eq!(remove_styling(r#"{\i1}Hello{\i0} there"#), "Hello there");
    assert_eq!(remove_styling("  {tag}padded  "), "padded");
    assert_eq!(remove_styling("unclosed {brace"), "unclosed {brace");
}

#[test]
fn clean_spaces_collapses_runs() {
    assert_eq!(clean_spaces("  a   b    c  "), "a b c");
    assert_eq!(clean_spaces("one two"), "one two");
}

#[test]
fn prep_for_value_measuring_works() {
    assert_eq!(
        prep_for_value_measuring(r#"{\pos(1,2)}He said \N"wait  for me""#),
        "He said wait for me"
    );
    let batch = prep_for_value_measuring_batch(&vec![
        "a  b".to_string(),
        r#"c\Nd"#.to_string(),
    ]);
    assert_eq!(batch, vec!["a b".to_string(), "c d".to_string()]);
}

#[test]
fn prep_for_distance_measuring_works() {
    assert_eq!(
        prep_for_distance_measuring(r#"{\b1}What?! Are You\NSure..."#),
        "what are you sure"
    );
}

#[test]
fn string_split_prep_works() {
    assert_eq!(string_split_prep(r#" \Nhow are  you? "#), "how are you?");
}

#[test]
fn normalizers_idempotent_on_ordinary_lines() {
    let samples = [
        r#"{\i1}Hello,\Nworld!  "#,
        r#"plain text"#,
        r#""quoted" speech \N here"#,
        r#"What?! Are You\NSure..."#,
        "",
    ];
    for s in samples {
        let v1 = prep_for_value_measuring(s);
        assert_eq!(prep_for_value_measuring(&v1), v1, "value prep not idempotent on {s:?}");
        let d1 = prep_for_distance_measuring(s);
        assert_eq!(
            prep_for_distance_measuring(&d1),
            d1,
            "distance prep not idempotent on {s:?}"
        );
        let c1 = clean_spaces(s);
        assert_eq!(clean_spaces(&c1), c1);
        let r1 = remove_styling(s);
        assert_eq!(remove_styling(&r1), r1);
    }
}

#[test]
fn normalizer_idempotence_boundary_inputs() {
    // removing a quote can fuse a backslash with a following N into a fresh
    // break marker; such inputs are excluded from the idempotence law
    let tricky = "\\\"N";
    let once = prep_for_value_measuring(tricky);
    assert_eq!(once, "\\N");
    assert_ne!(prep_for_value_measuring(&once), once);
    // dropping a character can leave two spaces side by side; such inputs
    // are excluded from the lexical idempotence law
    let spaced = "a ! b";
    let once = prep_for_distance_measuring(spaced);
    assert_eq!(once, "a  b");
    assert_ne!(prep_for_distance_measuring(&once), once);
}
