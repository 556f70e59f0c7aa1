//! Pure text transforms that prepare a subtitle line for lexical or semantic
//! comparison, and the split-candidate generator.

use vstd::prelude::*;
use crate::chars::{chars_to_string, str_to_chars};

verus! {

/// The whitespace characters trimmed from the ends of a line.
pub open spec fn is_space_char(c: char) -> bool {
    c == ' ' || c == '\t' || c == '\n' || c == '\r'
}

/// A line with leading and trailing whitespace removed.
pub open spec fn spec_trim(s: Seq<char>) -> Seq<char>
    decreases s.len(),
{
    if s.len() == 0 {
        s
    } else if is_space_char(s[0]) {
        spec_trim(s.drop_first())
    } else if is_space_char(s.last()) {
        spec_trim(s.drop_last())
    } else {
        s
    }
}

/// Every run of two or more spaces shrunk to a single space.
pub open spec fn spec_collapse_spaces(s: Seq<char>) -> Seq<char>
    decreases s.len(),
{
    if s.len() == 0 {
        s
    } else if s[0] == ' ' && s.len() >= 2 && s[1] == ' ' {
        spec_collapse_spaces(s.drop_first())
    } else {
        seq![s[0]] + spec_collapse_spaces(s.drop_first())
    }
}

/// Runs of spaces collapsed, then both ends trimmed.
pub open spec fn spec_clean_spaces(s: Seq<char>) -> Seq<char> {
    spec_trim(spec_collapse_spaces(s))
}

proof fn lemma_trim_range(s: Seq<char>, start: int, end: int)
    requires
        0 <= start <= end <= s.len(),
        forall|k: int| 0 <= k < start ==> is_space_char(s[k]),
        forall|k: int| end <= k < s.len() ==> is_space_char(s[k]),
        start == end || (!is_space_char(s[start]) && !is_space_char(s[end - 1])),
    ensures
        spec_trim(s) == s.subrange(start, end),
    decreases s.len(),
{
    if s.len() == 0 {
        assert(spec_trim(s) =~= s.subrange(start, end));
    } else if is_space_char(s[0]) {
        let t = s.drop_first();
        if start == end {
            lemma_trim_range(t, 0, 0);
            assert(spec_trim(s) =~= s.subrange(start, end));
        } else {
            assert(start >= 1);
            lemma_trim_range(t, start - 1, end - 1);
            assert(t.subrange(start - 1, end - 1) =~= s.subrange(start, end));
        }
    } else if is_space_char(s.last()) {
        let t = s.drop_last();
        assert(start == 0);
        assert(end < s.len());
        lemma_trim_range(t, start, end);
        assert(t.subrange(start, end) =~= s.subrange(start, end));
    } else {
        assert(start == 0);
        assert(end == s.len());
        assert(spec_trim(s) =~= s.subrange(start, end));
    }
}

fn is_space_exec(c: char) -> (r: bool)
    ensures
        r == is_space_char(c),
{
    c == ' ' || c == '\t' || c == '\n' || c == '\r'
}

pub(crate) fn trim_chars(v: &Vec<char>) -> (r: Vec<char>)
    ensures
        r@ == spec_trim(v@),
{
    let n = v.len();
    let mut start: usize = 0;
    while start < n && is_space_exec(v[start])
        invariant
            n == v@.len(),
            start <= n,
            forall|k: int| 0 <= k < start ==> is_space_char(v@[k]),
        decreases n - start,
    {
        start = start + 1;
    }
    let mut end: usize = n;
    while end > start && is_space_exec(v[end - 1])
        invariant
            start <= end <= n,
            n == v@.len(),
            forall|k: int| 0 <= k < start ==> is_space_char(v@[k]),
            forall|k: int| end <= k < n ==> is_space_char(v@[k]),
        decreases end,
    {
        end = end - 1;
    }
    let mut r: Vec<char> = Vec::new();
    let mut i: usize = start;
    while i < end
        invariant
            start <= i <= end <= n,
            n == v@.len(),
            r@ == v@.subrange(start as int, i as int),
        decreases end - i,
    {
        r.push(v[i]);
        i = i + 1;
        proof {
            assert(r@ =~= v@.subrange(start as int, i as int));
        }
    }
    proof {
        if start == end {
        } else {
            assert(!is_space_char(v@[start as int]));
            assert(!is_space_char(v@[end - 1]));
        }
        lemma_trim_range(v@, start as int, end as int);
    }
    r
}

pub(crate) fn collapse_spaces_chars(v: &Vec<char>) -> (r: Vec<char>)
    ensures
        r@ == spec_collapse_spaces(v@),
{
    let n = v.len();
    let mut r: Vec<char> = Vec::new();
    let mut i: usize = 0;
    proof {
        assert(v@.skip(0) =~= v@);
        assert(r@ + spec_collapse_spaces(v@) =~= spec_collapse_spaces(v@));
    }
    while i < n
        invariant
            i <= n,
            n == v@.len(),
            spec_collapse_spaces(v@) == r@ + spec_collapse_spaces(v@.skip(i as int)),
        decreases n - i,
    {
        let ghost pre = v@.skip(i as int);
        if v[i] == ' ' && i + 1 < n && v[i + 1] == ' ' {
            proof {
                assert(pre[0] == ' ' && pre.len() >= 2 && pre[1] == ' ');
                assert(pre.drop_first() =~= v@.skip(i + 1));
            }
        } else {
            r.push(v[i]);
            proof {
                assert(!(pre[0] == ' ' && pre.len() >= 2 && pre[1] == ' '));
                assert(pre.drop_first() =~= v@.skip(i + 1));
                assert(spec_collapse_spaces(pre) == seq![pre[0]] + spec_collapse_spaces(
                    v@.skip(i + 1),
                ));
                assert(r@ + spec_collapse_spaces(v@.skip(i + 1)) =~= (r@.drop_last() + (seq![
                    pre[0],
                ] + spec_collapse_spaces(v@.skip(i + 1)))));
            }
        }
        i = i + 1;
    }
    proof {
        assert(v@.skip(n as int) =~= Seq::<char>::empty());
        assert(r@ + spec_collapse_spaces(v@.skip(n as int)) =~= r@);
    }
    r
}

/// Collapse runs of spaces to a single space and trim both ends.
pub fn clean_spaces(text: &str) -> (r: String)
    ensures
        r@ == spec_clean_spaces(text@),
{
    let v = str_to_chars(text);
    let collapsed = collapse_spaces_chars(&v);
    let trimmed = trim_chars(&collapsed);
    chars_to_string(&trimmed)
}

/// Index of the first `}` in `s`, unless a newline comes first; an override
/// tag never spans a newline.
pub open spec fn spec_find_close(s: Seq<char>) -> Option<int>
    decreases s.len(),
{
    if s.len() == 0 {
        None
    } else if s[0] == '}' {
        Some(0int)
    } else if s[0] == '\n' {
        None
    } else {
        match spec_find_close(s.drop_first()) {
            Some(j) => Some(j + 1),
            None => None,
        }
    }
}

pub proof fn lemma_find_close_bounds(s: Seq<char>)
    requires
        spec_find_close(s) is Some,
    ensures
        0 <= spec_find_close(s)->Some_0 < s.len(),
        s[spec_find_close(s)->Some_0] == '}',
    decreases s.len(),
{
    if s.len() == 0 {
    } else if s[0] == '}' {
    } else if s[0] == '\n' {
    } else {
        lemma_find_close_bounds(s.drop_first());
    }
}

/// The line with every `{...}` override-tag span removed: at each `{` the
/// span runs to the nearest following `}` on the same line.
pub open spec fn spec_strip_styling(s: Seq<char>) -> Seq<char>
    decreases s.len(),
    via spec_strip_styling_decreases
{
    if s.len() == 0 {
        s
    } else if s[0] == '{' && spec_find_close(s.drop_first()) is Some {
        let j = spec_find_close(s.drop_first())->Some_0;
        spec_strip_styling(s.skip(j + 2))
    } else {
        seq![s[0]] + spec_strip_styling(s.drop_first())
    }
}

#[via_fn]
proof fn spec_strip_styling_decreases(s: Seq<char>) {
    if s.len() != 0 && s[0] == '{' && spec_find_close(s.drop_first()) is Some {
        lemma_find_close_bounds(s.drop_first());
    }
}

/// Override tags removed, then both ends trimmed.
pub open spec fn spec_remove_styling(s: Seq<char>) -> Seq<char> {
    spec_trim(spec_strip_styling(s))
}

/// Every `\N` line-break marker replaced by a single space.
pub open spec fn spec_replace_breaks(s: Seq<char>) -> Seq<char>
    decreases s.len(),
{
    if s.len() == 0 {
        s
    } else if s[0] == '\\' && s.len() >= 2 && s[1] == 'N' {
        seq![' '] + spec_replace_breaks(s.skip(2))
    } else {
        seq![s[0]] + spec_replace_breaks(s.drop_first())
    }
}

/// Every double-quote character removed.
pub open spec fn spec_remove_quotes(s: Seq<char>) -> Seq<char>
    decreases s.len(),
{
    if s.len() == 0 {
        s
    } else if s[0] == '"' {
        spec_remove_quotes(s.drop_first())
    } else {
        seq![s[0]] + spec_remove_quotes(s.drop_first())
    }
}

/// The normalisation used before semantic comparison: override tags removed,
/// line-break markers replaced by spaces, quotes dropped, whitespace tidied.
pub open spec fn spec_prep_for_value_measuring(s: Seq<char>) -> Seq<char> {
    spec_clean_spaces(spec_remove_quotes(spec_replace_breaks(spec_remove_styling(s))))
}

pub open spec fn spec_ascii_lower(c: char) -> char {
    if 'A' <= c && c <= 'Z' {
        (((c as u8) + 32) as char)
    } else {
        c
    }
}

pub open spec fn spec_lex_keep(c: char) -> bool {
    ('a' <= c && c <= 'z') || c == ' '
}

/// Lowercase the letters, keep only `a`-`z` and spaces, drop the rest.
pub open spec fn spec_lex_filter(s: Seq<char>) -> Seq<char>
    decreases s.len(),
{
    if s.len() == 0 {
        s
    } else {
        let c = spec_ascii_lower(s[0]);
        (if spec_lex_keep(c) {
            seq![c]
        } else {
            Seq::<char>::empty()
        }) + spec_lex_filter(s.drop_first())
    }
}

/// The normalisation used before lexical (edit-distance) comparison.
pub open spec fn spec_prep_for_distance_measuring(s: Seq<char>) -> Seq<char> {
    spec_lex_filter(spec_clean_spaces(spec_replace_breaks(spec_remove_styling(s))))
}

fn find_close_from(v: &Vec<char>, start: usize) -> (r: Option<usize>)
    requires
        start <= v@.len(),
    ensures
        match r {
            Some(j) => start <= j < v@.len() && spec_find_close(v@.skip(start as int)) == Some(
                j - start,
            ),
            None => spec_find_close(v@.skip(start as int)) is None,
        },
{
    let n = v.len();
    let mut j = start;
    while j < n
        invariant
            start <= j <= n,
            n == v@.len(),
            spec_find_close(v@.skip(start as int)) == (match spec_find_close(
                v@.skip(j as int),
            ) {
                Some(k) => Some(k + j - start),
                None => None::<int>,
            }),
        decreases n - j,
    {
        let c = v[j];
        proof {
            assert(v@.skip(j as int)[0] == c);
            assert(v@.skip(j as int).drop_first() =~= v@.skip(j + 1));
        }
        if c == '}' {
            return Some(j);
        }
        if c == '\n' {
            return None;
        }
        j = j + 1;
    }
    proof {
        assert(v@.skip(n as int).len() == 0);
    }
    None
}

pub(crate) fn strip_styling_chars(v: &Vec<char>) -> (r: Vec<char>)
    ensures
        r@ == spec_strip_styling(v@),
{
    let n = v.len();
    let mut r: Vec<char> = Vec::new();
    let mut i: usize = 0;
    proof {
        assert(v@.skip(0) =~= v@);
        assert(r@ + spec_strip_styling(v@) =~= spec_strip_styling(v@));
    }
    while i < n
        invariant
            i <= n,
            n == v@.len(),
            spec_strip_styling(v@) == r@ + spec_strip_styling(v@.skip(i as int)),
        decreases n - i,
    {
        let ghost pre = v@.skip(i as int);
        proof {
            assert(pre[0] == v@[i as int]);
            assert(pre.drop_first() =~= v@.skip(i + 1));
        }
        let c = v[i];
        if c == '{' {
            match find_close_from(v, i + 1) {
                Some(j) => {
                    proof {
                        assert(spec_find_close(pre.drop_first()) == Some(j - i - 1));
                        assert(pre.skip(j - i - 1 + 2) =~= v@.skip(j + 1));
                    }
                    i = j + 1;
                },
                None => {
                    r.push(c);
                    proof {
                        assert(spec_strip_styling(pre) == seq![pre[0]] + spec_strip_styling(
                            v@.skip(i + 1),
                        ));
                        assert(r@ + spec_strip_styling(v@.skip(i + 1)) =~= r@.drop_last() + (seq![
                            pre[0],
                        ] + spec_strip_styling(v@.skip(i + 1))));
                    }
                    i = i + 1;
                },
            }
        } else {
            r.push(c);
            proof {
                assert(spec_strip_styling(pre) == seq![pre[0]] + spec_strip_styling(
                    v@.skip(i + 1),
                ));
                assert(r@ + spec_strip_styling(v@.skip(i + 1)) =~= r@.drop_last() + (seq![pre[0]]
                    + spec_strip_styling(v@.skip(i + 1))));
            }
            i = i + 1;
        }
    }
    proof {
        assert(v@.skip(n as int) =~= Seq::<char>::empty());
        assert(r@ + spec_strip_styling(v@.skip(n as int)) =~= r@);
    }
    r
}

pub(crate) fn remove_styling_chars(v: &Vec<char>) -> (r: Vec<char>)
    ensures
        r@ == spec_remove_styling(v@),
{
    let stripped = strip_styling_chars(v);
    trim_chars(&stripped)
}

/// Remove every `{...}` override-tag span and trim the result.
pub fn remove_styling(text: &str) -> (r: String)
    ensures
        r@ == spec_remove_styling(text@),
{
    let v = str_to_chars(text);
    let out = remove_styling_chars(&v);
    chars_to_string(&out)
}

pub(crate) fn replace_breaks_chars(v: &Vec<char>) -> (r: Vec<char>)
    ensures
        r@ == spec_replace_breaks(v@),
{
    let n = v.len();
    let mut r: Vec<char> = Vec::new();
    let mut i: usize = 0;
    proof {
        assert(v@.skip(0) =~= v@);
        assert(r@ + spec_replace_breaks(v@) =~= spec_replace_breaks(v@));
    }
    while i < n
        invariant
            i <= n,
            n == v@.len(),
            spec_replace_breaks(v@) == r@ + spec_replace_breaks(v@.skip(i as int)),
        decreases n - i,
    {
        let ghost pre = v@.skip(i as int);
        proof {
            assert(pre[0] == v@[i as int]);
            assert(pre.drop_first() =~= v@.skip(i + 1));
        }
        if v[i] == '\\' && i + 1 < n && v[i + 1] == 'N' {
            r.push(' ');
            proof {
                assert(pre.len() >= 2 && pre[1] == 'N');
                assert(pre.skip(2) =~= v@.skip(i + 2));
                assert(spec_replace_breaks(pre) == seq![' '] + spec_replace_breaks(v@.skip(i + 2)));
                assert(r@ + spec_replace_breaks(v@.skip(i + 2)) =~= r@.drop_last() + (seq![' ']
                    + spec_replace_breaks(v@.skip(i + 2))));
            }
            i = i + 2;
        } else {
            r.push(v[i]);
            proof {
                assert(!(pre[0] == '\\' && pre.len() >= 2 && pre[1] == 'N'));
                assert(spec_replace_breaks(pre) == seq![pre[0]] + spec_replace_breaks(
                    v@.skip(i + 1),
                ));
                assert(r@ + spec_replace_breaks(v@.skip(i + 1)) =~= r@.drop_last() + (seq![pre[0]]
                    + spec_replace_breaks(v@.skip(i + 1))));
            }
            i = i + 1;
        }
    }
    proof {
        assert(v@.skip(n as int) =~= Seq::<char>::empty());
        assert(r@ + spec_replace_breaks(v@.skip(n as int)) =~= r@);
    }
    r
}

pub(crate) fn remove_quotes_chars(v: &Vec<char>) -> (r: Vec<char>)
    ensures
        r@ == spec_remove_quotes(v@),
{
    let n = v.len();
    let mut r: Vec<char> = Vec::new();
    let mut i: usize = 0;
    proof {
        assert(v@.skip(0) =~= v@);
        assert(r@ + spec_remove_quotes(v@) =~= spec_remove_quotes(v@));
    }
    while i < n
        invariant
            i <= n,
            n == v@.len(),
            spec_remove_quotes(v@) == r@ + spec_remove_quotes(v@.skip(i as int)),
        decreases n - i,
    {
        let ghost pre = v@.skip(i as int);
        proof {
            assert(pre[0] == v@[i as int]);
            assert(pre.drop_first() =~= v@.skip(i + 1));
        }
        if v[i] != '"' {
            r.push(v[i]);
            proof {
                assert(spec_remove_quotes(pre) == seq![pre[0]] + spec_remove_quotes(
                    v@.skip(i + 1),
                ));
                assert(r@ + spec_remove_quotes(v@.skip(i + 1)) =~= r@.drop_last() + (seq![pre[0]]
                    + spec_remove_quotes(v@.skip(i + 1))));
            }
        }
        i = i + 1;
    }
    proof {
        assert(v@.skip(n as int) =~= Seq::<char>::empty());
        assert(r@ + spec_remove_quotes(v@.skip(n as int)) =~= r@);
    }
    r
}

pub(crate) fn lex_filter_chars(v: &Vec<char>) -> (r: Vec<char>)
    ensures
        r@ == spec_lex_filter(v@),
{
    let n = v.len();
    let mut r: Vec<char> = Vec::new();
    let mut i: usize = 0;
    proof {
        assert(v@.skip(0) =~= v@);
        assert(r@ + spec_lex_filter(v@) =~= spec_lex_filter(v@));
    }
    while i < n
        invariant
            i <= n,
            n == v@.len(),
            spec_lex_filter(v@) == r@ + spec_lex_filter(v@.skip(i as int)),
        decreases n - i,
    {
        let ghost pre = v@.skip(i as int);
        proof {
            assert(pre[0] == v@[i as int]);
            assert(pre.drop_first() =~= v@.skip(i + 1));
        }
        let c = v[i];
        let lc: char = if 'A' <= c && c <= 'Z' {
            (((c as u8) + 32) as char)
        } else {
            c
        };
        proof {
            assert(lc == spec_ascii_lower(pre[0]));
        }
        if ('a' <= lc && lc <= 'z') || lc == ' ' {
            r.push(lc);
            proof {
                assert(spec_lex_filter(pre) == seq![lc] + spec_lex_filter(v@.skip(i + 1)));
                assert(r@ + spec_lex_filter(v@.skip(i + 1)) =~= r@.drop_last() + (seq![lc]
                    + spec_lex_filter(v@.skip(i + 1))));
            }
        } else {
            proof {
                assert(spec_lex_filter(pre) == Seq::<char>::empty() + spec_lex_filter(
                    v@.skip(i + 1),
                ));
                assert(Seq::<char>::empty() + spec_lex_filter(v@.skip(i + 1)) =~= spec_lex_filter(
                    v@.skip(i + 1),
                ));
            }
        }
        i = i + 1;
    }
    proof {
        assert(v@.skip(n as int) =~= Seq::<char>::empty());
        assert(r@ + spec_lex_filter(v@.skip(n as int)) =~= r@);
    }
    r
}

pub(crate) fn prep_for_value_measuring_chars(v: &Vec<char>) -> (r: Vec<char>)
    ensures
        r@ == spec_prep_for_value_measuring(v@),
{
    let a = remove_styling_chars(v);
    let b = replace_breaks_chars(&a);
    let c = remove_quotes_chars(&b);
    let d = collapse_spaces_chars(&c);
    trim_chars(&d)
}

/// Normalise a line for semantic comparison.
pub fn prep_for_value_measuring(text: &str) -> (r: String)
    ensures
        r@ == spec_prep_for_value_measuring(text@),
{
    let v = str_to_chars(text);
    let out = prep_for_value_measuring_chars(&v);
    chars_to_string(&out)
}

/// Normalise every line of a list for semantic comparison.
pub fn prep_for_value_measuring_batch(text_list: &Vec<String>) -> (r: Vec<String>)
    ensures
        r@.len() == text_list@.len(),
        forall|i: int|
            0 <= i < r@.len() ==> r@[i]@ == spec_prep_for_value_measuring(text_list@[i]@),
{
    let mut r: Vec<String> = Vec::new();
    let mut i: usize = 0;
    while i < text_list.len()
        invariant
            i <= text_list@.len(),
            r@.len() == i,
            forall|k: int|
                0 <= k < i ==> r@[k]@ == spec_prep_for_value_measuring(text_list@[k]@),
        decreases text_list@.len() - i,
    {
        r.push(prep_for_value_measuring(text_list[i].as_str()));
        i = i + 1;
    }
    r
}

pub(crate) fn prep_for_distance_measuring_chars(v: &Vec<char>) -> (r: Vec<char>)
    ensures
        r@ == spec_prep_for_distance_measuring(v@),
{
    let a = remove_styling_chars(v);
    let b = replace_breaks_chars(&a);
    let c = collapse_spaces_chars(&b);
    let d = trim_chars(&c);
    lex_filter_chars(&d)
}

/// Normalise a line for lexical (edit-distance) comparison.
pub fn prep_for_distance_measuring(text: &str) -> (r: String)
    ensures
        r@ == spec_prep_for_distance_measuring(text@),
{
    let v = str_to_chars(text);
    let out = prep_for_distance_measuring_chars(&v);
    chars_to_string(&out)
}

/// The punctuation characters a line may be split at.
pub open spec fn is_split_punct(c: char) -> bool {
    c == '?' || c == '!' || c == ',' || c == '.' || c == ':' || c == ';'
}

/// `j` ends a maximal run of split punctuation that starts after the first
/// character and ends before the last.
pub open spec fn spec_punct_boundary(s: Seq<char>, j: int) -> bool {
    &&& 0 < j < s.len()
    &&& is_split_punct(s[j - 1])
    &&& !is_split_punct(s[j])
    &&& exists|k: int| 0 <= k < j && !is_split_punct(s[k])
}

/// A `\N` line-break marker begins at `i`.
pub open spec fn spec_nl_marker(s: Seq<char>, i: int) -> bool {
    0 <= i && i + 1 < s.len() && s[i] == '\\' && s[i + 1] == 'N'
}

/// A line-break marker at `i` contributes the boundary `i + 2`, unless it
/// sits at the very start, touches a punctuation boundary, or touches the
/// boundary of an earlier accepted marker.
pub open spec fn spec_nl_added(s: Seq<char>, i: int) -> bool
    decreases i + 3,
{
    if i <= 0 {
        false
    } else {
        &&& spec_nl_marker(s, i)
        &&& !spec_punct_boundary(s, i)
        &&& !spec_punct_boundary(s, i - 1)
        &&& !spec_nl_added(s, i - 2)
        &&& !spec_nl_added(s, i - 3)
    }
}

pub open spec fn spec_is_boundary(s: Seq<char>, j: int) -> bool {
    spec_punct_boundary(s, j) || spec_nl_added(s, j - 2)
}

pub open spec fn spec_boundaries_upto(s: Seq<char>, j: int) -> Seq<int>
    decreases j,
{
    if j <= 0 {
        Seq::empty()
    } else {
        spec_boundaries_upto(s, j - 1) + if spec_is_boundary(s, j - 1) {
            seq![j - 1]
        } else {
            Seq::empty()
        }
    }
}

/// The boundary positions of a line, in ascending order.
pub open spec fn spec_boundaries(s: Seq<char>) -> Seq<int> {
    spec_boundaries_upto(s, s.len() as int + 1)
}

/// How many segments a line can at most be split into.
pub open spec fn spec_split_count(s: Seq<char>) -> int {
    spec_boundaries(s).len() as int + 1
}

pub proof fn lemma_boundaries_upto_range(s: Seq<char>, j: int)
    ensures
        forall|x: int|
            0 <= x < spec_boundaries_upto(s, j).len() ==> 2 <= #[trigger] spec_boundaries_upto(
                s,
                j,
            )[x] < j,
        forall|x: int, y: int|
            0 <= x < y < spec_boundaries_upto(s, j).len() ==> spec_boundaries_upto(s, j)[x]
                < spec_boundaries_upto(s, j)[y],
        forall|x: int|
            0 <= x < spec_boundaries_upto(s, j).len() ==> #[trigger] spec_boundaries_upto(
                s,
                j,
            )[x] >= x + 2,
        spec_boundaries_upto(s, j).len() <= (if j <= 2 {
            0int
        } else {
            j - 2
        }),
    decreases j,
{
    if j <= 0 {
    } else {
        lemma_boundaries_upto_range(s, j - 1);
        if spec_is_boundary(s, j - 1) {
            if spec_punct_boundary(s, j - 1) {
                let k = choose|k: int| 0 <= k < j - 1 && !is_split_punct(s[k]);
                assert(j - 1 >= 2);
            } else {
                assert(spec_nl_added(s, j - 3));
                assert(j - 3 >= 1);
            }
        }
    }
}

/// Boundary positions lie in `[2, s.len()]` and are strictly ascending, so a
/// line of `n` characters has at most `n - 1` of them.
pub proof fn lemma_boundaries_range(s: Seq<char>)
    ensures
        forall|x: int|
            0 <= x < spec_boundaries(s).len() ==> 2 <= #[trigger] spec_boundaries(s)[x]
                <= s.len(),
        forall|x: int, y: int|
            0 <= x < y < spec_boundaries(s).len() ==> spec_boundaries(s)[x] < spec_boundaries(
                s,
            )[y],
        s.len() >= 1 ==> spec_boundaries(s).len() <= s.len() - 1,
        s.len() == 0 ==> spec_boundaries(s).len() == 0,
{
    lemma_boundaries_upto_range(s, s.len() as int + 1);
}

fn is_split_punct_exec(c: char) -> (r: bool)
    ensures
        r == is_split_punct(c),
{
    c == '?' || c == '!' || c == ',' || c == '.' || c == ':' || c == ';'
}

/// The boundary positions of a line: ends of interior punctuation runs plus
/// the positions just after free-standing line-break markers.
pub fn split_indices(text: &str) -> (r: Vec<usize>)
    ensures
        r@.map_values(|u: usize| u as int) == spec_boundaries(text@),
        forall|x: int| 0 <= x < r@.len() ==> #[trigger] r@[x] <= text@.len(),
        r@.len() < usize::MAX,
{
    let v = str_to_chars(text);
    let n = v.len();

    // pb[j] <==> a punctuation run ends at j (for j in 0..=n)
    let mut pb: Vec<bool> = Vec::new();
    let mut seen_nonpunct = false;
    let mut j: usize = 0;
    while j < n
        invariant
            j <= n,
            n == v@.len(),
            pb@.len() == j,
            seen_nonpunct == exists|k: int| 0 <= k < j && !is_split_punct(v@[k]),
            forall|x: int| 0 <= x < j ==> pb@[x] == spec_punct_boundary(v@, x),
        decreases n - j,
    {
        let here = j > 0 && is_split_punct_exec(v[j - 1]) && !is_split_punct_exec(v[j])
            && seen_nonpunct;
        proof {
            // when the run reaches j, any non-punctuation witness is below j
            assert(here == spec_punct_boundary(v@, j as int));
        }
        pb.push(here);
        if !is_split_punct_exec(v[j]) {
            seen_nonpunct = true;
        }
        proof {
            if !is_split_punct(v@[j as int]) {
                assert(exists|k: int| 0 <= k < j + 1 && !is_split_punct(v@[k]));
            }
        }
        j = j + 1;
    }
    proof {
        assert(!spec_punct_boundary(v@, n as int));
    }
    pb.push(false);

    // ad[i] <==> the marker at i contributes boundary i + 2 (for i in 0..n)
    let mut ad: Vec<bool> = Vec::new();
    let mut i: usize = 0;
    while i < n
        invariant
            i <= n,
            n == v@.len(),
            pb@.len() == n + 1,
            forall|x: int| 0 <= x <= n ==> pb@[x] == spec_punct_boundary(v@, x),
            ad@.len() == i,
            forall|x: int| 0 <= x < i ==> ad@[x] == spec_nl_added(v@, x),
        decreases n - i,
    {
        let marker = i + 1 < n && v[i] == '\\' && v[i + 1] == 'N';
        let here = i > 0 && marker && !pb[i] && !pb[i - 1] && !(i >= 2 && ad[i - 2]) && !(i >= 3
            && ad[i - 3]);
        proof {
            assert(marker == spec_nl_marker(v@, i as int));
            if i < 2 {
                assert(!spec_nl_added(v@, i as int - 2));
            }
            if i < 3 {
                assert(!spec_nl_added(v@, i as int - 3));
            }
            assert(here == spec_nl_added(v@, i as int));
        }
        ad.push(here);
        i = i + 1;
    }

    // collect the boundaries in ascending order
    let mut r: Vec<usize> = Vec::new();
    let mut j: usize = 0;
    while j < n
        invariant
            j <= n,
            n == v@.len(),
            pb@.len() == n + 1,
            forall|x: int| 0 <= x <= n ==> pb@[x] == spec_punct_boundary(v@, x),
            ad@.len() == n,
            forall|x: int| 0 <= x < n ==> ad@[x] == spec_nl_added(v@, x),
            r@.map_values(|u: usize| u as int) == spec_boundaries_upto(v@, j as int),
            forall|x: int| 0 <= x < r@.len() ==> #[trigger] r@[x] <= n,
            r@.len() <= j,
        decreases n - j,
    {
        let is_b = pb[j] || (j >= 2 && ad[j - 2]);
        proof {
            if j < 2 {
                assert(!spec_nl_added(v@, j - 2));
            }
            assert(is_b == spec_is_boundary(v@, j as int));
        }
        if is_b {
            r.push(j);
            proof {
                assert(r@.map_values(|u: usize| u as int) =~= spec_boundaries_upto(v@, j + 1));
            }
        } else {
            proof {
                assert(spec_boundaries_upto(v@, j + 1) =~= spec_boundaries_upto(v@, j as int));
            }
        }
        j = j + 1;
    }
    // the position just past the end can still be a line-break boundary
    let is_b_end = n >= 2 && ad[n - 2];
    proof {
        assert(!spec_punct_boundary(v@, n as int));
        if n < 2 {
            assert(!spec_nl_added(v@, n as int - 2));
        }
        assert(is_b_end == spec_is_boundary(v@, n as int));
    }
    if is_b_end {
        r.push(n);
        proof {
            assert(r@.map_values(|u: usize| u as int) =~= spec_boundaries_upto(
                v@,
                n as int + 1,
            ));
        }
    } else {
        proof {
            assert(spec_boundaries_upto(v@, n as int + 1) =~= spec_boundaries_upto(
                v@,
                n as int,
            ));
        }
    }
    proof {
        lemma_boundaries_range(v@);
        assert(r@.len() == spec_boundaries(v@).len());
    }
    r
}

/// `split_count` is one more than the number of boundaries.
pub fn split_count(event_text: &str) -> (r: usize)
    ensures
        r == spec_split_count(event_text@),
{
    let ids = split_indices(event_text);
    proof {
        assert(ids@.map_values(|u: usize| u as int).len() == ids@.len());
    }
    ids.len() + 1
}

/// The tidy-up applied to each candidate segment: break markers replaced by
/// spaces, ends trimmed, space runs collapsed.
pub open spec fn spec_string_split_prep(s: Seq<char>) -> Seq<char> {
    spec_collapse_spaces(spec_trim(spec_replace_breaks(s)))
}

fn sub_chars(v: &Vec<char>, a: usize, b: usize) -> (r: Vec<char>)
    requires
        a <= b <= v@.len(),
    ensures
        r@ == v@.subrange(a as int, b as int),
{
    let mut r: Vec<char> = Vec::new();
    let mut i: usize = a;
    while i < b
        invariant
            a <= i <= b <= v@.len(),
            r@ == v@.subrange(a as int, i as int),
        decreases b - i,
    {
        r.push(v[i]);
        i = i + 1;
        proof {
            assert(r@ =~= v@.subrange(a as int, i as int));
        }
    }
    r
}

pub(crate) fn string_split_prep_chars(v: &Vec<char>) -> (r: Vec<char>)
    ensures
        r@ == spec_string_split_prep(v@),
{
    let a = replace_breaks_chars(v);
    let b = trim_chars(&a);
    collapse_spaces_chars(&b)
}

/// Tidy up one candidate segment of a line.
pub fn string_split_prep(text: &str) -> (r: String)
    ensures
        r@ == spec_string_split_prep(text@),
{
    let v = str_to_chars(text);
    let out = string_split_prep_chars(&v);
    chars_to_string(&out)
}

/// Whether bit `j` of the subset mask is set.
pub open spec fn spec_mask_bit(mask: u64, j: int) -> bool {
    0 <= j < 64 && (mask >> (j as u64)) & 1u64 == 1u64
}

/// The boundary positions selected by the mask, among the first `j` boundaries.
pub open spec fn spec_selected_upto(bs: Seq<int>, mask: u64, j: int) -> Seq<int>
    decreases j,
{
    if j <= 0 {
        Seq::empty()
    } else {
        spec_selected_upto(bs, mask, j - 1) + if spec_mask_bit(mask, j - 1) {
            seq![bs[j - 1]]
        } else {
            Seq::empty()
        }
    }
}

/// The tidied segments of `s` obtained by cutting at `cuts`, starting at `from`.
pub open spec fn spec_segments(s: Seq<char>, cuts: Seq<int>, from: int) -> Seq<Seq<char>>
    decreases cuts.len(),
{
    if cuts.len() == 0 {
        seq![spec_string_split_prep(s.subrange(from, s.len() as int))]
    } else {
        seq![spec_string_split_prep(s.subrange(from, cuts[0]))] + spec_segments(
            s,
            cuts.drop_first(),
            cuts[0],
        )
    }
}

/// The segmentation of `s` produced by cutting at exactly the boundaries
/// whose bits are set in `mask`.
pub open spec fn spec_segmentation(s: Seq<char>, mask: u64) -> Seq<Seq<char>> {
    let bs = spec_boundaries(s);
    spec_segments(s, spec_selected_upto(bs, mask, bs.len() as int), 0)
}

/// Lexicographic order on character sequences, by code point; a proper
/// prefix comes first.  This is the order `str` comparison uses.
pub open spec fn spec_chars_lt(a: Seq<char>, b: Seq<char>) -> bool
    decreases a.len(),
{
    if b.len() == 0 {
        false
    } else if a.len() == 0 {
        true
    } else if a[0] != b[0] {
        (a[0] as int) < (b[0] as int)
    } else {
        spec_chars_lt(a.drop_first(), b.drop_first())
    }
}

/// Lexicographic order on segment lists.
pub open spec fn spec_seglist_lt(a: Seq<Seq<char>>, b: Seq<Seq<char>>) -> bool
    decreases a.len(),
{
    if b.len() == 0 {
        false
    } else if a.len() == 0 {
        true
    } else if a[0] != b[0] {
        spec_chars_lt(a[0], b[0])
    } else {
        spec_seglist_lt(a.drop_first(), b.drop_first())
    }
}

pub proof fn lemma_chars_lt_properties(a: Seq<char>, b: Seq<char>)
    ensures
        a == b || spec_chars_lt(a, b) || spec_chars_lt(b, a),
        !(spec_chars_lt(a, b) && spec_chars_lt(b, a)),
        spec_chars_lt(a, b) ==> a != b,
    decreases a.len() + b.len(),
{
    if a.len() == 0 && b.len() == 0 {
        assert(a =~= b);
    } else if a.len() == 0 || b.len() == 0 {
    } else if a[0] != b[0] {
    } else {
        lemma_chars_lt_properties(a.drop_first(), b.drop_first());
        if a.drop_first() == b.drop_first() {
            assert forall|i: int| 0 <= i < a.len() implies a[i] == b[i] by {
                if i > 0 {
                    assert(a[i] == a.drop_first()[i - 1]);
                    assert(b[i] == b.drop_first()[i - 1]);
                }
            }
            assert(a =~= b);
        }
        if a == b {
            assert(a.drop_first() =~= b.drop_first());
        }
    }
}

pub proof fn lemma_chars_lt_trans(a: Seq<char>, b: Seq<char>, c: Seq<char>)
    requires
        spec_chars_lt(a, b),
        spec_chars_lt(b, c),
    ensures
        spec_chars_lt(a, c),
    decreases a.len(),
{
    if a.len() == 0 {
    } else {
        if a[0] == b[0] && b[0] == c[0] {
            lemma_chars_lt_trans(a.drop_first(), b.drop_first(), c.drop_first());
        }
    }
}

pub proof fn lemma_seglist_lt_properties(a: Seq<Seq<char>>, b: Seq<Seq<char>>)
    ensures
        a == b || spec_seglist_lt(a, b) || spec_seglist_lt(b, a),
        !(spec_seglist_lt(a, b) && spec_seglist_lt(b, a)),
        spec_seglist_lt(a, b) ==> a != b,
    decreases a.len() + b.len(),
{
    if a.len() == 0 && b.len() == 0 {
        assert(a =~= b);
    } else if a.len() == 0 || b.len() == 0 {
    } else if a[0] != b[0] {
        lemma_chars_lt_properties(a[0], b[0]);
    } else {
        lemma_seglist_lt_properties(a.drop_first(), b.drop_first());
        if a.drop_first() == b.drop_first() {
            assert forall|i: int| 0 <= i < a.len() implies a[i] == b[i] by {
                if i > 0 {
                    assert(a[i] == a.drop_first()[i - 1]);
                    assert(b[i] == b.drop_first()[i - 1]);
                }
            }
            assert(a =~= b);
        }
        if a == b {
            assert(a.drop_first() =~= b.drop_first());
        }
    }
}

pub proof fn lemma_seglist_lt_trans(a: Seq<Seq<char>>, b: Seq<Seq<char>>, c: Seq<Seq<char>>)
    requires
        spec_seglist_lt(a, b),
        spec_seglist_lt(b, c),
    ensures
        spec_seglist_lt(a, c),
    decreases a.len(),
{
    if a.len() == 0 {
    } else if b.len() == 0 || c.len() == 0 {
    } else {
        if a[0] == b[0] && b[0] == c[0] {
            lemma_seglist_lt_trans(a.drop_first(), b.drop_first(), c.drop_first());
        } else if a[0] == b[0] {
            // b[0] != c[0]: a[0] == b[0] < c[0]
        } else if b[0] == c[0] {
        } else {
            lemma_chars_lt_trans(a[0], b[0], c[0]);
            lemma_chars_lt_properties(a[0], c[0]);
        }
    }
}

proof fn lemma_chars_lt_common_prefix(a: Seq<char>, b: Seq<char>, i: int)
    requires
        0 <= i <= a.len(),
        i <= b.len(),
        a.take(i) == b.take(i),
    ensures
        i < a.len() && i < b.len() && a[i] != b[i] ==> spec_chars_lt(a, b) == ((a[i] as int) < (
        b[i] as int)),
        i == a.len() && i < b.len() ==> spec_chars_lt(a, b),
        i == a.len() && i == b.len() ==> a == b,
    decreases i,
{
    if i == 0 {
        if i == a.len() && i == b.len() {
            assert(a =~= b);
        }
    } else {
        assert(a[0] == a.take(i)[0]);
        assert(b[0] == b.take(i)[0]);
        assert(a.drop_first().take(i - 1) =~= a.take(i).drop_first());
        assert(b.drop_first().take(i - 1) =~= b.take(i).drop_first());
        lemma_chars_lt_common_prefix(a.drop_first(), b.drop_first(), i - 1);
        if i < a.len() && i < b.len() {
            assert(a.drop_first()[i - 1] == a[i]);
            assert(b.drop_first()[i - 1] == b[i]);
        }
        if i == a.len() && i == b.len() && a.drop_first() == b.drop_first() {
            assert forall|k: int| 0 <= k < a.len() implies a[k] == b[k] by {
                if k > 0 {
                    assert(a[k] == a.drop_first()[k - 1]);
                    assert(b[k] == b.drop_first()[k - 1]);
                }
            }
            assert(a =~= b);
        }
    }
}

/// Three-way string comparison: 0 equal, 1 first is smaller, 2 second is smaller.
fn str_cmp(a: &str, b: &str) -> (r: u8)
    ensures
        r == 0 ==> a@ == b@,
        r == 1 ==> spec_chars_lt(a@, b@),
        r == 2 ==> spec_chars_lt(b@, a@),
        r == 0 || r == 1 || r == 2,
{
    let al = a.unicode_len();
    let bl = b.unicode_len();
    let m = if al < bl {
        al
    } else {
        bl
    };
    let mut i: usize = 0;
    while i < m
        invariant
            i <= m,
            al == a@.len(),
            bl == b@.len(),
            m == if al < bl {
                al
            } else {
                bl
            },
            a@.take(i as int) == b@.take(i as int),
        decreases m - i,
    {
        let ca = a.get_char(i);
        let cb = b.get_char(i);
        if ca != cb {
            proof {
                lemma_chars_lt_common_prefix(a@, b@, i as int);
                lemma_chars_lt_common_prefix(b@, a@, i as int);
            }
            if (ca as u32) < (cb as u32) {
                return 1;
            } else {
                return 2;
            }
        }
        i = i + 1;
        proof {
            assert(a@.take(i as int) =~= b@.take(i as int));
        }
    }
    proof {
        lemma_chars_lt_common_prefix(a@, b@, m as int);
        lemma_chars_lt_common_prefix(b@, a@, m as int);
    }
    if al == bl {
        0
    } else if al < bl {
        1
    } else {
        2
    }
}

/// Three-way comparison of segment lists.
fn seglist_cmp(a: &Vec<String>, b: &Vec<String>) -> (r: u8)
    ensures
        r == 0 ==> a.deep_view() == b.deep_view(),
        r == 1 ==> spec_seglist_lt(a.deep_view(), b.deep_view()),
        r == 2 ==> spec_seglist_lt(b.deep_view(), a.deep_view()),
        r == 0 || r == 1 || r == 2,
{
    let al = a.len();
    let bl = b.len();
    let m = if al < bl {
        al
    } else {
        bl
    };
    let mut i: usize = 0;
    while i < m
        invariant
            i <= m,
            al == a@.len(),
            bl == b@.len(),
            m == if al < bl {
                al
            } else {
                bl
            },
            a.deep_view().take(i as int) == b.deep_view().take(i as int),
        decreases m - i,
    {
        let c = str_cmp(a[i].as_str(), b[i].as_str());
        proof {
            assert(a.deep_view()[i as int] == a@[i as int]@);
            assert(b.deep_view()[i as int] == b@[i as int]@);
        }
        if c != 0 {
            proof {
                lemma_chars_lt_properties(a@[i as int]@, b@[i as int]@);
                lemma_seglist_lt_common_prefix(a.deep_view(), b.deep_view(), i as int);
                lemma_seglist_lt_common_prefix(b.deep_view(), a.deep_view(), i as int);
            }
            return c;
        }
        i = i + 1;
        proof {
            assert(a.deep_view().take(i as int) =~= b.deep_view().take(i as int));
        }
    }
    proof {
        lemma_seglist_lt_common_prefix(a.deep_view(), b.deep_view(), m as int);
        lemma_seglist_lt_common_prefix(b.deep_view(), a.deep_view(), m as int);
        if al == bl {
            assert(a.deep_view() =~= a.deep_view().take(m as int));
            assert(b.deep_view() =~= b.deep_view().take(m as int));
        }
    }
    if al == bl {
        0
    } else if al < bl {
        1
    } else {
        2
    }
}

proof fn lemma_seglist_lt_common_prefix(a: Seq<Seq<char>>, b: Seq<Seq<char>>, i: int)
    requires
        0 <= i <= a.len(),
        i <= b.len(),
        a.take(i) == b.take(i),
    ensures
        i < a.len() && i < b.len() && a[i] != b[i] ==> spec_seglist_lt(a, b) == spec_chars_lt(
            a[i],
            b[i],
        ),
        i == a.len() && i < b.len() ==> spec_seglist_lt(a, b),
    decreases i,
{
    if i == 0 {
    } else {
        assert(a[0] == a.take(i)[0]);
        assert(b[0] == b.take(i)[0]);
        assert(a.drop_first().take(i - 1) =~= a.take(i).drop_first());
        assert(b.drop_first().take(i - 1) =~= b.take(i).drop_first());
        lemma_seglist_lt_common_prefix(a.drop_first(), b.drop_first(), i - 1);
        if i < a.len() && i < b.len() {
            assert(a.drop_first()[i - 1] == a[i]);
            assert(b.drop_first()[i - 1] == b[i]);
        }
    }
}

/// No later element is smaller than an earlier one.
pub open spec fn seglists_sorted(s: Seq<Seq<Seq<char>>>) -> bool {
    forall|i: int, j: int|
        0 <= i < j < s.len() ==> !spec_seglist_lt(#[trigger] s[j], #[trigger] s[i])
}

/// Every pair of elements is strictly ascending.
pub open spec fn seglists_strictly_sorted(s: Seq<Seq<Seq<char>>>) -> bool {
    forall|i: int, j: int|
        0 <= i < j < s.len() ==> spec_seglist_lt(#[trigger] s[i], #[trigger] s[j])
}

proof fn lemma_contains_insert(s: Seq<Seq<Seq<char>>>, pos: int, e: Seq<Seq<char>>)
    requires
        0 <= pos <= s.len(),
    ensures
        forall|x: Seq<Seq<char>>|
            s.insert(pos, e).contains(x) <==> (s.contains(x) || x == e),
{
    let t = s.insert(pos, e);
    assert forall|x: Seq<Seq<char>>| t.contains(x) implies (s.contains(x) || x == e) by {
        let i = choose|i: int| 0 <= i < t.len() && t[i] == x;
        if i < pos {
            assert(s[i] == x);
        } else if i == pos {
        } else {
            assert(s[i - 1] == x);
        }
    }
    assert forall|x: Seq<Seq<char>>| s.contains(x) || x == e implies t.contains(x) by {
        if x == e {
            assert(t[pos] == x);
        } else {
            let i = choose|i: int| 0 <= i < s.len() && s[i] == x;
            if i < pos {
                assert(t[i] == x);
            } else {
                assert(t[i + 1] == x);
            }
        }
    }
}

fn sort_candidates(input: Vec<Vec<String>>) -> (r: Vec<Vec<String>>)
    ensures
        seglists_sorted(r.deep_view()),
        forall|x: Seq<Seq<char>>| r.deep_view().contains(x) <==> input.deep_view().contains(x),
{
    let mut rest = input;
    let mut out: Vec<Vec<String>> = Vec::new();
    proof {
        assert(out.deep_view().len() == 0);
    }
    while rest.len() > 0
        invariant
            seglists_sorted(out.deep_view()),
            forall|x: Seq<Seq<char>>|
                (out.deep_view().contains(x) || rest.deep_view().contains(x))
                    <==> input.deep_view().contains(x),
        decreases rest.len(),
    {
        let ghost old_rest = rest.deep_view();
        let ghost old_out = out.deep_view();
        let e = rest.remove(0);
        proof {
            assert(rest.deep_view() =~= old_rest.drop_first());
            assert(old_rest[0] == e.deep_view());
            assert forall|x: Seq<Seq<char>>|
                old_rest.contains(x) implies (x == e.deep_view()
                || rest.deep_view().contains(x)) by {
                let i = choose|i: int| 0 <= i < old_rest.len() && old_rest[i] == x;
                if i > 0 {
                    assert(rest.deep_view()[i - 1] == x);
                }
            }
            assert forall|x: Seq<Seq<char>>|
                rest.deep_view().contains(x) implies old_rest.contains(x) by {
                let i = choose|i: int| 0 <= i < rest.deep_view().len() && rest.deep_view()[i]
                    == x;
                assert(old_rest[i + 1] == x);
            }
        }
        // find the insertion point
        let mut pos: usize = 0;
        loop
            invariant
                pos <= out.len(),
                out.deep_view() == old_out,
                seglists_sorted(out.deep_view()),
                forall|k: int|
                    0 <= k < pos ==> !spec_seglist_lt(
                        e.deep_view(),
                        #[trigger] out.deep_view()[k],
                    ),
            ensures
                pos <= out.len(),
                out.deep_view() == old_out,
                forall|k: int|
                    0 <= k < pos ==> !spec_seglist_lt(
                        e.deep_view(),
                        #[trigger] out.deep_view()[k],
                    ),
                pos == out.len() || spec_seglist_lt(e.deep_view(), out.deep_view()[pos as int]),
            decreases out.len() - pos,
        {
            if pos == out.len() {
                break ;
            }
            let c = seglist_cmp(&e, &out[pos]);
            proof {
                assert(out.deep_view()[pos as int] == out@[pos as int].deep_view());
                lemma_seglist_lt_properties(e.deep_view(), out.deep_view()[pos as int]);
            }
            if c == 1 {
                break ;
            }
            pos = pos + 1;
        }
        let ghost ed = e.deep_view();
        out.insert(pos, e);
        proof {
            assert(out.deep_view() =~= old_out.insert(pos as int, ed));
            lemma_contains_insert(old_out, pos as int, ed);
            assert forall|x: Seq<Seq<char>>|
                (out.deep_view().contains(x) || rest.deep_view().contains(x))
                    <==> input.deep_view().contains(x) by {
                if out.deep_view().contains(x) {
                    if old_out.contains(x) {
                        assert(input.deep_view().contains(x));
                    } else {
                        assert(x == ed);
                        assert(old_rest[0] == x);
                        assert(old_rest.contains(x));
                        assert(input.deep_view().contains(x));
                    }
                } else if rest.deep_view().contains(x) {
                    assert(old_rest.contains(x));
                    assert(input.deep_view().contains(x));
                }
                if input.deep_view().contains(x) {
                    if old_out.contains(x) {
                        assert(out.deep_view().contains(x));
                    } else {
                        assert(old_rest.contains(x));
                        if x == ed {
                            assert(out.deep_view().contains(x));
                        } else {
                            assert(rest.deep_view().contains(x));
                        }
                    }
                }
            }
            // the new element respects the order on both sides
            assert forall|i: int, j: int|
                0 <= i < j < out.deep_view().len() implies !spec_seglist_lt(
                #[trigger] out.deep_view()[j],
                #[trigger] out.deep_view()[i],
            ) by {
                let nv = out.deep_view();
                if j < pos {
                } else if i < pos && j == pos {
                    // nv[j] == ed, !lt(ed, old_out[i])
                    assert(nv[i] == old_out[i]);
                } else if i < pos && j > pos {
                    assert(nv[i] == old_out[i]);
                    assert(nv[j] == old_out[j - 1]);
                } else if i == pos && j > pos {
                    // lt(ed, old_out[pos]) held, and old_out is sorted
                    assert(nv[j] == old_out[j - 1]);
                    if spec_seglist_lt(old_out[j - 1], ed) {
                        assert(spec_seglist_lt(ed, old_out[pos as int]));
                        lemma_seglist_lt_trans(old_out[j - 1], ed, old_out[pos as int]);
                        if j - 1 == pos {
                            lemma_seglist_lt_properties(old_out[pos as int], old_out[pos as int]);
                        } else {
                            assert(!spec_seglist_lt(old_out[j - 1], old_out[pos as int]));
                        }
                    }
                } else {
                    assert(nv[i] == old_out[i - 1]);
                    assert(nv[j] == old_out[j - 1]);
                }
            }
        }
    }
    proof {
        assert(rest.deep_view().len() == 0);
        assert(forall|x: Seq<Seq<char>>| !rest.deep_view().contains(x));
    }
    out
}

fn dedup_candidates(input: Vec<Vec<String>>) -> (r: Vec<Vec<String>>)
    requires
        seglists_sorted(input.deep_view()),
    ensures
        seglists_strictly_sorted(r.deep_view()),
        forall|x: Seq<Seq<char>>| r.deep_view().contains(x) <==> input.deep_view().contains(x),
{
    let ghost iv = input.deep_view();
    let mut rest = input;
    let mut out: Vec<Vec<String>> = Vec::new();
    let ghost done: int = 0;
    while rest.len() > 0
        invariant
            seglists_sorted(iv),
            0 <= done <= iv.len(),
            rest.deep_view() =~= iv.skip(done),
            seglists_strictly_sorted(out.deep_view()),
            forall|x: Seq<Seq<char>>|
                out.deep_view().contains(x) <==> iv.take(done).contains(x),
            out.deep_view().len() > 0 ==> exists|m: int|
                0 <= m < done && iv[m] == out.deep_view().last(),
        decreases rest.len(),
    {
        let ghost old_rest = rest.deep_view();
        let ghost old_out = out.deep_view();
        let e = rest.remove(0);
        proof {
            assert(rest.deep_view() =~= old_rest.drop_first());
            assert(rest.deep_view() =~= iv.skip(done + 1));
            assert(old_rest[0] == e.deep_view());
            assert(old_rest[0] == iv.skip(done)[0]);
            assert(iv.skip(done)[0] == iv[done]);
        }
        let ghost ed = e.deep_view();
        let keep: bool = if out.len() == 0 {
            true
        } else {
            let c = seglist_cmp(&out[out.len() - 1], &e);
            proof {
                assert(out.deep_view()[out.len() - 1] == out@[out.len() - 1].deep_view());
            }
            c != 0
        };
        if keep {
            proof {
                if old_out.len() > 0 {
                    let m = choose|m: int| 0 <= m < done && iv[m] == old_out.last();
                    assert(!spec_seglist_lt(iv[done as int], iv[m]));
                    lemma_seglist_lt_properties(old_out.last(), ed);
                    assert(spec_seglist_lt(old_out.last(), ed));
                }
            }
            out.push(e);
            proof {
                assert(out.deep_view() =~= old_out.push(ed));
                // strict order extends to the new last element
                assert forall|i: int, j: int|
                    0 <= i < j < out.deep_view().len() implies spec_seglist_lt(
                    #[trigger] out.deep_view()[i],
                    #[trigger] out.deep_view()[j],
                ) by {
                    let nv = out.deep_view();
                    if j < nv.len() - 1 {
                        assert(nv[i] == old_out[i] && nv[j] == old_out[j]);
                    } else {
                        assert(nv[j] == ed);
                        if i < old_out.len() - 1 {
                            assert(nv[i] == old_out[i]);
                            lemma_seglist_lt_trans(old_out[i], old_out.last(), ed);
                        }
                    }
                }
                assert forall|x: Seq<Seq<char>>|
                    out.deep_view().contains(x) implies iv.take(done + 1).contains(x) by {
                    let i = choose|i: int|
                        0 <= i < out.deep_view().len() && out.deep_view()[i] == x;
                    if i < old_out.len() {
                        assert(old_out.contains(x));
                        let m = choose|m: int| 0 <= m < done && #[trigger] iv.take(done)[m] == x;
                        assert(iv.take(done + 1)[m] == x);
                    } else {
                        assert(iv.take(done + 1)[done] == x);
                    }
                }
                assert forall|x: Seq<Seq<char>>|
                    iv.take(done + 1).contains(x) implies out.deep_view().contains(x) by {
                    let m = choose|m: int| 0 <= m < done + 1 && #[trigger] iv.take(done + 1)[m] == x;
                    if m < done {
                        assert(iv.take(done)[m] == x);
                        assert(old_out.contains(x));
                        let i = choose|i: int| 0 <= i < old_out.len() && old_out[i] == x;
                        assert(out.deep_view()[i] == x);
                    } else {
                        assert(out.deep_view().last() == x);
                    }
                }
                assert(iv[done] == out.deep_view().last());
            }
        } else {
            proof {
                // the dropped element equals the last kept one
                assert(old_out.last() == ed);
                assert forall|x: Seq<Seq<char>>|
                    iv.take(done + 1).contains(x) implies out.deep_view().contains(x) by {
                    let m = choose|m: int| 0 <= m < done + 1 && #[trigger] iv.take(done + 1)[m] == x;
                    if m < done {
                        assert(iv.take(done)[m] == x);
                    } else {
                        assert(x == ed);
                    }
                }
                assert forall|x: Seq<Seq<char>>|
                    out.deep_view().contains(x) implies iv.take(done + 1).contains(x) by {
                    assert(iv.take(done).contains(x));
                    let m = choose|m: int| 0 <= m < done && #[trigger] iv.take(done)[m] == x;
                    assert(iv.take(done + 1)[m] == x);
                }
            }
        }
        proof {
            done = done + 1;
        }
    }
    proof {
        assert(iv.take(done) =~= iv);
    }
    out
}

pub proof fn lemma_selected_upto_range(s: Seq<char>, mask: u64, j: int)
    requires
        j <= spec_boundaries(s).len(),
    ensures
        forall|x: int|
            0 <= x < spec_selected_upto(spec_boundaries(s), mask, j).len() ==> 2
                <= #[trigger] spec_selected_upto(spec_boundaries(s), mask, j)[x] <= s.len(),
        forall|x: int, y: int|
            0 <= x < y < spec_selected_upto(spec_boundaries(s), mask, j).len()
                ==> spec_selected_upto(spec_boundaries(s), mask, j)[x] < spec_selected_upto(
                spec_boundaries(s),
                mask,
                j,
            )[y],
        j >= 1 ==> forall|x: int|
            0 <= x < spec_selected_upto(spec_boundaries(s), mask, j).len()
                ==> #[trigger] spec_selected_upto(spec_boundaries(s), mask, j)[x]
                <= spec_boundaries(s)[j - 1],
    decreases j,
{
    lemma_boundaries_range(s);
    if j <= 0 {
    } else {
        lemma_selected_upto_range(s, mask, j - 1);
        let bs = spec_boundaries(s);
        let prev = spec_selected_upto(bs, mask, j - 1);
        let cur = spec_selected_upto(bs, mask, j);
        if spec_mask_bit(mask, j - 1) {
            assert(cur =~= prev + seq![bs[j - 1]]);
            assert(2 <= bs[j - 1] <= s.len());
            if j >= 2 {
                assert(bs[j - 2] < bs[j - 1]);
            }
            assert forall|x: int, y: int| 0 <= x < y < cur.len() implies cur[x] < cur[y] by {
                if y < prev.len() {
                    assert(cur[x] == prev[x] && cur[y] == prev[y]);
                } else {
                    assert(cur[y] == bs[j - 1]);
                    assert(cur[x] == prev[x]);
                    assert(prev[x] <= bs[j - 2]);
                }
            }
        } else {
            assert(cur =~= prev);
            if j >= 2 {
                assert(bs[j - 2] < bs[j - 1]);
            }
        }
    }
}

fn split_prep_range(v: &Vec<char>, a: usize, b: usize) -> (r: String)
    requires
        a <= b <= v@.len(),
    ensures
        r@ == spec_string_split_prep(v@.subrange(a as int, b as int)),
{
    let piece = sub_chars(v, a, b);
    let prepped = string_split_prep_chars(&piece);
    chars_to_string(&prepped)
}

fn build_candidate(v: &Vec<char>, bounds: &Vec<usize>, mask: u64) -> (r: Vec<String>)
    requires
        bounds@.map_values(|u: usize| u as int) == spec_boundaries(v@),
        bounds@.len() <= 63,
    ensures
        r.deep_view() == spec_segmentation(v@, mask),
{
    let ghost bs = spec_boundaries(v@);
    let k = bounds.len();
    proof {
        lemma_boundaries_range(v@);
        assert(bs.len() == bounds@.len());
    }
    // pick the cut points selected by the mask
    let mut cuts: Vec<usize> = Vec::new();
    let mut j: usize = 0;
    while j < k
        invariant
            j <= k,
            k == bounds@.len() <= 63,
            bounds@.map_values(|u: usize| u as int) == bs,
            bs == spec_boundaries(v@),
            cuts@.map_values(|u: usize| u as int) == spec_selected_upto(bs, mask, j as int),
        decreases k - j,
    {
        let bit = (mask >> (j as u64)) & 1u64 == 1u64;
        proof {
            assert(bit == spec_mask_bit(mask, j as int));
            assert(bounds@.map_values(|u: usize| u as int)[j as int] == bs[j as int]);
        }
        if bit {
            cuts.push(bounds[j]);
            proof {
                assert(cuts@.map_values(|u: usize| u as int) =~= spec_selected_upto(
                    bs,
                    mask,
                    j + 1,
                ));
            }
        } else {
            proof {
                assert(spec_selected_upto(bs, mask, j + 1) =~= spec_selected_upto(
                    bs,
                    mask,
                    j as int,
                ));
            }
        }
        j = j + 1;
    }
    let ghost cv = cuts@.map_values(|u: usize| u as int);
    proof {
        lemma_selected_upto_range(v@, mask, k as int);
        assert(cv == spec_selected_upto(bs, mask, bs.len() as int));
    }
    // build the segments between consecutive cut points
    let mut segs: Vec<String> = Vec::new();
    let mut prev: usize = 0;
    let mut t: usize = 0;
    proof {
        assert(cv.skip(0) =~= cv);
        assert(segs.deep_view().len() == 0);
        assert(segs.deep_view() + spec_segments(v@, cv, 0) =~= spec_segments(v@, cv, 0));
    }
    while t < cuts.len()
        invariant
            t <= cuts@.len(),
            cv == cuts@.map_values(|u: usize| u as int),
            cv == spec_selected_upto(spec_boundaries(v@), mask, spec_boundaries(
                v@,
            ).len() as int),
            forall|x: int| 0 <= x < cv.len() ==> 2 <= #[trigger] cv[x] <= v@.len(),
            forall|x: int, y: int| 0 <= x < y < cv.len() ==> cv[x] < cv[y],
            prev as int == (if t == 0 {
                0int
            } else {
                cv[t - 1]
            }),
            prev <= v@.len(),
            spec_segments(v@, cv, 0) == segs.deep_view() + spec_segments(
                v@,
                cv.skip(t as int),
                prev as int,
            ),
        decreases cuts@.len() - t,
    {
        let c = cuts[t];
        proof {
            assert(cv[t as int] == c as int);
            if t > 0 {
                assert(cv[t as int - 1] < cv[t as int]);
            }
        }
        let ghost old_segs = segs.deep_view();
        let piece = split_prep_range(v, prev, c);
        segs.push(piece);
        proof {
            let suffix = cv.skip(t as int);
            assert(suffix[0] == cv[t as int]);
            assert(suffix.drop_first() =~= cv.skip(t as int + 1));
            assert(spec_segments(v@, suffix, prev as int) == seq![
                spec_string_split_prep(v@.subrange(prev as int, c as int)),
            ] + spec_segments(v@, cv.skip(t as int + 1), c as int));
            assert(segs.deep_view() =~= old_segs.push(
                spec_string_split_prep(v@.subrange(prev as int, c as int)),
            ));
            assert(segs.deep_view() + spec_segments(v@, cv.skip(t as int + 1), c as int)
                =~= old_segs + spec_segments(v@, suffix, prev as int));
        }
        prev = c;
        t = t + 1;
    }
    // and the final segment
    let ghost old_segs = segs.deep_view();
    let piece = split_prep_range(v, prev, v.len());
    segs.push(piece);
    proof {
        assert(cv.skip(cuts@.len() as int) =~= Seq::<int>::empty());
        assert(spec_segments(v@, cv.skip(cuts@.len() as int), prev as int) == seq![
            spec_string_split_prep(v@.subrange(prev as int, v@.len() as int)),
        ]);
        assert(segs.deep_view() =~= old_segs.push(
            spec_string_split_prep(v@.subrange(prev as int, v@.len() as int)),
        ));
        assert(segs.deep_view() =~= spec_segments(v@, cv, 0));
    }
    segs
}

/// `c` is the segmentation of `s` for some non-empty boundary subset.
pub open spec fn candidate_from_mask(c: Seq<Seq<char>>, s: Seq<char>) -> bool {
    exists|m: u64|
        #![trigger spec_segmentation(s, m)]
        1 <= m < (1u64 << (spec_boundaries(s).len() as u64)) && c == spec_segmentation(s, m)
}

/// Every element of `r` is the segmentation of `s` for some non-empty
/// boundary subset.
pub open spec fn candidates_sound(r: Seq<Seq<Seq<char>>>, s: Seq<char>) -> bool {
    forall|x: int| 0 <= x < r.len() ==> candidate_from_mask(#[trigger] r[x], s)
}

/// Every distinct way of splitting the line at a non-empty subset of its
/// boundaries, each segment tidied up, without duplicates, in ascending
/// lexicographic order.  The number of boundaries is capped at 63 so that
/// the number of subsets fits a machine word.
pub fn split_groups(event_text: &str) -> (r: Vec<Vec<String>>)
    requires
        spec_boundaries(event_text@).len() <= 63,
    ensures
        seglists_strictly_sorted(r.deep_view()),
        forall|m: u64|
            1 <= m < (1u64 << (spec_boundaries(event_text@).len() as u64))
                ==> r.deep_view().contains(spec_segmentation(event_text@, m)),
        candidates_sound(r.deep_view(), event_text@),
{
    let v = str_to_chars(event_text);
    let bounds = split_indices(event_text);
    let k = bounds.len();
    proof {
        assert(bounds@.map_values(|u: usize| u as int).len() == bounds@.len());
        assert(k <= 63);
    }
    let kk: u64 = k as u64;
    let total: u64 = 1u64 << kk;
    proof {
        assert(1u64 << kk >= 1u64) by (bit_vector)
            requires
                kk <= 63u64,
        ;
    }
    let mut cands: Vec<Vec<String>> = Vec::new();
    let mut mask: u64 = 1;
    while mask < total
        invariant
            1 <= mask <= total,
            total == (1u64 << (spec_boundaries(event_text@).len() as u64)),
            v@ == event_text@,
            bounds@.map_values(|u: usize| u as int) == spec_boundaries(event_text@),
            bounds@.len() <= 63,
            forall|m: u64|
                1 <= m < mask ==> cands.deep_view().contains(
                    spec_segmentation(event_text@, m),
                ),
            candidates_sound(cands.deep_view(), event_text@),
        decreases total - mask,
    {
        let ghost old_c = cands.deep_view();
        let cand = build_candidate(&v, &bounds, mask);
        let ghost cd = cand.deep_view();
        cands.push(cand);
        proof {
            assert(cands.deep_view() =~= old_c.push(cd));
            assert(cands.deep_view().last() == spec_segmentation(event_text@, mask));
            assert forall|m: u64|
                1 <= m < mask + 1 implies cands.deep_view().contains(
                spec_segmentation(event_text@, m),
            ) by {
                if m < mask {
                    let i = choose|i: int|
                        0 <= i < old_c.len() && old_c[i] == spec_segmentation(event_text@, m);
                    assert(cands.deep_view()[i] == spec_segmentation(event_text@, m));
                } else {
                    assert(cands.deep_view()[old_c.len() as int] == spec_segmentation(
                        event_text@,
                        m,
                    ));
                }
            }
            assert(candidate_from_mask(cd, event_text@)) by {
                assert(1 <= mask < (1u64 << (spec_boundaries(event_text@).len() as u64))
                    && cd == spec_segmentation(event_text@, mask));
            }
            assert forall|x: int|
                0 <= x < cands.deep_view().len() implies candidate_from_mask(
                #[trigger] cands.deep_view()[x],
                event_text@,
            ) by {
                if x < old_c.len() {
                    assert(cands.deep_view()[x] == old_c[x]);
                } else {
                    assert(cands.deep_view()[x] == cd);
                }
            }
        }
        mask = mask + 1;
    }
    let ghost cands_dv = cands.deep_view();
    proof {
        assert forall|x: int|
            0 <= x < cands_dv.len() implies candidate_from_mask(
            #[trigger] cands_dv[x],
            event_text@,
        ) by {
            assert(cands.deep_view()[x] == cands_dv[x]);
        }
    }
    let sorted = sort_candidates(cands);
    let r = dedup_candidates(sorted);
    proof {
        assert forall|x: int|
            0 <= x < r.deep_view().len() implies candidate_from_mask(
            #[trigger] r.deep_view()[x],
            event_text@,
        ) by {
            assert(r.deep_view().contains(r.deep_view()[x]));
            assert(cands_dv.contains(r.deep_view()[x]));
            let i = choose|i: int|
                0 <= i < cands_dv.len() && #[trigger] cands_dv[i] == r.deep_view()[x];
            assert(candidate_from_mask(cands_dv[i], event_text@));
            assert(cands_dv[i] == r.deep_view()[x]);
        }
    }
    r
}


/// No two adjacent spaces.
pub open spec fn no_double_space(s: Seq<char>) -> bool {
    forall|i: int| 0 <= i < s.len() - 1 ==> !(#[trigger] s[i] == ' ' && s[i + 1] == ' ')
}

/// Neither end is whitespace.
pub open spec fn trimmed_ends(s: Seq<char>) -> bool {
    s.len() == 0 || (!is_space_char(s[0]) && !is_space_char(s.last()))
}

/// Every `{` is left without a closing `}` on its line, so stripping leaves
/// the text unchanged.
pub open spec fn brace_stable(s: Seq<char>) -> bool {
    forall|i: int|
        0 <= i < s.len() && #[trigger] s[i] == '{' ==> spec_find_close(s.skip(i + 1)) is None
}

/// No `\N` line-break marker occurs.
pub open spec fn no_break_marker(s: Seq<char>) -> bool {
    forall|i: int|
        0 <= i < s.len() ==> !(#[trigger] s[i] == '\\' && i + 1 < s.len() && s[i + 1] == 'N')
}

/// No double-quote character occurs.
pub open spec fn no_quote(s: Seq<char>) -> bool {
    forall|i: int| 0 <= i < s.len() ==> s[i] != '"'
}

proof fn lemma_collapse_no_double(s: Seq<char>)
    ensures
        no_double_space(spec_collapse_spaces(s)),
    decreases s.len(),
{
    if s.len() == 0 {
    } else if s[0] == ' ' && s.len() >= 2 && s[1] == ' ' {
        lemma_collapse_no_double(s.drop_first());
    } else {
        lemma_collapse_no_double(s.drop_first());
        let r = spec_collapse_spaces(s);
        let t = spec_collapse_spaces(s.drop_first());
        assert(r == seq![s[0]] + t);
        assert forall|i: int| 0 <= i < r.len() - 1 implies !(#[trigger] r[i] == ' ' && r[i + 1] == ' ') by {
            if i == 0 {
                if s[0] == ' ' {
                    // the next character is not a space, and collapse keeps a
                    // non-space head
                    assert(!(s.len() >= 2 && s[1] == ' '));
                    assert(t.len() > 0);
                    assert(s.drop_first().len() > 0);
                    lemma_collapse_head(s.drop_first());
                    assert(r[1] == t[0]);
                }
            } else {
                assert(r[i] == t[i - 1] && r[i + 1] == t[i]);
            }
        }
    }
}

proof fn lemma_collapse_head(s: Seq<char>)
    requires
        s.len() > 0,
    ensures
        spec_collapse_spaces(s).len() > 0,
        spec_collapse_spaces(s)[0] == ' ' ==> s[0] == ' ',
    decreases s.len(),
{
    if s[0] == ' ' && s.len() >= 2 && s[1] == ' ' {
        lemma_collapse_head(s.drop_first());
    }
}

proof fn lemma_collapse_identity(s: Seq<char>)
    requires
        no_double_space(s),
    ensures
        spec_collapse_spaces(s) == s,
    decreases s.len(),
{
    if s.len() == 0 {
        assert(spec_collapse_spaces(s) =~= s);
    } else {
        assert(!(s[0] == ' ' && s.len() >= 2 && s[1] == ' '));
        assert forall|i: int|
            0 <= i < s.drop_first().len() - 1 implies !(#[trigger] s.drop_first()[i] == ' '
            && s.drop_first()[i + 1] == ' ') by {
            assert(s.drop_first()[i] == s[i + 1]);
            assert(s.drop_first()[i + 1] == s[i + 2]);
        }
        lemma_collapse_identity(s.drop_first());
        assert(spec_collapse_spaces(s) =~= s);
    }
}

proof fn lemma_trim_trimmed(s: Seq<char>)
    ensures
        trimmed_ends(spec_trim(s)),
    decreases s.len(),
{
    if s.len() == 0 {
    } else if is_space_char(s[0]) {
        lemma_trim_trimmed(s.drop_first());
    } else if is_space_char(s.last()) {
        lemma_trim_trimmed(s.drop_last());
    } else {
    }
}

proof fn lemma_trim_identity(s: Seq<char>)
    requires
        trimmed_ends(s),
    ensures
        spec_trim(s) == s,
{
}

proof fn lemma_trim_no_double(s: Seq<char>)
    requires
        no_double_space(s),
    ensures
        no_double_space(spec_trim(s)),
    decreases s.len(),
{
    if s.len() == 0 {
    } else if is_space_char(s[0]) {
        assert forall|i: int|
            0 <= i < s.drop_first().len() - 1 implies !(#[trigger] s.drop_first()[i] == ' '
            && s.drop_first()[i + 1] == ' ') by {
            assert(s.drop_first()[i] == s[i + 1]);
            assert(s.drop_first()[i + 1] == s[i + 2]);
        }
        lemma_trim_no_double(s.drop_first());
    } else if is_space_char(s.last()) {
        assert forall|i: int|
            0 <= i < s.drop_last().len() - 1 implies !(#[trigger] s.drop_last()[i] == ' '
            && s.drop_last()[i + 1] == ' ') by {
            assert(s.drop_last()[i] == s[i]);
            assert(s.drop_last()[i + 1] == s[i + 1]);
        }
        lemma_trim_no_double(s.drop_last());
    } else {
    }
}

proof fn lemma_trim_no_quote(s: Seq<char>)
    requires
        no_quote(s),
    ensures
        no_quote(spec_trim(s)),
    decreases s.len(),
{
    if s.len() == 0 {
    } else if is_space_char(s[0]) {
        assert forall|i: int| 0 <= i < s.drop_first().len() implies s.drop_first()[i]
            != '"' by {
            assert(s.drop_first()[i] == s[i + 1]);
        }
        lemma_trim_no_quote(s.drop_first());
    } else if is_space_char(s.last()) {
        assert forall|i: int| 0 <= i < s.drop_last().len() implies s.drop_last()[i] != '"' by {
            assert(s.drop_last()[i] == s[i]);
        }
        lemma_trim_no_quote(s.drop_last());
    } else {
    }
}

proof fn lemma_trim_no_break(s: Seq<char>)
    requires
        no_break_marker(s),
    ensures
        no_break_marker(spec_trim(s)),
    decreases s.len(),
{
    if s.len() == 0 {
    } else if is_space_char(s[0]) {
        assert forall|i: int|
            0 <= i < s.drop_first().len() implies !(#[trigger] s.drop_first()[i] == '\\' && i + 1
            < s.drop_first().len() && s.drop_first()[i + 1] == 'N') by {
            assert(s.drop_first()[i] == s[i + 1]);
            if i + 1 < s.drop_first().len() {
                assert(s.drop_first()[i + 1] == s[i + 2]);
            }
        }
        lemma_trim_no_break(s.drop_first());
    } else if is_space_char(s.last()) {
        assert forall|i: int|
            0 <= i < s.drop_last().len() implies !(#[trigger] s.drop_last()[i] == '\\' && i + 1
            < s.drop_last().len() && s.drop_last()[i + 1] == 'N') by {
            assert(s.drop_last()[i] == s[i]);
            if i + 1 < s.drop_last().len() {
                assert(s.drop_last()[i + 1] == s[i + 1]);
            }
        }
        lemma_trim_no_break(s.drop_last());
    } else {
    }
}

/// `clean_spaces` is idempotent: tidying an already tidy line changes nothing.
pub proof fn lemma_clean_spaces_idempotent(s: Seq<char>)
    ensures
        spec_clean_spaces(spec_clean_spaces(s)) == spec_clean_spaces(s),
{
    let t = spec_collapse_spaces(s);
    let u = spec_trim(t);
    lemma_collapse_no_double(s);
    lemma_trim_no_double(t);
    lemma_collapse_identity(u);
    lemma_trim_trimmed(t);
    lemma_trim_identity(u);
}


proof fn lemma_stable_drop_first(s: Seq<char>)
    requires
        brace_stable(s),
        s.len() > 0,
    ensures
        brace_stable(s.drop_first()),
{
    let t = s.drop_first();
    assert forall|i: int|
        0 <= i < t.len() && #[trigger] t[i] == '{' implies spec_find_close(t.skip(i + 1))
        is None by {
        assert(s[i + 1] == '{');
        assert(spec_find_close(s.skip(i + 2)) is None);
        assert(t.skip(i + 1) =~= s.skip(i + 2));
    }
}

proof fn lemma_find_close_none_prefix(u: Seq<char>, k: int)
    requires
        spec_find_close(u) is None,
        0 <= k <= u.len(),
    ensures
        spec_find_close(u.take(k)) is None,
    decreases u.len(),
{
    if k == 0 {
        assert(u.take(0) =~= Seq::<char>::empty());
    } else {
        if u[0] == '}' {
        } else if u[0] == '\n' {
            assert(u.take(k)[0] == '\n');
        } else {
            lemma_find_close_none_prefix(u.drop_first(), k - 1);
            assert(u.take(k).drop_first() =~= u.drop_first().take(k - 1));
            assert(u.take(k)[0] == u[0]);
        }
    }
}

proof fn lemma_strip_none(t: Seq<char>)
    requires
        spec_find_close(t) is None,
    ensures
        spec_find_close(spec_strip_styling(t)) is None,
    decreases t.len(),
{
    if t.len() == 0 {
    } else {
        assert(t[0] != '}');
        if t[0] == '\n' {
            assert(spec_strip_styling(t) == seq![t[0]] + spec_strip_styling(t.drop_first()));
            assert(spec_strip_styling(t)[0] == '\n');
        } else {
            assert(spec_find_close(t.drop_first()) is None);
            lemma_strip_none(t.drop_first());
            assert(spec_strip_styling(t) == seq![t[0]] + spec_strip_styling(t.drop_first()));
            let r = spec_strip_styling(t);
            assert(r[0] == t[0]);
            assert(r.drop_first() =~= spec_strip_styling(t.drop_first()));
        }
    }
}

proof fn lemma_strip_stable(s: Seq<char>)
    ensures
        brace_stable(spec_strip_styling(s)),
    decreases s.len(),
{
    if s.len() == 0 {
    } else if s[0] == '{' && spec_find_close(s.drop_first()) is Some {
        let j = spec_find_close(s.drop_first())->Some_0;
        lemma_find_close_bounds(s.drop_first());
        lemma_strip_stable(s.skip(j + 2));
    } else {
        lemma_strip_stable(s.drop_first());
        let tail = spec_strip_styling(s.drop_first());
        let r = spec_strip_styling(s);
        assert(r == seq![s[0]] + tail);
        assert forall|i: int|
            0 <= i < r.len() && #[trigger] r[i] == '{' implies spec_find_close(r.skip(i + 1))
            is None by {
            if i == 0 {
                assert(s[0] == '{');
                assert(s.drop_first() =~= s.skip(1));
                assert(spec_find_close(s.drop_first()) is None);
                lemma_strip_none(s.drop_first());
                assert(r.skip(1) =~= tail);
            } else {
                assert(r[i] == tail[i - 1]);
                assert(spec_find_close(tail.skip(i)) is None);
                assert(r.skip(i + 1) =~= tail.skip(i));
            }
        }
    }
}

proof fn lemma_strip_identity(s: Seq<char>)
    requires
        brace_stable(s),
    ensures
        spec_strip_styling(s) == s,
    decreases s.len(),
{
    if s.len() == 0 {
        assert(spec_strip_styling(s) =~= s);
    } else {
        if s[0] == '{' {
            assert(s.skip(1) =~= s.drop_first());
            assert(spec_find_close(s.drop_first()) is None);
        }
        lemma_stable_drop_first(s);
        lemma_strip_identity(s.drop_first());
        assert(spec_strip_styling(s) =~= s);
    }
}

proof fn lemma_trim_stable(s: Seq<char>)
    requires
        brace_stable(s),
    ensures
        brace_stable(spec_trim(s)),
    decreases s.len(),
{
    if s.len() == 0 {
    } else if is_space_char(s[0]) {
        lemma_stable_drop_first(s);
        lemma_trim_stable(s.drop_first());
    } else if is_space_char(s.last()) {
        let t = s.drop_last();
        assert forall|i: int|
            0 <= i < t.len() && #[trigger] t[i] == '{' implies spec_find_close(t.skip(i + 1))
            is None by {
            assert(s[i] == '{');
            assert(spec_find_close(s.skip(i + 1)) is None);
            assert(t.skip(i + 1) =~= s.skip(i + 1).take(s.len() - i - 2));
            lemma_find_close_none_prefix(s.skip(i + 1), s.len() - i - 2);
        }
        lemma_trim_stable(t);
    } else {
    }
}

/// `remove_styling` is idempotent: once the override tags are stripped and
/// the ends trimmed, doing it again changes nothing.
pub proof fn lemma_remove_styling_idempotent(s: Seq<char>)
    ensures
        spec_remove_styling(spec_remove_styling(s)) == spec_remove_styling(s),
{
    let u = spec_remove_styling(s);
    lemma_strip_stable(s);
    lemma_trim_stable(spec_strip_styling(s));
    lemma_strip_identity(u);
    lemma_trim_trimmed(spec_strip_styling(s));
    lemma_trim_identity(u);
}

proof fn lemma_breaks_none(t: Seq<char>)
    requires
        spec_find_close(t) is None,
    ensures
        spec_find_close(spec_replace_breaks(t)) is None,
    decreases t.len(),
{
    if t.len() == 0 {
    } else if t[0] == '\\' && t.len() >= 2 && t[1] == 'N' {
        assert(spec_find_close(t.drop_first()) is None);
        assert(t.drop_first()[0] == 'N');
        assert(t.drop_first().drop_first() =~= t.skip(2));
        assert(spec_find_close(t.skip(2)) is None);
        lemma_breaks_none(t.skip(2));
        let r = spec_replace_breaks(t);
        assert(r == seq![' '] + spec_replace_breaks(t.skip(2)));
        assert(r[0] == ' ');
        assert(r.drop_first() =~= spec_replace_breaks(t.skip(2)));
    } else {
        assert(t[0] != '}');
        let r = spec_replace_breaks(t);
        assert(r == seq![t[0]] + spec_replace_breaks(t.drop_first()));
        if t[0] == '\n' {
            assert(r[0] == '\n');
        } else {
            assert(spec_find_close(t.drop_first()) is None);
            lemma_breaks_none(t.drop_first());
            assert(r[0] == t[0]);
            assert(r.drop_first() =~= spec_replace_breaks(t.drop_first()));
        }
    }
}

proof fn lemma_breaks_stable(t: Seq<char>)
    requires
        brace_stable(t),
    ensures
        brace_stable(spec_replace_breaks(t)),
    decreases t.len(),
{
    if t.len() == 0 {
    } else if t[0] == '\\' && t.len() >= 2 && t[1] == 'N' {
        lemma_stable_drop_first(t);
        lemma_stable_drop_first(t.drop_first());
        assert(t.drop_first().drop_first() =~= t.skip(2));
        lemma_breaks_stable(t.skip(2));
        let tail = spec_replace_breaks(t.skip(2));
        let r = spec_replace_breaks(t);
        assert(r == seq![' '] + tail);
        assert forall|i: int|
            0 <= i < r.len() && #[trigger] r[i] == '{' implies spec_find_close(r.skip(i + 1))
            is None by {
            assert(i >= 1);
            assert(r[i] == tail[i - 1]);
            assert(spec_find_close(tail.skip(i)) is None);
            assert(r.skip(i + 1) =~= tail.skip(i));
        }
    } else {
        lemma_stable_drop_first(t);
        lemma_breaks_stable(t.drop_first());
        let tail = spec_replace_breaks(t.drop_first());
        let r = spec_replace_breaks(t);
        assert(r == seq![t[0]] + tail);
        assert forall|i: int|
            0 <= i < r.len() && #[trigger] r[i] == '{' implies spec_find_close(r.skip(i + 1))
            is None by {
            if i == 0 {
                assert(t[0] == '{');
                assert(t.skip(1) =~= t.drop_first());
                assert(spec_find_close(t.drop_first()) is None);
                lemma_breaks_none(t.drop_first());
                assert(r.skip(1) =~= tail);
            } else {
                assert(r[i] == tail[i - 1]);
                assert(spec_find_close(tail.skip(i)) is None);
                assert(r.skip(i + 1) =~= tail.skip(i));
            }
        }
    }
}

proof fn lemma_quotes_none(t: Seq<char>)
    requires
        spec_find_close(t) is None,
    ensures
        spec_find_close(spec_remove_quotes(t)) is None,
    decreases t.len(),
{
    if t.len() == 0 {
    } else if t[0] == '"' {
        assert(spec_find_close(t.drop_first()) is None);
        lemma_quotes_none(t.drop_first());
    } else {
        assert(t[0] != '}');
        let r = spec_remove_quotes(t);
        assert(r == seq![t[0]] + spec_remove_quotes(t.drop_first()));
        if t[0] == '\n' {
            assert(r[0] == '\n');
        } else {
            assert(spec_find_close(t.drop_first()) is None);
            lemma_quotes_none(t.drop_first());
            assert(r[0] == t[0]);
            assert(r.drop_first() =~= spec_remove_quotes(t.drop_first()));
        }
    }
}

proof fn lemma_quotes_stable(t: Seq<char>)
    requires
        brace_stable(t),
    ensures
        brace_stable(spec_remove_quotes(t)),
    decreases t.len(),
{
    if t.len() == 0 {
    } else if t[0] == '"' {
        lemma_stable_drop_first(t);
        lemma_quotes_stable(t.drop_first());
    } else {
        lemma_stable_drop_first(t);
        lemma_quotes_stable(t.drop_first());
        let tail = spec_remove_quotes(t.drop_first());
        let r = spec_remove_quotes(t);
        assert(r == seq![t[0]] + tail);
        assert forall|i: int|
            0 <= i < r.len() && #[trigger] r[i] == '{' implies spec_find_close(r.skip(i + 1))
            is None by {
            if i == 0 {
                assert(t[0] == '{');
                assert(t.skip(1) =~= t.drop_first());
                assert(spec_find_close(t.drop_first()) is None);
                lemma_quotes_none(t.drop_first());
                assert(r.skip(1) =~= tail);
            } else {
                assert(r[i] == tail[i - 1]);
                assert(spec_find_close(tail.skip(i)) is None);
                assert(r.skip(i + 1) =~= tail.skip(i));
            }
        }
    }
}

proof fn lemma_collapse_none(t: Seq<char>)
    requires
        spec_find_close(t) is None,
    ensures
        spec_find_close(spec_collapse_spaces(t)) is None,
    decreases t.len(),
{
    if t.len() == 0 {
    } else if t[0] == ' ' && t.len() >= 2 && t[1] == ' ' {
        assert(spec_find_close(t.drop_first()) is None);
        lemma_collapse_none(t.drop_first());
    } else {
        assert(t[0] != '}');
        let r = spec_collapse_spaces(t);
        assert(r == seq![t[0]] + spec_collapse_spaces(t.drop_first()));
        if t[0] == '\n' {
            assert(r[0] == '\n');
        } else {
            assert(spec_find_close(t.drop_first()) is None);
            lemma_collapse_none(t.drop_first());
            assert(r[0] == t[0]);
            assert(r.drop_first() =~= spec_collapse_spaces(t.drop_first()));
        }
    }
}

proof fn lemma_collapse_stable(t: Seq<char>)
    requires
        brace_stable(t),
    ensures
        brace_stable(spec_collapse_spaces(t)),
    decreases t.len(),
{
    if t.len() == 0 {
    } else if t[0] == ' ' && t.len() >= 2 && t[1] == ' ' {
        lemma_stable_drop_first(t);
        lemma_collapse_stable(t.drop_first());
    } else {
        lemma_stable_drop_first(t);
        lemma_collapse_stable(t.drop_first());
        let tail = spec_collapse_spaces(t.drop_first());
        let r = spec_collapse_spaces(t);
        assert(r == seq![t[0]] + tail);
        assert forall|i: int|
            0 <= i < r.len() && #[trigger] r[i] == '{' implies spec_find_close(r.skip(i + 1))
            is None by {
            if i == 0 {
                assert(t[0] == '{');
                assert(t.skip(1) =~= t.drop_first());
                assert(spec_find_close(t.drop_first()) is None);
                lemma_collapse_none(t.drop_first());
                assert(r.skip(1) =~= tail);
            } else {
                assert(r[i] == tail[i - 1]);
                assert(spec_find_close(tail.skip(i)) is None);
                assert(r.skip(i + 1) =~= tail.skip(i));
            }
        }
    }
}

proof fn lemma_breaks_identity(t: Seq<char>)
    requires
        no_break_marker(t),
    ensures
        spec_replace_breaks(t) == t,
    decreases t.len(),
{
    if t.len() == 0 {
        assert(spec_replace_breaks(t) =~= t);
    } else {
        assert(!(t[0] == '\\' && t.len() >= 2 && t[1] == 'N'));
        assert forall|i: int|
            0 <= i < t.drop_first().len() implies !(#[trigger] t.drop_first()[i] == '\\' && i + 1
            < t.drop_first().len() && t.drop_first()[i + 1] == 'N') by {
            assert(t.drop_first()[i] == t[i + 1]);
            if i + 1 < t.drop_first().len() {
                assert(t.drop_first()[i + 1] == t[i + 2]);
            }
        }
        lemma_breaks_identity(t.drop_first());
        assert(spec_replace_breaks(t) =~= t);
    }
}

proof fn lemma_quotes_identity(t: Seq<char>)
    requires
        no_quote(t),
    ensures
        spec_remove_quotes(t) == t,
    decreases t.len(),
{
    if t.len() == 0 {
        assert(spec_remove_quotes(t) =~= t);
    } else {
        assert forall|i: int| 0 <= i < t.drop_first().len() implies t.drop_first()[i]
            != '"' by {
            assert(t.drop_first()[i] == t[i + 1]);
        }
        lemma_quotes_identity(t.drop_first());
        assert(spec_remove_quotes(t) =~= t);
    }
}

proof fn lemma_quotes_no_quote(s: Seq<char>)
    ensures
        no_quote(spec_remove_quotes(s)),
    decreases s.len(),
{
    if s.len() == 0 {
    } else if s[0] == '"' {
        lemma_quotes_no_quote(s.drop_first());
    } else {
        lemma_quotes_no_quote(s.drop_first());
        let r = spec_remove_quotes(s);
        assert(r == seq![s[0]] + spec_remove_quotes(s.drop_first()));
        assert forall|i: int| 0 <= i < r.len() implies r[i] != '"' by {
            if i > 0 {
                assert(r[i] == spec_remove_quotes(s.drop_first())[i - 1]);
            }
        }
    }
}

proof fn lemma_collapse_no_quote(s: Seq<char>)
    requires
        no_quote(s),
    ensures
        no_quote(spec_collapse_spaces(s)),
    decreases s.len(),
{
    if s.len() == 0 {
    } else {
        assert forall|i: int| 0 <= i < s.drop_first().len() implies s.drop_first()[i]
            != '"' by {
            assert(s.drop_first()[i] == s[i + 1]);
        }
        lemma_collapse_no_quote(s.drop_first());
        if s[0] == ' ' && s.len() >= 2 && s[1] == ' ' {
        } else {
            let r = spec_collapse_spaces(s);
            assert(r == seq![s[0]] + spec_collapse_spaces(s.drop_first()));
            assert forall|i: int| 0 <= i < r.len() implies r[i] != '"' by {
                if i > 0 {
                    assert(r[i] == spec_collapse_spaces(s.drop_first())[i - 1]);
                }
            }
        }
    }
}

/// Normalising for semantic comparison is idempotent, except when removing a
/// quote character fuses a backslash with a following `N` into a fresh break
/// marker; the premise rules those inputs out.
pub proof fn lemma_prep_for_value_measuring_idempotent(s: Seq<char>)
    requires
        no_break_marker(spec_prep_for_value_measuring(s)),
    ensures
        spec_prep_for_value_measuring(spec_prep_for_value_measuring(s))
            == spec_prep_for_value_measuring(s),
{
    let a = spec_remove_styling(s);
    let b = spec_replace_breaks(a);
    let c = spec_remove_quotes(b);
    let d = spec_collapse_spaces(c);
    let y = spec_trim(d);
    // y is stable under stripping
    lemma_strip_stable(s);
    lemma_trim_stable(spec_strip_styling(s));
    lemma_breaks_stable(a);
    lemma_quotes_stable(b);
    lemma_collapse_stable(c);
    lemma_trim_stable(d);
    lemma_strip_identity(y);
    // y is already trimmed
    lemma_trim_trimmed(d);
    lemma_trim_identity(y);
    assert(spec_remove_styling(y) == y);
    // y has no break markers (premise) and no quotes
    lemma_breaks_identity(y);
    lemma_quotes_no_quote(b);
    lemma_collapse_no_quote(c);
    lemma_trim_no_quote(d);
    lemma_quotes_identity(y);
    // y has no space runs
    lemma_collapse_no_double(c);
    lemma_trim_no_double(d);
    lemma_collapse_identity(y);
}

proof fn lemma_lex_filter_pure(s: Seq<char>)
    ensures
        forall|i: int|
            0 <= i < spec_lex_filter(s).len() ==> spec_lex_keep(#[trigger] spec_lex_filter(s)[i]),
    decreases s.len(),
{
    if s.len() == 0 {
    } else {
        lemma_lex_filter_pure(s.drop_first());
        let c = spec_ascii_lower(s[0]);
        let r = spec_lex_filter(s);
        let tail = spec_lex_filter(s.drop_first());
        assert forall|i: int| 0 <= i < r.len() implies spec_lex_keep(#[trigger] r[i]) by {
            if spec_lex_keep(c) {
                if i > 0 {
                    assert(r[i] == tail[i - 1]);
                }
            } else {
                assert(r =~= tail);
            }
        }
    }
}

proof fn lemma_lex_filter_identity(t: Seq<char>)
    requires
        forall|i: int| 0 <= i < t.len() ==> spec_lex_keep(#[trigger] t[i]),
    ensures
        spec_lex_filter(t) == t,
    decreases t.len(),
{
    if t.len() == 0 {
        assert(spec_lex_filter(t) =~= t);
    } else {
        assert(spec_lex_keep(t[0]));
        assert(spec_ascii_lower(t[0]) == t[0]);
        assert forall|i: int| 0 <= i < t.drop_first().len() implies spec_lex_keep(
            #[trigger] t.drop_first()[i],
        ) by {
            assert(t.drop_first()[i] == t[i + 1]);
        }
        lemma_lex_filter_identity(t.drop_first());
        assert(spec_lex_filter(t) =~= t);
    }
}

/// Normalising for lexical comparison is idempotent, except when dropping a
/// character leaves a space at an end or two spaces side by side; the
/// premises rule those inputs out.
pub proof fn lemma_prep_for_distance_measuring_idempotent(s: Seq<char>)
    requires
        no_double_space(spec_prep_for_distance_measuring(s)),
        spec_prep_for_distance_measuring(s).len() > 0 ==> (spec_prep_for_distance_measuring(s)[0]
            != ' ' && spec_prep_for_distance_measuring(s).last() != ' '),
    ensures
        spec_prep_for_distance_measuring(spec_prep_for_distance_measuring(s))
            == spec_prep_for_distance_measuring(s),
{
    let z = spec_prep_for_distance_measuring(s);
    lemma_lex_filter_pure(spec_clean_spaces(spec_replace_breaks(spec_remove_styling(s))));
    // z holds only lowercase letters and spaces, so stripping, break
    // replacement and trimming change nothing
    assert forall|i: int|
        0 <= i < z.len() && #[trigger] z[i] == '{' implies spec_find_close(z.skip(i + 1))
        is None by {
        assert(spec_lex_keep(z[i]));
    }
    lemma_strip_identity(z);
    assert(trimmed_ends(z)) by {
        if z.len() > 0 {
            assert(spec_lex_keep(z[0]) && spec_lex_keep(z.last()));
        }
    }
    lemma_trim_identity(z);
    assert(spec_remove_styling(z) == z);
    assert(no_break_marker(z)) by {
        assert forall|i: int|
            0 <= i < z.len() implies !(#[trigger] z[i] == '\\' && i + 1 < z.len() && z[i + 1]
            == 'N') by {
            assert(spec_lex_keep(z[i]));
        }
    }
    lemma_breaks_identity(z);
    lemma_collapse_identity(z);
    lemma_lex_filter_identity(z);
}


/// Every mask's segmentation is present.
pub open spec fn candidates_complete(r: Seq<Seq<Seq<char>>>, s: Seq<char>) -> bool {
    forall|m: u64|
        1 <= m < (1u64 << (spec_boundaries(s).len() as u64)) ==> r.contains(
            #[trigger] spec_segmentation(s, m),
        )
}

/// Two strictly sorted lists with the same members are equal.
proof fn lemma_strictly_sorted_unique(r1: Seq<Seq<Seq<char>>>, r2: Seq<Seq<Seq<char>>>)
    requires
        seglists_strictly_sorted(r1),
        seglists_strictly_sorted(r2),
        forall|x: Seq<Seq<char>>| r1.contains(x) <==> r2.contains(x),
    ensures
        r1 == r2,
    decreases r1.len(),
{
    if r1.len() == 0 {
        if r2.len() > 0 {
            assert(r2.contains(r2[0]));
            assert(false);
        }
        assert(r1 =~= r2);
    } else {
        assert(r1.contains(r1[0]));
        assert(r2.contains(r1[0]));
        assert(r2.len() > 0);
        // both heads are the unique minimum of the shared member set
        let i = choose|i: int| 0 <= i < r2.len() && r2[i] == r1[0];
        assert(r2.contains(r2[0]));
        assert(r1.contains(r2[0]));
        let j = choose|j: int| 0 <= j < r1.len() && r1[j] == r2[0];
        if i > 0 {
            assert(spec_seglist_lt(r2[0], r2[i]));
        }
        if j > 0 {
            assert(spec_seglist_lt(r1[0], r1[j]));
        }
        if i > 0 && j > 0 {
            lemma_seglist_lt_trans(r1[0], r1[j], r1[0]);
            lemma_seglist_lt_properties(r1[0], r1[0]);
            assert(false);
        }
        assert(r1[0] == r2[0]);
        let t1 = r1.drop_first();
        let t2 = r2.drop_first();
        assert forall|x: Seq<Seq<char>>| t1.contains(x) implies t2.contains(x) by {
            let k = choose|k: int| 0 <= k < t1.len() && t1[k] == x;
            assert(r1[k + 1] == x);
            assert(r1.contains(x));
            assert(r2.contains(x));
            let k2 = choose|k2: int| 0 <= k2 < r2.len() && r2[k2] == x;
            if k2 == 0 {
                // x would equal the head, but the head is strictly below r1[k + 1]
                assert(spec_seglist_lt(r1[0], r1[k + 1]));
                lemma_seglist_lt_properties(r1[0], r1[k + 1]);
                assert(false);
            }
            assert(t2[k2 - 1] == x);
        }
        assert forall|x: Seq<Seq<char>>| t2.contains(x) implies t1.contains(x) by {
            let k = choose|k: int| 0 <= k < t2.len() && t2[k] == x;
            assert(r2[k + 1] == x);
            assert(r2.contains(x));
            assert(r1.contains(x));
            let k2 = choose|k2: int| 0 <= k2 < r1.len() && r1[k2] == x;
            if k2 == 0 {
                assert(spec_seglist_lt(r2[0], r2[k + 1]));
                lemma_seglist_lt_properties(r2[0], r2[k + 1]);
                assert(false);
            }
            assert(t1[k2 - 1] == x);
        }
        assert forall|a: int, b: int|
            0 <= a < b < t1.len() implies spec_seglist_lt(#[trigger] t1[a], #[trigger] t1[b]) by {
            assert(t1[a] == r1[a + 1] && t1[b] == r1[b + 1]);
        }
        assert forall|a: int, b: int|
            0 <= a < b < t2.len() implies spec_seglist_lt(#[trigger] t2[a], #[trigger] t2[b]) by {
            assert(t2[a] == r2[a + 1] && t2[b] == r2[b + 1]);
        }
        lemma_strictly_sorted_unique(t1, t2);
        assert forall|x: int| 0 <= x < r1.len() implies r1[x] == r2[x] by {
            if x > 0 {
                assert(r1[x] == t1[x - 1]);
                assert(r2[x] == t2[x - 1]);
            }
        }
        assert(r1 =~= r2);
    }
}

/// The candidate list of a line, as a value: the unique strictly sorted list
/// holding exactly the segmentations of the non-empty boundary subsets.
pub open spec fn spec_split_groups(s: Seq<char>) -> Seq<Seq<Seq<char>>> {
    choose|r: Seq<Seq<Seq<char>>>|
        seglists_strictly_sorted(r) && candidates_complete(r, s) && candidates_sound(r, s)
}

pub proof fn lemma_selected_upto_len(bs: Seq<int>, mask: u64, j: int)
    ensures
        spec_selected_upto(bs, mask, j).len() <= (if j <= 0 {
            0int
        } else {
            j
        }),
    decreases j,
{
    if j > 0 {
        lemma_selected_upto_len(bs, mask, j - 1);
    }
}

pub proof fn lemma_segments_len(s: Seq<char>, cuts: Seq<int>, from: int)
    ensures
        spec_segments(s, cuts, from).len() == cuts.len() + 1,
    decreases cuts.len(),
{
    if cuts.len() > 0 {
        lemma_segments_len(s, cuts.drop_first(), cuts[0]);
    }
}

/// A segmentation has at least one segment, and no more than one per
/// boundary plus one.
pub proof fn lemma_segmentation_len(s: Seq<char>, m: u64)
    ensures
        1 <= spec_segmentation(s, m).len() <= spec_boundaries(s).len() + 1,
{
    let bs = spec_boundaries(s);
    let cuts = spec_selected_upto(bs, m, bs.len() as int);
    lemma_selected_upto_len(bs, m, bs.len() as int);
    lemma_segments_len(s, cuts, 0);
}

/// `split_groups` returns exactly `spec_split_groups` of its input.
pub fn split_groups_exact(event_text: &str) -> (r: Vec<Vec<String>>)
    requires
        spec_boundaries(event_text@).len() <= 63,
    ensures
        r.deep_view() == spec_split_groups(event_text@),
        seglists_strictly_sorted(r.deep_view()),
        candidates_complete(r.deep_view(), event_text@),
        candidates_sound(r.deep_view(), event_text@),
{
    let r = split_groups(event_text);
    proof {
        assert forall|m: u64|
            1 <= m < (1u64 << (spec_boundaries(event_text@).len() as u64)) implies r
            .deep_view().contains(#[trigger] spec_segmentation(event_text@, m)) by {}
        assert(seglists_strictly_sorted(r.deep_view()) && candidates_complete(
            r.deep_view(),
            event_text@,
        ) && candidates_sound(r.deep_view(), event_text@));
        let w = spec_split_groups(event_text@);
        assert(seglists_strictly_sorted(w) && candidates_complete(w, event_text@)
            && candidates_sound(w, event_text@));
        assert forall|x: Seq<Seq<char>>| r.deep_view().contains(x) implies w.contains(x) by {
            let i = choose|i: int| 0 <= i < r.deep_view().len() && r.deep_view()[i] == x;
            assert(candidate_from_mask(r.deep_view()[i], event_text@));
            let m = choose|m: u64|
                1 <= m < (1u64 << (spec_boundaries(event_text@).len() as u64)) && r.deep_view()[i]
                    == #[trigger] spec_segmentation(event_text@, m);
            assert(w.contains(spec_segmentation(event_text@, m)));
        }
        assert forall|x: Seq<Seq<char>>| w.contains(x) implies r.deep_view().contains(x) by {
            let i = choose|i: int| 0 <= i < w.len() && w[i] == x;
            assert(candidate_from_mask(w[i], event_text@));
            let m = choose|m: u64|
                1 <= m < (1u64 << (spec_boundaries(event_text@).len() as u64)) && w[i]
                    == #[trigger] spec_segmentation(event_text@, m);
            assert(r.deep_view().contains(spec_segmentation(event_text@, m)));
        }
        lemma_strictly_sorted_unique(r.deep_view(), w);
    }
    r
}

} // verus!
