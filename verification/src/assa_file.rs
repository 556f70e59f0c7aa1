//! The ASS/SSA subtitle container: its line records, styles, colours and
//! project metadata, parsed from and serialised to plain text.

pub mod assa_colour;
pub mod event;
pub mod project_garbage;
pub mod style;

use vstd::prelude::*;
use crate::chars::{chars_to_string, str_to_chars};
use vstd::string::StringExecFns;

verus! {

/// First occurrence of a character, if any.
pub open spec fn spec_find_char(s: Seq<char>, c: char) -> Option<int>
    decreases s.len(),
{
    if s.len() == 0 {
        None
    } else if s[0] == c {
        Some(0int)
    } else {
        match spec_find_char(s.drop_first(), c) {
            Some(i) => Some(i + 1),
            None => None,
        }
    }
}

pub proof fn lemma_find_char_bounds(s: Seq<char>, c: char)
    requires
        spec_find_char(s, c) is Some,
    ensures
        0 <= spec_find_char(s, c)->Some_0 < s.len(),
        s[spec_find_char(s, c)->Some_0] == c,
    decreases s.len(),
{
    if s.len() == 0 {
    } else if s[0] == c {
    } else {
        lemma_find_char_bounds(s.drop_first(), c);
    }
}

/// Split at every occurrence of `c`; a string without `c` is one field.
pub open spec fn spec_split_by(s: Seq<char>, c: char) -> Seq<Seq<char>>
    decreases s.len(),
    via spec_split_by_decreases
{
    match spec_find_char(s, c) {
        None => seq![s],
        Some(i) => seq![s.take(i)] + spec_split_by(s.skip(i + 1), c),
    }
}

#[via_fn]
proof fn spec_split_by_decreases(s: Seq<char>, c: char) {
    if spec_find_char(s, c) is Some {
        lemma_find_char_bounds(s, c);
    }
}

/// Split at occurrences of `c` into at most `n` fields; the last field keeps
/// the rest of the string.
pub open spec fn spec_splitn_by(s: Seq<char>, c: char, n: int) -> Seq<Seq<char>>
    decreases n,
{
    if n <= 1 {
        seq![s]
    } else {
        match spec_find_char(s, c) {
            None => seq![s],
            Some(i) => seq![s.take(i)] + spec_splitn_by(s.skip(i + 1), c, n - 1),
        }
    }
}

pub open spec fn spec_is_digit(c: char) -> bool {
    '0' <= c && c <= '9'
}

pub open spec fn spec_all_digits(s: Seq<char>) -> bool {
    forall|i: int| 0 <= i < s.len() ==> spec_is_digit(#[trigger] s[i])
}

/// The numeric value of a digit string.
pub open spec fn spec_digits_val(s: Seq<char>) -> int
    decreases s.len(),
{
    if s.len() == 0 {
        0
    } else {
        spec_digits_val(s.drop_last()) * 10 + (s.last() as int) - ('0' as int)
    }
}

/// A plain unsigned integer of at most `max`: digits only, non-empty.
pub open spec fn spec_parse_uint(s: Seq<char>, max: int) -> Option<int> {
    if s.len() > 0 && spec_all_digits(s) && spec_digits_val(s) <= max {
        Some(spec_digits_val(s))
    } else {
        None
    }
}

/// A plain decimal number: an optional minus sign, digits, optionally a
/// point and more digits.
pub open spec fn spec_is_decimal(s: Seq<char>) -> bool {
    let body = if s.len() > 0 && s[0] == '-' {
        s.drop_first()
    } else {
        s
    };
    match spec_find_char(body, '.') {
        None => body.len() > 0 && spec_all_digits(body),
        Some(i) => {
            let whole = body.take(i);
            let frac = body.skip(i + 1);
            whole.len() > 0 && frac.len() > 0 && spec_all_digits(whole) && spec_all_digits(frac)
        },
    }
}

pub(crate) fn find_char(v: &Vec<char>, from: usize, c: char) -> (r: Option<usize>)
    requires
        from <= v@.len(),
    ensures
        match r {
            Some(i) => from <= i < v@.len() && spec_find_char(v@.skip(from as int), c) == Some(
                i - from,
            ),
            None => spec_find_char(v@.skip(from as int), c) is None,
        },
{
    let n = v.len();
    let mut j = from;
    while j < n
        invariant
            from <= j <= n,
            n == v@.len(),
            spec_find_char(v@.skip(from as int), c) == (match spec_find_char(
                v@.skip(j as int),
                c,
            ) {
                Some(k) => Some(k + j - from),
                None => None::<int>,
            }),
        decreases n - j,
    {
        proof {
            assert(v@.skip(j as int)[0] == v@[j as int]);
            assert(v@.skip(j as int).drop_first() =~= v@.skip(j + 1));
        }
        if v[j] == c {
            return Some(j);
        }
        j = j + 1;
    }
    proof {
        assert(v@.skip(n as int).len() == 0);
    }
    None
}

pub(crate) fn sub_chars(v: &Vec<char>, a: usize, b: usize) -> (r: Vec<char>)
    requires
        a <= b <= v@.len(),
    ensures
        r@ == v@.subrange(a as int, b as int),
{
    let mut r: Vec<char> = Vec::new();
    let mut i: usize = a;
    while i < b
        invariant
            a <= i <= b <= v@.len(),
            r@ == v@.subrange(a as int, i as int),
        decreases b - i,
    {
        r.push(v[i]);
        i = i + 1;
        proof {
            assert(r@ =~= v@.subrange(a as int, i as int));
        }
    }
    r
}

/// Split a character vector at every occurrence of `c`.
pub(crate) fn split_by(v: &Vec<char>, c: char) -> (r: Vec<Vec<char>>)
    ensures
        r.deep_view() == spec_split_by(v@, c),
{
    let n = v.len();
    let mut r: Vec<Vec<char>> = Vec::new();
    let mut start: usize = 0;
    proof {
        assert(v@.skip(0) =~= v@);
        assert(r.deep_view() + spec_split_by(v@, c) =~= spec_split_by(v@, c));
    }
    loop
        invariant
            start <= n,
            n == v@.len(),
            spec_split_by(v@, c) == r.deep_view() + spec_split_by(v@.skip(start as int), c),
        decreases n - start,
    {
        let ghost pre = v@.skip(start as int);
        match find_char(v, start, c) {
            None => {
                let ghost oldr = r.deep_view();
                let piece = sub_chars(v, start, n);
                proof {
                    assert(piece@ =~= pre);
                    assert(piece.deep_view() =~= piece@);
                }
                r.push(piece);
                proof {
                    assert(r.deep_view() =~= oldr.push(pre));
                    assert(spec_split_by(pre, c) =~= seq![pre]);
                    assert(oldr + spec_split_by(pre, c) =~= r.deep_view());
                }
                return r;
            },
            Some(i) => {
                let ghost oldr = r.deep_view();
                let piece = sub_chars(v, start, i);
                proof {
                    let k = i - start;
                    assert(piece@ =~= pre.take(k as int));
                    assert(piece.deep_view() =~= piece@);
                }
                r.push(piece);
                proof {
                    let k = i - start;
                    assert(pre.skip(k + 1) =~= v@.skip(i + 1));
                    assert(r.deep_view() =~= oldr.push(pre.take(k as int)));
                    assert(spec_split_by(pre, c) == seq![pre.take(k as int)] + spec_split_by(
                        v@.skip(i + 1),
                        c,
                    ));
                    assert(r.deep_view() + spec_split_by(v@.skip(i + 1), c) =~= oldr
                        + spec_split_by(pre, c));
                }
                start = i + 1;
            },
        }
    }
}

/// Split into at most `n` fields.
pub(crate) fn splitn_by(v: &Vec<char>, c: char, n: usize) -> (r: Vec<Vec<char>>)
    requires
        n >= 1,
    ensures
        r.deep_view() == spec_splitn_by(v@, c, n as int),
        r@.len() >= 1,
{
    let len = v.len();
    let mut r: Vec<Vec<char>> = Vec::new();
    let mut start: usize = 0;
    let mut left: usize = n;
    proof {
        assert(v@.skip(0) =~= v@);
        assert(r.deep_view() + spec_splitn_by(v@, c, n as int) =~= spec_splitn_by(
            v@,
            c,
            n as int,
        ));
    }
    loop
        invariant
            start <= len,
            len == v@.len(),
            1 <= left <= n,
            spec_splitn_by(v@, c, n as int) == r.deep_view() + spec_splitn_by(
                v@.skip(start as int),
                c,
                left as int,
            ),
        decreases left,
    {
        let ghost pre = v@.skip(start as int);
        if left == 1 {
            let ghost oldr = r.deep_view();
            let piece = sub_chars(v, start, len);
            proof {
                assert(piece@ =~= pre);
                assert(piece.deep_view() =~= piece@);
            }
            r.push(piece);
            proof {
                assert(r.deep_view() =~= oldr.push(pre));
                assert(spec_splitn_by(pre, c, 1) =~= seq![pre]);
                assert(oldr + spec_splitn_by(pre, c, 1) =~= r.deep_view());
                assert(r@.len() >= 1);
            }
            return r;
        }
        match find_char(v, start, c) {
            None => {
                let ghost oldr = r.deep_view();
                let piece = sub_chars(v, start, len);
                proof {
                    assert(piece@ =~= pre);
                    assert(piece.deep_view() =~= piece@);
                }
                r.push(piece);
                proof {
                    assert(r.deep_view() =~= oldr.push(pre));
                    assert(spec_splitn_by(pre, c, left as int) =~= seq![pre]);
                    assert(oldr + spec_splitn_by(pre, c, left as int) =~= r.deep_view());
                    assert(r@.len() >= 1);
                }
                return r;
            },
            Some(i) => {
                let ghost oldr = r.deep_view();
                let piece = sub_chars(v, start, i);
                proof {
                    let k = i - start;
                    assert(piece@ =~= pre.take(k as int));
                    assert(piece.deep_view() =~= piece@);
                }
                r.push(piece);
                proof {
                    let k = i - start;
                    assert(pre.skip(k + 1) =~= v@.skip(i + 1));
                    assert(r.deep_view() =~= oldr.push(pre.take(k as int)));
                    assert(spec_splitn_by(pre, c, left as int) == seq![pre.take(k as int)]
                        + spec_splitn_by(v@.skip(i + 1), c, left as int - 1));
                    assert(r.deep_view() + spec_splitn_by(v@.skip(i + 1), c, left as int - 1)
                        =~= oldr + spec_splitn_by(pre, c, left as int));
                }
                start = i + 1;
                left = left - 1;
            },
        }
    }
}

/// Parse a plain unsigned integer no larger than `max`.
pub(crate) fn parse_uint(v: &Vec<char>, max: u64) -> (r: Option<u64>)
    ensures
        match r {
            Some(x) => spec_parse_uint(v@, max as int) == Some(x as int) && x <= max,
            None => spec_parse_uint(v@, max as int) is None,
        },
{
    let n = v.len();
    if n == 0 {
        return None;
    }
    let mut acc: u64 = 0;
    let mut i: usize = 0;
    while i < n
        invariant
            i <= n,
            n == v@.len(),
            spec_all_digits(v@.take(i as int)),
            acc as int == spec_digits_val(v@.take(i as int)),
            acc <= max,
        decreases n - i,
    {
        let c = v[i];
        if !('0' <= c && c <= '9') {
            proof {
                assert(!spec_is_digit(v@[i as int]));
            }
            return None;
        }
        let d = (c as u32) - ('0' as u32);
        if acc > max / 10 || (acc == max / 10 && d as u64 > max % 10) {
            // the value would exceed the field's ceiling
            proof {
                assert(v@.take(n as int) =~= v@);
                lemma_digits_prefix_exceeds(v@, i as int, max as int);
            }
            return None;
        }
        acc = acc * 10 + d as u64;
        proof {
            assert(v@.take(i + 1).drop_last() =~= v@.take(i as int));
            assert(v@.take(i + 1).last() == v@[i as int]);
        }
        i = i + 1;
    }
    proof {
        assert(v@.take(n as int) =~= v@);
    }
    Some(acc)
}

/// A digit string whose prefix value already exceeds the ceiling after the
/// next digit cannot name a value within it.
proof fn lemma_digits_prefix_exceeds(s: Seq<char>, i: int, max: int)
    requires
        0 <= i < s.len(),
        spec_is_digit(s[i]),
        spec_digits_val(s.take(i)) * 10 + (s[i] as int) - ('0' as int) > max,
        spec_all_digits(s.take(i)),
        max >= 0,
    ensures
        spec_all_digits(s) ==> spec_digits_val(s) > max,
{
    if spec_all_digits(s) {
        lemma_digits_val_monotone(s, i + 1);
        assert(s.take(i + 1).drop_last() =~= s.take(i));
        assert(s.take(i + 1).last() == s[i]);
        assert(spec_digits_val(s.take(i + 1)) > max);
    }
}

/// With digits only, a longer prefix never names a smaller value.
proof fn lemma_digits_val_monotone(s: Seq<char>, k: int)
    requires
        0 <= k <= s.len(),
        spec_all_digits(s),
    ensures
        spec_digits_val(s) >= spec_digits_val(s.take(k)),
        spec_digits_val(s) >= 0,
        spec_digits_val(s.take(k)) >= 0,
    decreases s.len() - k,
{
    lemma_digits_val_nonneg(s);
    if k == s.len() {
        assert(s.take(k) =~= s);
    } else {
        lemma_digits_val_monotone(s, k + 1);
        lemma_digits_val_nonneg(s.take(k));
        assert(s.take(k + 1).drop_last() =~= s.take(k));
        assert(spec_is_digit(s.take(k + 1).last()));
        assert(spec_digits_val(s.take(k + 1)) >= spec_digits_val(s.take(k))) by (nonlinear_arith)
            requires
                spec_digits_val(s.take(k + 1)) == spec_digits_val(s.take(k)) * 10 + (s.take(
                    k + 1,
                ).last() as int) - ('0' as int),
                spec_digits_val(s.take(k)) >= 0,
                spec_is_digit(s.take(k + 1).last()),
        ;
    }
}

proof fn lemma_digits_val_nonneg(s: Seq<char>)
    requires
        spec_all_digits(s),
    ensures
        spec_digits_val(s) >= 0,
    decreases s.len(),
{
    if s.len() > 0 {
        assert forall|i: int| 0 <= i < s.drop_last().len() implies spec_is_digit(
            #[trigger] s.drop_last()[i],
        ) by {
            assert(s.drop_last()[i] == s[i]);
        }
        lemma_digits_val_nonneg(s.drop_last());
        assert(spec_is_digit(s.last()));
        assert(spec_digits_val(s.drop_last()) * 10 >= 0) by (nonlinear_arith)
            requires
                spec_digits_val(s.drop_last()) >= 0,
        ;
    }
}

/// Check that a string is a plain decimal number.
pub(crate) fn is_decimal(v: &Vec<char>) -> (r: bool)
    ensures
        r == spec_is_decimal(v@),
{
    let n = v.len();
    let start: usize = if n > 0 && v[0] == '-' {
        1
    } else {
        0
    };
    let ghost body = if v@.len() > 0 && v@[0] == '-' {
        v@.drop_first()
    } else {
        v@
    };
    proof {
        assert(body =~= v@.skip(start as int));
    }
    match find_char(v, start, '.') {
        None => {
            let mut ok = n > start;
            let mut i = start;
            while i < n
                invariant
                    start <= i <= n,
                    n == v@.len(),
                    ok == (n > start && spec_all_digits(v@.subrange(start as int, i as int))),
                decreases n - i,
            {
                if !('0' <= v[i] && v[i] <= '9') {
                    ok = false;
                }
                proof {
                    assert(v@.subrange(start as int, i + 1).drop_last() =~= v@.subrange(
                        start as int,
                        i as int,
                    ));
                    assert(v@.subrange(start as int, i + 1).last() == v@[i as int]);
                    if spec_all_digits(v@.subrange(start as int, i + 1)) {
                        assert forall|k: int|
                            0 <= k < i - start implies spec_is_digit(
                            #[trigger] v@.subrange(start as int, i as int)[k],
                        ) by {
                            assert(v@.subrange(start as int, i as int)[k] == v@.subrange(
                                start as int,
                                i + 1,
                            )[k]);
                        }
                        assert(spec_is_digit(v@.subrange(start as int, i + 1)[i - start]));
                    } else {
                        if spec_all_digits(v@.subrange(start as int, i as int)) && spec_is_digit(
                            v@[i as int],
                        ) {
                            assert forall|k: int|
                                0 <= k < i + 1 - start implies spec_is_digit(
                                #[trigger] v@.subrange(start as int, i + 1)[k],
                            ) by {
                                if k < i - start {
                                    assert(v@.subrange(start as int, i + 1)[k] == v@.subrange(
                                        start as int,
                                        i as int,
                                    )[k]);
                                } else {
                                    assert(v@.subrange(start as int, i + 1)[k] == v@[i as int]);
                                }
                            }
                            assert(false);
                        }
                    }
                }
                i = i + 1;
            }
            proof {
                assert(v@.subrange(start as int, n as int) =~= body);
            }
            ok
        },
        Some(dot) => {
            let mut ok = dot > start && n > dot + 1;
            let mut i = start;
            while i < dot
                invariant
                    start <= i <= dot <= n,
                    n == v@.len(),
                    dot > start && n > dot + 1 ==> ok == spec_all_digits(
                        v@.subrange(start as int, i as int),
                    ),
                    !(dot > start && n > dot + 1) ==> !ok,
                decreases dot - i,
            {
                if !('0' <= v[i] && v[i] <= '9') {
                    ok = false;
                }
                proof {
                    lemma_all_digits_extend(v@, start as int, i as int);
                }
                i = i + 1;
            }
            let mut j = dot + 1;
            while j < n
                invariant
                    dot + 1 <= j <= n,
                    n == v@.len(),
                    dot > start && n > dot + 1 ==> ok == (spec_all_digits(
                        v@.subrange(start as int, dot as int),
                    ) && spec_all_digits(v@.subrange(dot + 1, j as int))),
                    !(dot > start && n > dot + 1) ==> !ok,
                decreases n - j,
            {
                if !('0' <= v[j] && v[j] <= '9') {
                    ok = false;
                }
                proof {
                    lemma_all_digits_extend(v@, dot + 1, j as int);
                }
                j = j + 1;
            }
            proof {
                let k = dot - start;
                assert(spec_find_char(body, '.') == Some(k as int));
                assert(body.take(k as int) =~= v@.subrange(start as int, dot as int));
                assert(body.skip(k + 1) =~= v@.subrange(dot + 1, n as int));
            }
            ok
        },
    }
}

/// Extending an all-digit range by one character keeps it all digits
/// exactly when that character is a digit.
proof fn lemma_all_digits_extend(s: Seq<char>, a: int, i: int)
    requires
        0 <= a <= i < s.len(),
    ensures
        spec_all_digits(s.subrange(a, i + 1)) == (spec_all_digits(s.subrange(a, i))
            && spec_is_digit(s[i])),
{
    if spec_all_digits(s.subrange(a, i + 1)) {
        assert forall|k: int| 0 <= k < i - a implies spec_is_digit(
            #[trigger] s.subrange(a, i)[k],
        ) by {
            assert(s.subrange(a, i)[k] == s.subrange(a, i + 1)[k]);
        }
        assert(spec_is_digit(s.subrange(a, i + 1)[i - a]));
    } else {
        if spec_all_digits(s.subrange(a, i)) && spec_is_digit(s[i]) {
            assert forall|k: int| 0 <= k < i + 1 - a implies spec_is_digit(
                #[trigger] s.subrange(a, i + 1)[k],
            ) by {
                if k < i - a {
                    assert(s.subrange(a, i + 1)[k] == s.subrange(a, i)[k]);
                } else {
                    assert(s.subrange(a, i + 1)[k] == s[i]);
                }
            }
            assert(false);
        }
    }
}


/// The character for a decimal digit.
pub(crate) fn dec_digit(v: u8) -> (r: char)
    requires
        v < 10,
    ensures
        r == crate::assa_file::assa_colour::spec_hex_digit(v as int),
{
    if v == 0 {
        '0'
    } else if v == 1 {
        '1'
    } else if v == 2 {
        '2'
    } else if v == 3 {
        '3'
    } else if v == 4 {
        '4'
    } else if v == 5 {
        '5'
    } else if v == 6 {
        '6'
    } else if v == 7 {
        '7'
    } else if v == 8 {
        '8'
    } else {
        '9'
    }
}


/// Earliest blank-line terminator at or after `i`: an empty line (`\n\n`),
/// or a carriage-return pair (`\r\n\r\n`); the match and its length.
pub open spec fn spec_find_term(s: Seq<char>, i: int) -> Option<(int, int)>
    decreases s.len() - i,
{
    if i < 0 || i >= s.len() {
        None
    } else if i + 2 <= s.len() && s[i] == '\n' && s[i + 1] == '\n' {
        Some((i, 2int))
    } else if i + 4 <= s.len() && s[i] == '\r' && s[i + 1] == '\n' && s[i + 2] == '\r' && s[i + 3]
        == '\n' {
        Some((i, 4int))
    } else {
        spec_find_term(s, i + 1)
    }
}

pub proof fn lemma_find_term_bounds(s: Seq<char>, i: int)
    requires
        spec_find_term(s, i) is Some,
    ensures
        i <= spec_find_term(s, i)->Some_0.0 < s.len(),
        2 <= spec_find_term(s, i)->Some_0.1 <= 4,
        spec_find_term(s, i)->Some_0.0 + spec_find_term(s, i)->Some_0.1 <= s.len(),
    decreases s.len() - i,
{
    if i < 0 || i >= s.len() {
    } else if i + 2 <= s.len() && s[i] == '\n' && s[i + 1] == '\n' {
    } else if i + 4 <= s.len() && s[i] == '\r' && s[i + 1] == '\n' && s[i + 2] == '\r' && s[i + 3]
        == '\n' {
    } else {
        lemma_find_term_bounds(s, i + 1);
    }
}

/// The sections of a file: scan for `[`, take the name up to the nearest
/// `]`, and let the section run to the next blank line or the end of the
/// file; each section's text is trimmed.
pub open spec fn spec_blocks(s: Seq<char>, i: int) -> Seq<(Seq<char>, Seq<char>)>
    decreases s.len() - i,
    via spec_blocks_decreases
{
    if i < 0 || i > s.len() {
        Seq::empty()
    } else {
        match spec_find_char(s.skip(i), '[') {
            None => Seq::empty(),
            Some(dlb) => {
                let lb = i + dlb;
                match spec_find_char(s.skip(lb + 1), ']') {
                    None => Seq::empty(),
                    Some(dnm) => {
                        let rb = lb + 1 + dnm;
                        let name = s.subrange(lb + 1, rb);
                        match spec_find_term(s, rb + 1) {
                            None => seq![
                                (name, crate::alignment::text_processor::spec_trim(
                                    s.subrange(i + dlb, s.len() as int),
                                )),
                            ],
                            Some((t, tl)) => seq![
                                (name, crate::alignment::text_processor::spec_trim(
                                    s.subrange(i + dlb, t),
                                )),
                            ] + spec_blocks(s, t + tl),
                        }
                    },
                }
            },
        }
    }
}

#[via_fn]
proof fn spec_blocks_decreases(s: Seq<char>, i: int) {
    if 0 <= i <= s.len() {
        if spec_find_char(s.skip(i), '[') is Some {
            lemma_find_char_bounds(s.skip(i), '[');
            let lb = i + spec_find_char(s.skip(i), '[')->Some_0;
            if spec_find_char(s.skip(lb + 1), ']') is Some {
                lemma_find_char_bounds(s.skip(lb + 1), ']');
                let rb = lb + 1 + spec_find_char(s.skip(lb + 1), ']')->Some_0;
                if spec_find_term(s, rb + 1) is Some {
                    lemma_find_term_bounds(s, rb + 1);
                }
            }
        }
    }
}

/// The text of the last section with the given name among the first `upto`.
pub open spec fn spec_pick_section(
    blocks: Seq<(Seq<char>, Seq<char>)>,
    name: Seq<char>,
    upto: int,
) -> Option<Seq<char>>
    decreases upto,
{
    if upto <= 0 {
        None
    } else if blocks[upto - 1].0 == name {
        Some(blocks[upto - 1].1)
    } else {
        spec_pick_section(blocks, name, upto - 1)
    }
}

/// A section's lines: the trimmed text split at newlines, carriage returns
/// dropped.
pub open spec fn spec_section_lines(b: Seq<char>) -> Seq<Seq<char>> {
    spec_split_by(crate::alignment::text_processor::spec_trim(b), '\n').map_values(
        |l: Seq<char>| crate::assa_file::project_garbage::spec_strip_cr(l),
    )
}

/// Every line after the two header lines parses as a style.
pub open spec fn spec_styles_section_ok(b: Seq<char>) -> bool {
    let ls = spec_section_lines(b);
    forall|k: int|
        2 <= k < ls.len() ==> {
            &&& crate::assa_file::style::spec_style_shape_ok(#[trigger] ls[k])
            &&& crate::assa_file::style::spec_style_fontsize_ok(ls[k])
            &&& crate::assa_file::style::spec_style_colours_ok(ls[k])
            &&& crate::assa_file::style::spec_style_numbers_ok(ls[k])
        }
}

/// The parsed styles are the section's lines after the header, in order.
pub open spec fn spec_styles_section_matches(sts: Seq<crate::assa_file::style::Style>, b: Seq<char>) -> bool {
    let ls = spec_section_lines(b);
    &&& sts.len() == (if ls.len() >= 2 {
        ls.len() - 2
    } else {
        0
    })
    &&& forall|k: int|
        0 <= k < sts.len() ==> crate::assa_file::style::spec_style_matches(
            #[trigger] sts[k],
            ls[k + 2],
        )
}

/// Every line after the two header lines parses as an event.
pub open spec fn spec_events_section_ok(b: Seq<char>) -> bool {
    let ls = spec_section_lines(b);
    forall|k: int|
        2 <= k < ls.len() ==> crate::assa_file::event::spec_event_shape_ok(#[trigger] ls[k])
            && crate::assa_file::event::spec_event_values_ok(ls[k])
}

/// The parsed events are the section's lines after the header, in order.
pub open spec fn spec_events_section_matches(evs: Seq<crate::assa_file::event::Event>, b: Seq<char>) -> bool {
    let ls = spec_section_lines(b);
    &&& evs.len() == (if ls.len() >= 2 {
        ls.len() - 2
    } else {
        0
    })
    &&& forall|k: int|
        0 <= k < evs.len() ==> crate::assa_file::event::spec_event_matches(
            #[trigger] evs[k],
            ls[k + 2],
        )
}

/// A section parses, whatever its kind: the three structured kinds must be
/// readable, any other kind is kept as raw text and cannot fail.
pub open spec fn spec_block_ok(name: Seq<char>, text: Seq<char>) -> bool {
    if name == "V4+ Styles"@ {
        spec_styles_section_ok(text)
    } else if name == "Events"@ {
        spec_events_section_ok(text)
    } else if name == "Aegisub Project Garbage"@ {
        crate::assa_file::project_garbage::spec_garbage_ok(text)
    } else {
        true
    }
}

/// Every section of the file parses.
pub open spec fn spec_file_ok(blocks: Seq<(Seq<char>, Seq<char>)>) -> bool {
    forall|i: int| 0 <= i < blocks.len() ==> #[trigger] spec_block_ok(blocks[i].0, blocks[i].1)
}

/// Some section of the file could not be read.
#[derive(PartialEq, Eq, Structural, Clone, Copy, Debug)]
pub enum MalformedAssaFileError {
    ProjectGarbageError(crate::assa_file::project_garbage::MalformedProjectGarbageError),
    StyleError(crate::assa_file::style::MalformedStyleError),
    EventError(crate::assa_file::event::MalformedEventError),
}

/// A whole subtitle file.  The script info and extradata sections are kept
/// as raw text.
pub struct AssaFile {
    pub script_info: String,
    pub styles: Vec<crate::assa_file::style::Style>,
    pub events: Vec<crate::assa_file::event::Event>,
    pub project_garbage: crate::assa_file::project_garbage::ProjectGarbage,
    pub aegisub_extradata: String,
}

fn str_eq(a: &String, b: &String) -> (r: bool)
    ensures
        r == (a@ == b@),
{
    a.eq(b)
}

/// Parse the lines of a styles section (after the two header lines).
fn parse_styles(lines: &Vec<Vec<char>>) -> (r: Result<
    Vec<crate::assa_file::style::Style>,
    crate::assa_file::style::MalformedStyleError,
>)
    ensures
        match r {
            Ok(sts) => sts@.len() == (if lines@.len() >= 2 {
                lines@.len() - 2
            } else {
                0int
            }) && forall|k: int|
                0 <= k < sts@.len() ==> crate::assa_file::style::spec_style_matches(
                    #[trigger] sts@[k],
                    lines.deep_view()[k + 2],
                ),
            Err(_) => exists|k: int|
                2 <= k < lines@.len() && !(
                crate::assa_file::style::spec_style_shape_ok(#[trigger] lines.deep_view()[k])
                    && crate::assa_file::style::spec_style_fontsize_ok(lines.deep_view()[k])
                    && crate::assa_file::style::spec_style_colours_ok(lines.deep_view()[k])
                    && crate::assa_file::style::spec_style_numbers_ok(lines.deep_view()[k])),
        },
{
    let mut sts: Vec<crate::assa_file::style::Style> = Vec::new();
    let n = lines.len();
    if n < 2 {
        return Ok(sts);
    }
    let mut k: usize = 2;
    while k < n
        invariant
            2 <= k <= n,
            n == lines@.len(),
            sts@.len() == k - 2,
            forall|x: int|
                0 <= x < sts@.len() ==> crate::assa_file::style::spec_style_matches(
                    #[trigger] sts@[x],
                    lines.deep_view()[x + 2],
                ),
        decreases n - k,
    {
        let line = chars_to_string(&lines[k]);
        proof {
            assert(lines.deep_view()[k as int] == lines@[k as int]@);
        }
        match crate::assa_file::style::Style::from_str(line.as_str()) {
            Ok(st) => {
                sts.push(st);
            },
            Err(e) => {
                return Err(e);
            },
        }
        k = k + 1;
    }
    Ok(sts)
}

/// Parse the lines of an events section (after the two header lines).
fn parse_events(lines: &Vec<Vec<char>>) -> (r: Result<
    Vec<crate::assa_file::event::Event>,
    crate::assa_file::event::MalformedEventError,
>)
    ensures
        match r {
            Ok(evs) => evs@.len() == (if lines@.len() >= 2 {
                lines@.len() - 2
            } else {
                0int
            }) && forall|k: int|
                0 <= k < evs@.len() ==> crate::assa_file::event::spec_event_matches(
                    #[trigger] evs@[k],
                    lines.deep_view()[k + 2],
                ),
            Err(_) => exists|k: int|
                2 <= k < lines@.len() && !(
                crate::assa_file::event::spec_event_shape_ok(#[trigger] lines.deep_view()[k])
                    && crate::assa_file::event::spec_event_values_ok(lines.deep_view()[k])),
        },
{
    let mut evs: Vec<crate::assa_file::event::Event> = Vec::new();
    let n = lines.len();
    if n < 2 {
        return Ok(evs);
    }
    let mut k: usize = 2;
    while k < n
        invariant
            2 <= k <= n,
            n == lines@.len(),
            evs@.len() == k - 2,
            forall|x: int|
                0 <= x < evs@.len() ==> crate::assa_file::event::spec_event_matches(
                    #[trigger] evs@[x],
                    lines.deep_view()[x + 2],
                ),
        decreases n - k,
    {
        let line = chars_to_string(&lines[k]);
        proof {
            assert(lines.deep_view()[k as int] == lines@[k as int]@);
        }
        match crate::assa_file::event::Event::from_str(line.as_str()) {
            Ok(e) => {
                evs.push(e);
            },
            Err(e) => {
                return Err(e);
            },
        }
        k = k + 1;
    }
    Ok(evs)
}

/// Split a section's text into lines, carriage returns dropped.
fn section_lines(b: &Vec<char>) -> (r: Vec<Vec<char>>)
    ensures
        r.deep_view() == spec_section_lines(b@),
{
    let t = crate::alignment::text_processor::trim_chars(b);
    let raw = split_by(&t, '\n');
    let mut r: Vec<Vec<char>> = Vec::new();
    let mut i: usize = 0;
    while i < raw.len()
        invariant
            i <= raw@.len(),
            raw.deep_view() == spec_split_by(
                crate::alignment::text_processor::spec_trim(b@),
                '\n',
            ),
            r@.len() == i,
            forall|k: int|
                0 <= k < i ==> #[trigger] r.deep_view()[k]
                    == crate::assa_file::project_garbage::spec_strip_cr(raw.deep_view()[k]),
        decreases raw@.len() - i,
    {
        let raw_i = &raw[i];
        let rl = raw_i.len();
        let line = if rl > 0 && raw_i[rl - 1] == '\r' {
            sub_chars(raw_i, 0, rl - 1)
        } else {
            sub_chars(raw_i, 0, rl)
        };
        proof {
            assert(raw.deep_view()[i as int] == raw@[i as int]@);
            assert(line@ =~= crate::assa_file::project_garbage::spec_strip_cr(
                raw.deep_view()[i as int],
            ));
        }
        let ghost oldr = r.deep_view();
        let ghost lv = line@;
        proof {
            assert(line.deep_view() =~= line@);
        }
        r.push(line);
        proof {
            assert(r.deep_view() =~= oldr.push(lv));
        }
        i = i + 1;
    }
    proof {
        assert(r.deep_view() =~= spec_section_lines(b@));
    }
    r
}

impl AssaFile {
    /// Parse a whole file from its text.  Later sections of the same kind
    /// overwrite earlier ones; the first unreadable section fails the file.
    pub fn from_file_content(content: &str) -> (r: Result<AssaFile, MalformedAssaFileError>)
        ensures
            r is Ok <==> spec_file_ok(spec_blocks(content@, 0)),
            ({
                let blocks = spec_blocks(content@, 0);
                r is Ok ==> {
                    let f = r->Ok_0;
                    &&& (match spec_pick_section(blocks, "Script Info"@, blocks.len() as int) {
                        Some(b) => f.script_info@ == b,
                        None => f.script_info@.len() == 0,
                    })
                    &&& (match spec_pick_section(blocks, "V4+ Styles"@, blocks.len() as int) {
                        Some(b) => spec_styles_section_matches(f.styles@, b),
                        None => f.styles@.len() == 0,
                    })
                    &&& (match spec_pick_section(blocks, "Events"@, blocks.len() as int) {
                        Some(b) => spec_events_section_matches(f.events@, b),
                        None => f.events@.len() == 0,
                    })
                    &&& (match spec_pick_section(
                        blocks,
                        "Aegisub Extradata"@,
                        blocks.len() as int,
                    ) {
                        Some(b) => f.aegisub_extradata@ == b,
                        None => f.aegisub_extradata@.len() == 0,
                    })
                }
            }),
    {
        let v = str_to_chars(content);
        let n = v.len();
        let ghost blocks = spec_blocks(v@, 0);
        let mut script_info = String::new();
        let mut styles: Vec<crate::assa_file::style::Style> = Vec::new();
        let mut events: Vec<crate::assa_file::event::Event> = Vec::new();
        let mut garbage = crate::assa_file::project_garbage::ProjectGarbage::default();
        let mut extradata = String::new();
        let name_script = "Script Info".to_owned();
        let name_styles = "V4+ Styles".to_owned();
        let name_events = "Events".to_owned();
        let name_garbage = "Aegisub Project Garbage".to_owned();
        let name_extra = "Aegisub Extradata".to_owned();
        let ghost pc: int = 0;
        let mut cursor: usize = 0;
        loop
            invariant
                cursor <= n,
                n == v@.len(),
                v@ == content@,
                blocks == spec_blocks(v@, 0),
                0 <= pc <= blocks.len(),
                blocks =~= blocks.take(pc) + spec_blocks(v@, cursor as int),
                name_script@ == "Script Info"@,
                name_styles@ == "V4+ Styles"@,
                name_events@ == "Events"@,
                name_garbage@ == "Aegisub Project Garbage"@,
                name_extra@ == "Aegisub Extradata"@,
                (match spec_pick_section(blocks, "Script Info"@, pc) {
                    Some(b) => script_info@ == b,
                    None => script_info@.len() == 0,
                }),
                (match spec_pick_section(blocks, "V4+ Styles"@, pc) {
                    Some(b) => spec_styles_section_matches(styles@, b),
                    None => styles@.len() == 0,
                }),
                (match spec_pick_section(blocks, "Events"@, pc) {
                    Some(b) => spec_events_section_matches(events@, b),
                    None => events@.len() == 0,
                }),
                (match spec_pick_section(blocks, "Aegisub Extradata"@, pc) {
                    Some(b) => extradata@ == b,
                    None => extradata@.len() == 0,
                }),
                forall|k: int|
                    0 <= k < pc ==> #[trigger] spec_block_ok(blocks[k].0, blocks[k].1),
            ensures
                pc == blocks.len(),
            decreases n - cursor,
        {
            let lb = match find_char(&v, cursor, '[') {
                None => {
                    proof {
                        assert(spec_blocks(v@, cursor as int) =~= Seq::<(
                            Seq<char>,
                            Seq<char>,
                        )>::empty());
                        assert(blocks =~= blocks.take(pc));
                        assert(pc == blocks.len());
                    }
                    break ;
                },
                Some(x) => x,
            };
            let rb = match find_char(&v, lb + 1, ']') {
                None => {
                    proof {
                        assert(spec_blocks(v@, cursor as int) =~= Seq::<(
                            Seq<char>,
                            Seq<char>,
                        )>::empty());
                        assert(blocks =~= blocks.take(pc));
                        assert(pc == blocks.len());
                    }
                    break ;
                },
                Some(x) => x,
            };
            let nm = sub_chars(&v, lb + 1, rb);
            proof {
                assert(nm@ =~= v@.subrange(lb as int + 1, rb as int));
            }
            // find the end of the section
            let mut t: usize = rb + 1;
            let mut term: Option<(usize, usize)> = None;
            loop
                invariant_except_break
                    rb + 1 <= t <= n,
                    term is None,
                invariant
                    n == v@.len(),
                    spec_find_term(v@, rb + 1) == (match spec_find_term(v@, t as int) {
                        Some(p) => Some(p),
                        None => None::<(int, int)>,
                    }),
                ensures
                    match term {
                        None => spec_find_term(v@, rb + 1) is None,
                        Some((tt, tl)) => spec_find_term(v@, rb + 1) == Some((tt as int, tl as int))
                            && rb < tt && tt + tl <= n && tl >= 2,
                    },
                decreases n - t,
            {
                if t >= n {
                    break ;
                }
                if n - t > 1 && v[t] == '\n' && v[t + 1] == '\n' {
                    term = Some((t, 2));
                    break ;
                }
                if n - t > 3 && v[t] == '\r' && v[t + 1] == '\n' && v[t + 2] == '\r' && v[t + 3]
                    == '\n' {
                    term = Some((t, 4));
                    break ;
                }
                t = t + 1;
            }
            let (bend, nxt): (usize, usize) = match term {
                None => (n, n),
                Some((tt, tl)) => (tt, tt + tl),
            };
            let braw = sub_chars(&v, lb, bend);
            let btrim = crate::alignment::text_processor::trim_chars(&braw);
            proof {
                assert(braw@ =~= v@.subrange(lb as int, bend as int));
                let rem = spec_blocks(v@, cursor as int);
                assert(rem.len() >= 1);
                assert(rem[0].0 == nm@ && rem[0].1 == btrim@);
                assert(blocks[pc] == rem[0]);
                assert(blocks.take(pc + 1) =~= blocks.take(pc).push(rem[0]));
                assert(blocks =~= blocks.take(pc + 1) + spec_blocks(v@, nxt as int));
            }
            let nms = chars_to_string(&nm);
            let is_script = str_eq(&nms, &name_script);
            let is_styles = str_eq(&nms, &name_styles);
            let is_events = str_eq(&nms, &name_events);
            let is_garbage = str_eq(&nms, &name_garbage);
            let is_extra = str_eq(&nms, &name_extra);
            if is_script {
                script_info = chars_to_string(&btrim);
            } else if is_styles {
                let ls = section_lines(&btrim);
                match parse_styles(&ls) {
                    Ok(sts) => {
                        styles = sts;
                        proof {
                            assert(spec_styles_section_matches(styles@, btrim@));
                            assert forall|k: int|
                                2 <= k < spec_section_lines(btrim@).len() implies {
                                &&& crate::assa_file::style::spec_style_shape_ok(
                                    #[trigger] spec_section_lines(btrim@)[k],
                                )
                                &&& crate::assa_file::style::spec_style_fontsize_ok(
                                    spec_section_lines(btrim@)[k],
                                )
                                &&& crate::assa_file::style::spec_style_colours_ok(
                                    spec_section_lines(btrim@)[k],
                                )
                                &&& crate::assa_file::style::spec_style_numbers_ok(
                                    spec_section_lines(btrim@)[k],
                                )
                            } by {
                                assert(ls.deep_view()[k] == spec_section_lines(btrim@)[k]);
                                assert(crate::assa_file::style::spec_style_matches(
                                    styles@[k - 2],
                                    ls.deep_view()[k],
                                ));
                            }
                            assert(spec_styles_section_ok(btrim@));
                        }
                    },
                    Err(e) => {
                        proof {
                            assert(!spec_styles_section_ok(btrim@)) by {
                                let k = choose|k: int|
                                    2 <= k < ls@.len() && !(
                                    crate::assa_file::style::spec_style_shape_ok(
                                        #[trigger] ls.deep_view()[k],
                                    ) && crate::assa_file::style::spec_style_fontsize_ok(
                                        ls.deep_view()[k],
                                    ) && crate::assa_file::style::spec_style_colours_ok(
                                        ls.deep_view()[k],
                                    ) && crate::assa_file::style::spec_style_numbers_ok(
                                        ls.deep_view()[k],
                                    ));
                                assert(ls.deep_view()[k] == spec_section_lines(btrim@)[k]);
                            }
                            assert(!spec_block_ok(blocks[pc].0, blocks[pc].1));
                            assert(!spec_file_ok(blocks));
                        }
                        return Err(MalformedAssaFileError::StyleError(e));
                    },
                }
            } else if is_events {
                let ls = section_lines(&btrim);
                match parse_events(&ls) {
                    Ok(evs) => {
                        events = evs;
                        proof {
                            assert(spec_events_section_matches(events@, btrim@));
                            assert forall|k: int|
                                2 <= k < spec_section_lines(btrim@).len() implies
                                crate::assa_file::event::spec_event_shape_ok(
                                #[trigger] spec_section_lines(btrim@)[k],
                            ) && crate::assa_file::event::spec_event_values_ok(
                                spec_section_lines(btrim@)[k],
                            ) by {
                                assert(ls.deep_view()[k] == spec_section_lines(btrim@)[k]);
                                assert(crate::assa_file::event::spec_event_matches(
                                    events@[k - 2],
                                    ls.deep_view()[k],
                                ));
                            }
                            assert(spec_events_section_ok(btrim@));
                        }
                    },
                    Err(e) => {
                        proof {
                            assert(!spec_events_section_ok(btrim@)) by {
                                let k = choose|k: int|
                                    2 <= k < ls@.len() && !(
                                    crate::assa_file::event::spec_event_shape_ok(
                                        #[trigger] ls.deep_view()[k],
                                    ) && crate::assa_file::event::spec_event_values_ok(
                                        ls.deep_view()[k],
                                    ));
                                assert(ls.deep_view()[k] == spec_section_lines(btrim@)[k]);
                            }
                            assert(!spec_block_ok(blocks[pc].0, blocks[pc].1));
                            assert(!spec_file_ok(blocks));
                        }
                        return Err(MalformedAssaFileError::EventError(e));
                    },
                }
            } else if is_garbage {
                let bs = chars_to_string(&btrim);
                match crate::assa_file::project_garbage::ProjectGarbage::from_str(bs.as_str()) {
                    Ok(g) => {
                        garbage = g;
                    },
                    Err(e) => {
                        proof {
                            assert(!crate::assa_file::project_garbage::spec_garbage_ok(btrim@));
                            assert(!spec_block_ok(blocks[pc].0, blocks[pc].1));
                            assert(!spec_file_ok(blocks));
                        }
                        return Err(MalformedAssaFileError::ProjectGarbageError(e));
                    },
                }
            } else if is_extra {
                extradata = chars_to_string(&btrim);
            }
            proof {
                pc = pc + 1;
                reveal_strlit("Script Info");
                reveal_strlit("V4+ Styles");
                reveal_strlit("Events");
                reveal_strlit("Aegisub Project Garbage");
                reveal_strlit("Aegisub Extradata");
                assert("Script Info"@.len() == 11 && "V4+ Styles"@.len() == 10 && "Events"@.len()
                    == 6 && "Aegisub Project Garbage"@.len() == 23 && "Aegisub Extradata"@.len()
                    == 17);
                assert(blocks[pc - 1].0 == nm@);
                assert(blocks[pc - 1].1 == btrim@);
                assert(spec_pick_section(blocks, "Script Info"@, pc) == (if blocks[pc - 1].0
                    == "Script Info"@ {
                    Some(blocks[pc - 1].1)
                } else {
                    spec_pick_section(blocks, "Script Info"@, pc - 1)
                }));
                assert(spec_pick_section(blocks, "V4+ Styles"@, pc) == (if blocks[pc - 1].0
                    == "V4+ Styles"@ {
                    Some(blocks[pc - 1].1)
                } else {
                    spec_pick_section(blocks, "V4+ Styles"@, pc - 1)
                }));
                assert(spec_pick_section(blocks, "Events"@, pc) == (if blocks[pc - 1].0
                    == "Events"@ {
                    Some(blocks[pc - 1].1)
                } else {
                    spec_pick_section(blocks, "Events"@, pc - 1)
                }));
                assert(spec_pick_section(blocks, "Aegisub Extradata"@, pc) == (if blocks[pc
                    - 1].0 == "Aegisub Extradata"@ {
                    Some(blocks[pc - 1].1)
                } else {
                    spec_pick_section(blocks, "Aegisub Extradata"@, pc - 1)
                }));
                assert(spec_block_ok(blocks[pc - 1].0, blocks[pc - 1].1));
            }
            cursor = nxt;
        }
        proof {
            assert(spec_file_ok(blocks));
        }
        Ok(
            AssaFile {
                script_info,
                styles,
                events,
                project_garbage: garbage,
                aegisub_extradata: extradata,
            },
        )
    }
}


/// The style lines of the first `i` styles, each preceded by a newline.
pub open spec fn spec_style_lines(sts: Seq<crate::assa_file::style::Style>, i: int) -> Seq<char>
    decreases i,
{
    if i <= 0 {
        Seq::empty()
    } else {
        spec_style_lines(sts, i - 1) + seq!['\n'] + crate::assa_file::style::Style::spec_style_string(
            sts[i - 1],
        )
    }
}

/// The event lines of the first `i` events, each preceded by a newline.
pub open spec fn spec_event_lines(evs: Seq<crate::assa_file::event::Event>, i: int) -> Seq<char>
    decreases i,
{
    if i <= 0 {
        Seq::empty()
    } else {
        spec_event_lines(evs, i - 1) + seq!['\n'] + crate::assa_file::event::Event::spec_event_string(
            evs[i - 1],
        )
    }
}

/// The serialised styles section.
pub open spec fn spec_styles_block(sts: Seq<crate::assa_file::style::Style>) -> Seq<char> {
    "[V4+ Styles]\nFormat: Name, Fontname, Fontsize, PrimaryColour, SecondaryColour, OutlineColour, BackColour, Bold, Italic, Underline, StrikeOut, ScaleX, ScaleY, Spacing, Angle, BorderStyle, Outline, Shadow, Alignment, MarginL, MarginR, MarginV, Encoding"@
        + spec_style_lines(sts, sts.len() as int)
}

/// The serialised events section.
pub open spec fn spec_events_block(evs: Seq<crate::assa_file::event::Event>) -> Seq<char> {
    "[Events]\nFormat: Layer, Start, End, Style, Name, MarginL, MarginR, MarginV, Effect, Text"@
        + spec_event_lines(evs, evs.len() as int)
}

/// The whole serialised file.
pub open spec fn spec_file_string(f: &AssaFile) -> Seq<char> {
    f.script_info@ + "\n\n"@ + crate::assa_file::project_garbage::spec_garbage_string(
        f.project_garbage,
    ) + "\n\n"@ + spec_styles_block(f.styles@) + "\n\n"@ + spec_events_block(f.events@) + "\n\n"@
        + f.aegisub_extradata@
}

impl AssaFile {
    /// Every event timestamp is well formed, so the file can be serialised.
    pub open spec fn wf(&self) -> bool {
        forall|i: int| 0 <= i < self.events@.len() ==> (#[trigger] self.events@[i]).wf()
    }

    /// Serialise the whole file back to text.
    pub fn to_file_string(&self) -> (r: String)
        requires
            self.wf(),
        ensures
            r@ == spec_file_string(self),
    {
        let mut s = String::new();
        s.append(self.script_info.as_str());
        s.append("\n\n");
        proof {
            reveal_strlit("\n\n");
        }
        let g = self.project_garbage.to_assa_string();
        s.append(g.as_str());
        s.append("\n\n");
        s.append(
            "[V4+ Styles]\nFormat: Name, Fontname, Fontsize, PrimaryColour, SecondaryColour, OutlineColour, BackColour, Bold, Italic, Underline, StrikeOut, ScaleX, ScaleY, Spacing, Angle, BorderStyle, Outline, Shadow, Alignment, MarginL, MarginR, MarginV, Encoding",
        );
        proof {
            reveal_strlit(
                "[V4+ Styles]\nFormat: Name, Fontname, Fontsize, PrimaryColour, SecondaryColour, OutlineColour, BackColour, Bold, Italic, Underline, StrikeOut, ScaleX, ScaleY, Spacing, Angle, BorderStyle, Outline, Shadow, Alignment, MarginL, MarginR, MarginV, Encoding",
            );
        }
        let ghost styles_head = s@;
        let mut i: usize = 0;
        while i < self.styles.len()
            invariant
                i <= self.styles@.len(),
                s@ == styles_head + spec_style_lines(self.styles@, i as int),
            decreases self.styles@.len() - i,
        {
            crate::chars::push_char(&mut s, '\n');
            let line = self.styles[i].to_assa_string();
            s.append(line.as_str());
            proof {
                assert(s@ =~= styles_head + spec_style_lines(self.styles@, i + 1));
            }
            i = i + 1;
        }
        s.append("\n\n");
        s.append(
            "[Events]\nFormat: Layer, Start, End, Style, Name, MarginL, MarginR, MarginV, Effect, Text",
        );
        proof {
            reveal_strlit(
                "[Events]\nFormat: Layer, Start, End, Style, Name, MarginL, MarginR, MarginV, Effect, Text",
            );
        }
        let ghost events_head = s@;
        let mut i: usize = 0;
        while i < self.events.len()
            invariant
                self.wf(),
                i <= self.events@.len(),
                s@ == events_head + spec_event_lines(self.events@, i as int),
            decreases self.events@.len() - i,
        {
            crate::chars::push_char(&mut s, '\n');
            let line = self.events[i].to_assa_string();
            s.append(line.as_str());
            proof {
                assert(s@ =~= events_head + spec_event_lines(self.events@, i + 1));
            }
            i = i + 1;
        }
        s.append("\n\n");
        s.append(self.aegisub_extradata.as_str());
        proof {
            assert(s@ =~= spec_file_string(self));
        }
        s
    }
}

} // verus!
