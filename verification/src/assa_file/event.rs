//! One line record of an ASS/SSA file: a dialogue or comment event with its
//! timing, style and text.

use vstd::prelude::*;
use crate::assa_file::{
    spec_find_char, spec_parse_uint, spec_split_by, spec_splitn_by, find_char, parse_uint,
    split_by, splitn_by, sub_chars,
};
use crate::assa_file::assa_colour::spec_hex_digit;
use crate::chars::{chars_to_string, push_char, str_to_chars};
use vstd::string::StringExecFns;

verus! {

/// The event line could not be read.
#[derive(PartialEq, Eq, Structural, Clone, Copy, Debug)]
pub enum MalformedEventError {
    /// Not a `Dialogue:` or `Comment:` line with ten fields.
    FormatError,
    /// A numeric or time field would not parse.
    ParseError,
}

/// A time of day with centisecond precision, as event timestamps store it.
#[derive(PartialEq, Eq, Structural, Clone, Copy, Debug)]
pub struct EventTime {
    pub hours: u8,
    pub minutes: u8,
    pub seconds: u8,
    pub centis: u8,
}

impl EventTime {
    pub open spec fn wf(&self) -> bool {
        self.hours <= 23 && self.minutes <= 59 && self.seconds <= 59 && self.centis <= 99
    }

    /// The whole time in centiseconds.
    pub open spec fn spec_total_centis(&self) -> int {
        ((self.hours as int * 60 + self.minutes as int) * 60 + self.seconds as int) * 100
            + self.centis as int
    }

    pub fn total_centis(&self) -> (r: u32)
        requires
            self.wf(),
        ensures
            r as int == self.spec_total_centis(),
    {
        ((self.hours as u32 * 60 + self.minutes as u32) * 60 + self.seconds as u32) * 100
            + self.centis as u32
    }
}

/// A field of one or two digits, bounded.
pub open spec fn spec_parse_short(s: Seq<char>, max: int) -> Option<int> {
    if 1 <= s.len() <= 2 {
        spec_parse_uint(s, max)
    } else {
        None
    }
}

/// `H:MM:SS` with an optional fraction after a point; the fraction is read
/// to centisecond precision.
pub open spec fn spec_parse_time(s: Seq<char>) -> Option<EventTime> {
    let fs = spec_split_by(s, ':');
    if fs.len() == 3 {
        let h = spec_parse_short(fs[0], 23);
        let m = spec_parse_short(fs[1], 59);
        if h is Some && m is Some {
            match spec_find_char(fs[2], '.') {
                None => {
                    match spec_parse_short(fs[2], 59) {
                        Some(sec) => Some(
                            EventTime {
                                hours: h->Some_0 as u8,
                                minutes: m->Some_0 as u8,
                                seconds: sec as u8,
                                centis: 0,
                            },
                        ),
                        None => None,
                    }
                },
                Some(i) => {
                    let secs = fs[2].take(i);
                    let frac = fs[2].skip(i + 1);
                    if spec_parse_short(secs, 59) is Some && 1 <= frac.len() <= 9
                        && crate::assa_file::spec_all_digits(frac) {
                        let cs = if frac.len() == 1 {
                            ((frac[0] as int) - ('0' as int)) * 10
                        } else {
                            crate::assa_file::spec_digits_val(frac.take(2))
                        };
                        Some(
                            EventTime {
                                hours: h->Some_0 as u8,
                                minutes: m->Some_0 as u8,
                                seconds: spec_parse_short(secs, 59)->Some_0 as u8,
                                centis: cs as u8,
                            },
                        )
                    } else {
                        None
                    }
                },
            }
        } else {
            None
        }
    } else {
        None
    }
}

/// Parse an event timestamp.
pub fn parse_time(v: &Vec<char>) -> (r: Option<EventTime>)
    ensures
        r == spec_parse_time(v@),
        r is Some ==> r->Some_0.wf(),
{
    let fs = split_by(v, ':');
    proof {
        assert(fs.deep_view().len() == fs@.len());
    }
    if fs.len() != 3 {
        proof {
            assert(spec_parse_time(v@) is None);
        }
        return None;
    }
    proof {
        assert(fs.deep_view()[0] == fs@[0]@);
        assert(fs.deep_view()[1] == fs@[1]@);
        assert(fs.deep_view()[2] == fs@[2]@);
    }
    let h = parse_short(&fs[0], 23);
    let m = parse_short(&fs[1], 59);
    if h.is_none() || m.is_none() {
        proof {
            assert(spec_parse_time(v@) is None);
        }
        return None;
    }
    let hv = h.unwrap();
    let mv = m.unwrap();
    let sf = &fs[2];
    match find_char(sf, 0, '.') {
        None => {
            proof {
                assert(sf@.skip(0) =~= sf@);
            }
            match parse_short(sf, 59) {
                Some(sec) => Some(
                    EventTime { hours: hv as u8, minutes: mv as u8, seconds: sec as u8, centis: 0 },
                ),
                None => None,
            }
        },
        Some(i) => {
            proof {
                assert(sf@.skip(0) =~= sf@);
            }
            let secs = sub_chars(sf, 0, i);
            proof {
                assert(secs@ =~= sf@.take(i as int));
            }
            let n2 = sf.len();
            let frac = sub_chars(sf, i + 1, n2);
            proof {
                assert(frac@ =~= sf@.skip(i + 1));
            }
            let sp = parse_short(&secs, 59);
            if sp.is_none() {
                proof {
                    assert(spec_parse_time(v@) is None);
                }
                return None;
            }
            let fl = frac.len();
            if fl < 1 || fl > 9 {
                proof {
                    assert(spec_parse_time(v@) is None);
                }
                return None;
            }
            // every fraction digit must be a digit, read the first two
            let mut alldig = true;
            let mut k: usize = 0;
            while k < fl
                invariant
                    k <= fl,
                    fl == frac@.len(),
                    alldig == (forall|x: int|
                        0 <= x < k ==> crate::assa_file::spec_is_digit(#[trigger] frac@[x])),
                decreases fl - k,
            {
                if !('0' <= frac[k] && frac[k] <= '9') {
                    alldig = false;
                }
                k = k + 1;
            }
            if !alldig {
                proof {
                    assert(!crate::assa_file::spec_all_digits(frac@));
                }
                return None;
            }
            proof {
                assert(crate::assa_file::spec_all_digits(frac@));
            }
            let cs: u32 = if fl == 1 {
                ((frac[0] as u32) - ('0' as u32)) * 10
            } else {
                let hi = (frac[0] as u32) - ('0' as u32);
                let lo = (frac[1] as u32) - ('0' as u32);
                proof {
                    assert(frac@.take(2).drop_last() =~= frac@.take(1));
                    assert(frac@.take(1).drop_last() =~= frac@.take(0));
                    assert(frac@.take(0) =~= Seq::<char>::empty());
                    assert(frac@.take(2).last() == frac@[1]);
                    assert(frac@.take(1).last() == frac@[0]);
                    assert(crate::assa_file::spec_digits_val(Seq::<char>::empty()) == 0);
                    assert(crate::assa_file::spec_digits_val(frac@.take(1)) == (frac@[0] as int)
                        - ('0' as int));
                    assert(crate::assa_file::spec_digits_val(frac@.take(2))
                        == crate::assa_file::spec_digits_val(frac@.take(1)) * 10 + (
                    frac@[1] as int) - ('0' as int));
                }
                hi * 10 + lo
            };
            let ret = EventTime {
                hours: hv as u8,
                minutes: mv as u8,
                seconds: sp.unwrap() as u8,
                centis: cs as u8,
            };
            proof {
                let spec_fs = spec_split_by(v@, ':');
                assert(sf@ == spec_fs[2]);
                assert(spec_find_char(spec_fs[2], '.') == Some(i as int));
                let t = spec_parse_time(v@);
                assert(t is Some);
                assert(t->Some_0.hours == ret.hours);
                assert(t->Some_0.minutes == ret.minutes);
                assert(t->Some_0.seconds == ret.seconds);
                assert(t->Some_0.centis == ret.centis);
                assert(spec_parse_time(v@) == Some(ret));
            }
            Some(ret)
        },
    }
}

fn parse_short(v: &Vec<char>, max: u64) -> (r: Option<u64>)
    ensures
        match r {
            Some(x) => spec_parse_short(v@, max as int) == Some(x as int) && x <= max,
            None => spec_parse_short(v@, max as int) is None,
        },
{
    let n = v.len();
    if n < 1 || n > 2 {
        return None;
    }
    parse_uint(v, max)
}

/// A digit-by-digit decimal rendering, no padding.
pub open spec fn spec_dec(v: int) -> Seq<char>
    decreases v,
{
    if v < 10 {
        seq![spec_hex_digit(v)]
    } else {
        spec_dec(v / 10) + seq![spec_hex_digit(v % 10)]
    }
}

/// Append the decimal rendering of `v`.
pub fn push_uint(s: &mut String, v: u64)
    ensures
        final(s)@ == old(s)@ + spec_dec(v as int),
    decreases v,
{
    if v >= 10 {
        push_uint(s, v / 10);
        push_char(s, crate::assa_file::dec_digit((v % 10) as u8));
        proof {
            assert(final(s)@ =~= old(s)@ + spec_dec(v as int));
        }
    } else {
        push_char(s, crate::assa_file::dec_digit(v as u8));
        proof {
            assert(final(s)@ =~= old(s)@ + spec_dec(v as int));
        }
    }
}

/// Two digits, zero padded.
pub open spec fn spec_two_digits(v: int) -> Seq<char> {
    seq![spec_hex_digit(v / 10), spec_hex_digit(v % 10)]
}

pub fn push_two_digits(s: &mut String, v: u8)
    requires
        v <= 99,
    ensures
        final(s)@ == old(s)@ + spec_two_digits(v as int),
{
    push_char(s, crate::assa_file::dec_digit(v / 10));
    push_char(s, crate::assa_file::dec_digit(v % 10));
    proof {
        assert(final(s)@ =~= old(s)@ + spec_two_digits(v as int));
    }
}

/// `H:MM:SS.CC`, the hour without padding.
pub open spec fn spec_time_string(t: EventTime) -> Seq<char> {
    spec_dec(t.hours as int) + seq![':'] + spec_two_digits(t.minutes as int) + seq![':']
        + spec_two_digits(t.seconds as int) + seq!['.'] + spec_two_digits(t.centis as int)
}

impl EventTime {
    /// Serialise as `H:MM:SS.CC`.
    pub fn to_assa_string(&self) -> (r: String)
        requires
            self.wf(),
        ensures
            r@ == spec_time_string(*self),
    {
        let mut s = String::new();
        push_uint(&mut s, self.hours as u64);
        push_char(&mut s, ':');
        push_two_digits(&mut s, self.minutes);
        push_char(&mut s, ':');
        push_two_digits(&mut s, self.seconds);
        push_char(&mut s, '.');
        push_two_digits(&mut s, self.centis);
        proof {
            assert(s@ =~= spec_time_string(*self));
        }
        s
    }
}

/// One event of the `[Events]` section.
#[derive(Debug)]
pub struct Event {
    pub comment: bool,
    pub layer: u8,
    pub start: EventTime,
    pub end: EventTime,
    pub style: String,
    pub name: String,
    pub margin_l: u16,
    pub margin_r: u16,
    pub margin_v: u16,
    pub effect: String,
    pub text: String,
}

/// The line has an event descriptor, a space, and ten comma fields.
pub open spec fn spec_event_shape_ok(s: Seq<char>) -> bool {
    let desc = match spec_find_char(s, ' ') {
        None => s,
        Some(i) => s.take(i),
    };
    &&& (desc =~= "Dialogue:"@ || desc =~= "Comment:"@)
    &&& spec_find_char(s, ' ') is Some
    &&& spec_splitn_by(s.skip(desc.len() as int + 1), ',', 10).len() == 10
}

/// The ten fields of an event line.
pub open spec fn spec_event_fields(s: Seq<char>) -> Seq<Seq<char>> {
    let desc = match spec_find_char(s, ' ') {
        None => s,
        Some(i) => s.take(i),
    };
    spec_splitn_by(s.skip(desc.len() as int + 1), ',', 10)
}

/// Every numeric and time field of the line parses.
pub open spec fn spec_event_values_ok(s: Seq<char>) -> bool {
    let f = spec_event_fields(s);
    &&& spec_parse_uint(f[0], 255) is Some
    &&& spec_parse_time(f[1]) is Some
    &&& spec_parse_time(f[2]) is Some
    &&& spec_parse_uint(f[5], 65535) is Some
    &&& spec_parse_uint(f[6], 65535) is Some
    &&& spec_parse_uint(f[7], 65535) is Some
}

/// `e` is exactly what the line parses to, field by field.
pub open spec fn spec_event_matches(e: Event, s: Seq<char>) -> bool {
    let f = spec_event_fields(s);
    &&& spec_event_shape_ok(s)
    &&& spec_event_values_ok(s)
    &&& e.wf()
    &&& e.comment == ((match spec_find_char(s, ' ') {
        None => s,
        Some(i) => s.take(i),
    }) =~= "Comment:"@)
    &&& e.layer as int == spec_parse_uint(f[0], 255)->Some_0
    &&& Some(e.start) == spec_parse_time(f[1])
    &&& Some(e.end) == spec_parse_time(f[2])
    &&& e.style@ == f[3]
    &&& e.name@ == f[4]
    &&& e.margin_l as int == spec_parse_uint(f[5], 65535)->Some_0
    &&& e.margin_r as int == spec_parse_uint(f[6], 65535)->Some_0
    &&& e.margin_v as int == spec_parse_uint(f[7], 65535)->Some_0
    &&& e.effect@ == f[8]
    &&& e.text@ == f[9]
}

impl Event {
    pub open spec fn wf(&self) -> bool {
        self.start.wf() && self.end.wf()
    }

    /// Parse one `Dialogue:` or `Comment:` line.
    pub fn from_str(s: &str) -> (r: Result<Event, MalformedEventError>)
        ensures
            match r {
                Ok(e) => spec_event_matches(e, s@),
                Err(MalformedEventError::FormatError) => !spec_event_shape_ok(s@),
                Err(MalformedEventError::ParseError) => spec_event_shape_ok(s@)
                    && !spec_event_values_ok(s@),
            },
    {
        let v = str_to_chars(s);
        proof {
            assert(v@.skip(0) =~= v@);
        }
        let desc_end = find_char(&v, 0, ' ');
        let (is_comment, dlen): (bool, usize) = match desc_end {
            None => {
                proof {
                    reveal_strlit("Dialogue:");
                    reveal_strlit("Comment:");
                    assert(!(v@ =~= "Dialogue:"@) || spec_find_char(v@, ' ') is None);
                    // even a matching descriptor fails the shape check: there
                    // is no space, so no field part
                }
                return Err(MalformedEventError::FormatError);
            },
            Some(i) => {
                let desc = sub_chars(&v, 0, i);
                proof {
                    assert(desc@ =~= v@.take(i as int));
                }
                if eq_lit_dialogue(&desc) {
                    proof {
                        reveal_strlit("Dialogue:");
                        reveal_strlit("Comment:");
                        assert(v@.take(i as int).len() == 9);
                        assert(!(v@.take(i as int) =~= "Comment:"@));
                    }
                    (false, i)
                } else if eq_lit_comment(&desc) {
                    proof {
                        assert(v@.take(i as int) =~= "Comment:"@);
                    }
                    (true, i)
                } else {
                    proof {
                        assert(!spec_event_shape_ok(v@));
                    }
                    return Err(MalformedEventError::FormatError);
                }
            },
        };
        let n = v.len();
        let rest = sub_chars(&v, dlen + 1, n);
        proof {
            assert(rest@ =~= v@.skip(dlen + 1));
        }
        let fields = splitn_by(&rest, ',', 10);
        if fields.len() != 10 {
            proof {
                assert(fields.deep_view().len() == fields@.len());
                assert(!spec_event_shape_ok(v@));
            }
            return Err(MalformedEventError::FormatError);
        }
        proof {
            assert(fields.deep_view().len() == fields@.len());
            assert(spec_event_shape_ok(v@));
            assert forall|k: int| 0 <= k < 10 implies #[trigger] fields@[k]@ == spec_event_fields(
                v@,
            )[k] by {
                assert(fields.deep_view()[k] == fields@[k]@);
            }
        }
        let layer = parse_uint(&fields[0], 255);
        let start = parse_time(&fields[1]);
        let end = parse_time(&fields[2]);
        let ml = parse_uint(&fields[5], 65535);
        let mr = parse_uint(&fields[6], 65535);
        let mv = parse_uint(&fields[7], 65535);
        if layer.is_none() || start.is_none() || end.is_none() || ml.is_none() || mr.is_none()
            || mv.is_none() {
            proof {
                assert(!spec_event_values_ok(v@));
            }
            return Err(MalformedEventError::ParseError);
        }
        Ok(
            Event {
                comment: is_comment,
                layer: layer.unwrap() as u8,
                start: start.unwrap(),
                end: end.unwrap(),
                style: chars_to_string(&fields[3]),
                name: chars_to_string(&fields[4]),
                margin_l: ml.unwrap() as u16,
                margin_r: mr.unwrap() as u16,
                margin_v: mv.unwrap() as u16,
                effect: chars_to_string(&fields[8]),
                text: chars_to_string(&fields[9]),
            },
        )
    }

    /// The serialised event line.
    pub open spec fn spec_event_string(e: Event) -> Seq<char> {
        (if e.comment {
            "Comment: "@
        } else {
            "Dialogue: "@
        }) + spec_dec(e.layer as int) + seq![','] + spec_time_string(e.start) + seq![',']
            + spec_time_string(e.end) + seq![','] + e.style@ + seq![','] + e.name@ + seq![',']
            + spec_dec(e.margin_l as int) + seq![','] + spec_dec(e.margin_r as int) + seq![',']
            + spec_dec(e.margin_v as int) + seq![','] + e.effect@ + seq![','] + e.text@
    }

    /// Serialise back to a `Dialogue:` or `Comment:` line.
    pub fn to_assa_string(&self) -> (r: String)
        requires
            self.wf(),
        ensures
            r@ == Event::spec_event_string(*self),
    {
        let mut s = String::new();
        if self.comment {
            s.append("Comment: ");
            proof {
                reveal_strlit("Comment: ");
            }
        } else {
            s.append("Dialogue: ");
            proof {
                reveal_strlit("Dialogue: ");
            }
        }
        push_uint(&mut s, self.layer as u64);
        push_char(&mut s, ',');
        let st = self.start.to_assa_string();
        s.append(st.as_str());
        push_char(&mut s, ',');
        let en = self.end.to_assa_string();
        s.append(en.as_str());
        push_char(&mut s, ',');
        s.append(self.style.as_str());
        push_char(&mut s, ',');
        s.append(self.name.as_str());
        push_char(&mut s, ',');
        push_uint(&mut s, self.margin_l as u64);
        push_char(&mut s, ',');
        push_uint(&mut s, self.margin_r as u64);
        push_char(&mut s, ',');
        push_uint(&mut s, self.margin_v as u64);
        push_char(&mut s, ',');
        s.append(self.effect.as_str());
        push_char(&mut s, ',');
        s.append(self.text.as_str());
        proof {
            assert(s@ =~= Event::spec_event_string(*self));
        }
        s
    }

    /// How long the event is on screen, in centiseconds; negative when the
    /// end precedes the start.
    pub fn duration(&self) -> (r: i64)
        requires
            self.wf(),
        ensures
            r as int == self.end.spec_total_centis() - self.start.spec_total_centis(),
    {
        self.end.total_centis() as i64 - self.start.total_centis() as i64
    }
}

fn eq_lit_dialogue(v: &Vec<char>) -> (r: bool)
    ensures
        r == (v@ =~= "Dialogue:"@),
{
    proof {
        reveal_strlit("Dialogue:");
    }
    let ok = v.len() == 9 && v[0] == 'D' && v[1] == 'i' && v[2] == 'a' && v[3] == 'l' && v[4]
        == 'o' && v[5] == 'g' && v[6] == 'u' && v[7] == 'e' && v[8] == ':';
    proof {
        if ok {
            assert(v@ =~= "Dialogue:"@);
        } else {
            assert(!(v@ =~= "Dialogue:"@));
        }
    }
    ok
}

fn eq_lit_comment(v: &Vec<char>) -> (r: bool)
    ensures
        r == (v@ =~= "Comment:"@),
{
    proof {
        reveal_strlit("Comment:");
    }
    let ok = v.len() == 8 && v[0] == 'C' && v[1] == 'o' && v[2] == 'm' && v[3] == 'm' && v[4]
        == 'e' && v[5] == 'n' && v[6] == 't' && v[7] == ':';
    proof {
        if ok {
            assert(v@ =~= "Comment:"@);
        } else {
            assert(!(v@ =~= "Comment:"@));
        }
    }
    ok
}

} // verus!
