//! One style definition of the `[V4+ Styles]` section.  The fractional
//! fields (spacing, angle, outline, shadow) are kept as validated decimal
//! text, which round-trips exactly.

use vstd::prelude::*;
use crate::assa_file::assa_colour::{
    spec_colour_string, spec_parse_colour, AssaColour, MalformedColourError,
};
use crate::assa_file::event::{push_uint, spec_dec};
use crate::assa_file::{
    is_decimal, parse_uint, spec_is_decimal, spec_parse_uint, spec_split_by, split_by, sub_chars,
};
use crate::chars::{chars_to_string, push_char, str_to_chars};
use vstd::string::StringExecFns;

verus! {

/// The style line could not be read.
#[derive(PartialEq, Eq, Structural, Clone, Copy, Debug)]
pub enum MalformedStyleError {
    /// A colour field was not a valid colour.
    AssaColourError(MalformedColourError),
    /// Not a `Style: ` line with twenty-three fields.
    FormatError,
    /// A numeric field would not parse.
    ParseError,
}

/// One style definition.
#[derive(Debug)]
pub struct Style {
    pub name: String,
    pub fontname: String,
    pub fontsize: u8,
    pub primary_colour: AssaColour,
    pub secondary_colour: AssaColour,
    pub outline_colour: AssaColour,
    pub back_colour: AssaColour,
    pub bold: bool,
    pub italic: bool,
    pub underline: bool,
    pub strike_out: bool,
    pub scale_x: u16,
    pub scale_y: u16,
    pub spacing: String,
    pub angle: String,
    pub border_style: u8,
    pub outline: String,
    pub shadow: String,
    pub alignment: u8,
    pub margin_l: u16,
    pub margin_r: u16,
    pub margin_v: u16,
    pub encoding: u8,
}

/// The line starts with `Style: ` and has exactly twenty-three fields.
pub open spec fn spec_style_shape_ok(s: Seq<char>) -> bool {
    s.len() >= 7 && s.take(7) =~= "Style: "@ && spec_split_by(s.skip(7), ',').len() == 23
}

pub open spec fn spec_style_fields(s: Seq<char>) -> Seq<Seq<char>> {
    spec_split_by(s.skip(7), ',')
}

/// The font size (checked first by the reader) parses.
pub open spec fn spec_style_fontsize_ok(s: Seq<char>) -> bool {
    spec_parse_uint(spec_style_fields(s)[2], 255) is Some
}

/// All four colour fields parse.
pub open spec fn spec_style_colours_ok(s: Seq<char>) -> bool {
    let f = spec_style_fields(s);
    &&& spec_parse_colour(f[3]) is Some
    &&& spec_parse_colour(f[4]) is Some
    &&& spec_parse_colour(f[5]) is Some
    &&& spec_parse_colour(f[6]) is Some
}

/// The remaining numeric and decimal fields parse.
pub open spec fn spec_style_numbers_ok(s: Seq<char>) -> bool {
    let f = spec_style_fields(s);
    &&& spec_parse_uint(f[11], 65535) is Some
    &&& spec_parse_uint(f[12], 65535) is Some
    &&& spec_is_decimal(f[13])
    &&& spec_is_decimal(f[14])
    &&& spec_parse_uint(f[15], 255) is Some
    &&& spec_is_decimal(f[16])
    &&& spec_is_decimal(f[17])
    &&& spec_parse_uint(f[18], 255) is Some
    &&& spec_parse_uint(f[19], 65535) is Some
    &&& spec_parse_uint(f[20], 65535) is Some
    &&& spec_parse_uint(f[21], 65535) is Some
    &&& spec_parse_uint(f[22], 255) is Some
}

/// `st` is exactly what the line parses to, field by field.
pub open spec fn spec_style_matches(st: Style, s: Seq<char>) -> bool {
    let f = spec_style_fields(s);
    &&& spec_style_shape_ok(s)
    &&& spec_style_fontsize_ok(s)
    &&& spec_style_colours_ok(s)
    &&& spec_style_numbers_ok(s)
    &&& st.wf()
    &&& st.name@ == f[0]
    &&& st.fontname@ == f[1]
    &&& st.fontsize as int == spec_parse_uint(f[2], 255)->Some_0
    &&& Some(st.primary_colour) == spec_parse_colour(f[3])
    &&& Some(st.secondary_colour) == spec_parse_colour(f[4])
    &&& Some(st.outline_colour) == spec_parse_colour(f[5])
    &&& Some(st.back_colour) == spec_parse_colour(f[6])
    &&& st.bold == (f[7] =~= "-1"@)
    &&& st.italic == (f[8] =~= "1"@)
    &&& st.underline == (f[9] =~= "1"@)
    &&& st.strike_out == (f[10] =~= "1"@)
    &&& st.scale_x as int == spec_parse_uint(f[11], 65535)->Some_0
    &&& st.scale_y as int == spec_parse_uint(f[12], 65535)->Some_0
    &&& st.spacing@ == f[13]
    &&& st.angle@ == f[14]
    &&& st.border_style as int == spec_parse_uint(f[15], 255)->Some_0
    &&& st.outline@ == f[16]
    &&& st.shadow@ == f[17]
    &&& st.alignment as int == spec_parse_uint(f[18], 255)->Some_0
    &&& st.margin_l as int == spec_parse_uint(f[19], 65535)->Some_0
    &&& st.margin_r as int == spec_parse_uint(f[20], 65535)->Some_0
    &&& st.margin_v as int == spec_parse_uint(f[21], 65535)->Some_0
    &&& st.encoding as int == spec_parse_uint(f[22], 255)->Some_0
}

impl Style {
    pub open spec fn wf(&self) -> bool {
        spec_is_decimal(self.spacing@) && spec_is_decimal(self.angle@) && spec_is_decimal(
            self.outline@,
        ) && spec_is_decimal(self.shadow@)
    }

    /// Parse one `Style: ` line.
    pub fn from_str(s: &str) -> (r: Result<Style, MalformedStyleError>)
        ensures
            match r {
                Ok(st) => spec_style_matches(st, s@),
                Err(MalformedStyleError::FormatError) => !spec_style_shape_ok(s@),
                Err(MalformedStyleError::AssaColourError(_)) => spec_style_shape_ok(s@)
                    && spec_style_fontsize_ok(s@) && !spec_style_colours_ok(s@),
                Err(MalformedStyleError::ParseError) => spec_style_shape_ok(s@) && (
                !spec_style_fontsize_ok(s@) || (spec_style_colours_ok(s@)
                    && !spec_style_numbers_ok(s@))),
            },
    {
        let v = str_to_chars(s);
        let n = v.len();
        if n < 7 {
            proof {
                reveal_strlit("Style: ");
            }
            return Err(MalformedStyleError::FormatError);
        }
        let head = sub_chars(&v, 0, 7);
        proof {
            reveal_strlit("Style: ");
        }
        let head_ok = head.len() == 7 && head[0] == 'S' && head[1] == 't' && head[2] == 'y'
            && head[3] == 'l' && head[4] == 'e' && head[5] == ':' && head[6] == ' ';
        proof {
            if head_ok {
                assert(v@.take(7) =~= "Style: "@);
            } else {
                assert(!(v@.take(7) =~= "Style: "@));
            }
        }
        if !head_ok {
            return Err(MalformedStyleError::FormatError);
        }
        let rest = sub_chars(&v, 7, n);
        proof {
            assert(rest@ =~= v@.skip(7));
        }
        let f = split_by(&rest, ',');
        if f.len() != 23 {
            proof {
                assert(f.deep_view().len() == f@.len());
            }
            return Err(MalformedStyleError::FormatError);
        }
        proof {
            assert(f.deep_view().len() == f@.len());
            assert forall|k: int| 0 <= k < 23 implies #[trigger] f@[k]@ == spec_style_fields(
                v@,
            )[k] by {
                assert(f.deep_view()[k] == f@[k]@);
            }
        }
        let fontsize = parse_uint(&f[2], 255);
        if fontsize.is_none() {
            return Err(MalformedStyleError::ParseError);
        }
        let pc = AssaColour::from_str(chars_to_string(&f[3]).as_str());
        let sc = AssaColour::from_str(chars_to_string(&f[4]).as_str());
        let oc = AssaColour::from_str(chars_to_string(&f[5]).as_str());
        let bc = AssaColour::from_str(chars_to_string(&f[6]).as_str());
        let (pc, sc, oc, bc) = match (pc, sc, oc, bc) {
            (Ok(a), Ok(b), Ok(c), Ok(d)) => (a, b, c, d),
            _ => {
                return Err(MalformedStyleError::AssaColourError(MalformedColourError));
            },
        };
        let scale_x = parse_uint(&f[11], 65535);
        let scale_y = parse_uint(&f[12], 65535);
        let border_style = parse_uint(&f[15], 255);
        let alignment = parse_uint(&f[18], 255);
        let margin_l = parse_uint(&f[19], 65535);
        let margin_r = parse_uint(&f[20], 65535);
        let margin_v = parse_uint(&f[21], 65535);
        let encoding = parse_uint(&f[22], 255);
        if scale_x.is_none() || scale_y.is_none() || !is_decimal(&f[13]) || !is_decimal(&f[14])
            || border_style.is_none() || !is_decimal(&f[16]) || !is_decimal(&f[17])
            || alignment.is_none() || margin_l.is_none() || margin_r.is_none() || margin_v.is_none()
            || encoding.is_none() {
            return Err(MalformedStyleError::ParseError);
        }
        let bold = is_neg_one(&f[7]);
        let italic = is_one(&f[8]);
        let underline = is_one(&f[9]);
        let strike_out = is_one(&f[10]);
        Ok(
            Style {
                name: chars_to_string(&f[0]),
                fontname: chars_to_string(&f[1]),
                fontsize: fontsize.unwrap() as u8,
                primary_colour: pc,
                secondary_colour: sc,
                outline_colour: oc,
                back_colour: bc,
                bold,
                italic,
                underline,
                strike_out,
                scale_x: scale_x.unwrap() as u16,
                scale_y: scale_y.unwrap() as u16,
                spacing: chars_to_string(&f[13]),
                angle: chars_to_string(&f[14]),
                border_style: border_style.unwrap() as u8,
                outline: chars_to_string(&f[16]),
                shadow: chars_to_string(&f[17]),
                alignment: alignment.unwrap() as u8,
                margin_l: margin_l.unwrap() as u16,
                margin_r: margin_r.unwrap() as u16,
                margin_v: margin_v.unwrap() as u16,
                encoding: encoding.unwrap() as u8,
            },
        )
    }

    /// The first half of the serialised line: text, size, colours, flags.
    pub open spec fn spec_style_head(st: Style) -> Seq<char> {
        "Style: "@ + st.name@ + seq![','] + st.fontname@ + seq![','] + spec_dec(st.fontsize as int)
            + seq![','] + spec_colour_string(st.primary_colour) + seq![','] + spec_colour_string(
            st.secondary_colour,
        ) + seq![','] + spec_colour_string(st.outline_colour) + seq![','] + spec_colour_string(
            st.back_colour,
        ) + seq![','] + spec_flag(st.bold) + seq![','] + spec_flag(st.italic) + seq![',']
            + spec_flag(st.underline) + seq![','] + spec_flag(st.strike_out)
    }

    /// The second half: scales, spacing, borders, margins, encoding.
    pub open spec fn spec_style_tail(st: Style) -> Seq<char> {
        seq![','] + spec_dec(st.scale_x as int) + seq![','] + spec_dec(st.scale_y as int) + seq![
            ',',
        ] + st.spacing@ + seq![','] + st.angle@ + seq![','] + spec_dec(st.border_style as int)
            + seq![','] + st.outline@ + seq![','] + st.shadow@ + seq![','] + spec_dec(
            st.alignment as int,
        ) + seq![','] + spec_dec(st.margin_l as int) + seq![','] + spec_dec(st.margin_r as int)
            + seq![','] + spec_dec(st.margin_v as int) + seq![','] + spec_dec(st.encoding as int)
    }

    /// The serialised style line.
    pub open spec fn spec_style_string(st: Style) -> Seq<char> {
        Style::spec_style_head(st) + Style::spec_style_tail(st)
    }

    /// Serialise the text, size, colour and flag fields.
    #[verifier::rlimit(100)]
    fn push_head(&self, s: &mut String)
        ensures
            final(s)@ == old(s)@ + Style::spec_style_head(*self),
    {
        s.append("Style: ");
        proof {
            reveal_strlit("Style: ");
        }
        s.append(self.name.as_str());
        push_char(s, ',');
        s.append(self.fontname.as_str());
        push_char(s, ',');
        push_uint(s, self.fontsize as u64);
        push_char(s, ',');
        let c1 = self.primary_colour.to_assa_string();
        s.append(c1.as_str());
        push_char(s, ',');
        let c2 = self.secondary_colour.to_assa_string();
        s.append(c2.as_str());
        push_char(s, ',');
        let c3 = self.outline_colour.to_assa_string();
        s.append(c3.as_str());
        push_char(s, ',');
        let c4 = self.back_colour.to_assa_string();
        s.append(c4.as_str());
        push_char(s, ',');
        push_flag(s, self.bold);
        push_char(s, ',');
        push_flag(s, self.italic);
        push_char(s, ',');
        push_flag(s, self.underline);
        push_char(s, ',');
        push_flag(s, self.strike_out);
        proof {
            assert(final(s)@ =~= old(s)@ + Style::spec_style_head(*self));
        }
    }

    /// Serialise the scale, spacing, border, margin and encoding fields.
    #[verifier::rlimit(100)]
    fn push_tail(&self, s: &mut String)
        ensures
            final(s)@ == old(s)@ + Style::spec_style_tail(*self),
    {
        push_char(s, ',');
        push_uint(s, self.scale_x as u64);
        push_char(s, ',');
        push_uint(s, self.scale_y as u64);
        push_char(s, ',');
        s.append(self.spacing.as_str());
        push_char(s, ',');
        s.append(self.angle.as_str());
        push_char(s, ',');
        push_uint(s, self.border_style as u64);
        push_char(s, ',');
        s.append(self.outline.as_str());
        push_char(s, ',');
        s.append(self.shadow.as_str());
        push_char(s, ',');
        push_uint(s, self.alignment as u64);
        push_char(s, ',');
        push_uint(s, self.margin_l as u64);
        push_char(s, ',');
        push_uint(s, self.margin_r as u64);
        push_char(s, ',');
        push_uint(s, self.margin_v as u64);
        push_char(s, ',');
        push_uint(s, self.encoding as u64);
        proof {
            assert(final(s)@ =~= old(s)@ + Style::spec_style_tail(*self));
        }
    }

    /// Serialise back to a `Style: ` line.
    pub fn to_assa_string(&self) -> (r: String)
        ensures
            r@ == Style::spec_style_string(*self),
    {
        let mut s = String::new();
        self.push_head(&mut s);
        self.push_tail(&mut s);
        proof {
            assert(s@ =~= Style::spec_style_string(*self));
        }
        s
    }
}

/// `-1` for a set flag, `0` otherwise, as the format stores booleans.
pub open spec fn spec_flag(b: bool) -> Seq<char> {
    if b {
        seq!['-', '1']
    } else {
        seq!['0']
    }
}

fn push_flag(s: &mut String, b: bool)
    ensures
        final(s)@ == old(s)@ + spec_flag(b),
{
    if b {
        push_char(s, '-');
        push_char(s, '1');
    } else {
        push_char(s, '0');
    }
    proof {
        assert(final(s)@ =~= old(s)@ + spec_flag(b));
    }
}

fn is_neg_one(v: &Vec<char>) -> (r: bool)
    ensures
        r == (v@ =~= "-1"@),
{
    proof {
        reveal_strlit("-1");
    }
    let ok = v.len() == 2 && v[0] == '-' && v[1] == '1';
    proof {
        if ok {
            assert(v@ =~= "-1"@);
        } else {
            assert(!(v@ =~= "-1"@));
        }
    }
    ok
}

fn is_one(v: &Vec<char>) -> (r: bool)
    ensures
        r == (v@ =~= "1"@),
{
    proof {
        reveal_strlit("1");
    }
    let ok = v.len() == 1 && v[0] == '1';
    proof {
        if ok {
            assert(v@ =~= "1"@);
        } else {
            assert(!(v@ =~= "1"@));
        }
    }
    ok
}

} // verus!
