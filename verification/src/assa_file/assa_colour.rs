//! The colour values of ASS/SSA styles: `&H` followed by two hex digits per
//! channel, with or without an alpha channel.

use vstd::prelude::*;
use crate::chars::{push_char, str_to_chars};

verus! {

/// A style colour; the alpha channel is inverted (255 fully transparent).
#[derive(PartialEq, Eq, Structural, Clone, Copy, Debug)]
pub struct AssaColour {
    pub alpha: Option<u8>,
    pub red: u8,
    pub green: u8,
    pub blue: u8,
}

/// The input was not `&H` plus eight or ten hex digits.
#[derive(PartialEq, Eq, Structural, Clone, Copy, Debug)]
pub struct MalformedColourError;

/// The value of a hex digit, or -1.
pub open spec fn spec_hex_val(c: char) -> int {
    if '0' <= c && c <= '9' {
        (c as int) - ('0' as int)
    } else if 'a' <= c && c <= 'f' {
        (c as int) - ('a' as int) + 10
    } else if 'A' <= c && c <= 'F' {
        (c as int) - ('A' as int) + 10
    } else {
        -1
    }
}

/// The byte written as two hex digits at position `i`, or -1.
pub open spec fn spec_hex_byte(s: Seq<char>, i: int) -> int {
    if 0 <= i && i + 2 <= s.len() && spec_hex_val(s[i]) >= 0 && spec_hex_val(s[i + 1]) >= 0 {
        16 * spec_hex_val(s[i]) + spec_hex_val(s[i + 1])
    } else {
        -1
    }
}

/// The colour a string parses to, if any: `&H` + ABGR or `&H` + BGR, two
/// uppercase-or-lowercase hex digits per channel.
pub open spec fn spec_parse_colour(s: Seq<char>) -> Option<AssaColour> {
    if s.len() >= 2 && s[0] == '&' && s[1] == 'H' {
        if s.len() == 10 && spec_hex_byte(s, 2) >= 0 && spec_hex_byte(s, 4) >= 0 && spec_hex_byte(
            s,
            6,
        ) >= 0 && spec_hex_byte(s, 8) >= 0 {
            Some(
                AssaColour {
                    alpha: Some(spec_hex_byte(s, 2) as u8),
                    blue: spec_hex_byte(s, 4) as u8,
                    green: spec_hex_byte(s, 6) as u8,
                    red: spec_hex_byte(s, 8) as u8,
                },
            )
        } else if s.len() == 8 && spec_hex_byte(s, 2) >= 0 && spec_hex_byte(s, 4) >= 0
            && spec_hex_byte(s, 6) >= 0 {
            Some(
                AssaColour {
                    alpha: None,
                    blue: spec_hex_byte(s, 2) as u8,
                    green: spec_hex_byte(s, 4) as u8,
                    red: spec_hex_byte(s, 6) as u8,
                },
            )
        } else {
            None
        }
    } else {
        None
    }
}

/// The uppercase hex digit for a value below 16.
pub open spec fn spec_hex_digit(v: int) -> char {
    if v == 0 {
        '0'
    } else if v == 1 {
        '1'
    } else if v == 2 {
        '2'
    } else if v == 3 {
        '3'
    } else if v == 4 {
        '4'
    } else if v == 5 {
        '5'
    } else if v == 6 {
        '6'
    } else if v == 7 {
        '7'
    } else if v == 8 {
        '8'
    } else if v == 9 {
        '9'
    } else if v == 10 {
        'A'
    } else if v == 11 {
        'B'
    } else if v == 12 {
        'C'
    } else if v == 13 {
        'D'
    } else if v == 14 {
        'E'
    } else {
        'F'
    }
}

/// A byte as two uppercase hex digits.
pub open spec fn spec_hex_pair(b: int) -> Seq<char> {
    seq![spec_hex_digit(b / 16), spec_hex_digit(b % 16)]
}

/// `&H` + AABBGGRR with a zero alpha when none is set.
pub open spec fn spec_to_abgr(c: AssaColour) -> Seq<char> {
    seq!['&', 'H'] + spec_hex_pair(
        (match c.alpha {
            Some(a) => a as int,
            None => 0,
        }),
    ) + spec_hex_pair(c.blue as int) + spec_hex_pair(c.green as int) + spec_hex_pair(c.red as int)
}

/// `&H` + BBGGRR.
pub open spec fn spec_to_bgr(c: AssaColour) -> Seq<char> {
    seq!['&', 'H'] + spec_hex_pair(c.blue as int) + spec_hex_pair(c.green as int) + spec_hex_pair(
        c.red as int,
    )
}

/// The serialised form: ABGR when the alpha channel is set, BGR otherwise.
pub open spec fn spec_colour_string(c: AssaColour) -> Seq<char> {
    match c.alpha {
        Some(_) => spec_to_abgr(c),
        None => spec_to_bgr(c),
    }
}

fn hex_digit_exec(v: u8) -> (r: char)
    requires
        v < 16,
    ensures
        r == spec_hex_digit(v as int),
{
    if v == 0 {
        '0'
    } else if v == 1 {
        '1'
    } else if v == 2 {
        '2'
    } else if v == 3 {
        '3'
    } else if v == 4 {
        '4'
    } else if v == 5 {
        '5'
    } else if v == 6 {
        '6'
    } else if v == 7 {
        '7'
    } else if v == 8 {
        '8'
    } else if v == 9 {
        '9'
    } else if v == 10 {
        'A'
    } else if v == 11 {
        'B'
    } else if v == 12 {
        'C'
    } else if v == 13 {
        'D'
    } else if v == 14 {
        'E'
    } else {
        'F'
    }
}

fn push_hex_pair(s: &mut String, b: u8)
    ensures
        final(s)@ == old(s)@ + spec_hex_pair(b as int),
{
    push_char(s, hex_digit_exec(b / 16));
    push_char(s, hex_digit_exec(b % 16));
    proof {
        assert(final(s)@ =~= old(s)@ + spec_hex_pair(b as int));
    }
}

fn hex_val_exec(c: char) -> (r: i8)
    ensures
        r as int == spec_hex_val(c),
        -1 <= r <= 15,
{
    if '0' <= c && c <= '9' {
        ((c as u32) - ('0' as u32)) as i8
    } else if 'a' <= c && c <= 'f' {
        ((c as u32) - ('a' as u32) + 10) as i8
    } else if 'A' <= c && c <= 'F' {
        ((c as u32) - ('A' as u32) + 10) as i8
    } else {
        -1
    }
}

fn hex_byte_exec(v: &Vec<char>, i: usize) -> (r: i16)
    requires
        i + 2 <= v@.len(),
    ensures
        r as int == spec_hex_byte(v@, i as int),
{
    let n = v.len();
    proof {
        assert(i + 2 <= n);
    }
    let hi = hex_val_exec(v[i]);
    let lo = hex_val_exec(v[i + 1]);
    if hi >= 0 && lo >= 0 {
        16 * (hi as i16) + (lo as i16)
    } else {
        -1
    }
}

impl AssaColour {
    /// `&H` + AABBGGRR; a missing alpha channel prints as zero.
    pub fn to_abgr(&self) -> (r: String)
        ensures
            r@ == spec_to_abgr(*self),
    {
        let mut s = String::new();
        push_char(&mut s, '&');
        push_char(&mut s, 'H');
        let a = match self.alpha {
            Some(a) => a,
            None => 0,
        };
        push_hex_pair(&mut s, a);
        push_hex_pair(&mut s, self.blue);
        push_hex_pair(&mut s, self.green);
        push_hex_pair(&mut s, self.red);
        proof {
            assert(s@ =~= spec_to_abgr(*self));
        }
        s
    }

    /// `&H` + BBGGRR, without the alpha channel.
    pub fn to_bgr(&self) -> (r: String)
        ensures
            r@ == spec_to_bgr(*self),
    {
        let mut s = String::new();
        push_char(&mut s, '&');
        push_char(&mut s, 'H');
        push_hex_pair(&mut s, self.blue);
        push_hex_pair(&mut s, self.green);
        push_hex_pair(&mut s, self.red);
        proof {
            assert(s@ =~= spec_to_bgr(*self));
        }
        s
    }

    /// The serialised colour: ABGR or BGR depending on the alpha channel.
    pub fn to_assa_string(&self) -> (r: String)
        ensures
            r@ == spec_colour_string(*self),
    {
        match self.alpha {
            Some(_) => self.to_abgr(),
            None => self.to_bgr(),
        }
    }

    /// Parse `&H` + ABGR or `&H` + BGR.
    pub fn from_str(s: &str) -> (r: Result<AssaColour, MalformedColourError>)
        ensures
            match r {
                Ok(c) => spec_parse_colour(s@) == Some(c),
                Err(_) => spec_parse_colour(s@) is None,
            },
    {
        let v = str_to_chars(s);
        let n = v.len();
        if n < 2 || v[0] != '&' || v[1] != 'H' {
            return Err(MalformedColourError);
        }
        if n == 10 {
            let a = hex_byte_exec(&v, 2);
            let b = hex_byte_exec(&v, 4);
            let g = hex_byte_exec(&v, 6);
            let r = hex_byte_exec(&v, 8);
            if a >= 0 && b >= 0 && g >= 0 && r >= 0 {
                Ok(
                    AssaColour {
                        alpha: Some(a as u8),
                        blue: b as u8,
                        green: g as u8,
                        red: r as u8,
                    },
                )
            } else {
                Err(MalformedColourError)
            }
        } else if n == 8 {
            let b = hex_byte_exec(&v, 2);
            let g = hex_byte_exec(&v, 4);
            let r = hex_byte_exec(&v, 6);
            if b >= 0 && g >= 0 && r >= 0 {
                Ok(AssaColour { alpha: None, blue: b as u8, green: g as u8, red: r as u8 })
            } else {
                Err(MalformedColourError)
            }
        } else {
            Err(MalformedColourError)
        }
    }
}

} // verus!
