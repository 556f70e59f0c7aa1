//! The `[Aegisub Project Garbage]` section: editor metadata kept only so
//! that a file round-trips.

use vstd::prelude::*;
use crate::alignment::text_processor::{spec_trim, trim_chars};
use crate::assa_file::event::push_uint;
use crate::assa_file::{
    parse_uint, is_decimal, spec_is_decimal, spec_parse_uint, spec_split_by, split_by, sub_chars,
};
use crate::chars::{chars_to_string, push_char, str_to_chars};
use vstd::string::StringExecFns;

verus! {

/// A section line could not be read.
#[derive(PartialEq, Eq, Structural, Clone, Copy, Debug)]
pub enum MalformedProjectGarbageError {
    /// A line had no key, or a numeric value would not parse.
    ParseError,
}

/// The remembered editor state; unknown keys are ignored.  The zoom factor
/// is kept as validated decimal text.
#[derive(Debug)]
pub struct ProjectGarbage {
    pub last_style_storage: Option<String>,
    pub audio_file: Option<String>,
    pub video_file: Option<String>,
    pub video_position: Option<u16>,
    pub video_zoom_percent: Option<String>,
}

/// A line without its trailing carriage return.
pub open spec fn spec_strip_cr(l: Seq<char>) -> Seq<char> {
    if l.len() > 0 && l.last() == '\r' {
        l.drop_last()
    } else {
        l
    }
}

/// First position of `": "` in the line.
pub open spec fn spec_find_key_sep(l: Seq<char>) -> Option<int>
    decreases l.len(),
{
    if l.len() < 2 {
        None
    } else if l[0] == ':' && l[1] == ' ' {
        Some(0int)
    } else {
        match spec_find_key_sep(l.drop_first()) {
            Some(i) => Some(i + 1),
            None => None,
        }
    }
}

/// The section's lines: the trimmed text split at newlines, carriage
/// returns dropped, without the header line.
pub open spec fn spec_garbage_lines(s: Seq<char>) -> Seq<Seq<char>> {
    spec_split_by(spec_trim(s), '\n').map_values(|l: Seq<char>| spec_strip_cr(l)).drop_first()
}

/// Every line after the header has a `": "` separator, and the numeric
/// values parse.
pub open spec fn spec_garbage_line_ok(l: Seq<char>) -> bool {
    match spec_find_key_sep(l) {
        None => false,
        Some(i) => {
            let key = l.take(i);
            let value = l.skip(i + 2);
            if key =~= "Video Position"@ {
                spec_parse_uint(spec_trim(value), 65535) is Some
            } else if key =~= "Video Zoom Percent"@ {
                spec_is_decimal(spec_trim(value))
            } else {
                true
            }
        },
    }
}

pub open spec fn spec_garbage_ok(s: Seq<char>) -> bool {
    forall|i: int|
        0 <= i < spec_garbage_lines(s).len() ==> spec_garbage_line_ok(
            #[trigger] spec_garbage_lines(s)[i],
        )
}

impl Default for ProjectGarbage {
    /// The state a fresh editor would save.
    fn default() -> (r: ProjectGarbage)
        ensures
            r.last_style_storage is Some && r.last_style_storage->Some_0@ == "Default"@,
            r.audio_file is None,
            r.video_file is None,
            r.video_position is None,
            r.video_zoom_percent is Some && r.video_zoom_percent->Some_0@ == "1.0"@,
    {
        ProjectGarbage {
            last_style_storage: Some("Default".to_owned()),
            audio_file: None,
            video_file: None,
            video_position: None,
            video_zoom_percent: Some("1.0".to_owned()),
        }
    }
}

impl ProjectGarbage {

    /// Parse the section.  Known keys overwrite the defaults in order;
    /// unknown keys are ignored; a line without a key separator or with an
    /// unreadable numeric value fails the whole section.
    pub fn from_str(s: &str) -> (r: Result<ProjectGarbage, MalformedProjectGarbageError>)
        ensures
            r is Ok <==> spec_garbage_ok(s@),
    {
        let v = str_to_chars(s);
        let t = trim_chars(&v);
        let raw_lines = split_by(&t, '\n');
        let ghost glines = spec_garbage_lines(v@);
        proof {
            assert(raw_lines.deep_view().len() == raw_lines@.len());
            assert(glines.len() == raw_lines@.len() - 1);
        }
        let mut g = ProjectGarbage::default();
        let nl = raw_lines.len();
        let mut li: usize = 1;
        while li < nl
            invariant
                v@ == s@,
                1 <= li <= nl,
                nl == raw_lines@.len(),
                raw_lines.deep_view() == spec_split_by(spec_trim(v@), '\n'),
                glines == spec_garbage_lines(v@),
                glines.len() == nl - 1,
                forall|k: int| 0 <= k < li - 1 ==> spec_garbage_line_ok(#[trigger] glines[k]),
            decreases nl - li,
        {
            let raw = &raw_lines[li];
            // drop a trailing carriage return
            let rl = raw.len();
            let line = if rl > 0 && raw[rl - 1] == '\r' {
                sub_chars(raw, 0, rl - 1)
            } else {
                sub_chars(raw, 0, rl)
            };
            proof {
                assert(raw_lines.deep_view()[li as int] == raw_lines@[li as int]@);
                assert(glines[li as int - 1] == spec_strip_cr(raw_lines.deep_view()[li as int]));
                if rl > 0 && raw@[rl - 1] == '\r' {
                    assert(line@ =~= spec_strip_cr(raw@));
                } else {
                    assert(line@ =~= spec_strip_cr(raw@));
                }
            }
            // find the ": " separator
            let n2 = line.len();
            let mut sep: Option<usize> = None;
            let mut j: usize = 0;
            proof {
                assert(line@.skip(0) =~= line@);
            }
            loop
                invariant_except_break
                    j <= n2,
                    sep is None,
                invariant
                    n2 == line@.len(),
                    spec_find_key_sep(line@) == (match spec_find_key_sep(line@.skip(j as int)) {
                        Some(k) => Some(k + j),
                        None => None::<int>,
                    }),
                ensures
                    match sep {
                        None => spec_find_key_sep(line@) is None,
                        Some(k) => spec_find_key_sep(line@) == Some(k as int) && k + 2 <= n2,
                    },
                decreases n2 - j,
            {
                if n2 < 2 || j > n2 - 2 {
                    proof {
                        assert(line@.skip(j as int).len() < 2);
                    }
                    break ;
                }
                proof {
                    assert(line@.skip(j as int)[0] == line@[j as int]);
                    assert(line@.skip(j as int)[1] == line@[j + 1]);
                    assert(line@.skip(j as int).drop_first() =~= line@.skip(j + 1));
                }
                if line[j] == ':' && line[j + 1] == ' ' {
                    proof {
                        assert(spec_find_key_sep(line@.skip(j as int)) == Some(0int));
                    }
                    sep = Some(j);
                    break ;
                }
                j = j + 1;
            }
            let sep_at: usize = match sep {
                None => {
                    proof {
                        assert(spec_find_key_sep(line@) is None);
                        assert(!spec_garbage_line_ok(glines[li as int - 1]));
                        assert(spec_garbage_lines(s@)[li as int - 1] == glines[li as int - 1]);
                        assert(!spec_garbage_ok(s@));
                    }
                    return Err(MalformedProjectGarbageError::ParseError);
                },
                Some(k) => k,
            };
            let key = sub_chars(&line, 0, sep_at);
            let value = sub_chars(&line, sep_at + 2, n2);
            proof {
                assert(key@ =~= line@.take(sep_at as int));
                assert(value@ =~= line@.skip(sep_at as int + 2));
            }
            if eq_lit_last_style(&key) {
                g.last_style_storage = Some(chars_to_string(&value));
            } else if eq_lit_audio(&key) {
                g.audio_file = Some(chars_to_string(&value));
            } else if eq_lit_video(&key) {
                g.video_file = Some(chars_to_string(&value));
            } else if eq_lit_position(&key) {
                let tv = trim_chars(&value);
                match parse_uint(&tv, 65535) {
                    Some(x) => {
                        g.video_position = Some(x as u16);
                    },
                    None => {
                        proof {
                            assert(!spec_garbage_line_ok(glines[li as int - 1]));
                            assert(spec_garbage_lines(s@)[li as int - 1] == glines[li as int
                                - 1]);
                            assert(!spec_garbage_ok(s@));
                        }
                        return Err(MalformedProjectGarbageError::ParseError);
                    },
                }
            } else if eq_lit_zoom(&key) {
                let tv = trim_chars(&value);
                if is_decimal(&tv) {
                    g.video_zoom_percent = Some(chars_to_string(&tv));
                } else {
                    proof {
                        assert(!spec_garbage_line_ok(glines[li as int - 1]));
                        assert(spec_garbage_lines(s@)[li as int - 1] == glines[li as int - 1]);
                        assert(!spec_garbage_ok(s@));
                    }
                    return Err(MalformedProjectGarbageError::ParseError);
                }
            }
            proof {
                reveal_strlit("Last Style Storage");
                reveal_strlit("Audio File");
                reveal_strlit("Video File");
                reveal_strlit("Video Position");
                reveal_strlit("Video Zoom Percent");
                assert("Last Style Storage"@[0] == 'L' && "Video Zoom Percent"@[0] == 'V'
                    && "Video Position"@[0] == 'V');
                assert(!("Last Style Storage"@ =~= "Video Position"@));
                assert(!("Last Style Storage"@ =~= "Video Zoom Percent"@));
                assert(!("Audio File"@ =~= "Video Position"@));
                assert(!("Audio File"@ =~= "Video Zoom Percent"@));
                assert(!("Video File"@ =~= "Video Position"@));
                assert(!("Video File"@ =~= "Video Zoom Percent"@));
                assert(spec_garbage_line_ok(glines[li as int - 1]));
            }
            li = li + 1;
        }
        proof {
            assert forall|i: int|
                0 <= i < spec_garbage_lines(s@).len() implies spec_garbage_line_ok(
                #[trigger] spec_garbage_lines(s@)[i],
            ) by {
                assert(spec_garbage_lines(s@)[i] == glines[i]);
            }
        }
        Ok(g)
    }
}

fn eq_lit_last_style(v: &Vec<char>) -> (r: bool)
    ensures
        r == (v@ =~= "Last Style Storage"@),
{
    proof {
        reveal_strlit("Last Style Storage");
    }
    let ok = v.len() == 18 && v[0] == 'L' && v[1] == 'a' && v[2] == 's' && v[3] == 't' && v[4]
        == ' ' && v[5] == 'S' && v[6] == 't' && v[7] == 'y' && v[8] == 'l' && v[9] == 'e' && v[10]
        == ' ' && v[11] == 'S' && v[12] == 't' && v[13] == 'o' && v[14] == 'r' && v[15] == 'a'
        && v[16] == 'g' && v[17] == 'e';
    proof {
        if ok {
            assert(v@ =~= "Last Style Storage"@);
        } else {
            assert(!(v@ =~= "Last Style Storage"@));
        }
    }
    ok
}

fn eq_lit_audio(v: &Vec<char>) -> (r: bool)
    ensures
        r == (v@ =~= "Audio File"@),
{
    proof {
        reveal_strlit("Audio File");
    }
    let ok = v.len() == 10 && v[0] == 'A' && v[1] == 'u' && v[2] == 'd' && v[3] == 'i' && v[4]
        == 'o' && v[5] == ' ' && v[6] == 'F' && v[7] == 'i' && v[8] == 'l' && v[9] == 'e';
    proof {
        if ok {
            assert(v@ =~= "Audio File"@);
        } else {
            assert(!(v@ =~= "Audio File"@));
        }
    }
    ok
}

fn eq_lit_video(v: &Vec<char>) -> (r: bool)
    ensures
        r == (v@ =~= "Video File"@),
{
    proof {
        reveal_strlit("Video File");
    }
    let ok = v.len() == 10 && v[0] == 'V' && v[1] == 'i' && v[2] == 'd' && v[3] == 'e' && v[4]
        == 'o' && v[5] == ' ' && v[6] == 'F' && v[7] == 'i' && v[8] == 'l' && v[9] == 'e';
    proof {
        if ok {
            assert(v@ =~= "Video File"@);
        } else {
            assert(!(v@ =~= "Video File"@));
        }
    }
    ok
}

fn eq_lit_position(v: &Vec<char>) -> (r: bool)
    ensures
        r == (v@ =~= "Video Position"@),
{
    proof {
        reveal_strlit("Video Position");
    }
    let ok = v.len() == 14 && v[0] == 'V' && v[1] == 'i' && v[2] == 'd' && v[3] == 'e' && v[4]
        == 'o' && v[5] == ' ' && v[6] == 'P' && v[7] == 'o' && v[8] == 's' && v[9] == 'i' && v[10]
        == 't' && v[11] == 'i' && v[12] == 'o' && v[13] == 'n';
    proof {
        if ok {
            assert(v@ =~= "Video Position"@);
        } else {
            assert(!(v@ =~= "Video Position"@));
        }
    }
    ok
}

fn eq_lit_zoom(v: &Vec<char>) -> (r: bool)
    ensures
        r == (v@ =~= "Video Zoom Percent"@),
{
    proof {
        reveal_strlit("Video Zoom Percent");
    }
    let ok = v.len() == 18 && v[0] == 'V' && v[1] == 'i' && v[2] == 'd' && v[3] == 'e' && v[4]
        == 'o' && v[5] == ' ' && v[6] == 'Z' && v[7] == 'o' && v[8] == 'o' && v[9] == 'm' && v[10]
        == ' ' && v[11] == 'P' && v[12] == 'e' && v[13] == 'r' && v[14] == 'c' && v[15] == 'e'
        && v[16] == 'n' && v[17] == 't';
    proof {
        if ok {
            assert(v@ =~= "Video Zoom Percent"@);
        } else {
            assert(!(v@ =~= "Video Zoom Percent"@));
        }
    }
    ok
}

/// The serialised section: only the fields the format writes back.
pub open spec fn spec_garbage_string(g: ProjectGarbage) -> Seq<char> {
    let base = "[Aegisub Project Garbage]"@;
    let a = if g.last_style_storage is Some {
        seq!['\n'] + "Last Style Storage: "@ + g.last_style_storage->Some_0@
    } else {
        Seq::<char>::empty()
    };
    let b = if g.audio_file is Some {
        seq!['\n'] + "Audio File: "@ + g.audio_file->Some_0@
    } else {
        Seq::<char>::empty()
    };
    let c = if g.video_file is Some {
        seq!['\n'] + "Video File: "@ + g.video_file->Some_0@
    } else {
        Seq::<char>::empty()
    };
    let d = if g.video_position is Some {
        seq!['\n'] + "Video Position: "@ + crate::assa_file::event::spec_dec(
            g.video_position->Some_0 as int,
        )
    } else {
        Seq::<char>::empty()
    };
    base + a + b + c + d
}

impl ProjectGarbage {
    /// Serialise the section (the zoom factor is editor-private and is not
    /// written back, matching the format).
    pub fn to_assa_string(&self) -> (r: String)
        ensures
            r@ == spec_garbage_string(*self),
    {
        let mut s = String::new();
        s.append("[Aegisub Project Garbage]");
        proof {
            reveal_strlit("[Aegisub Project Garbage]");
        }
        match &self.last_style_storage {
            Some(x) => {
                push_char(&mut s, '\n');
                s.append("Last Style Storage: ");
                proof {
                    reveal_strlit("Last Style Storage: ");
                }
                s.append(x.as_str());
            },
            None => {},
        }
        match &self.audio_file {
            Some(x) => {
                push_char(&mut s, '\n');
                s.append("Audio File: ");
                proof {
                    reveal_strlit("Audio File: ");
                }
                s.append(x.as_str());
            },
            None => {},
        }
        match &self.video_file {
            Some(x) => {
                push_char(&mut s, '\n');
                s.append("Video File: ");
                proof {
                    reveal_strlit("Video File: ");
                }
                s.append(x.as_str());
            },
            None => {},
        }
        match &self.video_position {
            Some(x) => {
                push_char(&mut s, '\n');
                s.append("Video Position: ");
                proof {
                    reveal_strlit("Video Position: ");
                }
                push_uint(&mut s, *x as u64);
            },
            None => {},
        }
        proof {
            assert(s@ =~= spec_garbage_string(*self));
        }
        s
    }
}

} // verus!
