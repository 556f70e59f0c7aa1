use assa_merger::assa_file::assa_colour::{AssaColour, MalformedColourError};
use assa_merger::assa_file::event::{parse_time, Event};
use assa_merger::assa_file::project_garbage::ProjectGarbage;
use assa_merger::assa_file::style::{MalformedStyleError, Style};
use assa_merger::assa_file::AssaFile;
use assa_merger::event_processor::{filter_events_by_style, get_text_of_events};
use chrono::Timelike;

#[test]
fn from_str_test() {
    let valid_style_string = "Style: Default,LTFinnegan Medium,52,&H00FFFFFF,&H000000FF,&H00000000,&HC0000000,-1,0,0,0,100,100,0,0,1,2,1.5,2,110,110,30,1";
    let colour_error_string = "Style: Default,LTFinnegan Medium,52,00FFFFFF,&H000000FF,&H00000000,&HC0000000,0,0,0,0,100,100,0,0,1,2,1.5,2,110,110,30,1";
    let colour_error_string_2 = "Style: Default,LTFinnegan Medium,52,&H00FFXFFF,&H000000FF,&H00000000,&HC0000000,0,0,0,0,100,100,0,0,1,2,1.5,2,110,110,30,1";
    let format_error_string = "Style: LTFinnegan Medium,52,&H00FFFFFF,&H000000FF,&H00000000,&HC0000000,0,0,0,0,100,100,0,0,1,2,1.5,2,110,110,30,1";
    let parse_error_string = "Style: Default,LTFinnegan Medium,VERY_LARGE,&H00FFFFFF,&H000000FF,&H00000000,&HC0000000,0,0,0,0,100,100,0,0,1,2,1.5,2,110,110,30,1";

    assert!(Style::from_str(valid_style_string).is_ok());
    assert_eq!(
        Style::from_str(colour_error_string).unwrap_err(),
        MalformedStyleError::AssaColourError(MalformedColourError)
    );
    assert_eq!(
        Style::from_str(colour_error_string_2).unwrap_err(),
        MalformedStyleError::AssaColourError(MalformedColourError)
    );
    assert_eq!(
        Style::from_str(format_error_string).unwrap_err(),
        MalformedStyleError::FormatError
    );
    assert_eq!(
        Style::from_str(parse_error_string).unwrap_err(),
        MalformedStyleError::ParseError
    );
}

#[test]
fn style_round_trip() {
    let line = "Style: Default,LTFinnegan Medium,52,&H00FFFFFF,&H000000FF,&H00000000,&HC0000000,-1,0,0,0,100,100,0,0,1,2,1.5,2,110,110,30,1";
    let st = Style::from_str(line).unwrap();
    assert_eq!(st.name, "Default");
    assert_eq!(st.fontsize, 52);
    assert!(st.bold);
    assert!(!st.italic);
    assert_eq!(st.spacing, "0");
    assert_eq!(st.outline, "2");
    assert_eq!(st.shadow, "1.5");
    assert_eq!(st.to_assa_string(), line);
}

#[test]
fn colour_parsing_and_formatting() {
    let c = AssaColour::from_str("&HC0102030").unwrap();
    assert_eq!(c.alpha, Some(0xC0));
    assert_eq!(c.blue, 0x10);
    assert_eq!(c.green, 0x20);
    assert_eq!(c.red, 0x30);
    assert_eq!(c.to_abgr(), "&HC0102030");
    assert_eq!(c.to_bgr(), "&H102030");
    let short = AssaColour::from_str("&Hab01ff").unwrap();
    assert_eq!(short.alpha, None);
    assert_eq!(short.to_assa_string(), "&HAB01FF");
    assert!(AssaColour::from_str("102030").is_err());
    assert!(AssaColour::from_str("&H12345").is_err());
    assert!(AssaColour::from_str("&HGG0000FF").is_err());
}

#[test]
fn time_parsing_matches_reference_crate() {
    for s in ["0:00:02.28", "1:15:03.4", "23:59:59", "0:00:00.000"] {
        let v: Vec<char> = s.chars().collect();
        let ours = parse_time(&v).unwrap();
        let theirs = chrono::NaiveTime::parse_from_str(s, "%H:%M:%S%.f").unwrap();
        assert_eq!(ours.hours as u32, theirs.hour(), "hours differ for {s}");
        assert_eq!(ours.minutes as u32, theirs.minute(), "minutes differ for {s}");
        assert_eq!(ours.seconds as u32, theirs.second(), "seconds differ for {s}");
        assert_eq!(
            ours.centis as u32,
            theirs.nanosecond() / 10_000_000,
            "fraction differs for {s}"
        );
    }
    assert!(parse_time(&"25:00:00".chars().collect()).is_none());
    assert!(parse_time(&"0:61:00".chars().collect()).is_none());
    assert!(parse_time(&"banana".chars().collect()).is_none());
}

#[test]
fn event_parsing_and_duration() {
    let line = r#"Dialogue: 0,0:00:02.28,0:00:04.95,Default,,0,0,25,,Huh? That's odd..."#;
    let e = Event::from_str(line).unwrap();
    assert!(!e.comment);
    assert_eq!(e.layer, 0);
    assert_eq!(e.style, "Default");
    assert_eq!(e.margin_v, 25);
    assert_eq!(e.text, "Huh? That's odd...");
    assert_eq!(e.duration(), 267);
    assert_eq!(e.to_assa_string(), line);

    let c = Event::from_str(r#"Comment: 0,0:21:03.10,0:21:04.44,Default,,0,0,0,,{ED}"#).unwrap();
    assert!(c.comment);

    assert!(Event::from_str("Garbage: nope").is_err());
    assert!(Event::from_str("Dialogue: notanumber,0:0:0.0,0:0:0.0,a,,0,0,0,,t").is_err());
}

#[test]
fn project_garbage_parses_and_serialises() {
    let section = "[Aegisub Project Garbage]\nLast Style Storage: Default\nAudio File: ?video\nVideo File: intro.mkv\nVideo Position: 32031";
    let g = ProjectGarbage::from_str(section).unwrap();
    assert_eq!(g.last_style_storage.as_deref(), Some("Default"));
    assert_eq!(g.audio_file.as_deref(), Some("?video"));
    assert_eq!(g.video_file.as_deref(), Some("intro.mkv"));
    assert_eq!(g.video_position, Some(32031));
    assert_eq!(g.to_assa_string(), section);

    assert!(ProjectGarbage::from_str("[Aegisub Project Garbage]\nno separator here").is_err());
    assert!(
        ProjectGarbage::from_str("[Aegisub Project Garbage]\nVideo Position: not_a_number")
            .is_err()
    );
}

#[test]
fn whole_file_parses() {
    let content = "[Script Info]\nTitle: Example\nScriptType: v4.00+\n\n[V4+ Styles]\nFormat: Name, Fontname, Fontsize, PrimaryColour, SecondaryColour, OutlineColour, BackColour, Bold, Italic, Underline, StrikeOut, ScaleX, ScaleY, Spacing, Angle, BorderStyle, Outline, Shadow, Alignment, MarginL, MarginR, MarginV, Encoding\nStyle: Default,Arial,20,&H00FFFFFF,&H000000FF,&H00000000,&HC0000000,0,0,0,0,100,100,0,0,1,2,1.5,2,110,110,30,1\n\n[Events]\nFormat: Layer, Start, End, Style, Name, MarginL, MarginR, MarginV, Effect, Text\nDialogue: 0,0:00:02.28,0:00:04.95,Default,,0,0,25,,First line\nComment: 0,0:00:05.00,0:00:06.00,Default,,0,0,25,,{note}\nDialogue: 0,0:00:07.45,0:00:09.36,Default,,0,0,30,,Second line\n";
    let f = AssaFile::from_file_content(content).unwrap();
    assert_eq!(f.script_info, "[Script Info]\nTitle: Example\nScriptType: v4.00+");
    assert_eq!(f.styles.len(), 1);
    assert_eq!(f.events.len(), 3);
    assert_eq!(f.events[0].text, "First line");
    assert!(f.events[1].comment);

    let dialogue = filter_events_by_style(
        &f.events,
        &vec!["Default".to_string()],
        false,
    );
    assert_eq!(dialogue.len(), 2);
    let texts = get_text_of_events(&dialogue);
    assert_eq!(texts, vec!["First line".to_string(), "Second line".to_string()]);

    let out = f.to_file_string();
    assert!(out.contains("Dialogue: 0,0:00:02.28,0:00:04.95,Default,,0,0,25,,First line"));
    assert!(out.starts_with("[Script Info]"));

    // a file whose events section is broken fails as a whole
    let bad = "[Events]\nFormat: Layer, Start, End, Style, Name, MarginL, MarginR, MarginV, Effect, Text\nDialogue: zz,0:0:0.0,0:0:0.0,a,,0,0,0,,t\n";
    assert!(AssaFile::from_file_content(bad).is_err());
}
