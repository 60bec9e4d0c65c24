use rust_video_editor::ass::{build_ass_script, escape_ass_text};
use rust_video_editor::subtitle::{parse_srt_to_items, srt_times_fit, SubtitleItem};

fn parsed(srt: &str) -> Vec<(u64, u64, String)> {
    assert!(srt_times_fit(srt));
    parse_srt_to_items(srt).into_iter().map(|i| (i.start_ms, i.end_ms, i.text)).collect()
}

fn item(start: u64, end: u64, text: &str) -> (u64, u64, String) {
    (start, end, text.to_string())
}

const EXAMPLE: &str =
    "1\n00:00:01,000 --> 00:00:03,000\nこんにちは\n\n2\n00:00:04,000 --> 00:00:06,000\n字幕だよ";

#[test]
fn the_example_of_the_hint() {
    assert_eq!(
        parsed(EXAMPLE),
        vec![item(1000, 3000, "こんにちは"), item(4000, 6000, "字幕だよ")]
    );
}

#[test]
fn nothing_in_nothing_out() {
    assert!(parsed("").is_empty());
    assert!(parsed("\n\n  \n").is_empty());
    assert!(parsed("1\nno times here\n").is_empty());
}

#[test]
fn line_endings_do_not_matter() {
    assert_eq!(parsed(&EXAMPLE.replace('\n', "\r\n")), parsed(EXAMPLE));
    assert_eq!(parsed(&format!("{}\n", EXAMPLE)), parsed(EXAMPLE));
}

#[test]
fn several_lines_of_text() {
    assert_eq!(
        parsed("00:01 --> 00:02\n  first \n second\n\nignored"),
        vec![item(1000, 2000, "first\nsecond")]
    );
}

#[test]
fn digits_are_text_inside_a_cue() {
    assert_eq!(parsed("1\n00:01 --> 00:02\n2024\n"), vec![item(1000, 2000, "2024")]);
}

#[test]
fn index_lines_are_ignored() {
    assert_eq!(parsed("17\n00:01 --> 00:02\nx"), parsed("00:01 --> 00:02\nx"));
}

#[test]
fn a_timecode_line_closes_the_cue_before() {
    assert_eq!(
        parsed("00:01 --> 00:02\na\n00:03 --> 00:04\nb"),
        vec![item(1000, 2000, "a"), item(3000, 4000, "b")]
    );
}

#[test]
fn cues_must_have_text_and_end_later() {
    assert!(parsed("00:01 --> 00:02\n\ntext").is_empty());
    assert!(parsed("00:02 --> 00:02\ntext").is_empty());
    assert!(parsed("00:03 --> 00:02\ntext").is_empty());
}

#[test]
fn bad_times_drop_the_cue() {
    assert_eq!(
        parsed("x --> 00:02\nlost\n\n00:03 --> 00:04\nkept"),
        vec![item(3000, 4000, "kept")]
    );
    assert!(parsed("00:01 --> \nlost").is_empty());
    assert!(parsed("-->\nlost").is_empty());
}

#[test]
fn what_follows_a_second_arrow_is_ignored() {
    assert_eq!(parsed("00:01 --> 00:02 --> 00:09\nx"), vec![item(1000, 2000, "x")]);
}

#[test]
fn a_blank_line_separates() {
    let a = "1\n00:01 --> 00:02\na";
    let b = "2\n00:03 --> 00:04\nb\nc";
    let mut both = parsed(a);
    both.extend(parsed(b));
    assert_eq!(parsed(&format!("{}\n\n{}", a, b)), both);
}

#[test]
fn a_timecode_line_separates() {
    let a = "1\n00:01 --> 00:02\na";
    for b in ["00:03 --> 00:04\nb", "x --> y\nlost", " --> "] {
        let mut both = parsed(a);
        both.extend(parsed(b));
        assert_eq!(parsed(&format!("{}\n{}", a, b)), both);
    }
}

fn stamp(ms: u64) -> String {
    let s = ms / 1000;
    format!("{:02}:{:02}:{:02},{:03}", s / 3600, s / 60 % 60, s % 60, ms % 1000)
}

#[test]
fn written_cues_are_read() {
    let items = vec![
        item(5000, 9001, "first\nsecond"),
        item(0, 1, "12"),
        item(5000, 9001, "first\nsecond"),
        item(359999999, 360000000, "字幕 - -> だよ"),
        item(7, u64::MAX, "x"),
    ];
    let mut srt = String::new();
    for (i, (start, end, text)) in items.iter().enumerate() {
        srt.push_str(&format!("{}\n{} --> {}\n{}\n\n", i + 1, stamp(*start), stamp(*end), text));
    }
    assert_eq!(parsed(&srt), items);
    assert!(parsed("").is_empty());
}

#[test]
fn times_that_do_not_fit_are_found() {
    assert!(srt_times_fit(EXAMPLE));
    assert!(srt_times_fit("18446744073709551615:00:00"));
    assert!(!srt_times_fit("a\n18446744073709551615:00:00 --> 00:01\nx"));
    assert!(!srt_times_fit("00:01 --> 18446744073709551615:00:00"));
    assert!(srt_times_fit("00:01,00000000000000000000000 --> 00:02\nx"));
}

#[test]
fn ass_text_is_escaped() {
    assert_eq!(escape_ass_text("a{b}c\nd\\e"), "a\\{b\\}c\\Nd\\e");
    assert_eq!(escape_ass_text("字幕"), "字幕");
    assert_eq!(escape_ass_text(""), "");
}

#[test]
fn the_whole_script() {
    let items = vec![
        SubtitleItem { start_ms: 1000, end_ms: 3000, text: "a\nb".to_string() },
        SubtitleItem { start_ms: 3723456, end_ms: 3730000, text: "{x}".to_string() },
    ];
    let expected = "[Script Info]\nScriptType: v4.00+\nPlayResX: 1920\nPlayResY: 1\nScaledBorderAndShadow: yes\n\n[V4+ Styles]\nFormat: Name, Fontname, Fontsize, PrimaryColour, SecondaryColour, OutlineColour, BackColour, Bold, Italic, Underline, StrikeOut, ScaleX, ScaleY, Spacing, Angle, BorderStyle, Outline, Shadow, Alignment, MarginL, MarginR, MarginV, Encoding\nStyle: Default,keifont,48,&H00FFFFFF,&H000000FF,&H00000000,&H64000000,0,0,0,0,100,100,0,0,1,2,0,2,40,40,40,1\n\n[Events]\nFormat: Layer, Start, End, Style, Name, MarginL, MarginR, MarginV, Effect, Text\nDialogue: 0,0:00:01.00,0:00:03.00,Default,,0,0,0,,a\\Nb\nDialogue: 0,1:02:03.45,1:02:10.00,Default,,0,0,0,,\\{x\\}\n";
    assert_eq!(build_ass_script((1920, 0), &items), expected);
}
