use rust_video_editor::text::chars_of;
use rust_video_editor::timecode::{
    ass_time_from_ms, parse_srt_time_ms, read_srt_time, TimeReading,
};

#[test]
fn the_four_forms() {
    assert_eq!(parse_srt_time_ms("01:02:03,456"), Some(3723456));
    assert_eq!(parse_srt_time_ms("01:02:03.456"), Some(3723456));
    assert_eq!(parse_srt_time_ms("02:03,456"), Some(123456));
    assert_eq!(parse_srt_time_ms("02:03.456"), Some(123456));
}

#[test]
fn fraction_is_optional_and_scaled() {
    assert_eq!(parse_srt_time_ms("00:00:01"), Some(1000));
    assert_eq!(parse_srt_time_ms("00:00:01,"), Some(1000));
    assert_eq!(parse_srt_time_ms("00:00:01,5"), Some(1500));
    assert_eq!(parse_srt_time_ms("00:00:01,05"), Some(1050));
    assert_eq!(parse_srt_time_ms("00:00:01,005"), Some(1005));
    assert_eq!(parse_srt_time_ms("00:00:01,9999"), Some(1999));
    assert_eq!(parse_srt_time_ms("00:00:01,123456789"), Some(1123));
    assert_eq!(parse_srt_time_ms("00:00:01,5x9"), Some(1500));
    assert_eq!(parse_srt_time_ms("00:00:01,x"), Some(1000));
}

#[test]
fn fields_are_not_limited_and_may_be_surrounded() {
    assert_eq!(parse_srt_time_ms(" 1 : 75 : 90 "), Some((3600 + 75 * 60 + 90) * 1000));
    assert_eq!(parse_srt_time_ms("+1:+2"), Some(62000));
    assert_eq!(parse_srt_time_ms("\u{3000}00:01\t"), Some(1000));
}

#[test]
fn what_is_no_timecode() {
    for s in ["", "  ", "12", "1:2:3:4", "a:b", ":", "1:", "-1:00", "1.5:00"] {
        assert_eq!(parse_srt_time_ms(s), None, "{:?}", s);
    }
}

#[test]
fn the_last_mark_counts() {
    assert_eq!(parse_srt_time_ms("00:01,2.5"), None);
    assert_eq!(parse_srt_time_ms("00:01.5"), Some(1500));
}

#[test]
fn times_beyond_64_bits_are_told_apart() {
    assert!(matches!(
        read_srt_time(&chars_of("18446744073709551615:00:00")),
        TimeReading::OutOfRange
    ));
    assert!(matches!(
        read_srt_time(&chars_of("0:18446744073709551,615")),
        TimeReading::Millis(u64::MAX)
    ));
    assert!(matches!(
        read_srt_time(&chars_of("0:18446744073709551,616")),
        TimeReading::OutOfRange
    ));
    assert!(matches!(read_srt_time(&chars_of("x")), TimeReading::Malformed));
}

#[test]
fn long_fractions_are_cut_off() {
    assert_eq!(parse_srt_time_ms("00:00:01,123456789012345678901"), Some(1123));
    assert_eq!(parse_srt_time_ms("00:00:01,99999999999999999999"), Some(1999));
    assert_eq!(parse_srt_time_ms("00:00:01,00000000000000000000001"), Some(1000));
    assert_eq!(parse_srt_time_ms("00:00:01,0000000000000000000001"), Some(1000));
    assert_eq!(parse_srt_time_ms(&format!("0:1.{}", "7".repeat(1000))), Some(1777));
}

#[test]
fn comma_and_dot_mean_the_same() {
    for s in ["01:02:03,456", "02:03,4", " 1:2, ", "00:01,2,5", "1,5:00", "1:2:3", ",", ""] {
        assert_eq!(parse_srt_time_ms(&s.replace(',', ".")), parse_srt_time_ms(s), "{:?}", s);
    }
}

#[test]
fn hours_may_be_left_out() {
    for s in ["02:03,456", "2:3", "  2 : 3.4 ", "a:b", ":", "+1:+2", "\u{3000}1:1\r"] {
        assert_eq!(parse_srt_time_ms(&format!("00:{}", s)), parse_srt_time_ms(s), "{:?}", s);
    }
    assert_eq!(parse_srt_time_ms("00:02:03,456"), Some(123456));
}

#[test]
fn ass_timestamps() {
    assert_eq!(ass_time_from_ms(0), "0:00:00.00");
    assert_eq!(ass_time_from_ms(9), "0:00:00.00");
    assert_eq!(ass_time_from_ms(3723456), "1:02:03.45");
    assert_eq!(ass_time_from_ms(359999999), "99:59:59.99");
    assert_eq!(ass_time_from_ms(360000000), "100:00:00.00");
}

#[test]
fn ass_timestamps_read_back() {
    for ms in [0, 7, 10, 999, 1000, 59999, 60000, 3599999, 3600000, 123456789, u64::MAX] {
        assert_eq!(parse_srt_time_ms(&ass_time_from_ms(ms)), Some(ms - ms % 10));
    }
}
