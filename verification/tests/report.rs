use silcut::decimal::parse_seconds;
use silcut::ffmpeg::SilenceEvent;
use silcut::matcher::Expression;
use silcut::utils::{
    markers_of, pair_markers, parse_silence_events, parse_total_duration, read_markers,
    read_report, scan_report, LineMarkers, PatternError, END_PATTERN, START_PATTERN,
};

fn opening(text: &str) -> LineMarkers {
    LineMarkers { start: Some(text.to_string()), end: None }
}

fn closing(end: &str, duration: &str) -> LineMarkers {
    LineMarkers { start: None, end: Some((end.to_string(), duration.to_string())) }
}

#[test]
fn seconds_are_read_into_microseconds() {
    assert_eq!(parse_seconds("0"), Some(0));
    assert_eq!(parse_seconds("1.0"), Some(1_000_000));
    assert_eq!(parse_seconds("3.5"), Some(3_500_000));
    assert_eq!(parse_seconds("12.345678"), Some(12_345_678));
    assert_eq!(parse_seconds("007.25"), Some(7_250_000));
    assert_eq!(parse_seconds("47.62"), Some(47_620_000));
}

#[test]
fn seconds_may_lack_digits_on_one_side_of_the_point() {
    assert_eq!(parse_seconds("5."), Some(5_000_000));
    assert_eq!(parse_seconds(".5"), Some(500_000));
}

#[test]
fn digits_behind_the_sixth_place_do_not_count() {
    assert_eq!(parse_seconds("0.0000019"), Some(1));
    assert_eq!(parse_seconds("1.9999999"), Some(1_999_999));
}

#[test]
fn text_that_is_no_decimal_number_is_refused() {
    assert_eq!(parse_seconds(""), None);
    assert_eq!(parse_seconds("."), None);
    assert_eq!(parse_seconds("1.2.3"), None);
    assert_eq!(parse_seconds("-1"), None);
    assert_eq!(parse_seconds("1e3"), None);
    assert_eq!(parse_seconds(" 1"), None);
    assert_eq!(parse_seconds("N/A"), None);
    assert_eq!(parse_seconds("\u{661}"), None);
}

#[test]
fn seconds_too_large_for_the_clock_are_refused() {
    assert_eq!(parse_seconds("18446744073709.551615"), Some(u64::MAX));
    assert_eq!(parse_seconds("18446744073709.551616"), None);
    assert_eq!(parse_seconds("18446744073710"), None);
    assert_eq!(parse_seconds("99999999999999999999999999999999"), None);
}

#[test]
fn a_start_and_a_later_end_make_one_silence() {
    let text = "[silencedetect @ 0x1] silence_start: 1.0\nframe= 10\n[silencedetect @ 0x1] silence_end: 3.5 | silence_duration: 2.5\n";
    assert_eq!(
        parse_silence_events(text).unwrap(),
        vec![SilenceEvent { start: 1_000_000, end: 3_500_000, duration: 2_500_000 }]
    );
}

#[test]
fn a_start_without_an_end_makes_no_silence() {
    let text = "silence_start: 1.0\nsilence_end: 3.5 | silence_duration: 2.5\nsilence_start: 7.25\nsize=N/A\n";
    assert_eq!(
        parse_silence_events(text).unwrap(),
        vec![SilenceEvent { start: 1_000_000, end: 3_500_000, duration: 2_500_000 }]
    );
    assert_eq!(parse_silence_events("silence_start: 4.2\n").unwrap(), vec![]);
}

#[test]
fn an_end_without_a_start_makes_no_silence() {
    assert_eq!(
        parse_silence_events("silence_end: 3.5 | silence_duration: 2.5\n").unwrap(),
        vec![]
    );
}

#[test]
fn a_report_without_markers_holds_no_silence() {
    assert_eq!(parse_silence_events("").unwrap(), vec![]);
    assert_eq!(parse_silence_events("Duration: 00:00:10.00, start: 0\n").unwrap(), vec![]);
}

#[test]
fn silences_come_in_the_order_of_the_report() {
    let text = "silence_start: 0\r\nsilence_end: 2.5 | silence_duration: 2.5\r\nsilence_start: 10.125\r\nsilence_end: 12 | silence_duration: 1.875";
    assert_eq!(
        parse_silence_events(text).unwrap(),
        vec![
            SilenceEvent { start: 0, end: 2_500_000, duration: 2_500_000 },
            SilenceEvent { start: 10_125_000, end: 12_000_000, duration: 1_875_000 },
        ]
    );
}

#[test]
fn a_later_start_replaces_a_pending_one() {
    let text = "silence_start: 1\nsilence_start: 2\nsilence_end: 3 | silence_duration: 1\n";
    assert_eq!(
        parse_silence_events(text).unwrap(),
        vec![SilenceEvent { start: 2_000_000, end: 3_000_000, duration: 1_000_000 }]
    );
}

#[test]
fn both_markers_on_one_line_make_a_silence() {
    let text = "silence_end: 3 | silence_duration: 1 silence_start: 2\n";
    assert_eq!(
        parse_silence_events(text).unwrap(),
        vec![SilenceEvent { start: 2_000_000, end: 3_000_000, duration: 1_000_000 }]
    );
}

#[test]
fn a_malformed_start_clears_the_pending_one() {
    let text = "silence_start: 1\nsilence_start: 1.2.3\nsilence_end: 3 | silence_duration: 1\n";
    assert_eq!(parse_silence_events(text).unwrap(), vec![]);
}

#[test]
fn a_malformed_end_is_passed_over() {
    let text = "silence_start: 1\nsilence_end: 3..0 | silence_duration: 2\nsilence_end: 4 | silence_duration: 3\n";
    assert_eq!(
        parse_silence_events(text).unwrap(),
        vec![SilenceEvent { start: 1_000_000, end: 4_000_000, duration: 3_000_000 }]
    );
}

#[test]
fn markers_are_paired_without_the_expressions() {
    let lines = vec![
        opening("1.0"),
        LineMarkers { start: None, end: None },
        closing("3.5", "2.5"),
        opening("9"),
    ];
    assert_eq!(
        pair_markers(&lines),
        vec![SilenceEvent { start: 1_000_000, end: 3_500_000, duration: 2_500_000 }]
    );
    assert_eq!(pair_markers(&vec![opening("1.0"), opening("2.0")]), vec![]);
    assert_eq!(pair_markers(&vec![]), vec![]);
}

#[test]
fn one_line_is_read_against_the_pending_start() {
    assert_eq!(read_markers(None, &opening("1.5")), (Some(1_500_000), None));
    assert_eq!(read_markers(Some(7), &opening("x")), (None, None));
    assert_eq!(read_markers(None, &closing("2", "1")), (None, None));
    assert_eq!(
        read_markers(Some(1_000_000), &closing("2", "1")),
        (None, Some(SilenceEvent { start: 1_000_000, end: 2_000_000, duration: 1_000_000 }))
    );
    assert_eq!(read_markers(Some(1_000_000), &closing("2", "")), (Some(1_000_000), None));
    assert_eq!(
        read_markers(Some(9), &LineMarkers { start: None, end: None }),
        (Some(9), None)
    );
}

#[test]
fn the_duration_is_hours_minutes_and_seconds() {
    let text = "Input #0, mp3, from 'a.mp3':\n  Duration: 00:07:47.62, start: 0.000000, bitrate: 128 kb/s\n";
    assert_eq!(parse_total_duration(text), Some(467_620_000));
    assert_eq!(parse_total_duration("Duration: 01:02:03.5,"), Some(3_723_500_000));
    assert_eq!(parse_total_duration("Duration: 00:01:40.00, start"), Some(100_000_000));
}

#[test]
fn only_the_first_duration_counts() {
    let text = "Duration: 00:00:10.00, a\nDuration: 00:00:20.00, b\n";
    assert_eq!(parse_total_duration(text), Some(10_000_000));
}

#[test]
fn a_report_without_a_duration_gives_none() {
    assert_eq!(parse_total_duration(""), None);
    assert_eq!(parse_total_duration("silence_start: 1.0\n"), None);
    assert_eq!(parse_total_duration("Duration: N/A, bitrate: N/A\n"), None);
}

#[test]
fn a_malformed_duration_line_is_passed_over() {
    let text = "Duration: 00:xx:10.00, a\nDuration: 00:00:20.00, b\n";
    assert_eq!(parse_total_duration(text), Some(20_000_000));
    assert_eq!(parse_total_duration("Duration: 00:10.00, a\n"), None);
    assert_eq!(parse_total_duration("Duration: 00:00:00:10.00, a\n"), None);
}

#[test]
fn the_duration_label_may_stand_anywhere_in_its_line() {
    assert_eq!(parse_total_duration("x Duration: 00:00:01.00, y"), Some(1_000_000));
    assert_eq!(parse_total_duration("Duration:  00:00:01.00 , y"), Some(1_000_000));
    assert_eq!(parse_total_duration("Duration: 00:00:02.00"), Some(2_000_000));
    assert_eq!(parse_total_duration("Duration:00:00:02.00,"), None);
}

#[test]
fn a_duration_too_long_for_the_clock_is_passed_over() {
    assert_eq!(parse_total_duration("Duration: 5124095576:01:49.551615,\n"), Some(u64::MAX));
    assert_eq!(parse_total_duration("Duration: 5124095576:01:49.551616,\n"), None);
}

#[test]
fn markers_are_taken_from_the_groups_of_a_match() {
    let group = |text: &str| Some(text.to_string());
    let start = Some(vec![group("silence_start: 1.5"), group("1.5")]);
    let end = Some(vec![group("silence_end: 3 | silence_duration: 1.5"), group("3"), group("1.5")]);
    assert_eq!(markers_of(&start, &None), opening("1.5"));
    assert_eq!(markers_of(&None, &end), closing("3", "1.5"));
    assert_eq!(
        markers_of(&start, &end),
        LineMarkers { start: group("1.5"), end: Some(("3".to_string(), "1.5".to_string())) }
    );
    assert_eq!(markers_of(&None, &None), LineMarkers { start: None, end: None });
    assert_eq!(markers_of(&Some(vec![group("x"), None]), &Some(vec![group("y")])),
        LineMarkers { start: group(""), end: Some((String::new(), String::new())) });
}

#[test]
fn numbers_in_other_digits_are_malformed() {
    let text = "silence_start: \u{661}\nsilence_end: 3 | silence_duration: 1\n";
    assert_eq!(parse_silence_events(text).unwrap(), vec![]);
}

#[test]
fn a_report_is_read_with_the_compiled_expressions() {
    let start = Expression::new(START_PATTERN).unwrap();
    let end = Expression::new(END_PATTERN).unwrap();
    let text = "x silence_start: 1.0\ny\nsilence_end: 3.5 | silence_duration: 2.5 z\nsilence_start: 8\n";
    assert_eq!(
        scan_report(&start, &end, text),
        vec![SilenceEvent { start: 1_000_000, end: 3_500_000, duration: 2_500_000 }]
    );
    assert_eq!(scan_report(&start, &end, ""), vec![]);
    assert_eq!(scan_report(&start, &end, text), parse_silence_events(text).unwrap());
}

#[test]
fn other_expressions_find_other_markers() {
    let start = Expression::new(r"from=(\S+)").unwrap();
    let end = Expression::new(r"to=(\S+) len=(\S+)").unwrap();
    let text = "from=2\nsilence_start: 1.0\nto=4.5 len=2.5\nto=x len=1\n";
    assert_eq!(
        scan_report(&start, &end, text),
        vec![SilenceEvent { start: 2_000_000, end: 4_500_000, duration: 2_500_000 }]
    );
    let one_group = Expression::new(r"to=(\S+)").unwrap();
    assert_eq!(scan_report(&start, &one_group, text), vec![]);
}

#[test]
fn an_expression_hands_out_the_groups_of_its_first_match() {
    let pairs = Expression::new(r"(\w+)=(\d+)?").unwrap();
    assert_eq!(pairs.captures("nothing here"), None);
    assert_eq!(
        pairs.captures("a=1 b=2"),
        Some(vec![Some("a=1".to_string()), Some("a".to_string()), Some("1".to_string())])
    );
    assert_eq!(
        pairs.captures("x= y=3"),
        Some(vec![Some("x=".to_string()), Some("x".to_string()), None])
    );
    assert!(Expression::new("(").is_err());
}

#[test]
fn a_refused_expression_gives_its_error() {
    let text = "silence_start: 1.0\nsilence_end: 3.5 | silence_duration: 2.5\n";
    let good = |pattern: &str| Expression::new(pattern);
    let bad = || Expression::new("(");
    assert!(bad().is_err());
    assert_eq!(read_report(bad(), good(END_PATTERN), text), Err(PatternError::Start));
    assert_eq!(read_report(bad(), bad(), text), Err(PatternError::Start));
    assert_eq!(read_report(good(START_PATTERN), bad(), text), Err(PatternError::End));
    assert_eq!(
        read_report(good(START_PATTERN), good(END_PATTERN), text),
        Ok(vec![SilenceEvent { start: 1_000_000, end: 3_500_000, duration: 2_500_000 }])
    );
    assert_eq!(read_report(good(START_PATTERN), good(END_PATTERN), ""), Ok(vec![]));
}

#[test]
fn the_report_is_always_read_with_the_two_expressions() {
    assert!(Expression::new(START_PATTERN).is_ok());
    assert!(Expression::new(END_PATTERN).is_ok());
    assert!(parse_silence_events("anything").is_ok());
}
