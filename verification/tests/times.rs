use silcut::decimal::parse_seconds;
use silcut::utils::format_time;

fn read_back(text: &str) -> u64 {
    let (clock, millis) = text.split_once('.').unwrap();
    let fields: Vec<u64> = clock.split(':').map(|f| f.parse().unwrap()).collect();
    assert_eq!(fields.len(), 3);
    (fields[0] * 3600 + fields[1] * 60 + fields[2]) * 1000 + millis.parse::<u64>().unwrap()
}

#[test]
fn times_are_written_with_fixed_widths() {
    assert_eq!(format_time(0), "00:00:00.000");
    assert_eq!(format_time(10_000_000), "00:00:10.000");
    assert_eq!(format_time(12_000_000), "00:00:12.000");
    assert_eq!(format_time(100_000_000), "00:01:40.000");
    assert_eq!(format_time(3_723_004_000), "01:02:03.004");
    assert_eq!(format_time(467_620_000), "00:07:47.620");
}

#[test]
fn times_are_rounded_to_the_nearest_millisecond() {
    assert_eq!(format_time(1_499), "00:00:00.001");
    assert_eq!(format_time(1_500), "00:00:00.002");
    assert_eq!(format_time(499), "00:00:00.000");
    assert_eq!(format_time(500), "00:00:00.001");
    assert_eq!(format_time(59_999_500), "00:01:00.000");
    assert_eq!(format_time(3_599_999_499), "00:59:59.999");
}

#[test]
fn long_times_take_the_digits_they_need() {
    assert_eq!(format_time(359_999_999_000), "99:59:59.999");
    assert_eq!(format_time(360_000_000_000), "100:00:00.000");
    assert_eq!(format_time(u64::MAX), "5124095576:01:49.552");
}

#[test]
fn a_written_time_reads_back_rounded() {
    let samples = [
        0u64,
        1,
        499,
        500,
        999,
        1_000,
        123_456,
        999_999,
        1_000_000,
        59_999_499,
        59_999_500,
        3_600_000_000,
        86_399_999_999,
        359_999_999_000,
        359_999_999_499,
        u64::MAX,
    ];
    for x in samples {
        let millis = x / 1000 + if x % 1000 >= 500 { 1 } else { 0 };
        assert_eq!(read_back(&format_time(x)), millis);
    }
}

#[test]
fn a_written_time_is_read_by_the_duration_reader() {
    let line = format!("Duration: {}, start: 0", format_time(467_620_400));
    assert_eq!(silcut::utils::parse_total_duration(&line), Some(467_620_000));
    assert_eq!(parse_seconds("47.620"), Some(47_620_000));
}

#[test]
fn every_written_time_is_read_by_the_duration_reader() {
    for x in [0u64, 499, 500, 1_000, 59_999_500, 3_600_000_000, 360_000_000_000, 18_446_744_073_709_550_499] {
        let millis = x / 1000 + if x % 1000 >= 500 { 1 } else { 0 };
        let line = format!("  Duration: {}, start: 0.0, bitrate: 1 kb/s", format_time(x));
        assert_eq!(silcut::utils::parse_total_duration(&line), Some(millis * 1000));
    }
}
