use live_recordings::clock::{Instant, Span};
use live_recordings::recording_id::RecordingId;

#[test]
fn test_new_recording_id() {
    let id = RecordingId::new("camera01");
    assert_eq!(id.stream, "camera01");
    assert!(id.timestamp > 0);
    assert!(id.is_valid());
}

#[test]
fn test_with_timestamp() {
    let timestamp = 1729411200; // 2024-10-20 08:00:00 UTC
    let id = RecordingId::with_timestamp("camera01", timestamp);
    assert_eq!(id.stream, "camera01");
    assert_eq!(id.timestamp, timestamp);
}

#[test]
fn test_path_prefix() {
    let id = RecordingId::with_timestamp("camera01", 1729411200);
    assert_eq!(id.path_prefix(), "camera01/1729411200");
}

#[test]
fn test_from_path_valid() {
    let path = "camera01/1729411200";
    let id = RecordingId::from_path(path).unwrap();
    assert_eq!(id.stream, "camera01");
    assert_eq!(id.timestamp, 1729411200);
}

#[test]
fn test_from_path_with_extra_segments() {
    let path = "camera01/1729411200/manifest.mpd";
    let id = RecordingId::from_path(path).unwrap();
    assert_eq!(id.stream, "camera01");
    assert_eq!(id.timestamp, 1729411200);
}

#[test]
fn test_from_path_invalid() {
    assert!(RecordingId::from_path("").is_none());
    assert!(RecordingId::from_path("camera01").is_none());
    assert!(RecordingId::from_path("camera01/invalid").is_none());
}

#[test]
fn test_is_valid() {
    // Valid timestamp
    let valid_id = RecordingId::with_timestamp("camera01", 1729411200);
    assert!(valid_id.is_valid());

    // Too old (before 2020)
    let old_id = RecordingId::with_timestamp("camera01", 1000000000);
    assert!(!old_id.is_valid());

    // Empty stream
    let empty_stream = RecordingId::with_timestamp("", 1729411200);
    assert!(!empty_stream.is_valid());
}

#[test]
fn test_display() {
    let id = RecordingId::with_timestamp("camera01", 1729411200);
    assert_eq!(id.to_string(), "camera01/1729411200");
}

#[test]
fn string_from_recording_id_is_its_path_prefix() {
    let id = RecordingId::with_timestamp("camera01", 1729411200);
    assert_eq!(String::from(id), "camera01/1729411200");
}

#[test]
fn validity_at_a_given_second() {
    let id = RecordingId::with_timestamp("camera01", 1_577_836_800);
    assert!(id.is_valid_at(0));
    assert!(!RecordingId::with_timestamp("camera01", 1_577_836_799).is_valid_at(0));
    // a hundred years of 365 days ahead of `now` is the last valid second
    let now = 1_700_000_000;
    assert!(RecordingId::with_timestamp("c", now + 3_153_600_000).is_valid_at(now));
    assert!(!RecordingId::with_timestamp("c", now + 3_153_600_001).is_valid_at(now));
    assert!(!RecordingId::with_timestamp("", 1_729_411_200).is_valid_at(now));
    // no overflow at the ends of the range
    assert!(RecordingId::with_timestamp("c", i64::MAX).is_valid_at(i64::MAX));
    assert!(!RecordingId::with_timestamp("c", i64::MIN).is_valid_at(i64::MIN));
}

#[test]
fn from_path_reads_signs_and_rejects_what_is_no_number() {
    assert_eq!(RecordingId::from_path("s/-5").unwrap().timestamp, -5);
    assert_eq!(RecordingId::from_path("s/+5").unwrap().timestamp, 5);
    assert_eq!(RecordingId::from_path("s/007").unwrap().timestamp, 7);
    assert_eq!(
        RecordingId::from_path("s/9223372036854775807").unwrap().timestamp,
        i64::MAX
    );
    assert_eq!(
        RecordingId::from_path("s/-9223372036854775808").unwrap().timestamp,
        i64::MIN
    );
    assert!(RecordingId::from_path("s/9223372036854775808").is_none());
    assert!(RecordingId::from_path("s/-9223372036854775809").is_none());
    assert!(RecordingId::from_path("s/99999999999999999999999").is_none());
    assert!(RecordingId::from_path("s/").is_none());
    assert!(RecordingId::from_path("s/-").is_none());
    assert!(RecordingId::from_path("s/+").is_none());
    assert!(RecordingId::from_path("s/ 5").is_none());
    assert!(RecordingId::from_path("s/5 ").is_none());
    assert!(RecordingId::from_path("s/1_0").is_none());
    assert!(RecordingId::from_path("s//5").is_none());
    // an empty stream is a stream
    assert_eq!(RecordingId::from_path("/5").unwrap().stream, "");
}

#[test]
fn from_path_agrees_with_the_standard_parser() {
    for text in ["0", "-0", "+0", "12", "-12", "1729411200", "x", "", "--1", "+-1", "１"] {
        let path = format!("cam/{}", text);
        let expected = text.parse::<i64>().ok();
        assert_eq!(RecordingId::from_path(&path).map(|id| id.timestamp), expected);
    }
}

#[test]
fn path_prefix_reads_back() {
    for timestamp in [0, 1, -1, 9, 10, 1729411200, i64::MAX, i64::MIN] {
        let id = RecordingId::with_timestamp("camera01", timestamp);
        assert_eq!(id.path_prefix(), format!("camera01/{}", timestamp));
        let back = RecordingId::from_path(&id.path_prefix()).unwrap();
        assert_eq!(back, id);
    }
}

#[test]
fn test_start_time() {
    let timestamp = 1729411200; // 2024-10-20 08:00:00 UTC
    let id = RecordingId::with_timestamp("camera01", timestamp);
    let start_time = id.start_time();
    assert_eq!(start_time.seconds, timestamp);
}

#[test]
fn test_is_older_than() {
    let now = chrono::Utc::now();
    let one_hour_ago = now - chrono::Duration::hours(1);
    let id = RecordingId::with_timestamp("camera01", one_hour_ago.timestamp());

    assert!(id.is_older_than(Span::minutes(30)));
    assert!(!id.is_older_than(Span::hours(2)));
}

#[test]
fn the_start_of_a_recording_is_its_timestamp_where_that_is_a_date() {
    let id = RecordingId::with_timestamp("camera01", 1729411200);
    assert_eq!(id.start_time(), Instant { seconds: 1729411200, nanos: 0 });
    let fallback = Instant { seconds: 5, nanos: 6 };
    assert_eq!(id.start_time_at(true, fallback), Instant { seconds: 1729411200, nanos: 0 });
    assert_eq!(id.start_time_at(false, fallback), fallback);
    // a timestamp beyond the years that can be represented starts now
    let far = RecordingId::with_timestamp("camera01", i64::MAX);
    let start = far.start_time();
    assert!(start.seconds > 1_577_836_800 && start.seconds < 1_000_000_000_000);
    assert!(!far.is_older_than(Span::seconds(0)));
    assert!(far.is_older_than(Span::seconds(-1)));
    // the first and the last year that can be represented
    assert_eq!(RecordingId::with_timestamp("c", -8_334_601_228_800).start_time().seconds, -8_334_601_228_800);
    assert_eq!(RecordingId::with_timestamp("c", 8_210_266_876_799).start_time().seconds, 8_210_266_876_799);
    assert!(RecordingId::with_timestamp("c", 8_210_266_876_800).start_time().seconds < 8_210_266_876_800);
    let before_all = RecordingId::with_timestamp("c", -8_334_601_228_801).start_time();
    assert!(before_all.seconds > 1_577_836_800);
}

#[test]
fn age_is_compared_to_the_nanosecond() {
    let id = RecordingId::with_timestamp("camera01", 100);
    let start = Instant { seconds: 100, nanos: 0 };
    let now = Instant { seconds: 160, nanos: 5 };
    assert!(id.is_older_than_at(start, now, Span { seconds: 60, nanos: 4 }));
    assert!(!id.is_older_than_at(start, now, Span { seconds: 60, nanos: 5 }));
    assert!(!id.is_older_than_at(start, now, Span { seconds: 60, nanos: 6 }));
    assert!(id.is_older_than_at(start, now, Span::minutes(1)));
    assert!(!id.is_older_than_at(start, now, Span::minutes(2)));
    assert!(id.is_older_than_at(start, now, Span { seconds: 61, nanos: -999_999_996 }));
    assert!(!id.is_older_than_at(start, now, Span { seconds: 61, nanos: -999_999_995 }));
    // a start in the future has a negative age
    let later = Instant { seconds: 200, nanos: 0 };
    assert!(!id.is_older_than_at(later, now, Span::seconds(0)));
    assert!(id.is_older_than_at(later, now, Span::seconds(-40)));
    assert!(!id.is_older_than_at(later, now, Span { seconds: -40, nanos: 5 }));
    // no overflow at the ends of the range
    let first = Instant { seconds: i64::MIN, nanos: 0 };
    let last = Instant { seconds: i64::MAX, nanos: u32::MAX };
    assert!(id.is_older_than_at(first, last, Span { seconds: i64::MAX, nanos: i32::MAX }));
    assert!(!id.is_older_than_at(last, first, Span { seconds: i64::MIN, nanos: i32::MIN }));
    assert_eq!(Span::hours(2), Span { seconds: 7200, nanos: 0 });
    assert_eq!(Span::minutes(-3), Span { seconds: -180, nanos: 0 });
}

#[test]
fn the_clock_decides_validity_only_between_the_sure_cases() {
    // valid at any reading of the clock
    assert!(RecordingId::with_timestamp("c", 1_577_836_800).is_valid());
    assert!(RecordingId::with_timestamp("c", 3_153_600_000).is_valid());
    // valid at no reading of the clock
    assert!(!RecordingId::with_timestamp("c", 1_577_836_799).is_valid());
    assert!(!RecordingId::with_timestamp("", 1_577_836_800).is_valid());
    assert!(!RecordingId::with_timestamp("c", 8_210_266_876_799 + 3_153_600_001).is_valid());
}

#[test]
fn a_new_identifier_is_stamped_by_the_clock() {
    let id = RecordingId::new("camera01");
    assert!(id.timestamp > 1_577_836_800);
    assert!(id.timestamp <= 8_210_266_876_799);
}

#[test]
fn age_is_sure_where_the_span_is_out_of_the_reach_of_the_clock() {
    let id = RecordingId::with_timestamp("c", 100);
    // shorter than the time from the start to the epoch: always exceeded
    assert!(id.is_older_than(Span { seconds: -101, nanos: 999_999_999 }));
    // reaching beyond the last time that the clock can read: never exceeded
    assert!(!id.is_older_than(Span { seconds: 8_210_266_876_699, nanos: 999_999_999 }));
    let far = RecordingId::with_timestamp("c", i64::MIN);
    assert!(far.is_older_than(Span { seconds: -8_210_266_876_800, nanos: -1 }));
    assert!(!far.is_older_than(Span { seconds: 8_210_266_876_799, nanos: 999_999_999 }));
}
