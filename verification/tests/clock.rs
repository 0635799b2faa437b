use live_recordings::clock::{Instant, Span};

#[test]
fn an_instant_in_micros_and_millis() {
    let t = Instant { seconds: 1, nanos: 444_000 };
    assert_eq!(t.micros(), 1_000_444);
    assert_eq!(t.millis(), 1_000);
    let t = Instant { seconds: 1_000_000_000, nanos: 555_999_999 };
    assert_eq!(t.micros(), 1_000_000_000_555_999);
    assert_eq!(t.millis(), 1_000_000_000_555);
    let t = Instant { seconds: -1, nanos: 999_999_999 };
    assert_eq!(t.micros(), -1);
    assert_eq!(t.millis(), -1);
    let t = Instant { seconds: 0, nanos: 0 };
    assert_eq!(t.micros(), 0);
    assert_eq!(t.millis(), 0);
}

#[test]
fn micros_and_millis_are_those_of_chrono() {
    for seconds in [0i64, 1, -1, 59, 1_700_000_000, -8_334_601_228_800, 8_210_266_876_799] {
        for nanos in [0u32, 1, 999, 1_000, 999_999, 1_000_000, 123_456_789, 999_999_999] {
            let date = chrono::DateTime::from_timestamp(seconds, nanos).unwrap();
            let t = Instant { seconds, nanos };
            assert_eq!(t.micros(), date.timestamp_micros(), "{} {}", seconds, nanos);
            assert_eq!(t.millis(), date.timestamp_millis(), "{} {}", seconds, nanos);
        }
    }
}

#[test]
fn spans_in_seconds() {
    assert_eq!(Span::seconds(5), Span { seconds: 5, nanos: 0 });
    assert_eq!(Span::minutes(30), Span { seconds: 1_800, nanos: 0 });
    assert_eq!(Span::hours(2), Span { seconds: 7_200, nanos: 0 });
    assert_eq!(Span::hours(-1), Span { seconds: -3_600, nanos: 0 });
    assert_eq!(Span::minutes(0), Span { seconds: 0, nanos: 0 });
}
