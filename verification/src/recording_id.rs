//! The identifier of a recording session: a stream and the second at which
//! the recording began, written `{stream}/{timestamp}`.

use crate::clock::{
    chrono_represents, is_clock_reading, last_clock_nanos, now_instant,
    timestamp_representable, Instant, Span, LAST_REPRESENTABLE_SECOND, NANOS_PER_SECOND,
};
use crate::decimal::{
    decimal, decimal_string, digits, is_digit, lemma_decimal_round_trip, lemma_digits, parse_i64,
    parse_i64_range,
};
use crate::text::{chars_of, first_break, lemma_first_break_is, string_of};
use vstd::prelude::*;
use vstd::string::*;

verus! {

/// The earliest start of a valid recording: the first second of 2020.
pub const MIN_TIMESTAMP: i64 = 1_577_836_800;

/// How far past the present the start of a valid recording may lie: a
/// hundred years of 365 days, in seconds.
pub const MAX_AHEAD_SECONDS: i64 = 3_153_600_000;

/// Identifies a recording session.
#[derive(Debug, Eq, Hash)]
pub struct RecordingId {
    /// Stream name.
    pub stream: String,
    /// Unix timestamp in seconds at which the recording began.
    pub timestamp: i64,
}

/// The mathematical value of a [`RecordingId`].
pub struct RecordingIdView {
    pub stream: Seq<char>,
    pub timestamp: i64,
}

impl View for RecordingId {
    type V = RecordingIdView;

    open spec fn view(&self) -> RecordingIdView {
        RecordingIdView { stream: self.stream@, timestamp: self.timestamp }
    }
}

impl Clone for RecordingId {
    fn clone(&self) -> (out: Self)
        ensures
            out == *self,
    {
        RecordingId { stream: self.stream.clone(), timestamp: self.timestamp }
    }
}

impl PartialEq for RecordingId {
    fn eq(&self, other: &Self) -> (same: bool) {
        self.stream == other.stream && self.timestamp == other.timestamp
    }
}

impl vstd::std_specs::cmp::PartialEqSpecImpl for RecordingId {
    open spec fn obeys_eq_spec() -> bool {
        true
    }

    open spec fn eq_spec(&self, other: &Self) -> bool {
        self@ == other@
    }
}

/// The path prefix under which the recording `timestamp` of `stream` is
/// stored.
pub open spec fn path_of(stream: Seq<char>, timestamp: i64) -> Seq<char> {
    stream + seq!['/'] + decimal(timestamp as int)
}

/// The identifier that a path names: its first segment is the stream, its
/// second the timestamp; what follows a second slash is not read. A path
/// without a slash, or whose second segment denotes no `i64`, names none.
pub open spec fn id_of_path(path: Seq<char>) -> Option<RecordingIdView> {
    let n = first_break(path, '/');
    if n >= path.len() {
        None
    } else {
        let rest = path.skip(n as int + 1);
        let m = first_break(rest, '/');
        match parse_i64(rest.take(m as int)) {
            Some(timestamp) => Some(RecordingIdView { stream: path.take(n as int), timestamp }),
            None => None,
        }
    }
}

/// Whether an identifier is valid at the second `now`: its stream is named,
/// and its timestamp lies neither before 2020 nor more than a hundred years
/// ahead.
pub open spec fn valid_at(id: RecordingIdView, now: i64) -> bool {
    id.stream.len() > 0 && MIN_TIMESTAMP <= id.timestamp <= now + MAX_AHEAD_SECONDS
}

/// The start of the recording `id`: its timestamp where that denotes a date
/// that can be represented, else `fallback`.
pub open spec fn start_of(id: RecordingIdView, representable: bool, fallback: Instant) -> Instant {
    if representable {
        Instant { seconds: id.timestamp, nanos: 0 }
    } else {
        fallback
    }
}

/// Whether from `start` to `now` more time has passed than `limit`.
pub open spec fn older_than(start: Instant, now: Instant, limit: Span) -> bool {
    now.total_nanos() - start.total_nanos() > limit.total_nanos()
}

/// No digit string holds a slash.
proof fn lemma_digits_no_slash(n: nat)
    ensures
        forall|i: int| 0 <= i < digits(n).len() ==> digits(n)[i] != '/',
{
    lemma_digits(n);
    assert forall|i: int| 0 <= i < digits(n).len() implies digits(n)[i] != '/' by {
        assert(is_digit(digits(n)[i]));
    }
}

/// A path prefix reads back: the prefix of an identifier whose stream holds
/// no slash names that identifier.
pub proof fn lemma_path_round_trip(id: RecordingIdView)
    requires
        forall|i: int| 0 <= i < id.stream.len() ==> id.stream[i] != '/',
    ensures
        id_of_path(path_of(id.stream, id.timestamp)) == Some(id),
{
    let path = path_of(id.stream, id.timestamp);
    let number = decimal(id.timestamp as int);
    let n = id.stream.len() as int;
    lemma_first_break_is(path, '/', n);
    assert(path.skip(n + 1) =~= number);
    assert(path.take(n) =~= id.stream);
    if id.timestamp < 0 {
        lemma_digits_no_slash((-(id.timestamp as int)) as nat);
    } else {
        lemma_digits_no_slash(id.timestamp as nat);
    }
    lemma_first_break_is(number, '/', number.len() as int);
    assert(number.take(number.len() as int) =~= number);
    lemma_decimal_round_trip(id.timestamp);
}

impl RecordingId {
    /// The identifier of a recording of `stream` that begins now.
    pub fn new(stream: &str) -> (id: Self)
        ensures
            id.stream@ == stream@,
            0 <= id.timestamp <= LAST_REPRESENTABLE_SECOND,
    {
        RecordingId { stream: String::from_str(stream), timestamp: now_instant().seconds }
    }

    /// The identifier of the recording of `stream` that began at
    /// `timestamp`.
    pub fn with_timestamp(stream: &str, timestamp: i64) -> (id: Self)
        ensures
            id@ == (RecordingIdView { stream: stream@, timestamp }),
    {
        RecordingId { stream: String::from_str(stream), timestamp }
    }

    /// The path prefix under which the recording is stored:
    /// `{stream}/{timestamp}`.
    pub fn path_prefix(&self) -> (path: String)
        ensures
            path@ == path_of(self.stream@, self.timestamp),
    {
        proof {
            reveal_strlit("/");
        }
        let mut path = self.stream.clone();
        path.append("/");
        path.append(decimal_string(self.timestamp).as_str());
        assert("/"@ =~= seq!['/']);
        path
    }

    /// The identifier as text: its path prefix.
    pub fn to_string(&self) -> (text: String)
        ensures
            text@ == path_of(self.stream@, self.timestamp),
    {
        self.path_prefix()
    }

    /// The identifier that `path` names, if it names one.
    pub fn from_path(path: &str) -> (id: Option<Self>)
        ensures
            match id {
                Some(found) => id_of_path(path@) == Some(found@),
                None => id_of_path(path@) is None,
            },
    {
        let chars = chars_of(path);
        let len = chars.len();
        let mut n: usize = 0;
        while n < len && chars[n] != '/'
            invariant
                n <= len == chars@.len(),
                forall|i: int| 0 <= i < n ==> chars@[i] != '/',
            decreases len - n,
        {
            n += 1;
        }
        proof {
            lemma_first_break_is(chars@, '/', n as int);
        }
        if n >= len {
            return None;
        }
        let ghost rest = chars@.skip(n + 1);
        let mut end: usize = n + 1;
        while end < len && chars[end] != '/'
            invariant
                n < end <= len == chars@.len(),
                forall|i: int| n < i < end ==> chars@[i] != '/',
            decreases len - end,
        {
            end += 1;
        }
        proof {
            assert forall|i: int| 0 <= i < end - n - 1 implies rest[i] != '/' by {
                assert(rest[i] == chars@[n + 1 + i]);
            }
            lemma_first_break_is(rest, '/', end - n - 1);
            assert(rest.take(end - n - 1) =~= chars@.subrange(n + 1, end as int));
            assert(chars@.take(n as int) =~= chars@.subrange(0, n as int));
        }
        match parse_i64_range(&chars, n + 1, end) {
            Some(timestamp) => Some(RecordingId { stream: string_of(&chars, 0, n), timestamp }),
            None => None,
        }
    }

    /// The start of the recording, given whether its timestamp denotes a
    /// date that can be represented and the time to take otherwise.
    pub fn start_time_at(&self, representable: bool, fallback: Instant) -> (start: Instant)
        ensures
            start == start_of(self@, representable, fallback),
    {
        if representable {
            Instant { seconds: self.timestamp, nanos: 0 }
        } else {
            fallback
        }
    }

    /// The start of the recording: its timestamp where that denotes a date
    /// that can be represented, and the present otherwise.
    pub fn start_time(&self) -> (start: Instant)
        ensures
            exists|fallback: Instant|
                is_clock_reading(fallback) && start == #[trigger] start_of(
                    self@,
                    chrono_represents(self.timestamp),
                    fallback,
                ),
            chrono_represents(self.timestamp) ==> start == (Instant {
                seconds: self.timestamp,
                nanos: 0,
            }),
            !chrono_represents(self.timestamp) ==> is_clock_reading(start),
    {
        if timestamp_representable(self.timestamp) {
            let start = self.start_time_at(true, Instant { seconds: 0, nanos: 0 });
            assert(start == start_of(self@, true, Instant { seconds: 0, nanos: 0 }));
            start
        } else {
            let fallback = now_instant();
            let start = self.start_time_at(false, fallback);
            assert(start == start_of(self@, false, fallback));
            start
        }
    }

    /// Whether at `now` the recording has begun longer ago than `duration`,
    /// given its start.
    pub fn is_older_than_at(&self, start: Instant, now: Instant, duration: Span) -> (older: bool)
        ensures
            older == older_than(start, now, duration),
    {
        let age: i128 = (now.seconds as i128 - start.seconds as i128) * 1_000_000_000 + (
        now.nanos as i128 - start.nanos as i128);
        let limit: i128 = duration.seconds as i128 * 1_000_000_000 + duration.nanos as i128;
        age > limit
    }

    /// Whether the recording has begun longer ago than `duration`: whether
    /// from its start to the reading of the clock more time has passed. A
    /// span shorter than the time from the start to the epoch is always
    /// exceeded, and one that reaches from the start beyond the last time
    /// that the clock can read never is.
    pub fn is_older_than(&self, duration: Span) -> (older: bool)
        ensures
            exists|now: Instant, fallback: Instant|
                is_clock_reading(now) && is_clock_reading(fallback) && #[trigger] older_than(
                    start_of(self@, chrono_represents(self.timestamp), fallback),
                    now,
                    duration,
                ) == older,
            chrono_represents(self.timestamp) && duration.total_nanos() < -self.timestamp
                * NANOS_PER_SECOND ==> older,
            chrono_represents(self.timestamp) && duration.total_nanos() >= last_clock_nanos()
                - self.timestamp * NANOS_PER_SECOND ==> !older,
            !chrono_represents(self.timestamp) && duration.total_nanos() < -last_clock_nanos()
                ==> older,
            !chrono_represents(self.timestamp) && duration.total_nanos() >= last_clock_nanos()
                ==> !older,
    {
        let now = now_instant();
        let representable = timestamp_representable(self.timestamp);
        let fallback = if representable {
            now
        } else {
            now_instant()
        };
        let start = self.start_time_at(representable, fallback);
        let older = self.is_older_than_at(start, now, duration);
        assert(is_clock_reading(now) && is_clock_reading(fallback) && older_than(
            start_of(self@, chrono_represents(self.timestamp), fallback),
            now,
            duration,
        ) == older);
        older
    }

    /// Whether the identifier is valid at the second `now`.
    pub fn is_valid_at(&self, now: i64) -> (valid: bool)
        ensures
            valid == valid_at(self@, now),
    {
        !self.stream.as_str().is_empty() && self.timestamp >= MIN_TIMESTAMP && self.timestamp
            - MAX_AHEAD_SECONDS <= now
    }

    /// Whether the identifier is valid now. The clock never reads a time
    /// before the epoch, so an identifier of a named stream whose timestamp
    /// lies from 2020 to a hundred years after the epoch is valid at any
    /// time. An identifier without a stream, from before 2020, or more than
    /// a hundred years after the last time that the clock can read, is valid
    /// at no time.
    pub fn is_valid(&self) -> (valid: bool)
        ensures
            exists|now: i64|
                0 <= now <= LAST_REPRESENTABLE_SECOND && valid == #[trigger] valid_at(self@, now),
            self.stream@.len() > 0 && MIN_TIMESTAMP <= self.timestamp <= MAX_AHEAD_SECONDS
                ==> valid,
            self.stream@.len() == 0 || self.timestamp < MIN_TIMESTAMP || self.timestamp
                > LAST_REPRESENTABLE_SECOND + MAX_AHEAD_SECONDS ==> !valid,
    {
        let now = now_instant().seconds;
        let valid = self.is_valid_at(now);
        assert(0 <= now <= LAST_REPRESENTABLE_SECOND && valid == valid_at(self@, now));
        valid
    }
}

impl From<RecordingId> for String {
    /// The identifier as text: its path prefix.
    fn from(id: RecordingId) -> (text: String)
        ensures
            text@ == path_of(id.stream@, id.timestamp),
    {
        id.path_prefix()
    }
}

impl vstd::std_specs::convert::FromSpecImpl<RecordingId> for String {
    /// A string is known by its text alone, which the contract of `from`
    /// states; no string is named here.
    open spec fn obeys_from_spec() -> bool {
        false
    }

    open spec fn from_spec(id: RecordingId) -> String {
        arbitrary()
    }
}

} // verus!
