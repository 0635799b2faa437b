//! The records of the recording index and the values that stand for them in
//! contracts.

use vstd::prelude::*;
use vstd::string::*;

verus! {

/// Lifecycle state of a recording session. `Acked` marks a tombstone: the
/// session is retained but no longer listed.
#[derive(Clone, Copy, Debug, PartialEq, Eq, Structural)]
pub enum RecordingStatus {
    Recording,
    Completed,
    Failed,
    Acked,
}

/// The map key of the session `record` of `stream`: both joined by a slash.
pub open spec fn key_of(stream: Seq<char>, record: Seq<char>) -> Seq<char> {
    stream + seq!['/'] + record
}

/// Joins `stream` and `record` into the key under which the index holds the
/// session.
pub fn session_key(stream: &str, record: &str) -> (key: String)
    ensures
        key@ == key_of(stream@, record@),
{
    proof {
        reveal_strlit("/");
    }
    let mut key = String::from_str(stream);
    key.append("/");
    key.append(record);
    assert("/"@ =~= seq!['/']);
    key
}

/// One recording session as the index stores it.
#[derive(Debug)]
pub struct RecordingIndexEntry {
    pub record: String,
    pub stream: String,
    pub record_dir: String,
    pub mpd_path: String,
    pub start_ts: i64,
    pub end_ts: Option<i64>,
    pub duration_ms: Option<i32>,
    pub status: RecordingStatus,
    pub node_alias: Option<String>,
    pub updated_at: i64,
}

/// The mathematical value of a [`RecordingIndexEntry`].
pub struct EntryView {
    pub record: Seq<char>,
    pub stream: Seq<char>,
    pub record_dir: Seq<char>,
    pub mpd_path: Seq<char>,
    pub start_ts: i64,
    pub end_ts: Option<i64>,
    pub duration_ms: Option<i32>,
    pub status: RecordingStatus,
    pub node_alias: Option<Seq<char>>,
    pub updated_at: i64,
}

impl EntryView {
    /// The key under which the index holds this entry.
    pub open spec fn key(self) -> Seq<char> {
        key_of(self.stream, self.record)
    }

    /// This entry after a status update written at `now`.
    pub open spec fn with_status(
        self,
        status: RecordingStatus,
        end_ts: Option<i64>,
        duration_ms: Option<i32>,
        now: i64,
    ) -> EntryView {
        EntryView { status, end_ts, duration_ms, updated_at: now, ..self }
    }

    /// This entry as a tombstone written at `now`.
    pub open spec fn acked(self, now: i64) -> EntryView {
        EntryView { status: RecordingStatus::Acked, updated_at: now, ..self }
    }

    /// What a listing shows of this entry.
    pub open spec fn session(self) -> SessionView {
        SessionView {
            id: Some(self.record),
            stream: self.stream,
            start_ts: self.start_ts,
            end_ts: self.end_ts,
            duration_ms: self.duration_ms,
            mpd_path: self.mpd_path,
            status: self.status,
        }
    }
}

impl View for RecordingIndexEntry {
    type V = EntryView;

    open spec fn view(&self) -> EntryView {
        EntryView {
            record: self.record@,
            stream: self.stream@,
            record_dir: self.record_dir@,
            mpd_path: self.mpd_path@,
            start_ts: self.start_ts,
            end_ts: self.end_ts,
            duration_ms: self.duration_ms,
            status: self.status,
            node_alias: match self.node_alias {
                Some(a) => Some(a@),
                None => None,
            },
            updated_at: self.updated_at,
        }
    }
}

/// The values of `entries`, in order.
pub open spec fn rows_of(entries: Seq<RecordingIndexEntry>) -> Seq<EntryView> {
    entries.map_values(|e: RecordingIndexEntry| e@)
}

impl Clone for RecordingIndexEntry {
    fn clone(&self) -> (out: Self)
        ensures
            out == *self,
    {
        RecordingIndexEntry {
            record: self.record.clone(),
            stream: self.stream.clone(),
            record_dir: self.record_dir.clone(),
            mpd_path: self.mpd_path.clone(),
            start_ts: self.start_ts,
            end_ts: self.end_ts,
            duration_ms: self.duration_ms,
            status: self.status,
            node_alias: match &self.node_alias {
                Some(a) => Some(a.clone()),
                None => None,
            },
            updated_at: self.updated_at,
        }
    }
}

impl PartialEq for RecordingIndexEntry {
    fn eq(&self, other: &Self) -> (same: bool) {
        let alias_same = match &self.node_alias {
            Some(a) => match &other.node_alias {
                Some(b) => *a == *b,
                None => false,
            },
            None => other.node_alias.is_none(),
        };
        let end_same = match (self.end_ts, other.end_ts) {
            (Some(a), Some(b)) => a == b,
            (None, None) => true,
            _ => false,
        };
        let duration_same = match (self.duration_ms, other.duration_ms) {
            (Some(a), Some(b)) => a == b,
            (None, None) => true,
            _ => false,
        };
        self.record == other.record && self.stream == other.stream && self.record_dir
            == other.record_dir && self.mpd_path == other.mpd_path && self.start_ts
            == other.start_ts && end_same && duration_same && self.status == other.status
            && alias_same && self.updated_at == other.updated_at
    }
}

impl vstd::std_specs::cmp::PartialEqSpecImpl for RecordingIndexEntry {
    open spec fn obeys_eq_spec() -> bool {
        true
    }

    open spec fn eq_spec(&self, other: &Self) -> bool {
        self@ == other@
    }
}

impl RecordingIndexEntry {
    /// The key under which the index holds this entry: stream and record
    /// joined by a slash.
    pub fn key(&self) -> (key: String)
        ensures
            key@ == self@.key(),
    {
        session_key(self.stream.as_str(), self.record.as_str())
    }

    /// What a listing shows of this entry.
    pub fn session(&self) -> (row: RecordingSession)
        ensures
            row@ == self@.session(),
    {
        RecordingSession {
            id: Some(self.record.clone()),
            stream: self.stream.clone(),
            start_ts: self.start_ts,
            end_ts: self.end_ts,
            duration_ms: self.duration_ms,
            mpd_path: self.mpd_path.clone(),
            status: self.status,
        }
    }
}

/// One row of a session listing.
#[derive(Debug)]
pub struct RecordingSession {
    pub id: Option<String>,
    pub stream: String,
    pub start_ts: i64,
    pub end_ts: Option<i64>,
    pub duration_ms: Option<i32>,
    pub mpd_path: String,
    pub status: RecordingStatus,
}

/// The mathematical value of a [`RecordingSession`].
pub struct SessionView {
    pub id: Option<Seq<char>>,
    pub stream: Seq<char>,
    pub start_ts: i64,
    pub end_ts: Option<i64>,
    pub duration_ms: Option<i32>,
    pub mpd_path: Seq<char>,
    pub status: RecordingStatus,
}

impl View for RecordingSession {
    type V = SessionView;

    open spec fn view(&self) -> SessionView {
        SessionView {
            id: match self.id {
                Some(a) => Some(a@),
                None => None,
            },
            stream: self.stream@,
            start_ts: self.start_ts,
            end_ts: self.end_ts,
            duration_ms: self.duration_ms,
            mpd_path: self.mpd_path@,
            status: self.status,
        }
    }
}

impl Clone for RecordingSession {
    fn clone(&self) -> (out: Self)
        ensures
            out == *self,
    {
        RecordingSession {
            id: match &self.id {
                Some(a) => Some(a.clone()),
                None => None,
            },
            stream: self.stream.clone(),
            start_ts: self.start_ts,
            end_ts: self.end_ts,
            duration_ms: self.duration_ms,
            mpd_path: self.mpd_path.clone(),
            status: self.status,
        }
    }
}

impl PartialEq for RecordingSession {
    fn eq(&self, other: &Self) -> (same: bool) {
        let id_same = match &self.id {
            Some(a) => match &other.id {
                Some(b) => *a == *b,
                None => false,
            },
            None => other.id.is_none(),
        };
        let end_same = match (self.end_ts, other.end_ts) {
            (Some(a), Some(b)) => a == b,
            (None, None) => true,
            _ => false,
        };
        let duration_same = match (self.duration_ms, other.duration_ms) {
            (Some(a), Some(b)) => a == b,
            (None, None) => true,
            _ => false,
        };
        id_same && self.stream == other.stream && self.start_ts == other.start_ts && end_same
            && duration_same && self.mpd_path == other.mpd_path && self.status == other.status
    }
}

impl vstd::std_specs::cmp::PartialEqSpecImpl for RecordingSession {
    open spec fn obeys_eq_spec() -> bool {
        true
    }

    open spec fn eq_spec(&self, other: &Self) -> bool {
        self@ == other@
    }
}

/// Names one session: a stream and a record of it.
#[derive(Debug)]
pub struct RecordingKey {
    pub stream: String,
    pub record: String,
}

impl RecordingKey {
    /// The key of the named session.
    pub open spec fn spec_key(&self) -> Seq<char> {
        key_of(self.stream@, self.record@)
    }

    /// The key of the named session.
    pub fn key(&self) -> (key: String)
        ensures
            key@ == self.spec_key(),
    {
        session_key(self.stream.as_str(), self.record.as_str())
    }
}

impl Clone for RecordingKey {
    fn clone(&self) -> (out: Self)
        ensures
            out == *self,
    {
        RecordingKey { stream: self.stream.clone(), record: self.record.clone() }
    }
}

/// The sessions that a client has taken over and that may become tombstones.
#[derive(Debug)]
pub struct AckRecordingsRequest {
    pub records: Vec<RecordingKey>,
}

/// The tombstones that may be removed for good.
#[derive(Debug)]
pub struct DeleteRecordingsRequest {
    pub records: Vec<RecordingKey>,
}

/// The keys that `records` names.
pub open spec fn named_keys(records: Seq<RecordingKey>) -> Set<Seq<char>> {
    Set::new(|k: Seq<char>| exists|i: int| 0 <= i < records.len() && #[trigger] records[i].spec_key() == k)
}

/// Naming one record more adds its key to the keys named.
pub proof fn lemma_named_keys_step(records: Seq<RecordingKey>, n: int)
    requires
        0 <= n < records.len(),
    ensures
        named_keys(records.take(n + 1)) == named_keys(records.take(n)).insert(
            records[n].spec_key(),
        ),
{
    let fewer = named_keys(records.take(n));
    let more = named_keys(records.take(n + 1));
    let key = records[n].spec_key();
    assert forall|k: Seq<char>| fewer.insert(key).contains(k) implies more.contains(k) by {
        if k == key {
            assert(records.take(n + 1)[n].spec_key() == k);
        } else {
            let j = choose|j: int|
                0 <= j < records.take(n).len() && #[trigger] records.take(n)[j].spec_key() == k;
            assert(records.take(n + 1)[j].spec_key() == k);
        }
    }
    assert forall|k: Seq<char>| more.contains(k) implies fewer.insert(key).contains(k) by {
        let j = choose|j: int|
            0 <= j < records.take(n + 1).len() && #[trigger] records.take(n + 1)[j].spec_key()
                == k;
        if j < n {
            assert(records.take(n)[j].spec_key() == k);
        }
    }
    assert(more =~= fewer.insert(key));
}

} // verus!
