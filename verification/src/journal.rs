//! The log of the recording index as mathematics: which map a log stands
//! for, what each change makes of the map and which lines it appends, and the
//! laws that tie the two together.

use crate::session::{
    lemma_named_keys_step, named_keys, EntryView, RecordingKey, RecordingStatus,
};
use vstd::prelude::*;

verus! {

/// After this many appended entries the log is compacted.
pub const COMPACT_EVERY: usize = 200;

/// Every entry of `m` is held under its own key.
pub open spec fn keyed(m: Map<Seq<char>, EntryView>) -> bool {
    forall|k: Seq<char>| m.contains_key(k) ==> (#[trigger] m[k]).key() == k
}

/// The map that results from `m` when the lines of `log` are applied in
/// order: a later line replaces an earlier one of the same key.
pub open spec fn replay_onto(m: Map<Seq<char>, EntryView>, log: Seq<EntryView>) -> Map<
    Seq<char>,
    EntryView,
>
    decreases log.len(),
{
    if log.len() == 0 {
        m
    } else {
        replay_onto(m, log.drop_last()).insert(log.last().key(), log.last())
    }
}

/// The map that a log stands for.
pub open spec fn replay(log: Seq<EntryView>) -> Map<Seq<char>, EntryView> {
    replay_onto(Map::empty(), log)
}

/// The count of appended entries, modulo [`COMPACT_EVERY`], after `appended`
/// more.
pub open spec fn next_pending(pending: nat, appended: nat) -> nat {
    (pending + appended) % (COMPACT_EVERY as nat)
}

/// Whether appending `appended` entries brings the count of appended entries
/// to a multiple of [`COMPACT_EVERY`].
pub open spec fn compaction_due(pending: nat, appended: nat) -> bool {
    appended > 0 && next_pending(pending, appended) == 0
}

/// The map after the status of the session under `key` was updated at `now`;
/// `m` itself where it holds no such session.
pub open spec fn status_updated(
    m: Map<Seq<char>, EntryView>,
    key: Seq<char>,
    status: RecordingStatus,
    end_ts: Option<i64>,
    duration_ms: Option<i32>,
    now: i64,
) -> Map<Seq<char>, EntryView> {
    if m.contains_key(key) {
        m.insert(key, m[key].with_status(status, end_ts, duration_ms, now))
    } else {
        m
    }
}

/// The line that a status update appends to the log, if any.
pub open spec fn status_lines(
    m: Map<Seq<char>, EntryView>,
    key: Seq<char>,
    status: RecordingStatus,
    end_ts: Option<i64>,
    duration_ms: Option<i32>,
    now: i64,
) -> Seq<EntryView> {
    if m.contains_key(key) {
        seq![m[key].with_status(status, end_ts, duration_ms, now)]
    } else {
        Seq::empty()
    }
}

/// The map after every session of `m` whose key is in `names` became a
/// tombstone at `now`.
pub open spec fn acked_all(m: Map<Seq<char>, EntryView>, names: Set<Seq<char>>, now: i64) -> Map<
    Seq<char>,
    EntryView,
> {
    Map::new(
        |k: Seq<char>| m.contains_key(k),
        |k: Seq<char>|
            if names.contains(k) {
                m[k].acked(now)
            } else {
                m[k]
            },
    )
}

/// The lines that an acknowledgement of `records` appends to the log: one
/// tombstone for each name that `m` holds, in the order of the names, a name
/// that occurs twice giving two lines.
pub open spec fn acked_lines(m: Map<Seq<char>, EntryView>, records: Seq<RecordingKey>, now: i64) -> Seq<
    EntryView,
>
    decreases records.len(),
{
    if records.len() == 0 {
        Seq::empty()
    } else {
        let rest = acked_lines(m, records.drop_last(), now);
        let k = records.last().spec_key();
        if m.contains_key(k) {
            rest.push(m[k].acked(now))
        } else {
            rest
        }
    }
}

/// The keys among `names` under which `m` holds a tombstone.
pub open spec fn deletable(m: Map<Seq<char>, EntryView>, names: Set<Seq<char>>) -> Set<Seq<char>> {
    Set::new(
        |k: Seq<char>| names.contains(k) && m.contains_key(k) && m[k].status == RecordingStatus::Acked,
    )
}

/// The map without the tombstones that `names` names.
pub open spec fn without_acked(m: Map<Seq<char>, EntryView>, names: Set<Seq<char>>) -> Map<
    Seq<char>,
    EntryView,
> {
    m.remove_keys(deletable(m, names))
}

/// Replaying a log is replaying its first part and then the rest.
pub proof fn lemma_replay_split(m: Map<Seq<char>, EntryView>, a: Seq<EntryView>, b: Seq<EntryView>)
    ensures
        replay_onto(m, a + b) == replay_onto(replay_onto(m, a), b),
    decreases b.len(),
{
    if b.len() == 0 {
        assert(a + b =~= a);
    } else {
        lemma_replay_split(m, a, b.drop_last());
        assert((a + b).drop_last() =~= a + b.drop_last());
        assert((a + b).last() == b.last());
    }
}

/// The log stays in step with the index: where a log stands for the map
/// before a change, the log with the lines of that change appended stands
/// for the map that those lines make of it. With the contracts of
/// [`RecordingsIndex::upsert`], [`RecordingsIndex::update_status_at`] and
/// [`RecordingsIndex::ack_at`], which say that the planned lines make the new
/// map of the old one, reloading the log after any of these changes gives the
/// map that the index holds.
pub proof fn lemma_appended_log_replays(
    log: Seq<EntryView>,
    before: Map<Seq<char>, EntryView>,
    lines: Seq<EntryView>,
)
    requires
        replay(log) == before,
    ensures
        replay(log + lines) == replay_onto(before, lines),
{
    lemma_replay_split(Map::empty(), log, lines);
}

/// The line of a status update makes the updated map of the old one.
pub proof fn lemma_status_lines_replay(
    m: Map<Seq<char>, EntryView>,
    key: Seq<char>,
    status: RecordingStatus,
    end_ts: Option<i64>,
    duration_ms: Option<i32>,
    now: i64,
)
    requires
        keyed(m),
    ensures
        replay_onto(m, status_lines(m, key, status, end_ts, duration_ms, now)) == status_updated(
            m,
            key,
            status,
            end_ts,
            duration_ms,
            now,
        ),
{
    let lines = status_lines(m, key, status, end_ts, duration_ms, now);
    if m.contains_key(key) {
        let line = m[key].with_status(status, end_ts, duration_ms, now);
        assert(lines.len() == 1 && lines.last() == line);
        assert(lines.drop_last() =~= Seq::<EntryView>::empty());
        assert(replay_onto(m, lines.drop_last()) == m);
        assert(m[key].key() == key);
        assert(replay_onto(m, lines) == m.insert(line.key(), line));
    } else {
        assert(lines.len() == 0);
    }
}

/// The lines of an acknowledgement make the acknowledged map of the old one.
pub proof fn lemma_acked_lines_replay(
    m: Map<Seq<char>, EntryView>,
    records: Seq<RecordingKey>,
    now: i64,
)
    requires
        keyed(m),
    ensures
        replay_onto(m, acked_lines(m, records, now)) == acked_all(m, named_keys(records), now),
    decreases records.len(),
{
    if records.len() == 0 {
        assert(acked_all(m, named_keys(records), now) =~= m);
    } else {
        let rest = records.drop_last();
        let k = records.last().spec_key();
        lemma_acked_lines_replay(m, rest, now);
        assert(named_keys(records) == named_keys(rest).insert(k)) by {
            lemma_named_keys_step(records, records.len() - 1);
            assert(records.take(records.len() as int) =~= records);
            assert(records.take(records.len() - 1) =~= rest);
        }
        let lines = acked_lines(m, records, now);
        let fewer = acked_lines(m, rest, now);
        if m.contains_key(k) {
            assert(lines.drop_last() =~= fewer);
            assert(m[k].key() == k);
            assert(replay_onto(m, lines) =~= acked_all(m, named_keys(records), now));
        } else {
            assert(acked_all(m, named_keys(rest), now) =~= acked_all(m, named_keys(records), now));
        }
    }
}

/// One change that is recorded by appending to the log.
pub enum Change {
    /// A session is inserted or replaced.
    Upsert { entry: EntryView },
    /// The status of the session under `key` is updated at `now`.
    Status {
        key: Seq<char>,
        status: RecordingStatus,
        end_ts: Option<i64>,
        duration_ms: Option<i32>,
        now: i64,
    },
    /// The sessions that `records` names become tombstones at `now`.
    Ack { records: Seq<RecordingKey>, now: i64 },
}

/// The map that the change `c` makes of `m`.
pub open spec fn changed(m: Map<Seq<char>, EntryView>, c: Change) -> Map<Seq<char>, EntryView> {
    match c {
        Change::Upsert { entry } => m.insert(entry.key(), entry),
        Change::Status { key, status, end_ts, duration_ms, now } => status_updated(
            m,
            key,
            status,
            end_ts,
            duration_ms,
            now,
        ),
        Change::Ack { records, now } => acked_all(m, named_keys(records), now),
    }
}

/// The lines that the change `c` of `m` appends to the log.
pub open spec fn change_lines(m: Map<Seq<char>, EntryView>, c: Change) -> Seq<EntryView> {
    match c {
        Change::Upsert { entry } => seq![entry],
        Change::Status { key, status, end_ts, duration_ms, now } => status_lines(
            m,
            key,
            status,
            end_ts,
            duration_ms,
            now,
        ),
        Change::Ack { records, now } => acked_lines(m, records, now),
    }
}

/// The map that an empty index holds after `changes`.
pub open spec fn state_after(changes: Seq<Change>) -> Map<Seq<char>, EntryView>
    decreases changes.len(),
{
    if changes.len() == 0 {
        Map::empty()
    } else {
        changed(state_after(changes.drop_last()), changes.last())
    }
}

/// The log that `changes` to an empty index have written.
pub open spec fn log_after(changes: Seq<Change>) -> Seq<EntryView>
    decreases changes.len(),
{
    if changes.len() == 0 {
        Seq::empty()
    } else {
        log_after(changes.drop_last()) + change_lines(
            state_after(changes.drop_last()),
            changes.last(),
        )
    }
}

/// Round trip: after any sequence of changes the log stands for the map that
/// the index holds, so reloading the log after every write gives back the
/// current state, the last write of each key winning.
pub proof fn lemma_log_round_trip(changes: Seq<Change>)
    ensures
        replay(log_after(changes)) == state_after(changes),
        keyed(state_after(changes)),
    decreases changes.len(),
{
    if changes.len() > 0 {
        let earlier = changes.drop_last();
        let c = changes.last();
        lemma_log_round_trip(earlier);
        let m = state_after(earlier);
        let lines = change_lines(m, c);
        lemma_appended_log_replays(log_after(earlier), m, lines);
        match c {
            Change::Upsert { entry } => {
                assert(lines.drop_last() =~= Seq::<EntryView>::empty());
                assert(replay_onto(m, lines.drop_last()) == m);
                assert(replay_onto(m, lines) == m.insert(entry.key(), entry));
            },
            Change::Status { key, status, end_ts, duration_ms, now } => {
                lemma_status_lines_replay(m, key, status, end_ts, duration_ms, now);
                if m.contains_key(key) {
                    assert(m[key].key() == key);
                }
            },
            Change::Ack { records, now } => {
                lemma_acked_lines_replay(m, records, now);
                assert forall|k: Seq<char>| acked_all(m, named_keys(records), now).contains_key(
                    k,
                ) implies (#[trigger] acked_all(m, named_keys(records), now)[k]).key() == k by {
                    assert(m[k].key() == k);
                }
            },
        }
    }
}

/// Deletion is guarded: a session that is no tombstone stays as it is
/// whatever is named, and where no tombstone is named nothing is removed.
pub proof fn lemma_delete_guard(m: Map<Seq<char>, EntryView>, names: Set<Seq<char>>)
    ensures
        forall|k: Seq<char>|
            m.contains_key(k) && m[k].status != RecordingStatus::Acked ==> #[trigger] without_acked(
                m,
                names,
            ).contains_key(k) && without_acked(m, names)[k] == m[k],
        (forall|k: Seq<char>|
            names.contains(k) && m.contains_key(k) ==> (#[trigger] m[k]).status
                != RecordingStatus::Acked) ==> without_acked(m, names) == m && deletable(
            m,
            names,
        ).len() == 0,
{
    if forall|k: Seq<char>|
        names.contains(k) && m.contains_key(k) ==> (#[trigger] m[k]).status
            != RecordingStatus::Acked {
        assert(deletable(m, names) =~= Set::empty());
        assert(without_acked(m, names) =~= m);
    }
}

} // verus!
