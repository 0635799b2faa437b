//! The recording index: the sessions by key, and what each change means for
//! the log file that backs them.

use crate::clock::{now_instant, CLOCK_MICROS_BOUND};
use crate::compaction::{entry_lt, is_snapshot};
use crate::journal::{
    acked_all, acked_lines, compaction_due, deletable, keyed, lemma_acked_lines_replay,
    lemma_status_lines_replay, next_pending, replay, replay_onto, status_lines, status_updated,
    without_acked, COMPACT_EVERY,
};
use crate::listing::{
    ascending, distinct_keys, is_latest, is_page, lemma_count_keys, listed, listed_keys, names,
    page_size, session_views, sessions_of, shows, text_of, DEFAULT_PAGE,
};
use crate::session::{
    key_of, lemma_named_keys_step, named_keys, rows_of, session_key, AckRecordingsRequest,
    DeleteRecordingsRequest, EntryView, RecordingIndexEntry, RecordingKey, RecordingSession,
    RecordingStatus,
};
use crate::sorting::{orderable, places_within, precedes, sort_places, OrderBy};
use vstd::prelude::*;

verus! {

/// What a change asks of the log file: lines to append, in order, and
/// whether the log is to be rewritten from the index whatever the count of
/// appended entries says. The program appends the lines and then reports them
/// with [`RecordingsIndex::appended`], which says whether the count asks for
/// compaction.
#[derive(Debug)]
pub struct WritePlan {
    pub append: Vec<RecordingIndexEntry>,
    pub compact: bool,
}

/// The sessions by key, with the count of appended entries that decides when
/// the log is compacted. The keys are text, and vstd models hash maps for
/// keys that are integers only; so keys and entries stand side by side in two
/// vectors, with the invariant that no key occurs twice.
#[derive(Debug)]
pub struct RecordingsIndex {
    keys: Vec<String>,
    entries: Vec<RecordingIndexEntry>,
    write_count: usize,
}

impl View for RecordingsIndex {
    type V = Map<Seq<char>, EntryView>;

    closed spec fn view(&self) -> Map<Seq<char>, EntryView> {
        Map::new(
            |k: Seq<char>| exists|i: int| 0 <= i < self.keys.len() && self.keys[i]@ == k,
            |k: Seq<char>| self.entries[self.slot(k)]@,
        )
    }
}

impl RecordingsIndex {
    /// The place of the key `k`.
    closed spec fn slot(&self, k: Seq<char>) -> int {
        choose|i: int| 0 <= i < self.keys.len() && self.keys[i]@ == k
    }

    /// The invariant: every entry stands beside its key, and no key occurs
    /// twice.
    pub closed spec fn wf(&self) -> bool {
        &&& self.keys.len() == self.entries.len()
        &&& forall|i: int|
            0 <= i < self.keys.len() ==> (#[trigger] self.keys[i])@ == self.entries[i]@.key()
        &&& forall|i: int, j: int|
            0 <= i < j < self.keys.len() ==> (#[trigger] self.keys[i])@ != (
            #[trigger] self.keys[j])@
        &&& self.write_count < COMPACT_EVERY
    }

    /// The number of entries appended so far, modulo [`COMPACT_EVERY`].
    pub closed spec fn pending_writes(&self) -> nat {
        self.write_count as nat
    }

    /// In an index that satisfies its invariant, the key at a place is held
    /// at that place only, with the entry beside it.
    proof fn lemma_slot(&self, i: int)
        requires
            self.wf(),
            0 <= i < self.keys.len(),
        ensures
            self.slot(self.keys[i]@) == i,
            self@.contains_key(self.keys[i]@),
            self@[self.keys[i]@] == self.entries[i]@,
    {
        let k = self.keys[i]@;
        let j = self.slot(k);
        assert(0 <= j < self.keys.len() && self.keys[j]@ == k);
        if j < i {
            assert(self.keys[j]@ != self.keys[i]@);
        } else if i < j {
            assert(self.keys[i]@ != self.keys[j]@);
        }
    }

    /// An index satisfies its invariant only with a finite map in which every
    /// entry is held under its own key.
    pub proof fn lemma_view_keyed(&self)
        requires
            self.wf(),
        ensures
            keyed(self@),
            self@.dom().finite(),
    {
        assert forall|k: Seq<char>| self@.contains_key(k) implies (#[trigger] self@[k]).key()
            == k by {
            let i = self.slot(k);
            self.lemma_slot(i);
        }
        self.lemma_dom(self.keys.len() as int);
        assert(self.dom_upto(self.keys.len() as int) =~= self@.dom());
    }

    /// The keys at the places below `n`.
    closed spec fn dom_upto(&self, n: int) -> Set<Seq<char>> {
        Set::new(|k: Seq<char>| exists|i: int| 0 <= i < n && self.keys[i]@ == k)
    }

    /// The places below `n` hold `n` keys.
    proof fn lemma_dom(&self, n: int)
        requires
            self.wf(),
            0 <= n <= self.keys.len(),
        ensures
            self.dom_upto(n).finite(),
            self.dom_upto(n).len() == n,
        decreases n,
    {
        if n == 0 {
            assert(self.dom_upto(0) =~= Set::empty());
        } else {
            self.lemma_dom(n - 1);
            let k = self.keys[n - 1]@;
            assert(!self.dom_upto(n - 1).contains(k)) by {
                if self.dom_upto(n - 1).contains(k) {
                    let i = choose|i: int| 0 <= i < n - 1 && self.keys[i]@ == k;
                    assert(self.keys[i]@ != self.keys[n - 1]@);
                }
            }
            assert(self.dom_upto(n) =~= self.dom_upto(n - 1).insert(k)) by {
                assert forall|x: Seq<char>|
                    self.dom_upto(n - 1).insert(k).contains(x) implies self.dom_upto(n).contains(
                    x,
                ) by {
                    if x == k {
                        assert(self.keys[n - 1]@ == x);
                    } else {
                        let i = choose|i: int| 0 <= i < n - 1 && self.keys[i]@ == x;
                        assert(0 <= i < n && self.keys[i]@ == x);
                    }
                }
            }
        }
    }

    /// An index without sessions and without writes.
    pub fn new() -> (index: Self)
        ensures
            index.wf(),
            index@ == Map::<Seq<char>, EntryView>::empty(),
            index.pending_writes() == 0,
    {
        let index = RecordingsIndex { keys: Vec::new(), entries: Vec::new(), write_count: 0 };
        assert(index@ =~= Map::<Seq<char>, EntryView>::empty());
        index
    }

    /// The number of sessions held.
    pub fn len(&self) -> (n: usize)
        requires
            self.wf(),
        ensures
            n == self@.dom().len(),
    {
        proof {
            self.lemma_dom(self.keys.len() as int);
            assert(self.dom_upto(self.keys.len() as int) =~= self@.dom());
        }
        self.keys.len()
    }

    /// Where `key` is held, if it is.
    fn position(&self, key: &String) -> (at: Option<usize>)
        requires
            self.wf(),
        ensures
            match at {
                Some(i) => i < self.keys.len() && self.keys[i as int]@ == key@
                    && self@.contains_key(key@) && self@[key@] == self.entries[i as int]@,
                None => !self@.contains_key(key@),
            },
    {
        let mut i: usize = 0;
        while i < self.keys.len()
            invariant
                self.wf(),
                i <= self.keys.len(),
                forall|j: int| 0 <= j < i ==> (#[trigger] self.keys[j])@ != key@,
            decreases self.keys.len() - i,
        {
            if self.keys[i] == *key {
                proof {
                    self.lemma_slot(i as int);
                }
                return Some(i);
            }
            i += 1;
        }
        None
    }

    /// The session `record` of `stream`, if the index holds it.
    pub fn get(&self, stream: &str, record: &str) -> (found: Option<RecordingIndexEntry>)
        requires
            self.wf(),
        ensures
            match found {
                Some(e) => self@.contains_key(key_of(stream@, record@)) && e@ == self@[key_of(
                    stream@,
                    record@,
                )],
                None => !self@.contains_key(key_of(stream@, record@)),
            },
    {
        let key = session_key(stream, record);
        match self.position(&key) {
            Some(i) => Some(self.entries[i].clone()),
            None => None,
        }
    }

    /// Puts `entry` in the place `i`, whose key it has.
    fn replace_at(&mut self, i: usize, entry: RecordingIndexEntry)
        requires
            old(self).wf(),
            i < old(self).keys.len(),
            old(self).keys[i as int]@ == entry@.key(),
        ensures
            final(self).wf(),
            final(self)@ == old(self)@.insert(entry@.key(), entry@),
            final(self).pending_writes() == old(self).pending_writes(),
            final(self).keys == old(self).keys,
            final(self).entries@ == old(self).entries@.update(i as int, entry),
    {
        let ghost before = *self;
        self.entries[i] = entry;
        assert(self.wf());
        assert(self@ =~= before@.insert(entry@.key(), entry@)) by {
            assert forall|k: Seq<char>| self@.contains_key(k) implies #[trigger] self@[k]
                == before@.insert(entry@.key(), entry@)[k] by {
                let j = self.slot(k);
                self.lemma_slot(j);
                before.lemma_slot(j);
            }
        }
    }

    /// Drops the place `i`.
    fn remove_at(&mut self, i: usize)
        requires
            old(self).wf(),
            i < old(self).keys.len(),
        ensures
            final(self).wf(),
            final(self)@ == old(self)@.remove(old(self).keys[i as int]@),
            final(self).pending_writes() == old(self).pending_writes(),
            final(self).keys.len() == old(self).keys.len() - 1,
    {
        let ghost before = *self;
        let ghost gone = self.keys[i as int]@;
        self.keys.remove(i);
        self.entries.remove(i);
        assert(self.wf()) by {
            assert forall|a: int, b: int| 0 <= a < b < self.keys.len() implies (
            #[trigger] self.keys[a])@ != (#[trigger] self.keys[b])@ by {
                let a0 = if a < i { a } else { a + 1 };
                let b0 = if b < i { b } else { b + 1 };
                assert(self.keys[a] == before.keys[a0]);
                assert(self.keys[b] == before.keys[b0]);
                assert(before.keys[a0]@ != before.keys[b0]@);
            }
            assert forall|a: int| 0 <= a < self.keys.len() implies (#[trigger] self.keys[a])@
                == self.entries[a]@.key() by {
                let a0 = if a < i { a } else { a + 1 };
                assert(self.keys[a] == before.keys[a0]);
                assert(self.entries[a] == before.entries[a0]);
            }
        }
        assert(self@ =~= before@.remove(gone)) by {
            assert forall|k: Seq<char>| before@.remove(gone).contains_key(k) implies self@.contains_key(
                k,
            ) by {
                let j = before.slot(k);
                before.lemma_slot(j);
                let j1 = if j < i { j } else { j - 1 };
                assert(self.keys[j1] == before.keys[j]);
            }
            assert forall|k: Seq<char>| self@.contains_key(k) implies before@.remove(
                gone,
            ).contains_key(k) && #[trigger] self@[k] == before@.remove(gone)[k] by {
                let j = self.slot(k);
                self.lemma_slot(j);
                let j0 = if j < i { j } else { j + 1 };
                assert(self.keys[j] == before.keys[j0]);
                assert(self.entries[j] == before.entries[j0]);
                before.lemma_slot(j0);
                before.lemma_slot(i as int);
            }
        }
    }

    /// Holds `entry` under its key, in place of what was held there.
    fn put(&mut self, entry: RecordingIndexEntry)
        requires
            old(self).wf(),
        ensures
            final(self).wf(),
            final(self)@ == old(self)@.insert(entry@.key(), entry@),
            final(self).pending_writes() == old(self).pending_writes(),
    {
        let key = entry.key();
        let ghost before = *self;
        match self.position(&key) {
            Some(i) => {
                self.replace_at(i, entry);
            },
            None => {
                self.keys.push(key);
                self.entries.push(entry);
                assert(self.wf());
                assert(self@ =~= before@.insert(entry@.key(), entry@)) by {
                    let n = before.keys.len() as int;
                    assert(self.keys[n]@ == entry@.key());
                    assert forall|k: Seq<char>|
                        before@.insert(entry@.key(), entry@).contains_key(
                            k,
                        ) implies self@.contains_key(k) by {
                        if k == entry@.key() {
                            assert(self.keys[n]@ == k);
                        } else {
                            let j = before.slot(k);
                            assert(self.keys[j]@ == k);
                        }
                    }
                    assert forall|k: Seq<char>| self@.contains_key(k) implies #[trigger] self@[k]
                        == before@.insert(entry@.key(), entry@)[k] by {
                        let j = self.slot(k);
                        self.lemma_slot(j);
                        if j < n {
                            before.lemma_slot(j);
                        }
                    }
                }
            },
        }
    }

    /// Counts `appended` entries as written to the log, once the program has
    /// appended them, and tells whether the log is now to be compacted: it is
    /// whenever the count of appended entries comes to a multiple of
    /// [`COMPACT_EVERY`].
    pub fn appended(&mut self, appended: usize) -> (compact: bool)
        requires
            old(self).wf(),
        ensures
            final(self).wf(),
            final(self)@ == old(self)@,
            final(self).pending_writes() == next_pending(
                old(self).pending_writes(),
                appended as nat,
            ),
            compact == compaction_due(old(self).pending_writes(), appended as nat),
    {
        let ghost before = *self;
        self.write_count = (self.write_count + appended % COMPACT_EVERY) % COMPACT_EVERY;
        assert(self@ =~= before@);
        appended > 0 && self.write_count == 0
    }

    /// The index that a log stands for: the entries are applied in order, and
    /// of several entries with one key the last stays.
    pub fn load(entries: Vec<RecordingIndexEntry>) -> (index: Self)
        ensures
            index.wf(),
            index@ == replay(rows_of(entries@)),
            index.pending_writes() == 0,
    {
        let mut index = RecordingsIndex::new();
        let mut i: usize = 0;
        while i < entries.len()
            invariant
                i <= entries.len(),
                index.wf(),
                index.pending_writes() == 0,
                index@ == replay(rows_of(entries@).take(i as int)),
            decreases entries.len() - i,
        {
            index.put(entries[i].clone());
            proof {
                let log = rows_of(entries@);
                assert(log.take(i + 1).drop_last() =~= log.take(i as int));
                assert(log.take(i + 1).last() == entries[i as int]@);
            }
            i += 1;
        }
        assert(rows_of(entries@).take(entries.len() as int) =~= rows_of(entries@));
        index
    }

    /// Inserts `entry`, or replaces the session with its key, and plans the
    /// one line that records it.
    pub fn upsert(&mut self, entry: RecordingIndexEntry) -> (plan: WritePlan)
        requires
            old(self).wf(),
        ensures
            final(self).wf(),
            final(self)@ == old(self)@.insert(entry@.key(), entry@),
            rows_of(plan.append@) == seq![entry@],
            final(self)@ == replay_onto(old(self)@, rows_of(plan.append@)),
            final(self).pending_writes() == old(self).pending_writes(),
            !plan.compact,
    {
        let ghost before = self@;
        let line = entry.clone();
        self.put(entry);
        let compact = false;
        let mut append: Vec<RecordingIndexEntry> = Vec::new();
        append.push(line);
        proof {
            let lines = seq![entry@];
            assert(rows_of(append@) =~= lines);
            assert(lines.drop_last() =~= Seq::<EntryView>::empty());
            assert(replay_onto(before, lines.drop_last()) == before);
            assert(replay_onto(before, lines) == before.insert(entry@.key(), entry@));
        }
        WritePlan { append, compact }
    }

    /// Sets status, end and duration of the session `record` of `stream` and
    /// stamps it with `now`; plans the line that records it. Changes nothing
    /// and plans nothing where the index holds no such session.
    pub fn update_status_at(
        &mut self,
        stream: &str,
        record: &str,
        status: RecordingStatus,
        end_ts: Option<i64>,
        duration_ms: Option<i32>,
        now: i64,
    ) -> (plan: WritePlan)
        requires
            old(self).wf(),
        ensures
            final(self).wf(),
            final(self)@ == status_updated(
                old(self)@,
                key_of(stream@, record@),
                status,
                end_ts,
                duration_ms,
                now,
            ),
            rows_of(plan.append@) == status_lines(
                old(self)@,
                key_of(stream@, record@),
                status,
                end_ts,
                duration_ms,
                now,
            ),
            final(self)@ == replay_onto(old(self)@, rows_of(plan.append@)),
            final(self).pending_writes() == old(self).pending_writes(),
            !plan.compact,
    {
        proof {
            self.lemma_view_keyed();
            lemma_status_lines_replay(
                self@,
                key_of(stream@, record@),
                status,
                end_ts,
                duration_ms,
                now,
            );
        }
        let key = session_key(stream, record);
        let mut append: Vec<RecordingIndexEntry> = Vec::new();
        match self.position(&key) {
            Some(i) => {
                let mut entry = self.entries[i].clone();
                entry.status = status;
                entry.end_ts = end_ts;
                entry.duration_ms = duration_ms;
                entry.updated_at = now;
                append.push(entry.clone());
                self.replace_at(i, entry);
                assert(rows_of(append@) =~= seq![entry@]);
            },
            None => {
                assert(rows_of(append@) =~= Seq::<EntryView>::empty());
            },
        }
        WritePlan { append, compact: false }
    }

    /// As [`Self::update_status_at`], stamped with the current time in
    /// microseconds.
    pub fn update_status(
        &mut self,
        stream: &str,
        record: &str,
        status: RecordingStatus,
        end_ts: Option<i64>,
        duration_ms: Option<i32>,
    ) -> (plan: WritePlan)
        requires
            old(self).wf(),
        ensures
            final(self).wf(),
            exists|now: i64|
                {
                    &&& 0 <= now < CLOCK_MICROS_BOUND
                    &&& final(self)@ == #[trigger] status_updated(
                        old(self)@,
                        key_of(stream@, record@),
                        status,
                        end_ts,
                        duration_ms,
                        now,
                    )
                    &&& rows_of(plan.append@) == status_lines(
                        old(self)@,
                        key_of(stream@, record@),
                        status,
                        end_ts,
                        duration_ms,
                        now,
                    )
                },
            final(self)@ == replay_onto(old(self)@, rows_of(plan.append@)),
            final(self).pending_writes() == old(self).pending_writes(),
            !plan.compact,
    {
        let now = now_instant().micros();
        self.update_status_at(stream, record, status, end_ts, duration_ms, now)
    }

    /// Turns every session that `records` names and the index holds into a
    /// tombstone stamped with `now`, and plans one line for each such name.
    /// Returns how many names the index held.
    pub fn ack_at(&mut self, records: &Vec<RecordingKey>, now: i64) -> (done: (usize, WritePlan))
        requires
            old(self).wf(),
        ensures
            final(self).wf(),
            final(self)@ == acked_all(old(self)@, named_keys(records@), now),
            rows_of(done.1.append@) == acked_lines(old(self)@, records@, now),
            final(self)@ == replay_onto(old(self)@, rows_of(done.1.append@)),
            done.0 == done.1.append@.len(),
            final(self).pending_writes() == old(self).pending_writes(),
            !done.1.compact,
    {
        proof {
            self.lemma_view_keyed();
            lemma_acked_lines_replay(self@, records@, now);
        }
        let ghost before = *self;
        let mut append: Vec<RecordingIndexEntry> = Vec::new();
        let mut i: usize = 0;
        assert(self@ =~= acked_all(before@, named_keys(records@.take(0)), now));
        assert(rows_of(append@) =~= acked_lines(before@, records@.take(0), now));
        while i < records.len()
            invariant
                i <= records.len(),
                self.wf(),
                self.pending_writes() == before.pending_writes(),
                self@ == acked_all(before@, named_keys(records@.take(i as int)), now),
                rows_of(append@) == acked_lines(before@, records@.take(i as int), now),
                append@.len() <= i,
            decreases records.len() - i,
        {
            let key = records[i].key();
            let ghost more = named_keys(records@.take(i + 1));
            proof {
                assert(records@.take(i + 1).drop_last() =~= records@.take(i as int));
                assert(records@.take(i + 1).last() == records[i as int]);
                lemma_named_keys_step(records@, i as int);
            }
            match self.position(&key) {
                Some(at) => {
                    let mut entry = self.entries[at].clone();
                    entry.status = RecordingStatus::Acked;
                    entry.updated_at = now;
                    append.push(entry.clone());
                    self.replace_at(at, entry);
                    proof {
                        assert(entry@ == before@[key@].acked(now));
                        assert(self@ =~= acked_all(before@, more, now));
                        assert(rows_of(append@) =~= acked_lines(
                            before@,
                            records@.take(i + 1),
                            now,
                        ));
                    }
                },
                None => {
                    proof {
                        assert(self@ =~= acked_all(before@, more, now));
                    }
                },
            }
            i += 1;
        }
        assert(records@.take(records.len() as int) =~= records@);
        let count = append.len();
        (count, WritePlan { append, compact: false })
    }

    /// As [`Self::ack_at`], stamped with the current time in microseconds.
    pub fn ack(&mut self, req: AckRecordingsRequest) -> (done: (usize, WritePlan))
        requires
            old(self).wf(),
        ensures
            final(self).wf(),
            exists|now: i64|
                {
                    &&& 0 <= now < CLOCK_MICROS_BOUND
                    &&& final(self)@ == #[trigger] acked_all(
                        old(self)@,
                        named_keys(req.records@),
                        now,
                    )
                    &&& rows_of(done.1.append@) == acked_lines(old(self)@, req.records@, now)
                },
            final(self)@ == replay_onto(old(self)@, rows_of(done.1.append@)),
            done.0 == done.1.append@.len(),
            final(self).pending_writes() == old(self).pending_writes(),
            !done.1.compact,
    {
        let now = now_instant().micros();
        self.ack_at(&req.records, now)
    }

    /// Removes the tombstones that `req` names; a name that the index does
    /// not hold, or holds with another status, changes nothing. Returns how
    /// many sessions were removed and a plan that asks for compaction where
    /// any was.
    pub fn delete_acked(&mut self, req: DeleteRecordingsRequest) -> (done: (usize, WritePlan))
        requires
            old(self).wf(),
        ensures
            final(self).wf(),
            final(self)@ == without_acked(old(self)@, named_keys(req.records@)),
            done.0 == deletable(old(self)@, named_keys(req.records@)).len(),
            done.1.append@.len() == 0,
            done.1.compact == (done.0 > 0),
            final(self).pending_writes() == old(self).pending_writes(),
    {
        let ghost before = *self;
        let records = req.records;
        let mut removed: usize = 0;
        let mut i: usize = 0;
        proof {
            before.lemma_view_keyed();
            assert(deletable(before@, named_keys(records@.take(0))) =~= Set::empty());
            assert(self@ =~= without_acked(before@, named_keys(records@.take(0))));
        }
        while i < records.len()
            invariant
                i <= records.len(),
                self.wf(),
                before.wf(),
                before@.dom().finite(),
                self.pending_writes() == before.pending_writes(),
                self@ == without_acked(before@, named_keys(records@.take(i as int))),
                deletable(before@, named_keys(records@.take(i as int))).finite(),
                removed == deletable(before@, named_keys(records@.take(i as int))).len(),
                removed + self.keys.len() == before.keys.len(),
            decreases records.len() - i,
        {
            let key = records[i].key();
            let ghost names = named_keys(records@.take(i as int));
            let ghost more = named_keys(records@.take(i + 1));
            proof {
                lemma_named_keys_step(records@, i as int);
            }
            let at = self.position(&key);
            let hit = match at {
                Some(p) => matches!(self.entries[p].status, RecordingStatus::Acked),
                None => false,
            };
            if hit {
                let p = at.unwrap();
                self.remove_at(p);
                removed += 1;
                proof {
                    assert(deletable(before@, more) =~= deletable(before@, names).insert(key@));
                    assert(self@ =~= without_acked(before@, more));
                }
            } else {
                proof {
                    assert(deletable(before@, more) =~= deletable(before@, names));
                }
            }
            i += 1;
        }
        assert(records@.take(records.len() as int) =~= records@);
        (removed, WritePlan { append: Vec::new(), compact: removed > 0 })
    }

    /// Copies of the entries at the first `count` of the places `order`.
    fn pick(&self, order: &Vec<usize>, count: usize) -> (rows: Vec<RecordingIndexEntry>)
        requires
            places_within(order@, self.entries@.len()),
            count <= order@.len(),
        ensures
            rows@.len() == count,
            forall|r: int|
                0 <= r < count ==> (#[trigger] rows@[r])@ == self.entries@[order@[r] as int]@,
    {
        let mut rows: Vec<RecordingIndexEntry> = Vec::new();
        let mut r: usize = 0;
        while r < count
            invariant
                r <= count <= order@.len(),
                places_within(order@, self.entries@.len()),
                rows@.len() == r,
                forall|q: int|
                    0 <= q < r ==> (#[trigger] rows@[q])@ == self.entries@[order@[q] as int]@,
            decreases count - r,
        {
            rows.push(self.entries[order[r]].clone());
            r += 1;
        }
        rows
    }

    /// The entries have different keys.
    proof fn lemma_orderable(&self, by: OrderBy)
        requires
            self.wf(),
        ensures
            orderable(rows_of(self.entries@), by),
    {
        let rows = rows_of(self.entries@);
        assert forall|i: int, j: int| 0 <= i < j < rows.len() implies #[trigger] rows[i].key()
            != #[trigger] rows[j].key() by {
            assert(self.keys[i]@ != self.keys[j]@);
        }
    }

    /// The lines of the compacted log: every session once, ordered by stream
    /// and record.
    pub fn compaction_snapshot(&self) -> (rows: Vec<RecordingIndexEntry>)
        requires
            self.wf(),
        ensures
            is_snapshot(self@, rows_of(rows@)),
    {
        let n = self.entries.len();
        let mut places: Vec<usize> = Vec::new();
        let mut i: usize = 0;
        while i < n
            invariant
                i <= n == self.entries@.len(),
                places@.len() == i,
                forall|j: int| 0 <= j < i ==> #[trigger] places@[j] == j,
            decreases n - i,
        {
            places.push(i);
            i += 1;
        }
        proof {
            self.lemma_orderable(OrderBy::Key);
        }
        let order = sort_places(&self.entries, OrderBy::Key, &places);
        let rows = self.pick(&order, order.len());
        proof {
            let all = rows_of(rows@);
            let held = rows_of(self.entries@);
            assert forall|a: int, b: int| 0 <= a < b < all.len() implies entry_lt(
                all[a],
                all[b],
            ) by {
                assert(precedes(held, OrderBy::Key, order@[a] as int, order@[b] as int));
            }
            assert forall|r: int| 0 <= r < all.len() implies self@.contains_key(
                #[trigger] all[r].key(),
            ) && self@[all[r].key()] == all[r] by {
                self.lemma_slot(order@[r] as int);
            }
            assert forall|k: Seq<char>| self@.contains_key(k) implies exists|r: int|
                0 <= r < all.len() && #[trigger] all[r].key() == k by {
                let j = self.slot(k);
                self.lemma_slot(j);
                assert(places@[j] == j);
                assert(places@.contains(j as usize));
                assert(order@.contains(j as usize));
                let r = choose|r: int| 0 <= r < order@.len() && order@[r] == j as usize;
                assert(all[r].key() == k);
            }
        }
        rows
    }

    /// The page of entries that a listing with the given filters shows.
    fn page(&self, stream: &Option<String>, since: Option<i64>, limit: u32) -> (rows: Vec<
        RecordingIndexEntry,
    >)
        requires
            self.wf(),
        ensures
            is_page(self@, text_of(*stream), since, page_size(limit), rows_of(rows@)),
    {
        let size: usize = if limit == 0 {
            DEFAULT_PAGE as usize
        } else {
            limit as usize
        };
        let n = self.entries.len();
        let mut places: Vec<usize> = Vec::new();
        let mut i: usize = 0;
        while i < n
            invariant
                self.wf(),
                i <= n == self.entries@.len(),
                forall|r: int|
                    0 <= r < places@.len() ==> #[trigger] places@[r] < i && listed(
                        self.entries@[places@[r] as int]@,
                        text_of(*stream),
                        since,
                    ),
                forall|a: int, b: int| 0 <= a < b < places@.len() ==> places@[a] < places@[b],
                forall|j: int|
                    0 <= j < i && listed(self.entries@[j]@, text_of(*stream), since)
                        ==> #[trigger] places@.contains(j as usize),
            decreases n - i,
        {
            if shows(&self.entries[i], stream, since) {
                let ghost before = places@;
                places.push(i);
                proof {
                    assert forall|j: int|
                        0 <= j < i + 1 && listed(
                            self.entries@[j]@,
                            text_of(*stream),
                            since,
                        ) implies #[trigger] places@.contains(j as usize) by {
                        if j == i {
                            assert(places@[before.len() as int] == j as usize);
                        } else {
                            assert(before.contains(j as usize));
                            let r = choose|r: int| 0 <= r < before.len() && before[r] == j as usize;
                            assert(places@[r] == j as usize);
                        }
                    }
                }
            }
            i += 1;
        }
        proof {
            self.lemma_orderable(OrderBy::Time);
        }
        let order = sort_places(&self.entries, OrderBy::Time, &places);
        let count = if order.len() > size {
            size
        } else {
            order.len()
        };
        let rows = self.pick(&order, count);
        proof {
            let held = rows_of(self.entries@);
            let all = Seq::new(order@.len(), |r: int| held[order@[r] as int]);
            let cut = rows_of(rows@);
            let shown = listed_keys(self@, text_of(*stream), since);
            assert forall|r: int| 0 <= r < all.len() implies self@.contains_key(
                #[trigger] all[r].key(),
            ) && self@[all[r].key()] == all[r] && listed(all[r], text_of(*stream), since)
                && shown.contains(all[r].key()) by {
                self.lemma_slot(order@[r] as int);
                assert(order@.contains(order@[r]));
                assert(places@.contains(order@[r]));
                let k = choose|k: int| 0 <= k < places@.len() && places@[k] == order@[r];
                assert(listed(self.entries@[places@[k] as int]@, text_of(*stream), since));
            }
            assert(distinct_keys(all)) by {
                assert forall|a: int, b: int| 0 <= a < b < all.len() implies #[trigger] all[a].key()
                    != #[trigger] all[b].key() by {
                    assert(order@[a] != order@[b]);
                    if order@[a] < order@[b] {
                        assert(self.keys[order@[a] as int]@ != self.keys[order@[b] as int]@);
                    } else {
                        assert(self.keys[order@[b] as int]@ != self.keys[order@[a] as int]@);
                    }
                }
            }
            assert forall|k: Seq<char>| shown.contains(k) implies names(all, k) by {
                let j = self.slot(k);
                self.lemma_slot(j);
                assert(places@.contains(j as usize));
                assert(order@.contains(j as usize));
                let r = choose|r: int| 0 <= r < order@.len() && order@[r] == j as usize;
                assert(all[r].key() == k);
            }
            lemma_count_keys(all, shown);
            assert forall|r: int| 0 <= r < cut.len() implies cut[r] == all[r] by {
                assert(rows@[r]@ == self.entries@[order@[r] as int]@);
            }
            assert forall|r: int| 0 <= r < cut.len() implies self@.contains_key(
                #[trigger] cut[r].key(),
            ) && self@[cut[r].key()] == cut[r] && listed(cut[r], text_of(*stream), since) by {
                assert(cut[r] == all[r]);
                assert(shown.contains(all[r].key()));
            }
            assert(distinct_keys(cut)) by {
                assert forall|a: int, b: int| 0 <= a < b < cut.len() implies #[trigger] cut[a].key()
                    != #[trigger] cut[b].key() by {
                    assert(all[a].key() != all[b].key());
                }
            }
            assert(ascending(cut)) by {
                assert forall|a: int, b: int| 0 <= a <= b < cut.len() implies cut[a].updated_at
                    <= cut[b].updated_at by {
                    if a < b {
                        assert(precedes(held, OrderBy::Time, order@[a] as int, order@[b] as int));
                    }
                }
            }
            assert forall|k: Seq<char>, r: int|
                #![trigger self@[k], cut[r]]
                shown.contains(k) && !names(cut, k) && 0 <= r < cut.len() implies cut[r].updated_at
                    <= self@[k].updated_at by {
                assert(names(all, k));
                let q = choose|q: int| 0 <= q < all.len() && #[trigger] all[q].key() == k;
                if q < cut.len() {
                    assert(cut[q].key() == k);
                }
                assert(precedes(held, OrderBy::Time, order@[r] as int, order@[q] as int));
                assert(self@[all[q].key()] == all[q]);
            }
        }
        rows
    }

    /// The sessions that the given filters show, in ascending order of their
    /// time of writing and `limit` at most (100 where `limit` is zero), and
    /// the latest time of writing among them.
    pub fn list_sessions(&self, stream: Option<String>, since_ts: Option<i64>, limit: u32) -> (out:
        (Vec<RecordingSession>, Option<i64>))
        requires
            self.wf(),
        ensures
            exists|rows: Seq<EntryView>|
                {
                    &&& #[trigger] is_page(
                        self@,
                        text_of(stream),
                        since_ts,
                        page_size(limit),
                        rows,
                    )
                    &&& session_views(out.0@) == sessions_of(rows)
                    &&& is_latest(rows, out.1)
                },
            forall|i: int|
                0 <= i < out.0@.len() ==> (#[trigger] out.0@[i]).status != RecordingStatus::Acked,
            out.0@.len() == if page_size(limit) <= listed_keys(
                self@,
                text_of(stream),
                since_ts,
            ).len() {
                page_size(limit)
            } else {
                listed_keys(self@, text_of(stream), since_ts).len()
            },
            out.1 is None <==> out.0@.len() == 0,
    {
        let rows = self.page(&stream, since_ts, limit);
        let ghost shown = rows_of(rows@);
        let cursor = if rows.len() == 0 {
            None
        } else {
            Some(rows[rows.len() - 1].updated_at)
        };
        proof {
            if rows.len() > 0 {
                let last = rows.len() - 1;
                assert(shown[last].updated_at == cursor->0);
                assert forall|i: int| 0 <= i < shown.len() implies #[trigger] shown[i].updated_at
                    <= cursor->0 by {
                    assert(shown[i].updated_at <= shown[last].updated_at);
                }
            }
        }
        let mut sessions: Vec<RecordingSession> = Vec::new();
        let mut i: usize = 0;
        while i < rows.len()
            invariant
                i <= rows.len(),
                sessions@.len() == i,
                forall|j: int| 0 <= j < i ==> (#[trigger] sessions@[j])@ == rows@[j]@.session(),
            decreases rows.len() - i,
        {
            sessions.push(rows[i].session());
            i += 1;
        }
        proof {
            assert(session_views(sessions@) =~= sessions_of(shown));
            assert forall|i: int| 0 <= i < sessions@.len() implies (
            #[trigger] sessions@[i]).status != RecordingStatus::Acked by {
                assert(sessions@[i]@ == rows@[i]@.session());
                assert(self@.contains_key(shown[i].key()));
            }
        }
        (sessions, cursor)
    }
}

} // verus!
