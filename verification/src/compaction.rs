//! The compacted form of the index: every session once, ordered by stream
//! and record.

use crate::journal::replay;
use crate::order::{
    lemma_text_lt_irreflexive, lemma_text_lt_total, lemma_text_lt_transitive, str_lt, text_lt,
};
use crate::session::{EntryView, RecordingIndexEntry};
use vstd::prelude::*;

verus! {

/// `a` comes before `b` in a compacted log: by stream, and within a stream by
/// record.
pub open spec fn entry_lt(a: EntryView, b: EntryView) -> bool {
    text_lt(a.stream, b.stream) || (a.stream == b.stream && text_lt(a.record, b.record))
}

/// Each row comes before every later one.
pub open spec fn strictly_sorted(rows: Seq<EntryView>) -> bool {
    forall|i: int, j: int| 0 <= i < j < rows.len() ==> entry_lt(rows[i], rows[j])
}

/// `rows` is the compacted form of `m`: its rows are the entries of `m`, each
/// once, in order.
pub open spec fn is_snapshot(m: Map<Seq<char>, EntryView>, rows: Seq<EntryView>) -> bool {
    &&& strictly_sorted(rows)
    &&& forall|i: int|
        0 <= i < rows.len() ==> m.contains_key(#[trigger] rows[i].key()) && m[rows[i].key()]
            == rows[i]
    &&& forall|k: Seq<char>|
        m.contains_key(k) ==> exists|i: int| 0 <= i < rows.len() && #[trigger] rows[i].key() == k
}

/// No entry comes before itself.
pub proof fn lemma_entry_lt_irreflexive(a: EntryView)
    ensures
        !entry_lt(a, a),
{
    lemma_text_lt_irreflexive(a.stream);
    lemma_text_lt_irreflexive(a.record);
}

/// The order of entries is transitive.
pub proof fn lemma_entry_lt_transitive(a: EntryView, b: EntryView, c: EntryView)
    requires
        entry_lt(a, b),
        entry_lt(b, c),
    ensures
        entry_lt(a, c),
{
    lemma_text_lt_irreflexive(b.stream);
    if text_lt(a.stream, b.stream) && text_lt(b.stream, c.stream) {
        lemma_text_lt_transitive(a.stream, b.stream, c.stream);
    } else if a.stream == b.stream && b.stream == c.stream {
        lemma_text_lt_transitive(a.record, b.record, c.record);
    }
}

/// Of two entries with different keys one comes before the other.
pub proof fn lemma_entry_lt_total(a: EntryView, b: EntryView)
    requires
        a.key() != b.key(),
    ensures
        entry_lt(a, b) || entry_lt(b, a),
{
    lemma_text_lt_total(a.stream, b.stream);
    lemma_text_lt_total(a.record, b.record);
}

/// Compaction is a function of the map: two compacted forms of one map are
/// the same sequence, so compacting again without a change in between writes
/// the same lines.
pub proof fn lemma_snapshot_unique(
    m: Map<Seq<char>, EntryView>,
    a: Seq<EntryView>,
    b: Seq<EntryView>,
)
    requires
        is_snapshot(m, a),
        is_snapshot(m, b),
    ensures
        a == b,
{
    lemma_snapshot_prefix(m, a, b, a.len() as int);
    lemma_snapshot_prefix(m, b, a, b.len() as int);
    assert(a =~= b);
}

/// Two compacted forms of one map agree on the first `n` rows of the first.
proof fn lemma_snapshot_prefix(
    m: Map<Seq<char>, EntryView>,
    a: Seq<EntryView>,
    b: Seq<EntryView>,
    n: int,
)
    requires
        is_snapshot(m, a),
        is_snapshot(m, b),
        0 <= n <= a.len(),
    ensures
        n <= b.len(),
        forall|i: int| 0 <= i < n ==> a[i] == b[i],
    decreases n,
{
    if n > 0 {
        lemma_snapshot_prefix(m, a, b, n - 1);
        let i = n - 1;
        // a[i] occurs in b, at q
        let q = choose|q: int| 0 <= q < b.len() && #[trigger] b[q].key() == a[i].key();
        assert(b[q] == a[i]);
        if q < i {
            // then a[q] == b[q] == a[i] although a[q] comes before a[i]
            lemma_entry_lt_irreflexive(a[i]);
            assert(entry_lt(a[q], a[i]));
        } else if q > i {
            // b[i] occurs in a, at p
            let p = choose|p: int| 0 <= p < a.len() && #[trigger] a[p].key() == b[i].key();
            assert(a[p] == b[i]);
            assert(entry_lt(b[i], b[q]));
            lemma_entry_lt_irreflexive(a[i]);
            if p < i {
                assert(entry_lt(b[p], b[i]));
                lemma_entry_lt_irreflexive(b[i]);
            } else if p > i {
                assert(entry_lt(a[i], a[p]));
                lemma_entry_lt_transitive(a[i], a[p], a[i]);
            }
        }
    }
}

/// The rows of a compacted form have different keys.
pub proof fn lemma_snapshot_distinct(m: Map<Seq<char>, EntryView>, rows: Seq<EntryView>)
    requires
        is_snapshot(m, rows),
    ensures
        forall|i: int, j: int|
            0 <= i < j < rows.len() ==> #[trigger] rows[i].key() != #[trigger] rows[j].key(),
{
    assert forall|i: int, j: int| 0 <= i < j < rows.len() implies #[trigger] rows[i].key()
        != #[trigger] rows[j].key() by {
        if rows[i].key() == rows[j].key() {
            assert(entry_lt(rows[i], rows[j]));
            lemma_entry_lt_irreflexive(rows[i]);
        }
    }
}

/// Reloading a compacted log gives back the map it was written from.
pub proof fn lemma_snapshot_replays(m: Map<Seq<char>, EntryView>, rows: Seq<EntryView>)
    requires
        is_snapshot(m, rows),
    ensures
        replay(rows) == m,
{
    lemma_replay_dom(rows, rows.len() as int);
    lemma_snapshot_distinct(m, rows);
    assert(rows.take(rows.len() as int) =~= rows);
    let r = replay(rows);
    assert forall|k: Seq<char>| r.contains_key(k) implies m.contains_key(k) && r[k] == m[k] by {
        let i = choose|i: int| 0 <= i < rows.len() && rows[i].key() == k && r[k] == rows[i];
        assert(m.contains_key(rows[i].key()));
    }
    assert forall|k: Seq<char>| m.contains_key(k) implies r.contains_key(k) by {
        let i = choose|i: int| 0 <= i < rows.len() && #[trigger] rows[i].key() == k;
        assert(r.contains_key(rows[i].key()));
    }
    assert(r =~= m);
}

/// What replaying the first `n` lines of a log holds: under each key the
/// last of those lines that has it.
pub proof fn lemma_replay_dom(log: Seq<EntryView>, n: int)
    requires
        0 <= n <= log.len(),
    ensures
        forall|i: int| 0 <= i < n ==> replay(log.take(n)).contains_key(#[trigger] log[i].key()),
        forall|k: Seq<char>| #[trigger]
            replay(log.take(n)).contains_key(k) ==> exists|i: int|
                0 <= i < n && log[i].key() == k && replay(log.take(n))[k] == log[i] && forall|
                    j: int,
                | i < j < n ==> log[j].key() != k,
    decreases n,
{
    if n > 0 {
        lemma_replay_dom(log, n - 1);
        assert(log.take(n).drop_last() =~= log.take(n - 1));
        assert(log.take(n).last() == log[n - 1]);
        let r = replay(log.take(n));
        let r0 = replay(log.take(n - 1));
        assert(r == r0.insert(log[n - 1].key(), log[n - 1]));
        assert forall|k: Seq<char>| #[trigger] r.contains_key(k) implies exists|i: int|
            0 <= i < n && log[i].key() == k && r[k] == log[i] && forall|j: int|
                i < j < n ==> log[j].key() != k by {
            if k == log[n - 1].key() {
                assert(log[n - 1].key() == k && r[k] == log[n - 1]);
            } else {
                assert(r0.contains_key(k));
                let i = choose|i: int|
                    0 <= i < n - 1 && log[i].key() == k && r0[k] == log[i] && forall|j: int|
                        i < j < n - 1 ==> log[j].key() != k;
                assert(log[i].key() == k && r[k] == log[i]);
            }
        }
    } else {
        assert(log.take(0) =~= Seq::<EntryView>::empty());
    }
}

/// Whether `a` comes before `b` in a compacted log.
pub fn entry_before(a: &RecordingIndexEntry, b: &RecordingIndexEntry) -> (before: bool)
    ensures
        before == entry_lt(a@, b@),
{
    if str_lt(a.stream.as_str(), b.stream.as_str()) {
        true
    } else if a.stream == b.stream {
        str_lt(a.record.as_str(), b.record.as_str())
    } else {
        false
    }
}

} // verus!
