//! Sorting the places of entries: a merge sort over indices into a list of
//! entries, by one of the orders in which entries are written or listed.

use crate::compaction::{
    entry_before, entry_lt, lemma_entry_lt_irreflexive, lemma_entry_lt_total,
    lemma_entry_lt_transitive,
};
use crate::order::{
    lemma_text_lt_irreflexive, lemma_text_lt_total, lemma_text_lt_transitive, str_lt, text_lt,
};
use crate::session::{rows_of, EntryView, RecordingIndexEntry};
use vstd::prelude::*;

verus! {

/// An order of the entries of a list.
#[derive(Clone, Copy, Debug, PartialEq, Eq, Structural)]
pub enum OrderBy {
    /// By stream, and within a stream by record.
    Key,
    /// By the time of writing; among entries written at the same time the
    /// one that stands first in the list.
    Time,
    /// By record; among entries with the same record the one that stands
    /// first in the list.
    Record,
}

/// The entry at the place `a` of `rows` comes before the one at the place
/// `b`.
pub open spec fn precedes(rows: Seq<EntryView>, by: OrderBy, a: int, b: int) -> bool {
    match by {
        OrderBy::Key => entry_lt(rows[a], rows[b]),
        OrderBy::Time => rows[a].updated_at < rows[b].updated_at || (rows[a].updated_at
            == rows[b].updated_at && a < b),
        OrderBy::Record => text_lt(rows[a].record, rows[b].record) || (rows[a].record
            == rows[b].record && a < b),
    }
}

/// The order `by` tells any two places of `rows` apart: for the order by key
/// no two entries may have one key.
pub open spec fn orderable(rows: Seq<EntryView>, by: OrderBy) -> bool {
    by == OrderBy::Key ==> forall|i: int, j: int|
        0 <= i < j < rows.len() ==> #[trigger] rows[i].key() != #[trigger] rows[j].key()
}

/// Each of `places` comes before every later one.
pub open spec fn sorted_places(rows: Seq<EntryView>, by: OrderBy, places: Seq<usize>) -> bool {
    forall|i: int, j: int|
        0 <= i < j < places.len() ==> precedes(rows, by, places[i] as int, places[j] as int)
}

/// Every one of `places` is a place of a list of `len` entries.
pub open spec fn places_within(places: Seq<usize>, len: nat) -> bool {
    forall|i: int| 0 <= i < places.len() ==> #[trigger] places[i] < len
}

/// No place occurs twice among `places`.
pub open spec fn distinct_places(places: Seq<usize>) -> bool {
    forall|i: int, j: int| 0 <= i < j < places.len() ==> places[i] != places[j]
}

/// No place comes before itself.
pub proof fn lemma_precedes_irreflexive(rows: Seq<EntryView>, by: OrderBy, a: int)
    ensures
        !precedes(rows, by, a, a),
{
    lemma_entry_lt_irreflexive(rows[a]);
    lemma_text_lt_irreflexive(rows[a].record);
}

/// The order of places is transitive.
pub proof fn lemma_precedes_transitive(rows: Seq<EntryView>, by: OrderBy, a: int, b: int, c: int)
    requires
        precedes(rows, by, a, b),
        precedes(rows, by, b, c),
    ensures
        precedes(rows, by, a, c),
{
    match by {
        OrderBy::Key => {
            lemma_entry_lt_transitive(rows[a], rows[b], rows[c]);
        },
        OrderBy::Time => {},
        OrderBy::Record => {
            lemma_text_lt_irreflexive(rows[b].record);
            if text_lt(rows[a].record, rows[b].record) && text_lt(rows[b].record, rows[c].record) {
                lemma_text_lt_transitive(rows[a].record, rows[b].record, rows[c].record);
            }
        },
    }
}

/// Of two different places one comes before the other.
pub proof fn lemma_precedes_total(rows: Seq<EntryView>, by: OrderBy, a: int, b: int)
    requires
        orderable(rows, by),
        0 <= a < rows.len(),
        0 <= b < rows.len(),
        a != b,
    ensures
        precedes(rows, by, a, b) || precedes(rows, by, b, a),
{
    match by {
        OrderBy::Key => {
            if a < b {
                assert(rows[a].key() != rows[b].key());
            } else {
                assert(rows[b].key() != rows[a].key());
            }
            lemma_entry_lt_total(rows[a], rows[b]);
        },
        OrderBy::Time => {},
        OrderBy::Record => {
            lemma_text_lt_total(rows[a].record, rows[b].record);
        },
    }
}

/// What a sequence with one element more contains.
proof fn lemma_contains_push(s: Seq<usize>, v: usize, x: usize)
    ensures
        s.push(v).contains(x) <==> s.contains(x) || x == v,
{
    if s.contains(x) {
        let i = choose|i: int| 0 <= i < s.len() && s[i] == x;
        assert(s.push(v)[i] == x);
    }
    if x == v {
        assert(s.push(v)[s.len() as int] == x);
    }
    if s.push(v).contains(x) {
        let i = choose|i: int| 0 <= i < s.push(v).len() && s.push(v)[i] == x;
        if i < s.len() {
            assert(s[i] == x);
        }
    }
}

/// What one element more of a sequence contains.
proof fn lemma_contains_take(s: Seq<usize>, n: int, x: usize)
    requires
        0 <= n < s.len(),
    ensures
        s.take(n + 1).contains(x) <==> s.take(n).contains(x) || x == s[n],
{
    assert(s.take(n + 1) =~= s.take(n).push(s[n]));
    lemma_contains_push(s.take(n), s[n], x);
}

/// What two adjoining stretches of a sequence contain.
proof fn lemma_contains_split(s: Seq<usize>, lo: int, mid: int, hi: int, x: usize)
    requires
        0 <= lo <= mid <= hi <= s.len(),
    ensures
        s.subrange(lo, hi).contains(x) <==> s.subrange(lo, mid).contains(x) || s.subrange(
            mid,
            hi,
        ).contains(x),
{
    let whole = s.subrange(lo, hi);
    let left = s.subrange(lo, mid);
    let right = s.subrange(mid, hi);
    if whole.contains(x) {
        let i = choose|i: int| 0 <= i < whole.len() && whole[i] == x;
        if i < mid - lo {
            assert(left[i] == x);
        } else {
            assert(right[i - (mid - lo)] == x);
        }
    }
    if left.contains(x) {
        let i = choose|i: int| 0 <= i < left.len() && left[i] == x;
        assert(whole[i] == x);
    }
    if right.contains(x) {
        let i = choose|i: int| 0 <= i < right.len() && right[i] == x;
        assert(whole[i + (mid - lo)] == x);
    }
}

/// Whether the entry at the place `a` comes before the one at the place `b`.
pub fn comes_first(entries: &Vec<RecordingIndexEntry>, by: OrderBy, a: usize, b: usize) -> (yes:
    bool)
    requires
        a < entries@.len(),
        b < entries@.len(),
    ensures
        yes == precedes(rows_of(entries@), by, a as int, b as int),
{
    match by {
        OrderBy::Key => entry_before(&entries[a], &entries[b]),
        OrderBy::Time => entries[a].updated_at < entries[b].updated_at || (entries[a].updated_at
            == entries[b].updated_at && a < b),
        OrderBy::Record => {
            if str_lt(entries[a].record.as_str(), entries[b].record.as_str()) {
                true
            } else {
                entries[a].record == entries[b].record && a < b
            }
        },
    }
}

/// Merges two sorted lists of places that share no place into one.
fn merge(entries: &Vec<RecordingIndexEntry>, by: OrderBy, left: &Vec<usize>, right: &Vec<usize>) -> (out:
    Vec<usize>)
    requires
        orderable(rows_of(entries@), by),
        places_within(left@, entries@.len()),
        places_within(right@, entries@.len()),
        sorted_places(rows_of(entries@), by, left@),
        sorted_places(rows_of(entries@), by, right@),
        forall|i: int, j: int|
            0 <= i < left@.len() && 0 <= j < right@.len() ==> left@[i] != right@[j],
    ensures
        sorted_places(rows_of(entries@), by, out@),
        out@.len() == left@.len() + right@.len(),
        forall|x: usize| out@.contains(x) <==> left@.contains(x) || right@.contains(x),
{
    let ghost rows = rows_of(entries@);
    let mut out: Vec<usize> = Vec::new();
    let mut i: usize = 0;
    let mut j: usize = 0;
    let n = left.len();
    let m = right.len();
    proof {
        assert forall|x: usize| out@.contains(x) <==> left@.take(0).contains(x) || right@.take(
            0,
        ).contains(x) by {
            assert(left@.take(0) =~= Seq::<usize>::empty());
            assert(right@.take(0) =~= Seq::<usize>::empty());
        }
    }
    while i < n || j < m
        invariant
            rows == rows_of(entries@),
            n == left@.len(),
            m == right@.len(),
            i <= n,
            j <= m,
            out@.len() == i + j,
            orderable(rows, by),
            places_within(left@, entries@.len()),
            places_within(right@, entries@.len()),
            sorted_places(rows, by, left@),
            sorted_places(rows, by, right@),
            forall|a: int, b: int|
                0 <= a < left@.len() && 0 <= b < right@.len() ==> left@[a] != right@[b],
            sorted_places(rows, by, out@),
            forall|p: int, q: int|
                0 <= p < out@.len() && i <= q < n ==> precedes(
                    rows,
                    by,
                    #[trigger] out@[p] as int,
                    #[trigger] left@[q] as int,
                ),
            forall|p: int, q: int|
                0 <= p < out@.len() && j <= q < m ==> precedes(
                    rows,
                    by,
                    #[trigger] out@[p] as int,
                    #[trigger] right@[q] as int,
                ),
            forall|x: usize|
                out@.contains(x) <==> left@.take(i as int).contains(x) || right@.take(
                    j as int,
                ).contains(x),
        decreases (n - i) + (m - j),
    {
        let ghost before = out@;
        let take_left = if j >= m {
            true
        } else if i >= n {
            false
        } else {
            comes_first(entries, by, left[i], right[j])
        };
        if take_left {
            let v = left[i];
            out.push(v);
            proof {
                assert forall|p: int, q: int| 0 <= p < out@.len() && j <= q < m implies precedes(
                    rows,
                    by,
                    #[trigger] out@[p] as int,
                    #[trigger] right@[q] as int,
                ) by {
                    if p == before.len() {
                        if q > j {
                            assert(precedes(rows, by, right@[j as int] as int, right@[q] as int));
                            lemma_precedes_transitive(
                                rows,
                                by,
                                v as int,
                                right@[j as int] as int,
                                right@[q] as int,
                            );
                        }
                    } else {
                        assert(out@[p] == before[p]);
                    }
                }
                assert forall|p: int, q: int|
                    0 <= p < out@.len() && i + 1 <= q < n implies precedes(
                    rows,
                    by,
                    #[trigger] out@[p] as int,
                    #[trigger] left@[q] as int,
                ) by {
                    if p == before.len() {
                        assert(precedes(rows, by, left@[i as int] as int, left@[q] as int));
                    } else {
                        assert(out@[p] == before[p]);
                    }
                }
                assert(sorted_places(rows, by, out@)) by {
                    assert forall|a: int, b: int| 0 <= a < b < out@.len() implies precedes(
                        rows,
                        by,
                        out@[a] as int,
                        out@[b] as int,
                    ) by {
                        if b == before.len() {
                            assert(out@[a] == before[a]);
                            assert(precedes(rows, by, before[a] as int, left@[i as int] as int));
                        } else {
                            assert(out@[a] == before[a] && out@[b] == before[b]);
                        }
                    }
                }
                assert forall|x: usize|
                    out@.contains(x) <==> left@.take(i + 1).contains(x) || right@.take(
                        j as int,
                    ).contains(x) by {
                    lemma_contains_push(before, v, x);
                    lemma_contains_take(left@, i as int, x);
                }
            }
            i += 1;
        } else {
            let v = right[j];
            out.push(v);
            proof {
                if i < n {
                    lemma_precedes_total(rows, by, left@[i as int] as int, v as int);
                }
                assert forall|p: int, q: int| 0 <= p < out@.len() && i <= q < n implies precedes(
                    rows,
                    by,
                    #[trigger] out@[p] as int,
                    #[trigger] left@[q] as int,
                ) by {
                    if p == before.len() {
                        if q > i {
                            assert(precedes(rows, by, left@[i as int] as int, left@[q] as int));
                            lemma_precedes_transitive(
                                rows,
                                by,
                                v as int,
                                left@[i as int] as int,
                                left@[q] as int,
                            );
                        }
                    } else {
                        assert(out@[p] == before[p]);
                    }
                }
                assert forall|p: int, q: int|
                    0 <= p < out@.len() && j + 1 <= q < m implies precedes(
                    rows,
                    by,
                    #[trigger] out@[p] as int,
                    #[trigger] right@[q] as int,
                ) by {
                    if p == before.len() {
                        assert(precedes(rows, by, right@[j as int] as int, right@[q] as int));
                    } else {
                        assert(out@[p] == before[p]);
                    }
                }
                assert(sorted_places(rows, by, out@)) by {
                    assert forall|a: int, b: int| 0 <= a < b < out@.len() implies precedes(
                        rows,
                        by,
                        out@[a] as int,
                        out@[b] as int,
                    ) by {
                        if b == before.len() {
                            assert(out@[a] == before[a]);
                            assert(precedes(rows, by, before[a] as int, right@[j as int] as int));
                        } else {
                            assert(out@[a] == before[a] && out@[b] == before[b]);
                        }
                    }
                }
                assert forall|x: usize|
                    out@.contains(x) <==> left@.take(i as int).contains(x) || right@.take(
                        j + 1,
                    ).contains(x) by {
                    lemma_contains_push(before, v, x);
                    lemma_contains_take(right@, j as int, x);
                }
            }
            j += 1;
        }
    }
    proof {
        assert(left@.take(n as int) =~= left@);
        assert(right@.take(m as int) =~= right@);
    }
    out
}

/// Sorts the places from `lo` up to `hi` of `places`.
fn sort_range(
    entries: &Vec<RecordingIndexEntry>,
    by: OrderBy,
    places: &Vec<usize>,
    lo: usize,
    hi: usize,
) -> (out: Vec<usize>)
    requires
        orderable(rows_of(entries@), by),
        places_within(places@, entries@.len()),
        distinct_places(places@),
        lo <= hi <= places@.len(),
    ensures
        sorted_places(rows_of(entries@), by, out@),
        out@.len() == hi - lo,
        forall|x: usize| out@.contains(x) <==> places@.subrange(lo as int, hi as int).contains(x),
    decreases hi - lo,
{
    let ghost part = places@.subrange(lo as int, hi as int);
    if hi - lo == 0 {
        let out: Vec<usize> = Vec::new();
        assert forall|x: usize| out@.contains(x) <==> part.contains(x) by {
            assert(part =~= Seq::<usize>::empty());
        }
        out
    } else if hi - lo == 1 {
        let mut out: Vec<usize> = Vec::new();
        out.push(places[lo]);
        assert(out@ =~= part);
        out
    } else {
        let mid = lo + (hi - lo) / 2;
        let left = sort_range(entries, by, places, lo, mid);
        let right = sort_range(entries, by, places, mid, hi);
        proof {
            let first = places@.subrange(lo as int, mid as int);
            let second = places@.subrange(mid as int, hi as int);
            assert forall|i: int| 0 <= i < left@.len() implies #[trigger] left@[i]
                < entries@.len() by {
                assert(left@.contains(left@[i]));
                let k = choose|k: int| 0 <= k < first.len() && first[k] == left@[i];
                assert(places@[lo + k] == left@[i]);
            }
            assert forall|i: int| 0 <= i < right@.len() implies #[trigger] right@[i]
                < entries@.len() by {
                assert(right@.contains(right@[i]));
                let k = choose|k: int| 0 <= k < second.len() && second[k] == right@[i];
                assert(places@[mid + k] == right@[i]);
            }
            assert forall|i: int, j: int|
                0 <= i < left@.len() && 0 <= j < right@.len() implies left@[i] != right@[j] by {
                assert(left@.contains(left@[i]));
                assert(right@.contains(right@[j]));
                let a = choose|k: int| 0 <= k < first.len() && first[k] == left@[i];
                let b = choose|k: int| 0 <= k < second.len() && second[k] == right@[j];
                assert(places@[lo + a] == left@[i]);
                assert(places@[mid + b] == right@[j]);
            }
        }
        let out = merge(entries, by, &left, &right);
        proof {
            assert forall|x: usize| out@.contains(x) <==> part.contains(x) by {
                lemma_contains_split(places@, lo as int, mid as int, hi as int, x);
            }
        }
        out
    }
}

/// The places `places` of `entries` in the order `by`. The places have to be
/// places of `entries`, each at most once; for the order by key no two
/// entries may have one key.
pub fn sort_places(entries: &Vec<RecordingIndexEntry>, by: OrderBy, places: &Vec<usize>) -> (out:
    Vec<usize>)
    requires
        orderable(rows_of(entries@), by),
        places_within(places@, entries@.len()),
        distinct_places(places@),
    ensures
        sorted_places(rows_of(entries@), by, out@),
        out@.len() == places@.len(),
        places_within(out@, entries@.len()),
        distinct_places(out@),
        forall|x: usize| out@.contains(x) <==> places@.contains(x),
{
    let out = sort_range(entries, by, places, 0, places.len());
    proof {
        let rows = rows_of(entries@);
        assert(places@.subrange(0, places@.len() as int) =~= places@);
        assert forall|i: int| 0 <= i < out@.len() implies #[trigger] out@[i] < entries@.len() by {
            assert(out@.contains(out@[i]));
            let k = choose|k: int| 0 <= k < places@.len() && places@[k] == out@[i];
            assert(places@[k] < entries@.len());
        }
        assert forall|i: int, j: int| 0 <= i < j < out@.len() implies out@[i] != out@[j] by {
            assert(precedes(rows, by, out@[i] as int, out@[j] as int));
            lemma_precedes_irreflexive(rows, by, out@[i] as int);
        }
    }
    out
}

} // verus!
