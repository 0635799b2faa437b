//! What a listing of sessions shows: the filter, the order and the page.

use crate::session::{
    EntryView, RecordingIndexEntry, RecordingSession, RecordingStatus, SessionView,
};
use vstd::prelude::*;

verus! {

/// The page size that stands for a limit of zero.
pub const DEFAULT_PAGE: u32 = 100;

/// The text of an optional string.
pub open spec fn text_of(s: Option<String>) -> Option<Seq<char>> {
    match s {
        Some(t) => Some(t@),
        None => None,
    }
}

/// Whether a listing with the given filters shows `e`: it has the stream
/// asked for, was written after `since`, and is no tombstone.
pub open spec fn listed(e: EntryView, stream: Option<Seq<char>>, since: Option<i64>) -> bool {
    &&& (stream matches Some(s) ==> e.stream == s)
    &&& (since matches Some(t) ==> e.updated_at > t)
    &&& e.status != RecordingStatus::Acked
}

/// The number of rows that a listing with `limit` returns at most.
pub open spec fn page_size(limit: u32) -> nat {
    if limit == 0 {
        DEFAULT_PAGE as nat
    } else {
        limit as nat
    }
}

/// The keys of the sessions of `m` that a listing with the given filters
/// shows.
pub open spec fn listed_keys(
    m: Map<Seq<char>, EntryView>,
    stream: Option<Seq<char>>,
    since: Option<i64>,
) -> Set<Seq<char>> {
    Set::new(|k: Seq<char>| m.contains_key(k) && listed(m[k], stream, since))
}

/// No row was written later than a row behind it.
pub open spec fn ascending(rows: Seq<EntryView>) -> bool {
    forall|i: int, j: int| 0 <= i <= j < rows.len() ==> rows[i].updated_at <= rows[j].updated_at
}

/// No two rows have one key.
pub open spec fn distinct_keys(rows: Seq<EntryView>) -> bool {
    forall|i: int, j: int|
        0 <= i < j < rows.len() ==> #[trigger] rows[i].key() != #[trigger] rows[j].key()
}

/// Some row has the key `k`.
pub open spec fn names(rows: Seq<EntryView>, k: Seq<char>) -> bool {
    exists|i: int| 0 <= i < rows.len() && #[trigger] rows[i].key() == k
}

/// `rows` is a page of at most `size` rows of the listing of `m`: sessions of
/// `m` that the filters show, each once, in ascending order of their time of
/// writing, as many as the page takes, and none written later than a shown
/// session that the page leaves out.
pub open spec fn is_page(
    m: Map<Seq<char>, EntryView>,
    stream: Option<Seq<char>>,
    since: Option<i64>,
    size: nat,
    rows: Seq<EntryView>,
) -> bool {
    &&& forall|i: int|
        0 <= i < rows.len() ==> m.contains_key(#[trigger] rows[i].key()) && m[rows[i].key()]
            == rows[i] && listed(rows[i], stream, since)
    &&& distinct_keys(rows)
    &&& ascending(rows)
    &&& rows.len() == if size <= listed_keys(m, stream, since).len() {
        size
    } else {
        listed_keys(m, stream, since).len()
    }
    &&& forall|k: Seq<char>, i: int|
        #![trigger m[k], rows[i]]
        listed_keys(m, stream, since).contains(k) && !names(rows, k) && 0 <= i < rows.len()
            ==> rows[i].updated_at <= m[k].updated_at
}

/// `cursor` is the latest time of writing among `rows`, and nothing where
/// there are no rows.
pub open spec fn is_latest(rows: Seq<EntryView>, cursor: Option<i64>) -> bool {
    match cursor {
        None => rows.len() == 0,
        Some(t) => (exists|i: int| 0 <= i < rows.len() && #[trigger] rows[i].updated_at == t)
            && forall|i: int| 0 <= i < rows.len() ==> #[trigger] rows[i].updated_at <= t,
    }
}

/// What a listing shows of `rows`.
pub open spec fn sessions_of(rows: Seq<EntryView>) -> Seq<SessionView> {
    rows.map_values(|e: EntryView| e.session())
}

/// The values of `sessions`, in order.
pub open spec fn session_views(sessions: Seq<RecordingSession>) -> Seq<SessionView> {
    sessions.map_values(|s: RecordingSession| s@)
}

/// A sequence of rows with different keys has as many rows as keys.
pub proof fn lemma_count_keys(rows: Seq<EntryView>, keys: Set<Seq<char>>)
    requires
        distinct_keys(rows),
        forall|i: int| 0 <= i < rows.len() ==> keys.contains(#[trigger] rows[i].key()),
        forall|k: Seq<char>| keys.contains(k) ==> names(rows, k),
    ensures
        keys.finite(),
        keys.len() == rows.len(),
    decreases rows.len(),
{
    if rows.len() == 0 {
        assert forall|k: Seq<char>| !keys.contains(k) by {
            if keys.contains(k) {
                assert(names(rows, k));
            }
        }
        assert(keys =~= Set::empty());
    } else {
        let k = rows.last().key();
        let rest = rows.drop_last();
        let fewer = keys.remove(k);
        assert forall|i: int| 0 <= i < rest.len() implies fewer.contains(
            #[trigger] rest[i].key(),
        ) by {
            assert(rows[i].key() != rows[rows.len() - 1].key());
            assert(keys.contains(rows[i].key()));
        }
        assert forall|x: Seq<char>| fewer.contains(x) implies names(rest, x) by {
            assert(names(rows, x));
            let i = choose|i: int| 0 <= i < rows.len() && #[trigger] rows[i].key() == x;
            assert(rest[i].key() == x);
        }
        assert(distinct_keys(rest)) by {
            assert forall|i: int, j: int| 0 <= i < j < rest.len() implies #[trigger] rest[i].key()
                != #[trigger] rest[j].key() by {
                assert(rows[i].key() != rows[j].key());
            }
        }
        lemma_count_keys(rest, fewer);
        assert(keys.contains(rows[rows.len() - 1].key()));
        assert(keys =~= fewer.insert(k));
    }
}

/// No two sessions of `m` were written at the same time.
pub open spec fn distinct_times(m: Map<Seq<char>, EntryView>) -> bool {
    forall|a: Seq<char>, b: Seq<char>|
        m.contains_key(a) && m.contains_key(b) && a != b ==> (#[trigger] m[a]).updated_at != (
        #[trigger] m[b]).updated_at
}

/// A listing never shows a tombstone, whatever the filters.
pub proof fn lemma_page_hides_tombstones(
    m: Map<Seq<char>, EntryView>,
    stream: Option<Seq<char>>,
    since: Option<i64>,
    size: nat,
    rows: Seq<EntryView>,
)
    requires
        is_page(m, stream, since, size, rows),
    ensures
        forall|i: int| 0 <= i < rows.len() ==> (#[trigger] rows[i]).status != RecordingStatus::Acked,
        forall|k: Seq<char>|
            m.contains_key(k) && m[k].status == RecordingStatus::Acked ==> !names(rows, k),
{
    assert forall|i: int| 0 <= i < rows.len() implies (#[trigger] rows[i]).status
        != RecordingStatus::Acked by {
        assert(m.contains_key(rows[i].key()));
    }
    assert forall|k: Seq<char>|
        m.contains_key(k) && m[k].status == RecordingStatus::Acked implies !names(rows, k) by {
        if names(rows, k) {
            let i = choose|i: int| 0 <= i < rows.len() && #[trigger] rows[i].key() == k;
            assert(m[rows[i].key()] == rows[i]);
        }
    }
}

/// Pagination: of N sessions, none a tombstone and no two written at the same
/// time, a listing without filters and with page size k has min(N, k) rows,
/// each written before the next, and its cursor is the time of writing of
/// its last row.
pub proof fn lemma_pagination(
    m: Map<Seq<char>, EntryView>,
    size: nat,
    rows: Seq<EntryView>,
    cursor: Option<i64>,
)
    requires
        forall|k: Seq<char>|
            m.contains_key(k) ==> (#[trigger] m[k]).status != RecordingStatus::Acked,
        distinct_times(m),
        is_page(m, None, None, size, rows),
        is_latest(rows, cursor),
    ensures
        rows.len() == if size <= m.dom().len() {
            size
        } else {
            m.dom().len()
        },
        forall|i: int, j: int|
            0 <= i < j < rows.len() ==> rows[i].updated_at < rows[j].updated_at,
        cursor == if rows.len() == 0 {
            None
        } else {
            Some(rows.last().updated_at)
        },
{
    assert(listed_keys(m, None, None) =~= m.dom());
    assert forall|i: int, j: int| 0 <= i < j < rows.len() implies rows[i].updated_at
        < rows[j].updated_at by {
        assert(rows[i].key() != rows[j].key());
        assert(m[rows[i].key()] == rows[i] && m[rows[j].key()] == rows[j]);
        assert(rows[i].updated_at <= rows[j].updated_at);
    }
    if rows.len() > 0 {
        let t = cursor->0;
        let i = choose|i: int| 0 <= i < rows.len() && #[trigger] rows[i].updated_at == t;
        assert(rows[i].updated_at <= rows[rows.len() - 1].updated_at);
        assert(rows[rows.len() - 1].updated_at <= t);
    }
}

/// Where two pages of one listing agree before the place `i`, the row of the
/// first at `i` was not written after that of the second.
proof fn lemma_page_step(
    m: Map<Seq<char>, EntryView>,
    stream: Option<Seq<char>>,
    since: Option<i64>,
    size: nat,
    a: Seq<EntryView>,
    b: Seq<EntryView>,
    i: int,
)
    requires
        is_page(m, stream, since, size, a),
        is_page(m, stream, since, size, b),
        0 <= i < a.len(),
        forall|j: int| 0 <= j < i ==> a[j] == b[j],
    ensures
        a[i].updated_at <= b[i].updated_at,
{
    let kb = b[i].key();
    assert(m.contains_key(kb) && m[kb] == b[i]);
    assert(listed_keys(m, stream, since).contains(kb));
    if names(a, kb) {
        let p = choose|p: int| 0 <= p < a.len() && #[trigger] a[p].key() == kb;
        assert(m[a[p].key()] == a[p]);
        if p < i {
            assert(b[p].key() == b[i].key());
        } else {
            assert(a[i].updated_at <= a[p].updated_at);
        }
    } else {
        assert(a[i].updated_at <= m[kb].updated_at);
    }
}

/// Two pages of one listing agree on their first `n` rows where no two
/// sessions were written at the same time.
proof fn lemma_page_prefix(
    m: Map<Seq<char>, EntryView>,
    stream: Option<Seq<char>>,
    since: Option<i64>,
    size: nat,
    a: Seq<EntryView>,
    b: Seq<EntryView>,
    n: int,
)
    requires
        distinct_times(m),
        is_page(m, stream, since, size, a),
        is_page(m, stream, since, size, b),
        0 <= n <= a.len(),
    ensures
        forall|j: int| 0 <= j < n ==> a[j] == b[j],
    decreases n,
{
    if n > 0 {
        lemma_page_prefix(m, stream, since, size, a, b, n - 1);
        let i = n - 1;
        lemma_page_step(m, stream, since, size, a, b, i);
        assert forall|j: int| 0 <= j < i implies b[j] == a[j] by {}
        lemma_page_step(m, stream, since, size, b, a, i);
        assert(m.contains_key(a[i].key()) && m[a[i].key()] == a[i]);
        assert(m.contains_key(b[i].key()) && m[b[i].key()] == b[i]);
    }
}

/// Where no two sessions were written at the same time, the page of a
/// listing is determined: two pages of one listing are the same rows.
pub proof fn lemma_page_unique(
    m: Map<Seq<char>, EntryView>,
    stream: Option<Seq<char>>,
    since: Option<i64>,
    size: nat,
    a: Seq<EntryView>,
    b: Seq<EntryView>,
)
    requires
        distinct_times(m),
        is_page(m, stream, since, size, a),
        is_page(m, stream, since, size, b),
    ensures
        a == b,
{
    lemma_page_prefix(m, stream, since, size, a, b, a.len() as int);
    assert(a =~= b);
}

/// Whether a listing with the given filters shows `e`.
pub fn shows(e: &RecordingIndexEntry, stream: &Option<String>, since: Option<i64>) -> (yes: bool)
    ensures
        yes == listed(e@, text_of(*stream), since),
{
    let stream_fits = match stream {
        Some(s) => e.stream == *s,
        None => true,
    };
    let time_fits = match since {
        Some(t) => e.updated_at > t,
        None => true,
    };
    stream_fits && time_fits && !matches!(e.status, RecordingStatus::Acked)
}

} // verus!
