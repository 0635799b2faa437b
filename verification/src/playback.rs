//! What the playback server decides: which streams and records it lists, how
//! it labels an object, and when it redirects to a signed URL.

use crate::order::{
    lemma_text_lt_irreflexive, lemma_text_lt_total, lemma_text_lt_transitive, str_eq, str_lt,
    text_lt,
};
use crate::session::{rows_of, EntryView, RecordingIndexEntry};
use crate::sorting::{places_within, precedes, sort_places, OrderBy};
use crate::text::{chars_of, texts};
use vstd::prelude::*;
use vstd::string::*;

verus! {

/// The life of a signed URL where none is configured, in seconds.
pub const DEFAULT_SIGNED_TTL_SECONDS: u64 = 60;

/// How objects are handed out.
#[derive(Clone, Copy, Debug, PartialEq, Eq, Structural)]
pub struct Playback {
    /// Whether media segments are served by a redirect to a signed URL.
    pub signed_redirect: bool,
    /// The life of a signed URL, in seconds.
    pub signed_ttl_seconds: u64,
}

impl Default for Playback {
    /// No redirects, and signed URLs that live for a minute.
    fn default() -> (playback: Self)
        ensures
            playback == (Playback {
                signed_redirect: false,
                signed_ttl_seconds: DEFAULT_SIGNED_TTL_SECONDS,
            }),
    {
        Playback { signed_redirect: false, signed_ttl_seconds: default_signed_ttl_seconds() }
    }
}

/// The life of a signed URL where none is configured, in seconds.
pub fn default_signed_ttl_seconds() -> (ttl: u64)
    ensures
        ttl == DEFAULT_SIGNED_TTL_SECONDS,
{
    DEFAULT_SIGNED_TTL_SECONDS
}

/// The path of the index file where none is configured.
pub fn default_index_path() -> (path: String)
    ensures
        path@ == "./recordings/index.json"@,
{
    String::from_str("./recordings/index.json")
}

/// `s` ends with `suffix`.
pub open spec fn ends_with(s: Seq<char>, suffix: Seq<char>) -> bool {
    s.len() >= suffix.len() && s.skip(s.len() - suffix.len()) == suffix
}

/// `part` occurs in `s`.
pub open spec fn contains_text(s: Seq<char>, part: Seq<char>) -> bool {
    exists|i: int| occurs_at(s, part, i)
}

/// `part` occurs in `s` at the place `i`.
pub open spec fn occurs_at(s: Seq<char>, part: Seq<char>, i: int) -> bool {
    0 <= i && i + part.len() <= s.len() && s.subrange(i, i + part.len()) == part
}

/// The media type under which the object at `path` is served: by its ending,
/// and for media segments by whether the path names an audio track.
pub open spec fn content_type_of(path: Seq<char>) -> Seq<char> {
    if ends_with(path, ".mpd"@) {
        "application/dash+xml"@
    } else if ends_with(path, ".m4s"@) || ends_with(path, ".mp4"@) {
        if contains_text(path, "audio_"@) {
            "audio/mp4"@
        } else {
            "video/mp4"@
        }
    } else {
        "application/octet-stream"@
    }
}

/// Whether the object at `path` is served by a redirect to a signed URL:
/// where redirects are switched on, and never for a manifest.
pub open spec fn redirects(path: Seq<char>, signed_redirect: bool) -> bool {
    signed_redirect && !ends_with(path, ".mpd"@)
}

/// The streams of `entries`, in order.
pub open spec fn streams_of(entries: Seq<EntryView>) -> Seq<Seq<char>> {
    entries.map_values(|e: EntryView| e.stream)
}

/// `names` lists the streams of `entries`: each once, in ascending order.
pub open spec fn is_stream_list(entries: Seq<EntryView>, names: Seq<Seq<char>>) -> bool {
    &&& forall|a: int, b: int| 0 <= a < b < names.len() ==> text_lt(names[a], names[b])
    &&& forall|r: int| 0 <= r < names.len() ==> streams_of(entries).contains(#[trigger] names[r])
    &&& forall|j: int|
        0 <= j < entries.len() ==> names.contains(#[trigger] streams_of(entries)[j])
}

/// `rows` lists the records of `stream` among `entries`, `origin` giving the
/// place in `entries` from which each row comes: every entry of the stream
/// once, in ascending order of the record, entries with one record in the
/// order in which `entries` holds them.
pub open spec fn is_record_list(
    entries: Seq<EntryView>,
    stream: Seq<char>,
    rows: Seq<EntryView>,
    origin: Seq<int>,
) -> bool {
    &&& origin.len() == rows.len()
    &&& forall|r: int|
        0 <= r < rows.len() ==> 0 <= #[trigger] origin[r] < entries.len() && rows[r]
            == entries[origin[r]] && rows[r].stream == stream
    &&& forall|j: int|
        0 <= j < entries.len() && entries[j].stream == stream ==> #[trigger] origin.contains(j)
    &&& forall|a: int, b: int|
        0 <= a < b < rows.len() ==> !text_lt(rows[b].record, rows[a].record) && origin[a]
            != origin[b] && (rows[a].record == rows[b].record ==> origin[a] < origin[b])
}

/// Whether `s` ends with `suffix`.
pub fn has_suffix(s: &Vec<char>, suffix: &Vec<char>) -> (yes: bool)
    ensures
        yes == ends_with(s@, suffix@),
{
    if s.len() < suffix.len() {
        return false;
    }
    let shift = s.len() - suffix.len();
    let mut i: usize = 0;
    while i < suffix.len()
        invariant
            i <= suffix@.len(),
            s@.len() <= usize::MAX,
            shift + suffix@.len() == s@.len(),
            forall|j: int| 0 <= j < i ==> s@[shift + j] == suffix@[j],
        decreases suffix@.len() - i,
    {
        if s[shift + i] != suffix[i] {
            assert(s@.skip(shift as int)[i as int] != suffix@[i as int]);
            return false;
        }
        i += 1;
    }
    assert(s@.skip(shift as int) =~= suffix@);
    true
}

/// Whether `part` occurs in `s` at the place `at`.
fn matches_at(s: &Vec<char>, part: &Vec<char>, at: usize) -> (yes: bool)
    requires
        at + part@.len() <= s@.len(),
    ensures
        yes == occurs_at(s@, part@, at as int),
{
    let total = s.len();
    let mut i: usize = 0;
    while i < part.len()
        invariant
            i <= part@.len(),
            total == s@.len(),
            at + part@.len() <= s@.len(),
            forall|j: int| 0 <= j < i ==> s@[at + j] == part@[j],
        decreases part@.len() - i,
    {
        if s[at + i] != part[i] {
            assert(s@.subrange(at as int, at + part@.len())[i as int] != part@[i as int]);
            return false;
        }
        i += 1;
    }
    assert(s@.subrange(at as int, at + part@.len()) =~= part@);
    true
}

/// Whether `part` occurs in `s`.
pub fn has_part(s: &Vec<char>, part: &Vec<char>) -> (yes: bool)
    ensures
        yes == contains_text(s@, part@),
{
    if s.len() < part.len() {
        return false;
    }
    let last = s.len() - part.len();
    let mut at: usize = 0;
    loop
        invariant
            at <= last,
            last + part@.len() == s@.len(),
            forall|i: int| 0 <= i < at ==> !occurs_at(s@, part@, i),
        decreases last - at,
    {
        if matches_at(s, part, at) {
            return true;
        }
        if at == last {
            return false;
        }
        at += 1;
    }
}

/// The media type under which the object at `path` is served.
pub fn content_type_for(path: &str) -> (media: &'static str)
    ensures
        media@ == content_type_of(path@),
{
    let chars = chars_of(path);
    let mpd = chars_of(".mpd");
    let m4s = chars_of(".m4s");
    let mp4 = chars_of(".mp4");
    let audio = chars_of("audio_");
    if has_suffix(&chars, &mpd) {
        "application/dash+xml"
    } else if has_suffix(&chars, &m4s) || has_suffix(&chars, &mp4) {
        if has_part(&chars, &audio) {
            "audio/mp4"
        } else {
            "video/mp4"
        }
    } else {
        "application/octet-stream"
    }
}

/// Whether the object at `path` is served by a redirect to a signed URL.
pub fn wants_redirect(path: &str, signed_redirect: bool) -> (yes: bool)
    ensures
        yes == redirects(path@, signed_redirect),
{
    if !signed_redirect {
        return false;
    }
    let chars = chars_of(path);
    let mpd = chars_of(".mpd");
    !has_suffix(&chars, &mpd)
}

/// The life of the signed URL of a redirect in seconds: as configured, and
/// one second at least.
pub fn redirect_ttl_seconds(configured: u64) -> (ttl: u64)
    ensures
        ttl == if configured < 1 {
            1
        } else {
            configured
        },
{
    if configured < 1 {
        1
    } else {
        configured
    }
}

/// The streams that `entries` hold, each once, in ascending order.
pub fn stream_names(entries: &Vec<RecordingIndexEntry>) -> (names: Vec<String>)
    ensures
        is_stream_list(rows_of(entries@), texts(names@)),
{
    let mut names: Vec<String> = Vec::new();
    let ghost all = streams_of(rows_of(entries@));
    let mut i: usize = 0;
    while i < entries.len()
        invariant
            i <= entries@.len(),
            all == streams_of(rows_of(entries@)),
            forall|a: int, b: int|
                0 <= a < b < names@.len() ==> text_lt(names@[a]@, names@[b]@),
            forall|r: int| 0 <= r < names@.len() ==> all.contains(#[trigger] texts(names@)[r]),
            forall|j: int| 0 <= j < i ==> texts(names@).contains(#[trigger] all[j]),
        decreases entries@.len() - i,
    {
        let stream = &entries[i].stream;
        assert(all[i as int] == stream@);
        let mut at: usize = 0;
        while at < names.len() && str_lt(names[at].as_str(), stream.as_str())
            invariant
                at <= names@.len(),
                forall|r: int| 0 <= r < at ==> text_lt((#[trigger] names@[r])@, stream@),
            decreases names@.len() - at,
        {
            at += 1;
        }
        let ghost before = names@;
        let present = at < names.len() && names[at] == *stream;
        if !present {
            proof {
                assert forall|r: int| at <= r < before.len() implies text_lt(
                    stream@,
                    (#[trigger] before[r])@,
                ) by {
                    lemma_text_lt_total(before[at as int]@, stream@);
                    if r > at {
                        lemma_text_lt_transitive(stream@, before[at as int]@, before[r]@);
                    }
                }
            }
            names.insert(at, stream.clone());
            proof {
                assert forall|a: int, b: int| 0 <= a < b < names@.len() implies text_lt(
                    names@[a]@,
                    names@[b]@,
                ) by {
                    let a0 = if a < at { a } else { a - 1 };
                    let b0 = if b < at { b } else { b - 1 };
                    if a != at && b != at {
                        assert(text_lt(before[a0]@, before[b0]@));
                    } else if a == at {
                        assert(names@[b] == before[b0]);
                    } else {
                        assert(names@[a] == before[a0]);
                    }
                }
                assert forall|r: int| 0 <= r < names@.len() implies all.contains(
                    #[trigger] texts(names@)[r],
                ) by {
                    if r == at {
                        assert(all[i as int] == texts(names@)[r]);
                    } else {
                        let r0 = if r < at { r } else { r - 1 };
                        assert(texts(names@)[r] == texts(before)[r0]);
                    }
                }
                assert forall|j: int| 0 <= j < i + 1 implies texts(names@).contains(
                    #[trigger] all[j],
                ) by {
                    if j == i {
                        assert(texts(names@)[at as int] == all[j]);
                    } else {
                        assert(texts(before).contains(all[j]));
                        let r0 = choose|r: int|
                            0 <= r < texts(before).len() && texts(before)[r] == all[j];
                        let r1 = if r0 < at { r0 } else { r0 + 1 };
                        assert(texts(names@)[r1] == all[j]);
                    }
                }
            }
        } else {
            assert(texts(names@)[at as int] == all[i as int]);
        }
        i += 1;
    }
    proof {
        assert forall|a: int, b: int| 0 <= a < b < texts(names@).len() implies text_lt(
            texts(names@)[a],
            texts(names@)[b],
        ) by {
            assert(text_lt(names@[a]@, names@[b]@));
        }
    }
    names
}

/// The records of `stream` among `entries`, in ascending order of the
/// record; entries with one record keep their order.
pub fn records_of(entries: &Vec<RecordingIndexEntry>, stream: &str) -> (rows: Vec<
    RecordingIndexEntry,
>)
    ensures
        exists|origin: Seq<int>| #[trigger]
            is_record_list(rows_of(entries@), stream@, rows_of(rows@), origin),
{
    let n = entries.len();
    let mut places: Vec<usize> = Vec::new();
    let mut i: usize = 0;
    while i < n
        invariant
            i <= n == entries@.len(),
            forall|r: int|
                0 <= r < places@.len() ==> #[trigger] places@[r] < i && entries@[places@[r] as int]@.stream
                    == stream@,
            forall|a: int, b: int| 0 <= a < b < places@.len() ==> places@[a] < places@[b],
            forall|j: int|
                0 <= j < i && entries@[j]@.stream == stream@ ==> #[trigger] places@.contains(
                    j as usize,
                ),
        decreases n - i,
    {
        if str_eq(entries[i].stream.as_str(), stream) {
            let ghost before = places@;
            places.push(i);
            proof {
                assert forall|j: int|
                    0 <= j < i + 1 && entries@[j]@.stream
                        == stream@ implies #[trigger] places@.contains(j as usize) by {
                    if j == i {
                        assert(places@[before.len() as int] == j as usize);
                    } else {
                        assert(before.contains(j as usize));
                        let r = choose|r: int| 0 <= r < before.len() && before[r] == j as usize;
                        assert(places@[r] == j as usize);
                    }
                }
            }
        }
        i += 1;
    }
    let order = sort_places(entries, OrderBy::Record, &places);
    let mut rows: Vec<RecordingIndexEntry> = Vec::new();
    let mut r: usize = 0;
    while r < order.len()
        invariant
            r <= order@.len(),
            places_within(order@, entries@.len()),
            rows@.len() == r,
            forall|q: int| 0 <= q < r ==> (#[trigger] rows@[q])@ == entries@[order@[q] as int]@,
        decreases order@.len() - r,
    {
        rows.push(entries[order[r]].clone());
        r += 1;
    }
    proof {
        let shown = rows_of(rows@);
        let all = rows_of(entries@);
        let origin = Seq::new(order@.len(), |q: int| order@[q] as int);
        assert forall|q: int| 0 <= q < shown.len() implies 0 <= #[trigger] origin[q] < all.len()
            && shown[q] == all[origin[q]] && shown[q].stream == stream@ by {
            assert(rows@[q]@ == entries@[order@[q] as int]@);
            assert(order@.contains(order@[q]));
            assert(places@.contains(order@[q]));
            let k = choose|k: int| 0 <= k < places@.len() && places@[k] == order@[q];
            assert(entries@[places@[k] as int]@.stream == stream@);
        }
        assert forall|j: int|
            0 <= j < all.len() && all[j].stream == stream@ implies #[trigger] origin.contains(
            j,
        ) by {
            assert(entries@[j]@.stream == stream@);
            assert(places@.contains(j as usize));
            assert(order@.contains(j as usize));
            let q = choose|q: int| 0 <= q < order@.len() && order@[q] == j as usize;
            assert(origin[q] == j);
        }
        assert forall|a: int, b: int| 0 <= a < b < shown.len() implies !text_lt(
            shown[b].record,
            shown[a].record,
        ) && origin[a] != origin[b] && (shown[a].record == shown[b].record ==> origin[a]
            < origin[b]) by {
            assert(rows@[a]@ == entries@[order@[a] as int]@);
            assert(rows@[b]@ == entries@[order@[b] as int]@);
            assert(precedes(all, OrderBy::Record, order@[a] as int, order@[b] as int));
            lemma_text_lt_irreflexive(shown[a].record);
            if text_lt(shown[a].record, shown[b].record) && text_lt(
                shown[b].record,
                shown[a].record,
            ) {
                lemma_text_lt_transitive(shown[a].record, shown[b].record, shown[a].record);
            }
        }
        assert(is_record_list(all, stream@, shown, origin));
    }
    rows
}

} // verus!
