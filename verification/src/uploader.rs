//! The upload queue: the jobs by id, which of them are due, and what the
//! outcome of an attempt makes of a job.

use crate::backoff::{
    backoff_delay, backoff_delay_ms, due_after, lemma_backoff_monotonic, pow2, BACKOFF_BASE_MS,
    BACKOFF_MAX_MS,
};
use crate::clock::{now_instant, CLOCK_MILLIS_BOUND};
use crate::decimal::{decimal, decimal_string};
use crate::presign::{granted_ttl, presign_ttl_seconds, PresignRequest};
use crate::text::{chars_of, string_of};
use vstd::prelude::*;
use vstd::string::*;

verus! {

/// The shortest pause between two scans of the queue, in milliseconds.
pub const MIN_POLL_INTERVAL_MS: u64 = 500;

/// One pending upload.
#[derive(Debug)]
pub struct UploadEntry {
    pub id: String,
    pub object_key: String,
    pub local_path: String,
    pub retry_count: u32,
    pub next_retry_at: i64,
}

/// The mathematical value of an [`UploadEntry`].
pub struct UploadView {
    pub id: Seq<char>,
    pub object_key: Seq<char>,
    pub local_path: Seq<char>,
    pub retry_count: u32,
    pub next_retry_at: i64,
}

impl View for UploadEntry {
    type V = UploadView;

    open spec fn view(&self) -> UploadView {
        UploadView {
            id: self.id@,
            object_key: self.object_key@,
            local_path: self.local_path@,
            retry_count: self.retry_count,
            next_retry_at: self.next_retry_at,
        }
    }
}

impl Clone for UploadEntry {
    fn clone(&self) -> (out: Self)
        ensures
            out == *self,
    {
        UploadEntry {
            id: self.id.clone(),
            object_key: self.object_key.clone(),
            local_path: self.local_path.clone(),
            retry_count: self.retry_count,
            next_retry_at: self.next_retry_at,
        }
    }
}

impl PartialEq for UploadEntry {
    fn eq(&self, other: &Self) -> (same: bool) {
        self.id == other.id && self.object_key == other.object_key && self.local_path
            == other.local_path && self.retry_count == other.retry_count && self.next_retry_at
            == other.next_retry_at
    }
}

impl vstd::std_specs::cmp::PartialEqSpecImpl for UploadEntry {
    open spec fn obeys_eq_spec() -> bool {
        true
    }

    open spec fn eq_spec(&self, other: &Self) -> bool {
        self@ == other@
    }
}

/// The settings of the upload queue.
#[derive(Debug)]
pub struct UploadConfig {
    pub queue_path: String,
    pub local_dir: String,
    pub liveman_url: String,
    pub liveman_token: String,
    pub concurrency: usize,
    pub interval_ms: u64,
    pub presign_ttl_seconds: u64,
}

impl Clone for UploadConfig {
    fn clone(&self) -> (out: Self)
        ensures
            out == *self,
    {
        UploadConfig {
            queue_path: self.queue_path.clone(),
            local_dir: self.local_dir.clone(),
            liveman_url: self.liveman_url.clone(),
            liveman_token: self.liveman_token.clone(),
            concurrency: self.concurrency,
            interval_ms: self.interval_ms,
            presign_ttl_seconds: self.presign_ttl_seconds,
        }
    }
}

/// What an attempt to upload made of a job.
#[derive(Debug)]
pub enum Settlement {
    /// The upload is confirmed and the job is gone from the queue; the local
    /// file may be deleted.
    Uploaded { local_path: String },
    /// The upload was refused; the job stays, to be tried again.
    Retry { entry: UploadEntry },
}

/// The values of `jobs`, in order.
pub open spec fn jobs_of(jobs: Seq<UploadEntry>) -> Seq<UploadView> {
    jobs.map_values(|e: UploadEntry| e@)
}

/// The id of the job that uploads to `object_key` and was queued at
/// `now_ms`.
pub open spec fn job_id(object_key: Seq<char>, now_ms: i64) -> Seq<char> {
    object_key + seq![':'] + decimal(now_ms as int)
}

/// The job that uploads `local_path` to `object_key`, queued at `now_ms`: it
/// has not failed and is due at once.
pub open spec fn fresh_job(object_key: Seq<char>, local_path: Seq<char>, now_ms: i64) -> UploadView {
    UploadView {
        id: job_id(object_key, now_ms),
        object_key,
        local_path,
        retry_count: 0,
        next_retry_at: 0,
    }
}

/// The job `e` after one more failed attempt at `now_ms`.
pub open spec fn failed_job(e: UploadView, now_ms: i64) -> UploadView {
    UploadView {
        retry_count: (e.retry_count + 1) as u32,
        next_retry_at: (now_ms + backoff_delay_ms((e.retry_count + 1) as nat)) as i64,
        ..e
    }
}

/// The queue that the jobs of a queue file stand for: of several jobs with
/// one id the last stays.
pub open spec fn queue_of(jobs: Seq<UploadView>) -> Map<Seq<char>, UploadView>
    decreases jobs.len(),
{
    if jobs.len() == 0 {
        Map::empty()
    } else {
        queue_of(jobs.drop_last()).insert(jobs.last().id, jobs.last())
    }
}

/// `jobs` are the jobs of `m` that are due at `now_ms`, each once.
pub open spec fn is_due_list(m: Map<Seq<char>, UploadView>, now_ms: i64, jobs: Seq<UploadView>) -> bool {
    &&& forall|i: int|
        0 <= i < jobs.len() ==> m.contains_key(#[trigger] jobs[i].id) && m[jobs[i].id] == jobs[i]
            && jobs[i].next_retry_at <= now_ms
    &&& forall|i: int, j: int|
        0 <= i < j < jobs.len() ==> #[trigger] jobs[i].id != #[trigger] jobs[j].id
    &&& forall|k: Seq<char>|
        m.contains_key(k) && m[k].next_retry_at <= now_ms ==> exists|i: int|
            0 <= i < jobs.len() && #[trigger] jobs[i].id == k
}

/// `jobs` are the jobs of `m`, each once.
pub open spec fn is_queue_snapshot(m: Map<Seq<char>, UploadView>, jobs: Seq<UploadView>) -> bool {
    &&& forall|i: int|
        0 <= i < jobs.len() ==> m.contains_key(#[trigger] jobs[i].id) && m[jobs[i].id] == jobs[i]
    &&& forall|i: int, j: int|
        0 <= i < j < jobs.len() ==> #[trigger] jobs[i].id != #[trigger] jobs[j].id
    &&& forall|k: Seq<char>|
        m.contains_key(k) ==> exists|i: int| 0 <= i < jobs.len() && #[trigger] jobs[i].id == k
}

/// `s` without the characters `c` at its end.
pub open spec fn strip_trailing(s: Seq<char>, c: char) -> Seq<char>
    decreases s.len(),
{
    if s.len() > 0 && s.last() == c {
        strip_trailing(s.drop_last(), c)
    } else {
        s
    }
}

/// What the queue of the first `n` jobs of a file holds: under each id the
/// last of those jobs that has it.
pub proof fn lemma_queue_of(jobs: Seq<UploadView>, n: int)
    requires
        0 <= n <= jobs.len(),
    ensures
        forall|i: int| 0 <= i < n ==> queue_of(jobs.take(n)).contains_key(#[trigger] jobs[i].id),
        forall|k: Seq<char>| #[trigger]
            queue_of(jobs.take(n)).contains_key(k) ==> exists|i: int|
                0 <= i < n && jobs[i].id == k && queue_of(jobs.take(n))[k] == jobs[i] && forall|
                    j: int,
                | i < j < n ==> jobs[j].id != k,
    decreases n,
{
    if n > 0 {
        lemma_queue_of(jobs, n - 1);
        assert(jobs.take(n).drop_last() =~= jobs.take(n - 1));
        assert(jobs.take(n).last() == jobs[n - 1]);
        let q = queue_of(jobs.take(n));
        let q0 = queue_of(jobs.take(n - 1));
        assert(q == q0.insert(jobs[n - 1].id, jobs[n - 1]));
        assert forall|k: Seq<char>| #[trigger] q.contains_key(k) implies exists|i: int|
            0 <= i < n && jobs[i].id == k && q[k] == jobs[i] && forall|j: int|
                i < j < n ==> jobs[j].id != k by {
            if k == jobs[n - 1].id {
                assert(jobs[n - 1].id == k && q[k] == jobs[n - 1]);
            } else {
                assert(q0.contains_key(k));
                let i = choose|i: int|
                    0 <= i < n - 1 && jobs[i].id == k && q0[k] == jobs[i] && forall|j: int|
                        i < j < n - 1 ==> jobs[j].id != k;
                assert(jobs[i].id == k && q[k] == jobs[i]);
            }
        }
    } else {
        assert(jobs.take(0) =~= Seq::<UploadView>::empty());
    }
}

/// The queue is durable: the jobs written from a queue stand for that queue
/// when they are read back.
pub proof fn lemma_queue_round_trip(m: Map<Seq<char>, UploadView>, jobs: Seq<UploadView>)
    requires
        is_queue_snapshot(m, jobs),
    ensures
        queue_of(jobs) == m,
{
    lemma_queue_of(jobs, jobs.len() as int);
    assert(jobs.take(jobs.len() as int) =~= jobs);
    let q = queue_of(jobs);
    assert forall|k: Seq<char>| q.contains_key(k) implies m.contains_key(k) && q[k] == m[k] by {
        let i = choose|i: int| 0 <= i < jobs.len() && jobs[i].id == k && q[k] == jobs[i];
        assert(m.contains_key(jobs[i].id));
    }
    assert forall|k: Seq<char>| m.contains_key(k) implies q.contains_key(k) by {
        let i = choose|i: int| 0 <= i < jobs.len() && #[trigger] jobs[i].id == k;
        assert(q.contains_key(jobs[i].id));
    }
    assert(q =~= m);
}

/// The time at which a job that has failed `retry` times at `now_ms` is due
/// again.
pub fn backoff_ts(retry: u32, now_ms: i64) -> (due: i64)
    requires
        due_after(now_ms as int, retry as nat) <= i64::MAX,
    ensures
        due == due_after(now_ms as int, retry as nat),
        now_ms + BACKOFF_BASE_MS <= due <= now_ms + BACKOFF_MAX_MS,
        retry >= 7 ==> due == now_ms + BACKOFF_MAX_MS,
        retry < 7 ==> due == now_ms + BACKOFF_BASE_MS * pow2(retry as nat),
{
    now_ms + backoff_delay(retry)
}

/// `s` without the characters `c` at its end.
pub fn without_trailing(s: &str, c: char) -> (out: String)
    ensures
        out@ == strip_trailing(s@, c),
{
    let chars = chars_of(s);
    let mut end: usize = chars.len();
    assert(chars@.take(end as int) =~= chars@);
    while end > 0 && chars[end - 1] == c
        invariant
            end <= chars@.len(),
            strip_trailing(chars@, c) == strip_trailing(chars@.take(end as int), c),
        decreases end,
    {
        assert(chars@.take(end as int).drop_last() =~= chars@.take(end - 1));
        end -= 1;
    }
    assert(chars@.take(end as int) =~= chars@.subrange(0, end as int));
    string_of(&chars, 0, end)
}

/// The jobs by id, with the settings of the queue. The ids are text, and
/// vstd models hash maps for keys that are integers only; so the jobs stand
/// in a vector, with the invariant that no id occurs twice.
#[derive(Debug)]
pub struct UploadManager {
    cfg: UploadConfig,
    entries: Vec<UploadEntry>,
}

impl View for UploadManager {
    type V = Map<Seq<char>, UploadView>;

    closed spec fn view(&self) -> Map<Seq<char>, UploadView> {
        Map::new(
            |k: Seq<char>| exists|i: int| 0 <= i < self.entries.len() && self.entries[i].id@ == k,
            |k: Seq<char>| self.entries[self.slot(k)]@,
        )
    }
}

impl UploadManager {
    /// The place of the job with the id `k`.
    closed spec fn slot(&self, k: Seq<char>) -> int {
        choose|i: int| 0 <= i < self.entries.len() && self.entries[i].id@ == k
    }

    /// The invariant: no id occurs twice.
    pub closed spec fn wf(&self) -> bool {
        forall|i: int, j: int|
            0 <= i < j < self.entries.len() ==> (#[trigger] self.entries[i]).id@ != (
            #[trigger] self.entries[j]).id@
    }

    /// The settings of the queue.
    pub closed spec fn config(&self) -> UploadConfig {
        self.cfg
    }

    proof fn lemma_slot(&self, i: int)
        requires
            self.wf(),
            0 <= i < self.entries.len(),
        ensures
            self.slot(self.entries[i].id@) == i,
            self@.contains_key(self.entries[i].id@),
            self@[self.entries[i].id@] == self.entries[i]@,
    {
        let k = self.entries[i].id@;
        let j = self.slot(k);
        assert(0 <= j < self.entries.len() && self.entries[j].id@ == k);
        if j < i {
            assert(self.entries[j].id@ != self.entries[i].id@);
        } else if i < j {
            assert(self.entries[i].id@ != self.entries[j].id@);
        }
    }

    /// Where the job with the id `id` is held, if it is.
    fn position(&self, id: &String) -> (at: Option<usize>)
        requires
            self.wf(),
        ensures
            match at {
                Some(i) => i < self.entries.len() && self.entries[i as int].id@ == id@
                    && self@.contains_key(id@) && self@[id@] == self.entries[i as int]@,
                None => !self@.contains_key(id@),
            },
    {
        let mut i: usize = 0;
        while i < self.entries.len()
            invariant
                self.wf(),
                i <= self.entries.len(),
                forall|j: int| 0 <= j < i ==> (#[trigger] self.entries[j]).id@ != id@,
            decreases self.entries.len() - i,
        {
            if self.entries[i].id == *id {
                proof {
                    self.lemma_slot(i as int);
                }
                return Some(i);
            }
            i += 1;
        }
        None
    }

    /// The queue that the jobs of a queue file stand for, with its settings.
    pub fn load(cfg: UploadConfig, entries: Vec<UploadEntry>) -> (manager: Self)
        ensures
            manager.wf(),
            manager@ == queue_of(jobs_of(entries@)),
            manager.config() == cfg,
    {
        let mut manager = UploadManager { cfg, entries: Vec::new() };
        assert(manager@ =~= Map::<Seq<char>, UploadView>::empty());
        let mut i: usize = 0;
        while i < entries.len()
            invariant
                i <= entries.len(),
                manager.wf(),
                manager.config() == cfg,
                manager@ == queue_of(jobs_of(entries@).take(i as int)),
            decreases entries.len() - i,
        {
            manager.update_entry(entries[i].clone());
            proof {
                let jobs = jobs_of(entries@);
                assert(jobs.take(i + 1).drop_last() =~= jobs.take(i as int));
                assert(jobs.take(i + 1).last() == entries[i as int]@);
            }
            i += 1;
        }
        assert(jobs_of(entries@).take(entries.len() as int) =~= jobs_of(entries@));
        manager
    }

    /// The directory of the local artifacts.
    pub fn local_dir(&self) -> (dir: String)
        ensures
            dir@ == self.config().local_dir@,
    {
        self.cfg.local_dir.clone()
    }

    /// The path of the queue file.
    pub fn queue_path(&self) -> (path: String)
        ensures
            path@ == self.config().queue_path@,
    {
        self.cfg.queue_path.clone()
    }

    /// How many uploads may run at the same time: as configured, and one at
    /// least.
    pub fn concurrency(&self) -> (permits: usize)
        ensures
            permits == if self.config().concurrency < 1 {
                1
            } else {
                self.config().concurrency
            },
    {
        if self.cfg.concurrency < 1 {
            1
        } else {
            self.cfg.concurrency
        }
    }

    /// The pause between two scans of the queue in milliseconds: as
    /// configured, and [`MIN_POLL_INTERVAL_MS`] at least.
    pub fn poll_interval_ms(&self) -> (pause: u64)
        ensures
            pause == if self.config().interval_ms < MIN_POLL_INTERVAL_MS {
                MIN_POLL_INTERVAL_MS
            } else {
                self.config().interval_ms
            },
    {
        if self.cfg.interval_ms < MIN_POLL_INTERVAL_MS {
            MIN_POLL_INTERVAL_MS
        } else {
            self.cfg.interval_ms
        }
    }

    /// The URL at which the coordinator presigns: its address without
    /// slashes at the end, then the path of the presign route.
    pub fn presign_url(&self) -> (url: String)
        ensures
            url@ == strip_trailing(self.config().liveman_url@, '/') + "/api/storage/presign"@,
    {
        let mut url = without_trailing(self.cfg.liveman_url.as_str(), '/');
        url.append("/api/storage/presign");
        url
    }

    /// What to ask of the coordinator before `object_key` is uploaded: a URL
    /// for a PUT of that path, alive for the configured time and thirty
    /// seconds at least.
    pub fn presign_put(&self, object_key: &str) -> (request: PresignRequest)
        ensures
            request.method@ == "PUT"@,
            request.path@ == object_key@,
            request.ttl_seconds == granted_ttl(self.config().presign_ttl_seconds),
    {
        PresignRequest {
            method: String::from_str("PUT"),
            path: String::from_str(object_key),
            ttl_seconds: presign_ttl_seconds(self.cfg.presign_ttl_seconds),
        }
    }

    /// The value of the authorization header for the coordinator: the
    /// configured token as a bearer token, and none where no token is
    /// configured.
    pub fn authorization(&self) -> (header: Option<String>)
        ensures
            match header {
                Some(value) => self.config().liveman_token@.len() > 0 && value@ == "Bearer "@
                    + self.config().liveman_token@,
                None => self.config().liveman_token@.len() == 0,
            },
    {
        if self.cfg.liveman_token.as_str().is_empty() {
            None
        } else {
            let mut value = String::from_str("Bearer ");
            value.append(self.cfg.liveman_token.as_str());
            Some(value)
        }
    }

    /// Holds `entry` under its id, in place of the job that had it.
    pub fn update_entry(&mut self, entry: UploadEntry)
        requires
            old(self).wf(),
        ensures
            final(self).wf(),
            final(self)@ == old(self)@.insert(entry.id@, entry@),
            final(self).config() == old(self).config(),
    {
        let ghost before = *self;
        match self.position(&entry.id) {
            Some(i) => {
                self.entries[i] = entry;
                assert(self.wf());
                assert(self@ =~= before@.insert(entry.id@, entry@)) by {
                    assert forall|k: Seq<char>| before@.insert(entry.id@, entry@).contains_key(
                        k,
                    ) implies self@.contains_key(k) by {
                        if k == entry.id@ {
                            assert(self.entries[i as int].id@ == k);
                        } else {
                            let j = before.slot(k);
                            assert(self.entries[j].id@ == k);
                        }
                    }
                    assert forall|k: Seq<char>| self@.contains_key(k) implies before@.insert(
                        entry.id@,
                        entry@,
                    ).contains_key(k) && #[trigger] self@[k] == before@.insert(
                        entry.id@,
                        entry@,
                    )[k] by {
                        let j = self.slot(k);
                        self.lemma_slot(j);
                        before.lemma_slot(j);
                    }
                }
            },
            None => {
                self.entries.push(entry);
                assert(self.wf());
                assert(self@ =~= before@.insert(entry.id@, entry@)) by {
                    let n = before.entries.len() as int;
                    assert(self.entries[n].id@ == entry.id@);
                    assert forall|k: Seq<char>| before@.insert(entry.id@, entry@).contains_key(
                        k,
                    ) implies self@.contains_key(k) by {
                        if k == entry.id@ {
                            assert(self.entries[n].id@ == k);
                        } else {
                            let j = before.slot(k);
                            assert(self.entries[j].id@ == k);
                        }
                    }
                    assert forall|k: Seq<char>| self@.contains_key(k) implies #[trigger] self@[k]
                        == before@.insert(entry.id@, entry@)[k] by {
                        let j = self.slot(k);
                        self.lemma_slot(j);
                        if j < n {
                            before.lemma_slot(j);
                        }
                    }
                }
            },
        }
    }

    /// Drops the job with the id `id`, if the queue holds it.
    pub fn remove_entry(&mut self, id: &str)
        requires
            old(self).wf(),
        ensures
            final(self).wf(),
            final(self)@ == old(self)@.remove(id@),
            final(self).config() == old(self).config(),
    {
        let ghost before = *self;
        let key = String::from_str(id);
        match self.position(&key) {
            Some(i) => {
                self.entries.remove(i);
                assert(self.wf()) by {
                    assert forall|a: int, b: int| 0 <= a < b < self.entries.len() implies (
                    #[trigger] self.entries[a]).id@ != (#[trigger] self.entries[b]).id@ by {
                        let a0 = if a < i { a } else { a + 1 };
                        let b0 = if b < i { b } else { b + 1 };
                        assert(self.entries[a] == before.entries[a0]);
                        assert(self.entries[b] == before.entries[b0]);
                        assert(before.entries[a0].id@ != before.entries[b0].id@);
                    }
                }
                assert(self@ =~= before@.remove(id@)) by {
                    assert forall|k: Seq<char>| before@.remove(id@).contains_key(
                        k,
                    ) implies self@.contains_key(k) by {
                        let j = before.slot(k);
                        before.lemma_slot(j);
                        let j1 = if j < i { j } else { j - 1 };
                        assert(self.entries[j1] == before.entries[j]);
                    }
                    assert forall|k: Seq<char>| self@.contains_key(k) implies before@.remove(
                        id@,
                    ).contains_key(k) && #[trigger] self@[k] == before@.remove(id@)[k] by {
                        let j = self.slot(k);
                        self.lemma_slot(j);
                        let j0 = if j < i { j } else { j + 1 };
                        assert(self.entries[j] == before.entries[j0]);
                        before.lemma_slot(j0);
                        before.lemma_slot(i as int);
                    }
                }
            },
            None => {
                assert(self@ =~= before@.remove(id@));
            },
        }
    }

    /// Queues the upload of `local_path` to `object_key` as a job that is
    /// due at once; its id is made of the object key and `now_ms`.
    pub fn enqueue_at(&mut self, object_key: String, local_path: String, now_ms: i64)
        requires
            old(self).wf(),
        ensures
            final(self).wf(),
            final(self)@ == old(self)@.insert(
                job_id(object_key@, now_ms),
                fresh_job(object_key@, local_path@, now_ms),
            ),
            final(self).config() == old(self).config(),
    {
        proof {
            reveal_strlit(":");
        }
        let mut id = object_key.clone();
        id.append(":");
        id.append(decimal_string(now_ms).as_str());
        assert(":"@ =~= seq![':']);
        let entry = UploadEntry { id, object_key, local_path, retry_count: 0, next_retry_at: 0 };
        self.update_entry(entry);
    }

    /// As [`Self::enqueue_at`], at the current time in milliseconds.
    pub fn enqueue(&mut self, object_key: String, local_path: String)
        requires
            old(self).wf(),
        ensures
            final(self).wf(),
            exists|now_ms: i64|
                0 <= now_ms < CLOCK_MILLIS_BOUND && final(self)@ == old(self)@.insert(
                    job_id(object_key@, now_ms),
                    #[trigger] fresh_job(object_key@, local_path@, now_ms),
                ),
            final(self).config() == old(self).config(),
    {
        let now_ms = now_instant().millis();
        let ghost before = self@;
        self.enqueue_at(object_key, local_path, now_ms);
        assert(0 <= now_ms < CLOCK_MILLIS_BOUND && self@ == before.insert(
            job_id(object_key@, now_ms),
            fresh_job(object_key@, local_path@, now_ms),
        ));
    }

    /// The jobs to write to the queue file: all of them, each once.
    pub fn queue_snapshot(&self) -> (jobs: Vec<UploadEntry>)
        requires
            self.wf(),
        ensures
            is_queue_snapshot(self@, jobs_of(jobs@)),
    {
        let mut jobs: Vec<UploadEntry> = Vec::new();
        let mut i: usize = 0;
        while i < self.entries.len()
            invariant
                i <= self.entries.len(),
                jobs@.len() == i,
                forall|j: int| 0 <= j < i ==> (#[trigger] jobs@[j])@ == self.entries[j]@,
            decreases self.entries.len() - i,
        {
            jobs.push(self.entries[i].clone());
            i += 1;
        }
        proof {
            let all = jobs_of(jobs@);
            assert forall|r: int| 0 <= r < all.len() implies self@.contains_key(#[trigger] all[r].id)
                && self@[all[r].id] == all[r] by {
                self.lemma_slot(r);
            }
            assert forall|r1: int, r2: int| 0 <= r1 < r2 < all.len() implies #[trigger] all[r1].id
                != #[trigger] all[r2].id by {
                assert(self.entries[r1].id@ != self.entries[r2].id@);
            }
            assert forall|k: Seq<char>| self@.contains_key(k) implies exists|r: int|
                0 <= r < all.len() && #[trigger] all[r].id == k by {
                let j = self.slot(k);
                assert(all[j].id == k);
            }
        }
        jobs
    }

    /// The jobs that are due now: those whose time has come at the reading
    /// of the clock, each once. The clock never reads a time before the
    /// epoch, so a job that was due then, as every fresh job is, is among
    /// them.
    pub fn due_entries(&self) -> (jobs: Vec<UploadEntry>)
        requires
            self.wf(),
        ensures
            exists|now_ms: i64|
                0 <= now_ms < CLOCK_MILLIS_BOUND && #[trigger] is_due_list(
                    self@,
                    now_ms,
                    jobs_of(jobs@),
                ),
            forall|k: Seq<char>|
                self@.contains_key(k) && self@[k].next_retry_at <= 0 ==> exists|i: int|
                    0 <= i < jobs@.len() && #[trigger] jobs_of(jobs@)[i].id == k,
            forall|i: int|
                0 <= i < jobs@.len() ==> self@.contains_key(#[trigger] jobs_of(jobs@)[i].id)
                    && self@[jobs_of(jobs@)[i].id] == jobs_of(jobs@)[i] && jobs_of(
                    jobs@,
                )[i].next_retry_at < CLOCK_MILLIS_BOUND,
    {
        let now_ms = now_instant().millis();
        let jobs = self.due_entries_at(now_ms);
        assert(0 <= now_ms < CLOCK_MILLIS_BOUND && is_due_list(self@, now_ms, jobs_of(jobs@)));
        assert forall|i: int| 0 <= i < jobs@.len() implies self@.contains_key(
            #[trigger] jobs_of(jobs@)[i].id,
        ) && self@[jobs_of(jobs@)[i].id] == jobs_of(jobs@)[i] && jobs_of(
            jobs@,
        )[i].next_retry_at < CLOCK_MILLIS_BOUND by {}
        jobs
    }

    /// The jobs that are due at `now_ms`: those whose time has come, each
    /// once.
    pub fn due_entries_at(&self, now_ms: i64) -> (jobs: Vec<UploadEntry>)
        requires
            self.wf(),
        ensures
            is_due_list(self@, now_ms, jobs_of(jobs@)),
    {
        let mut jobs: Vec<UploadEntry> = Vec::new();
        let ghost mut src: Seq<int> = Seq::empty();
        let mut i: usize = 0;
        while i < self.entries.len()
            invariant
                i <= self.entries.len(),
                src.len() == jobs@.len(),
                forall|r: int|
                    0 <= r < jobs@.len() ==> 0 <= #[trigger] src[r] < i && jobs@[r]@
                        == self.entries[src[r]]@ && jobs@[r].next_retry_at <= now_ms,
                forall|r1: int, r2: int|
                    0 <= r1 < r2 < jobs@.len() ==> #[trigger] src[r1] < #[trigger] src[r2],
                forall|j: int|
                    0 <= j < i && self.entries[j].next_retry_at <= now_ms ==> #[trigger] src.contains(
                        j,
                    ),
            decreases self.entries.len() - i,
        {
            if self.entries[i].next_retry_at <= now_ms {
                let ghost held = src;
                jobs.push(self.entries[i].clone());
                proof {
                    src = held.push(i as int);
                    assert forall|j: int|
                        0 <= j < i + 1 && self.entries[j].next_retry_at
                            <= now_ms implies #[trigger] src.contains(j) by {
                        if j == i {
                            assert(src[held.len() as int] == j);
                        } else {
                            assert(held.contains(j));
                            let r = choose|r: int| 0 <= r < held.len() && held[r] == j;
                            assert(src[r] == j);
                        }
                    }
                }
            }
            i += 1;
        }
        proof {
            let all = jobs_of(jobs@);
            assert forall|r: int| 0 <= r < all.len() implies self@.contains_key(#[trigger] all[r].id)
                && self@[all[r].id] == all[r] && all[r].next_retry_at <= now_ms by {
                self.lemma_slot(src[r]);
            }
            assert forall|r1: int, r2: int| 0 <= r1 < r2 < all.len() implies #[trigger] all[r1].id
                != #[trigger] all[r2].id by {
                assert(src[r1] < src[r2]);
                assert(self.entries[src[r1]].id@ != self.entries[src[r2]].id@);
            }
            assert forall|k: Seq<char>|
                self@.contains_key(k) && self@[k].next_retry_at <= now_ms implies exists|r: int|
                0 <= r < all.len() && #[trigger] all[r].id == k by {
                let j = self.slot(k);
                self.lemma_slot(j);
                assert(src.contains(j));
                let r = choose|r: int| 0 <= r < src.len() && src[r] == j;
                assert(all[r].id == k);
            }
        }
        jobs
    }

    /// Records the outcome of an attempt to upload `entry` that ended at
    /// `now_ms`. A confirmed upload removes the job for good. A refused one
    /// counts as one more failure and sets the time at which the job is due
    /// again.
    pub fn settle_at(&mut self, entry: UploadEntry, success: bool, now_ms: i64) -> (out: Settlement)
        requires
            old(self).wf(),
            !success ==> entry.retry_count < u32::MAX && due_after(
                now_ms as int,
                (entry.retry_count + 1) as nat,
            ) <= i64::MAX,
        ensures
            final(self).wf(),
            final(self).config() == old(self).config(),
            success ==> final(self)@ == old(self)@.remove(entry.id@) && out == (Settlement::Uploaded {
                local_path: entry.local_path,
            }),
            !success ==> final(self)@ == old(self)@.insert(entry.id@, failed_job(entry@, now_ms))
                && (out matches Settlement::Retry { entry: again } && again@ == failed_job(
                entry@,
                now_ms,
            )),
    {
        if success {
            self.remove_entry(entry.id.as_str());
            Settlement::Uploaded { local_path: entry.local_path }
        } else {
            let mut again = entry;
            again.retry_count = again.retry_count + 1;
            again.next_retry_at = backoff_ts(again.retry_count, now_ms);
            self.update_entry(again.clone());
            Settlement::Retry { entry: again }
        }
    }

    /// As [`Self::settle_at`], at the current time in milliseconds.
    pub fn settle(&mut self, entry: UploadEntry, success: bool) -> (out: Settlement)
        requires
            old(self).wf(),
            !success ==> entry.retry_count < u32::MAX,
        ensures
            final(self).wf(),
            final(self).config() == old(self).config(),
            success ==> final(self)@ == old(self)@.remove(entry.id@) && out == (Settlement::Uploaded {
                local_path: entry.local_path,
            }),
            !success ==> exists|now_ms: i64|
                0 <= now_ms < CLOCK_MILLIS_BOUND && final(self)@ == old(self)@.insert(
                    entry.id@,
                    #[trigger] failed_job(entry@, now_ms),
                ) && (out matches Settlement::Retry { entry: again } && again@ == failed_job(
                    entry@,
                    now_ms,
                )),
            !success ==> (out matches Settlement::Retry { entry: again } && again.retry_count
                == entry.retry_count + 1 && backoff_delay_ms(again.retry_count as nat)
                <= again.next_retry_at < CLOCK_MILLIS_BOUND + BACKOFF_MAX_MS
                && final(self)@.contains_key(entry.id@) && final(self)@[entry.id@] == again@),
    {
        let now_ms = now_instant().millis();
        let ghost before = self@;
        let ghost failures = (entry.retry_count + 1) as nat;
        let out = self.settle_at(entry, success, now_ms);
        proof {
            if !success {
                lemma_backoff_monotonic(failures, failures);
                assert(0 <= now_ms < CLOCK_MILLIS_BOUND && self@ == before.insert(
                    entry.id@,
                    failed_job(entry@, now_ms),
                ));
            }
        }
        out
    }
}

} // verus!
