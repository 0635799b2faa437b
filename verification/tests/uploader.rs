use live_recordings::backoff::{backoff_delay, BACKOFF_BASE_MS, BACKOFF_MAX_MS};
use live_recordings::uploader::{
    backoff_ts, without_trailing, Settlement, UploadConfig, UploadEntry, UploadManager,
    MIN_POLL_INTERVAL_MS,
};

fn config() -> UploadConfig {
    UploadConfig {
        queue_path: "./recordings/upload_queue.jsonl".to_string(),
        local_dir: "./recordings".to_string(),
        liveman_url: "http://liveman:8888/".to_string(),
        liveman_token: "".to_string(),
        concurrency: 2,
        interval_ms: 1000,
        presign_ttl_seconds: 300,
    }
}

fn job(id: &str, retry_count: u32, next_retry_at: i64) -> UploadEntry {
    UploadEntry {
        id: id.to_string(),
        object_key: format!("key-of-{}", id),
        local_path: format!("/tmp/{}", id),
        retry_count,
        next_retry_at,
    }
}

fn sorted(mut jobs: Vec<UploadEntry>) -> Vec<UploadEntry> {
    jobs.sort_by(|a, b| a.id.cmp(&b.id));
    jobs
}

#[test]
fn backoff_doubles_from_the_base_and_caps_at_ten_minutes() {
    assert_eq!(BACKOFF_BASE_MS, 5_000);
    assert_eq!(BACKOFF_MAX_MS, 600_000);
    let expected = [
        5_000, 10_000, 20_000, 40_000, 80_000, 160_000, 320_000, 600_000, 600_000, 600_000,
        600_000, 600_000,
    ];
    for (retry, delay) in expected.iter().enumerate() {
        assert_eq!(backoff_delay(retry as u32), *delay, "retry {}", retry);
    }
    assert_eq!(backoff_delay(1_000), 600_000);
    assert_eq!(backoff_delay(u32::MAX), 600_000);
}

#[test]
fn backoff_never_shrinks() {
    let mut last = 0;
    for retry in 0..=11 {
        let delay = backoff_delay(retry);
        assert!(delay >= last);
        assert!(delay >= 5_000 && delay <= 600_000);
        if retry >= 7 {
            assert_eq!(delay, 600_000);
        }
        last = delay;
    }
}

#[test]
fn backoff_ts_adds_the_delay_to_the_time() {
    // up to the last time that has room for the delay
    assert_eq!(backoff_ts(0, i64::MAX - 5_000), i64::MAX);
    assert_eq!(backoff_ts(6, i64::MAX - 320_000), i64::MAX);
    // the delay does not depend on the time
    for now in [i64::MIN, -1, 0, 1_700_000_000_000] {
        let mut last = 0;
        for retry in 0..=11 {
            let delay = backoff_ts(retry, now) - now;
            assert_eq!(delay, backoff_delay(retry));
            assert!(delay >= last);
            last = delay;
        }
    }
    assert_eq!(backoff_ts(0, 1_000), 6_000);
    assert_eq!(backoff_ts(3, 1_700_000_000_000), 1_700_000_040_000);
    assert_eq!(backoff_ts(50, -600_000), 0);
    assert_eq!(backoff_ts(7, i64::MAX - 600_000), i64::MAX);
}

#[test]
fn load_keeps_the_last_job_of_each_id() {
    let manager = UploadManager::load(
        config(),
        vec![job("a", 0, 0), job("b", 1, 10), job("a", 2, 20)],
    );
    assert_eq!(sorted(manager.queue_snapshot()), vec![job("a", 2, 20), job("b", 1, 10)]);
    assert_eq!(manager.local_dir(), "./recordings");
    assert_eq!(manager.queue_path(), "./recordings/upload_queue.jsonl");
}

#[test]
fn settings_have_their_floors() {
    let mut cfg = config();
    cfg.concurrency = 0;
    cfg.interval_ms = 10;
    cfg.presign_ttl_seconds = 5;
    let manager = UploadManager::load(cfg, vec![]);
    assert_eq!(manager.concurrency(), 1);
    assert_eq!(manager.poll_interval_ms(), 500);
    assert_eq!(MIN_POLL_INTERVAL_MS, 500);
    assert_eq!(manager.presign_put("k").ttl_seconds, 30);

    let manager = UploadManager::load(config(), vec![]);
    assert_eq!(manager.concurrency(), 2);
    assert_eq!(manager.poll_interval_ms(), 1000);
    assert_eq!(manager.presign_put("k").ttl_seconds, 300);
}

#[test]
fn presign_request_names_the_object_and_the_put() {
    let manager = UploadManager::load(config(), vec![]);
    let request = manager.presign_put("cam1/1700000000/seg_1.m4s");
    assert_eq!(request.method, "PUT");
    assert_eq!(request.path, "cam1/1700000000/seg_1.m4s");
}

#[test]
fn presign_url_drops_the_slashes_at_the_end_of_the_address() {
    let manager = UploadManager::load(config(), vec![]);
    assert_eq!(manager.presign_url(), "http://liveman:8888/api/storage/presign");
    let mut cfg = config();
    cfg.liveman_url = "http://liveman:8888///".to_string();
    assert_eq!(
        UploadManager::load(cfg, vec![]).presign_url(),
        "http://liveman:8888/api/storage/presign"
    );
    let mut cfg = config();
    cfg.liveman_url = "http://liveman/base".to_string();
    assert_eq!(
        UploadManager::load(cfg, vec![]).presign_url(),
        "http://liveman/base/api/storage/presign"
    );
    assert_eq!(without_trailing("a/b//", '/'), "a/b");
    assert_eq!(without_trailing("///", '/'), "");
    assert_eq!(without_trailing("", '/'), "");
    assert_eq!(without_trailing("/a", '/'), "/a");
    for text in ["x/", "/", "//x//", "é/", "no slash"] {
        assert_eq!(without_trailing(text, '/'), text.trim_end_matches('/'));
    }
}

#[test]
fn authorization_is_a_bearer_token_where_one_is_configured() {
    assert_eq!(UploadManager::load(config(), vec![]).authorization(), None);
    let mut cfg = config();
    cfg.liveman_token = "s3cr3t".to_string();
    assert_eq!(
        UploadManager::load(cfg, vec![]).authorization(),
        Some("Bearer s3cr3t".to_string())
    );
}

#[test]
fn enqueue_adds_a_job_that_is_due_at_once() {
    let mut manager = UploadManager::load(config(), vec![]);
    manager.enqueue_at("k1".to_string(), "p1".to_string(), 1_700_000_000_123);
    assert_eq!(
        manager.queue_snapshot(),
        vec![UploadEntry {
            id: "k1:1700000000123".to_string(),
            object_key: "k1".to_string(),
            local_path: "p1".to_string(),
            retry_count: 0,
            next_retry_at: 0,
        }]
    );
    assert_eq!(manager.due_entries_at(0).len(), 1);
    manager.enqueue_at("k1".to_string(), "p2".to_string(), -5);
    let ids: Vec<String> = sorted(manager.queue_snapshot()).into_iter().map(|e| e.id).collect();
    assert_eq!(ids, vec!["k1:-5", "k1:1700000000123"]);
}

#[test]
fn enqueue_reads_the_clock_for_the_id() {
    let mut manager = UploadManager::load(config(), vec![]);
    manager.enqueue("k1".to_string(), "p1".to_string());
    let jobs = manager.queue_snapshot();
    assert_eq!(jobs.len(), 1);
    let (key, stamp) = jobs[0].id.split_once(':').unwrap();
    assert_eq!(key, "k1");
    // milliseconds since 1970: later than the year 2020
    assert!(stamp.parse::<i64>().unwrap() > 1_577_836_800_000);
    assert_eq!(jobs[0].retry_count, 0);
    assert_eq!(jobs[0].next_retry_at, 0);
}

#[test]
fn the_queue_survives_a_reload_and_a_confirmed_upload_removes_the_job_for_good() {
    let mut manager = UploadManager::load(config(), vec![]);
    manager.enqueue("k1".to_string(), "p1".to_string());
    let file = manager.queue_snapshot();

    let mut reloaded = UploadManager::load(config(), file);
    let jobs = reloaded.queue_snapshot();
    assert_eq!(jobs.len(), 1);
    assert_eq!(jobs[0].object_key, "k1");
    assert_eq!(jobs[0].local_path, "p1");
    assert_eq!(jobs[0].retry_count, 0);

    let outcome = reloaded.settle(jobs[0].clone(), true);
    assert!(matches!(outcome, Settlement::Uploaded { ref local_path } if local_path == "p1"));
    let file = reloaded.queue_snapshot();
    assert!(file.is_empty());
    assert!(UploadManager::load(config(), file).queue_snapshot().is_empty());
}

#[test]
fn due_entries_are_those_whose_time_has_come() {
    let manager = UploadManager::load(
        config(),
        vec![job("a", 0, 0), job("b", 1, 100), job("c", 2, 101), job("d", 3, -5)],
    );
    let ids = |now: i64| -> Vec<String> {
        sorted(manager.due_entries_at(now)).into_iter().map(|e| e.id).collect()
    };
    assert_eq!(ids(100), vec!["a", "b", "d"]);
    assert_eq!(ids(101), vec!["a", "b", "c", "d"]);
    assert_eq!(ids(-1), vec!["d"]);
    assert!(ids(-6).is_empty());
    assert_eq!(ids(i64::MAX).len(), 4);
}

#[test]
fn due_entries_reads_the_clock() {
    let manager = UploadManager::load(
        config(),
        vec![job("past", 0, 1_577_836_800_000), job("far", 0, i64::MAX), job("new", 0, 0)],
    );
    let ids: Vec<String> = sorted(manager.due_entries()).into_iter().map(|e| e.id).collect();
    assert_eq!(ids, vec!["new", "past"]);
}

#[test]
fn a_job_that_was_due_at_the_epoch_is_due_at_any_reading_of_the_clock() {
    let mut manager = UploadManager::load(config(), vec![job("old", 3, -1), job("zero", 0, 0)]);
    manager.enqueue("k".to_string(), "p".to_string());
    assert_eq!(manager.due_entries().len(), 3);
    assert!(UploadManager::load(config(), vec![]).due_entries().is_empty());
}

#[test]
fn a_refused_upload_counts_and_backs_off() {
    let mut manager = UploadManager::load(config(), vec![job("a", 0, 0), job("b", 0, 0)]);
    let outcome = manager.settle_at(job("a", 0, 0), false, 1_000_000);
    match outcome {
        Settlement::Retry { entry } => assert_eq!(entry, job("a", 1, 1_010_000)),
        other => panic!("unexpected {:?}", other),
    }
    assert_eq!(
        sorted(manager.queue_snapshot()),
        vec![job("a", 1, 1_010_000), job("b", 0, 0)]
    );
    // not due until the delay has passed
    assert_eq!(manager.due_entries_at(1_009_999).len(), 1);
    assert_eq!(manager.due_entries_at(1_010_000).len(), 2);

    let outcome = manager.settle_at(job("a", 6, 0), false, 2_000_000);
    match outcome {
        Settlement::Retry { entry } => assert_eq!(entry, job("a", 7, 2_600_000)),
        other => panic!("unexpected {:?}", other),
    }
}

#[test]
fn a_refused_upload_of_a_job_that_left_the_queue_puts_it_back() {
    let mut manager = UploadManager::load(config(), vec![]);
    manager.settle_at(job("gone", 2, 0), false, 0);
    assert_eq!(manager.queue_snapshot(), vec![job("gone", 3, 40_000)]);
}

#[test]
fn a_confirmed_upload_removes_the_job() {
    let mut manager = UploadManager::load(config(), vec![job("a", 4, 9), job("b", 0, 0)]);
    let outcome = manager.settle_at(job("a", 4, 9), true, 123);
    match outcome {
        Settlement::Uploaded { local_path } => assert_eq!(local_path, "/tmp/a"),
        other => panic!("unexpected {:?}", other),
    }
    assert_eq!(manager.queue_snapshot(), vec![job("b", 0, 0)]);
    // removing what is not there changes nothing
    manager.settle_at(job("a", 4, 9), true, 123);
    manager.remove_entry("zzz");
    assert_eq!(manager.queue_snapshot(), vec![job("b", 0, 0)]);
}

#[test]
fn settle_reads_the_clock_for_the_next_attempt() {
    let mut manager = UploadManager::load(config(), vec![job("a", 0, 0)]);
    match manager.settle(job("a", 0, 0), false) {
        Settlement::Retry { entry } => {
            assert_eq!(entry.retry_count, 1);
            assert!(entry.next_retry_at > 1_577_836_800_000 + 10_000);
        }
        other => panic!("unexpected {:?}", other),
    }
}

#[test]
fn update_entry_replaces_by_id() {
    let mut manager = UploadManager::load(config(), vec![job("a", 0, 0)]);
    manager.update_entry(job("a", 5, 50));
    manager.update_entry(job("b", 1, 10));
    assert_eq!(sorted(manager.queue_snapshot()), vec![job("a", 5, 50), job("b", 1, 10)]);
}

#[test]
fn the_permits_bound_the_uploads_in_flight() {
    let jobs: Vec<UploadEntry> = (0..10).map(|i| job(&format!("j{}", i), 0, 0)).collect();
    let manager = UploadManager::load(config(), jobs);
    let due = manager.due_entries_at(0);
    assert_eq!(due.len(), 10);
    assert_eq!(manager.concurrency(), 2);

    let runtime = tokio::runtime::Builder::new_current_thread().enable_all().build().unwrap();
    let (peak, finished) = runtime.block_on(async {
        let semaphore = std::sync::Arc::new(tokio::sync::Semaphore::new(manager.concurrency()));
        // (uploads in flight, the most seen at once, uploads finished)
        let counts = std::sync::Arc::new(std::sync::Mutex::new((0usize, 0usize, 0usize)));
        let mut tasks = Vec::new();
        for _job in due {
            let permit = semaphore.clone().acquire_owned().await.unwrap();
            let counts = counts.clone();
            tasks.push(tokio::spawn(async move {
                let _permit = permit;
                {
                    let mut c = counts.lock().unwrap();
                    c.0 += 1;
                    c.1 = c.1.max(c.0);
                }
                tokio::time::sleep(std::time::Duration::from_millis(5)).await;
                let mut c = counts.lock().unwrap();
                c.0 -= 1;
                c.2 += 1;
            }));
        }
        for task in tasks {
            task.await.unwrap();
        }
        let c = counts.lock().unwrap();
        (c.1, c.2)
    });
    assert_eq!(finished, 10);
    assert!(peak <= 2);
    assert!(peak >= 1);
}
