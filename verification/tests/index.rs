use live_recordings::index::{RecordingsIndex, WritePlan};
use live_recordings::journal::COMPACT_EVERY;
use live_recordings::session::{
    AckRecordingsRequest, DeleteRecordingsRequest, RecordingIndexEntry, RecordingKey,
    RecordingSession, RecordingStatus,
};

fn entry(stream: &str, record: &str, updated_at: i64) -> RecordingIndexEntry {
    RecordingIndexEntry {
        record: record.to_string(),
        stream: stream.to_string(),
        record_dir: format!("{}/{}", stream, record),
        mpd_path: format!("{}/{}/manifest.mpd", stream, record),
        start_ts: 1_700_000_000,
        end_ts: None,
        duration_ms: None,
        status: RecordingStatus::Recording,
        node_alias: Some("node-a".to_string()),
        updated_at,
    }
}

fn key(stream: &str, record: &str) -> RecordingKey {
    RecordingKey { stream: stream.to_string(), record: record.to_string() }
}

fn apply(log: &mut Vec<RecordingIndexEntry>, index: &mut RecordingsIndex, plan: &WritePlan) {
    let mut compact = plan.compact;
    if !plan.append.is_empty() {
        log.extend(plan.append.iter().cloned());
        if index.appended(plan.append.len()) {
            compact = true;
        }
    }
    if compact {
        *log = index.compaction_snapshot();
    }
}

#[test]
fn entry_key_joins_stream_and_record() {
    assert_eq!(entry("cam1", "1700000000", 1).key(), "cam1/1700000000");
    assert_eq!(key("cam1", "1700000000").key(), "cam1/1700000000");
    assert_eq!(entry("", "", 1).key(), "/");
    // the key is the joined text: two names that join alike are one session
    assert_eq!(entry("a/b", "c", 1).key(), entry("a", "b/c", 1).key());
}

#[test]
fn upsert_inserts_and_replaces() {
    let mut index = RecordingsIndex::new();
    assert_eq!(index.len(), 0);
    let plan = index.upsert(entry("cam1", "r1", 10));
    assert_eq!(plan.append, vec![entry("cam1", "r1", 10)]);
    assert!(!plan.compact);
    assert_eq!(index.len(), 1);
    let mut changed = entry("cam1", "r1", 20);
    changed.mpd_path = "elsewhere.mpd".to_string();
    let plan = index.upsert(changed.clone());
    assert_eq!(plan.append, vec![changed.clone()]);
    assert_eq!(index.len(), 1);
    assert_eq!(index.get("cam1", "r1"), Some(changed));
    assert_eq!(index.get("cam1", "r2"), None);
}

#[test]
fn update_status_changes_the_named_session_only() {
    let mut index = RecordingsIndex::new();
    index.upsert(entry("cam1", "r1", 10));
    index.upsert(entry("cam1", "r2", 11));
    let plan =
        index.update_status_at("cam1", "r1", RecordingStatus::Completed, Some(5), Some(6), 99);
    let mut expected = entry("cam1", "r1", 99);
    expected.status = RecordingStatus::Completed;
    expected.end_ts = Some(5);
    expected.duration_ms = Some(6);
    assert_eq!(plan.append, vec![expected.clone()]);
    assert_eq!(index.get("cam1", "r1"), Some(expected));
    assert_eq!(index.get("cam1", "r2"), Some(entry("cam1", "r2", 11)));
}

#[test]
fn update_status_of_an_absent_session_is_a_silent_no_op() {
    let mut index = RecordingsIndex::new();
    index.upsert(entry("cam1", "r1", 10));
    let plan = index.update_status_at("cam1", "nope", RecordingStatus::Failed, None, None, 99);
    assert!(plan.append.is_empty());
    assert!(!plan.compact);
    assert_eq!(index.len(), 1);
    assert_eq!(index.get("cam1", "r1"), Some(entry("cam1", "r1", 10)));
}

#[test]
fn update_status_stamps_with_the_clock() {
    let mut index = RecordingsIndex::new();
    index.upsert(entry("cam1", "r1", 10));
    let plan = index.update_status("cam1", "r1", RecordingStatus::Failed, None, None);
    assert_eq!(plan.append.len(), 1);
    let now = index.get("cam1", "r1").unwrap();
    assert_eq!(now.status, RecordingStatus::Failed);
    // microseconds since 1970: later than the year 2020
    assert!(now.updated_at > 1_577_836_800_000_000);
    assert_eq!(plan.append[0], now);
}

#[test]
fn list_sessions_filters_sorts_and_limits() {
    let mut index = RecordingsIndex::new();
    index.upsert(entry("cam1", "a", 30));
    index.upsert(entry("cam2", "b", 10));
    index.upsert(entry("cam1", "c", 20));
    index.upsert(entry("cam1", "d", 40));
    let (all, cursor) = index.list_sessions(None, None, 0);
    let ids: Vec<_> = all.iter().map(|s| s.id.clone().unwrap()).collect();
    assert_eq!(ids, vec!["b", "c", "a", "d"]);
    assert_eq!(cursor, Some(40));

    let (cam1, cursor) = index.list_sessions(Some("cam1".to_string()), None, 0);
    let ids: Vec<_> = cam1.iter().map(|s| s.id.clone().unwrap()).collect();
    assert_eq!(ids, vec!["c", "a", "d"]);
    assert_eq!(cursor, Some(40));

    let (since, cursor) = index.list_sessions(None, Some(20), 0);
    let ids: Vec<_> = since.iter().map(|s| s.id.clone().unwrap()).collect();
    assert_eq!(ids, vec!["a", "d"]);
    assert_eq!(cursor, Some(40));

    let (two, cursor) = index.list_sessions(None, None, 2);
    let ids: Vec<_> = two.iter().map(|s| s.id.clone().unwrap()).collect();
    assert_eq!(ids, vec!["b", "c"]);
    assert_eq!(cursor, Some(20));

    let (none, cursor) = index.list_sessions(Some("cam9".to_string()), None, 5);
    assert!(none.is_empty());
    assert_eq!(cursor, None);
}

#[test]
fn list_sessions_shows_the_session_fields() {
    let mut index = RecordingsIndex::new();
    let mut e = entry("cam1", "r1", 10);
    e.end_ts = Some(7);
    e.duration_ms = Some(8);
    e.status = RecordingStatus::Completed;
    index.upsert(e);
    let (rows, _) = index.list_sessions(None, None, 10);
    assert_eq!(
        rows,
        vec![RecordingSession {
            id: Some("r1".to_string()),
            stream: "cam1".to_string(),
            start_ts: 1_700_000_000,
            end_ts: Some(7),
            duration_ms: Some(8),
            mpd_path: "cam1/r1/manifest.mpd".to_string(),
            status: RecordingStatus::Completed,
        }]
    );
}

#[test]
fn a_limit_of_zero_means_a_hundred() {
    let mut index = RecordingsIndex::new();
    for i in 0..150 {
        index.upsert(entry("cam1", &format!("r{}", i), 1000 - i));
    }
    let (rows, cursor) = index.list_sessions(None, None, 0);
    assert_eq!(rows.len(), 100);
    // the hundred written first
    assert_eq!(rows[0].id, Some("r149".to_string()));
    assert_eq!(rows[99].id, Some("r50".to_string()));
    assert_eq!(cursor, Some(950));
    assert_eq!(index.list_sessions(None, None, 101).0.len(), 101);
    assert_eq!(index.list_sessions(None, None, 1000).0.len(), 150);
}

#[test]
fn pagination_returns_the_smaller_of_count_and_limit_in_ascending_order() {
    for n in 0..7i64 {
        let mut index = RecordingsIndex::new();
        // distinct times of writing, inserted out of order
        for i in 0..n {
            index.upsert(entry("cam1", &format!("r{}", i), (i * 5) % 7));
        }
        for k in 1..9u32 {
            let (rows, cursor) = index.list_sessions(None, None, k);
            assert_eq!(rows.len() as i64, n.min(k as i64));
            let times: Vec<i64> = rows
                .iter()
                .map(|s| index.get(&s.stream, s.id.as_ref().unwrap()).unwrap().updated_at)
                .collect();
            assert!(times.windows(2).all(|w| w[0] < w[1]));
            assert_eq!(cursor, times.iter().copied().max());
        }
    }
}

#[test]
fn acked_sessions_never_appear_in_a_listing() {
    let mut index = RecordingsIndex::new();
    index.upsert(entry("cam1", "a", 1));
    index.upsert(entry("cam1", "b", 2));
    let mut tomb = entry("cam2", "c", 3);
    tomb.status = RecordingStatus::Acked;
    index.upsert(tomb);
    index.ack_at(&vec![key("cam1", "a")], 50);
    for stream in [None, Some("cam1".to_string()), Some("cam2".to_string())] {
        for since in [None, Some(0), Some(2), Some(49), Some(50)] {
            for limit in [0, 1, 5] {
                let (rows, _) = index.list_sessions(stream.clone(), since, limit);
                assert!(rows.iter().all(|s| s.status != RecordingStatus::Acked));
                assert!(rows.iter().all(|s| s.id != Some("a".to_string())));
                assert!(rows.iter().all(|s| s.id != Some("c".to_string())));
            }
        }
    }
}

#[test]
fn ack_marks_the_named_sessions_and_counts_them() {
    let mut index = RecordingsIndex::new();
    index.upsert(entry("cam1", "a", 1));
    index.upsert(entry("cam1", "b", 2));
    index.upsert(entry("cam1", "c", 3));
    let names = vec![key("cam1", "c"), key("cam1", "zz"), key("cam1", "a")];
    let (count, plan) = index.ack_at(&names, 77);
    assert_eq!(count, 2);
    let mut c = entry("cam1", "c", 77);
    c.status = RecordingStatus::Acked;
    let mut a = entry("cam1", "a", 77);
    a.status = RecordingStatus::Acked;
    assert_eq!(plan.append, vec![c.clone(), a.clone()]);
    assert_eq!(index.get("cam1", "a"), Some(a));
    assert_eq!(index.get("cam1", "c"), Some(c));
    assert_eq!(index.get("cam1", "b"), Some(entry("cam1", "b", 2)));
    assert_eq!(index.len(), 3);
}

#[test]
fn ack_counts_a_name_that_occurs_twice_twice() {
    let mut index = RecordingsIndex::new();
    index.upsert(entry("cam1", "a", 1));
    let (count, plan) = index.ack_at(&vec![key("cam1", "a"), key("cam1", "a")], 5);
    assert_eq!(count, 2);
    assert_eq!(plan.append.len(), 2);
    assert_eq!(plan.append[0], plan.append[1]);
}

#[test]
fn ack_of_nothing_known_plans_nothing() {
    let mut index = RecordingsIndex::new();
    index.upsert(entry("cam1", "a", 1));
    let (count, plan) = index.ack_at(&vec![key("cam1", "x")], 5);
    assert_eq!(count, 0);
    assert!(plan.append.is_empty());
    assert!(!plan.compact);
    let (count, plan) = index.ack(AckRecordingsRequest { records: vec![] });
    assert_eq!(count, 0);
    assert!(plan.append.is_empty());
    assert!(!plan.compact);
}

#[test]
fn ack_stamps_with_the_clock() {
    let mut index = RecordingsIndex::new();
    index.upsert(entry("cam1", "a", 1));
    let (count, plan) = index.ack(AckRecordingsRequest { records: vec![key("cam1", "a")] });
    assert_eq!(count, 1);
    let a = index.get("cam1", "a").unwrap();
    assert_eq!(a.status, RecordingStatus::Acked);
    assert!(a.updated_at > 1_577_836_800_000_000);
    assert_eq!(plan.append, vec![a]);
}

#[test]
fn delete_acked_removes_tombstones_only() {
    let mut index = RecordingsIndex::new();
    index.upsert(entry("cam1", "a", 1));
    index.upsert(entry("cam1", "b", 2));
    index.upsert(entry("cam1", "c", 3));
    index.ack_at(&vec![key("cam1", "a"), key("cam1", "c")], 9);
    let (removed, plan) = index.delete_acked(DeleteRecordingsRequest {
        records: vec![key("cam1", "a"), key("cam1", "b"), key("cam1", "nope")],
    });
    assert_eq!(removed, 1);
    assert!(plan.append.is_empty());
    assert!(plan.compact);
    assert_eq!(index.get("cam1", "a"), None);
    assert_eq!(index.get("cam1", "b"), Some(entry("cam1", "b", 2)));
    assert!(index.get("cam1", "c").is_some());
    assert_eq!(index.len(), 2);
}

#[test]
fn delete_acked_leaves_a_session_that_is_no_tombstone() {
    let mut index = RecordingsIndex::new();
    index.upsert(entry("cam1", "a", 1));
    let before = index.compaction_snapshot();
    let (removed, plan) =
        index.delete_acked(DeleteRecordingsRequest { records: vec![key("cam1", "a")] });
    assert_eq!(removed, 0);
    assert!(!plan.compact);
    assert!(plan.append.is_empty());
    assert_eq!(index.compaction_snapshot(), before);
}

#[test]
fn delete_acked_counts_a_name_that_occurs_twice_once() {
    let mut index = RecordingsIndex::new();
    index.upsert(entry("cam1", "a", 1));
    index.ack_at(&vec![key("cam1", "a")], 9);
    let (removed, _) = index.delete_acked(DeleteRecordingsRequest {
        records: vec![key("cam1", "a"), key("cam1", "a")],
    });
    assert_eq!(removed, 1);
    assert_eq!(index.len(), 0);
}

#[test]
fn compaction_is_due_at_every_two_hundredth_appended_entry() {
    assert_eq!(COMPACT_EVERY, 200);
    let mut index = RecordingsIndex::new();
    for i in 1..=401 {
        let plan = index.upsert(entry("cam1", "r", i));
        // the change itself asks for no compaction; the count of what was
        // appended does
        assert!(!plan.compact);
        assert_eq!(index.appended(plan.append.len()), i % 200 == 0, "write {}", i);
    }
    assert!(!index.appended(0));
}

#[test]
fn lines_that_were_not_appended_are_not_counted() {
    let mut index = RecordingsIndex::new();
    for i in 0..199 {
        let plan = index.upsert(entry("cam1", "r", i));
        assert!(!index.appended(plan.append.len()));
    }
    // an append that failed is not reported, so the next one is the
    // two-hundredth
    let _lost = index.upsert(entry("cam1", "r", 500));
    let _lost = index.upsert(entry("cam1", "r", 501));
    let plan = index.upsert(entry("cam1", "r", 502));
    assert!(index.appended(plan.append.len()));
}

#[test]
fn a_batch_that_steps_over_a_multiple_of_two_hundred_does_not_compact() {
    let mut index = RecordingsIndex::new();
    index.upsert(entry("cam1", "a", 1));
    index.upsert(entry("cam1", "b", 2));
    assert!(!index.appended(2));
    for i in 0..197 {
        let plan = index.upsert(entry("cam1", "r", i));
        assert!(!index.appended(plan.append.len()));
    }
    // 199 entries are written; two more make 201
    let (count, plan) = index.ack_at(&vec![key("cam1", "a"), key("cam1", "b")], 9);
    assert_eq!(count, 2);
    assert!(!plan.compact);
    assert!(!index.appended(plan.append.len()));
    for i in 0..198 {
        let plan = index.upsert(entry("cam1", "r", i));
        assert!(!index.appended(plan.append.len()));
    }
    let plan = index.upsert(entry("cam1", "r", 0));
    assert!(index.appended(plan.append.len()));
}

#[test]
fn load_keeps_the_last_entry_of_each_key() {
    let mut second = entry("cam1", "a", 5);
    second.status = RecordingStatus::Completed;
    let index = RecordingsIndex::load(vec![
        entry("cam1", "a", 1),
        entry("cam2", "b", 2),
        second.clone(),
    ]);
    assert_eq!(index.len(), 2);
    assert_eq!(index.get("cam1", "a"), Some(second));
    assert_eq!(index.get("cam2", "b"), Some(entry("cam2", "b", 2)));
    assert_eq!(RecordingsIndex::load(vec![]).len(), 0);
}

#[test]
fn reloading_the_log_after_every_write_gives_the_state_held() {
    let mut index = RecordingsIndex::new();
    let mut log: Vec<RecordingIndexEntry> = Vec::new();
    let mut step = 0i64;
    for round in 0..3 {
        for name in ["a", "b", "c", "a"] {
            step += 1;
            let plan = index.upsert(entry("cam1", name, step));
            apply(&mut log, &mut index, &plan);
            assert_eq!(
                RecordingsIndex::load(log.clone()).compaction_snapshot(),
                index.compaction_snapshot()
            );
            step += 1;
            let plan = index.update_status_at(
                "cam1",
                if round == 1 { "missing" } else { name },
                RecordingStatus::Completed,
                Some(step),
                Some(round),
                step,
            );
            apply(&mut log, &mut index, &plan);
            assert_eq!(
                RecordingsIndex::load(log.clone()).compaction_snapshot(),
                index.compaction_snapshot()
            );
        }
        let (_, plan) = index.ack_at(&vec![key("cam1", "b"), key("cam1", "x")], step);
        apply(&mut log, &mut index, &plan);
        assert_eq!(
            RecordingsIndex::load(log.clone()).compaction_snapshot(),
            index.compaction_snapshot()
        );
    }
    assert_eq!(index.len(), 3);
}

#[test]
fn compaction_sorts_by_stream_then_record() {
    let mut index = RecordingsIndex::new();
    for (stream, record) in
        [("cam2", "1"), ("cam1", "9"), ("cam10", "0"), ("cam1", "10"), ("Cam", "z"), ("cam1", "")]
    {
        index.upsert(entry(stream, record, 1));
    }
    let keys: Vec<(String, String)> = index
        .compaction_snapshot()
        .into_iter()
        .map(|e| (e.stream, e.record))
        .collect();
    let mut expected = keys.clone();
    expected.sort();
    assert_eq!(keys, expected);
    assert_eq!(keys[0], ("Cam".to_string(), "z".to_string()));
    assert_eq!(keys[1], ("cam1".to_string(), "".to_string()));
    assert_eq!(keys[2], ("cam1".to_string(), "10".to_string()));
    assert_eq!(keys[3], ("cam1".to_string(), "9".to_string()));
    assert_eq!(keys[4], ("cam10".to_string(), "0".to_string()));
    assert_eq!(keys[5], ("cam2".to_string(), "1".to_string()));
}

#[test]
fn compacting_twice_gives_the_same_lines() {
    let mut index = RecordingsIndex::new();
    for (i, name) in ["q", "b", "x", "a", "b"].iter().enumerate() {
        index.upsert(entry("cam1", name, i as i64));
    }
    let first = index.compaction_snapshot();
    let second = index.compaction_snapshot();
    assert_eq!(first, second);
    assert_eq!(first.len(), 4);
    // the compacted log stands for the same index, and compacts to itself
    let reloaded = RecordingsIndex::load(first.clone());
    assert_eq!(reloaded.compaction_snapshot(), first);
}

#[test]
fn a_session_from_start_to_removal() {
    let mut index = RecordingsIndex::new();
    let mut log: Vec<RecordingIndexEntry> = Vec::new();
    let plan = index.upsert(entry("cam1", "1700000000", 1));
    apply(&mut log, &mut index, &plan);

    let plan = index.update_status_at(
        "cam1",
        "1700000000",
        RecordingStatus::Completed,
        Some(1_700_000_060),
        Some(60_000),
        2,
    );
    apply(&mut log, &mut index, &plan);

    let (rows, cursor) = index.list_sessions(Some("cam1".to_string()), None, 0);
    assert_eq!(rows.len(), 1);
    assert_eq!(rows[0].status, RecordingStatus::Completed);
    assert_eq!(rows[0].end_ts, Some(1_700_000_060));
    assert_eq!(rows[0].duration_ms, Some(60_000));
    assert_eq!(cursor, Some(2));

    let (acked, plan) =
        index.ack(AckRecordingsRequest { records: vec![key("cam1", "1700000000")] });
    assert_eq!(acked, 1);
    apply(&mut log, &mut index, &plan);
    let (rows, cursor) = index.list_sessions(Some("cam1".to_string()), None, 0);
    assert!(rows.is_empty());
    assert_eq!(cursor, None);

    let (removed, plan) = index
        .delete_acked(DeleteRecordingsRequest { records: vec![key("cam1", "1700000000")] });
    assert_eq!(removed, 1);
    assert!(plan.compact);
    apply(&mut log, &mut index, &plan);
    assert!(log.iter().all(|e| e.key() != "cam1/1700000000"));
    assert!(log.is_empty());
    assert_eq!(RecordingsIndex::load(log).len(), 0);
}

#[test]
fn sessions_written_at_the_same_time_are_listed_in_the_order_held() {
    let mut index = RecordingsIndex::new();
    for name in ["d", "a", "c", "b"] {
        index.upsert(entry("cam1", name, 7));
    }
    index.upsert(entry("cam1", "early", 1));
    let (rows, cursor) = index.list_sessions(None, None, 3);
    let ids: Vec<_> = rows.iter().map(|s| s.id.clone().unwrap()).collect();
    assert_eq!(ids, vec!["early", "d", "a"]);
    assert_eq!(cursor, Some(7));
}

#[test]
fn a_large_index_is_listed_and_compacted() {
    let mut index = RecordingsIndex::new();
    for i in 0..2000i64 {
        index.upsert(entry(&format!("cam{}", i % 13), &format!("{}", 5000 - i), (i * 7919) % 2003));
    }
    assert_eq!(index.len(), 2000);
    let (rows, cursor) = index.list_sessions(None, None, 50);
    assert_eq!(rows.len(), 50);
    let times: Vec<i64> = rows
        .iter()
        .map(|s| index.get(&s.stream, s.id.as_ref().unwrap()).unwrap().updated_at)
        .collect();
    assert_eq!(times, (0..50).collect::<Vec<i64>>());
    assert_eq!(cursor, Some(49));
    let lines = index.compaction_snapshot();
    assert_eq!(lines.len(), 2000);
    assert!(lines
        .windows(2)
        .all(|w| (&w[0].stream, &w[0].record) < (&w[1].stream, &w[1].record)));
}
