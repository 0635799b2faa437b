use live_recordings::admin::{cascade_action, CascadeAction, CascadeError};
use live_recordings::headers::{select_headers, usable_headers, Header, Verdict};
use live_recordings::playback::{
    content_type_for, default_index_path, default_signed_ttl_seconds, has_part, has_suffix,
    records_of, redirect_ttl_seconds, stream_names, wants_redirect, Playback,
};
use live_recordings::presign::{presign_method, presign_ttl_seconds, PresignMethod};
use live_recordings::session::{RecordingIndexEntry, RecordingStatus};
use live_recordings::text::chars_of;

fn header(name: &str, value: &str) -> Header {
    Header { name: name.to_string(), value: value.to_string() }
}

fn pairs(headers: Vec<Header>) -> Vec<(String, String)> {
    headers.into_iter().map(|h| (h.name, h.value)).collect()
}

fn entry(stream: &str, record: &str, updated_at: i64) -> RecordingIndexEntry {
    RecordingIndexEntry {
        record: record.to_string(),
        stream: stream.to_string(),
        record_dir: String::new(),
        mpd_path: String::new(),
        start_ts: 0,
        end_ts: None,
        duration_ms: None,
        status: RecordingStatus::Recording,
        node_alias: None,
        updated_at,
    }
}

#[test]
fn a_cascade_needs_exactly_one_of_source_and_target() {
    assert!(matches!(cascade_action(None, None), Err(CascadeError::BothEmpty)));
    assert!(matches!(
        cascade_action(Some("a".to_string()), Some("b".to_string())),
        Err(CascadeError::BothGiven)
    ));
    match cascade_action(Some("http://src".to_string()), None) {
        Ok(CascadeAction::Pull { source_url }) => assert_eq!(source_url, "http://src"),
        other => panic!("unexpected {:?}", other),
    }
    match cascade_action(None, Some("http://dst".to_string())) {
        Ok(CascadeAction::Push { target_url }) => assert_eq!(target_url, "http://dst"),
        other => panic!("unexpected {:?}", other),
    }
    assert_eq!(
        CascadeError::BothEmpty.message(),
        "src and dst cannot be empty at the same time"
    );
    assert_eq!(
        CascadeError::BothGiven.message(),
        "src and dst cannot be non-empty at the same time"
    );
}

#[test]
fn headers_that_cannot_be_sent_are_dropped() {
    let headers = vec![
        header("content-type", "video/mp4"),
        header("bad name", "x"),
        header("x-amz-acl", "line\nbreak"),
        header("", "empty name"),
        header("X-Upper", "ok"),
        header("x-tab", "a\tb"),
        header("x-del", "a\u{7f}b"),
    ];
    assert_eq!(
        pairs(usable_headers(&headers)),
        vec![
            ("content-type".to_string(), "video/mp4".to_string()),
            ("X-Upper".to_string(), "ok".to_string()),
            ("x-tab".to_string(), "a\tb".to_string()),
        ]
    );
    assert!(usable_headers(&vec![]).is_empty());
}

#[test]
fn headers_are_selected_by_their_verdicts() {
    let headers = vec![header("a", "1"), header("b", "2"), header("c", "3"), header("d", "4")];
    let verdicts = vec![
        Verdict { name_ok: true, value_ok: true },
        Verdict { name_ok: false, value_ok: true },
        Verdict { name_ok: true, value_ok: false },
        Verdict { name_ok: false, value_ok: false },
    ];
    assert_eq!(
        pairs(select_headers(&headers, &verdicts)),
        vec![("a".to_string(), "1".to_string())]
    );
    let all = vec![Verdict { name_ok: true, value_ok: true }; 4];
    assert_eq!(select_headers(&headers, &all).len(), 4);
}

#[test]
fn the_presign_route_knows_get_and_put() {
    assert_eq!(presign_method("GET"), Some(PresignMethod::Get));
    assert_eq!(presign_method("PUT"), Some(PresignMethod::Put));
    for other in ["", "get", "put", "POST", "GET ", " PUT", "DELETE", "PUTT"] {
        assert_eq!(presign_method(other), None, "{:?}", other);
    }
    assert_eq!(presign_ttl_seconds(0), 30);
    assert_eq!(presign_ttl_seconds(29), 30);
    assert_eq!(presign_ttl_seconds(30), 30);
    assert_eq!(presign_ttl_seconds(31), 31);
    assert_eq!(presign_ttl_seconds(u64::MAX), u64::MAX);
}

#[test]
fn objects_are_labelled_by_their_ending() {
    assert_eq!(content_type_for("cam1/1/manifest.mpd"), "application/dash+xml");
    assert_eq!(content_type_for("cam1/1/video_seg_1.m4s"), "video/mp4");
    assert_eq!(content_type_for("cam1/1/audio_seg_1.m4s"), "audio/mp4");
    assert_eq!(content_type_for("cam1/1/init.mp4"), "video/mp4");
    assert_eq!(content_type_for("audio_/init.mp4"), "audio/mp4");
    assert_eq!(content_type_for("cam1/1/audio_init.mp4"), "audio/mp4");
    assert_eq!(content_type_for("cam1/1/audio_.mpd"), "application/dash+xml");
    assert_eq!(content_type_for("cam1/1/audio_.bin"), "application/octet-stream");
    assert_eq!(content_type_for("cam1/1/thumb.jpg"), "application/octet-stream");
    assert_eq!(content_type_for(""), "application/octet-stream");
    assert_eq!(content_type_for(".mpd"), "application/dash+xml");
    assert_eq!(content_type_for("mpd"), "application/octet-stream");
    assert_eq!(content_type_for("x.MP4"), "application/octet-stream");
    assert_eq!(content_type_for("audio.mp4"), "video/mp4");
}

#[test]
fn suffix_and_part_agree_with_the_standard_library() {
    let texts = ["", "a", "ab", "abc", "bc", "abcabc", "xaudio_y.mp4", "éa", "aé"];
    for s in texts {
        for t in texts {
            assert_eq!(has_suffix(&chars_of(s), &chars_of(t)), s.ends_with(t), "{:?} {:?}", s, t);
            assert_eq!(has_part(&chars_of(s), &chars_of(t)), s.contains(t), "{:?} {:?}", s, t);
        }
    }
}

#[test]
fn media_segments_are_redirected_where_redirects_are_on() {
    assert!(wants_redirect("cam1/1/seg_1.m4s", true));
    assert!(!wants_redirect("cam1/1/seg_1.m4s", false));
    assert!(!wants_redirect("cam1/1/manifest.mpd", true));
    assert!(!wants_redirect("cam1/1/manifest.mpd", false));
    assert!(wants_redirect("", true));
    assert_eq!(redirect_ttl_seconds(0), 1);
    assert_eq!(redirect_ttl_seconds(1), 1);
    assert_eq!(redirect_ttl_seconds(60), 60);
}

#[test]
fn playback_defaults() {
    assert_eq!(default_signed_ttl_seconds(), 60);
    assert_eq!(default_index_path(), "./recordings/index.json");
    assert_eq!(
        Playback::default(),
        Playback { signed_redirect: false, signed_ttl_seconds: 60 }
    );
}

#[test]
fn streams_are_listed_once_and_in_order() {
    let entries = vec![
        entry("cam2", "1", 0),
        entry("cam1", "1", 0),
        entry("cam2", "2", 0),
        entry("Cam", "1", 0),
        entry("cam10", "1", 0),
        entry("cam1", "1", 5),
    ];
    assert_eq!(stream_names(&entries), vec!["Cam", "cam1", "cam10", "cam2"]);
    assert!(stream_names(&vec![]).is_empty());
}

#[test]
fn records_of_a_stream_are_listed_in_order_and_keep_their_place_among_equals() {
    let entries = vec![
        entry("cam1", "30", 1),
        entry("cam2", "10", 2),
        entry("cam1", "10", 3),
        entry("cam1", "30", 4),
        entry("cam1", "20", 5),
        entry("cam1", "10", 6),
    ];
    let rows: Vec<(String, i64)> =
        records_of(&entries, "cam1").into_iter().map(|e| (e.record, e.updated_at)).collect();
    assert_eq!(
        rows,
        vec![
            ("10".to_string(), 3),
            ("10".to_string(), 6),
            ("20".to_string(), 5),
            ("30".to_string(), 1),
            ("30".to_string(), 4),
        ]
    );
    assert!(records_of(&entries, "cam9").is_empty());
}

#[test]
fn a_header_name_is_made_of_token_characters() {
    for b in 0u8..=127 {
        let c = b as char;
        let expected = c.is_ascii_alphanumeric() || "!#$%&'*+-.^_`|~".contains(c);
        let kept = usable_headers(&vec![header(&c.to_string(), "v")]);
        assert_eq!(kept.len() == 1, expected, "byte {}", b);
    }
    // nothing beyond ASCII, and not the empty name
    assert!(usable_headers(&vec![header("\u{e9}", "v"), header("x-\u{4e2d}", "v")]).is_empty());
    assert!(usable_headers(&vec![header("", "v")]).is_empty());
    // at most 65,535 bytes
    assert_eq!(usable_headers(&vec![header(&"a".repeat(65_535), "v")]).len(), 1);
    assert!(usable_headers(&vec![header(&"a".repeat(65_536), "v")]).is_empty());
    assert_eq!(usable_headers(&vec![header(&"a".repeat(64), "v")]).len(), 1);
    assert_eq!(usable_headers(&vec![header(&"a".repeat(65), "v")]).len(), 1);
    assert!(usable_headers(&vec![header(&("a".repeat(64) + " "), "v")]).is_empty());
}

#[test]
fn a_header_value_is_made_of_tabs_and_what_follows_the_space() {
    for b in 0u8..=127 {
        let c = b as char;
        let expected = b == 9 || (b >= 32 && b != 127);
        let kept = usable_headers(&vec![header("x", &format!("a{}b", c))]);
        assert_eq!(kept.len() == 1, expected, "byte {}", b);
    }
    // text beyond ASCII is made of bytes above 127
    assert_eq!(usable_headers(&vec![header("x", "caf\u{e9} \u{4e2d}")]).len(), 1);
    assert_eq!(usable_headers(&vec![header("x", "")]).len(), 1);
}
