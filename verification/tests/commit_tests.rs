use base64::Engine;
use castlog::commit::{
    build_commit_plan, commit_result, resolve_upload_id, upload_response, CommitError,
    StorageConfig,
};
use castlog::interval::Interval;
use castlog::pipeline::Cast;
use castlog::upload::prepare_upload;

fn cfg() -> StorageConfig {
    StorageConfig { bucket: String::from("sessions"), key_prefix: String::from("logs") }
}

fn one_cast() -> Cast {
    Cast {
        filename: String::from("7"),
        content: b"doc".to_vec(),
        started_at: 5,
        duration_ms: 1500,
        active_duration_ms: 500,
        event_count: 3,
        width: 100,
        height: 40,
    }
}

#[test]
fn commit_success_needs_all_three() {
    assert!(commit_result(true, true, true).is_ok());
    assert!(commit_result(false, true, true).is_err());
    assert!(commit_result(true, false, true).is_err());
    assert!(commit_result(true, true, false).is_err());
    assert!(commit_result(false, false, false).is_err());
}

#[test]
fn commit_failed_object_upload_is_never_success() {
    let r = commit_result(false, true, true);
    assert_eq!(r.unwrap_err(), CommitError::RecordingUpload);
    let r = commit_result(true, false, true);
    assert_eq!(r.unwrap_err(), CommitError::HeartbeatUpload);
    let r = commit_result(true, true, false);
    assert_eq!(r.unwrap_err(), CommitError::MetadataTransaction);
}

#[test]
fn plan_uses_deterministic_keys() {
    let id = String::from("u1");
    let note = String::from("a note");
    let intervals = vec![Interval { start: 0, end: 9 }];
    let pulses = vec![0i64, 5, 9];
    let casts = vec![one_cast()];
    let plan = build_commit_plan(&cfg(), &id, &note, &intervals, &pulses, &casts);
    assert_eq!(plan.recording_puts.len(), 1);
    assert_eq!(plan.recording_puts[0].key, "logs/u1/7");
    assert_eq!(plan.recording_puts[0].body, b"doc".to_vec());
    assert_eq!(plan.heartbeat_put.key, "logs/u1/heartbeats.log");
    assert_eq!(plan.heartbeat_put.body, b"0\n5\n9\n".to_vec());
    assert_eq!(plan.log_row.uuid, "u1");
    assert_eq!(plan.log_row.note, "a note");
}

#[test]
fn plan_rows_carry_derived_metadata() {
    let id = String::from("u2");
    let note = String::new();
    let intervals = vec![Interval { start: 3, end: 8 }, Interval { start: 20, end: 20 }];
    let pulses = vec![3i64, 8, 20];
    let casts = vec![one_cast()];
    let plan = build_commit_plan(&cfg(), &id, &note, &intervals, &pulses, &casts);
    assert_eq!(plan.heartbeat_rows.len(), 2);
    assert_eq!(plan.heartbeat_rows[0].session, 0);
    assert_eq!(plan.heartbeat_rows[0].started_at, 3);
    assert_eq!(plan.heartbeat_rows[0].ended_at, 8);
    assert_eq!(plan.heartbeat_rows[1].started_at, 20);
    assert_eq!(plan.cast_rows.len(), 1);
    let row = &plan.cast_rows[0];
    assert_eq!(row.uuid, "u2");
    assert_eq!(row.bucket, "sessions");
    assert_eq!(row.path, "logs/u2/7");
    assert_eq!(row.size_byte, 3);
    assert_eq!(row.duration_ms, 1500);
    assert_eq!(row.active_duration_ms, 500);
    assert_eq!(row.event_count, 3);
    assert_eq!(row.started_at, 5);
    assert_eq!(row.width, 100);
    assert_eq!(row.height, 40);
}

#[test]
fn upload_id_is_echoed_or_generated() {
    let given = resolve_upload_id(Some(String::from("abc")));
    assert_eq!(given, "abc");
    let fresh = resolve_upload_id(None);
    assert_eq!(fresh.len(), 36);
    for (i, c) in fresh.chars().enumerate() {
        if i == 8 || i == 13 || i == 18 || i == 23 {
            assert_eq!(c, '-');
        } else {
            assert!(c.is_ascii_hexdigit() && !c.is_ascii_uppercase());
        }
    }
}

#[test]
fn upload_response_carries_view_url() {
    let r = upload_response(&String::from("u9"));
    assert!(r.ok);
    assert_eq!(r.url, "/view/u9");
}

fn encode_payload(payload: &[u8]) -> String {
    let compressed = zstd::stream::encode_all(payload, 0).unwrap();
    base64::engine::general_purpose::STANDARD.encode(compressed)
}

fn upload_blob() -> String {
    let mut hb_bytes: Vec<u8> = Vec::new();
    for t in [100u32, 105, 140] {
        hb_bytes.extend_from_slice(&t.to_le_bytes());
    }
    let mut chunk: Vec<u8> = Vec::new();
    chunk.extend_from_slice(&9000u128.to_le_bytes());
    chunk.extend_from_slice(&2.0f32.to_le_bytes());
    chunk.push(1);
    chunk.push(2);
    chunk.extend_from_slice(b"ok");
    format!(
        "[\"heartbeat\",\"{}\"]\n[\"cast\",[12,\"{}\"]]\n",
        encode_payload(&hb_bytes),
        encode_payload(&chunk)
    )
}

#[test]
fn prepare_upload_end_to_end() {
    let blob = upload_blob();
    let (id, plan) =
        prepare_upload(&cfg(), Some(String::from("up")), &String::from("n"), &blob).unwrap();
    assert_eq!(id, "up");
    assert_eq!(plan.heartbeat_rows.len(), 2);
    assert_eq!(plan.heartbeat_rows[0].started_at, 100);
    assert_eq!(plan.heartbeat_rows[0].ended_at, 105);
    assert_eq!(plan.heartbeat_rows[1].started_at, 140);
    assert_eq!(plan.heartbeat_put.body, b"100\n105\n140\n".to_vec());
    assert_eq!(plan.recording_puts.len(), 1);
    assert_eq!(plan.recording_puts[0].key, "logs/up/12");
    assert_eq!(plan.cast_rows[0].duration_ms, 2000);
    assert_eq!(plan.cast_rows[0].started_at, 9);
    assert_eq!(plan.cast_rows[0].event_count, 1);
}

#[test]
fn prepare_upload_rejects_corrupt_recording() {
    let blob = format!("[\"cast\",[3,\"{}\"]]\n", encode_payload(b"short"));
    let r = prepare_upload(&cfg(), None, &String::new(), &blob);
    assert_eq!(
        r.unwrap_err(),
        castlog::pipeline::ProcessError::Recording(castlog::events::CastError::TruncatedHeader)
    );
}
