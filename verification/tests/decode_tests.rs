use base64::Engine;
use castlog::decode::parse_log;

fn pack(payload: &[u8]) -> String {
    let compressed = zstd::stream::encode_all(payload, 0).unwrap();
    base64::engine::general_purpose::STANDARD.encode(compressed)
}

fn heartbeat_line(ts: &[u32]) -> String {
    let mut bytes: Vec<u8> = Vec::new();
    for t in ts {
        bytes.extend_from_slice(&t.to_le_bytes());
    }
    format!("[\"heartbeat\",\"{}\"]", pack(&bytes))
}

fn cast_line(id: u128, content: &[u8]) -> String {
    format!("[\"cast\",[{},\"{}\"]]", id, pack(content))
}

#[test]
fn decoder_drops_malformed_line() {
    let blob = format!("{}\nthis is not json\n", heartbeat_line(&[100, 105]));
    let (pulses, casts) = parse_log(&blob);
    assert_eq!(pulses, vec![100i64, 105]);
    assert!(casts.is_empty());
}

#[test]
fn decoder_reads_compressed_heartbeats() {
    let blob = heartbeat_line(&[0, 5, 9, 40]);
    let (pulses, casts) = parse_log(&blob);
    assert_eq!(pulses, vec![0i64, 5, 9, 40]);
    assert!(casts.is_empty());
}

#[test]
fn decoder_reads_plain_array_heartbeats() {
    let blob = "[\"heartbeat\",[1,2,3]]";
    let (pulses, _) = parse_log(blob);
    assert_eq!(pulses, vec![1i64, 2, 3]);
}

#[test]
fn decoder_accumulates_chunks_per_recording() {
    let blob = format!(
        "{}\n{}\n{}\n",
        cast_line(7, b"AB"),
        cast_line(9, b"zz"),
        cast_line(7, b"CD")
    );
    let (_, casts) = parse_log(&blob);
    assert_eq!(casts.len(), 2);
    assert_eq!(casts[0].filename, "7");
    assert_eq!(casts[0].content, b"ABCD".to_vec());
    assert_eq!(casts[1].filename, "9");
    assert_eq!(casts[1].content, b"zz".to_vec());
}

#[test]
fn decoder_drops_bad_base64_payload() {
    let blob = "[\"cast\",[5,\"not base64!!\"]]";
    let (pulses, casts) = parse_log(blob);
    assert!(pulses.is_empty());
    assert!(casts.is_empty());
}

#[test]
fn decoder_drops_uncompressed_payload() {
    let raw = base64::engine::general_purpose::STANDARD.encode(b"plain bytes");
    let blob = format!("[\"cast\",[5,\"{}\"]]", raw);
    let (_, casts) = parse_log(&blob);
    assert!(casts.is_empty());
}

#[test]
fn decoder_drops_unknown_kind() {
    let blob = format!("[\"telemetry\",\"{}\"]", pack(b"xy"));
    let (pulses, casts) = parse_log(&blob);
    assert!(pulses.is_empty());
    assert!(casts.is_empty());
}

#[test]
fn decoder_strips_line_timestamps() {
    let blob = format!("2024-01-02T03:04:05.5Z [\"heartbeat\",[7]]");
    let (pulses, _) = parse_log(&blob);
    assert_eq!(pulses, vec![7i64]);
}

#[test]
fn decoder_handles_crlf_lines() {
    let blob = format!("{}\r\n[\"heartbeat\",[3]]\r\n", heartbeat_line(&[1]));
    let (pulses, _) = parse_log(&blob);
    assert_eq!(pulses, vec![1i64, 3]);
}

#[test]
fn decoder_ignores_trailing_heartbeat_bytes() {
    let mut bytes: Vec<u8> = Vec::new();
    bytes.extend_from_slice(&42u32.to_le_bytes());
    bytes.extend_from_slice(&[1, 2]);
    let blob = format!("[\"heartbeat\",\"{}\"]", pack(&bytes));
    let (pulses, _) = parse_log(&blob);
    assert_eq!(pulses, vec![42i64]);
}

#[test]
fn decoder_reads_largest_timestamp() {
    let blob = heartbeat_line(&[u32::MAX]);
    let (pulses, _) = parse_log(&blob);
    assert_eq!(pulses, vec![4294967295i64]);
}

#[test]
fn decoder_empty_input() {
    let (pulses, casts) = parse_log("");
    assert!(pulses.is_empty());
    assert!(casts.is_empty());
}
