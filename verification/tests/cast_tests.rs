use castlog::cast::convert_cast;
use castlog::events::CastError;
use castlog::pipeline::Cast;

fn ev_text(elapsed: f32, kind: u8, data: &[u8]) -> Vec<u8> {
    assert!(data.len() < 128);
    let mut out: Vec<u8> = Vec::new();
    out.extend_from_slice(&elapsed.to_le_bytes());
    out.push(kind);
    out.push(data.len() as u8);
    out.extend_from_slice(data);
    out
}

fn ev_resize(elapsed: f32, rows: u16, cols: u16) -> Vec<u8> {
    let mut out: Vec<u8> = Vec::new();
    out.extend_from_slice(&elapsed.to_le_bytes());
    out.push(2);
    out.extend_from_slice(&rows.to_le_bytes());
    out.extend_from_slice(&cols.to_le_bytes());
    out
}

fn chunk(ts_ms: u128, events: &[Vec<u8>]) -> Vec<u8> {
    let mut out: Vec<u8> = Vec::new();
    out.extend_from_slice(&ts_ms.to_le_bytes());
    for e in events {
        out.extend_from_slice(e);
    }
    out
}

#[test]
fn reconstruct_resize_and_output() {
    let src = chunk(
        1700000000000,
        &[ev_resize(2.0, 30, 120), ev_text(5.0, 1, b"hello")],
    );
    let cast = convert_cast(&src).unwrap();
    assert_eq!(cast.width, 120);
    assert_eq!(cast.height, 30);
    assert_eq!(cast.duration_ms, 5000);
    assert_eq!(cast.active_duration_ms, 0);
    assert_eq!(cast.event_count, 2);
    assert_eq!(cast.started_at, 1700000000);
    let mut expected = String::new();
    expected.push_str("{\"env\":{\"SHELL\":\"/bin/bash\",\"TERM\":\"xterm-color\"},");
    expected.push_str("\"term\":{\"cols\":120,\"rows\":30,\"type\":\"xterm-color\"},");
    expected.push_str("\"timestamp\":1700000000000,\"version\":3}\n");
    expected.push_str("[2.000,\"r\",\"120x30\"]\n");
    expected.push_str("[3.000,\"o\",\"hello\"]\n");
    assert_eq!(cast.content, expected.as_bytes().to_vec());
}

#[test]
fn reconstruct_is_deterministic() {
    let src = chunk(42, &[ev_text(0.25, 1, b"x"), ev_text(0.75, 0, b"y")]);
    let a = convert_cast(&src).unwrap();
    let b = convert_cast(&src).unwrap();
    assert_eq!(a.content, b.content);
    assert_eq!(a.duration_ms, b.duration_ms);
}

#[test]
fn reconstruct_header_only() {
    let src = chunk(1000, &[]);
    let cast = convert_cast(&src).unwrap();
    assert_eq!(cast.width, 80);
    assert_eq!(cast.height, 24);
    assert_eq!(cast.duration_ms, 0);
    assert_eq!(cast.active_duration_ms, 0);
    assert_eq!(cast.event_count, 0);
    assert_eq!(cast.started_at, 1);
    let mut expected = String::new();
    expected.push_str("{\"env\":{\"SHELL\":\"/bin/bash\",\"TERM\":\"xterm-color\"},");
    expected.push_str("\"term\":{\"cols\":80,\"rows\":24,\"type\":\"xterm-color\"},");
    expected.push_str("\"timestamp\":1000,\"version\":3}\n");
    assert_eq!(cast.content, expected.as_bytes().to_vec());
}

#[test]
fn reconstruct_durations_from_output_events() {
    let src = chunk(
        0,
        &[
            ev_text(1.0, 1, b"a"),
            ev_text(2.0, 0, b"typed"),
            ev_text(4.0, 1, b"b"),
            ev_resize(8.0, 24, 80),
            ev_text(9.0, 1, b"c"),
        ],
    );
    let cast = convert_cast(&src).unwrap();
    assert_eq!(cast.duration_ms, 9000);
    assert_eq!(cast.active_duration_ms, 4000);
    assert!(cast.active_duration_ms <= cast.duration_ms);
}

#[test]
fn reconstruct_no_output_events() {
    let src = chunk(0, &[ev_text(3.0, 0, b"input"), ev_resize(6.0, 10, 10)]);
    let cast = convert_cast(&src).unwrap();
    assert_eq!(cast.duration_ms, 0);
    assert_eq!(cast.active_duration_ms, 0);
}

#[test]
fn reconstruct_header_dominates_geometry() {
    let src = chunk(0, &[ev_resize(1.0, 10, 40), ev_resize(2.0, 50, 100), ev_resize(3.0, 20, 60)]);
    let cast = convert_cast(&src).unwrap();
    assert_eq!(cast.width, 100);
    assert_eq!(cast.height, 50);
}

#[test]
fn reconstruct_normalizes_backward_clock() {
    let src = chunk(0, &[ev_text(5.0, 1, b"a"), ev_text(3.0, 1, b"b")]);
    let cast = convert_cast(&src).unwrap();
    assert_eq!(cast.duration_ms, 5000);
    assert_eq!(cast.active_duration_ms, 5000);
    let text = String::from_utf8(cast.content).unwrap();
    assert!(text.ends_with("[5.000,\"o\",\"a\"]\n[0.000,\"o\",\"b\"]\n"));
}

#[test]
fn reconstruct_escapes_payload() {
    let src = chunk(0, &[ev_text(0.0, 1, b"a\"b\\c\nd\te\x01")]);
    let cast = convert_cast(&src).unwrap();
    let text = String::from_utf8(cast.content).unwrap();
    assert!(text.ends_with("[0.000,\"o\",\"a\\\"b\\\\c\\nd\\te\\u0001\"]\n"));
}

#[test]
fn reconstruct_fractional_elapsed() {
    let src = chunk(0, &[ev_text(0.5, 1, b"x"), ev_text(0.625, 1, b"y")]);
    let cast = convert_cast(&src).unwrap();
    let text = String::from_utf8(cast.content).unwrap();
    assert!(text.ends_with("[0.500,\"o\",\"x\"]\n[0.125,\"o\",\"y\"]\n"));
    assert_eq!(cast.duration_ms, 625);
}

#[test]
fn reconstruct_long_payload_varint() {
    let data: Vec<u8> = std::iter::repeat(b'x').take(200).collect();
    let mut src = chunk(0, &[]);
    src.extend_from_slice(&1.0f32.to_le_bytes());
    src.push(1);
    src.extend_from_slice(&[0xc8, 0x01]);
    src.extend_from_slice(&data);
    let cast = convert_cast(&src).unwrap();
    assert_eq!(cast.event_count, 1);
    assert_eq!(cast.duration_ms, 1000);
    let text = String::from_utf8(cast.content).unwrap();
    assert!(text.contains(&String::from_utf8(data).unwrap()));
}

#[test]
fn reconstruct_saturates_huge_elapsed() {
    let src = chunk(0, &[ev_text(1.0e30, 1, b"x")]);
    let cast = convert_cast(&src).unwrap();
    assert_eq!(cast.duration_ms, u64::MAX);
}

#[test]
fn reconstruct_subnormal_elapsed_floors_to_zero() {
    let tiny = f32::from_bits(1);
    let src = chunk(0, &[ev_text(tiny, 1, b"x")]);
    let cast = convert_cast(&src).unwrap();
    assert_eq!(cast.duration_ms, 0);
}

#[test]
fn reconstruct_exact_half_second() {
    let src = chunk(0, &[ev_text(0.1, 1, b"x")]);
    let cast = convert_cast(&src).unwrap();
    assert_eq!(cast.duration_ms, 100);
}

#[test]
fn reject_truncated_header() {
    let src: Vec<u8> = vec![0; 15];
    assert_eq!(convert_cast(&src).unwrap_err(), CastError::TruncatedHeader);
}

#[test]
fn reject_unknown_kind() {
    let mut src = chunk(0, &[]);
    src.extend_from_slice(&1.0f32.to_le_bytes());
    src.push(3);
    assert_eq!(convert_cast(&src).unwrap_err(), CastError::UnknownKind(3));
}

#[test]
fn reject_overlong_varint() {
    let mut src = chunk(0, &[]);
    src.extend_from_slice(&1.0f32.to_le_bytes());
    src.push(0);
    src.extend_from_slice(&[0x80, 0x80, 0x80, 0x80, 0x80]);
    assert_eq!(convert_cast(&src).unwrap_err(), CastError::BadLength);
}

#[test]
fn reject_invalid_utf8_payload() {
    let mut src = chunk(0, &[]);
    src.extend_from_slice(&1.0f32.to_le_bytes());
    src.push(1);
    src.push(1);
    src.push(0xff);
    assert_eq!(convert_cast(&src).unwrap_err(), CastError::InvalidText);
}

#[test]
fn reject_truncated_payload() {
    let mut src = chunk(0, &[]);
    src.extend_from_slice(&1.0f32.to_le_bytes());
    src.push(1);
    src.push(5);
    src.extend_from_slice(b"ab");
    assert_eq!(convert_cast(&src).unwrap_err(), CastError::TruncatedEvent);
}

#[test]
fn reject_non_finite_elapsed() {
    let mut src = chunk(0, &[]);
    src.extend_from_slice(&f32::NAN.to_le_bytes());
    src.push(1);
    src.push(0);
    assert_eq!(convert_cast(&src).unwrap_err(), CastError::NonFiniteElapsed);
}

#[test]
fn reject_timestamp_past_datetime_range() {
    let src = chunk(300000000000000, &[]);
    assert_eq!(convert_cast(&src).unwrap_err(), CastError::TimestampOutOfRange);
}

#[test]
fn accept_timestamp_at_datetime_range_edge() {
    let src = chunk(253402300799999, &[]);
    let cast = convert_cast(&src).unwrap();
    assert_eq!(cast.started_at, 253402300799);
    let over = chunk(253402300800000, &[]);
    assert_eq!(convert_cast(&over).unwrap_err(), CastError::TimestampOutOfRange);
}

#[test]
fn negative_elapsed_clamps_to_zero() {
    let src = chunk(0, &[ev_text(-1.5, 1, b"x")]);
    let cast = convert_cast(&src).unwrap();
    assert_eq!(cast.duration_ms, 0);
}

#[test]
fn cast_is_short_boundaries() {
    let base = Cast {
        filename: String::from("1"),
        content: Vec::new(),
        started_at: 0,
        duration_ms: 0,
        active_duration_ms: 2999,
        event_count: 9,
        width: 80,
        height: 24,
    };
    assert!(base.is_short());
    let loud = Cast { event_count: 10, ..base };
    assert!(!loud.is_short());
    let long = Cast {
        filename: String::from("1"),
        content: Vec::new(),
        started_at: 0,
        duration_ms: 0,
        active_duration_ms: 3000,
        event_count: 9,
        width: 80,
        height: 24,
    };
    assert!(!long.is_short());
}

#[test]
fn cast_duration_mmss_format() {
    let c = Cast {
        filename: String::from("1"),
        content: Vec::new(),
        started_at: 0,
        duration_ms: 65000,
        active_duration_ms: 0,
        event_count: 0,
        width: 80,
        height: 24,
    };
    assert_eq!(c.duration_mmss(), "1m05s");
    let c2 = Cast { duration_ms: 3599000, ..c };
    assert_eq!(c2.duration_mmss(), "59m59s");
}
