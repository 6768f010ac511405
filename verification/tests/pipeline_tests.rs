use castlog::decode::CastRaw;
use castlog::events::CastError;
use castlog::interval::Interval;
use castlog::pipeline::{process, ProcessError};

fn tiny_chunk(ts_ms: u128, output_at: f32, data: &[u8]) -> Vec<u8> {
    let mut out: Vec<u8> = Vec::new();
    out.extend_from_slice(&ts_ms.to_le_bytes());
    out.extend_from_slice(&output_at.to_le_bytes());
    out.push(1);
    out.push(data.len() as u8);
    out.extend_from_slice(data);
    out
}

#[test]
fn process_merges_unsorted_pulses() {
    let pulses = vec![40i64, 0, 9, 5];
    let raws: Vec<CastRaw> = vec![];
    let (itvs, casts) = process(&pulses, &raws).unwrap();
    assert_eq!(itvs, vec![Interval { start: 0, end: 9 }, Interval { start: 40, end: 40 }]);
    assert!(casts.is_empty());
}

#[test]
fn process_converts_each_recording() {
    let raws = vec![
        CastRaw { filename: String::from("7"), content: tiny_chunk(5000, 1.0, b"a") },
        CastRaw { filename: String::from("9"), content: tiny_chunk(8000, 2.5, b"b") },
    ];
    let (_, casts) = process(&vec![], &raws).unwrap();
    assert_eq!(casts.len(), 2);
    assert_eq!(casts[0].filename, "7");
    assert_eq!(casts[0].started_at, 5);
    assert_eq!(casts[0].duration_ms, 1000);
    assert_eq!(casts[1].filename, "9");
    assert_eq!(casts[1].duration_ms, 2500);
    assert_eq!(casts[1].event_count, 1);
}

#[test]
fn process_rejects_corrupt_recording() {
    let raws = vec![
        CastRaw { filename: String::from("7"), content: tiny_chunk(0, 1.0, b"a") },
        CastRaw { filename: String::from("9"), content: vec![1, 2, 3] },
    ];
    let r = process(&vec![], &raws);
    assert_eq!(r.unwrap_err(), ProcessError::Recording(CastError::TruncatedHeader));
}

#[test]
fn process_strips_directory_prefixes() {
    let raws = vec![
        CastRaw { filename: String::from("logs/2024/7"), content: tiny_chunk(0, 1.0, b"a") },
        CastRaw { filename: String::from("a/b/"), content: tiny_chunk(0, 1.0, b"a") },
        CastRaw { filename: String::from("a//c"), content: tiny_chunk(0, 1.0, b"a") },
        CastRaw { filename: String::from("./x"), content: tiny_chunk(0, 1.0, b"a") },
        CastRaw { filename: String::from("d/."), content: tiny_chunk(0, 1.0, b"a") },
    ];
    let (_, casts) = process(&vec![], &raws).unwrap();
    assert_eq!(casts[0].filename, "7");
    assert_eq!(casts[1].filename, "b");
    assert_eq!(casts[2].filename, "c");
    assert_eq!(casts[3].filename, "x");
    assert_eq!(casts[4].filename, "d");
}

#[test]
fn process_rejects_filename_without_component() {
    for bad in ["", "/", ".", "..", "a/..", ".//."] {
        let raws = vec![CastRaw { filename: String::from(bad), content: tiny_chunk(0, 1.0, b"a") }];
        let r = process(&vec![], &raws);
        assert_eq!(r.unwrap_err(), ProcessError::InvalidFilename, "filename {bad:?}");
    }
}

#[test]
fn process_checks_filename_before_content() {
    let raws = vec![CastRaw { filename: String::new(), content: vec![1, 2, 3] }];
    let r = process(&vec![], &raws);
    assert_eq!(r.unwrap_err(), ProcessError::InvalidFilename);
}
