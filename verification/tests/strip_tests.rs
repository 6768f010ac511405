use castlog::strip::strip_timestamps;

#[test]
fn strips_leading_timestamp() {
    let s = "2024-01-02T03:04:05Z hello";
    assert_eq!(strip_timestamps(s), "hello");
}

#[test]
fn strips_fractional_timestamp() {
    let s = "2024-01-02T03:04:05.123Z x";
    assert_eq!(strip_timestamps(s), "x");
}

#[test]
fn strips_every_occurrence() {
    let s = "2024-01-02T03:04:05Z a\n2024-01-02T03:04:06Z b";
    assert_eq!(strip_timestamps(s), "a\nb");
}

#[test]
fn strips_mid_text_token() {
    let s = "pre 2024-01-02T03:04:05Z post";
    assert_eq!(strip_timestamps(s), "pre post");
}

#[test]
fn keeps_token_without_trailing_space() {
    let s = "2024-01-02T03:04:05Zx";
    assert_eq!(strip_timestamps(s), s);
}

#[test]
fn keeps_fraction_without_z() {
    let s = "2024-01-02T03:04:05.123 x";
    assert_eq!(strip_timestamps(s), s);
}

#[test]
fn keeps_plain_text() {
    assert_eq!(strip_timestamps("no timestamps here"), "no timestamps here");
    assert_eq!(strip_timestamps(""), "");
}

#[test]
fn strips_long_fraction() {
    let s = "2024-12-31T23:59:59.000000001Z end";
    assert_eq!(strip_timestamps(s), "end");
}
