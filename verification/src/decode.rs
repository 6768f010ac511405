//! Raw log decoding: splitting a stripped upload blob into lines, recognizing
//! heartbeat and cast records, and accumulating cast chunks per recording id.
//!
//! Decoding is best-effort per line: a malformed record is dropped, never
//! fatal. A record is either a heartbeat batch (base64 + zstd compressed
//! 32-bit little-endian unix timestamps, or a plain JSON array of timestamps)
//! or a cast chunk (recording id plus base64 + zstd compressed bytes).

use crate::fmt::{bytes_as_chars, dec_digits, dec_u128_string};
use crate::strip::{strip_spec, strip_timestamps};
use base64::Engine;
use vstd::prelude::*;
use vstd::string::StrSliceExecFns;

verus! {

// ---------------------------------------------------------------------------
// Line splitting
// ---------------------------------------------------------------------------
/// A line terminator strips one trailing carriage return.
pub open spec fn trim_cr(line: Seq<char>) -> Seq<char> {
    if line.len() > 0 && line.last() == '\r' {
        line.drop_last()
    } else {
        line
    }
}

/// The lines of `s` from position `i` on, `cur` being the part of the current
/// line already scanned. A final line without a terminator is kept; a final
/// empty segment after a terminator is not.
pub open spec fn split_acc(s: Seq<char>, i: int, cur: Seq<char>) -> Seq<Seq<char>>
    decreases s.len() - i,
{
    if !(0 <= i < s.len()) {
        if cur.len() == 0 {
            Seq::empty()
        } else {
            seq![cur]
        }
    } else if s[i] == '\n' {
        seq![trim_cr(cur)] + split_acc(s, i + 1, Seq::empty())
    } else {
        split_acc(s, i + 1, cur.push(s[i]))
    }
}

pub open spec fn split_lines(s: Seq<char>) -> Seq<Seq<char>> {
    split_acc(s, 0, Seq::empty())
}

/// Split text into lines, separators being `\n` or `\r\n`.
pub fn split_into_lines(s: &str) -> (r: Vec<String>)
    ensures
        r@.map_values(|l: String| l@) == split_lines(s@),
{
    let n = s.unicode_len();
    let mut out: Vec<String> = Vec::new();
    let mut st: usize = 0;
    let mut i: usize = 0;
    proof {
        assert(out@.map_values(|l: String| l@) =~= Seq::<Seq<char>>::empty());
        assert(s@.subrange(0, 0) =~= Seq::<char>::empty());
        assert(Seq::<Seq<char>>::empty() + split_acc(s@, 0, Seq::<char>::empty()) =~= split_lines(
            s@,
        ));
    }
    while i < n
        invariant
            st <= i <= n,
            n == s@.len(),
            out@.map_values(|l: String| l@) + split_acc(s@, i as int, s@.subrange(st as int, i as int))
                == split_lines(s@),
        decreases n - i,
    {
        let c = s.get_char(i);
        if c == '\n' {
            let ghost cur = s@.subrange(st as int, i as int);
            let end: usize = if i > st && s.get_char(i - 1) == '\r' {
                i - 1
            } else {
                i
            };
            let piece = s.substring_char(st, end);
            proof {
                if i > st && s@[i - 1] == '\r' {
                    assert(piece@ =~= trim_cr(cur));
                } else {
                    assert(piece@ =~= trim_cr(cur));
                }
            }
            let owned = piece.to_owned();
            proof {
                assert((out@.push(owned)).map_values(|l: String| l@) =~= out@.map_values(
                    |l: String| l@,
                ).push(owned@));
                assert(out@.map_values(|l: String| l@).push(trim_cr(cur)) + split_acc(
                    s@,
                    i + 1,
                    Seq::empty(),
                ) =~= out@.map_values(|l: String| l@) + (seq![trim_cr(cur)] + split_acc(
                    s@,
                    i + 1,
                    Seq::empty(),
                )));
            }
            out.push(owned);
            st = i + 1;
            i = i + 1;
            proof {
                assert(s@.subrange(st as int, i as int) =~= Seq::<char>::empty());
            }
        } else {
            proof {
                assert(s@.subrange(st as int, i + 1) =~= s@.subrange(st as int, i as int).push(
                    s@[i as int],
                ));
            }
            i = i + 1;
        }
    }
    if st < n {
        let piece = s.substring_char(st, n);
        let owned = piece.to_owned();
        proof {
            assert((out@.push(owned)).map_values(|l: String| l@) =~= out@.map_values(
                |l: String| l@,
            ).push(owned@));
            assert(out@.map_values(|l: String| l@).push(s@.subrange(st as int, n as int))
                =~= out@.map_values(|l: String| l@) + split_acc(
                s@,
                n as int,
                s@.subrange(st as int, n as int),
            ));
        }
        out.push(owned);
    } else {
        proof {
            assert(s@.subrange(st as int, n as int) =~= Seq::<char>::empty());
            assert(out@.map_values(|l: String| l@) + Seq::<Seq<char>>::empty() =~= out@.map_values(
                |l: String| l@,
            ));
        }
    }
    out
}

/// Character-for-character string equality.
pub fn str_eq_chars(a: &str, b: &str) -> (r: bool)
    ensures
        r == (a@ == b@),
{
    let na = a.unicode_len();
    let nb = b.unicode_len();
    if na != nb {
        return false;
    }
    let mut i: usize = 0;
    while i < na
        invariant
            i <= na,
            na == a@.len(),
            na == b@.len(),
            forall|k: int| 0 <= k < i ==> a@[k] == b@[k],
        decreases na - i,
    {
        if a.get_char(i) != b.get_char(i) {
            return false;
        }
        i += 1;
    }
    proof {
        assert(a@ =~= b@);
    }
    true
}

// ---------------------------------------------------------------------------
// Record shapes and payload decoding (trusted boundary)
// ---------------------------------------------------------------------------
/// What JSON parsing yields for a line of the form `[kind, [id, payload]]`.
pub uninterp spec fn cast_shape_of(line: Seq<char>) -> Option<(Seq<char>, u128, Seq<char>)>;

/// What JSON parsing yields for a line of the form `[kind, payload]` with a
/// text payload.
pub uninterp spec fn text_pair_shape_of(line: Seq<char>) -> Option<(Seq<char>, Seq<char>)>;

/// What JSON parsing yields for a line of the form `[kind, [t, t, ...]]` with
/// integer entries.
pub uninterp spec fn int_list_shape_of(line: Seq<char>) -> Option<(Seq<char>, Seq<i64>)>;

/// What base64 decoding of the text yields, when it is valid base64.
pub uninterp spec fn base64_decoded(text: Seq<char>) -> Option<Seq<u8>>;

/// What zstd decompression of the bytes yields, when they are a valid frame.
pub uninterp spec fn zstd_decoded(bytes: Seq<u8>) -> Option<Seq<u8>>;

/// Relies on `serde_json::from_str::<(String, (u128, String))>`: recognizes
/// exactly the JSON lines holding a pair of a text and an id/text pair.
#[verifier::external_body]
fn parse_cast_line(line: &str) -> (r: Option<(String, u128, String)>)
    ensures
        r is Some <==> cast_shape_of(line@) is Some,
        r matches Some(t) ==> cast_shape_of(line@) matches Some(sh) && t.0@ == sh.0 && t.1 == sh.1
            && t.2@ == sh.2,
{
    match serde_json::from_str::<(String, (u128, String))>(line) {
        Ok((kind, (id, payload))) => Some((kind, id, payload)),
        Err(_) => None,
    }
}

/// Relies on `serde_json::from_str::<(String, String)>`: recognizes exactly
/// the JSON lines holding a pair of two texts.
#[verifier::external_body]
fn parse_text_pair_line(line: &str) -> (r: Option<(String, String)>)
    ensures
        r is Some <==> text_pair_shape_of(line@) is Some,
        r matches Some(t) ==> text_pair_shape_of(line@) matches Some(sh) && t.0@ == sh.0 && t.1@
            == sh.1,
{
    match serde_json::from_str::<(String, String)>(line) {
        Ok((kind, payload)) => Some((kind, payload)),
        Err(_) => None,
    }
}

/// Relies on `serde_json::from_str::<(String, Vec<i64>)>`: recognizes exactly
/// the JSON lines holding a pair of a text and an integer list.
#[verifier::external_body]
fn parse_int_list_line(line: &str) -> (r: Option<(String, Vec<i64>)>)
    ensures
        r is Some <==> int_list_shape_of(line@) is Some,
        r matches Some(t) ==> int_list_shape_of(line@) matches Some(sh) && t.0@ == sh.0 && t.1@
            == sh.1,
{
    match serde_json::from_str::<(String, Vec<i64>)>(line) {
        Ok((kind, times)) => Some((kind, times)),
        Err(_) => None,
    }
}

/// Relies on base64's standard-alphabet padded engine: decodes the text to the
/// bytes it encodes, or fails on invalid base64.
#[verifier::external_body]
fn base64_decode(text: &str) -> (r: Option<Vec<u8>>)
    ensures
        r is Some <==> base64_decoded(text@) is Some,
        r matches Some(v) ==> base64_decoded(text@) matches Some(b) && v@ == b,
{
    base64::engine::general_purpose::STANDARD.decode(text).ok()
}

/// Relies on `zstd::stream::decode_all`: decompresses a complete zstd frame,
/// or fails on corrupt input.
#[verifier::external_body]
fn zstd_decode(bytes: &Vec<u8>) -> (r: Option<Vec<u8>>)
    ensures
        r is Some <==> zstd_decoded(bytes@) is Some,
        r matches Some(v) ==> zstd_decoded(bytes@) matches Some(b) && v@ == b,
{
    zstd::stream::decode_all(bytes.as_slice()).ok()
}

/// base64 decoding followed by zstd decompression.
pub open spec fn decoded_payload(text: Seq<char>) -> Option<Seq<u8>> {
    match base64_decoded(text) {
        Some(compressed) => zstd_decoded(compressed),
        None => None,
    }
}

fn decode_payload(text: &str) -> (r: Option<Vec<u8>>)
    ensures
        r is Some <==> decoded_payload(text@) is Some,
        r matches Some(v) ==> decoded_payload(text@) matches Some(b) && v@ == b,
{
    match base64_decode(text) {
        Some(compressed) => zstd_decode(&compressed),
        None => None,
    }
}

// ---------------------------------------------------------------------------
// Heartbeat payload bytes
// ---------------------------------------------------------------------------
/// The `k`-th 32-bit little-endian value of the byte sequence.
pub open spec fn le_u32_at(b: Seq<u8>, k: int) -> int {
    b[4 * k] + 256 * b[4 * k + 1] + 65536 * b[4 * k + 2] + 16777216 * b[4 * k + 3]
}

/// A compressed heartbeat payload is a fixed-width array of 32-bit
/// little-endian unix timestamps; trailing bytes short of a full value are
/// ignored.
pub open spec fn pulse_times(b: Seq<u8>) -> Seq<i64> {
    Seq::new((b.len() / 4) as nat, |k: int| le_u32_at(b, k) as i64)
}

fn pulse_times_exec(bytes: &Vec<u8>) -> (r: Vec<i64>)
    ensures
        r@ == pulse_times(bytes@),
{
    let n = bytes.len();
    let mut r: Vec<i64> = Vec::new();
    let mut p: usize = 0;
    while n - p >= 4
        invariant
            p <= n,
            n == bytes@.len(),
            4 * r@.len() == p,
            r@ == pulse_times(bytes@).subrange(0, r@.len() as int),
        decreases n - p,
    {
        let b0 = bytes[p] as u32;
        let b1 = bytes[p + 1] as u32;
        let b2 = bytes[p + 2] as u32;
        let b3 = bytes[p + 3] as u32;
        let v: u32 = b0 + 256 * b1 + 65536 * b2 + 16777216 * b3;
        let ghost kk = r@.len() as int;
        r.push(v as i64);
        proof {
            assert(4 * kk == p);
            assert(le_u32_at(bytes@, kk) == b0 + 256 * b1 + 65536 * b2 + 16777216 * b3);
            assert(4 * (kk + 1) <= bytes@.len());
            assert(kk + 1 <= bytes@.len() / 4);
            assert(r@ =~= pulse_times(bytes@).subrange(0, kk + 1));
        }
        p += 4;
    }
    proof {
        assert(4 * r@.len() <= bytes@.len() < 4 * r@.len() + 4);
        assert(r@.len() == bytes@.len() / 4);
        assert(pulse_times(bytes@).subrange(0, (bytes@.len() / 4) as int) =~= pulse_times(bytes@));
    }
    r
}

// ---------------------------------------------------------------------------
// Line classification
// ---------------------------------------------------------------------------
/// A decoded raw record: a heartbeat pulse batch, a cast chunk, or a dropped
/// malformed line.
pub enum LineEvent {
    Heartbeat { times: Seq<i64> },
    Cast { id: u128, bytes: Seq<u8> },
    Skip,
}

/// What one line of the stripped log contributes.
pub open spec fn classify_line(line: Seq<char>) -> LineEvent {
    match cast_shape_of(line) {
        Some(t) => {
            if t.0 == "cast"@ {
                match decoded_payload(t.2) {
                    Some(bytes) => LineEvent::Cast { id: t.1, bytes },
                    None => LineEvent::Skip,
                }
            } else {
                LineEvent::Skip
            }
        },
        None => match text_pair_shape_of(line) {
            Some(p) => {
                if p.0 == "heartbeat"@ {
                    match decoded_payload(p.1) {
                        Some(bytes) => LineEvent::Heartbeat { times: pulse_times(bytes) },
                        None => LineEvent::Skip,
                    }
                } else {
                    LineEvent::Skip
                }
            },
            None => match int_list_shape_of(line) {
                Some(q) => {
                    if q.0 == "heartbeat"@ {
                        LineEvent::Heartbeat { times: q.1 }
                    } else {
                        LineEvent::Skip
                    }
                },
                None => LineEvent::Skip,
            },
        },
    }
}

// ---------------------------------------------------------------------------
// Folding the classified lines into the decoder's two result collections
// ---------------------------------------------------------------------------
/// All heartbeat timestamps, in line order.
pub open spec fn pulses_of(events: Seq<LineEvent>) -> Seq<i64>
    decreases events.len(),
{
    if events.len() == 0 {
        Seq::empty()
    } else {
        (match events[0] {
            LineEvent::Heartbeat { times } => times,
            _ => Seq::empty(),
        }) + pulses_of(events.drop_first())
    }
}

/// First index holding `id`, or -1.
pub open spec fn find_key(acc: Seq<(u128, Seq<u8>)>, id: u128) -> int
    decreases acc.len(),
{
    if acc.len() == 0 {
        -1
    } else if acc[0].0 == id {
        0
    } else {
        let r = find_key(acc.drop_first(), id);
        if r < 0 {
            -1
        } else {
            1 + r
        }
    }
}

/// Chunk accumulation: append on first sight, then append in record order.
pub open spec fn add_chunk(acc: Seq<(u128, Seq<u8>)>, id: u128, bytes: Seq<u8>) -> Seq<
    (u128, Seq<u8>),
> {
    let j = find_key(acc, id);
    if j < 0 {
        acc.push((id, bytes))
    } else {
        acc.update(j, (id, acc[j].1 + bytes))
    }
}

pub open spec fn chunks_acc(events: Seq<LineEvent>, acc: Seq<(u128, Seq<u8>)>) -> Seq<
    (u128, Seq<u8>),
>
    decreases events.len(),
{
    if events.len() == 0 {
        acc
    } else {
        chunks_acc(
            events.drop_first(),
            match events[0] {
                LineEvent::Cast { id, bytes } => add_chunk(acc, id, bytes),
                _ => acc,
            },
        )
    }
}

/// All cast chunks accumulated by recording id, in first-seen order.
pub open spec fn chunks_of(events: Seq<LineEvent>) -> Seq<(u128, Seq<u8>)> {
    chunks_acc(events, Seq::empty())
}

proof fn lemma_pulses_snoc(s: Seq<LineEvent>, e: LineEvent)
    ensures
        pulses_of(s.push(e)) == pulses_of(s) + (match e {
            LineEvent::Heartbeat { times } => times,
            _ => Seq::<i64>::empty(),
        }),
    decreases s.len(),
{
    let tail = (match e {
        LineEvent::Heartbeat { times } => times,
        _ => Seq::<i64>::empty(),
    });
    if s.len() == 0 {
        assert(s.push(e)[0] == e);
        assert(s.push(e).drop_first() =~= Seq::<LineEvent>::empty());
        assert(pulses_of(s.push(e)) == tail + pulses_of(Seq::<LineEvent>::empty()));
        assert(pulses_of(s) == Seq::<i64>::empty());
        assert(tail + Seq::<i64>::empty() =~= Seq::<i64>::empty() + tail);
        assert(pulses_of(s.push(e)) =~= pulses_of(s) + tail);
    } else {
        assert(s.push(e)[0] == s[0]);
        assert(s.push(e).drop_first() =~= s.drop_first().push(e));
        lemma_pulses_snoc(s.drop_first(), e);
        let head = (match s[0] {
            LineEvent::Heartbeat { times } => times,
            _ => Seq::<i64>::empty(),
        });
        assert(pulses_of(s.push(e)) == head + (pulses_of(s.drop_first()) + tail));
        assert(head + (pulses_of(s.drop_first()) + tail) =~= (head + pulses_of(s.drop_first()))
            + tail);
    }
}

proof fn lemma_chunks_snoc(s: Seq<LineEvent>, e: LineEvent, acc: Seq<(u128, Seq<u8>)>)
    ensures
        chunks_acc(s.push(e), acc) == (match e {
            LineEvent::Cast { id, bytes } => add_chunk(chunks_acc(s, acc), id, bytes),
            _ => chunks_acc(s, acc),
        }),
    decreases s.len(),
{
    if s.len() == 0 {
        assert(s.push(e)[0] == e);
        assert(s.push(e).drop_first() =~= Seq::<LineEvent>::empty());
        assert(chunks_acc(s, acc) == acc);
        match e {
            LineEvent::Cast { id, bytes } => {
                assert(chunks_acc(s.push(e), acc) == chunks_acc(
                    s.push(e).drop_first(),
                    add_chunk(acc, id, bytes),
                ));
                assert(chunks_acc(Seq::<LineEvent>::empty(), add_chunk(acc, id, bytes))
                    == add_chunk(acc, id, bytes));
            },
            _ => {
                assert(chunks_acc(s.push(e), acc) == chunks_acc(s.push(e).drop_first(), acc));
                assert(chunks_acc(Seq::<LineEvent>::empty(), acc) == acc);
            },
        }
    } else {
        assert(s.push(e)[0] == s[0]);
        assert(s.push(e).drop_first() =~= s.drop_first().push(e));
        let acc2 = (match s[0] {
            LineEvent::Cast { id, bytes } => add_chunk(acc, id, bytes),
            _ => acc,
        });
        assert(chunks_acc(s, acc) == chunks_acc(s.drop_first(), acc2));
        assert(chunks_acc(s.push(e), acc) == chunks_acc(s.drop_first().push(e), acc2));
        lemma_chunks_snoc(s.drop_first(), e, acc2);
    }
}

proof fn lemma_find_key_first(acc: Seq<(u128, Seq<u8>)>, id: u128, j: int)
    requires
        0 <= j < acc.len(),
        acc[j].0 == id,
        forall|k: int| 0 <= k < j ==> acc[k].0 != id,
    ensures
        find_key(acc, id) == j,
    decreases acc.len(),
{
    if j > 0 {
        assert(acc[0].0 != id);
        assert(acc.drop_first()[j - 1] == acc[j]);
        assert forall|k: int| 0 <= k < j - 1 implies acc.drop_first()[k].0 != id by {
            assert(acc.drop_first()[k] == acc[k + 1]);
        }
        lemma_find_key_first(acc.drop_first(), id, j - 1);
    }
}

proof fn lemma_find_key_none(acc: Seq<(u128, Seq<u8>)>, id: u128)
    requires
        forall|k: int| 0 <= k < acc.len() ==> acc[k].0 != id,
    ensures
        find_key(acc, id) == -1,
    decreases acc.len(),
{
    if acc.len() > 0 {
        assert forall|k: int| 0 <= k < acc.drop_first().len() implies acc.drop_first()[k].0
            != id by {
            assert(acc.drop_first()[k] == acc[k + 1]);
        }
        lemma_find_key_none(acc.drop_first(), id);
    }
}

pub open spec fn chunk_views(acc: Seq<(u128, Vec<u8>)>) -> Seq<(u128, Seq<u8>)> {
    acc.map_values(|p: (u128, Vec<u8>)| (p.0, p.1@))
}

fn add_chunk_exec(acc: &mut Vec<(u128, Vec<u8>)>, id: u128, bytes: Vec<u8>)
    ensures
        chunk_views(final(acc)@) == add_chunk(chunk_views(old(acc)@), id, bytes@),
{
    let mut j: usize = 0;
    while j < acc.len()
        invariant
            j <= acc@.len(),
            acc@ == old(acc)@,
            forall|k: int| 0 <= k < j ==> acc@[k].0 != id,
        decreases acc@.len() - j,
    {
        if acc[j].0 == id {
            let ghost before = chunk_views(acc@);
            proof {
                assert forall|k: int| 0 <= k < j implies before[k].0 != id by {}
                lemma_find_key_first(before, id, j as int);
            }
            let elem = &mut acc[j];
            elem.1.extend_from_slice(bytes.as_slice());
            proof {
                let after = chunk_views(acc@);
                assert(find_key(before, id) == j);
                assert(acc@[j as int].0 == id);
                assert(acc@[j as int].1@ == old(acc)@[j as int].1@ + bytes@);
                assert forall|m: int| 0 <= m < after.len() implies after[m] == add_chunk(
                    before,
                    id,
                    bytes@,
                )[m] by {
                    if m != j {
                        assert(acc@[m] == old(acc)@[m]);
                    }
                }
                assert(after =~= add_chunk(before, id, bytes@));
            }
            return;
        }
        j += 1;
    }
    proof {
        assert forall|k: int| 0 <= k < chunk_views(acc@).len() implies chunk_views(acc@)[k].0
            != id by {}
        lemma_find_key_none(chunk_views(acc@), id);
    }
    acc.push((id, bytes));
    proof {
        assert(chunk_views(acc@) =~= add_chunk(chunk_views(old(acc)@), id, bytes@));
    }
}

// ---------------------------------------------------------------------------
// The decoder
// ---------------------------------------------------------------------------
/// A raw cast fragment group: the recording id rendered in decimal, and the
/// concatenated chunk bytes.
#[derive(Debug)]
pub struct CastRaw {
    pub filename: String,
    pub content: Vec<u8>,
}

pub open spec fn line_views(lines: Seq<Seq<char>>) -> Seq<LineEvent> {
    lines.map_values(|l: Seq<char>| classify_line(l))
}

/// The decoder's result on a whole upload blob: heartbeat pulses in line
/// order, and cast chunks accumulated per recording id in first-seen order.
pub open spec fn spec_parse_log(input: Seq<char>) -> (Seq<i64>, Seq<(u128, Seq<u8>)>) {
    let events = line_views(split_lines(strip_spec(input)));
    (pulses_of(events), chunks_of(events))
}

/// Decode a raw upload blob into heartbeat pulses and raw cast chunk groups.
/// Malformed lines are dropped; content-level problems never produce an error.
pub fn parse_log(buf: &str) -> (r: (Vec<i64>, Vec<CastRaw>))
    ensures
        r.0@ == spec_parse_log(buf@).0,
        r.1@.len() == spec_parse_log(buf@).1.len(),
        forall|k: int|
            0 <= k < r.1@.len() ==> (#[trigger] r.1@[k]).content@ == spec_parse_log(buf@).1[k].1
                && r.1@[k].filename@ == bytes_as_chars(
                dec_digits(spec_parse_log(buf@).1[k].0 as nat),
            ),
{
    let stripped = strip_timestamps(buf);
    let lines = split_into_lines(stripped.as_str());
    let ghost all_lines = lines@.map_values(|l: String| l@);
    let ghost all_events = line_views(all_lines);
    let mut pulses: Vec<i64> = Vec::new();
    let mut acc: Vec<(u128, Vec<u8>)> = Vec::new();
    let mut i: usize = 0;
    while i < lines.len()
        invariant
            i <= lines@.len(),
            all_lines == lines@.map_values(|l: String| l@),
            all_events == line_views(all_lines),
            pulses@ == pulses_of(line_views(all_lines.subrange(0, i as int))),
            chunk_views(acc@) == chunks_acc(
                line_views(all_lines.subrange(0, i as int)),
                Seq::empty(),
            ),
        decreases lines@.len() - i,
    {
        let line: &String = &lines[i];
        let ghost lv = all_lines[i as int];
        let ghost prefix = line_views(all_lines.subrange(0, i as int));
        let ghost ev = classify_line(lv);
        proof {
            assert(lv == line@);
            assert(line_views(all_lines.subrange(0, i + 1)) =~= prefix.push(ev));
            lemma_pulses_snoc(prefix, ev);
            lemma_chunks_snoc(prefix, ev, Seq::empty());
        }
        match parse_cast_line(line.as_str()) {
            Some((kind, id, payload)) => {
                if str_eq_chars(kind.as_str(), "cast") {
                    match decode_payload(payload.as_str()) {
                        Some(bytes) => {
                            add_chunk_exec(&mut acc, id, bytes);
                        },
                        None => {},
                    }
                }
            },
            None => {
                match parse_text_pair_line(line.as_str()) {
                    Some((kind, payload)) => {
                        if str_eq_chars(kind.as_str(), "heartbeat") {
                            match decode_payload(payload.as_str()) {
                                Some(bytes) => {
                                    let mut times = pulse_times_exec(&bytes);
                                    pulses.append(&mut times);
                                },
                                None => {},
                            }
                        }
                    },
                    None => {
                        match parse_int_list_line(line.as_str()) {
                            Some((kind, mut times)) => {
                                if str_eq_chars(kind.as_str(), "heartbeat") {
                                    pulses.append(&mut times);
                                }
                            },
                            None => {},
                        }
                    },
                }
            },
        }
        proof {
            assert(pulses@ =~= pulses_of(prefix.push(ev)));
            assert(chunk_views(acc@) =~= chunks_acc(prefix.push(ev), Seq::empty()));
        }
        i += 1;
    }
    proof {
        assert(all_lines.subrange(0, all_lines.len() as int) =~= all_lines);
    }
    let mut casts: Vec<CastRaw> = Vec::new();
    let mut k: usize = 0;
    let ghost chunks = chunk_views(acc@);
    while k < acc.len()
        invariant
            k <= acc@.len(),
            chunks == chunk_views(acc@),
            casts@.len() == k,
            forall|m: int|
                0 <= m < k ==> (#[trigger] casts@[m]).content@ == chunks[m].1
                    && casts@[m].filename@ == bytes_as_chars(dec_digits(chunks[m].0 as nat)),
        decreases acc@.len() - k,
    {
        let id = acc[k].0;
        let content = acc[k].1.clone();
        proof {
            assert(content@ == chunks[k as int].1);
        }
        let filename = dec_u128_string(id);
        casts.push(CastRaw { filename, content });
        k += 1;
    }
    (pulses, casts)
}

} // verus!
