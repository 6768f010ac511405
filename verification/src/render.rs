//! Serialization of a reconstructed recording into the canonical line-oriented
//! form: a compact JSON header object on line one, then one JSON triple
//! `[elapsed, tag, payload]` per event, with tags `o`, `i` and `r` and resize
//! payloads formatted as `{cols}x{rows}`. Elapsed values are rendered as
//! decimal seconds with three fractional digits, each line offset from the
//! previous line.

use crate::events::{spec_elapsed, Event, SpecEvent};
use crate::fmt::{dec_digits, dec_ms, push_dec_ms, push_dec_u128, push_dec_u64};
use vstd::prelude::*;
use vstd::string::StrSliceExecFns;
use vstd::string::StringSliceAdditionalSpecFns;
use vstd::utf8::encode_utf8;

verus! {

// ---------------------------------------------------------------------------
// JSON string escaping of payload bytes
// ---------------------------------------------------------------------------
pub open spec fn hex_digit(n: int) -> u8 {
    if n < 10 {
        (0x30 + n) as u8
    } else {
        (0x57 + n) as u8
    }
}

/// How one payload byte appears inside a JSON string: quote, backslash and
/// control bytes are escaped, everything else passes through.
pub open spec fn escape_byte(b: u8) -> Seq<u8> {
    if b == 0x22 {
        seq![0x5cu8, 0x22u8]
    } else if b == 0x5c {
        seq![0x5cu8, 0x5cu8]
    } else if b == 0x08 {
        seq![0x5cu8, 0x62u8]
    } else if b == 0x09 {
        seq![0x5cu8, 0x74u8]
    } else if b == 0x0a {
        seq![0x5cu8, 0x6eu8]
    } else if b == 0x0c {
        seq![0x5cu8, 0x66u8]
    } else if b == 0x0d {
        seq![0x5cu8, 0x72u8]
    } else if b < 0x20 {
        seq![0x5cu8, 0x75u8, 0x30u8, 0x30u8, hex_digit(b as int / 16), hex_digit(b as int % 16)]
    } else {
        seq![b]
    }
}

pub open spec fn json_escaped(s: Seq<u8>) -> Seq<u8>
    decreases s.len(),
{
    if s.len() == 0 {
        Seq::empty()
    } else {
        escape_byte(s[0]) + json_escaped(s.drop_first())
    }
}

proof fn lemma_json_escaped_snoc(s: Seq<u8>, b: u8)
    ensures
        json_escaped(s.push(b)) == json_escaped(s) + escape_byte(b),
    decreases s.len(),
{
    if s.len() == 0 {
        assert(s.push(b)[0] == b);
        assert(s.push(b).drop_first() =~= Seq::<u8>::empty());
        assert(json_escaped(s.push(b)) == escape_byte(b) + json_escaped(Seq::<u8>::empty()));
        assert(escape_byte(b) + Seq::<u8>::empty() =~= Seq::<u8>::empty() + escape_byte(b));
    } else {
        assert(s.push(b)[0] == s[0]);
        assert(s.push(b).drop_first() =~= s.drop_first().push(b));
        lemma_json_escaped_snoc(s.drop_first(), b);
        assert(escape_byte(s[0]) + (json_escaped(s.drop_first()) + escape_byte(b)) =~= (escape_byte(
            s[0],
        ) + json_escaped(s.drop_first())) + escape_byte(b));
    }
}

fn push_escaped(out: &mut Vec<u8>, data: &Vec<u8>)
    ensures
        final(out)@ == old(out)@ + json_escaped(data@),
{
    let mut i: usize = 0;
    proof {
        assert(old(out)@ + json_escaped(data@.subrange(0, 0)) =~= old(out)@);
    }
    while i < data.len()
        invariant
            i <= data@.len(),
            out@ == old(out)@ + json_escaped(data@.subrange(0, i as int)),
        decreases data@.len() - i,
    {
        let b = data[i];
        if b == 0x22 {
            out.push(0x5c);
            out.push(0x22);
        } else if b == 0x5c {
            out.push(0x5c);
            out.push(0x5c);
        } else if b == 0x08 {
            out.push(0x5c);
            out.push(0x62);
        } else if b == 0x09 {
            out.push(0x5c);
            out.push(0x74);
        } else if b == 0x0a {
            out.push(0x5c);
            out.push(0x6e);
        } else if b == 0x0c {
            out.push(0x5c);
            out.push(0x66);
        } else if b == 0x0d {
            out.push(0x5c);
            out.push(0x72);
        } else if b < 0x20 {
            out.push(0x5c);
            out.push(0x75);
            out.push(0x30);
            out.push(0x30);
            let hi = b / 16;
            let lo = b % 16;
            out.push(if hi < 10 {
                0x30 + hi
            } else {
                0x57 + hi
            });
            out.push(if lo < 10 {
                0x30 + lo
            } else {
                0x57 + lo
            });
        } else {
            out.push(b);
        }
        proof {
            lemma_json_escaped_snoc(data@.subrange(0, i as int), b);
            assert(data@.subrange(0, i + 1) =~= data@.subrange(0, i as int).push(b));
            assert(out@ =~= old(out)@ + json_escaped(data@.subrange(0, i + 1)));
        }
        i += 1;
    }
    proof {
        assert(data@.subrange(0, data@.len() as int) =~= data@);
    }
}

// ---------------------------------------------------------------------------
// Literal text pieces
// ---------------------------------------------------------------------------
fn push_str_bytes(out: &mut Vec<u8>, s: &str)
    ensures
        final(out)@ == old(out)@ + encode_utf8(s@),
{
    let mut bytes = s.as_bytes_vec();
    proof {
        assert(bytes@ == encode_utf8(s@));
    }
    out.append(&mut bytes);
}

// ---------------------------------------------------------------------------
// The canonical document
// ---------------------------------------------------------------------------
/// The corrected header line: compact JSON with keys in fixed order, then a
/// newline.
pub open spec fn header_line(cols: u16, rows: u16, ts: u128) -> Seq<u8> {
    encode_utf8("{\"env\":{\"SHELL\":\"/bin/bash\",\"TERM\":\"xterm-color\"},\"term\":{\"cols\":"@)
        + dec_digits(cols as nat) + encode_utf8(",\"rows\":"@) + dec_digits(rows as nat)
        + encode_utf8(",\"type\":\"xterm-color\"},\"timestamp\":"@) + dec_digits(ts as nat)
        + encode_utf8(",\"version\":3}"@) + seq![0x0au8]
}

/// One serialized event line, its elapsed value delta-encoded against the
/// previous event's elapsed value.
pub open spec fn event_line(e: SpecEvent, prev: u64) -> Seq<u8> {
    let delta: u64 = if spec_elapsed(e) >= prev {
        (spec_elapsed(e) - prev) as u64
    } else {
        0u64
    };
    match e {
        SpecEvent::Output { data, .. } => encode_utf8("["@) + dec_ms(delta as nat) + encode_utf8(
            ",\"o\",\""@,
        ) + json_escaped(data) + encode_utf8("\"]"@) + seq![0x0au8],
        SpecEvent::Input { data, .. } => encode_utf8("["@) + dec_ms(delta as nat) + encode_utf8(
            ",\"i\",\""@,
        ) + json_escaped(data) + encode_utf8("\"]"@) + seq![0x0au8],
        SpecEvent::Resize { rows, cols, .. } => encode_utf8("["@) + dec_ms(delta as nat)
            + encode_utf8(",\"r\",\""@) + dec_digits(cols as nat) + encode_utf8("x"@) + dec_digits(
            rows as nat,
        ) + encode_utf8("\"]"@) + seq![0x0au8],
    }
}

pub open spec fn doc_lines(evs: Seq<SpecEvent>, prev: u64) -> Seq<u8>
    decreases evs.len(),
{
    if evs.len() == 0 {
        Seq::empty()
    } else {
        event_line(evs[0], prev) + doc_lines(evs.drop_first(), spec_elapsed(evs[0]))
    }
}

pub open spec fn last_elapsed(evs: Seq<SpecEvent>, prev: u64) -> u64 {
    if evs.len() == 0 {
        prev
    } else {
        spec_elapsed(evs.last())
    }
}

proof fn lemma_doc_lines_snoc(evs: Seq<SpecEvent>, e: SpecEvent, prev: u64)
    ensures
        doc_lines(evs.push(e), prev) == doc_lines(evs, prev) + event_line(
            e,
            last_elapsed(evs, prev),
        ),
    decreases evs.len(),
{
    if evs.len() == 0 {
        assert(evs.push(e)[0] == e);
        assert(evs.push(e).drop_first() =~= Seq::<SpecEvent>::empty());
        assert(doc_lines(evs.push(e), prev) == event_line(e, prev) + doc_lines(
            Seq::<SpecEvent>::empty(),
            spec_elapsed(e),
        ));
        assert(event_line(e, prev) + Seq::<u8>::empty() =~= Seq::<u8>::empty() + event_line(
            e,
            prev,
        ));
    } else {
        assert(evs.push(e)[0] == evs[0]);
        assert(evs.push(e).drop_first() =~= evs.drop_first().push(e));
        lemma_doc_lines_snoc(evs.drop_first(), e, spec_elapsed(evs[0]));
        assert(last_elapsed(evs.drop_first(), spec_elapsed(evs[0])) == last_elapsed(evs, prev));
        assert(event_line(evs[0], prev) + (doc_lines(evs.drop_first(), spec_elapsed(evs[0]))
            + event_line(e, last_elapsed(evs, prev))) =~= (event_line(evs[0], prev) + doc_lines(
            evs.drop_first(),
            spec_elapsed(evs[0]),
        )) + event_line(e, last_elapsed(evs, prev)));
    }
}

/// The whole canonical document for one recording.
pub open spec fn spec_render_doc(ts: u128, cols: u16, rows: u16, evs: Seq<SpecEvent>) -> Seq<u8> {
    header_line(cols, rows, ts) + doc_lines(evs, 0)
}

fn push_event_line(out: &mut Vec<u8>, e: &Event, prev: u64)
    ensures
        final(out)@ == old(out)@ + event_line(e@, prev),
{
    match e {
        Event::Output { elapsed_ms, data } => {
            let delta: u64 = if *elapsed_ms >= prev {
                *elapsed_ms - prev
            } else {
                0
            };
            push_str_bytes(out, "[");
            push_dec_ms(out, delta);
            push_str_bytes(out, ",\"o\",\"");
            push_escaped(out, data);
            push_str_bytes(out, "\"]");
            out.push(0x0a);
            proof {
                assert(out@ =~= old(out)@ + event_line(e@, prev));
            }
        },
        Event::Input { elapsed_ms, data } => {
            let delta: u64 = if *elapsed_ms >= prev {
                *elapsed_ms - prev
            } else {
                0
            };
            push_str_bytes(out, "[");
            push_dec_ms(out, delta);
            push_str_bytes(out, ",\"i\",\"");
            push_escaped(out, data);
            push_str_bytes(out, "\"]");
            out.push(0x0a);
            proof {
                assert(out@ =~= old(out)@ + event_line(e@, prev));
            }
        },
        Event::Resize { elapsed_ms, rows: ev_rows, cols: ev_cols } => {
            let delta: u64 = if *elapsed_ms >= prev {
                *elapsed_ms - prev
            } else {
                0
            };
            push_str_bytes(out, "[");
            push_dec_ms(out, delta);
            push_str_bytes(out, ",\"r\",\"");
            push_dec_u64(out, *ev_cols as u64);
            push_str_bytes(out, "x");
            push_dec_u64(out, *ev_rows as u64);
            push_str_bytes(out, "\"]");
            out.push(0x0a);
            proof {
                assert(out@ =~= old(out)@ + event_line(e@, prev));
            }
        },
    }
}

/// Serialize the corrected header and the delta-encoded event lines.
pub fn render_doc(ts: u128, cols: u16, rows: u16, events: &Vec<Event>) -> (r: Vec<u8>)
    ensures
        r@ == spec_render_doc(ts, cols, rows, events@.map_values(|e: Event| e@)),
{
    let mut out: Vec<u8> = Vec::new();
    push_str_bytes(
        &mut out,
        "{\"env\":{\"SHELL\":\"/bin/bash\",\"TERM\":\"xterm-color\"},\"term\":{\"cols\":",
    );
    push_dec_u64(&mut out, cols as u64);
    push_str_bytes(&mut out, ",\"rows\":");
    push_dec_u64(&mut out, rows as u64);
    push_str_bytes(&mut out, ",\"type\":\"xterm-color\"},\"timestamp\":");
    push_dec_u128(&mut out, ts);
    push_str_bytes(&mut out, ",\"version\":3}");
    out.push(0x0a);
    proof {
        assert(out@ =~= header_line(cols, rows, ts));
    }
    let ghost all = events@.map_values(|e: Event| e@);
    let mut prev: u64 = 0;
    let mut i: usize = 0;
    proof {
        assert(all.subrange(0, 0) =~= Seq::<SpecEvent>::empty());
        assert(out@ + doc_lines(all.subrange(0, 0), 0) =~= out@);
    }
    let ghost header = out@;
    while i < events.len()
        invariant
            i <= events@.len(),
            all == events@.map_values(|e: Event| e@),
            header == header_line(cols, rows, ts),
            out@ == header + doc_lines(all.subrange(0, i as int), 0),
            prev == last_elapsed(all.subrange(0, i as int), 0),
        decreases events@.len() - i,
    {
        let ghost prefix = all.subrange(0, i as int);
        let e = &events[i];
        proof {
            assert(all[i as int] == e@);
        }
        push_event_line(&mut out, e, prev);
        let elapsed: u64 = match e {
            Event::Output { elapsed_ms, .. } => *elapsed_ms,
            Event::Input { elapsed_ms, .. } => *elapsed_ms,
            Event::Resize { elapsed_ms, .. } => *elapsed_ms,
        };
        proof {
            lemma_doc_lines_snoc(prefix, e@, 0);
            assert(all.subrange(0, i + 1) =~= prefix.push(e@));
            assert(out@ =~= header + doc_lines(all.subrange(0, i + 1), 0));
            assert(elapsed == spec_elapsed(e@));
            assert(last_elapsed(all.subrange(0, i + 1), 0) == spec_elapsed(e@));
        }
        prev = elapsed;
        i += 1;
    }
    proof {
        assert(all.subrange(0, all.len() as int) =~= all);
    }
    out
}

} // verus!
