//! The compact binary cast stream: a 16-byte little-endian millisecond origin
//! timestamp, followed by framed events. Each event record is a 4-byte
//! little-endian IEEE-754 single elapsed value and a kind byte; kinds 0 and 1
//! (input, output) carry a varint-length-prefixed UTF-8 payload, kind 2
//! (resize) carries two 16-bit little-endian fields, rows then cols. Any other
//! kind fails the stream, and record boundaries cannot be resynchronized past
//! a framing failure.
//!
//! Elapsed values are held as whole milliseconds. Successive events come from
//! a monotonic clock; each parsed elapsed value is normalized to be no smaller
//! than its predecessor's.

use vstd::arithmetic::power2::{
    lemma2_to64, lemma2_to64_rest, lemma_pow2_adds, lemma_pow2_pos, lemma_pow2_strictly_increases,
    pow2,
};
use vstd::prelude::*;
use vstd::slice::{slice_subrange, slice_to_vec};
use vstd::utf8::valid_utf8;

verus! {

// ---------------------------------------------------------------------------
// Event types
// ---------------------------------------------------------------------------
/// Mathematical form of a parsed cast event.
pub enum SpecEvent {
    Input { elapsed_ms: u64, data: Seq<u8> },
    Output { elapsed_ms: u64, data: Seq<u8> },
    Resize { elapsed_ms: u64, rows: u16, cols: u16 },
}

/// A parsed cast event: terminal input, terminal output, or a resize.
#[derive(Debug)]
pub enum Event {
    Input { elapsed_ms: u64, data: Vec<u8> },
    Output { elapsed_ms: u64, data: Vec<u8> },
    Resize { elapsed_ms: u64, rows: u16, cols: u16 },
}

impl View for Event {
    type V = SpecEvent;

    open spec fn view(&self) -> SpecEvent {
        match self {
            Event::Input { elapsed_ms, data } => SpecEvent::Input {
                elapsed_ms: *elapsed_ms,
                data: data@,
            },
            Event::Output { elapsed_ms, data } => SpecEvent::Output {
                elapsed_ms: *elapsed_ms,
                data: data@,
            },
            Event::Resize { elapsed_ms, rows, cols } => SpecEvent::Resize {
                elapsed_ms: *elapsed_ms,
                rows: *rows,
                cols: *cols,
            },
        }
    }
}

pub open spec fn spec_elapsed(e: SpecEvent) -> u64 {
    match e {
        SpecEvent::Input { elapsed_ms, .. } => elapsed_ms,
        SpecEvent::Output { elapsed_ms, .. } => elapsed_ms,
        SpecEvent::Resize { elapsed_ms, .. } => elapsed_ms,
    }
}

/// Why a binary cast stream is rejected as corrupt.
#[derive(Clone, Copy, PartialEq, Eq, Structural, Debug)]
pub enum CastError {
    /// Fewer than 16 bytes: no usable header.
    TruncatedHeader,
    /// An event record or its payload is cut short.
    TruncatedEvent,
    /// A payload length prefix is not a valid 32-bit varint.
    BadLength,
    /// An event kind outside 0, 1, 2.
    UnknownKind(u8),
    /// An input or output payload that is not valid UTF-8.
    InvalidText,
    /// An elapsed field holding an IEEE-754 infinity or NaN.
    NonFiniteElapsed,
    /// An origin timestamp whose unix seconds the metadata store's datetime
    /// type cannot hold.
    TimestampOutOfRange,
}

// ---------------------------------------------------------------------------
// Little-endian integers
// ---------------------------------------------------------------------------
/// Value of a little-endian byte sequence.
pub open spec fn le_value(b: Seq<u8>) -> int
    decreases b.len(),
{
    if b.len() == 0 {
        0
    } else {
        b[0] + 256 * le_value(b.drop_first())
    }
}

pub open spec fn le_at(b: Seq<u8>, p: int, n: int) -> int {
    le_value(b.subrange(p, p + n))
}

pub proof fn lemma_le_value_bound(b: Seq<u8>)
    ensures
        0 <= le_value(b) < pow2((8 * b.len()) as nat),
    decreases b.len(),
{
    if b.len() == 0 {
        assert(pow2(0) == 1) by {
            lemma2_to64();
        }
    } else {
        lemma_le_value_bound(b.drop_first());
        lemma_pow2_adds(8, (8 * (b.len() - 1)) as nat);
        assert(pow2(8) == 256) by {
            lemma2_to64();
        }
    }
}

proof fn lemma_le2(b: Seq<u8>, p: int)
    requires
        0 <= p,
        p + 2 <= b.len(),
    ensures
        le_at(b, p, 2) == b[p] + 256 * b[p + 1],
{
    let s0 = b.subrange(p, p + 2);
    let s1 = b.subrange(p + 1, p + 2);
    assert(s0.drop_first() =~= s1);
    assert(s1.drop_first() =~= Seq::<u8>::empty());
    assert(le_value(Seq::<u8>::empty()) == 0);
    assert(le_value(s1) == s1[0] + 256 * le_value(s1.drop_first()));
    assert(le_value(s0) == s0[0] + 256 * le_value(s0.drop_first()));
    assert(s0[0] == b[p] && s1[0] == b[p + 1]);
}

proof fn lemma_le4(b: Seq<u8>, p: int)
    requires
        0 <= p,
        p + 4 <= b.len(),
    ensures
        le_at(b, p, 4) == b[p] + 256 * b[p + 1] + 65536 * b[p + 2] + 16777216 * b[p + 3],
        0 <= le_at(b, p, 4) < 0x1_0000_0000,
{
    let s0 = b.subrange(p, p + 4);
    let s1 = b.subrange(p + 1, p + 4);
    let s2 = b.subrange(p + 2, p + 4);
    let s3 = b.subrange(p + 3, p + 4);
    assert(s0.drop_first() =~= s1);
    assert(s1.drop_first() =~= s2);
    assert(s2.drop_first() =~= s3);
    assert(s3.drop_first() =~= Seq::<u8>::empty());
    assert(le_value(Seq::<u8>::empty()) == 0);
    assert(le_value(s3) == s3[0] + 256 * le_value(s3.drop_first()));
    assert(le_value(s2) == s2[0] + 256 * le_value(s2.drop_first()));
    assert(le_value(s1) == s1[0] + 256 * le_value(s1.drop_first()));
    assert(le_value(s0) == s0[0] + 256 * le_value(s0.drop_first()));
    assert(s0[0] == b[p] && s1[0] == b[p + 1] && s2[0] == b[p + 2] && s3[0] == b[p + 3]);
}

/// Read the 16-byte little-endian origin timestamp.
pub fn read_u128_le(b: &Vec<u8>) -> (r: u128)
    requires
        b@.len() >= 16,
    ensures
        r as int == le_at(b@, 0, 16),
{
    let mut val: u128 = 0;
    let mut i: usize = 16;
    while i > 0
        invariant
            i <= 16,
            b@.len() >= 16,
            val as int == le_value(b@.subrange(i as int, 16)),
        decreases i,
    {
        let ghost i0 = i as int;
        i -= 1;
        proof {
            lemma_le_value_bound(b@.subrange(i0, 16));
            lemma_pow2_adds((8 * (16 - i0)) as nat, 8);
            lemma2_to64();
            lemma_pow2_adds(64, 64);
            assert(pow2(128) == 0x1_0000_0000_0000_0000 * 0x1_0000_0000_0000_0000);
            if 8 * (16 - i0) + 8 < 128 {
                lemma_pow2_strictly_increases((8 * (16 - i0) + 8) as nat, 128);
            }
            assert((val as int) * 256 + 255 < pow2((8 * (16 - i0) + 8) as nat));
        }
        val = val * 256 + (b[i] as u128);
        proof {
            assert(b@.subrange(i as int, 16).drop_first() =~= b@.subrange(i0, 16));
            assert(le_value(b@.subrange(i as int, 16)) == b@[i as int] + 256 * le_value(
                b@.subrange(i0, 16),
            ));
        }
    }
    proof {
        assert(le_at(b@, 0, 16) == le_value(b@.subrange(0, 16)));
    }
    val
}

// ---------------------------------------------------------------------------
// Varint length prefixes (unsigned LEB128, at most 5 bytes for 32 bits)
// ---------------------------------------------------------------------------
pub enum VarintOutcome {
    Value { value: int, next: int },
    Truncated,
    TooLong,
}

pub open spec fn varint_rec(b: Seq<u8>, p: int, k: int, acc: int) -> VarintOutcome
    decreases 5 - k,
{
    if !(0 <= k < 5) {
        VarintOutcome::TooLong
    } else if p + k >= b.len() {
        VarintOutcome::Truncated
    } else {
        let byte = b[p + k] as int;
        let acc2 = acc + (byte % 128) * pow2((7 * k) as nat);
        if byte < 128 {
            if acc2 < 0x1_0000_0000 {
                VarintOutcome::Value { value: acc2, next: p + k + 1 }
            } else {
                VarintOutcome::TooLong
            }
        } else {
            varint_rec(b, p, k + 1, acc2)
        }
    }
}

/// The varint starting at byte `p`.
pub open spec fn varint_at(b: Seq<u8>, p: int) -> VarintOutcome {
    varint_rec(b, p, 0, 0)
}

pub proof fn lemma_varint_props(b: Seq<u8>, p: int, k: int, acc: int)
    requires
        0 <= acc,
    ensures
        varint_rec(b, p, k, acc) matches VarintOutcome::Value { value, next } ==> p + k < next
            <= b.len() && 0 <= value < 0x1_0000_0000,
    decreases 5 - k,
{
    if 0 <= k < 5 && p + k < b.len() {
        let byte = b[p + k] as int;
        let acc2 = acc + (byte % 128) * pow2((7 * k) as nat);
        lemma_pow2_pos((7 * k) as nat);
        assert(acc2 >= 0);
        if byte >= 128 {
            lemma_varint_props(b, p, k + 1, acc2);
        }
    }
}

/// Read a varint length prefix.
pub fn read_varint(b: &Vec<u8>, p: usize) -> (r: Result<(u32, usize), CastError>)
    requires
        p <= b@.len(),
    ensures
        r matches Ok(v) ==> varint_at(b@, p as int) == (VarintOutcome::Value {
            value: v.0 as int,
            next: v.1 as int,
        }) && p < v.1 <= b@.len(),
        r matches Err(e) ==> ((e == CastError::TruncatedEvent && varint_at(b@, p as int)
            == VarintOutcome::Truncated) || (e == CastError::BadLength && varint_at(b@, p as int)
            == VarintOutcome::TooLong)),
{
    let mut k: usize = 0;
    let mut acc: u64 = 0;
    let mut mult: u64 = 1;
    proof {
        lemma2_to64();
    }
    while k < 5
        invariant
            k <= 5,
            p <= b@.len(),
            mult == pow2((7 * k) as nat),
            0 <= acc < pow2((7 * k) as nat),
            varint_at(b@, p as int) == varint_rec(b@, p as int, k as int, acc as int),
        decreases 5 - k,
    {
        if b.len() - p <= k {
            return Err(CastError::TruncatedEvent);
        }
        let byte = b[p + k];
        let low: u64 = (byte % 0x80) as u64;
        proof {
            lemma2_to64();
            lemma2_to64_rest();
            if 7 * k < 35 {
                lemma_pow2_strictly_increases((7 * k) as nat, 35);
            }
            vstd::arithmetic::mul::lemma_mul_inequality(low as int, 127, mult as int);
            vstd::arithmetic::mul::lemma_mul_inequality(mult as int, pow2(35) as int, 127);
        }
        let acc2: u64 = acc + low * mult;
        proof {
            lemma_pow2_adds((7 * k) as nat, 7);
            assert(127 * (mult as int) + (acc as int) < 128 * (mult as int));
            assert(128 * (mult as int) == pow2((7 * k + 7) as nat));
            assert(acc2 < pow2((7 * k + 7) as nat));
        }
        if byte < 0x80 {
            if acc2 < 0x1_0000_0000 {
                return Ok((acc2 as u32, p + k + 1));
            } else {
                return Err(CastError::BadLength);
            }
        }
        acc = acc2;
        mult = mult * 128;
        k += 1;
    }
    Err(CastError::BadLength)
}

// ---------------------------------------------------------------------------
// Elapsed values: IEEE-754 single bits to whole milliseconds
// ---------------------------------------------------------------------------
pub open spec fn f32_exp(bits: u32) -> int {
    ((bits as int) / 0x80_0000) % 256
}

pub open spec fn f32_frac(bits: u32) -> int {
    (bits as int) % 0x80_0000
}

pub open spec fn f32_negative(bits: u32) -> bool {
    bits >= 0x8000_0000
}

/// Whole milliseconds denoted by finite IEEE-754 single bits: the significand
/// scaled by 1000 and the binary exponent, floored, clipped to `u64`;
/// negative values give 0.
pub open spec fn f32_millis(bits: u32) -> u64 {
    if f32_negative(bits) {
        0
    } else {
        let e = f32_exp(bits);
        let m: int = if e == 0 {
            f32_frac(bits)
        } else {
            f32_frac(bits) + 0x80_0000
        };
        let eff: int = if e == 0 {
            1
        } else {
            e
        };
        let exact: int = if eff >= 150 {
            m * 1000 * pow2((eff - 150) as nat)
        } else {
            (m * 1000) / pow2((150 - eff) as nat) as int
        };
        if exact > 0xFFFF_FFFF_FFFF_FFFF {
            u64::MAX
        } else {
            exact as u64
        }
    }
}

/// Convert the bits of a little-endian IEEE-754 single elapsed field to whole
/// milliseconds; infinities and NaN are rejected.
pub fn f32_bits_to_ms(bits: u32) -> (r: Option<u64>)
    ensures
        r is Some <==> f32_exp(bits) != 255,
        r matches Some(ms) ==> ms == f32_millis(bits),
{
    let e: u32 = (bits / 0x80_0000) % 256;
    if e == 255 {
        return None;
    }
    if bits >= 0x8000_0000 {
        return Some(0);
    }
    let frac: u32 = bits % 0x80_0000;
    let m: u64 = if e == 0 {
        frac as u64
    } else {
        (frac + 0x80_0000) as u64
    };
    let eff: u32 = if e == 0 {
        1
    } else {
        e
    };
    let scaled: u64 = m * 1000;
    proof {
        lemma2_to64();
        lemma2_to64_rest();
    }
    if eff >= 150 {
        let sh: u32 = eff - 150;
        if sh >= 32 {
            proof {
                if sh > 32 {
                    lemma_pow2_strictly_increases(32, sh as nat);
                }
                let pw: int = pow2(sh as nat) as int;
                let base: int = 0x80_0000int * 1000;
                assert(pw >= 0x1_0000_0000);
                assert(m >= 0x80_0000);
                vstd::arithmetic::mul::lemma_mul_inequality(base, m as int * 1000, pw);
                vstd::arithmetic::mul::lemma_mul_inequality(0x1_0000_0000int, pw, base);
            }
            return Some(u64::MAX);
        }
        let mut factor: u128 = 1;
        let mut j: u32 = 0;
        while j < sh
            invariant
                j <= sh < 32,
                factor == pow2(j as nat),
            decreases sh - j,
        {
            proof {
                lemma2_to64();
                if (j as nat) < 31 {
                    lemma_pow2_strictly_increases(j as nat, 31);
                }
            }
            factor = factor * 2;
            j += 1;
        }
        proof {
            lemma2_to64();
            if (sh as nat) < 32 {
                lemma_pow2_strictly_increases(sh as nat, 32);
            }
            vstd::arithmetic::mul::lemma_mul_upper_bound(
                scaled as int,
                0xFFFF_FFFF_FFFF,
                pow2(sh as nat) as int,
                0x1_0000_0000,
            );
        }
        let prod: u128 = (scaled as u128) * factor;
        if prod > 0xFFFF_FFFF_FFFF_FFFF {
            Some(u64::MAX)
        } else {
            Some(prod as u64)
        }
    } else {
        let sh: u32 = 150 - eff;
        if sh >= 64 {
            proof {
                lemma_pow2_strictly_increases(34, sh as nat);
                assert(scaled < pow2(34));
                vstd::arithmetic::div_mod::lemma_basic_div(
                    scaled as int,
                    pow2(sh as nat) as int,
                );
            }
            return Some(0);
        }
        let mut factor: u64 = 1;
        let mut j: u32 = 0;
        while j < sh
            invariant
                j <= sh < 64,
                factor == pow2(j as nat),
            decreases sh - j,
        {
            proof {
                lemma2_to64();
                if (j as nat) < 63 {
                    lemma_pow2_strictly_increases(j as nat, 63);
                }
                lemma2_to64_rest();
            }
            factor = factor * 2;
            j += 1;
        }
        proof {
            lemma_pow2_pos(sh as nat);
        }
        Some(scaled / factor)
    }
}

// ---------------------------------------------------------------------------
// UTF-8 payload check (trusted boundary)
// ---------------------------------------------------------------------------
/// Relies on `core::str::from_utf8`: succeeds exactly on valid UTF-8.
#[verifier::external_body]
fn utf8_check(v: &[u8]) -> (r: bool)
    ensures
        r == valid_utf8(v@),
{
    core::str::from_utf8(v).is_ok()
}

// ---------------------------------------------------------------------------
// The event stream parser
// ---------------------------------------------------------------------------
pub open spec fn clamp_ms(prev: u64, ms: u64) -> u64 {
    if ms >= prev {
        ms
    } else {
        prev
    }
}

/// Parse the event records of `b` from offset `p` on, `prev` being the
/// normalized elapsed value of the preceding event.
pub open spec fn parse_events(b: Seq<u8>, p: int, prev: u64) -> Result<Seq<SpecEvent>, CastError>
    decreases b.len() - p,
    via parse_events_dec
{
    if p >= b.len() {
        Ok(Seq::empty())
    } else if p + 5 > b.len() {
        Err(CastError::TruncatedEvent)
    } else {
        let bits = le_at(b, p, 4) as u32;
        let kind = b[p + 4];
        if f32_exp(bits) == 255 {
            Err(CastError::NonFiniteElapsed)
        } else {
            let ms = clamp_ms(prev, f32_millis(bits));
            if kind == 0 || kind == 1 {
                match varint_at(b, p + 5) {
                    VarintOutcome::Truncated => Err(CastError::TruncatedEvent),
                    VarintOutcome::TooLong => Err(CastError::BadLength),
                    VarintOutcome::Value { value, next } => {
                        if next + value > b.len() {
                            Err(CastError::TruncatedEvent)
                        } else if !valid_utf8(b.subrange(next, next + value)) {
                            Err(CastError::InvalidText)
                        } else {
                            let data = b.subrange(next, next + value);
                            let ev = if kind == 0 {
                                SpecEvent::Input { elapsed_ms: ms, data }
                            } else {
                                SpecEvent::Output { elapsed_ms: ms, data }
                            };
                            match parse_events(b, next + value, ms) {
                                Ok(rest) => Ok(seq![ev] + rest),
                                Err(e) => Err(e),
                            }
                        }
                    },
                }
            } else if kind == 2 {
                if p + 9 > b.len() {
                    Err(CastError::TruncatedEvent)
                } else {
                    let ev = SpecEvent::Resize {
                        elapsed_ms: ms,
                        rows: le_at(b, p + 5, 2) as u16,
                        cols: le_at(b, p + 7, 2) as u16,
                    };
                    match parse_events(b, p + 9, ms) {
                        Ok(rest) => Ok(seq![ev] + rest),
                        Err(e) => Err(e),
                    }
                }
            } else {
                Err(CastError::UnknownKind(kind))
            }
        }
    }
}

#[via_fn]
proof fn parse_events_dec(b: Seq<u8>, p: int, prev: u64) {
    if p < b.len() && p + 5 <= b.len() {
        lemma_varint_props(b, p + 5, 0, 0);
    }
}

pub open spec fn events_at_least(evs: Seq<SpecEvent>, lo: u64) -> bool {
    forall|i: int| 0 <= i < evs.len() ==> spec_elapsed(#[trigger] evs[i]) >= lo
}

/// Elapsed values are nondecreasing across the event list.
pub open spec fn events_monotone(evs: Seq<SpecEvent>) -> bool {
    forall|i: int, j: int|
        0 <= i <= j < evs.len() ==> spec_elapsed(evs[i]) <= spec_elapsed(evs[j])
}

/// Parsing normalizes elapsed values to a nondecreasing sequence bounded
/// below by `prev`.
pub proof fn lemma_parse_events_monotone(b: Seq<u8>, p: int, prev: u64)
    ensures
        parse_events(b, p, prev) matches Ok(evs) ==> events_monotone(evs) && events_at_least(
            evs,
            prev,
        ),
    decreases b.len() - p,
{
    if p >= b.len() || p + 5 > b.len() {
    } else {
        let bits = le_at(b, p, 4) as u32;
        let kind = b[p + 4];
        if f32_exp(bits) != 255 {
            let ms = clamp_ms(prev, f32_millis(bits));
            if kind == 0 || kind == 1 {
                match varint_at(b, p + 5) {
                    VarintOutcome::Value { value, next } => {
                        lemma_varint_props(b, p + 5, 0, 0);
                        if next + value <= b.len() && valid_utf8(b.subrange(next, next + value)) {
                            lemma_parse_events_monotone(b, next + value, ms);
                            match parse_events(b, next + value, ms) {
                                Ok(rest) => {
                                    let data = b.subrange(next, next + value);
                                    let ev = if kind == 0 {
                                        SpecEvent::Input { elapsed_ms: ms, data }
                                    } else {
                                        SpecEvent::Output { elapsed_ms: ms, data }
                                    };
                                    let whole = seq![ev] + rest;
                                    assert(whole[0] == ev);
                                    assert forall|i: int| 0 <= i < whole.len() implies spec_elapsed(
                                        #[trigger] whole[i],
                                    ) >= prev by {
                                        if i > 0 {
                                            assert(whole[i] == rest[i - 1]);
                                        }
                                    }
                                    assert forall|i: int, j: int|
                                        0 <= i <= j < whole.len() implies spec_elapsed(whole[i])
                                        <= spec_elapsed(whole[j]) by {
                                        if i > 0 {
                                            assert(whole[i] == rest[i - 1]);
                                        }
                                        if j > 0 {
                                            assert(whole[j] == rest[j - 1]);
                                            assert(spec_elapsed(rest[j - 1]) >= ms);
                                        }
                                    }
                                },
                                Err(_) => {},
                            }
                        }
                    },
                    _ => {},
                }
            } else if kind == 2 {
                if p + 9 <= b.len() {
                    lemma_parse_events_monotone(b, p + 9, ms);
                    match parse_events(b, p + 9, ms) {
                        Ok(rest) => {
                            let ev = SpecEvent::Resize {
                                elapsed_ms: ms,
                                rows: le_at(b, p + 5, 2) as u16,
                                cols: le_at(b, p + 7, 2) as u16,
                            };
                            let whole = seq![ev] + rest;
                            assert(whole[0] == ev);
                            assert forall|i: int| 0 <= i < whole.len() implies spec_elapsed(
                                #[trigger] whole[i],
                            ) >= prev by {
                                if i > 0 {
                                    assert(whole[i] == rest[i - 1]);
                                }
                            }
                            assert forall|i: int, j: int|
                                0 <= i <= j < whole.len() implies spec_elapsed(whole[i])
                                <= spec_elapsed(whole[j]) by {
                                if i > 0 {
                                    assert(whole[i] == rest[i - 1]);
                                }
                                if j > 0 {
                                    assert(whole[j] == rest[j - 1]);
                                    assert(spec_elapsed(rest[j - 1]) >= ms);
                                }
                            }
                        },
                        Err(_) => {},
                    }
                }
            }
        }
    }
}

/// Parse every event record of `b` from offset `start` to the end.
pub fn parse_cast_events(b: &Vec<u8>, start: usize) -> (r: Result<Vec<Event>, CastError>)
    requires
        start <= b@.len(),
    ensures
        r matches Ok(evs) ==> parse_events(b@, start as int, 0) == Ok::<_, CastError>(
            evs@.map_values(|e: Event| e@),
        ),
        r matches Err(e) ==> parse_events(b@, start as int, 0) == Err::<Seq<SpecEvent>, _>(e),
{
    let mut out: Vec<Event> = Vec::new();
    let mut p: usize = start;
    let mut prev: u64 = 0;
    proof {
        assert(out@.map_values(|e: Event| e@) =~= Seq::<SpecEvent>::empty());
    }
    while p < b.len()
        invariant
            start <= p <= b@.len(),
            (match parse_events(b@, p as int, prev) {
                Ok(rest) => parse_events(b@, start as int, 0) == Ok::<_, CastError>(
                    out@.map_values(|e: Event| e@) + rest,
                ),
                Err(e) => parse_events(b@, start as int, 0) == Err::<Seq<SpecEvent>, _>(e),
            }),
        decreases b@.len() - p,
    {
        if b.len() - p < 5 {
            return Err(CastError::TruncatedEvent);
        }
        let bits: u32 = (b[p] as u32) + 256 * (b[p + 1] as u32) + 65536 * (b[p + 2] as u32)
            + 16777216 * (b[p + 3] as u32);
        proof {
            lemma_le4(b@, p as int);
        }
        let kind = b[p + 4];
        let ms: u64 = match f32_bits_to_ms(bits) {
            None => {
                return Err(CastError::NonFiniteElapsed);
            },
            Some(v) => {
                if v >= prev {
                    v
                } else {
                    prev
                }
            },
        };
        if kind == 0 || kind == 1 {
            let (len32, next) = match read_varint(b, p + 5) {
                Err(e) => {
                    return Err(e);
                },
                Ok(v) => v,
            };
            if (len32 as usize) > b.len() - next {
                return Err(CastError::TruncatedEvent);
            }
            let end = next + (len32 as usize);
            let data_slice = slice_subrange(b.as_slice(), next, end);
            if !utf8_check(data_slice) {
                return Err(CastError::InvalidText);
            }
            let data = slice_to_vec(data_slice);
            let ev = if kind == 0 {
                Event::Input { elapsed_ms: ms, data }
            } else {
                Event::Output { elapsed_ms: ms, data }
            };
            let ghost old_views = out@.map_values(|e: Event| e@);
            out.push(ev);
            proof {
                assert(out@.map_values(|e: Event| e@) =~= old_views.push(ev@));
                assert(parse_events(b@, p as int, prev) == (match parse_events(
                    b@,
                    end as int,
                    ms,
                ) {
                    Ok(rest) => Ok::<_, CastError>(seq![ev@] + rest),
                    Err(e) => Err(e),
                }));
                match parse_events(b@, end as int, ms) {
                    Ok(rest) => {
                        assert(old_views + (seq![ev@] + rest) =~= old_views.push(ev@) + rest);
                    },
                    Err(_) => {},
                }
            }
            prev = ms;
            p = end;
        } else if kind == 2 {
            if b.len() - p < 9 {
                return Err(CastError::TruncatedEvent);
            }
            let rows: u16 = (b[p + 5] as u16) + 256 * (b[p + 6] as u16);
            let cols: u16 = (b[p + 7] as u16) + 256 * (b[p + 8] as u16);
            proof {
                lemma_le2(b@, p + 5);
                lemma_le2(b@, p + 7);
            }
            let ev = Event::Resize { elapsed_ms: ms, rows, cols };
            let ghost old_views = out@.map_values(|e: Event| e@);
            out.push(ev);
            proof {
                assert(out@.map_values(|e: Event| e@) =~= old_views.push(ev@));
                match parse_events(b@, p + 9, ms) {
                    Ok(rest) => {
                        assert(old_views + (seq![ev@] + rest) =~= old_views.push(ev@) + rest);
                    },
                    Err(_) => {},
                }
            }
            prev = ms;
            p = p + 9;
        } else {
            return Err(CastError::UnknownKind(kind));
        }
    }
    proof {
        assert(parse_events(b@, p as int, prev) == Ok::<Seq<SpecEvent>, CastError>(Seq::empty()));
        assert(out@.map_values(|e: Event| e@) + Seq::<SpecEvent>::empty() =~= out@.map_values(
            |e: Event| e@,
        ));
    }
    Ok(out)
}

} // verus!
