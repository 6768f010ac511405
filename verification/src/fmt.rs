//! Decimal rendering of the integers that appear in canonical recording
//! documents and heartbeat logs, and conversion of ASCII byte output into
//! `String` values.

use vstd::prelude::*;
use vstd::utf8::*;

verus! {

/// Decimal digits of `n`, most significant first, as ASCII bytes.
pub open spec fn dec_digits(n: nat) -> Seq<u8>
    decreases n,
{
    if n < 10 {
        seq![(0x30 + n) as u8]
    } else {
        dec_digits((n / 10) as nat).push((0x30 + n % 10) as u8)
    }
}

/// `n` rendered with a possible leading minus sign.
pub open spec fn dec_signed(n: int) -> Seq<u8> {
    if n >= 0 {
        dec_digits(n as nat)
    } else {
        seq![0x2du8] + dec_digits((-n) as nat)
    }
}

/// A count of milliseconds rendered as decimal seconds with exactly three
/// fractional digits.
pub open spec fn dec_ms(ms: nat) -> Seq<u8> {
    dec_digits(ms / 1000) + seq![0x2eu8] + seq![
        (0x30 + (ms % 1000) / 100) as u8,
        (0x30 + (ms % 100) / 10) as u8,
        (0x30 + ms % 10) as u8,
    ]
}

pub open spec fn ascii_seq(bytes: Seq<u8>) -> bool {
    forall|i: int| 0 <= i < bytes.len() ==> bytes[i] < 0x80
}

pub open spec fn bytes_as_chars(bytes: Seq<u8>) -> Seq<char> {
    bytes.map_values(|b: u8| b as char)
}

pub proof fn lemma_dec_digits_ascii(n: nat)
    ensures
        ascii_seq(dec_digits(n)),
        dec_digits(n).len() >= 1,
        forall|i: int|
            0 <= i < dec_digits(n).len() ==> 0x30 <= #[trigger] dec_digits(n)[i] <= 0x39,
    decreases n,
{
    if n >= 10 {
        lemma_dec_digits_ascii((n / 10) as nat);
        assert forall|i: int| 0 <= i < dec_digits(n).len() implies 0x30 <= #[trigger] dec_digits(
            n,
        )[i] <= 0x39 by {
            if i < dec_digits(n).len() - 1 {
                assert(dec_digits(n)[i] == dec_digits((n / 10) as nat)[i]);
            }
        }
    }
}

/// A sequence of ASCII bytes is valid UTF-8 and decodes to the same characters.
pub proof fn lemma_ascii_bytes_utf8(bytes: Seq<u8>)
    requires
        ascii_seq(bytes),
    ensures
        valid_utf8(bytes),
        decode_utf8(bytes) == bytes_as_chars(bytes),
        is_ascii_chars(bytes_as_chars(bytes)),
{
    let chars = bytes_as_chars(bytes);
    assert forall|i| 0 <= i < chars.len() implies '\0' <= #[trigger] chars[i] <= '\u{7f}' by {
        assert(chars[i] == bytes[i] as char);
        assert(bytes[i] < 0x80);
    }
    is_ascii_chars_encode_utf8(chars);
    assert forall|i: int| 0 <= i < chars.len() implies encode_utf8(chars)[i] == bytes[i] by {
        assert(chars[i] as u8 == encode_utf8(chars)[i]);
        assert(bytes[i] as char as u8 == bytes[i]);
    }
    assert(encode_utf8(chars) =~= bytes);
    encode_utf8_valid_utf8(chars);
    encode_utf8_decode_utf8(chars);
}

/// Relies on `String::from_utf8`: returns the string made of the given bytes
/// exactly when they are valid UTF-8, and an error otherwise.
#[verifier::external_body]
fn string_from_utf8(v: Vec<u8>) -> (r: Option<String>)
    ensures
        r is Some <==> valid_utf8(v@),
        r matches Some(s) ==> s@ == decode_utf8(v@),
{
    match String::from_utf8(v) {
        Ok(s) => Some(s),
        Err(_) => None,
    }
}

/// Turn a buffer of ASCII bytes into the string of the same characters.
pub fn ascii_to_string(v: Vec<u8>) -> (r: String)
    requires
        ascii_seq(v@),
    ensures
        r@ == bytes_as_chars(v@),
{
    proof {
        lemma_ascii_bytes_utf8(v@);
    }
    match string_from_utf8(v) {
        Some(s) => s,
        None => {
            proof {
                assert(false);
            }
            String::new()
        },
    }
}

/// Append the decimal rendering of `n` to `out`.
pub fn push_dec_u64(out: &mut Vec<u8>, n: u64)
    ensures
        final(out)@ == old(out)@ + dec_digits(n as nat),
    decreases n,
{
    if n < 10 {
        out.push(0x30 + (n as u8));
        proof {
            assert(old(out)@.push((0x30 + (n as nat)) as u8) =~= old(out)@ + dec_digits(n as nat));
        }
    } else {
        push_dec_u64(out, n / 10);
        out.push(0x30 + ((n % 10) as u8));
        proof {
            assert((old(out)@ + dec_digits((n / 10) as nat)).push((0x30 + (n as nat) % 10) as u8)
                =~= old(out)@ + dec_digits(n as nat));
        }
    }
}

/// Append the decimal rendering of `n` to `out`.
pub fn push_dec_u128(out: &mut Vec<u8>, n: u128)
    ensures
        final(out)@ == old(out)@ + dec_digits(n as nat),
    decreases n,
{
    if n < 10 {
        out.push(0x30 + (n as u8));
        proof {
            assert(old(out)@.push((0x30 + (n as nat)) as u8) =~= old(out)@ + dec_digits(n as nat));
        }
    } else {
        push_dec_u128(out, n / 10);
        out.push(0x30 + ((n % 10) as u8));
        proof {
            assert((old(out)@ + dec_digits((n / 10) as nat)).push((0x30 + (n as nat) % 10) as u8)
                =~= old(out)@ + dec_digits(n as nat));
        }
    }
}

/// Append the decimal rendering of `n`, signed, to `out`.
pub fn push_dec_i64(out: &mut Vec<u8>, n: i64)
    ensures
        final(out)@ == old(out)@ + dec_signed(n as int),
{
    if n >= 0 {
        push_dec_u64(out, n as u64);
    } else {
        out.push(0x2d);
        let magnitude: u64 = (-(n as i128)) as u64;
        push_dec_u64(out, magnitude);
        proof {
            assert(old(out)@.push(0x2du8) + dec_digits(magnitude as nat) =~= old(out)@
                + dec_signed(n as int));
        }
    }
}

/// Append `ms` milliseconds rendered as decimal seconds with three fractional
/// digits.
pub fn push_dec_ms(out: &mut Vec<u8>, ms: u64)
    ensures
        final(out)@ == old(out)@ + dec_ms(ms as nat),
{
    push_dec_u64(out, ms / 1000);
    out.push(0x2e);
    let r = ms % 1000;
    out.push(0x30 + ((r / 100) as u8));
    out.push(0x30 + (((ms % 100) / 10) as u8));
    out.push(0x30 + ((ms % 10) as u8));
    proof {
        assert(old(out)@ + dec_digits((ms / 1000) as nat) + seq![0x2eu8] + seq![
            (0x30 + ((ms as nat) % 1000) / 100) as u8,
            (0x30 + ((ms as nat) % 100) / 10) as u8,
            (0x30 + (ms as nat) % 10) as u8,
        ] =~= old(out)@ + dec_ms(ms as nat));
        assert(final(out)@ =~= old(out)@ + dec_ms(ms as nat));
    }
}

/// The decimal rendering of `n` as a `String`.
pub fn dec_u128_string(n: u128) -> (r: String)
    ensures
        r@ == bytes_as_chars(dec_digits(n as nat)),
{
    let mut buf: Vec<u8> = Vec::new();
    push_dec_u128(&mut buf, n);
    proof {
        assert(buf@ =~= dec_digits(n as nat));
        lemma_dec_digits_ascii(n as nat);
    }
    ascii_to_string(buf)
}

} // verus!
