//! The ingestion pipeline: heartbeat pulses are sorted and merged into
//! coverage intervals under the fixed ingest gap threshold, and each
//! recording's accumulated chunks are reconstructed into a canonical cast.
//! A corrupt recording aborts the upload with the first failure found.

use crate::cast::{convert_cast, spec_convert_cast, CastPartial};
use crate::decode::CastRaw;
use crate::events::CastError;
use crate::filename::{file_name, file_name_of};
use crate::fmt::{ascii_to_string, bytes_as_chars, dec_digits, lemma_dec_digits_ascii, push_dec_u64};
use crate::interval::{
    merge_points, points_to_intervals, sorted_points, spec_merge, Interval,
};
use vstd::prelude::*;

verus! {

/// Gap threshold, in seconds, used when merging raw pulses at ingestion.
pub const INGEST_GAP_SECONDS: i64 = 10;

/// A finalized recording ready for commit.
#[derive(Debug)]
pub struct Cast {
    pub filename: String,
    pub content: Vec<u8>,
    pub started_at: i64,
    pub duration_ms: u64,
    pub active_duration_ms: u64,
    pub event_count: u32,
    pub width: u16,
    pub height: u16,
}

/// The `{minutes}m{seconds:02}s` rendering of a whole-second duration.
pub open spec fn mmss_chars(duration_ms: u64) -> Seq<char> {
    let s = (duration_ms as nat) / 1000;
    bytes_as_chars(
        dec_digits(s / 60) + seq![
            0x6du8,
            (0x30 + (s % 60) / 10) as u8,
            (0x30 + (s % 60) % 10) as u8,
            0x73u8,
        ],
    )
}

impl Cast {
    /// A recording too brief and too quiet to feature in listings.
    pub fn is_short(&self) -> (r: bool)
        ensures
            r == (self.active_duration_ms < 3000 && self.event_count < 10),
    {
        self.active_duration_ms < 3000 && self.event_count < 10
    }

    /// The recording's duration as minutes and zero-padded seconds.
    pub fn duration_mmss(&self) -> (r: String)
        ensures
            r@ == mmss_chars(self.duration_ms),
    {
        let s = self.duration_ms / 1000;
        let mut buf: Vec<u8> = Vec::new();
        push_dec_u64(&mut buf, s / 60);
        buf.push(0x6d);
        buf.push(0x30 + ((s % 60) / 10) as u8);
        buf.push(0x30 + ((s % 60) % 10) as u8);
        buf.push(0x73);
        proof {
            lemma_dec_digits_ascii((s / 60) as nat);
            assert(buf@ =~= dec_digits(((self.duration_ms as nat) / 1000) / 60) + seq![
                0x6du8,
                (0x30 + (((self.duration_ms as nat) / 1000) % 60) / 10) as u8,
                (0x30 + (((self.duration_ms as nat) / 1000) % 60) % 10) as u8,
                0x73u8,
            ]);
        }
        ascii_to_string(buf)
    }
}

// ---------------------------------------------------------------------------
// Sorting raw pulses
// ---------------------------------------------------------------------------
/// Insert `x` into the sorted sequence `s`, after any equal entries.
pub open spec fn insert_sorted(s: Seq<i64>, x: i64) -> Seq<i64>
    decreases s.len(),
{
    if s.len() == 0 {
        seq![x]
    } else if x < s[0] {
        seq![x] + s
    } else {
        seq![s[0]] + insert_sorted(s.drop_first(), x)
    }
}

/// Stable insertion sort of the pulse timestamps.
pub open spec fn sort_points(s: Seq<i64>) -> Seq<i64>
    decreases s.len(),
{
    if s.len() == 0 {
        Seq::empty()
    } else {
        insert_sorted(sort_points(s.drop_last()), s.last())
    }
}

proof fn lemma_insert_sorted_at(s: Seq<i64>, x: i64, j: int)
    requires
        sorted_points(s),
        0 <= j <= s.len(),
        forall|k: int| 0 <= k < j ==> s[k] <= x,
        j < s.len() ==> s[j] > x,
    ensures
        insert_sorted(s, x) == s.subrange(0, j).push(x) + s.subrange(j, s.len() as int),
    decreases s.len(),
{
    if s.len() == 0 {
        assert(insert_sorted(s, x) =~= s.subrange(0, j).push(x) + s.subrange(j, s.len() as int));
    } else if j == 0 {
        assert(s[0] > x);
        assert(seq![x] + s =~= s.subrange(0, 0).push(x) + s.subrange(0, s.len() as int));
    } else {
        assert(s[0] <= x);
        let rest = s.drop_first();
        assert forall|k: int| 0 <= k < j - 1 implies rest[k] <= x by {
            assert(rest[k] == s[k + 1]);
        }
        assert forall|a: int, b: int| 0 <= a <= b < rest.len() implies rest[a] <= rest[b] by {
            assert(rest[a] == s[a + 1] && rest[b] == s[b + 1]);
        }
        if j - 1 < rest.len() {
            assert(rest[j - 1] == s[j]);
        }
        lemma_insert_sorted_at(rest, x, j - 1);
        assert(seq![s[0]] + (rest.subrange(0, j - 1).push(x) + rest.subrange(
            j - 1,
            rest.len() as int,
        )) =~= s.subrange(0, j).push(x) + s.subrange(j, s.len() as int));
    }
}

proof fn lemma_insert_sorted_sorted(s: Seq<i64>, x: i64)
    requires
        sorted_points(s),
    ensures
        sorted_points(insert_sorted(s, x)),
    decreases s.len(),
{
    if s.len() == 0 {
    } else if x < s[0] {
        let out = seq![x] + s;
        assert forall|a: int, b: int| 0 <= a <= b < out.len() implies out[a] <= out[b] by {
            if a > 0 {
                assert(out[a] == s[a - 1] && out[b] == s[b - 1]);
            } else if b > 0 {
                assert(out[b] == s[b - 1]);
                assert(s[0] <= s[b - 1]);
            }
        }
    } else {
        let rest = s.drop_first();
        assert forall|a: int, b: int| 0 <= a <= b < rest.len() implies rest[a] <= rest[b] by {
            assert(rest[a] == s[a + 1] && rest[b] == s[b + 1]);
        }
        lemma_insert_sorted_sorted(rest, x);
        let tail = insert_sorted(rest, x);
        let out = seq![s[0]] + tail;
        assert forall|k: int| 0 <= k < tail.len() implies s[0] <= tail[k] by {
            lemma_insert_sorted_members(rest, x, k);
        }
        assert forall|a: int, b: int| 0 <= a <= b < out.len() implies out[a] <= out[b] by {
            if a > 0 {
                assert(out[a] == tail[a - 1] && out[b] == tail[b - 1]);
            } else if b > 0 {
                assert(out[b] == tail[b - 1]);
            }
        }
    }
}

proof fn lemma_insert_sorted_members(s: Seq<i64>, x: i64, k: int)
    requires
        0 <= k < insert_sorted(s, x).len(),
    ensures
        insert_sorted(s, x)[k] == x || (exists|m: int|
            0 <= m < s.len() && insert_sorted(s, x)[k] == s[m]),
    decreases s.len(),
{
    if s.len() == 0 {
    } else if x < s[0] {
        if k > 0 {
            assert(insert_sorted(s, x)[k] == s[k - 1]);
        }
    } else {
        if k > 0 {
            lemma_insert_sorted_members(s.drop_first(), x, k - 1);
            let t = insert_sorted(s.drop_first(), x)[k - 1];
            assert(insert_sorted(s, x)[k] == t);
            if t != x {
                let m = choose|m: int| 0 <= m < s.drop_first().len() && t == s.drop_first()[m];
                assert(s.drop_first()[m] == s[m + 1]);
            }
        }
    }
}

/// Sort the raw pulse timestamps into nondecreasing order.
pub fn sort_pulse_times(v: &Vec<i64>) -> (r: Vec<i64>)
    ensures
        r@ == sort_points(v@),
        sorted_points(r@),
{
    let mut out: Vec<i64> = Vec::new();
    let mut i: usize = 0;
    proof {
        assert(v@.subrange(0, 0) =~= Seq::<i64>::empty());
    }
    while i < v.len()
        invariant
            i <= v@.len(),
            out@ == sort_points(v@.subrange(0, i as int)),
            sorted_points(out@),
        decreases v@.len() - i,
    {
        let x = v[i];
        let mut j: usize = 0;
        while j < out.len() && out[j] <= x
            invariant
                j <= out@.len(),
                forall|k: int| 0 <= k < j ==> out@[k] <= x,
            decreases out@.len() - j,
        {
            j += 1;
        }
        proof {
            lemma_insert_sorted_at(out@, x, j as int);
            lemma_insert_sorted_sorted(out@, x);
        }
        let ghost before = out@;
        out.insert(j, x);
        proof {
            assert(out@ =~= before.subrange(0, j as int).push(x) + before.subrange(
                j as int,
                before.len() as int,
            ));
            assert(v@.subrange(0, i + 1).drop_last() =~= v@.subrange(0, i as int));
            assert(v@.subrange(0, i + 1).last() == v@[i as int]);
        }
        i += 1;
    }
    proof {
        assert(v@.subrange(0, v@.len() as int) =~= v@);
    }
    out
}

// ---------------------------------------------------------------------------
// The pipeline
// ---------------------------------------------------------------------------
/// The coverage intervals derived from a raw pulse list at ingestion.
pub open spec fn spec_ingest_intervals(pulses: Seq<i64>) -> Seq<Interval> {
    spec_merge(points_to_intervals(sort_points(pulses)), INGEST_GAP_SECONDS as i64)
}

/// Why one upload batch is rejected.
#[derive(Clone, Copy, PartialEq, Eq, Structural, Debug)]
pub enum ProcessError {
    /// A recording's supplied filename has no final path component.
    InvalidFilename,
    /// A recording's chunk bytes do not reconstruct.
    Recording(CastError),
}

/// Why one raw group fails: its filename is checked first, then its bytes
/// are reconstructed.
pub open spec fn cast_failure(raw: CastRaw) -> Option<ProcessError> {
    if file_name_of(raw.filename@) is None {
        Some(ProcessError::InvalidFilename)
    } else {
        match spec_convert_cast(raw.content@) {
            Err(e) => Some(ProcessError::Recording(e)),
            Ok(_) => None,
        }
    }
}

/// Whether the whole batch converts, and the first failure otherwise.
pub open spec fn first_cast_failure(casts: Seq<CastRaw>) -> Option<(int, ProcessError)>
    decreases casts.len(),
{
    if casts.len() == 0 {
        None
    } else {
        match cast_failure(casts[0]) {
            Some(e) => Some((0, e)),
            None => match first_cast_failure(casts.drop_first()) {
                Some(p) => Some((p.0 + 1, p.1)),
                None => None,
            },
        }
    }
}

/// A finalized cast is the reconstruction of its raw chunk group, named by
/// the final path component of the raw group's filename.
pub open spec fn cast_matches(raw: CastRaw, c: Cast) -> bool {
    match (file_name_of(raw.filename@), spec_convert_cast(raw.content@)) {
        (Some(name), Ok(sc)) => {
            &&& c.filename@ == name
            &&& c.content@ == sc.content
            &&& c.started_at == sc.started_at
            &&& c.duration_ms == sc.duration_ms
            &&& c.active_duration_ms == sc.active_duration_ms
            &&& c.event_count == sc.event_count
            &&& c.width == sc.width
            &&& c.height == sc.height
        },
        _ => false,
    }
}

/// Derive coverage intervals and finalized casts from the decoder's output.
/// Each recording's filename is reduced to its final path component, so
/// derived object keys cannot carry directory prefixes; the first recording
/// with no usable filename or with corrupt bytes aborts the batch.
pub fn process(hbs_raw: &Vec<i64>, casts_raw: &Vec<CastRaw>) -> (r: Result<
    (Vec<Interval>, Vec<Cast>),
    ProcessError,
>)
    ensures
        r matches Ok(p) ==> p.0@ == spec_ingest_intervals(hbs_raw@),
        r matches Ok(p) ==> p.1@.len() == casts_raw@.len() && (forall|k: int|
            0 <= k < casts_raw@.len() ==> cast_matches(
                #[trigger] casts_raw@[k],
                #[trigger] p.1@[k],
            )),
        r matches Err(e) ==> first_cast_failure(casts_raw@) matches Some(p) && p.1 == e,
        r is Ok <==> first_cast_failure(casts_raw@) is None,
{
    let sorted = sort_pulse_times(hbs_raw);
    let itvs = merge_points(&sorted, INGEST_GAP_SECONDS);
    let mut casts: Vec<Cast> = Vec::new();
    let mut k: usize = 0;
    while k < casts_raw.len()
        invariant
            k <= casts_raw@.len(),
            itvs@ == spec_ingest_intervals(hbs_raw@),
            casts@.len() == k,
            first_of_failures_prefix(casts_raw@, k as int),
            forall|m: int|
                0 <= m < k ==> cast_matches(#[trigger] casts_raw@[m], #[trigger] casts@[m]),
        decreases casts_raw@.len() - k,
    {
        let raw = &casts_raw[k];
        let filename = match file_name(raw.filename.as_str()) {
            None => {
                proof {
                    lemma_first_failure_here(casts_raw@, k as int, ProcessError::InvalidFilename);
                }
                return Err(ProcessError::InvalidFilename);
            },
            Some(name) => name,
        };
        match convert_cast(&raw.content) {
            Err(e) => {
                proof {
                    lemma_first_failure_here(casts_raw@, k as int, ProcessError::Recording(e));
                }
                return Err(ProcessError::Recording(e));
            },
            Ok(part) => {
                let CastPartial {
                    started_at,
                    duration_ms,
                    active_duration_ms,
                    event_count,
                    width,
                    height,
                    content,
                } = part;
                casts.push(
                    Cast {
                        filename,
                        content,
                        started_at,
                        duration_ms,
                        active_duration_ms,
                        event_count,
                        width,
                        height,
                    },
                );
            },
        }
        k += 1;
    }
    proof {
        lemma_no_failure(casts_raw@, casts_raw@.len() as int);
    }
    Ok((itvs, casts))
}

/// All casts before index `k` pass both checks.
pub open spec fn first_of_failures_prefix(casts: Seq<CastRaw>, k: int) -> bool {
    forall|m: int| 0 <= m < k ==> cast_failure(#[trigger] casts[m]) is None
}

proof fn lemma_first_failure_here(casts: Seq<CastRaw>, k: int, e: ProcessError)
    requires
        0 <= k < casts.len(),
        first_of_failures_prefix(casts, k),
        cast_failure(casts[k]) == Some(e),
    ensures
        first_cast_failure(casts) == Some((k, e)),
    decreases k,
{
    if k == 0 {
    } else {
        let rest = casts.drop_first();
        assert(cast_failure(casts[0]) is None);
        assert forall|m: int| 0 <= m < k - 1 implies cast_failure(#[trigger] rest[m]) is None by {
            assert(rest[m] == casts[m + 1]);
        }
        assert(rest[k - 1] == casts[k]);
        lemma_first_failure_here(rest, k - 1, e);
    }
}

proof fn lemma_no_failure(casts: Seq<CastRaw>, k: int)
    requires
        k == casts.len(),
        first_of_failures_prefix(casts, k),
    ensures
        first_cast_failure(casts) is None,
    decreases casts.len(),
{
    if casts.len() > 0 {
        let rest = casts.drop_first();
        assert(cast_failure(casts[0]) is None);
        assert forall|m: int| 0 <= m < rest.len() implies cast_failure(
            #[trigger] rest[m],
        ) is None by {
            assert(rest[m] == casts[m + 1]);
        }
        lemma_no_failure(rest, rest.len() as int);
    }
}

} // verus!
