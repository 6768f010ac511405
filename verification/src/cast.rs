//! Cast reconstruction: replay one recording's accumulated chunk bytes,
//! recompute terminal geometry, total duration, active duration and event
//! count, and re-serialize the canonical recording document.
//!
//! Durations follow the replay rules: `duration` is the elapsed time of the
//! last output event scanning from the end, and `active_duration` is the
//! elapsed time of the second-to-last output event scanning from the end —
//! the time elapsed at the last point before the final gap. Both are 0 when
//! there are too few output events.

use crate::events::{
    events_monotone, le_at, lemma_parse_events_monotone, parse_cast_events, parse_events,
    read_u128_le, spec_elapsed, CastError, Event, SpecEvent,
};
use crate::render::{render_doc, spec_render_doc};
use vstd::prelude::*;

verus! {

pub const DEFAULT_COLS: u16 = 80;

pub const DEFAULT_ROWS: u16 = 24;

/// Smallest unix-second origin timestamp the metadata store's datetime type
/// holds (midnight opening year -9999).
pub const MIN_STARTED_AT_SECONDS: i64 = -377705116800;

/// Largest unix-second origin timestamp the metadata store's datetime type
/// holds (the last second of year 9999).
pub const MAX_STARTED_AT_SECONDS: i64 = 253402300799;

/// A reconstructed recording: derived metadata and the canonical document
/// bytes.
#[derive(Debug)]
pub struct CastPartial {
    /// Origin unix timestamp, in seconds.
    pub started_at: i64,
    /// Elapsed time of the last output event, in milliseconds.
    pub duration_ms: u64,
    /// Elapsed time of the second-to-last output event, in milliseconds.
    pub active_duration_ms: u64,
    /// Number of non-header events.
    pub event_count: u32,
    /// Largest terminal width ever observed.
    pub width: u16,
    /// Largest terminal height ever observed.
    pub height: u16,
    /// The canonical document bytes.
    pub content: Vec<u8>,
}

/// Mathematical form of a reconstructed recording.
pub struct SpecCast {
    pub started_at: i64,
    pub duration_ms: u64,
    pub active_duration_ms: u64,
    pub event_count: u32,
    pub width: u16,
    pub height: u16,
    pub content: Seq<u8>,
}

impl View for CastPartial {
    type V = SpecCast;

    open spec fn view(&self) -> SpecCast {
        SpecCast {
            started_at: self.started_at,
            duration_ms: self.duration_ms,
            active_duration_ms: self.active_duration_ms,
            event_count: self.event_count,
            width: self.width,
            height: self.height,
            content: self.content@,
        }
    }
}

pub open spec fn is_output(e: SpecEvent) -> bool {
    match e {
        SpecEvent::Output { .. } => true,
        _ => false,
    }
}

pub open spec fn has_output(evs: Seq<SpecEvent>) -> bool {
    exists|i: int| 0 <= i < evs.len() && is_output(#[trigger] evs[i])
}

/// Elapsed time of the last output event, 0 when there is none.
pub open spec fn dur_of(evs: Seq<SpecEvent>) -> u64
    decreases evs.len(),
{
    if evs.len() == 0 {
        0
    } else if is_output(evs.last()) {
        spec_elapsed(evs.last())
    } else {
        dur_of(evs.drop_last())
    }
}

/// Elapsed time of the second-to-last output event, 0 when there are fewer
/// than two.
pub open spec fn active_of(evs: Seq<SpecEvent>) -> u64
    decreases evs.len(),
{
    if evs.len() == 0 {
        0
    } else if is_output(evs.last()) {
        dur_of(evs.drop_last())
    } else {
        active_of(evs.drop_last())
    }
}

/// Largest resize width observed, starting from the original header's.
pub open spec fn max_cols(evs: Seq<SpecEvent>, base: u16) -> u16
    decreases evs.len(),
{
    if evs.len() == 0 {
        base
    } else {
        let m = max_cols(evs.drop_last(), base);
        match evs.last() {
            SpecEvent::Resize { cols, .. } => if cols >= m {
                cols
            } else {
                m
            },
            _ => m,
        }
    }
}

/// Largest resize height observed, starting from the original header's.
pub open spec fn max_rows(evs: Seq<SpecEvent>, base: u16) -> u16
    decreases evs.len(),
{
    if evs.len() == 0 {
        base
    } else {
        let m = max_rows(evs.drop_last(), base);
        match evs.last() {
            SpecEvent::Resize { rows, .. } => if rows >= m {
                rows
            } else {
                m
            },
            _ => m,
        }
    }
}

/// The whole reconstruction of one recording's chunk bytes.
pub open spec fn spec_convert_cast(b: Seq<u8>) -> Result<SpecCast, CastError> {
    if b.len() < 16 {
        Err(CastError::TruncatedHeader)
    } else {
        let ts = le_at(b, 0, 16) as u128;
        match parse_events(b, 16, 0) {
            Err(e) => Err(e),
            Ok(evs) => {
                let secs = (ts / 1000) as i64;
                if !(MIN_STARTED_AT_SECONDS <= secs <= MAX_STARTED_AT_SECONDS) {
                    Err(CastError::TimestampOutOfRange)
                } else {
                    let w = max_cols(evs, DEFAULT_COLS);
                    let h = max_rows(evs, DEFAULT_ROWS);
                    Ok(
                        SpecCast {
                            started_at: secs,
                            duration_ms: dur_of(evs),
                            active_duration_ms: active_of(evs),
                            event_count: evs.len() as u32,
                            width: w,
                            height: h,
                            content: spec_render_doc(ts, w, h, evs),
                        },
                    )
                }
            },
        }
    }
}

/// Reconstruct one recording from its accumulated chunk bytes. A chunk set
/// without a usable header, with a framing failure, or with an origin
/// timestamp the metadata store cannot hold is rejected as corrupt.
pub fn convert_cast(src: &Vec<u8>) -> (r: Result<CastPartial, CastError>)
    ensures
        r matches Ok(c) ==> spec_convert_cast(src@) matches Ok(sc) && c@ == sc,
        r matches Err(e) ==> spec_convert_cast(src@) == Err::<SpecCast, CastError>(e),
{
    if src.len() < 16 {
        return Err(CastError::TruncatedHeader);
    }
    let ts = read_u128_le(src);
    let events = match parse_cast_events(src, 16) {
        Err(e) => {
            return Err(e);
        },
        Ok(evs) => evs,
    };
    let secs: i64 = (ts / 1000) as i64;
    if !(MIN_STARTED_AT_SECONDS <= secs && secs <= MAX_STARTED_AT_SECONDS) {
        return Err(CastError::TimestampOutOfRange);
    }
    let ghost evs = events@.map_values(|e: Event| e@);
    let mut dur: u64 = 0;
    let mut act: u64 = 0;
    let mut w: u16 = DEFAULT_COLS;
    let mut h: u16 = DEFAULT_ROWS;
    let mut i: usize = 0;
    proof {
        assert(evs.subrange(0, 0) =~= Seq::<SpecEvent>::empty());
    }
    while i < events.len()
        invariant
            i <= events@.len(),
            evs == events@.map_values(|e: Event| e@),
            dur == dur_of(evs.subrange(0, i as int)),
            act == active_of(evs.subrange(0, i as int)),
            w == max_cols(evs.subrange(0, i as int), DEFAULT_COLS),
            h == max_rows(evs.subrange(0, i as int), DEFAULT_ROWS),
        decreases events@.len() - i,
    {
        let ghost prefix = evs.subrange(0, i as int);
        let e = &events[i];
        proof {
            assert(evs[i as int] == e@);
            assert(evs.subrange(0, i + 1) =~= prefix.push(e@));
            assert(prefix.push(e@).drop_last() =~= prefix);
            assert(prefix.push(e@).last() == e@);
        }
        match e {
            Event::Output { elapsed_ms, .. } => {
                act = dur;
                dur = *elapsed_ms;
            },
            Event::Input { .. } => {},
            Event::Resize { rows, cols, .. } => {
                if *cols >= w {
                    w = *cols;
                }
                if *rows >= h {
                    h = *rows;
                }
            },
        }
        i += 1;
    }
    proof {
        assert(evs.subrange(0, evs.len() as int) =~= evs);
    }
    let event_count: u32 = events.len() as u32;
    let content = render_doc(ts, w, h, &events);
    Ok(
        CastPartial {
            started_at: secs,
            duration_ms: dur,
            active_duration_ms: act,
            event_count,
            width: w,
            height: h,
            content,
        },
    )
}

// ---------------------------------------------------------------------------
// Replay laws
// ---------------------------------------------------------------------------
/// Cast reconstruction is deterministic: the same chunk bytes always yield
/// the same outcome, byte-identical canonical output included.
pub proof fn lemma_convert_deterministic(a: Seq<u8>, b: Seq<u8>)
    requires
        a == b,
    ensures
        spec_convert_cast(a) == spec_convert_cast(b),
{
}

proof fn lemma_max_dims(evs: Seq<SpecEvent>, base_cols: u16, base_rows: u16)
    ensures
        max_cols(evs, base_cols) >= base_cols,
        max_rows(evs, base_rows) >= base_rows,
        forall|i: int|
            0 <= i < evs.len() ==> (match #[trigger] evs[i] {
                SpecEvent::Resize { rows, cols, .. } => max_cols(evs, base_cols) >= cols
                    && max_rows(evs, base_rows) >= rows,
                _ => true,
            }),
    decreases evs.len(),
{
    if evs.len() > 0 {
        lemma_max_dims(evs.drop_last(), base_cols, base_rows);
        assert forall|i: int| 0 <= i < evs.len() implies (match #[trigger] evs[i] {
            SpecEvent::Resize { rows, cols, .. } => max_cols(evs, base_cols) >= cols && max_rows(
                evs,
                base_rows,
            ) >= rows,
            _ => true,
        }) by {
            if i < evs.len() - 1 {
                assert(evs.drop_last()[i] == evs[i]);
            } else {
                assert(evs[i] == evs.last());
            }
        }
    }
}

/// The reconstructed header's geometry dominates the original header's and
/// every resize event's.
pub proof fn lemma_header_geometry(b: Seq<u8>)
    ensures
        spec_convert_cast(b) matches Ok(c) ==> c.width >= DEFAULT_COLS && c.height
            >= DEFAULT_ROWS,
        spec_convert_cast(b) matches Ok(c) ==> (parse_events(b, 16, 0) matches Ok(evs)
            && forall|i: int|
            0 <= i < evs.len() ==> (match #[trigger] evs[i] {
                SpecEvent::Resize { rows, cols, .. } => c.width >= cols && c.height >= rows,
                _ => true,
            })),
{
    if b.len() >= 16 {
        match parse_events(b, 16, 0) {
            Ok(evs) => {
                lemma_max_dims(evs, DEFAULT_COLS, DEFAULT_ROWS);
            },
            Err(_) => {},
        }
    }
}

proof fn lemma_dur_exists(evs: Seq<SpecEvent>)
    ensures
        dur_of(evs) == 0 || exists|i: int|
            0 <= i < evs.len() && is_output(#[trigger] evs[i]) && spec_elapsed(evs[i]) == dur_of(
                evs,
            ),
        !has_output(evs) ==> dur_of(evs) == 0 && active_of(evs) == 0,
    decreases evs.len(),
{
    if evs.len() > 0 {
        lemma_dur_exists(evs.drop_last());
        if is_output(evs.last()) {
            assert(is_output(evs[evs.len() - 1]));
            assert(has_output(evs));
        } else {
            if dur_of(evs.drop_last()) != 0 {
                let i = choose|i: int|
                    0 <= i < evs.drop_last().len() && is_output(#[trigger] evs.drop_last()[i])
                        && spec_elapsed(evs.drop_last()[i]) == dur_of(evs.drop_last());
                assert(evs.drop_last()[i] == evs[i]);
                assert(is_output(evs[i]) && spec_elapsed(evs[i]) == dur_of(evs));
            }
            if !has_output(evs) {
                assert forall|i: int|
                    0 <= i < evs.drop_last().len() implies !is_output(
                    #[trigger] evs.drop_last()[i],
                ) by {
                    assert(evs.drop_last()[i] == evs[i]);
                }
            }
        }
    }
}

proof fn lemma_active_within_duration(evs: Seq<SpecEvent>)
    requires
        events_monotone(evs),
    ensures
        active_of(evs) <= dur_of(evs),
    decreases evs.len(),
{
    if evs.len() > 0 {
        let rest = evs.drop_last();
        assert forall|i: int, j: int| 0 <= i <= j < rest.len() implies spec_elapsed(rest[i])
            <= spec_elapsed(rest[j]) by {
            assert(rest[i] == evs[i]);
            assert(rest[j] == evs[j]);
        }
        if is_output(evs.last()) {
            lemma_dur_exists(rest);
            if dur_of(rest) != 0 {
                let i = choose|i: int|
                    0 <= i < rest.len() && is_output(#[trigger] rest[i]) && spec_elapsed(rest[i])
                        == dur_of(rest);
                assert(rest[i] == evs[i]);
                assert(spec_elapsed(evs[i]) <= spec_elapsed(evs[evs.len() - 1]));
            }
        } else {
            lemma_active_within_duration(rest);
        }
    }
}

/// `active_duration` never exceeds `duration`, and both are 0 for a recording
/// without output events.
pub proof fn lemma_active_le_duration(b: Seq<u8>)
    ensures
        spec_convert_cast(b) matches Ok(c) ==> c.active_duration_ms <= c.duration_ms,
        spec_convert_cast(b) matches Ok(c) ==> (parse_events(b, 16, 0) matches Ok(evs) && (
        !has_output(evs) ==> c.duration_ms == 0 && c.active_duration_ms == 0)),
{
    if b.len() >= 16 {
        match parse_events(b, 16, 0) {
            Ok(evs) => {
                lemma_parse_events_monotone(b, 16, 0);
                lemma_active_within_duration(evs);
                lemma_dur_exists(evs);
            },
            Err(_) => {},
        }
    }
}

} // verus!
