//! The upload pipeline, end to end on plain values: resolve the upload
//! identifier, decode the raw log blob, merge heartbeat pulses and
//! reconstruct recordings, and assemble the commit plan for the two storage
//! sinks. Performing the sink operations, and combining their outcomes with
//! `commit_result`, is the caller's part.

use crate::cast::spec_convert_cast;
use crate::commit::{
    build_commit_plan, cast_row_matches, heartbeat_log, object_key, resolve_upload_id, CastRow,
    CommitPlan, ObjectPut, StorageConfig,
};
use crate::decode::{parse_log, spec_parse_log, CastRaw};
use crate::events::CastError;
use crate::filename::lemma_digit_name_identity;
use crate::fmt::{bytes_as_chars, dec_digits};
use crate::pipeline::{
    cast_failure, cast_matches, first_cast_failure, process, spec_ingest_intervals, ProcessError,
};
use vstd::prelude::*;

verus! {

/// Whether every chunk group reconstructs, and the first failure otherwise.
pub open spec fn first_chunk_failure(chunks: Seq<(u128, Seq<u8>)>) -> Option<(int, CastError)>
    decreases chunks.len(),
{
    if chunks.len() == 0 {
        None
    } else {
        match spec_convert_cast(chunks[0].1) {
            Err(e) => Some((0, e)),
            Ok(_) => match first_chunk_failure(chunks.drop_first()) {
                Some(p) => Some((p.0 + 1, p.1)),
                None => None,
            },
        }
    }
}

proof fn lemma_failure_correspond(raws: Seq<CastRaw>, chunks: Seq<(u128, Seq<u8>)>)
    requires
        raws.len() == chunks.len(),
        forall|k: int| 0 <= k < raws.len() ==> (#[trigger] raws[k]).content@ == chunks[k].1,
        forall|k: int|
            0 <= k < raws.len() ==> (#[trigger] raws[k]).filename@ == bytes_as_chars(
                dec_digits(chunks[k].0 as nat),
            ),
    ensures
        first_cast_failure(raws) == (match first_chunk_failure(chunks) {
            Some(p) => Some((p.0, ProcessError::Recording(p.1))),
            None => None,
        }),
    decreases raws.len(),
{
    if raws.len() > 0 {
        assert(raws[0].content@ == chunks[0].1);
        assert(raws[0].filename@ == bytes_as_chars(dec_digits(chunks[0].0 as nat)));
        lemma_digit_name_identity(chunks[0].0 as nat);
        assert(cast_failure(raws[0]) == (match spec_convert_cast(chunks[0].1) {
            Err(e) => Some(ProcessError::Recording(e)),
            Ok(_) => None,
        }));
        let r2 = raws.drop_first();
        let c2 = chunks.drop_first();
        assert forall|k: int| 0 <= k < r2.len() implies (#[trigger] r2[k]).content@ == c2[k].1
            && r2[k].filename@ == bytes_as_chars(dec_digits(c2[k].0 as nat)) by {
            assert(r2[k] == raws[k + 1]);
            assert(c2[k] == chunks[k + 1]);
        }
        lemma_failure_correspond(r2, c2);
    }
}

proof fn lemma_plan_from_chunks(
    chunks: Seq<(u128, Seq<u8>)>,
    casts_raw: Seq<CastRaw>,
    casts: Seq<crate::pipeline::Cast>,
    puts: Seq<ObjectPut>,
    rows: Seq<CastRow>,
    cfg: StorageConfig,
    id: Seq<char>,
)
    requires
        casts_raw.len() == chunks.len(),
        casts.len() == chunks.len(),
        puts.len() == chunks.len(),
        rows.len() == chunks.len(),
        forall|k: int| 0 <= k < chunks.len() ==> (#[trigger] casts_raw[k]).content@ == chunks[k].1,
        forall|k: int|
            0 <= k < chunks.len() ==> (#[trigger] casts_raw[k]).filename@ == bytes_as_chars(
                dec_digits(chunks[k].0 as nat),
            ),
        forall|k: int| 0 <= k < chunks.len() ==> cast_matches(casts_raw[k], #[trigger] casts[k]),
        forall|k: int|
            0 <= k < chunks.len() ==> (#[trigger] puts[k]).key@ == object_key(
                cfg.key_prefix@,
                id,
                casts[k].filename@,
            ) && puts[k].body@ == casts[k].content@,
        forall|k: int| 0 <= k < chunks.len() ==> cast_row_matches(#[trigger] rows[k], casts[k], cfg, id),
    ensures
        forall|k: int|
            0 <= k < chunks.len() ==> {
                &&& (#[trigger] puts[k]).key@ == object_key(
                    cfg.key_prefix@,
                    id,
                    bytes_as_chars(dec_digits(chunks[k].0 as nat)),
                )
                &&& spec_convert_cast(chunks[k].1) matches Ok(sc) && puts[k].body@ == sc.content
            },
        forall|k: int|
            0 <= k < chunks.len() ==> {
                &&& (#[trigger] rows[k]).uuid@ == id
                &&& rows[k].bucket@ == cfg.bucket@
                &&& rows[k].path@ == object_key(
                    cfg.key_prefix@,
                    id,
                    bytes_as_chars(dec_digits(chunks[k].0 as nat)),
                )
                &&& spec_convert_cast(chunks[k].1) matches Ok(sc) && {
                    &&& rows[k].size_byte == sc.content.len() as u32
                    &&& rows[k].duration_ms == sc.duration_ms
                    &&& rows[k].active_duration_ms == sc.active_duration_ms
                    &&& rows[k].event_count == sc.event_count
                    &&& rows[k].started_at == sc.started_at
                    &&& rows[k].width == sc.width
                    &&& rows[k].height == sc.height
                }
            },
{
    assert forall|k: int| 0 <= k < chunks.len() implies {
        &&& (#[trigger] puts[k]).key@ == object_key(
            cfg.key_prefix@,
            id,
            bytes_as_chars(dec_digits(chunks[k].0 as nat)),
        )
        &&& spec_convert_cast(chunks[k].1) matches Ok(sc) && puts[k].body@ == sc.content
    } by {
        lemma_digit_name_identity(chunks[k].0 as nat);
        assert(cast_matches(casts_raw[k], casts[k]));
        assert(casts_raw[k].content@ == chunks[k].1);
        assert(casts[k].filename@ == bytes_as_chars(dec_digits(chunks[k].0 as nat)));
    }
    assert forall|k: int| 0 <= k < chunks.len() implies {
        &&& (#[trigger] rows[k]).uuid@ == id
        &&& rows[k].bucket@ == cfg.bucket@
        &&& rows[k].path@ == object_key(
            cfg.key_prefix@,
            id,
            bytes_as_chars(dec_digits(chunks[k].0 as nat)),
        )
        &&& spec_convert_cast(chunks[k].1) matches Ok(sc) && {
            &&& rows[k].size_byte == sc.content.len() as u32
            &&& rows[k].duration_ms == sc.duration_ms
            &&& rows[k].active_duration_ms == sc.active_duration_ms
            &&& rows[k].event_count == sc.event_count
            &&& rows[k].started_at == sc.started_at
            &&& rows[k].width == sc.width
            &&& rows[k].height == sc.height
        }
    } by {
        lemma_digit_name_identity(chunks[k].0 as nat);
        assert(cast_matches(casts_raw[k], casts[k]));
        assert(casts_raw[k].content@ == chunks[k].1);
        assert(casts[k].filename@ == bytes_as_chars(dec_digits(chunks[k].0 as nat)));
        assert(cast_row_matches(rows[k], casts[k], cfg, id));
    }
}

/// Decode, derive and plan one upload. On success the resolved upload
/// identifier and the full commit plan are returned; the first corrupt
/// recording aborts the upload with its decode failure, and content-level
/// problems in single records never do.
#[verifier::rlimit(100)]
pub fn prepare_upload(
    cfg: &StorageConfig,
    upload_id: Option<String>,
    notes: &String,
    logs: &str,
) -> (r: Result<(String, CommitPlan), ProcessError>)
    ensures
        r is Ok <==> first_chunk_failure(spec_parse_log(logs@).1) is None,
        r matches Err(e) ==> first_chunk_failure(spec_parse_log(logs@).1) matches Some(p) && e
            == ProcessError::Recording(p.1),
        r matches Ok(p) ==> {
            let pulses = spec_parse_log(logs@).0;
            let chunks = spec_parse_log(logs@).1;
            let intervals = spec_ingest_intervals(pulses);
            &&& (upload_id matches Some(s) ==> p.0@ == s@)
            &&& (upload_id is None ==> p.0@.len() == 36)
            &&& p.1.log_row.uuid@ == p.0@
            &&& p.1.log_row.note@ == notes@
            &&& p.1.heartbeat_put.key@ == object_key(cfg.key_prefix@, p.0@, "heartbeats.log"@)
            &&& p.1.heartbeat_put.body@ == heartbeat_log(pulses)
            &&& p.1.heartbeat_rows@.len() == intervals.len()
            &&& (forall|i: int|
                0 <= i < intervals.len() ==> {
                    &&& (#[trigger] p.1.heartbeat_rows@[i]).uuid@ == p.0@
                    &&& p.1.heartbeat_rows@[i].session == 0
                    &&& p.1.heartbeat_rows@[i].started_at == intervals[i].start
                    &&& p.1.heartbeat_rows@[i].ended_at == intervals[i].end
                })
            &&& p.1.recording_puts@.len() == chunks.len()
            &&& (forall|k: int|
                0 <= k < chunks.len() ==> {
                    &&& (#[trigger] p.1.recording_puts@[k]).key@ == object_key(
                        cfg.key_prefix@,
                        p.0@,
                        bytes_as_chars(dec_digits(chunks[k].0 as nat)),
                    )
                    &&& spec_convert_cast(chunks[k].1) matches Ok(sc)
                        && p.1.recording_puts@[k].body@ == sc.content
                })
            &&& p.1.cast_rows@.len() == chunks.len()
            &&& (forall|k: int|
                0 <= k < chunks.len() ==> {
                    &&& (#[trigger] p.1.cast_rows@[k]).uuid@ == p.0@
                    &&& p.1.cast_rows@[k].bucket@ == cfg.bucket@
                    &&& p.1.cast_rows@[k].path@ == object_key(
                        cfg.key_prefix@,
                        p.0@,
                        bytes_as_chars(dec_digits(chunks[k].0 as nat)),
                    )
                    &&& spec_convert_cast(chunks[k].1) matches Ok(sc) && {
                        &&& p.1.cast_rows@[k].size_byte == sc.content.len() as u32
                        &&& p.1.cast_rows@[k].duration_ms == sc.duration_ms
                        &&& p.1.cast_rows@[k].active_duration_ms == sc.active_duration_ms
                        &&& p.1.cast_rows@[k].event_count == sc.event_count
                        &&& p.1.cast_rows@[k].started_at == sc.started_at
                        &&& p.1.cast_rows@[k].width == sc.width
                        &&& p.1.cast_rows@[k].height == sc.height
                    }
                })
        },
{
    let id = resolve_upload_id(upload_id);
    let (pulses, casts_raw) = parse_log(logs);
    let ghost chunks = spec_parse_log(logs@).1;
    proof {
        lemma_failure_correspond(casts_raw@, chunks);
    }
    let (intervals, casts) = match process(&pulses, &casts_raw) {
        Err(e) => {
            return Err(e);
        },
        Ok(p) => p,
    };
    let plan = build_commit_plan(cfg, &id, notes, &intervals, &pulses, &casts);
    proof {
        lemma_plan_from_chunks(
            chunks,
            casts_raw@,
            casts@,
            plan.recording_puts@,
            plan.cast_rows@,
            *cfg,
            id@,
        );
    }
    Ok((id, plan))
}

} // verus!
