//! Commit planning: the derived artifacts are fanned out to the object store
//! (one canonical document per recording, plus the raw heartbeat log) and to
//! the metadata store (one log row, one row per coverage interval, one row per
//! recording, all inside one transaction). Object keys are derived from the
//! configured prefix, the upload id and the recording's filename. The upload
//! is reported successful exactly when all three sink operations succeeded;
//! there is no cross-sink rollback.

use crate::fmt::{dec_signed, push_dec_i64};
use crate::interval::Interval;
use crate::pipeline::Cast;
use vstd::prelude::*;
use vstd::string::StringExecFns;

verus! {

/// Ambient storage configuration, passed in explicitly.
#[derive(Debug)]
pub struct StorageConfig {
    pub bucket: String,
    pub key_prefix: String,
}

/// One key-addressed blob write to the object store.
#[derive(Debug)]
pub struct ObjectPut {
    pub key: String,
    pub body: Vec<u8>,
}

/// The metadata row for the upload itself.
#[derive(Debug)]
pub struct LogRow {
    pub uuid: String,
    pub note: String,
}

/// One metadata row per merged coverage interval.
#[derive(Debug)]
pub struct HeartbeatRow {
    pub uuid: String,
    pub session: u64,
    pub started_at: i64,
    pub ended_at: i64,
}

/// One metadata row per recording.
#[derive(Debug)]
pub struct CastRow {
    pub uuid: String,
    pub bucket: String,
    pub path: String,
    pub size_byte: u32,
    pub duration_ms: u64,
    pub active_duration_ms: u64,
    pub event_count: u32,
    pub started_at: i64,
    pub width: u16,
    pub height: u16,
}

/// Everything the two sinks receive for one upload.
#[derive(Debug)]
pub struct CommitPlan {
    pub recording_puts: Vec<ObjectPut>,
    pub heartbeat_put: ObjectPut,
    pub log_row: LogRow,
    pub heartbeat_rows: Vec<HeartbeatRow>,
    pub cast_rows: Vec<CastRow>,
}

/// The deterministic object key `{prefix}/{upload id}/{name}`.
pub open spec fn object_key(prefix: Seq<char>, id: Seq<char>, name: Seq<char>) -> Seq<char> {
    prefix + "/"@ + id + "/"@ + name
}

fn make_object_key(prefix: &String, id: &String, name: &String) -> (r: String)
    ensures
        r@ == object_key(prefix@, id@, name@),
{
    let mut s = prefix.clone();
    s.append("/");
    s.append(id.as_str());
    s.append("/");
    s.append(name.as_str());
    s
}

/// The raw heartbeat log: one decimal unix timestamp per line.
pub open spec fn heartbeat_log(pulses: Seq<i64>) -> Seq<u8>
    decreases pulses.len(),
{
    if pulses.len() == 0 {
        Seq::empty()
    } else {
        dec_signed(pulses[0] as int) + seq![0x0au8] + heartbeat_log(pulses.drop_first())
    }
}

proof fn lemma_heartbeat_log_snoc(pulses: Seq<i64>, x: i64)
    ensures
        heartbeat_log(pulses.push(x)) == heartbeat_log(pulses) + dec_signed(x as int) + seq![
            0x0au8,
        ],
    decreases pulses.len(),
{
    if pulses.len() == 0 {
        assert(pulses.push(x)[0] == x);
        assert(pulses.push(x).drop_first() =~= Seq::<i64>::empty());
        assert(heartbeat_log(Seq::<i64>::empty()) == Seq::<u8>::empty());
        assert(heartbeat_log(pulses.push(x)) == dec_signed(x as int) + seq![0x0au8]
            + heartbeat_log(pulses.push(x).drop_first()));
        assert(dec_signed(x as int) + seq![0x0au8] + Seq::<u8>::empty() =~= heartbeat_log(pulses)
            + dec_signed(x as int) + seq![0x0au8]);
    } else {
        assert(pulses.push(x)[0] == pulses[0]);
        assert(pulses.push(x).drop_first() =~= pulses.drop_first().push(x));
        lemma_heartbeat_log_snoc(pulses.drop_first(), x);
        assert(heartbeat_log(pulses.push(x)) =~= heartbeat_log(pulses) + dec_signed(x as int)
            + seq![0x0au8]);
    }
}

/// Render the raw pulse list as the heartbeat log object body.
pub fn render_heartbeat_log(pulses: &Vec<i64>) -> (r: Vec<u8>)
    ensures
        r@ == heartbeat_log(pulses@),
{
    let mut out: Vec<u8> = Vec::new();
    let mut i: usize = 0;
    proof {
        assert(pulses@.subrange(0, 0) =~= Seq::<i64>::empty());
    }
    while i < pulses.len()
        invariant
            i <= pulses@.len(),
            out@ == heartbeat_log(pulses@.subrange(0, i as int)),
        decreases pulses@.len() - i,
    {
        push_dec_i64(&mut out, pulses[i]);
        out.push(0x0a);
        proof {
            lemma_heartbeat_log_snoc(pulses@.subrange(0, i as int), pulses@[i as int]);
            assert(pulses@.subrange(0, i + 1) =~= pulses@.subrange(0, i as int).push(
                pulses@[i as int],
            ));
            assert(out@ =~= heartbeat_log(pulses@.subrange(0, i + 1)));
        }
        i += 1;
    }
    proof {
        assert(pulses@.subrange(0, pulses@.len() as int) =~= pulses@);
    }
    out
}

/// A cast row carries the recording's derived metadata under its object path.
pub open spec fn cast_row_matches(
    row: CastRow,
    c: Cast,
    cfg: StorageConfig,
    id: Seq<char>,
) -> bool {
    &&& row.uuid@ == id
    &&& row.bucket@ == cfg.bucket@
    &&& row.path@ == object_key(cfg.key_prefix@, id, c.filename@)
    &&& row.size_byte == c.content@.len() as u32
    &&& row.duration_ms == c.duration_ms
    &&& row.active_duration_ms == c.active_duration_ms
    &&& row.event_count == c.event_count
    &&& row.started_at == c.started_at
    &&& row.width == c.width
    &&& row.height == c.height
}

/// Assemble the full commit plan for one upload: object puts under
/// deterministic keys, and the three kinds of metadata rows.
pub fn build_commit_plan(
    cfg: &StorageConfig,
    upload_id: &String,
    note: &String,
    intervals: &Vec<Interval>,
    pulses: &Vec<i64>,
    casts: &Vec<Cast>,
) -> (r: CommitPlan)
    ensures
        r.log_row.uuid@ == upload_id@ && r.log_row.note@ == note@,
        r.heartbeat_put.key@ == object_key(cfg.key_prefix@, upload_id@, "heartbeats.log"@),
        r.heartbeat_put.body@ == heartbeat_log(pulses@),
        r.heartbeat_rows@.len() == intervals@.len(),
        forall|i: int|
            0 <= i < intervals@.len() ==> {
                &&& (#[trigger] r.heartbeat_rows@[i]).uuid@ == upload_id@
                &&& r.heartbeat_rows@[i].session == 0
                &&& r.heartbeat_rows@[i].started_at == intervals@[i].start
                &&& r.heartbeat_rows@[i].ended_at == intervals@[i].end
            },
        r.recording_puts@.len() == casts@.len(),
        forall|i: int|
            0 <= i < casts@.len() ==> {
                &&& (#[trigger] r.recording_puts@[i]).key@ == object_key(
                    cfg.key_prefix@,
                    upload_id@,
                    casts@[i].filename@,
                )
                &&& r.recording_puts@[i].body@ == casts@[i].content@
            },
        r.cast_rows@.len() == casts@.len(),
        forall|i: int|
            0 <= i < casts@.len() ==> cast_row_matches(
                #[trigger] r.cast_rows@[i],
                casts@[i],
                *cfg,
                upload_id@,
            ),
{
    let hb_name: String = "heartbeats.log".to_owned();
    let heartbeat_put = ObjectPut {
        key: make_object_key(&cfg.key_prefix, upload_id, &hb_name),
        body: render_heartbeat_log(pulses),
    };
    let log_row = LogRow { uuid: upload_id.clone(), note: note.clone() };
    let mut heartbeat_rows: Vec<HeartbeatRow> = Vec::new();
    let mut i: usize = 0;
    while i < intervals.len()
        invariant
            i <= intervals@.len(),
            heartbeat_rows@.len() == i,
            forall|m: int|
                0 <= m < i ==> {
                    &&& (#[trigger] heartbeat_rows@[m]).uuid@ == upload_id@
                    &&& heartbeat_rows@[m].session == 0
                    &&& heartbeat_rows@[m].started_at == intervals@[m].start
                    &&& heartbeat_rows@[m].ended_at == intervals@[m].end
                },
        decreases intervals@.len() - i,
    {
        let itv = intervals[i];
        heartbeat_rows.push(
            HeartbeatRow {
                uuid: upload_id.clone(),
                session: 0,
                started_at: itv.start,
                ended_at: itv.end,
            },
        );
        i += 1;
    }
    let mut recording_puts: Vec<ObjectPut> = Vec::new();
    let mut cast_rows: Vec<CastRow> = Vec::new();
    let mut k: usize = 0;
    while k < casts.len()
        invariant
            k <= casts@.len(),
            recording_puts@.len() == k,
            cast_rows@.len() == k,
            forall|m: int|
                0 <= m < k ==> {
                    &&& (#[trigger] recording_puts@[m]).key@ == object_key(
                        cfg.key_prefix@,
                        upload_id@,
                        casts@[m].filename@,
                    )
                    &&& recording_puts@[m].body@ == casts@[m].content@
                },
            forall|m: int|
                0 <= m < k ==> cast_row_matches(
                    #[trigger] cast_rows@[m],
                    casts@[m],
                    *cfg,
                    upload_id@,
                ),
        decreases casts@.len() - k,
    {
        let c = &casts[k];
        let key = make_object_key(&cfg.key_prefix, upload_id, &c.filename);
        recording_puts.push(ObjectPut { key: key.clone(), body: c.content.clone() });
        cast_rows.push(
            CastRow {
                uuid: upload_id.clone(),
                bucket: cfg.bucket.clone(),
                path: key,
                size_byte: c.content.len() as u32,
                duration_ms: c.duration_ms,
                active_duration_ms: c.active_duration_ms,
                event_count: c.event_count,
                started_at: c.started_at,
                width: c.width,
                height: c.height,
            },
        );
        k += 1;
    }
    CommitPlan { recording_puts, heartbeat_put, log_row, heartbeat_rows, cast_rows }
}

/// Which concurrent sink operation failed first, in the fixed reporting
/// order: recording uploads, heartbeat-log upload, metadata transaction.
#[derive(Clone, Copy, PartialEq, Eq, Structural, Debug)]
pub enum CommitError {
    RecordingUpload,
    HeartbeatUpload,
    MetadataTransaction,
}

/// A commit is reported successful exactly when all three sink operations
/// succeeded; a metadata transaction that committed beside a failed object
/// upload is never reported as success, and nothing is rolled back.
pub fn commit_result(recordings_ok: bool, heartbeat_ok: bool, metadata_ok: bool) -> (r: Result<
    (),
    CommitError,
>)
    ensures
        r is Ok <==> (recordings_ok && heartbeat_ok && metadata_ok),
        !recordings_ok ==> r == Err::<(), CommitError>(CommitError::RecordingUpload),
        recordings_ok && !heartbeat_ok ==> r == Err::<(), CommitError>(
            CommitError::HeartbeatUpload,
        ),
        recordings_ok && heartbeat_ok && !metadata_ok ==> r == Err::<(), CommitError>(
            CommitError::MetadataTransaction,
        ),
{
    if !recordings_ok {
        Err(CommitError::RecordingUpload)
    } else if !heartbeat_ok {
        Err(CommitError::HeartbeatUpload)
    } else if !metadata_ok {
        Err(CommitError::MetadataTransaction)
    } else {
        Ok(())
    }
}

/// The success response for an upload: the echoed or generated identifier's
/// replay-view URL.
#[derive(Debug)]
pub struct UploadResp {
    pub ok: bool,
    pub url: String,
}

/// Relies on `uuid::Uuid::new_v4` and its hyphenated `Display` form: a fresh
/// identifier rendered as 36 characters, hyphens at the four fixed positions
/// and lowercase hex digits everywhere else.
#[verifier::external_body]
fn new_v4_string() -> (r: String)
    ensures
        r@.len() == 36,
        r@[8] == '-' && r@[13] == '-' && r@[18] == '-' && r@[23] == '-',
        forall|i: int|
            0 <= i < 36 && i != 8 && i != 13 && i != 18 && i != 23 ==> (('0' <= #[trigger] r@[i]
                <= '9') || ('a' <= r@[i] <= 'f')),
{
    uuid::Uuid::new_v4().to_string()
}

/// The client-supplied upload identifier, or a freshly generated one.
pub fn resolve_upload_id(given: Option<String>) -> (r: String)
    ensures
        given matches Some(s) ==> r == s,
        given is None ==> r@.len() == 36,
{
    match given {
        Some(s) => s,
        None => new_v4_string(),
    }
}

/// The success response carrying the replay-view URL for the upload id.
pub fn upload_response(upload_id: &String) -> (r: UploadResp)
    ensures
        r.ok == true,
        r.url@ == "/view/"@ + upload_id@,
{
    let mut url: String = "/view/".to_owned();
    url.append(upload_id.as_str());
    UploadResp { ok: true, url }
}

} // verus!
