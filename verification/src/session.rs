//! Presentation-time coalescing: stored per-session coverage intervals are
//! merged again under an operator-configurable gap threshold, sessions never
//! merging across their boundary, and the result is ordered by start time
//! across sessions for display.

use crate::interval::max_i64;
use vstd::prelude::*;

verus! {

/// Default gap threshold, in seconds, for presentation-time coalescing.
pub const DEFAULT_VIEW_GAP_SECONDS: i64 = 30;

/// A stored coverage interval with its session.
#[derive(Clone, Copy, PartialEq, Eq, Structural, Debug)]
pub struct SessionInterval {
    pub session: u64,
    pub start: i64,
    pub end: i64,
}

pub open spec fn session_interval_valid(s: SessionInterval) -> bool {
    s.start <= s.end
}

pub open spec fn all_session_valid(rows: Seq<SessionInterval>) -> bool {
    forall|i: int| 0 <= i < rows.len() ==> session_interval_valid(#[trigger] rows[i])
}

/// Ordered by session, then by start time, as the metadata store hands the
/// rows out.
pub open spec fn lex_sorted(rows: Seq<SessionInterval>) -> bool {
    forall|i: int, j: int|
        0 <= i <= j < rows.len() ==> (rows[i].session < rows[j].session || (rows[i].session
            == rows[j].session && rows[i].start <= rows[j].start))
}

/// The same left-to-right fold as the ingest merger, except that an interval
/// only extends the current one when both belong to the same session.
pub open spec fn smerge_from(cur: SessionInterval, rest: Seq<SessionInterval>, gap: i64) -> Seq<
    SessionInterval,
>
    decreases rest.len(),
{
    if rest.len() == 0 {
        seq![cur]
    } else {
        let nxt = rest[0];
        if nxt.session == cur.session && nxt.start - cur.end <= gap {
            smerge_from(
                SessionInterval {
                    session: cur.session,
                    start: cur.start,
                    end: max_i64(cur.end, nxt.end),
                },
                rest.drop_first(),
                gap,
            )
        } else {
            seq![cur] + smerge_from(nxt, rest.drop_first(), gap)
        }
    }
}

pub open spec fn spec_session_merge(rows: Seq<SessionInterval>, gap: i64) -> Seq<SessionInterval> {
    if rows.len() == 0 {
        Seq::empty()
    } else {
        smerge_from(rows[0], rows.drop_first(), gap)
    }
}

/// Within each session, consecutive rows are separated by strictly more than
/// `gap` — what the ingest merger guarantees of the rows it stores.
pub open spec fn session_gap_separated(rows: Seq<SessionInterval>, gap: i64) -> bool {
    forall|i: int|
        0 <= i < rows.len() - 1 ==> ((#[trigger] rows[i]).session == rows[i + 1].session
            ==> rows[i].end + gap < rows[i + 1].start)
}

proof fn lemma_smerge_from_identity(cur: SessionInterval, rest: Seq<SessionInterval>, gap: i64)
    requires
        session_gap_separated(seq![cur] + rest, gap),
    ensures
        smerge_from(cur, rest, gap) == seq![cur] + rest,
    decreases rest.len(),
{
    let whole = seq![cur] + rest;
    if rest.len() == 0 {
        assert(smerge_from(cur, rest, gap) =~= whole);
    } else {
        let nxt = rest[0];
        assert(whole[0] == cur);
        assert(whole[1] == nxt);
        assert(!(nxt.session == cur.session && nxt.start - cur.end <= gap));
        assert forall|i: int|
            0 <= i < (seq![nxt] + rest.drop_first()).len() - 1 implies ((#[trigger] (seq![nxt]
            + rest.drop_first())[i]).session == (seq![nxt] + rest.drop_first())[i + 1].session
            ==> (seq![nxt] + rest.drop_first())[i].end + gap < (seq![nxt] + rest.drop_first())[i
            + 1].start) by {
            assert((seq![nxt] + rest.drop_first())[i] == whole[i + 1]);
            assert((seq![nxt] + rest.drop_first())[i + 1] == whole[i + 2]);
        }
        lemma_smerge_from_identity(nxt, rest.drop_first(), gap);
        assert(smerge_from(cur, rest, gap) =~= whole);
    }
}

/// Presentation-time coalescing is idempotent over stored rows: rows already
/// merged per session at the same gap threshold pass through unchanged, only
/// ordered by start time across sessions.
pub proof fn lemma_session_merge_idempotent(rows: Seq<SessionInterval>, gap: i64)
    requires
        session_gap_separated(rows, gap),
    ensures
        spec_session_merge(rows, gap) == rows,
{
    if rows.len() > 0 {
        assert(seq![rows[0]] + rows.drop_first() =~= rows);
        lemma_smerge_from_identity(rows[0], rows.drop_first(), gap);
    }
}

/// Stable insertion by start time.
pub open spec fn insert_by_start(s: Seq<SessionInterval>, x: SessionInterval) -> Seq<
    SessionInterval,
>
    decreases s.len(),
{
    if s.len() == 0 {
        seq![x]
    } else if x.start < s[0].start {
        seq![x] + s
    } else {
        seq![s[0]] + insert_by_start(s.drop_first(), x)
    }
}

/// Stable sort of the coalesced intervals by start time.
pub open spec fn sort_by_start(s: Seq<SessionInterval>) -> Seq<SessionInterval>
    decreases s.len(),
{
    if s.len() == 0 {
        Seq::empty()
    } else {
        insert_by_start(sort_by_start(s.drop_last()), s.last())
    }
}

pub open spec fn rows_sorted_by_start(s: Seq<SessionInterval>) -> bool {
    forall|i: int, j: int| 0 <= i <= j < s.len() ==> s[i].start <= s[j].start
}

proof fn lemma_insert_by_start_at(s: Seq<SessionInterval>, x: SessionInterval, j: int)
    requires
        rows_sorted_by_start(s),
        0 <= j <= s.len(),
        forall|k: int| 0 <= k < j ==> s[k].start <= x.start,
        j < s.len() ==> s[j].start > x.start,
    ensures
        insert_by_start(s, x) == s.subrange(0, j).push(x) + s.subrange(j, s.len() as int),
    decreases s.len(),
{
    if s.len() == 0 {
        assert(insert_by_start(s, x) =~= s.subrange(0, j).push(x) + s.subrange(
            j,
            s.len() as int,
        ));
    } else if j == 0 {
        assert(seq![x] + s =~= s.subrange(0, 0).push(x) + s.subrange(0, s.len() as int));
    } else {
        let rest = s.drop_first();
        assert forall|k: int| 0 <= k < j - 1 implies rest[k].start <= x.start by {
            assert(rest[k] == s[k + 1]);
        }
        assert forall|a: int, b: int| 0 <= a <= b < rest.len() implies rest[a].start
            <= rest[b].start by {
            assert(rest[a] == s[a + 1] && rest[b] == s[b + 1]);
        }
        if j - 1 < rest.len() {
            assert(rest[j - 1] == s[j]);
        }
        lemma_insert_by_start_at(rest, x, j - 1);
        assert(seq![s[0]] + (rest.subrange(0, j - 1).push(x) + rest.subrange(
            j - 1,
            rest.len() as int,
        )) =~= s.subrange(0, j).push(x) + s.subrange(j, s.len() as int));
    }
}

proof fn lemma_insert_by_start_sorted(s: Seq<SessionInterval>, x: SessionInterval, j: int)
    requires
        rows_sorted_by_start(s),
        0 <= j <= s.len(),
        forall|k: int| 0 <= k < j ==> s[k].start <= x.start,
        j < s.len() ==> s[j].start > x.start,
    ensures
        rows_sorted_by_start(insert_by_start(s, x)),
{
    lemma_insert_by_start_at(s, x, j);
    let out = s.subrange(0, j).push(x) + s.subrange(j, s.len() as int);
    assert forall|a: int, b: int| 0 <= a <= b < out.len() implies out[a].start <= out[b].start by {
        let av = if a < j {
            s[a]
        } else if a == j {
            x
        } else {
            s[a - 1]
        };
        let bv = if b < j {
            s[b]
        } else if b == j {
            x
        } else {
            s[b - 1]
        };
        assert(out[a] == av);
        assert(out[b] == bv);
    }
    assert(rows_sorted_by_start(out));
}

/// Coalesce stored per-session intervals under `gap` and order the result by
/// start time for display.
pub fn coalesce_intervals(rows: &Vec<SessionInterval>, gap: i64) -> (r: Vec<SessionInterval>)
    requires
        gap >= 0,
        all_session_valid(rows@),
        lex_sorted(rows@),
    ensures
        r@ == sort_by_start(spec_session_merge(rows@, gap)),
        rows_sorted_by_start(r@),
{
    let ghost full = rows@;
    let mut merged: Vec<SessionInterval> = Vec::new();
    if rows.len() > 0 {
        let mut cur: SessionInterval = rows[0];
        let mut i: usize = 1;
        proof {
            assert(full.subrange(1, full.len() as int) =~= full.drop_first());
        }
        while i < rows.len()
            invariant
                1 <= i <= rows@.len(),
                rows@ == full,
                merged@ + smerge_from(cur, full.subrange(i as int, full.len() as int), gap)
                    == spec_session_merge(full, gap),
            decreases rows@.len() - i,
        {
            let ghost rest = full.subrange(i as int, full.len() as int);
            let nxt = rows[i];
            proof {
                assert(rest[0] == nxt);
                assert(rest.drop_first() =~= full.subrange(i + 1, full.len() as int));
            }
            if nxt.session == cur.session && (nxt.start as i128) - (cur.end as i128) <= gap
                as i128 {
                cur =
                SessionInterval {
                    session: cur.session,
                    start: cur.start,
                    end: if cur.end >= nxt.end {
                        cur.end
                    } else {
                        nxt.end
                    },
                };
            } else {
                proof {
                    assert((merged@ + smerge_from(cur, rest, gap)) =~= (merged@.push(cur)
                        + smerge_from(rest[0], rest.drop_first(), gap)));
                }
                merged.push(cur);
                cur = nxt;
            }
            i += 1;
        }
        proof {
            assert(full.subrange(i as int, full.len() as int) =~= Seq::<SessionInterval>::empty());
            assert((merged@ + seq![cur]) =~= merged@.push(cur));
        }
        merged.push(cur);
    }
    let ghost coalesced = merged@;
    proof {
        assert(merged@ == spec_session_merge(full, gap));
    }
    let mut out: Vec<SessionInterval> = Vec::new();
    let mut i: usize = 0;
    proof {
        assert(coalesced.subrange(0, 0) =~= Seq::<SessionInterval>::empty());
    }
    while i < merged.len()
        invariant
            i <= merged@.len(),
            merged@ == coalesced,
            out@ == sort_by_start(coalesced.subrange(0, i as int)),
            rows_sorted_by_start(out@),
        decreases merged@.len() - i,
    {
        let x = merged[i];
        let mut j: usize = 0;
        while j < out.len() && out[j].start <= x.start
            invariant
                j <= out@.len(),
                forall|k: int| 0 <= k < j ==> out@[k].start <= x.start,
            decreases out@.len() - j,
        {
            j += 1;
        }
        proof {
            lemma_insert_by_start_at(out@, x, j as int);
            lemma_insert_by_start_sorted(out@, x, j as int);
        }
        let ghost before = out@;
        out.insert(j, x);
        proof {
            assert(out@ =~= before.subrange(0, j as int).push(x) + before.subrange(
                j as int,
                before.len() as int,
            ));
            assert(coalesced.subrange(0, i + 1).drop_last() =~= coalesced.subrange(0, i as int));
            assert(coalesced.subrange(0, i + 1).last() == coalesced[i as int]);
        }
        i += 1;
    }
    proof {
        assert(coalesced.subrange(0, coalesced.len() as int) =~= coalesced);
    }
    out
}

} // verus!
