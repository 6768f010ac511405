//! Coverage-interval merging: collapsing a sorted sequence of heartbeat
//! timestamps (or of already-merged intervals) into the minimal ordered list
//! of non-overlapping coverage intervals under a gap threshold.

use vstd::prelude::*;

verus! {

/// A closed span of unix-second timestamps during which a session was live.
#[derive(Clone, Copy, PartialEq, Eq, Structural, Debug)]
pub struct Interval {
    pub start: i64,
    pub end: i64,
}

pub open spec fn interval_valid(itv: Interval) -> bool {
    itv.start <= itv.end
}

pub open spec fn all_valid(s: Seq<Interval>) -> bool {
    forall|i: int| 0 <= i < s.len() ==> interval_valid(#[trigger] s[i])
}

/// Ordered by start time (nondecreasing).
pub open spec fn sorted_by_start(s: Seq<Interval>) -> bool {
    forall|i: int, j: int| 0 <= i <= j < s.len() ==> s[i].start <= s[j].start
}

/// Consecutive intervals are separated by strictly more than `gap`.
pub open spec fn gap_separated(s: Seq<Interval>, gap: i64) -> bool {
    forall|i: int| 0 <= i < s.len() - 1 ==> #[trigger] s[i].end + gap < s[i + 1].start
}

pub open spec fn max_i64(a: i64, b: i64) -> i64 {
    if a >= b {
        a
    } else {
        b
    }
}

/// The left-to-right fold that grows a current interval while the next input
/// starts within `gap` of its end, and closes it otherwise.
pub open spec fn merge_from(cur: Interval, rest: Seq<Interval>, gap: i64) -> Seq<Interval>
    decreases rest.len(),
{
    if rest.len() == 0 {
        seq![cur]
    } else {
        let nxt = rest[0];
        if nxt.start - cur.end <= gap {
            merge_from(
                Interval { start: cur.start, end: max_i64(cur.end, nxt.end) },
                rest.drop_first(),
                gap,
            )
        } else {
            seq![cur] + merge_from(nxt, rest.drop_first(), gap)
        }
    }
}

/// Merge a start-sorted sequence of valid intervals under a gap threshold.
pub open spec fn spec_merge(s: Seq<Interval>, gap: i64) -> Seq<Interval> {
    if s.len() == 0 {
        Seq::empty()
    } else {
        merge_from(s[0], s.drop_first(), gap)
    }
}

pub open spec fn points_to_intervals(points: Seq<i64>) -> Seq<Interval> {
    points.map_values(|p: i64| Interval { start: p, end: p })
}

/// An interval lies inside one of the intervals of `out`.
pub open spec fn covered_by(itv: Interval, out: Seq<Interval>) -> bool {
    exists|k: int|
        0 <= k < out.len() && out[k].start <= itv.start && itv.end <= out[k].end
}

/// `cur` starts no later than anything in `rest`.
pub open spec fn starts_no_later(cur: Interval, rest: Seq<Interval>) -> bool {
    forall|i: int| 0 <= i < rest.len() ==> cur.start <= #[trigger] rest[i].start
}

proof fn lemma_merge_from_shape(cur: Interval, rest: Seq<Interval>, gap: i64)
    requires
        gap >= 0,
        interval_valid(cur),
        all_valid(rest),
        sorted_by_start(rest),
        starts_no_later(cur, rest),
    ensures
        merge_from(cur, rest, gap).len() >= 1,
        merge_from(cur, rest, gap)[0].start == cur.start,
        merge_from(cur, rest, gap)[0].end >= cur.end,
        all_valid(merge_from(cur, rest, gap)),
        sorted_by_start(merge_from(cur, rest, gap)),
        gap_separated(merge_from(cur, rest, gap), gap),
    decreases rest.len(),
{
    if rest.len() == 0 {
    } else {
        let nxt = rest[0];
        let rest2 = rest.drop_first();
        assert(interval_valid(nxt));
        if nxt.start - cur.end <= gap {
            let merged = Interval { start: cur.start, end: max_i64(cur.end, nxt.end) };
            assert(starts_no_later(merged, rest2));
            lemma_merge_from_shape(merged, rest2, gap);
        } else {
            lemma_merge_from_shape(nxt, rest2, gap);
            let tail = merge_from(nxt, rest2, gap);
            let out = seq![cur] + tail;
            assert(out[0] == cur);
            assert forall|i: int| 0 <= i < out.len() implies interval_valid(#[trigger] out[i]) by {
                if i > 0 {
                    assert(out[i] == tail[i - 1]);
                }
            }
            assert forall|i: int, j: int| 0 <= i <= j < out.len() implies out[i].start
                <= out[j].start by {
                if i == 0 && j > 0 {
                    assert(out[j] == tail[j - 1]);
                    assert(tail[0].start <= tail[j - 1].start);
                } else if i > 0 {
                    assert(out[i] == tail[i - 1]);
                    assert(out[j] == tail[j - 1]);
                }
            }
            assert forall|i: int| 0 <= i < out.len() - 1 implies #[trigger] out[i].end + gap
                < out[i + 1].start by {
                if i == 0 {
                    assert(out[1] == tail[0]);
                } else {
                    assert(out[i] == tail[i - 1]);
                    assert(out[i + 1] == tail[i]);
                }
            }
        }
    }
}

/// A sequence already separated by more than `gap` merges to itself.
proof fn lemma_merge_from_separated_identity(cur: Interval, rest: Seq<Interval>, gap: i64)
    requires
        gap >= 0,
        interval_valid(cur),
        all_valid(rest),
        gap_separated(seq![cur] + rest, gap),
    ensures
        merge_from(cur, rest, gap) == seq![cur] + rest,
    decreases rest.len(),
{
    let whole = seq![cur] + rest;
    if rest.len() == 0 {
        assert(merge_from(cur, rest, gap) =~= whole);
    } else {
        let nxt = rest[0];
        let rest2 = rest.drop_first();
        assert(whole[0] == cur);
        assert(whole[1] == nxt);
        assert(whole[0].end + gap < whole[1].start);
        assert(!(nxt.start - cur.end <= gap));
        assert forall|i: int| 0 <= i < (seq![nxt] + rest2).len() - 1 implies #[trigger] (seq![nxt]
            + rest2)[i].end + gap < (seq![nxt] + rest2)[i + 1].start by {
            assert((seq![nxt] + rest2)[i] == whole[i + 1]);
            assert((seq![nxt] + rest2)[i + 1] == whole[i + 2]);
            assert(whole[i + 1].end + gap < whole[i + 2].start);
        }
        lemma_merge_from_separated_identity(nxt, rest2, gap);
        assert(merge_from(cur, rest, gap) =~= whole);
    }
}

/// Every input interval, and `cur`, is covered by some output interval; every
/// output start and end is the start or end of some input (or of `cur`).
proof fn lemma_merge_from_content(cur: Interval, rest: Seq<Interval>, gap: i64)
    requires
        gap >= 0,
        interval_valid(cur),
        all_valid(rest),
        sorted_by_start(rest),
        starts_no_later(cur, rest),
    ensures
        covered_by(cur, merge_from(cur, rest, gap)),
        forall|j: int|
            0 <= j < rest.len() ==> covered_by(#[trigger] rest[j], merge_from(cur, rest, gap)),
        forall|k: int|
            0 <= k < merge_from(cur, rest, gap).len() ==> (#[trigger] merge_from(
                cur,
                rest,
                gap,
            )[k].start == cur.start || exists|j: int|
                0 <= j < rest.len() && merge_from(cur, rest, gap)[k].start == rest[j].start),
        forall|k: int|
            0 <= k < merge_from(cur, rest, gap).len() ==> (#[trigger] merge_from(
                cur,
                rest,
                gap,
            )[k].end == cur.end || exists|j: int|
                0 <= j < rest.len() && merge_from(cur, rest, gap)[k].end == rest[j].end),
    decreases rest.len(),
{
    let out = merge_from(cur, rest, gap);
    if rest.len() == 0 {
        assert(out[0] == cur);
        assert(covered_by(cur, out));
    } else {
        let nxt = rest[0];
        let rest2 = rest.drop_first();
        if nxt.start - cur.end <= gap {
            let merged = Interval { start: cur.start, end: max_i64(cur.end, nxt.end) };
            lemma_merge_from_content(merged, rest2, gap);
            let k = choose|k: int|
                0 <= k < out.len() && out[k].start <= merged.start && merged.end <= out[k].end;
            assert(out[k].start <= cur.start && cur.end <= out[k].end);
            assert(covered_by(cur, out));
            assert(out[k].start <= nxt.start && nxt.end <= out[k].end);
            assert(covered_by(nxt, out));
            assert forall|j: int| 0 <= j < rest.len() implies covered_by(
                #[trigger] rest[j],
                out,
            ) by {
                if j > 0 {
                    assert(rest[j] == rest2[j - 1]);
                    assert(covered_by(rest2[j - 1], out));
                }
            }
            assert forall|k2: int| 0 <= k2 < out.len() implies (#[trigger] out[k2].start
                == cur.start || exists|j: int|
                0 <= j < rest.len() && out[k2].start == rest[j].start) by {
                if out[k2].start == merged.start {
                } else {
                    let j = choose|j: int| 0 <= j < rest2.len() && out[k2].start == rest2[j].start;
                    assert(rest[j + 1] == rest2[j]);
                    assert(0 <= j + 1 < rest.len() && out[k2].start == rest[j + 1].start);
                }
            }
            assert forall|k2: int| 0 <= k2 < out.len() implies (#[trigger] out[k2].end == cur.end
                || exists|j: int| 0 <= j < rest.len() && out[k2].end == rest[j].end) by {
                if out[k2].end == merged.end {
                    if merged.end == cur.end {
                    } else {
                        assert(merged.end == nxt.end);
                        assert(0 <= 0 < rest.len() && out[k2].end == rest[0].end);
                    }
                } else {
                    let j = choose|j: int| 0 <= j < rest2.len() && out[k2].end == rest2[j].end;
                    assert(rest[j + 1] == rest2[j]);
                    assert(0 <= j + 1 < rest.len() && out[k2].end == rest[j + 1].end);
                }
            }
        } else {
            lemma_merge_from_content(nxt, rest2, gap);
            let tail = merge_from(nxt, rest2, gap);
            assert(out == seq![cur] + tail);
            assert(out[0] == cur);
            assert(covered_by(cur, out));
            assert forall|j: int| 0 <= j < rest.len() implies covered_by(
                #[trigger] rest[j],
                out,
            ) by {
                let target = if j == 0 {
                    nxt
                } else {
                    rest2[j - 1]
                };
                assert(covered_by(target, tail));
                let k = choose|k: int|
                    0 <= k < tail.len() && tail[k].start <= target.start && target.end
                        <= tail[k].end;
                assert(out[k + 1] == tail[k]);
                assert(0 <= k + 1 < out.len() && out[k + 1].start <= rest[j].start && rest[j].end
                    <= out[k + 1].end);
            }
            assert forall|k2: int| 0 <= k2 < out.len() implies (#[trigger] out[k2].start
                == cur.start || exists|j: int|
                0 <= j < rest.len() && out[k2].start == rest[j].start) by {
                if k2 > 0 {
                    assert(out[k2] == tail[k2 - 1]);
                    if tail[k2 - 1].start == nxt.start {
                        assert(0 <= 0 < rest.len() && out[k2].start == rest[0].start);
                    } else {
                        let j = choose|j: int|
                            0 <= j < rest2.len() && tail[k2 - 1].start == rest2[j].start;
                        assert(rest[j + 1] == rest2[j]);
                        assert(0 <= j + 1 < rest.len() && out[k2].start == rest[j + 1].start);
                    }
                }
            }
            assert forall|k2: int| 0 <= k2 < out.len() implies (#[trigger] out[k2].end == cur.end
                || exists|j: int| 0 <= j < rest.len() && out[k2].end == rest[j].end) by {
                if k2 > 0 {
                    assert(out[k2] == tail[k2 - 1]);
                    if tail[k2 - 1].end == nxt.end {
                        assert(0 <= 0 < rest.len() && out[k2].end == rest[0].end);
                    } else {
                        let j = choose|j: int|
                            0 <= j < rest2.len() && tail[k2 - 1].end == rest2[j].end;
                        assert(rest[j + 1] == rest2[j]);
                        assert(0 <= j + 1 < rest.len() && out[k2].end == rest[j + 1].end);
                    }
                }
            }
        }
    }
}

/// The merged output is a list of valid intervals, ordered by start time,
/// pairwise non-overlapping, with consecutive intervals separated by strictly
/// more than `gap`.
pub proof fn lemma_merge_sorted_separated(s: Seq<Interval>, gap: i64)
    requires
        gap >= 0,
        all_valid(s),
        sorted_by_start(s),
    ensures
        all_valid(spec_merge(s, gap)),
        sorted_by_start(spec_merge(s, gap)),
        gap_separated(spec_merge(s, gap), gap),
        s.len() == 0 ==> spec_merge(s, gap).len() == 0,
        s.len() > 0 ==> spec_merge(s, gap).len() >= 1,
{
    if s.len() > 0 {
        lemma_merge_from_shape(s[0], s.drop_first(), gap);
    }
}

/// Merging is idempotent: merging the merge output again with the same gap
/// threshold yields the same intervals.
pub proof fn lemma_merge_idempotent(s: Seq<Interval>, gap: i64)
    requires
        gap >= 0,
        all_valid(s),
        sorted_by_start(s),
    ensures
        spec_merge(spec_merge(s, gap), gap) == spec_merge(s, gap),
{
    lemma_merge_sorted_separated(s, gap);
    let out = spec_merge(s, gap);
    if out.len() > 0 {
        assert(seq![out[0]] + out.drop_first() =~= out);
        lemma_merge_from_separated_identity(out[0], out.drop_first(), gap);
    }
}

/// No data loss: every input interval lies inside some output interval.
pub proof fn lemma_merge_covers(s: Seq<Interval>, gap: i64)
    requires
        gap >= 0,
        all_valid(s),
        sorted_by_start(s),
    ensures
        forall|j: int| 0 <= j < s.len() ==> covered_by(#[trigger] s[j], spec_merge(s, gap)),
{
    if s.len() > 0 {
        let rest = s.drop_first();
        lemma_merge_from_content(s[0], rest, gap);
        let out = spec_merge(s, gap);
        assert forall|j: int| 0 <= j < s.len() implies covered_by(#[trigger] s[j], out) by {
            if j > 0 {
                assert(s[j] == rest[j - 1]);
                assert(covered_by(rest[j - 1], out));
            }
        }
    }
}

/// The merger invents nothing: every output interval's start is the start of
/// some input interval, and every output interval's end is the end of one.
pub proof fn lemma_merge_endpoints_from_inputs(s: Seq<Interval>, gap: i64)
    requires
        gap >= 0,
        all_valid(s),
        sorted_by_start(s),
    ensures
        forall|k: int|
            0 <= k < spec_merge(s, gap).len() ==> exists|j: int|
                0 <= j < s.len() && #[trigger] spec_merge(s, gap)[k].start == s[j].start,
        forall|k: int|
            0 <= k < spec_merge(s, gap).len() ==> exists|j: int|
                0 <= j < s.len() && #[trigger] spec_merge(s, gap)[k].end == s[j].end,
{
    if s.len() > 0 {
        let rest = s.drop_first();
        lemma_merge_from_content(s[0], rest, gap);
        let out = spec_merge(s, gap);
        assert forall|k: int| 0 <= k < out.len() implies exists|j: int|
            0 <= j < s.len() && #[trigger] out[k].start == s[j].start by {
            if out[k].start == s[0].start {
                assert(0 <= 0 < s.len() && out[k].start == s[0].start);
            } else {
                let j = choose|j: int| 0 <= j < rest.len() && out[k].start == rest[j].start;
                assert(s[j + 1] == rest[j]);
                assert(0 <= j + 1 < s.len() && out[k].start == s[j + 1].start);
            }
        }
        assert forall|k: int| 0 <= k < out.len() implies exists|j: int|
            0 <= j < s.len() && #[trigger] out[k].end == s[j].end by {
            if out[k].end == s[0].end {
                assert(0 <= 0 < s.len() && out[k].end == s[0].end);
            } else {
                let j = choose|j: int| 0 <= j < rest.len() && out[k].end == rest[j].end;
                assert(s[j + 1] == rest[j]);
                assert(0 <= j + 1 < s.len() && out[k].end == s[j + 1].end);
            }
        }
    }
}

proof fn lemma_compose_from(cur: Interval, rest: Seq<Interval>, g1: i64, g2: i64)
    requires
        0 <= g1 <= g2,
        interval_valid(cur),
        all_valid(rest),
        sorted_by_start(rest),
        starts_no_later(cur, rest),
    ensures
        spec_merge(merge_from(cur, rest, g1), g2) == merge_from(cur, rest, g2),
    decreases rest.len(), 0int,
{
    if rest.len() == 0 {
        assert(merge_from(cur, rest, g1) == seq![cur]);
        assert(seq![cur].drop_first() =~= Seq::<Interval>::empty());
        assert(spec_merge(seq![cur], g2) == merge_from(cur, Seq::<Interval>::empty(), g2));
    } else {
        let nxt = rest[0];
        let rest2 = rest.drop_first();
        assert(interval_valid(nxt));
        assert forall|k: int| 0 <= k < rest2.len() implies interval_valid(#[trigger] rest2[k])
            && nxt.start <= rest2[k].start by {
            assert(rest2[k] == rest[k + 1]);
        }
        assert forall|a: int, b: int| 0 <= a <= b < rest2.len() implies rest2[a].start
            <= rest2[b].start by {
            assert(rest2[a] == rest[a + 1] && rest2[b] == rest[b + 1]);
        }
        if nxt.start - cur.end <= g1 {
            let merged = Interval { start: cur.start, end: max_i64(cur.end, nxt.end) };
            assert(starts_no_later(merged, rest2));
            lemma_compose_from(merged, rest2, g1, g2);
            assert(merge_from(cur, rest, g2) == merge_from(merged, rest2, g2));
        } else {
            let t = merge_from(nxt, rest2, g1);
            lemma_merge_from_shape(nxt, rest2, g1);
            assert(merge_from(cur, rest, g1) == seq![cur] + t);
            assert((seq![cur] + t)[0] == cur);
            assert((seq![cur] + t).drop_first() =~= t);
            assert(spec_merge(seq![cur] + t, g2) == merge_from(cur, t, g2));
            assert(t[0].start == nxt.start);
            if nxt.start - cur.end <= g2 {
                lemma_compose_absorb(cur, nxt, rest2, g1, g2);
                assert(merge_from(cur, t, g2) == merge_from(
                    Interval { start: cur.start, end: max_i64(cur.end, t[0].end) },
                    t.drop_first(),
                    g2,
                ));
                assert(merge_from(cur, rest, g2) == merge_from(
                    Interval { start: cur.start, end: max_i64(cur.end, nxt.end) },
                    rest2,
                    g2,
                ));
            } else {
                lemma_compose_from(nxt, rest2, g1, g2);
                assert(t.len() >= 1);
                assert(merge_from(cur, t, g2) == seq![cur] + merge_from(
                    t[0],
                    t.drop_first(),
                    g2,
                ));
                assert(merge_from(t[0], t.drop_first(), g2) == spec_merge(t, g2));
                assert(merge_from(cur, rest, g2) == seq![cur] + merge_from(nxt, rest2, g2));
            }
        }
    }
}

proof fn lemma_compose_absorb(outer: Interval, nxt: Interval, rest: Seq<Interval>, g1: i64, g2: i64)
    requires
        0 <= g1 <= g2,
        interval_valid(outer),
        interval_valid(nxt),
        all_valid(rest),
        sorted_by_start(rest),
        starts_no_later(nxt, rest),
        outer.start <= nxt.start,
        nxt.start - outer.end <= g2,
    ensures
        ({
            let t = merge_from(nxt, rest, g1);
            merge_from(
                Interval { start: outer.start, end: max_i64(outer.end, t[0].end) },
                t.drop_first(),
                g2,
            ) == merge_from(
                Interval { start: outer.start, end: max_i64(outer.end, nxt.end) },
                rest,
                g2,
            )
        }),
    decreases rest.len(), 1int,
{
    let t = merge_from(nxt, rest, g1);
    let absorbed = Interval { start: outer.start, end: max_i64(outer.end, nxt.end) };
    if rest.len() == 0 {
        assert(t == seq![nxt]);
        assert(t[0] == nxt);
        assert(t.drop_first() =~= Seq::<Interval>::empty());
    } else {
        let m = rest[0];
        let rest2 = rest.drop_first();
        assert(interval_valid(m));
        assert forall|k: int| 0 <= k < rest2.len() implies interval_valid(#[trigger] rest2[k])
            && m.start <= rest2[k].start by {
            assert(rest2[k] == rest[k + 1]);
        }
        assert forall|a: int, b: int| 0 <= a <= b < rest2.len() implies rest2[a].start
            <= rest2[b].start by {
            assert(rest2[a] == rest[a + 1] && rest2[b] == rest[b + 1]);
        }
        if m.start - nxt.end <= g1 {
            let nxt2 = Interval { start: nxt.start, end: max_i64(nxt.end, m.end) };
            assert(t == merge_from(nxt2, rest2, g1));
            lemma_compose_absorb(outer, nxt2, rest2, g1, g2);
            assert(m.start - absorbed.end <= g2);
            assert(merge_from(absorbed, rest, g2) == merge_from(
                Interval { start: absorbed.start, end: max_i64(absorbed.end, m.end) },
                rest2,
                g2,
            ));
            assert(Interval { start: absorbed.start, end: max_i64(absorbed.end, m.end) }
                == Interval { start: outer.start, end: max_i64(outer.end, nxt2.end) });
        } else {
            let t2 = merge_from(m, rest2, g1);
            lemma_merge_from_shape(m, rest2, g1);
            assert(t == seq![nxt] + t2);
            assert(t[0] == nxt);
            assert(t.drop_first() =~= t2);
            assert(t2[0].start == m.start);
            let lhs_cur = Interval { start: outer.start, end: max_i64(outer.end, t[0].end) };
            assert(lhs_cur == absorbed);
            if m.start - absorbed.end <= g2 {
                lemma_compose_absorb(absorbed, m, rest2, g1, g2);
                assert(merge_from(absorbed, t2, g2) == merge_from(
                    Interval { start: absorbed.start, end: max_i64(absorbed.end, t2[0].end) },
                    t2.drop_first(),
                    g2,
                ));
                assert(merge_from(absorbed, rest, g2) == merge_from(
                    Interval { start: absorbed.start, end: max_i64(absorbed.end, m.end) },
                    rest2,
                    g2,
                ));
            } else {
                lemma_compose_from(m, rest2, g1, g2);
                assert(t2.len() >= 1);
                assert(merge_from(absorbed, t2, g2) == seq![absorbed] + merge_from(
                    t2[0],
                    t2.drop_first(),
                    g2,
                ));
                assert(merge_from(t2[0], t2.drop_first(), g2) == spec_merge(t2, g2));
                assert(merge_from(absorbed, rest, g2) == seq![absorbed] + merge_from(
                    m,
                    rest2,
                    g2,
                ));
            }
        }
    }
}

/// The two merge passes compose: coalescing a first pass's output under any
/// gap threshold at least as large as the first yields exactly what merging
/// the raw inputs directly under the larger threshold yields.
pub proof fn lemma_merge_composes(s: Seq<Interval>, g1: i64, g2: i64)
    requires
        0 <= g1 <= g2,
        all_valid(s),
        sorted_by_start(s),
    ensures
        spec_merge(spec_merge(s, g1), g2) == spec_merge(s, g2),
{
    if s.len() > 0 {
        lemma_compose_from(s[0], s.drop_first(), g1, g2);
    }
}

/// Merge a start-sorted list of valid intervals under `gap`.
pub fn merge_intervals(itvs: &Vec<Interval>, gap: i64) -> (r: Vec<Interval>)
    requires
        gap >= 0,
        all_valid(itvs@),
        sorted_by_start(itvs@),
    ensures
        r@ == spec_merge(itvs@, gap),
        all_valid(r@),
        sorted_by_start(r@),
        gap_separated(r@, gap),
{
    proof {
        lemma_merge_sorted_separated(itvs@, gap);
    }
    let ghost full = itvs@;
    let mut out: Vec<Interval> = Vec::new();
    if itvs.len() == 0 {
        return out;
    }
    let mut cur: Interval = itvs[0];
    let mut i: usize = 1;
    proof {
        assert(full.subrange(1, full.len() as int) =~= full.drop_first());
    }
    while i < itvs.len()
        invariant
            1 <= i <= itvs.len(),
            itvs@ == full,
            out@ + merge_from(cur, full.subrange(i as int, full.len() as int), gap) == spec_merge(
                full,
                gap,
            ),
        decreases itvs.len() - i,
    {
        let ghost rest = full.subrange(i as int, full.len() as int);
        let nxt = itvs[i];
        proof {
            assert(rest[0] == nxt);
            assert(rest.drop_first() =~= full.subrange(i + 1, full.len() as int));
        }
        if (nxt.start as i128) - (cur.end as i128) <= gap as i128 {
            cur =
            Interval {
                start: cur.start,
                end: if cur.end >= nxt.end {
                    cur.end
                } else {
                    nxt.end
                },
            };
        } else {
            proof {
                assert(merge_from(cur, rest, gap) == seq![cur] + merge_from(
                    rest[0],
                    rest.drop_first(),
                    gap,
                ));
                assert((out@ + merge_from(cur, rest, gap)) =~= (out@.push(cur) + merge_from(
                    rest[0],
                    rest.drop_first(),
                    gap,
                )));
            }
            out.push(cur);
            cur = nxt;
        }
        i += 1;
    }
    proof {
        assert(full.subrange(i as int, full.len() as int) =~= Seq::<Interval>::empty());
        assert((out@ + seq![cur]) =~= out@.push(cur));
    }
    out.push(cur);
    out
}

pub open spec fn sorted_points(points: Seq<i64>) -> bool {
    forall|i: int, j: int| 0 <= i <= j < points.len() ==> points[i] <= points[j]
}

/// Merge a sorted list of heartbeat timestamps into coverage intervals: any
/// two points within `gap` of each other end up in the same interval.
pub fn merge_points(points: &Vec<i64>, gap: i64) -> (r: Vec<Interval>)
    requires
        gap >= 0,
        sorted_points(points@),
    ensures
        r@ == spec_merge(points_to_intervals(points@), gap),
        all_valid(r@),
        sorted_by_start(r@),
        gap_separated(r@, gap),
{
    let mut itvs: Vec<Interval> = Vec::new();
    let mut i: usize = 0;
    while i < points.len()
        invariant
            0 <= i <= points.len(),
            itvs@ == points_to_intervals(points@.subrange(0, i as int)),
        decreases points.len() - i,
    {
        let p = points[i];
        itvs.push(Interval { start: p, end: p });
        proof {
            assert(itvs@ =~= points_to_intervals(points@.subrange(0, i + 1)));
        }
        i += 1;
    }
    proof {
        assert(points@.subrange(0, points@.len() as int) =~= points@);
        assert(all_valid(itvs@));
        assert forall|a: int, b: int| 0 <= a <= b < itvs@.len() implies itvs@[a].start
            <= itvs@[b].start by {
            assert(points@[a] <= points@[b]);
        }
    }
    merge_intervals(&itvs, gap)
}

} // verus!
