//! Time-bucketed aggregation: turning the raw request log into a
//! fixed-width historical graph.
//!
//! Bucket `i` (counting back from the present) covers the half-open-below,
//! closed-above interval `(now - width*(i+1), now - width*i]`; the most
//! recent bucket ends exactly at `now`. The timeline is emitted oldest
//! first, the buckets are contiguous — each one starts where the previous
//! ended — and the bucket counts of the request-total metric sum to the
//! count over the whole covered range.

use crate::store::RequestRow;
use crate::model::ReqView;
use vstd::arithmetic::mul::{lemma_mul_inequality, lemma_mul_nonnegative};
use vstd::prelude::*;

verus! {

/// One bucket of a usage graph: how many events (or distinct visitors) fell
/// in the window, and the window's bounds in epoch milliseconds.
pub struct Graphnode {
    pub amount: u64,
    pub timestamp_start: i64,
    pub timestamp_end: i64,
}

/// A whole usage graph: the buckets oldest-first, and a display title.
pub struct GraphView {
    pub timeline: Vec<Graphnode>,
    pub title: String,
}

/// The request log as the model sees it.
pub open spec fn log_view(rs: Seq<RequestRow>) -> Seq<ReqView> {
    Seq::new(rs.len(), |i: int| rs[i]@)
}

/// Whether a request row belongs to path `pid` and falls in the window
/// `(lo, hi]`.
pub open spec fn in_window(r: ReqView, pid: int, lo: int, hi: int) -> bool {
    r.pid == pid && lo < r.created_at <= hi
}

/// How many request rows of path `pid` fall in the window `(lo, hi]`.
pub open spec fn count_in_window(reqs: Seq<ReqView>, pid: int, lo: int, hi: int) -> nat
    decreases reqs.len(),
{
    if reqs.len() == 0 {
        0
    } else {
        count_in_window(reqs.drop_last(), pid, lo, hi) + if in_window(reqs.last(), pid, lo, hi) {
            1nat
        } else {
            0nat
        }
    }
}

/// Whether visitor `uid` has some request row of path `pid` in the window.
pub open spec fn uid_in_window(reqs: Seq<ReqView>, uid: int, pid: int, lo: int, hi: int) -> bool {
    exists|i: int|
        0 <= i < reqs.len() && in_window(#[trigger] reqs[i], pid, lo, hi) && reqs[i].uid == uid
}

/// How many distinct visitors have request rows of path `pid` in the window:
/// a row counts only when it is its visitor's first row inside the window.
pub open spec fn uniq_in_window(reqs: Seq<ReqView>, pid: int, lo: int, hi: int) -> nat
    decreases reqs.len(),
{
    if reqs.len() == 0 {
        0
    } else {
        uniq_in_window(reqs.drop_last(), pid, lo, hi) + if in_window(reqs.last(), pid, lo, hi)
            && !uid_in_window(reqs.drop_last(), reqs.last().uid, pid, lo, hi) {
            1nat
        } else {
            0nat
        }
    }
}

/// The window of bucket `k` of a timeline of `limit` buckets of width
/// `duration` ending at `now`, with bucket 0 the oldest: it covers
/// `(now - duration*(limit-k), now - duration*(limit-1-k)]`.
pub open spec fn bucket_lo(duration: int, limit: int, now: int, k: int) -> int {
    now - duration * (limit - k)
}

/// The upper (inclusive) bound of bucket `k`; see [`bucket_lo`].
pub open spec fn bucket_hi(duration: int, limit: int, now: int, k: int) -> int {
    now - duration * (limit - 1 - k)
}

/// Bucket `k` of a request-total timeline holds the right window bounds and
/// the number of the path's rows inside the window.
pub open spec fn total_bucket_ok(
    node: Graphnode,
    reqs: Seq<ReqView>,
    pid: int,
    duration: int,
    limit: int,
    now: int,
    k: int,
) -> bool {
    &&& node.timestamp_start == bucket_lo(duration, limit, now, k)
    &&& node.timestamp_end == bucket_hi(duration, limit, now, k)
    &&& node.amount == count_in_window(
        reqs,
        pid,
        bucket_lo(duration, limit, now, k),
        bucket_hi(duration, limit, now, k),
    )
}

/// Bucket `k` of a unique-visitor timeline holds the right window bounds and
/// the number of distinct visitors of the path inside the window.
pub open spec fn unique_bucket_ok(
    node: Graphnode,
    reqs: Seq<ReqView>,
    pid: int,
    duration: int,
    limit: int,
    now: int,
    k: int,
) -> bool {
    &&& node.timestamp_start == bucket_lo(duration, limit, now, k)
    &&& node.timestamp_end == bucket_hi(duration, limit, now, k)
    &&& node.amount == uniq_in_window(
        reqs,
        pid,
        bucket_lo(duration, limit, now, k),
        bucket_hi(duration, limit, now, k),
    )
}

/// The sum of the bucket counts of a timeline.
pub open spec fn timeline_sum(tl: Seq<Graphnode>) -> int
    decreases tl.len(),
{
    if tl.len() == 0 {
        0
    } else {
        timeline_sum(tl.drop_last()) + tl.last().amount
    }
}

/// An empty window holds nothing.
pub proof fn lemma_empty_window(reqs: Seq<ReqView>, pid: int, lo: int, hi: int)
    requires
        lo >= hi,
    ensures
        count_in_window(reqs, pid, lo, hi) == 0,
    decreases reqs.len(),
{
    if reqs.len() > 0 {
        lemma_empty_window(reqs.drop_last(), pid, lo, hi);
    }
}

/// Adjacent windows count without gap or overlap: the rows in `(lo, hi]`
/// are the rows in `(lo, mid]` plus the rows in `(mid, hi]`.
pub proof fn lemma_count_window_split(reqs: Seq<ReqView>, pid: int, lo: int, mid: int, hi: int)
    requires
        lo <= mid <= hi,
    ensures
        count_in_window(reqs, pid, lo, hi) == count_in_window(reqs, pid, lo, mid)
            + count_in_window(reqs, pid, mid, hi),
    decreases reqs.len(),
{
    if reqs.len() > 0 {
        lemma_count_window_split(reqs.drop_last(), pid, lo, mid, hi);
    }
}

/// A path that no request row mentions aggregates to zero in every window —
/// an unknown path yields an all-zero graph, not an error.
pub proof fn lemma_absent_path_zero(reqs: Seq<ReqView>, pid: int, lo: int, hi: int)
    requires
        forall|i: int| 0 <= i < reqs.len() ==> (#[trigger] reqs[i]).pid != pid,
    ensures
        count_in_window(reqs, pid, lo, hi) == 0,
        uniq_in_window(reqs, pid, lo, hi) == 0,
    decreases reqs.len(),
{
    if reqs.len() > 0 {
        lemma_absent_path_zero(reqs.drop_last(), pid, lo, hi);
    }
}

/// In a well-formed store, an identifier past the path table — a path no
/// request row can mention — aggregates to zero in every window: the whole
/// graph of an unknown path is zero, not an error.
pub proof fn lemma_unknown_path_zero(s: crate::model::StoreView, pid: int, lo: int, hi: int)
    requires
        crate::model::wf(s),
        pid >= s.paths.len(),
    ensures
        count_in_window(s.requests, pid, lo, hi) == 0,
        uniq_in_window(s.requests, pid, lo, hi) == 0,
{
    assert(forall|i: int| 0 <= i < s.requests.len() ==> (#[trigger] s.requests[i]).pid != pid);
    lemma_absent_path_zero(s.requests, pid, lo, hi);
}

/// The bounds the bucket windows need: with a positive width, every
/// product `duration * m` for `0 <= m <= limit` sits between zero and
/// `duration * limit`, and `limit` itself is no larger than that product.
proof fn lemma_window_arith(duration: int, limit: int, k: int)
    requires
        duration >= 1,
        0 <= k < limit,
    ensures
        0 <= duration * (limit - 1 - k) <= duration * limit,
        0 <= duration * (limit - k) <= duration * limit,
        limit <= duration * limit,
        duration * (limit - 1 - k) <= duration * (limit - k),
{
    lemma_mul_nonnegative(duration, limit - 1 - k);
    lemma_mul_nonnegative(duration, limit - k);
    lemma_mul_inequality(limit - 1 - k, limit, duration);
    lemma_mul_inequality(limit - k, limit, duration);
    lemma_mul_inequality(limit - 1 - k, limit - k, duration);
    assert(duration * (limit - k) == (limit - k) * duration) by (nonlinear_arith);
    assert(duration * (limit - 1 - k) == (limit - 1 - k) * duration) by (nonlinear_arith);
    assert(duration * limit == limit * duration) by (nonlinear_arith);
    assert(limit <= duration * limit) by (nonlinear_arith)
        requires
            duration >= 1,
            limit >= 0,
    ;
}

/// Count the rows of path `pid` whose timestamp lies in `(lo, hi]`.
fn count_window(reqs: &Vec<RequestRow>, pid: usize, lo: i64, hi: i64) -> (c: u64)
    ensures
        c == count_in_window(log_view(reqs@), pid as int, lo as int, hi as int),
{
    let n = reqs.len();
    let mut c: u64 = 0;
    let mut i: usize = 0;
    while i < n
        invariant
            i <= n,
            n == reqs@.len(),
            c == count_in_window(log_view(reqs@).take(i as int), pid as int, lo as int, hi as int),
            c <= i,
        decreases n - i,
    {
        let r = &reqs[i];
        proof {
            assert(log_view(reqs@).take(i as int + 1).drop_last() =~= log_view(reqs@).take(
                i as int,
            ));
            assert(log_view(reqs@).take(i as int + 1).last() == reqs@[i as int]@);
        }
        if r.pid == pid && lo < r.created_at && r.created_at <= hi {
            c = c + 1;
        }
        i += 1;
    }
    proof {
        assert(log_view(reqs@).take(n as int) =~= log_view(reqs@));
    }
    c
}

/// Count the distinct visitors with rows of path `pid` in `(lo, hi]`.
fn uniq_window(reqs: &Vec<RequestRow>, pid: usize, lo: i64, hi: i64) -> (c: u64)
    ensures
        c == uniq_in_window(log_view(reqs@), pid as int, lo as int, hi as int),
{
    let n = reqs.len();
    let mut c: u64 = 0;
    let mut i: usize = 0;
    while i < n
        invariant
            i <= n,
            n == reqs@.len(),
            c == uniq_in_window(log_view(reqs@).take(i as int), pid as int, lo as int, hi as int),
            c <= i,
        decreases n - i,
    {
        let r_pid = reqs[i].pid;
        let r_uid = reqs[i].uid;
        let r_at = reqs[i].created_at;
        proof {
            assert(log_view(reqs@).take(i as int + 1).drop_last() =~= log_view(reqs@).take(
                i as int,
            ));
            assert(log_view(reqs@).take(i as int + 1).last() == reqs@[i as int]@);
        }
        if r_pid == pid && lo < r_at && r_at <= hi {
            // Count this row only if no earlier row in the window already
            // belongs to the same visitor.
            let mut seen = false;
            let mut j: usize = 0;
            while j < i
                invariant
                    j <= i <= n,
                    n == reqs@.len(),
                    seen == exists|m: int|
                        0 <= m < j && in_window(
                            #[trigger] log_view(reqs@).take(i as int)[m],
                            pid as int,
                            lo as int,
                            hi as int,
                        ) && log_view(reqs@).take(i as int)[m].uid == r_uid as int,
                decreases i - j,
            {
                let e_pid = reqs[j].pid;
                let e_uid = reqs[j].uid;
                let e_at = reqs[j].created_at;
                if e_pid == pid && lo < e_at && e_at <= hi && e_uid == r_uid {
                    proof {
                        assert(log_view(reqs@).take(i as int)[j as int] == reqs@[j as int]@);
                    }
                    seen = true;
                }
                j += 1;
            }
            proof {
                if !seen && uid_in_window(
                    log_view(reqs@).take(i as int),
                    r_uid as int,
                    pid as int,
                    lo as int,
                    hi as int,
                ) {
                    let m = choose|m: int|
                        0 <= m < log_view(reqs@).take(i as int).len() && in_window(
                            #[trigger] log_view(reqs@).take(i as int)[m],
                            pid as int,
                            lo as int,
                            hi as int,
                        ) && log_view(reqs@).take(i as int)[m].uid == r_uid as int;
                }
            }
            if !seen {
                c = c + 1;
            }
        }
        i += 1;
    }
    proof {
        assert(log_view(reqs@).take(n as int) =~= log_view(reqs@));
    }
    c
}

/// Build a request-total timeline of `limit` contiguous buckets of width
/// `duration`, oldest first, the newest ending exactly at `current_time`.
pub fn graph_total_timeline(
    reqs: &Vec<RequestRow>,
    pid: usize,
    duration: i64,
    limit: usize,
    current_time: i64,
) -> (tl: Vec<Graphnode>)
    requires
        duration >= 1,
        duration * (limit as int) <= i64::MAX,
        current_time - duration * (limit as int) >= i64::MIN,
    ensures
        tl@.len() == limit,
        forall|k: int|
            0 <= k < limit - 1 ==> (#[trigger] tl@[k]).timestamp_end == tl@[k + 1].timestamp_start,
        forall|k: int|
            0 <= k < limit ==> total_bucket_ok(
                #[trigger] tl@[k],
                log_view(reqs@),
                pid as int,
                duration as int,
                limit as int,
                current_time as int,
                k,
            ),
        timeline_sum(tl@) == count_in_window(
            log_view(reqs@),
            pid as int,
            current_time - duration * (limit as int),
            current_time as int,
        ),
{
    let mut timeline: Vec<Graphnode> = Vec::new();
    let mut k: usize = 0;
    proof {
        lemma_mul_nonnegative(duration as int, limit as int);
        lemma_empty_window(
            log_view(reqs@),
            pid as int,
            current_time - duration * (limit as int),
            current_time - duration * (limit as int),
        );
    }
    while k < limit
        invariant
            k <= limit,
            duration >= 1,
            duration * (limit as int) <= i64::MAX,
            current_time - duration * (limit as int) >= i64::MIN,
            timeline@.len() == k,
            forall|k2: int|
                0 <= k2 < k ==> total_bucket_ok(
                    #[trigger] timeline@[k2],
                    log_view(reqs@),
                    pid as int,
                    duration as int,
                    limit as int,
                    current_time as int,
                    k2,
                ),
            timeline_sum(timeline@) == count_in_window(
                log_view(reqs@),
                pid as int,
                current_time - duration * (limit as int),
                bucket_lo(duration as int, limit as int, current_time as int, k as int),
            ),
        decreases limit - k,
    {
        proof {
            lemma_window_arith(duration as int, limit as int, k as int);
        }
        let i = (limit - 1 - k) as i64;
        let range_recent = current_time - duration * i;
        let range_oldest = current_time - duration * (i + 1);
        let amount = count_window(reqs, pid, range_oldest, range_recent);
        let ghost old_tl = timeline@;
        timeline.push(Graphnode { amount, timestamp_start: range_oldest, timestamp_end: range_recent });
        proof {
            assert(timeline@.drop_last() =~= old_tl);
            lemma_count_window_split(
                log_view(reqs@),
                pid as int,
                current_time - duration * (limit as int),
                range_oldest as int,
                range_recent as int,
            );
        }
        k += 1;
    }
    timeline
}

/// Build a unique-visitor timeline of `limit` contiguous buckets of width
/// `duration`, oldest first, the newest ending exactly at `current_time`.
pub fn graph_unique_timeline(
    reqs: &Vec<RequestRow>,
    pid: usize,
    duration: i64,
    limit: usize,
    current_time: i64,
) -> (tl: Vec<Graphnode>)
    requires
        duration >= 1,
        duration * (limit as int) <= i64::MAX,
        current_time - duration * (limit as int) >= i64::MIN,
    ensures
        tl@.len() == limit,
        forall|k: int|
            0 <= k < limit - 1 ==> (#[trigger] tl@[k]).timestamp_end == tl@[k + 1].timestamp_start,
        forall|k: int|
            0 <= k < limit ==> unique_bucket_ok(
                #[trigger] tl@[k],
                log_view(reqs@),
                pid as int,
                duration as int,
                limit as int,
                current_time as int,
                k,
            ),
{
    let mut timeline: Vec<Graphnode> = Vec::new();
    let mut k: usize = 0;
    while k < limit
        invariant
            k <= limit,
            duration >= 1,
            duration * (limit as int) <= i64::MAX,
            current_time - duration * (limit as int) >= i64::MIN,
            timeline@.len() == k,
            forall|k2: int|
                0 <= k2 < k ==> unique_bucket_ok(
                    #[trigger] timeline@[k2],
                    log_view(reqs@),
                    pid as int,
                    duration as int,
                    limit as int,
                    current_time as int,
                    k2,
                ),
        decreases limit - k,
    {
        proof {
            lemma_window_arith(duration as int, limit as int, k as int);
        }
        let i = (limit - 1 - k) as i64;
        let range_recent = current_time - duration * i;
        let range_oldest = current_time - duration * (i + 1);
        let amount = uniq_window(reqs, pid, range_oldest, range_recent);
        timeline.push(Graphnode { amount, timestamp_start: range_oldest, timestamp_end: range_recent });
        k += 1;
    }
    timeline
}

} // verus!
