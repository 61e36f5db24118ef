//! The mathematical model of the analytics store.
//!
//! The store holds three relations: visitors (pseudonymous identity tokens,
//! identified by their index), paths (one row per distinct path, carrying two
//! derived counters), and an append-only log of request events. The counters
//! on a path row are a cache of quantities derived from the request log:
//! `total_requests` is the number of log rows for that path, and
//! `unique_visitors` is the number of distinct visitors among them. The
//! well-formedness predicate [`wf`] pins both down, and [`record_spec`] is
//! the atomic transition that every recorded visit performs.

use vstd::prelude::*;

verus! {

/// One request event: which visitor, which path, and when (epoch
/// milliseconds).
#[verifier::ext_equal]
pub ghost struct ReqView {
    pub uid: int,
    pub pid: int,
    pub created_at: int,
}

/// One path row: the path string and the two derived counters.
#[verifier::ext_equal]
pub ghost struct PathSum {
    pub path: Seq<char>,
    pub total_requests: nat,
    pub unique_visitors: nat,
}

/// The whole store. A visitor is identified by its index in `visitors`, a
/// path by its index in `paths`.
#[verifier::ext_equal]
pub ghost struct StoreView {
    pub visitors: Seq<Seq<char>>,
    pub paths: Seq<PathSum>,
    pub requests: Seq<ReqView>,
}

/// The first index whose entry equals `h`, or `vs.len()` when no entry does.
/// That is exactly the identifier a resolve-or-create step assigns: an
/// existing row keeps its index, a missing row is appended at `vs.len()`.
pub open spec fn find_str(vs: Seq<Seq<char>>, h: Seq<char>) -> int
    decreases vs.len(),
{
    if vs.len() == 0 {
        0
    } else if vs[0] == h {
        0
    } else {
        1 + find_str(vs.drop_first(), h)
    }
}

/// The first index whose path string equals `p`, or `ps.len()`.
pub open spec fn find_path(ps: Seq<PathSum>, p: Seq<char>) -> int
    decreases ps.len(),
{
    if ps.len() == 0 {
        0
    } else if ps[0].path == p {
        0
    } else {
        1 + find_path(ps.drop_first(), p)
    }
}

/// How many request rows belong to path `pid`.
pub open spec fn req_count(reqs: Seq<ReqView>, pid: int) -> nat
    decreases reqs.len(),
{
    if reqs.len() == 0 {
        0
    } else {
        req_count(reqs.drop_last(), pid) + if reqs.last().pid == pid {
            1nat
        } else {
            0nat
        }
    }
}

/// Whether some request row pairs visitor `uid` with path `pid`.
pub open spec fn has_pair(reqs: Seq<ReqView>, uid: int, pid: int) -> bool {
    exists|i: int| 0 <= i < reqs.len() && (#[trigger] reqs[i]).uid == uid && reqs[i].pid == pid
}

/// How many distinct visitors appear among the request rows of path `pid`:
/// each row counts only when it is the first row of its `(uid, pid)` pair.
pub open spec fn uniq_count(reqs: Seq<ReqView>, pid: int) -> nat
    decreases reqs.len(),
{
    if reqs.len() == 0 {
        0
    } else {
        uniq_count(reqs.drop_last(), pid) + if reqs.last().pid == pid && !has_pair(
            reqs.drop_last(),
            reqs.last().uid,
            pid,
        ) {
            1nat
        } else {
            0nat
        }
    }
}

/// Well-formedness: identity tokens and path strings are unique, every
/// request row points at an existing visitor and path, and each path row's
/// counters equal the quantities the request log derives.
pub open spec fn wf(s: StoreView) -> bool {
    &&& forall|i: int, j: int|
        0 <= i < j < s.visitors.len() ==> #[trigger] s.visitors[i] != #[trigger] s.visitors[j]
    &&& forall|i: int, j: int|
        0 <= i < j < s.paths.len() ==> (#[trigger] s.paths[i]).path != (#[trigger] s.paths[j]).path
    &&& forall|i: int|
        0 <= i < s.requests.len() ==> 0 <= (#[trigger] s.requests[i]).uid < s.visitors.len()
    &&& forall|i: int|
        0 <= i < s.requests.len() ==> 0 <= (#[trigger] s.requests[i]).pid < s.paths.len()
    &&& forall|k: int|
        0 <= k < s.paths.len() ==> (#[trigger] s.paths[k]).total_requests == req_count(
            s.requests,
            k,
        )
    &&& forall|k: int|
        0 <= k < s.paths.len() ==> (#[trigger] s.paths[k]).unique_visitors == uniq_count(
            s.requests,
            k,
        )
}

/// The atomic transition of one recorded visit: resolve or create the
/// visitor row for `h`, resolve or create the path row for `p`, bump
/// `unique_visitors` exactly when no prior row pairs this visitor with this
/// path, bump `total_requests` unconditionally, and append the request row.
pub open spec fn record_spec(s: StoreView, h: Seq<char>, p: Seq<char>, t: int) -> StoreView {
    let uid = find_str(s.visitors, h);
    let visitors2 = if uid < s.visitors.len() {
        s.visitors
    } else {
        s.visitors.push(h)
    };
    let pid = find_path(s.paths, p);
    let paths2 = if pid < s.paths.len() {
        s.paths
    } else {
        s.paths.push(PathSum { path: p, total_requests: 0, unique_visitors: 0 })
    };
    let first_visit = !has_pair(s.requests, uid, pid);
    let row = paths2[pid];
    let paths3 = paths2.update(
        pid,
        PathSum {
            path: row.path,
            total_requests: row.total_requests + 1,
            unique_visitors: row.unique_visitors + if first_visit {
                1nat
            } else {
                0nat
            },
        },
    );
    StoreView {
        visitors: visitors2,
        paths: paths3,
        requests: s.requests.push(ReqView { uid, pid, created_at: t }),
    }
}

/// The running total of path `p`, or zero when the path has no row yet.
pub open spec fn path_total(s: StoreView, p: Seq<char>) -> nat {
    let k = find_path(s.paths, p);
    if k < s.paths.len() {
        s.paths[k].total_requests
    } else {
        0
    }
}

/// The unique-visitor counter of path `p`, or zero when the path has no row.
pub open spec fn path_unique(s: StoreView, p: Seq<char>) -> nat {
    let k = find_path(s.paths, p);
    if k < s.paths.len() {
        s.paths[k].unique_visitors
    } else {
        0
    }
}

/// Whether the identity behind token `h` has ever been recorded visiting
/// path `p`. In a well-formed store this is false whenever either row is
/// missing, since `find_str`/`find_path` then sit past every request row.
pub open spec fn visited(s: StoreView, h: Seq<char>, p: Seq<char>) -> bool {
    has_pair(s.requests, find_str(s.visitors, h), find_path(s.paths, p))
}

/// `find_str` returns the first matching index, or the length when nothing
/// matches.
pub proof fn lemma_find_str_props(vs: Seq<Seq<char>>, h: Seq<char>)
    ensures
        0 <= find_str(vs, h) <= vs.len(),
        find_str(vs, h) < vs.len() ==> vs[find_str(vs, h)] == h,
        forall|j: int| 0 <= j < find_str(vs, h) ==> vs[j] != h,
    decreases vs.len(),
{
    if vs.len() > 0 && vs[0] != h {
        lemma_find_str_props(vs.drop_first(), h);
        assert(forall|j: int| 1 <= j < vs.len() ==> vs[j] == vs.drop_first()[j - 1]);
    }
}

/// Appending an entry moves the miss position one further and leaves a hit
/// position alone.
pub proof fn lemma_find_str_push(vs: Seq<Seq<char>>, x: Seq<char>, h: Seq<char>)
    ensures
        find_str(vs.push(x), h) == if find_str(vs, h) < vs.len() {
            find_str(vs, h)
        } else if x == h {
            vs.len() as int
        } else {
            vs.len() as int + 1
        },
    decreases vs.len(),
{
    lemma_find_str_props(vs, h);
    if vs.len() == 0 {
        assert(vs.push(x)[0] == x);
        assert(vs.push(x).drop_first() =~= Seq::<Seq<char>>::empty());
        assert(find_str(Seq::<Seq<char>>::empty(), h) == 0);
        if x != h {
            assert(find_str(vs.push(x), h) == 1 + find_str(vs.push(x).drop_first(), h));
        }
    } else if vs[0] != h {
        assert(vs.push(x)[0] == vs[0]);
        assert(vs.push(x).drop_first() =~= vs.drop_first().push(x));
        lemma_find_str_push(vs.drop_first(), x, h);
        assert(find_str(vs.push(x), h) == 1 + find_str(vs.drop_first().push(x), h));
        assert(find_str(vs, h) == 1 + find_str(vs.drop_first(), h));
    } else {
        assert(vs.push(x)[0] == vs[0]);
    }
}

/// `find_path` returns the first index with a matching path string, or the
/// length when nothing matches.
pub proof fn lemma_find_path_props(ps: Seq<PathSum>, p: Seq<char>)
    ensures
        0 <= find_path(ps, p) <= ps.len(),
        find_path(ps, p) < ps.len() ==> ps[find_path(ps, p)].path == p,
        forall|j: int| 0 <= j < find_path(ps, p) ==> (#[trigger] ps[j]).path != p,
    decreases ps.len(),
{
    if ps.len() > 0 && ps[0].path != p {
        lemma_find_path_props(ps.drop_first(), p);
        assert(forall|j: int| 1 <= j < ps.len() ==> ps[j] == ps.drop_first()[j - 1]);
    }
}

/// `find_path` only looks at the path strings, so it is unmoved by any
/// change that keeps them: two row sequences with pointwise equal paths
/// resolve every query alike.
pub proof fn lemma_find_path_same_strings(ps1: Seq<PathSum>, ps2: Seq<PathSum>, p: Seq<char>)
    requires
        ps1.len() == ps2.len(),
        forall|i: int| 0 <= i < ps1.len() ==> (#[trigger] ps1[i]).path == ps2[i].path,
    ensures
        find_path(ps1, p) == find_path(ps2, p),
    decreases ps1.len(),
{
    if ps1.len() > 0 {
        assert(forall|i: int|
            0 <= i < ps1.len() - 1 ==> (#[trigger] ps1.drop_first()[i]).path
                == ps2.drop_first()[i].path);
        lemma_find_path_same_strings(ps1.drop_first(), ps2.drop_first(), p);
    }
}

/// Appending a row moves the miss position one further and leaves a hit
/// position alone.
pub proof fn lemma_find_path_push(ps: Seq<PathSum>, x: PathSum, p: Seq<char>)
    ensures
        find_path(ps.push(x), p) == if find_path(ps, p) < ps.len() {
            find_path(ps, p)
        } else if x.path == p {
            ps.len() as int
        } else {
            ps.len() as int + 1
        },
    decreases ps.len(),
{
    lemma_find_path_props(ps, p);
    if ps.len() == 0 {
        assert(ps.push(x)[0] == x);
        assert(ps.push(x).drop_first() =~= Seq::<PathSum>::empty());
        assert(find_path(Seq::<PathSum>::empty(), p) == 0);
        if x.path != p {
            assert(find_path(ps.push(x), p) == 1 + find_path(ps.push(x).drop_first(), p));
        }
    } else if ps[0].path != p {
        assert(ps.push(x)[0] == ps[0]);
        assert(ps.push(x).drop_first() =~= ps.drop_first().push(x));
        lemma_find_path_push(ps.drop_first(), x, p);
        assert(find_path(ps.push(x), p) == 1 + find_path(ps.drop_first().push(x), p));
        assert(find_path(ps, p) == 1 + find_path(ps.drop_first(), p));
    } else {
        assert(ps.push(x)[0] == ps[0]);
    }
}

/// Both counters are bounded by the length of the log, and the number of
/// distinct visitors never exceeds the number of rows.
pub proof fn lemma_counts_le(reqs: Seq<ReqView>, pid: int)
    ensures
        uniq_count(reqs, pid) <= req_count(reqs, pid) <= reqs.len(),
    decreases reqs.len(),
{
    if reqs.len() > 0 {
        lemma_counts_le(reqs.drop_last(), pid);
    }
}

/// How one appended row changes the totals: it raises `req_count` of its own
/// path by one, raises `uniq_count` exactly when its pair is new, and leaves
/// every other path's counts alone. Membership of a pair grows by just that
/// row's pair.
pub proof fn lemma_counts_push(reqs: Seq<ReqView>, r: ReqView, pid: int, uid: int)
    ensures
        req_count(reqs.push(r), pid) == req_count(reqs, pid) + if r.pid == pid {
            1nat
        } else {
            0nat
        },
        uniq_count(reqs.push(r), pid) == uniq_count(reqs, pid) + if r.pid == pid && !has_pair(
            reqs,
            r.uid,
            pid,
        ) {
            1nat
        } else {
            0nat
        },
        has_pair(reqs.push(r), uid, pid) == (has_pair(reqs, uid, pid) || (r.uid == uid && r.pid
            == pid)),
{
    assert(reqs.push(r).drop_last() =~= reqs);
    assert(reqs.push(r).last() == r);
    if has_pair(reqs, uid, pid) {
        let i = choose|i: int|
            0 <= i < reqs.len() && (#[trigger] reqs[i]).uid == uid && reqs[i].pid == pid;
        assert(reqs.push(r)[i].uid == uid && reqs.push(r)[i].pid == pid);
    }
    if r.uid == uid && r.pid == pid {
        assert(reqs.push(r)[reqs.len() as int].uid == uid);
    }
    if has_pair(reqs.push(r), uid, pid) && !(r.uid == uid && r.pid == pid) {
        let i = choose|i: int|
            0 <= i < reqs.push(r).len() && (#[trigger] reqs.push(r)[i]).uid == uid && reqs.push(
                r,
            )[i].pid == pid;
        assert(reqs[i].uid == uid && reqs[i].pid == pid);
    }
}

/// What one recorded visit does to a well-formed store: well-formedness is
/// kept, the recorded path's total rises by exactly one, its unique-visitor
/// counter rises by one exactly when this identity had never visited it, and
/// every other path's counters — and every other pair's visited-status —
/// stay as they were.
pub proof fn lemma_record_step(s: StoreView, h: Seq<char>, p: Seq<char>, t: int)
    requires
        wf(s),
    ensures
        wf(record_spec(s, h, p, t)),
        record_spec(s, h, p, t).requests.len() == s.requests.len() + 1,
        path_total(record_spec(s, h, p, t), p) == path_total(s, p) + 1,
        path_unique(record_spec(s, h, p, t), p) == path_unique(s, p) + if visited(s, h, p) {
            0nat
        } else {
            1nat
        },
        forall|q: Seq<char>|
            q != p ==> #[trigger] path_total(record_spec(s, h, p, t), q) == path_total(s, q),
        forall|q: Seq<char>|
            q != p ==> #[trigger] path_unique(record_spec(s, h, p, t), q) == path_unique(s, q),
        forall|h2: Seq<char>|
            #[trigger] visited(record_spec(s, h, p, t), h2, p) == (visited(s, h2, p) || h2 == h),
        forall|h2: Seq<char>, q: Seq<char>|
            q != p ==> #[trigger] visited(record_spec(s, h, p, t), h2, q) == visited(s, h2, q),
{
    let r = record_spec(s, h, p, t);
    let uid = find_str(s.visitors, h);
    let pid = find_path(s.paths, p);
    lemma_find_str_props(s.visitors, h);
    lemma_find_path_props(s.paths, p);
    let newrow = PathSum { path: p, total_requests: 0nat, unique_visitors: 0nat };
    let paths2 = if pid < s.paths.len() {
        s.paths
    } else {
        s.paths.push(newrow)
    };
    let newreq = ReqView { uid, pid, created_at: t };
    let first_visit = !has_pair(s.requests, uid, pid);

    // The resolved identifiers point at rows that carry the resolved keys.
    assert(0 <= uid < r.visitors.len() && r.visitors[uid] == h);
    assert(0 <= pid < paths2.len() && paths2[pid].path == p);
    assert(r.paths.len() == paths2.len());
    assert(forall|i: int| 0 <= i < paths2.len() ==> (#[trigger] r.paths[i]).path == paths2[i].path);
    assert(r.paths[pid].path == p);

    // In a well-formed store no request row points past the tables, so a
    // missing row can never have been paired.
    assert forall|u2: int| u2 >= s.visitors.len() implies !has_pair(s.requests, u2, pid) by {
        if has_pair(s.requests, u2, pid) {
            let i = choose|i: int|
                0 <= i < s.requests.len() && (#[trigger] s.requests[i]).uid == u2
                    && s.requests[i].pid == pid;
        }
    }
    assert forall|u2: int, k2: int| k2 >= s.paths.len() implies !#[trigger] has_pair(
        s.requests,
        u2,
        k2,
    ) by {
        if has_pair(s.requests, u2, k2) {
            let i = choose|i: int|
                0 <= i < s.requests.len() && (#[trigger] s.requests[i]).uid == u2
                    && s.requests[i].pid == k2;
        }
    }

    // Identity tokens stay pairwise distinct.
    assert forall|i: int, j: int| 0 <= i < j < r.visitors.len() implies #[trigger] r.visitors[i]
        != #[trigger] r.visitors[j] by {
        if j == s.visitors.len() {
            assert(r.visitors[j] == h && r.visitors[i] == s.visitors[i]);
        }
    }
    // Path strings stay pairwise distinct.
    assert forall|i: int, j: int| 0 <= i < j < r.paths.len() implies (#[trigger] r.paths[i]).path
        != (#[trigger] r.paths[j]).path by {
        if j == s.paths.len() {
            assert(paths2[j].path == p && paths2[i].path == s.paths[i].path);
        }
    }
    // Every request row still points at existing visitor and path rows.
    assert forall|i: int| 0 <= i < r.requests.len() implies 0 <= (#[trigger] r.requests[i]).uid
        < r.visitors.len() && 0 <= r.requests[i].pid < r.paths.len() by {
        if i < s.requests.len() {
            assert(r.requests[i] == s.requests[i]);
        } else {
            assert(r.requests[i] == newreq);
        }
    }
    // The cached counters still equal the quantities the log derives.
    assert forall|k: int| 0 <= k < r.paths.len() implies (#[trigger] r.paths[k]).total_requests
        == req_count(r.requests, k) && r.paths[k].unique_visitors == uniq_count(r.requests, k) by {
        lemma_counts_push(s.requests, newreq, k, uid);
        if k == pid {
            if pid < s.paths.len() {
                assert(r.paths[k].total_requests == s.paths[pid].total_requests + 1);
            } else {
                assert(forall|i: int| 0 <= i < s.requests.len() ==> (#[trigger] s.requests[i]).pid != pid);
                lemma_counts_absent(s.requests, pid);
                assert(!has_pair(s.requests, uid, pid));
                assert(r.paths[k] == PathSum {
                    path: p,
                    total_requests: 1nat,
                    unique_visitors: 1nat,
                });
            }
        } else {
            assert(r.paths[k] == paths2[k] && paths2[k] == s.paths[k]);
            assert(req_count(r.requests, k) == req_count(s.requests, k));
            assert(uniq_count(r.requests, k) == uniq_count(s.requests, k));
        }
    }
    assert(wf(r));

    // The recorded path's counters move exactly as stated.
    lemma_find_path_same_strings(r.paths, paths2, p);
    if pid < s.paths.len() {
        assert(find_path(r.paths, p) == pid);
    } else {
        lemma_find_path_push(s.paths, newrow, p);
        assert(find_path(r.paths, p) == pid);
        lemma_counts_absent(s.requests, pid);
    }
    assert(path_total(r, p) == path_total(s, p) + 1);
    assert(visited(s, h, p) == !first_visit);
    assert(path_unique(r, p) == path_unique(s, p) + if visited(s, h, p) {
        0nat
    } else {
        1nat
    });

    // Any other path resolves to the same row with untouched counters.
    assert forall|q: Seq<char>| q != p implies #[trigger] path_total(r, q) == path_total(s, q)
        by {
        lemma_find_path_same_strings(r.paths, paths2, q);
        lemma_find_path_props(s.paths, q);
        if pid == s.paths.len() {
            lemma_find_path_push(s.paths, newrow, q);
        }
        let k = find_path(s.paths, q);
        if k < s.paths.len() {
            assert(find_path(r.paths, q) == k);
            assert(k != pid);
            assert(r.paths[k] == s.paths[k]);
        } else {
            assert(find_path(r.paths, q) >= r.paths.len());
        }
    }
    assert forall|q: Seq<char>| q != p implies #[trigger] path_unique(r, q) == path_unique(s, q)
        by {
        lemma_find_path_same_strings(r.paths, paths2, q);
        lemma_find_path_props(s.paths, q);
        if pid == s.paths.len() {
            lemma_find_path_push(s.paths, newrow, q);
        }
        let k = find_path(s.paths, q);
        if k < s.paths.len() {
            assert(find_path(r.paths, q) == k);
            assert(k != pid);
            assert(r.paths[k] == s.paths[k]);
        } else {
            assert(find_path(r.paths, q) >= r.paths.len());
        }
    }

    // Visited-status: the recorded pair becomes visited, nothing else moves.
    assert forall|h2: Seq<char>| #[trigger] visited(r, h2, p) == (visited(s, h2, p) || h2
        == h) by {
        lemma_find_str_props(s.visitors, h2);
        if uid == s.visitors.len() {
            lemma_find_str_push(s.visitors, h, h2);
        }
        let u2 = find_str(s.visitors, h2);
        lemma_counts_push(s.requests, newreq, pid, u2);
        if h2 == h {
            assert(find_str(r.visitors, h2) == uid);
            assert(has_pair(r.requests, uid, pid));
        } else {
            if u2 < s.visitors.len() {
                assert(find_str(r.visitors, h2) == u2);
                assert(u2 != uid);
                assert(has_pair(r.requests, u2, pid) == has_pair(s.requests, u2, pid));
            } else {
                let u3 = find_str(r.visitors, h2);
                assert(u3 >= s.visitors.len());
                lemma_counts_push(s.requests, newreq, pid, u3);
                if uid < s.visitors.len() {
                    assert(!has_pair(r.requests, u3, pid));
                } else {
                    assert(u3 == s.visitors.len() + 1);
                    assert(!has_pair(r.requests, u3, pid));
                }
                assert(!has_pair(s.requests, u2, pid));
            }
        }
    }
    assert forall|h2: Seq<char>, q: Seq<char>| q != p implies #[trigger] visited(r, h2, q)
        == visited(s, h2, q) by {
        lemma_find_path_same_strings(r.paths, paths2, q);
        lemma_find_path_props(s.paths, q);
        lemma_find_str_props(s.visitors, h2);
        if pid == s.paths.len() {
            lemma_find_path_push(s.paths, newrow, q);
        }
        if uid == s.visitors.len() {
            lemma_find_str_push(s.visitors, h, h2);
        }
        let k2 = find_path(s.paths, q);
        let u2 = find_str(s.visitors, h2);
        let u3 = find_str(r.visitors, h2);
        lemma_counts_push(s.requests, newreq, k2, u2);
        lemma_counts_push(s.requests, newreq, k2, u3);
        if k2 < s.paths.len() {
            assert(find_path(r.paths, q) == k2);
            assert(k2 != pid);
            if u2 < s.visitors.len() {
                assert(u3 == u2);
                assert(has_pair(r.requests, u2, k2) == has_pair(s.requests, u2, k2));
            } else {
                assert(u3 >= s.visitors.len());
                assert(!has_pair(s.requests, u2, k2));
                lemma_counts_push(s.requests, newreq, k2, u3);
                assert(!has_pair(r.requests, u3, k2));
            }
        } else {
            let k3 = find_path(r.paths, q);
            assert(k3 >= s.paths.len());
            assert(!has_pair(s.requests, u2, k2));
            assert forall|i: int|
                0 <= i < r.requests.len() implies !((#[trigger] r.requests[i]).uid == u3
                && r.requests[i].pid == k3) by {
                if i < s.requests.len() {
                    assert(r.requests[i] == s.requests[i]);
                    assert(r.requests[i].pid < s.paths.len());
                    assert(k3 >= s.paths.len());
                } else {
                    assert(r.requests[i] == newreq);
                    assert(newreq.pid == pid);
                    assert(pid <= s.paths.len());
                    assert(r.paths[pid].path == p && q != p);
                    if pid == k3 {
                        assert(find_path(r.paths, q) == k3);
                        lemma_find_path_props(r.paths, q);
                    }
                }
            }
            assert(!has_pair(r.requests, u3, k3));
        }
    }
}

/// A path with no rows in the log has both derived counts at zero.
pub proof fn lemma_counts_absent(reqs: Seq<ReqView>, pid: int)
    requires
        forall|i: int| 0 <= i < reqs.len() ==> (#[trigger] reqs[i]).pid != pid,
    ensures
        req_count(reqs, pid) == 0,
        uniq_count(reqs, pid) == 0,
    decreases reqs.len(),
{
    if reqs.len() > 0 {
        lemma_counts_absent(reqs.drop_last(), pid);
    }
}

} // verus!
