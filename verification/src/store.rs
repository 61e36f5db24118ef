//! The analytics store: visitors, paths and the request log, with the
//! derived per-path counters maintained by the write path.
//!
//! [`Store::new_request`] performs the whole unit of work of one recorded
//! visit — resolve or create the visitor and path rows, decide whether the
//! pair is new, append the request row, bump the counters — and its
//! contract says the store afterwards is exactly
//! [`record_spec`](crate::model::record_spec) of the store before.

use crate::analytics::AnalyticsRequest;
use crate::graph::{
    count_in_window, graph_total_timeline, graph_unique_timeline, log_view, timeline_sum,
    total_bucket_ok, unique_bucket_ok, GraphView,
};
use crate::model::{
    find_path, find_str, has_pair, lemma_counts_le, lemma_find_path_props, lemma_find_str_props,
    lemma_record_step, record_spec, PathSum, ReqView, StoreView,
};
use crate::order::{
    page_of, page_slice, sort_alpha, sort_paths_alpha, sort_paths_unique, sort_unique, summaries,
};
use vstd::prelude::*;
use vstd::string::StringExecFns;

verus! {

/// A path row as callers see it: the path string, the number of distinct
/// visitors, and the running request total.
pub struct Path {
    pub path: String,
    pub total_unique: u64,
    pub total_requests: u64,
}

impl View for Path {
    type V = PathSum;

    open spec fn view(&self) -> PathSum {
        PathSum {
            path: self.path@,
            total_requests: self.total_requests as nat,
            unique_visitors: self.total_unique as nat,
        }
    }
}

/// One row of the request log.
pub struct RequestRow {
    pub uid: usize,
    pub pid: usize,
    pub created_at: i64,
}

impl View for RequestRow {
    type V = ReqView;

    open spec fn view(&self) -> ReqView {
        ReqView { uid: self.uid as int, pid: self.pid as int, created_at: self.created_at as int }
    }
}

/// The store. A visitor's identifier is its index in `visitors`, a path's
/// identifier its index in `paths`; `requests` is the append-only event log.
pub struct Store {
    visitors: Vec<String>,
    paths: Vec<Path>,
    requests: Vec<RequestRow>,
}

impl View for Store {
    type V = StoreView;

    closed spec fn view(&self) -> StoreView {
        StoreView {
            visitors: Seq::new(self.visitors@.len(), |i: int| self.visitors@[i]@),
            paths: Seq::new(self.paths@.len(), |i: int| self.paths@[i]@),
            requests: Seq::new(self.requests@.len(), |i: int| self.requests@[i]@),
        }
    }
}

impl Store {
    /// Well-formedness of the store's contents; see
    /// [`wf`](crate::model::wf).
    pub open spec fn wf(&self) -> bool {
        crate::model::wf(self@)
    }

    /// An empty store: no visitors, no paths, no recorded requests.
    pub fn new() -> (s: Store)
        ensures
            s.wf(),
            s@ == (StoreView {
                visitors: Seq::<Seq<char>>::empty(),
                paths: Seq::<PathSum>::empty(),
                requests: Seq::<ReqView>::empty(),
            }),
    {
        let s = Store { visitors: Vec::new(), paths: Vec::new(), requests: Vec::new() };
        proof {
            assert(s@ =~~= (StoreView {
                visitors: Seq::<Seq<char>>::empty(),
                paths: Seq::<PathSum>::empty(),
                requests: Seq::<ReqView>::empty(),
            }));
        }
        s
    }

    /// Resolve the visitor row holding this identity token, creating it when
    /// absent; returns its identifier. Mirrors a keyed resolve-or-create on
    /// the uniqueness of the token.
    fn select_or_init_visitor(&mut self, hashed_ip: &String) -> (uid: usize)
        ensures
            uid as int == find_str(old(self)@.visitors, hashed_ip@),
            final(self)@.visitors == if (uid as int) < old(self)@.visitors.len() {
                old(self)@.visitors
            } else {
                old(self)@.visitors.push(hashed_ip@)
            },
            uid < final(self)@.visitors.len(),
            final(self)@.paths == old(self)@.paths,
            final(self)@.requests == old(self)@.requests,
    {
        let n = self.visitors.len();
        let mut i: usize = 0;
        while i < n
            invariant
                i <= n,
                n == self.visitors@.len(),
                self@ == old(self)@,
                forall|j: int| 0 <= j < i ==> self@.visitors[j] != hashed_ip@,
            decreases n - i,
        {
            if self.visitors[i] == *hashed_ip {
                proof {
                    lemma_find_str_props(self@.visitors, hashed_ip@);
                    let f = find_str(self@.visitors, hashed_ip@);
                    assert(self@.visitors[i as int] == hashed_ip@);
                    if f < i as int {
                        assert(self@.visitors[f] == hashed_ip@);
                    }
                    if f > i as int {
                        assert(self@.visitors[i as int] != hashed_ip@);
                    }
                }
                return i;
            }
            i += 1;
        }
        proof {
            lemma_find_str_props(self@.visitors, hashed_ip@);
            let f = find_str(self@.visitors, hashed_ip@);
            if f < n as int {
                assert(self@.visitors[f] != hashed_ip@);
            }
        }
        self.visitors.push(hashed_ip.clone());
        proof {
            assert(self@.visitors =~= old(self)@.visitors.push(hashed_ip@));
            assert(self@.paths =~= old(self)@.paths);
            assert(self@.requests =~= old(self)@.requests);
        }
        n
    }

    /// Resolve the path row holding this path string, creating it (with both
    /// counters at zero) when absent; returns its identifier.
    fn select_or_init_path(&mut self, path: &String) -> (pid: usize)
        ensures
            pid as int == find_path(old(self)@.paths, path@),
            final(self)@.paths == if (pid as int) < old(self)@.paths.len() {
                old(self)@.paths
            } else {
                old(self)@.paths.push(
                    PathSum { path: path@, total_requests: 0, unique_visitors: 0 },
                )
            },
            pid < final(self)@.paths.len(),
            final(self)@.visitors == old(self)@.visitors,
            final(self)@.requests == old(self)@.requests,
    {
        let n = self.paths.len();
        let mut i: usize = 0;
        while i < n
            invariant
                i <= n,
                n == self.paths@.len(),
                self@ == old(self)@,
                forall|j: int| 0 <= j < i ==> (#[trigger] self@.paths[j]).path != path@,
            decreases n - i,
        {
            if self.paths[i].path == *path {
                proof {
                    lemma_find_path_props(self@.paths, path@);
                    let f = find_path(self@.paths, path@);
                    assert(self@.paths[i as int].path == path@);
                    if f < i as int {
                        assert(self@.paths[f].path == path@);
                    }
                    if f > i as int {
                        assert(self@.paths[i as int].path != path@);
                    }
                }
                return i;
            }
            i += 1;
        }
        proof {
            lemma_find_path_props(self@.paths, path@);
            let f = find_path(self@.paths, path@);
            if f < n as int {
                assert(self@.paths[f].path != path@);
            }
        }
        self.paths.push(Path { path: path.clone(), total_unique: 0, total_requests: 0 });
        proof {
            assert(self@.paths =~= old(self)@.paths.push(
                PathSum { path: path@, total_requests: 0, unique_visitors: 0 },
            ));
            assert(self@.visitors =~= old(self)@.visitors);
            assert(self@.requests =~= old(self)@.requests);
        }
        n
    }

    /// Append one request row and report whether it is the first row ever to
    /// pair this visitor with this path — the atomic "insert, and tell me
    /// whether the pair was absent" that the unique counter is conditioned
    /// on.
    fn insert_request(&mut self, uid: usize, pid: usize, created_at: i64) -> (first: bool)
        ensures
            first == !has_pair(old(self)@.requests, uid as int, pid as int),
            final(self)@.requests == old(self)@.requests.push(
                ReqView { uid: uid as int, pid: pid as int, created_at: created_at as int },
            ),
            final(self)@.visitors == old(self)@.visitors,
            final(self)@.paths == old(self)@.paths,
            old(self)@.requests.len() + 1 <= usize::MAX,
    {
        let n = self.requests.len();
        let mut i: usize = 0;
        let mut seen = false;
        while i < n
            invariant
                i <= n,
                n == self.requests@.len(),
                self@ == old(self)@,
                seen == exists|j: int|
                    0 <= j < i && (#[trigger] self@.requests[j]).uid == uid as int
                        && self@.requests[j].pid == pid as int,
            decreases n - i,
        {
            if self.requests[i].uid == uid && self.requests[i].pid == pid {
                proof {
                    assert(self@.requests[i as int].uid == uid as int);
                }
                seen = true;
            }
            i += 1;
        }
        proof {
            if seen {
                assert(has_pair(self@.requests, uid as int, pid as int));
            } else {
                if has_pair(self@.requests, uid as int, pid as int) {
                    let j = choose|j: int|
                        0 <= j < self@.requests.len() && (#[trigger] self@.requests[j]).uid
                            == uid as int && self@.requests[j].pid == pid as int;
                }
            }
        }
        self.requests.push(RequestRow { uid, pid, created_at });
        let l = self.requests.len();
        proof {
            assert(self@.requests =~= old(self)@.requests.push(
                ReqView { uid: uid as int, pid: pid as int, created_at: created_at as int },
            ));
            assert(self@.visitors =~= old(self)@.visitors);
            assert(self@.paths =~= old(self)@.paths);
            assert(l == old(self)@.requests.len() + 1);
        }
        !seen
    }

    /// Bump the running request total of one path row by one.
    fn incriment_total(&mut self, pid: usize)
        requires
            pid < old(self)@.paths.len(),
            old(self)@.paths[pid as int].total_requests < u64::MAX,
        ensures
            final(self)@.paths == old(self)@.paths.update(
                pid as int,
                (PathSum {
                    path: old(self)@.paths[pid as int].path,
                    total_requests: old(self)@.paths[pid as int].total_requests + 1,
                    unique_visitors: old(self)@.paths[pid as int].unique_visitors,
                }),
            ),
            final(self)@.visitors == old(self)@.visitors,
            final(self)@.requests == old(self)@.requests,
    {
        let row = &mut self.paths[pid];
        let t = row.total_requests;
        row.total_requests = t + 1;
        proof {
            assert(self@.paths =~= old(self)@.paths.update(
                pid as int,
                (PathSum {
                    path: old(self)@.paths[pid as int].path,
                    total_requests: old(self)@.paths[pid as int].total_requests + 1,
                    unique_visitors: old(self)@.paths[pid as int].unique_visitors,
                }),
            ));
            assert(self@.visitors =~= old(self)@.visitors);
            assert(self@.requests =~= old(self)@.requests);
        }
    }

    /// Bump the unique-visitor counter of one path row by one.
    fn incriment_unique(&mut self, pid: usize)
        requires
            pid < old(self)@.paths.len(),
            old(self)@.paths[pid as int].unique_visitors < u64::MAX,
        ensures
            final(self)@.paths == old(self)@.paths.update(
                pid as int,
                (PathSum {
                    path: old(self)@.paths[pid as int].path,
                    total_requests: old(self)@.paths[pid as int].total_requests,
                    unique_visitors: old(self)@.paths[pid as int].unique_visitors + 1,
                }),
            ),
            final(self)@.visitors == old(self)@.visitors,
            final(self)@.requests == old(self)@.requests,
    {
        let row = &mut self.paths[pid];
        let u = row.total_unique;
        row.total_unique = u + 1;
        proof {
            assert(self@.paths =~= old(self)@.paths.update(
                pid as int,
                (PathSum {
                    path: old(self)@.paths[pid as int].path,
                    total_requests: old(self)@.paths[pid as int].total_requests,
                    unique_visitors: old(self)@.paths[pid as int].unique_visitors + 1,
                }),
            ));
            assert(self@.visitors =~= old(self)@.visitors);
            assert(self@.requests =~= old(self)@.requests);
        }
    }

    /// Record one visit as a single unit of work: resolve or create the
    /// visitor and path rows, append the request row, raise the path's
    /// request total by one, and raise its unique-visitor counter exactly
    /// when no earlier row paired this visitor with this path.
    pub fn new_request(&mut self, request: AnalyticsRequest)
        requires
            old(self).wf(),
        ensures
            final(self).wf(),
            final(self)@ == record_spec(
                old(self)@,
                request.hashed_ip@,
                request.path@,
                request.created_at_milis as int,
            ),
    {
        let ghost s0 = self@;
        proof {
            lemma_record_step(s0, request.hashed_ip@, request.path@, request.created_at_milis as int);
        }
        let uid = self.select_or_init_visitor(&request.hashed_ip);
        let pid = self.select_or_init_path(&request.path);
        let ghost paths2 = self@.paths;
        let first = self.insert_request(uid, pid, request.created_at_milis);
        proof {
            lemma_counts_le(s0.requests, pid as int);
            if (pid as int) < s0.paths.len() {
                assert(paths2[pid as int].total_requests == crate::model::req_count(
                    s0.requests,
                    pid as int,
                ));
                assert(paths2[pid as int].unique_visitors == crate::model::uniq_count(
                    s0.requests,
                    pid as int,
                ));
            }
            assert(paths2[pid as int].total_requests < u64::MAX);
            assert(paths2[pid as int].unique_visitors < u64::MAX);
        }
        self.incriment_total(pid);
        if first {
            self.incriment_unique(pid);
        }
        proof {
            assert(self@ =~~= record_spec(
                s0,
                request.hashed_ip@,
                request.path@,
                request.created_at_milis as int,
            ));
        }
    }

    /// How many distinct paths have ever been requested.
    pub fn get_total_paths(&self) -> (n: u64)
        ensures
            n == self@.paths.len(),
    {
        self.paths.len() as u64
    }

    /// Resolve a path string to its identifier, or `None` when no request to
    /// it was ever recorded.
    pub fn get_pid(&self, path: &str) -> (pid: Option<usize>)
        ensures
            ({
                let k = find_path(self@.paths, path@);
                if k < self@.paths.len() {
                    pid == Some(k as usize)
                } else {
                    pid is None
                }
            }),
    {
        let key = String::from_str(path);
        let n = self.paths.len();
        let mut i: usize = 0;
        while i < n
            invariant
                i <= n,
                n == self@.paths.len(),
                key@ == path@,
                forall|j: int| 0 <= j < i ==> (#[trigger] self@.paths[j]).path != path@,
            decreases n - i,
        {
            if self.paths[i].path == key {
                proof {
                    lemma_find_path_props(self@.paths, path@);
                    let f = find_path(self@.paths, path@);
                    assert(self@.paths[i as int].path == path@);
                    if f < i as int {
                        assert(self@.paths[f].path == path@);
                    }
                    if f > i as int {
                        assert(self@.paths[i as int].path != path@);
                    }
                }
                return Some(i);
            }
            i += 1;
        }
        proof {
            lemma_find_path_props(self@.paths, path@);
            let f = find_path(self@.paths, path@);
            if f < n as int {
                assert(self@.paths[f].path != path@);
            }
        }
        None
    }

    /// One page of the catalog in alphabetical order: page `ofset` of
    /// `limit` rows each, out of the listing that sorts every known path by
    /// its string, ascending.
    pub fn get_paths_alphabetic(&self, limit: usize, ofset: usize) -> (r: Vec<Path>)
        ensures
            summaries(r@) == page_of(sort_alpha(self@.paths), limit as nat, ofset as nat),
    {
        proof {
            assert(summaries(self.paths@) =~~= self@.paths);
        }
        let sorted = sort_paths_alpha(&self.paths);
        page_slice(sorted, limit, ofset)
    }

    /// One page of the catalog ordered by unique visitors, most first; rows
    /// with equal counts keep their creation order.
    pub fn get_paths_unique_visitors_dec(&self, limit: usize, ofset: usize) -> (r: Vec<Path>)
        ensures
            summaries(r@) == page_of(sort_unique(self@.paths), limit as nat, ofset as nat),
    {
        proof {
            assert(summaries(self.paths@) =~~= self@.paths);
        }
        let sorted = sort_paths_unique(&self.paths);
        page_slice(sorted, limit, ofset)
    }

    /// How many pages of `page_size` rows the catalog spans: the number of
    /// known paths divided by the page size, rounded up.
    pub fn total_page_count(&self, page_size: u64) -> (n: u64)
        requires
            page_size >= 1,
        ensures
            n == (self@.paths.len() + page_size - 1) as int / page_size as int,
    {
        let total = self.paths.len() as u64;
        let pages = total / page_size;
        let n = if total % page_size != 0 {
            proof {
                assert(pages + 1 <= u64::MAX) by (nonlinear_arith)
                    requires
                        total as int % page_size as int != 0,
                        pages == total as int / page_size as int,
                        page_size >= 1,
                        total <= u64::MAX,
                ;
            }
            pages + 1
        } else {
            pages
        };
        proof {
            assert(n == (total + page_size - 1) as int / page_size as int) by (nonlinear_arith)
                requires
                    page_size >= 1,
                    pages == total as int / page_size as int,
                    n == pages + if total as int % page_size as int != 0 {
                        1int
                    } else {
                        0int
                    },
            ;
        }
        n
    }

    /// The usage graph of one path under the request-total metric: `limit`
    /// contiguous buckets of `duration` milliseconds each, oldest first, the
    /// newest ending exactly at `current_time`; each bucket counts the
    /// path's request rows inside its window, and the buckets together
    /// account for every row in the covered range. An identifier that no
    /// row mentions yields an all-zero graph, not an error.
    pub fn get_graph_total(
        &self,
        pid: usize,
        title: String,
        duration: i64,
        limit: usize,
        current_time: i64,
    ) -> (g: GraphView)
        requires
            duration >= 1,
            duration * (limit as int) <= i64::MAX,
            current_time - duration * (limit as int) >= i64::MIN,
        ensures
            g.title@ == title@,
            g.timeline@.len() == limit,
            forall|k: int|
                0 <= k < limit - 1 ==> (#[trigger] g.timeline@[k]).timestamp_end == g.timeline@[k
                    + 1].timestamp_start,
            forall|k: int|
                0 <= k < limit ==> total_bucket_ok(
                    #[trigger] g.timeline@[k],
                    self@.requests,
                    pid as int,
                    duration as int,
                    limit as int,
                    current_time as int,
                    k,
                ),
            timeline_sum(g.timeline@) == count_in_window(
                self@.requests,
                pid as int,
                current_time - duration * (limit as int),
                current_time as int,
            ),
    {
        proof {
            assert(log_view(self.requests@) =~~= self@.requests);
        }
        let timeline = graph_total_timeline(&self.requests, pid, duration, limit, current_time);
        GraphView { timeline, title }
    }

    /// The usage graph of one path under the unique-visitor metric: the same
    /// buckets as the total graph, each counting the distinct visitors with
    /// request rows of the path inside its window.
    pub fn get_graph_unique(
        &self,
        pid: usize,
        title: String,
        duration: i64,
        limit: usize,
        current_time: i64,
    ) -> (g: GraphView)
        requires
            duration >= 1,
            duration * (limit as int) <= i64::MAX,
            current_time - duration * (limit as int) >= i64::MIN,
        ensures
            g.title@ == title@,
            g.timeline@.len() == limit,
            forall|k: int|
                0 <= k < limit - 1 ==> (#[trigger] g.timeline@[k]).timestamp_end == g.timeline@[k
                    + 1].timestamp_start,
            forall|k: int|
                0 <= k < limit ==> unique_bucket_ok(
                    #[trigger] g.timeline@[k],
                    self@.requests,
                    pid as int,
                    duration as int,
                    limit as int,
                    current_time as int,
                    k,
                ),
    {
        proof {
            assert(log_view(self.requests@) =~~= self@.requests);
        }
        let timeline = graph_unique_timeline(&self.requests, pid, duration, limit, current_time);
        GraphView { timeline, title }
    }

    /// The summary row of one path: its string and both counters.
    pub fn get_path(&self, pid: usize) -> (p: Path)
        requires
            pid < self@.paths.len(),
        ensures
            p@ == self@.paths[pid as int],
    {
        let row = &self.paths[pid];
        Path {
            path: row.path.clone(),
            total_unique: row.total_unique,
            total_requests: row.total_requests,
        }
    }
}

} // verus!
