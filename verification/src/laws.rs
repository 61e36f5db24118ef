//! Laws of the write path, proved over the transition
//! [`record_spec`](crate::model::record_spec): what a whole sequence of
//! recorded visits does to one path's counters.

use crate::model::{
    lemma_record_step, path_total, path_unique, record_spec, visited, wf, StoreView,
};
use vstd::prelude::*;

verus! {

/// The store after one identity records visits to one path at each of the
/// given times, in order.
pub open spec fn record_many(s: StoreView, h: Seq<char>, p: Seq<char>, ts: Seq<int>) -> StoreView
    decreases ts.len(),
{
    if ts.len() == 0 {
        s
    } else {
        record_spec(record_many(s, h, p, ts.drop_last()), h, p, ts.last())
    }
}

/// The store after a sequence of recorded visits to one path, each call an
/// identity token and a timestamp, in order.
pub open spec fn record_calls(s: StoreView, p: Seq<char>, calls: Seq<(Seq<char>, int)>) -> StoreView
    decreases calls.len(),
{
    if calls.len() == 0 {
        s
    } else {
        record_spec(record_calls(s, p, calls.drop_last()), calls.last().0, p, calls.last().1)
    }
}

/// Whether some call carries this identity token.
pub open spec fn token_in(calls: Seq<(Seq<char>, int)>, h: Seq<char>) -> bool {
    exists|i: int| 0 <= i < calls.len() && (#[trigger] calls[i]).0 == h
}

/// How many distinct identity tokens the calls carry: each call counts only
/// when it is the first call of its token.
pub open spec fn distinct_token_count(calls: Seq<(Seq<char>, int)>) -> nat
    decreases calls.len(),
{
    if calls.len() == 0 {
        0
    } else {
        distinct_token_count(calls.drop_last()) + if !token_in(
            calls.drop_last(),
            calls.last().0,
        ) {
            1nat
        } else {
            0nat
        }
    }
}

/// How many of the calls' distinct tokens had never visited the path in the
/// starting store.
pub open spec fn fresh_token_count(
    s: StoreView,
    p: Seq<char>,
    calls: Seq<(Seq<char>, int)>,
) -> nat
    decreases calls.len(),
{
    if calls.len() == 0 {
        0
    } else {
        fresh_token_count(s, p, calls.drop_last()) + if !visited(s, calls.last().0, p)
            && !token_in(calls.drop_last(), calls.last().0) {
            1nat
        } else {
            0nat
        }
    }
}

/// Law: across any number of visits by one identity to one path, each
/// recorded as its own unit of work, the path's request total rises by
/// exactly the number of visits, and its unique-visitor count rises by
/// exactly one, and only on the identity's first-ever visit to that path.
pub proof fn lemma_repeat_visits(s: StoreView, h: Seq<char>, p: Seq<char>, ts: Seq<int>)
    requires
        wf(s),
    ensures
        wf(record_many(s, h, p, ts)),
        path_total(record_many(s, h, p, ts), p) == path_total(s, p) + ts.len(),
        path_unique(record_many(s, h, p, ts), p) == path_unique(s, p) + if ts.len() > 0
            && !visited(s, h, p) {
            1nat
        } else {
            0nat
        },
        ts.len() > 0 ==> visited(record_many(s, h, p, ts), h, p),
    decreases ts.len(),
{
    if ts.len() > 0 {
        lemma_repeat_visits(s, h, p, ts.drop_last());
        let s1 = record_many(s, h, p, ts.drop_last());
        lemma_record_step(s1, h, p, ts.last());
    }
}

/// Law: after a sequence of recorded visits to one path, the path's request
/// total rises by the number of calls, its unique-visitor count rises by the
/// number of distinct tokens that had never visited it, and exactly the
/// starting visitors plus the calls' tokens have then visited it.
pub proof fn lemma_visits_per_token(s: StoreView, p: Seq<char>, calls: Seq<(Seq<char>, int)>)
    requires
        wf(s),
    ensures
        wf(record_calls(s, p, calls)),
        path_total(record_calls(s, p, calls), p) == path_total(s, p) + calls.len(),
        path_unique(record_calls(s, p, calls), p) == path_unique(s, p) + fresh_token_count(
            s,
            p,
            calls,
        ),
        forall|h2: Seq<char>|
            #[trigger] visited(record_calls(s, p, calls), h2, p) == (visited(s, h2, p) || token_in(
                calls,
                h2,
            )),
    decreases calls.len(),
{
    if calls.len() == 0 {
        assert forall|h2: Seq<char>| #[trigger] visited(record_calls(s, p, calls), h2, p) == (
        visited(s, h2, p) || token_in(calls, h2)) by {
            if token_in(calls, h2) {
                let i = choose|i: int| 0 <= i < calls.len() && (#[trigger] calls[i]).0 == h2;
            }
        }
    } else {
        lemma_visits_per_token(s, p, calls.drop_last());
        let s1 = record_calls(s, p, calls.drop_last());
        let h = calls.last().0;
        lemma_record_step(s1, h, p, calls.last().1);
        let s2 = record_calls(s, p, calls);
        assert(visited(s1, h, p) == (visited(s, h, p) || token_in(calls.drop_last(), h)));
        assert forall|h2: Seq<char>| #[trigger] visited(s2, h2, p) == (visited(s, h2, p)
            || token_in(calls, h2)) by {
            assert(visited(s2, h2, p) == (visited(s1, h2, p) || h2 == h));
            if token_in(calls.drop_last(), h2) {
                let i = choose|i: int|
                    0 <= i < calls.drop_last().len() && (#[trigger] calls.drop_last()[i]).0 == h2;
                assert(calls[i].0 == h2);
            }
            if h2 == h {
                assert(calls[calls.len() - 1].0 == h2);
            }
            if token_in(calls, h2) && h2 != h {
                let i = choose|i: int| 0 <= i < calls.len() && (#[trigger] calls[i]).0 == h2;
                assert(calls.drop_last()[i] == calls[i]);
            }
        }
    }
}

/// Law: against a path never seen before, a sequence of recorded visits
/// leaves the path's request total at exactly the number of calls and its
/// unique-visitor count at exactly the number of distinct identity tokens
/// among them.
pub proof fn lemma_fresh_path_counts(s: StoreView, p: Seq<char>, calls: Seq<(Seq<char>, int)>)
    requires
        wf(s),
        crate::model::find_path(s.paths, p) == s.paths.len(),
    ensures
        path_total(record_calls(s, p, calls), p) == calls.len(),
        path_unique(record_calls(s, p, calls), p) == distinct_token_count(calls),
{
    lemma_visits_per_token(s, p, calls);
    assert(path_total(s, p) == 0);
    assert(path_unique(s, p) == 0);
    assert forall|h2: Seq<char>| !#[trigger] visited(s, h2, p) by {
        if visited(s, h2, p) {
            let i = choose|i: int|
                0 <= i < s.requests.len() && (#[trigger] s.requests[i]).uid == crate::model::find_str(
                    s.visitors,
                    h2,
                ) && s.requests[i].pid == crate::model::find_path(s.paths, p);
        }
    }
    lemma_fresh_count_is_distinct(s, p, calls);
}

/// When no token has visited the path yet, the fresh-token count is simply
/// the distinct-token count.
proof fn lemma_fresh_count_is_distinct(s: StoreView, p: Seq<char>, calls: Seq<(Seq<char>, int)>)
    requires
        forall|h2: Seq<char>| !#[trigger] visited(s, h2, p),
    ensures
        fresh_token_count(s, p, calls) == distinct_token_count(calls),
    decreases calls.len(),
{
    if calls.len() > 0 {
        lemma_fresh_count_is_distinct(s, p, calls.drop_last());
    }
}

} // verus!
