//! Ordering and pagination of the path catalog.
//!
//! The catalog lists paths either alphabetically (lexicographic over the
//! path's characters, by code point) or by unique-visitor count descending.
//! Both listings are pinned to a deterministic insertion sort at the
//! specification level, so two reads over the same snapshot always paginate
//! the same sequence.

use crate::model::PathSum;
use crate::store::Path;
use vstd::prelude::*;
use vstd::string::StrSliceExecFns;

verus! {

/// Lexicographic order on character sequences, by code point; a proper
/// prefix comes first.
pub open spec fn str_lt(a: Seq<char>, b: Seq<char>) -> bool
    decreases a.len(),
{
    if b.len() == 0 {
        false
    } else if a.len() == 0 {
        true
    } else if a[0] != b[0] {
        (a[0] as u32) < (b[0] as u32)
    } else {
        str_lt(a.drop_first(), b.drop_first())
    }
}

/// Alphabetical precedence of catalog rows.
pub open spec fn alpha_lt(a: PathSum, b: PathSum) -> bool {
    str_lt(a.path, b.path)
}

/// Precedence of catalog rows under the unique-visitors-descending order:
/// strictly more distinct visitors comes first.
pub open spec fn unique_gt(a: PathSum, b: PathSum) -> bool {
    a.unique_visitors > b.unique_visitors
}

/// The catalog rows a sequence of path rows presents.
pub open spec fn summaries(s: Seq<Path>) -> Seq<PathSum> {
    Seq::new(s.len(), |i: int| s[i]@)
}

/// Insert one row into an alphabetically sorted sequence, before the first
/// row it precedes.
pub open spec fn insert_alpha(x: PathSum, s: Seq<PathSum>) -> Seq<PathSum>
    decreases s.len(),
{
    if s.len() == 0 {
        seq![x]
    } else if alpha_lt(x, s[0]) {
        seq![x] + s
    } else {
        seq![s[0]] + insert_alpha(x, s.drop_first())
    }
}

/// The alphabetical listing: insertion sort of the rows, in order of the
/// underlying sequence.
pub open spec fn sort_alpha(s: Seq<PathSum>) -> Seq<PathSum>
    decreases s.len(),
{
    if s.len() == 0 {
        Seq::<PathSum>::empty()
    } else {
        insert_alpha(s.last(), sort_alpha(s.drop_last()))
    }
}

/// Insert one row into a sequence sorted by unique visitors descending,
/// before the first row it strictly precedes — so rows with equal counts
/// keep their earlier order.
pub open spec fn insert_unique(x: PathSum, s: Seq<PathSum>) -> Seq<PathSum>
    decreases s.len(),
{
    if s.len() == 0 {
        seq![x]
    } else if unique_gt(x, s[0]) {
        seq![x] + s
    } else {
        seq![s[0]] + insert_unique(x, s.drop_first())
    }
}

/// The unique-visitors-descending listing.
pub open spec fn sort_unique(s: Seq<PathSum>) -> Seq<PathSum>
    decreases s.len(),
{
    if s.len() == 0 {
        Seq::<PathSum>::empty()
    } else {
        insert_unique(s.last(), sort_unique(s.drop_last()))
    }
}

/// One page of a listing: rows `ofset*limit` up to `ofset*limit + limit`,
/// clipped to the listing's length.
pub open spec fn page_of(s: Seq<PathSum>, limit: nat, ofset: nat) -> Seq<PathSum> {
    let start: int = (ofset * limit) as int;
    let lo: int = if start <= s.len() {
        start
    } else {
        s.len() as int
    };
    let hi: int = if start + limit <= s.len() {
        start + limit
    } else {
        s.len() as int
    };
    s.subrange(lo, hi)
}

/// No later row of an alphabetically sorted sequence precedes an earlier
/// one.
pub open spec fn sorted_alpha(s: Seq<PathSum>) -> bool {
    forall|i: int, j: int| 0 <= i < j < s.len() ==> !alpha_lt(#[trigger] s[j], #[trigger] s[i])
}

/// No later row of a unique-visitors-descending sequence has strictly more
/// visitors than an earlier one.
pub open spec fn sorted_unique(s: Seq<PathSum>) -> bool {
    forall|i: int, j: int| 0 <= i < j < s.len() ==> !unique_gt(#[trigger] s[j], #[trigger] s[i])
}

/// Nothing precedes itself.
proof fn lemma_str_lt_irrefl(a: Seq<char>)
    ensures
        !str_lt(a, a),
    decreases a.len(),
{
    if a.len() > 0 {
        lemma_str_lt_irrefl(a.drop_first());
    }
}

/// Lexicographic precedence is transitive.
proof fn lemma_str_lt_trans(a: Seq<char>, b: Seq<char>, c: Seq<char>)
    requires
        str_lt(a, b),
        str_lt(b, c),
    ensures
        str_lt(a, c),
    decreases a.len(),
{
    if a.len() > 0 {
        if a[0] == b[0] && b[0] == c[0] {
            lemma_str_lt_trans(a.drop_first(), b.drop_first(), c.drop_first());
        }
    }
}

/// The position where the inserts place a row: before the first row it
/// precedes.
spec fn pos_alpha(x: PathSum, s: Seq<PathSum>) -> int
    decreases s.len(),
{
    if s.len() == 0 {
        0
    } else if alpha_lt(x, s[0]) {
        0
    } else {
        1 + pos_alpha(x, s.drop_first())
    }
}

spec fn pos_unique(x: PathSum, s: Seq<PathSum>) -> int
    decreases s.len(),
{
    if s.len() == 0 {
        0
    } else if unique_gt(x, s[0]) {
        0
    } else {
        1 + pos_unique(x, s.drop_first())
    }
}

proof fn lemma_pos_alpha_props(x: PathSum, s: Seq<PathSum>)
    ensures
        0 <= pos_alpha(x, s) <= s.len(),
        forall|m: int| 0 <= m < pos_alpha(x, s) ==> !alpha_lt(x, #[trigger] s[m]),
        pos_alpha(x, s) < s.len() ==> alpha_lt(x, s[pos_alpha(x, s)]),
    decreases s.len(),
{
    if s.len() > 0 && !alpha_lt(x, s[0]) {
        lemma_pos_alpha_props(x, s.drop_first());
        assert(forall|m: int| 1 <= m < s.len() ==> s[m] == s.drop_first()[m - 1]);
    }
}

proof fn lemma_pos_unique_props(x: PathSum, s: Seq<PathSum>)
    ensures
        0 <= pos_unique(x, s) <= s.len(),
        forall|m: int| 0 <= m < pos_unique(x, s) ==> !unique_gt(x, #[trigger] s[m]),
        pos_unique(x, s) < s.len() ==> unique_gt(x, s[pos_unique(x, s)]),
    decreases s.len(),
{
    if s.len() > 0 && !unique_gt(x, s[0]) {
        lemma_pos_unique_props(x, s.drop_first());
        assert(forall|m: int| 1 <= m < s.len() ==> s[m] == s.drop_first()[m - 1]);
    }
}

/// Inserting into a sorted sequence keeps it sorted.
proof fn lemma_insert_alpha_sorted(x: PathSum, t: Seq<PathSum>)
    requires
        sorted_alpha(t),
    ensures
        sorted_alpha(insert_alpha(x, t)),
{
    lemma_pos_alpha_props(x, t);
    let j = pos_alpha(x, t);
    lemma_insert_at_alpha(x, t, j);
    let r = insert_alpha(x, t);
    assert forall|i2: int, j2: int| 0 <= i2 < j2 < r.len() implies !alpha_lt(
        #[trigger] r[j2],
        #[trigger] r[i2],
    ) by {
        assert(forall|m: int| 0 <= m < j ==> r[m] == t[m]);
        assert(r[j] == x);
        assert(forall|m: int| j < m < r.len() ==> r[m] == t[m - 1]);
        if i2 == j && j2 > j {
            if alpha_lt(r[j2], x) {
                if j2 - 1 == j {
                    lemma_str_lt_trans(x.path, t[j].path, x.path);
                    lemma_str_lt_irrefl(x.path);
                } else {
                    lemma_str_lt_trans(t[j2 - 1].path, x.path, t[j].path);
                }
            }
        }
        if i2 < j && j2 == j {
            assert(!alpha_lt(x, t[i2]));
        }
    }
}

proof fn lemma_insert_unique_sorted(x: PathSum, t: Seq<PathSum>)
    requires
        sorted_unique(t),
    ensures
        sorted_unique(insert_unique(x, t)),
{
    lemma_pos_unique_props(x, t);
    let j = pos_unique(x, t);
    lemma_insert_at_unique(x, t, j);
    let r = insert_unique(x, t);
    assert forall|i2: int, j2: int| 0 <= i2 < j2 < r.len() implies !unique_gt(
        #[trigger] r[j2],
        #[trigger] r[i2],
    ) by {
        assert(forall|m: int| 0 <= m < j ==> r[m] == t[m]);
        assert(r[j] == x);
        assert(forall|m: int| j < m < r.len() ==> r[m] == t[m - 1]);
    }
}

/// Law: the alphabetical listing really is sorted ascending by path.
pub proof fn lemma_sort_alpha_sorted(s: Seq<PathSum>)
    ensures
        sorted_alpha(sort_alpha(s)),
    decreases s.len(),
{
    if s.len() > 0 {
        lemma_sort_alpha_sorted(s.drop_last());
        lemma_insert_alpha_sorted(s.last(), sort_alpha(s.drop_last()));
    }
}

/// Law: the unique-visitors listing really is sorted descending by count.
pub proof fn lemma_sort_unique_sorted(s: Seq<PathSum>)
    ensures
        sorted_unique(sort_unique(s)),
    decreases s.len(),
{
    if s.len() > 0 {
        lemma_sort_unique_sorted(s.drop_last());
        lemma_insert_unique_sorted(s.last(), sort_unique(s.drop_last()));
    }
}

proof fn lemma_insert_alpha_multiset(x: PathSum, t: Seq<PathSum>)
    ensures
        insert_alpha(x, t).to_multiset() == t.to_multiset().insert(x),
{
    lemma_pos_alpha_props(x, t);
    let j = pos_alpha(x, t);
    lemma_insert_at_alpha(x, t, j);
    assert(t.insert(j, x) =~= t.take(j) + seq![x] + t.skip(j));
    vstd::seq_lib::to_multiset_insert(t, j, x);
}

proof fn lemma_insert_unique_multiset(x: PathSum, t: Seq<PathSum>)
    ensures
        insert_unique(x, t).to_multiset() == t.to_multiset().insert(x),
{
    lemma_pos_unique_props(x, t);
    let j = pos_unique(x, t);
    lemma_insert_at_unique(x, t, j);
    assert(t.insert(j, x) =~= t.take(j) + seq![x] + t.skip(j));
    vstd::seq_lib::to_multiset_insert(t, j, x);
}

/// Law: the alphabetical listing holds exactly the catalog's rows — sorting
/// neither drops, adds nor duplicates one.
pub proof fn lemma_sort_alpha_permutes(s: Seq<PathSum>)
    ensures
        sort_alpha(s).to_multiset() == s.to_multiset(),
    decreases s.len(),
{
    if s.len() == 0 {
        assert(s =~= Seq::<PathSum>::empty());
        assert(sort_alpha(s) =~= Seq::<PathSum>::empty());
    } else {
        lemma_sort_alpha_permutes(s.drop_last());
        lemma_insert_alpha_multiset(s.last(), sort_alpha(s.drop_last()));
        vstd::seq_lib::to_multiset_build(s.drop_last(), s.last());
        assert(s.drop_last().push(s.last()) =~= s);
    }
}

/// Law: the unique-visitors listing holds exactly the catalog's rows.
pub proof fn lemma_sort_unique_permutes(s: Seq<PathSum>)
    ensures
        sort_unique(s).to_multiset() == s.to_multiset(),
    decreases s.len(),
{
    if s.len() == 0 {
        assert(s =~= Seq::<PathSum>::empty());
        assert(sort_unique(s) =~= Seq::<PathSum>::empty());
    } else {
        lemma_sort_unique_permutes(s.drop_last());
        lemma_insert_unique_multiset(s.last(), sort_unique(s.drop_last()));
        vstd::seq_lib::to_multiset_build(s.drop_last(), s.last());
        assert(s.drop_last().push(s.last()) =~= s);
    }
}

/// Law: two adjacent pages of one listing neither repeat nor skip a row —
/// together they are exactly the listing's contiguous slice spanning both
/// pages.
pub proof fn lemma_adjacent_pages(s: Seq<PathSum>, limit: nat, ofset: nat)
    ensures
        page_of(s, limit, ofset) + page_of(s, limit, ofset + 1) == s.subrange(
            if ofset * limit <= s.len() {
                (ofset * limit) as int
            } else {
                s.len() as int
            },
            if ofset * limit + 2 * limit <= s.len() {
                (ofset * limit + 2 * limit) as int
            } else {
                s.len() as int
            },
        ),
{
    assert((ofset + 1) * limit == ofset * limit + limit) by (nonlinear_arith);
    let start: int = (ofset * limit) as int;
    let lo: int = if start <= s.len() {
        start
    } else {
        s.len() as int
    };
    let mid: int = if start + limit <= s.len() {
        start + limit
    } else {
        s.len() as int
    };
    let hi: int = if start + 2 * limit <= s.len() {
        start + 2 * limit
    } else {
        s.len() as int
    };
    assert(page_of(s, limit, ofset) == s.subrange(lo, mid));
    assert(page_of(s, limit, ofset + 1) == s.subrange(mid, hi));
    assert(s.subrange(lo, mid) + s.subrange(mid, hi) =~= s.subrange(lo, hi));
}

/// Compare two path strings; true when `a` comes strictly first.
fn str_lt_exec(a: &str, b: &str) -> (r: bool)
    ensures
        r == str_lt(a@, b@),
{
    let an = a.unicode_len();
    let bn = b.unicode_len();
    let mut i: usize = 0;
    proof {
        assert(a@.skip(0) =~= a@);
        assert(b@.skip(0) =~= b@);
    }
    while i < an && i < bn
        invariant
            i <= an,
            i <= bn,
            an == a@.len(),
            bn == b@.len(),
            str_lt(a@, b@) == str_lt(a@.skip(i as int), b@.skip(i as int)),
        decreases an - i,
    {
        let ca = a.get_char(i);
        let cb = b.get_char(i);
        proof {
            assert(a@.skip(i as int)[0] == a@[i as int]);
            assert(b@.skip(i as int)[0] == b@[i as int]);
            assert(a@.skip(i as int).drop_first() =~= a@.skip(i as int + 1));
            assert(b@.skip(i as int).drop_first() =~= b@.skip(i as int + 1));
        }
        if (ca as u32) < (cb as u32) {
            return true;
        }
        if (cb as u32) < (ca as u32) {
            return false;
        }
        proof {
            assert(ca == cb);
        }
        i += 1;
    }
    proof {
        if i == an && i < bn {
            assert(a@.skip(i as int).len() == 0);
            assert(b@.skip(i as int).len() > 0);
        } else {
            assert(b@.skip(i as int).len() == 0);
        }
    }
    i < bn
}

/// A copy of one catalog row.
fn clone_path(p: &Path) -> (r: Path)
    ensures
        r@ == p@,
{
    Path { path: p.path.clone(), total_unique: p.total_unique, total_requests: p.total_requests }
}

/// The position where the alphabetical insert puts `x`: the first row that
/// `x` strictly precedes.
fn insert_pos_alpha(v: &Vec<Path>, x: &Path) -> (j: usize)
    ensures
        j <= v@.len(),
        forall|m: int| 0 <= m < j ==> !alpha_lt(x@, #[trigger] summaries(v@)[m]),
        j < v@.len() ==> alpha_lt(x@, summaries(v@)[j as int]),
{
    let n = v.len();
    let mut j: usize = 0;
    while j < n
        invariant
            j <= n,
            n == v@.len(),
            forall|m: int| 0 <= m < j ==> !alpha_lt(x@, #[trigger] summaries(v@)[m]),
        decreases n - j,
    {
        if str_lt_exec(x.path.as_str(), v[j].path.as_str()) {
            return j;
        }
        j += 1;
    }
    n
}

/// The position where the unique-descending insert puts `x`.
fn insert_pos_unique(v: &Vec<Path>, x: &Path) -> (j: usize)
    ensures
        j <= v@.len(),
        forall|m: int| 0 <= m < j ==> !unique_gt(x@, #[trigger] summaries(v@)[m]),
        j < v@.len() ==> unique_gt(x@, summaries(v@)[j as int]),
{
    let n = v.len();
    let mut j: usize = 0;
    while j < n
        invariant
            j <= n,
            n == v@.len(),
            forall|m: int| 0 <= m < j ==> !unique_gt(x@, #[trigger] summaries(v@)[m]),
        decreases n - j,
    {
        if x.total_unique > v[j].total_unique {
            return j;
        }
        j += 1;
    }
    n
}

/// Inserting before the first row `x` precedes is what `insert_alpha`
/// computes: the sequence splits at that position around `x`.
proof fn lemma_insert_at_alpha(x: PathSum, s: Seq<PathSum>, j: int)
    requires
        0 <= j <= s.len(),
        forall|m: int| 0 <= m < j ==> !alpha_lt(x, #[trigger] s[m]),
        j < s.len() ==> alpha_lt(x, s[j]),
    ensures
        insert_alpha(x, s) =~= s.take(j) + seq![x] + s.skip(j),
    decreases s.len(),
{
    if s.len() == 0 {
        assert(s.take(0) =~= Seq::<PathSum>::empty());
        assert(s.skip(0) =~= Seq::<PathSum>::empty());
    } else if j == 0 {
        assert(alpha_lt(x, s[0]));
        assert(s.take(0) =~= Seq::<PathSum>::empty());
        assert(s.skip(0) =~= s);
    } else {
        assert(!alpha_lt(x, s[0]));
        assert(forall|m: int| 0 <= m < j - 1 ==> !alpha_lt(x, #[trigger] s.drop_first()[m]));
        lemma_insert_at_alpha(x, s.drop_first(), j - 1);
        assert(s.drop_first().take(j - 1) =~= s.take(j).drop_first());
        assert(s.drop_first().skip(j - 1) =~= s.skip(j));
        assert(seq![s[0]] + (s.take(j).drop_first() + seq![x] + s.skip(j)) =~= s.take(j) + seq![x]
            + s.skip(j));
    }
}

/// Likewise for the unique-descending insert.
proof fn lemma_insert_at_unique(x: PathSum, s: Seq<PathSum>, j: int)
    requires
        0 <= j <= s.len(),
        forall|m: int| 0 <= m < j ==> !unique_gt(x, #[trigger] s[m]),
        j < s.len() ==> unique_gt(x, s[j]),
    ensures
        insert_unique(x, s) =~= s.take(j) + seq![x] + s.skip(j),
    decreases s.len(),
{
    if s.len() == 0 {
        assert(s.take(0) =~= Seq::<PathSum>::empty());
        assert(s.skip(0) =~= Seq::<PathSum>::empty());
    } else if j == 0 {
        assert(unique_gt(x, s[0]));
        assert(s.take(0) =~= Seq::<PathSum>::empty());
        assert(s.skip(0) =~= s);
    } else {
        assert(!unique_gt(x, s[0]));
        assert(forall|m: int| 0 <= m < j - 1 ==> !unique_gt(x, #[trigger] s.drop_first()[m]));
        lemma_insert_at_unique(x, s.drop_first(), j - 1);
        assert(s.drop_first().take(j - 1) =~= s.take(j).drop_first());
        assert(s.drop_first().skip(j - 1) =~= s.skip(j));
        assert(seq![s[0]] + (s.take(j).drop_first() + seq![x] + s.skip(j)) =~= s.take(j) + seq![x]
            + s.skip(j));
    }
}

/// Sort catalog rows alphabetically by path.
pub fn sort_paths_alpha(v: &Vec<Path>) -> (r: Vec<Path>)
    ensures
        summaries(r@) == sort_alpha(summaries(v@)),
{
    let n = v.len();
    let mut out: Vec<Path> = Vec::new();
    let mut i: usize = 0;
    proof {
        assert(summaries(out@) =~= Seq::<PathSum>::empty());
        assert(summaries(v@).take(0) =~= Seq::<PathSum>::empty());
    }
    while i < n
        invariant
            i <= n,
            n == v@.len(),
            summaries(out@) == sort_alpha(summaries(v@).take(i as int)),
        decreases n - i,
    {
        let x = clone_path(&v[i]);
        let ghost sorted_prefix = summaries(out@);
        let j = insert_pos_alpha(&out, &x);
        proof {
            lemma_insert_at_alpha(x@, sorted_prefix, j as int);
        }
        out.insert(j, x);
        proof {
            assert(summaries(out@) =~= sorted_prefix.take(j as int) + seq![x@]
                + sorted_prefix.skip(j as int));
            assert(summaries(v@).take(i as int + 1).drop_last() =~= summaries(v@).take(i as int));
            assert(summaries(v@).take(i as int + 1).last() == x@);
        }
        i += 1;
    }
    proof {
        assert(summaries(v@).take(n as int) =~= summaries(v@));
    }
    out
}

/// Sort catalog rows by unique visitors, most first; rows with equal counts
/// keep the order of the underlying sequence.
pub fn sort_paths_unique(v: &Vec<Path>) -> (r: Vec<Path>)
    ensures
        summaries(r@) == sort_unique(summaries(v@)),
{
    let n = v.len();
    let mut out: Vec<Path> = Vec::new();
    let mut i: usize = 0;
    proof {
        assert(summaries(out@) =~= Seq::<PathSum>::empty());
        assert(summaries(v@).take(0) =~= Seq::<PathSum>::empty());
    }
    while i < n
        invariant
            i <= n,
            n == v@.len(),
            summaries(out@) == sort_unique(summaries(v@).take(i as int)),
        decreases n - i,
    {
        let x = clone_path(&v[i]);
        let ghost sorted_prefix = summaries(out@);
        let j = insert_pos_unique(&out, &x);
        proof {
            lemma_insert_at_unique(x@, sorted_prefix, j as int);
        }
        out.insert(j, x);
        proof {
            assert(summaries(out@) =~= sorted_prefix.take(j as int) + seq![x@]
                + sorted_prefix.skip(j as int));
            assert(summaries(v@).take(i as int + 1).drop_last() =~= summaries(v@).take(i as int));
            assert(summaries(v@).take(i as int + 1).last() == x@);
        }
        i += 1;
    }
    proof {
        assert(summaries(v@).take(n as int) =~= summaries(v@));
    }
    out
}

/// Take one page out of a sorted listing.
pub fn page_slice(sorted: Vec<Path>, limit: usize, ofset: usize) -> (r: Vec<Path>)
    ensures
        summaries(r@) == page_of(summaries(sorted@), limit as nat, ofset as nat),
{
    let n = sorted.len();
    let start_opt = ofset.checked_mul(limit);
    let start = match start_opt {
        Some(s) => s,
        None => {
            // The offset points past any sequence a machine can hold.
            proof {
                assert(ofset * limit > summaries(sorted@).len());
                assert(page_of(summaries(sorted@), limit as nat, ofset as nat) =~= Seq::<
                    PathSum,
                >::empty());
                assert(summaries(Seq::<Path>::empty()) =~= Seq::<PathSum>::empty());
            }
            return Vec::new();
        },
    };
    if start >= n {
        proof {
            assert(page_of(summaries(sorted@), limit as nat, ofset as nat) =~= Seq::<
                PathSum,
            >::empty());
            assert(summaries(Seq::<Path>::empty()) =~= Seq::<PathSum>::empty());
        }
        return Vec::new();
    }
    let count = if n - start < limit {
        n - start
    } else {
        limit
    };
    let mut r: Vec<Path> = Vec::new();
    let mut i: usize = 0;
    proof {
        assert(summaries(r@) =~= Seq::<PathSum>::empty());
    }
    while i < count
        invariant
            i <= count,
            start + count <= n,
            n == sorted@.len(),
            count <= limit,
            (start + count == start + limit) || (start + count == n),
            summaries(r@) =~= summaries(sorted@).subrange(start as int, start as int + i as int),
        decreases count - i,
    {
        let x = clone_path(&sorted[start + i]);
        let ghost r0 = r@;
        let ghost xv = x@;
        r.push(x);
        proof {
            assert(summaries(r0).len() == r0.len());
            assert(r@.len() == r0.len() + 1 && r0.len() == i as int);
            assert forall|m: int| 0 <= m < i as int + 1 implies summaries(r@)[m] == summaries(
                sorted@,
            ).subrange(start as int, start as int + i as int + 1)[m] by {
                if m < i as int {
                    assert(r@[m] == r0[m]);
                    assert(summaries(r0)[m] == summaries(sorted@).subrange(
                        start as int,
                        start as int + i as int,
                    )[m]);
                } else {
                    assert(r@[m]@ == xv);
                    assert(xv == sorted@[start as int + i as int]@);
                }
            }
            assert(summaries(r@) =~= summaries(sorted@).subrange(
                start as int,
                start as int + i as int + 1,
            ));
        }
        i += 1;
    }
    proof {
        assert(summaries(r@) =~= page_of(summaries(sorted@), limit as nat, ofset as nat));
    }
    r
}

} // verus!
