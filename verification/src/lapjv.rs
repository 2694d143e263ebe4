use vstd::prelude::*;
use crate::bfs::{count_false, lemma_count_false_update};

verus! {

/// Largest cost entry the assignment solver accepts (2^60), so that its
/// signed 64-bit dual arithmetic cannot overflow.
pub open spec fn cost_limit() -> int {
    0x1000_0000_0000_0000
}

/// Marks a row or column that has no partner yet.
pub const UNASSIGNED: usize = usize::MAX;

/// Entry `(i, j)` of the cost matrix.
pub open spec fn cost_at(c: Seq<Vec<usize>>, i: int, j: int) -> int {
    c[i]@[j] as int
}

/// `c` is an `n` x `n` matrix (rows may be longer) with entries up to
/// [`cost_limit`].
pub open spec fn square_costs(c: Seq<Vec<usize>>) -> bool {
    &&& forall|i: int| 0 <= i < c.len() ==> (#[trigger] c[i])@.len() >= c.len()
    &&& forall|i: int, j: int| 0 <= i < c.len() && 0 <= j < c.len() ==> #[trigger] cost_at(c, i, j) <= cost_limit()
}

/// Rows and columns matched in pairs: `col[i] == j` exactly when `row[j] == i`.
spec fn matching_ok(n: int, col: Seq<usize>, row: Seq<usize>) -> bool {
    &&& col.len() == n
    &&& row.len() == n
    &&& forall|i: int| 0 <= i < n && #[trigger] col[i] != UNASSIGNED ==> col[i] < n && row[col[i] as int] == i
    &&& forall|j: int| 0 <= j < n && #[trigger] row[j] != UNASSIGNED ==> row[j] < n && col[row[j] as int] == j
}

/// Dual potentials: feasible (`u[i] + v[j] <= c[i][j]`), tight on matched
/// pairs, bounded, and non-negative on unmatched columns.
spec fn duals_ok(c: Seq<Vec<usize>>, u: Seq<i64>, v: Seq<i64>, col: Seq<usize>, row: Seq<usize>) -> bool {
    let n = c.len();
    let b = cost_limit();
    &&& u.len() == n
    &&& v.len() == n
    &&& forall|i: int, j: int| 0 <= i < n && 0 <= j < n ==> u[i] + v[j] <= #[trigger] cost_at(c, i, j)
    &&& forall|i: int| 0 <= i < n && #[trigger] col[i] != UNASSIGNED ==> u[i] + v[col[i] as int] == cost_at(c, i, col[i] as int)
    &&& forall|i: int| 0 <= i < n ==> -b <= #[trigger] u[i] <= b
    &&& forall|j: int| 0 <= j < n ==> -b <= #[trigger] v[j] <= b
    &&& forall|j: int| 0 <= j < n && #[trigger] row[j] == UNASSIGNED ==> v[j] >= 0
}

/// A sequence of `n` distinct values below `k`, none equal to `x` (a value
/// below `k`), has at most `k - 1` elements.
proof fn lemma_injective_bound(s: Seq<usize>, k: int, x: int)
    requires
        0 <= x < k,
        forall|i: int| 0 <= i < s.len() ==> (#[trigger] s[i]) < k && s[i] != x,
        forall|i: int, j: int| 0 <= i < s.len() && 0 <= j < s.len() && i != j ==> #[trigger] s[i] != #[trigger] s[j],
    ensures
        s.len() <= k - 1,
    decreases k,
{
    if k == 1 {
        if s.len() > 0 {
            assert(s[0] < 1 && s[0] != 0);
        }
    } else {
        // drop the value k - 1 (or, when x == k - 1, the value k - 2) and recurse
        let top = if x == k - 1 { k - 2 } else { k - 1 };
        let x2 = if x == k - 1 { k - 2 } else { x };
        if exists|p: int| 0 <= p < s.len() && s[p] == top {
            let p = choose|p: int| 0 <= p < s.len() && s[p] == top;
            let t = s.remove(p);
            let t2 = t.map_values(|y: usize| if y == k - 1 { top as usize } else { y });
            assert forall|i: int| 0 <= i < t2.len() implies (#[trigger] t2[i]) < k - 1 && t2[i] != x2 by {
                if i < p {
                    assert(t[i] == s[i]);
                } else {
                    assert(t[i] == s[i + 1]);
                }
            }
            assert forall|i: int, j: int| 0 <= i < t2.len() && 0 <= j < t2.len() && i != j implies #[trigger] t2[i] != #[trigger] t2[j] by {
                let si = if i < p { i } else { i + 1 };
                let sj = if j < p { j } else { j + 1 };
                assert(t[i] == s[si]);
                assert(t[j] == s[sj]);
            }
            lemma_injective_bound(t2, k - 1, x2);
        } else {
            let t2 = s.map_values(|y: usize| if y == k - 1 { top as usize } else { y });
            assert forall|i: int| 0 <= i < t2.len() implies (#[trigger] t2[i]) < k - 1 && t2[i] != x2 by {
                assert(s[i] != top);
            }
            assert forall|i: int, j: int| 0 <= i < t2.len() && 0 <= j < t2.len() && i != j implies #[trigger] t2[i] != #[trigger] t2[j] by {
                assert(s[i] != top);
                assert(s[j] != top);
            }
            lemma_injective_bound(t2, k - 1, x2);
        }
    }
}


/// Column reduction: `v[j]` is the least entry of column `j`.
fn reduce_columns(cost: &[Vec<usize>]) -> (v: Vec<i64>)
    requires
        cost@.len() > 0,
        square_costs(cost@),
    ensures
        v@.len() == cost@.len(),
        forall|i: int, j: int| 0 <= i < cost@.len() && 0 <= j < cost@.len() ==> v@[j] <= #[trigger] cost_at(cost@, i, j),
        forall|j: int| 0 <= j < cost@.len() ==> 0 <= #[trigger] v@[j] <= cost_limit(),
{
    let n = cost.len();
    let mut v: Vec<i64> = Vec::new();
    let mut j: usize = 0;
    while j < n
        invariant
            n == cost@.len(),
            n > 0,
            square_costs(cost@),
            j <= n,
            v@.len() == j,
            forall|i: int, jj: int| 0 <= i < n && 0 <= jj < j ==> v@[jj] <= #[trigger] cost_at(cost@, i, jj),
            forall|jj: int| 0 <= jj < j ==> 0 <= #[trigger] v@[jj] <= cost_limit(),
        decreases n - j,
    {
        assert(cost@[0]@.len() >= n);
        assert(cost_at(cost@, 0, j as int) <= cost_limit());
        let mut m: i64 = cost[0][j] as i64;
        let mut i: usize = 1;
        while i < n
            invariant
                n == cost@.len(),
                square_costs(cost@),
                j < n,
                1 <= i <= n,
                0 <= m <= cost_limit(),
                forall|ii: int| 0 <= ii < i ==> m <= #[trigger] cost_at(cost@, ii, j as int),
            decreases n - i,
        {
            assert(cost@[i as int]@.len() >= n);
            assert(cost_at(cost@, i as int, j as int) <= cost_limit());
            let x = cost[i][j] as i64;
            if x < m {
                m = x;
            }
            i = i + 1;
        }
        v.push(m);
        j = j + 1;
    }
    v
}

/// Row reduction: `u[i]` is the least entry of row `i` less `v`.
fn reduce_rows(cost: &[Vec<usize>], v: &Vec<i64>) -> (u: Vec<i64>)
    requires
        cost@.len() > 0,
        square_costs(cost@),
        v@.len() == cost@.len(),
        forall|j: int| 0 <= j < cost@.len() ==> 0 <= #[trigger] v@[j] <= cost_limit(),
    ensures
        u@.len() == cost@.len(),
        forall|i: int, j: int| 0 <= i < cost@.len() && 0 <= j < cost@.len() ==> u@[i] + v@[j] <= #[trigger] cost_at(cost@, i, j),
        forall|i: int| 0 <= i < cost@.len() ==> -cost_limit() <= #[trigger] u@[i] <= cost_limit(),
{
    let n = cost.len();
    let mut u: Vec<i64> = Vec::new();
    let mut i: usize = 0;
    while i < n
        invariant
            n == cost@.len(),
            n > 0,
            square_costs(cost@),
            v@.len() == n,
            forall|j: int| 0 <= j < n ==> 0 <= #[trigger] v@[j] <= cost_limit(),
            i <= n,
            u@.len() == i,
            forall|ii: int, j: int| 0 <= ii < i && 0 <= j < n ==> u@[ii] + v@[j] <= #[trigger] cost_at(cost@, ii, j),
            forall|ii: int| 0 <= ii < i ==> -cost_limit() <= #[trigger] u@[ii] <= cost_limit(),
        decreases n - i,
    {
        assert(cost@[i as int]@.len() >= n);
        assert(cost_at(cost@, i as int, 0) <= cost_limit());
        assert(0 <= v@[0] <= cost_limit());
        let mut m: i64 = cost[i][0] as i64 - v[0];
        let mut j: usize = 1;
        while j < n
            invariant
                n == cost@.len(),
                square_costs(cost@),
                v@.len() == n,
                forall|jj: int| 0 <= jj < n ==> 0 <= #[trigger] v@[jj] <= cost_limit(),
                i < n,
                1 <= j <= n,
                -cost_limit() <= m <= cost_limit(),
                forall|jj: int| 0 <= jj < j ==> m + v@[jj] <= #[trigger] cost_at(cost@, i as int, jj),
            decreases n - j,
        {
            assert(cost@[i as int]@.len() >= n);
            assert(cost_at(cost@, i as int, j as int) <= cost_limit());
            assert(0 <= v@[j as int] <= cost_limit());
            let x = cost[i][j] as i64 - v[j];
            if x < m {
                m = x;
            }
            j = j + 1;
        }
        u.push(m);
        i = i + 1;
    }
    u
}


/// Reduced cost of the pair `(i, j)` under the potentials.
pub open spec fn red(c: Seq<Vec<usize>>, u: Seq<i64>, v: Seq<i64>, i: int, j: int) -> int {
    cost_at(c, i, j) - u[i] - v[j]
}

/// Row `r` has been scanned in the search from the free row `fr`.
spec fn scanned(col: Seq<usize>, visited: Seq<bool>, fr: int, r: int) -> bool {
    r == fr || (col[r] != UNASSIGNED && col[r] < visited.len() && visited[col[r] as int])
}

/// Label of a scanned row: 0 for the free row, else the label of its column.
spec fn base(col: Seq<usize>, dist: Seq<i64>, fr: int, r: int) -> int {
    if r == fr { 0 } else { dist[col[r] as int] as int }
}

/// State of the shortest augmenting path search from the free row `fr`.
spec fn search_ok(
    c: Seq<Vec<usize>>,
    u: Seq<i64>,
    v: Seq<i64>,
    col: Seq<usize>,
    row: Seq<usize>,
    fr: int,
    dist: Seq<i64>,
    pred: Seq<usize>,
    visited: Seq<bool>,
    rank: Seq<int>,
) -> bool {
    search_ok_p(c, u, v, col, row, fr, dist, pred, visited, rank, -1, 0)
}

/// [`search_ok`] while row `pscan` is being scanned: its bound on column `j`
/// is only known for `j < pk` and for visited columns.
spec fn search_ok_p(
    c: Seq<Vec<usize>>,
    u: Seq<i64>,
    v: Seq<i64>,
    col: Seq<usize>,
    row: Seq<usize>,
    fr: int,
    dist: Seq<i64>,
    pred: Seq<usize>,
    visited: Seq<bool>,
    rank: Seq<int>,
    pscan: int,
    pk: int,
) -> bool {
    let n = c.len();
    let nvis = n - count_false(visited);
    &&& dist.len() == n
    &&& pred.len() == n
    &&& visited.len() == n
    &&& rank.len() == n
    &&& forall|j: int| 0 <= j < n ==> 0 <= #[trigger] dist[j] <= 3 * cost_limit()
    &&& forall|j: int| 0 <= j < n && #[trigger] visited[j] ==> row[j] != UNASSIGNED
    &&& forall|j: int, k: int| 0 <= j < n && 0 <= k < n && #[trigger] visited[j] && !#[trigger] visited[k] ==> dist[j] <= dist[k]
    &&& forall|j: int| 0 <= j < n ==> (#[trigger] pred[j]) < n && scanned(col, visited, fr, pred[j] as int)
    &&& forall|j: int| 0 <= j < n ==> #[trigger] dist[j] == base(col, dist, fr, pred[j] as int) + red(c, u, v, pred[j] as int, j)
    &&& forall|r: int, j: int| 0 <= r < n && 0 <= j < n && scanned(col, visited, fr, r) && (r != pscan || j < pk || visited[j]) ==>
        #[trigger] dist[j] <= base(col, dist, fr, r) + #[trigger] red(c, u, v, r, j)
    &&& forall|j: int| 0 <= j < n && #[trigger] visited[j] ==> 0 <= rank[j] < nvis
    &&& forall|j: int| 0 <= j < n && #[trigger] visited[j] && pred[j] != fr ==> rank[col[pred[j] as int] as int] < rank[j]
}

proof fn lemma_count_false_le(s: Seq<bool>)
    ensures
        count_false(s) <= s.len(),
    decreases s.len(),
{
    if s.len() > 0 {
        lemma_count_false_le(s.drop_last());
    }
}

/// While the free row `fr` is unmatched and every visited column is matched,
/// some column is still unvisited.
proof fn lemma_unvisited_exists(c: Seq<Vec<usize>>, col: Seq<usize>, row: Seq<usize>, fr: int, visited: Seq<bool>)
    requires
        c.len() > 0,
        0 <= fr < c.len(),
        matching_ok(c.len() as int, col, row),
        col[fr] == UNASSIGNED,
        visited.len() == c.len(),
        forall|j: int| 0 <= j < c.len() && #[trigger] visited[j] ==> row[j] != UNASSIGNED,
        c.len() <= usize::MAX,
    ensures
        exists|j: int| 0 <= j < c.len() && !visited[j],
{
    let n = c.len() as int;
    if forall|j: int| 0 <= j < n ==> #[trigger] visited[j] {
        assert forall|j: int| 0 <= j < row.len() implies (#[trigger] row[j]) < n && row[j] != fr by {
            assert(visited[j]);
            assert(row[j] != UNASSIGNED);
            assert(row[j] < n && col[row[j] as int] == j);
        }
        assert forall|i: int, j: int| 0 <= i < row.len() && 0 <= j < row.len() && i != j implies #[trigger] row[i] != #[trigger] row[j] by {
            assert(visited[i]);
            assert(visited[j]);
        }
        lemma_injective_bound(row, n, fr);
    }
}

proof fn lemma_red_nonneg(c: Seq<Vec<usize>>, u: Seq<i64>, v: Seq<i64>, col: Seq<usize>, row: Seq<usize>, i: int, j: int)
    requires
        duals_ok(c, u, v, col, row),
        0 <= i < c.len(),
        0 <= j < c.len(),
    ensures
        0 <= red(c, u, v, i, j),
{
    assert(u[i] + v[j] <= cost_at(c, i, j));
}

/// Visiting the cheapest unvisited column `e`, which is matched to row `scan`.
proof fn lemma_visit(
    c: Seq<Vec<usize>>,
    u: Seq<i64>,
    v: Seq<i64>,
    col: Seq<usize>,
    row: Seq<usize>,
    fr: int,
    dist: Seq<i64>,
    pred: Seq<usize>,
    old_vis: Seq<bool>,
    old_rank: Seq<int>,
    e: int,
    nvis: int,
    rank: Seq<int>,
)
    requires
        c.len() > 0,
        0 <= fr < c.len(),
        matching_ok(c.len() as int, col, row),
        duals_ok(c, u, v, col, row),
        col[fr] == UNASSIGNED,
        search_ok(c, u, v, col, row, fr, dist, pred, old_vis, old_rank),
        0 <= e < c.len(),
        !old_vis[e],
        forall|x: int| 0 <= x < c.len() && !#[trigger] old_vis[x] ==> dist[e] <= dist[x],
        nvis == c.len() - count_false(old_vis),
        rank == old_rank.update(e, nvis),
        c.len() <= usize::MAX,
    ensures
        search_ok(c, u, v, col, row, fr, dist, pred, old_vis, rank),
        forall|j: int| 0 <= j < c.len() && #[trigger] old_vis[j] ==> dist[j] <= dist[e],
        forall|j: int| 0 <= j < c.len() && #[trigger] old_vis[j] ==> rank[j] < rank[e],
        pred[e] != fr ==> rank[col[pred[e] as int] as int] < rank[e],
        rank[e] >= 0,
        row[e] != UNASSIGNED ==> search_ok_p(c, u, v, col, row, fr, dist, pred, old_vis.update(e, true), rank, row[e] as int, 0),
{
    let n = c.len();
    let vis = old_vis.update(e, true);
    lemma_count_false_update(old_vis, e);
    lemma_count_false_le(old_vis);
    lemma_count_false_le(vis);
    assert(scanned(col, old_vis, fr, pred[e] as int));
    assert forall|j: int| 0 <= j < n && #[trigger] old_vis[j] && pred[j] != fr implies rank[col[pred[j] as int] as int] < rank[j] by {
        assert(scanned(col, old_vis, fr, pred[j] as int));
        assert(old_vis[col[pred[j] as int] as int]);
    }
    if row[e] != UNASSIGNED {
        let scan = row[e] as int;
        assert(col[scan] == e);
        assert(scan != fr);
        assert forall|r: int| 0 <= r < n && scanned(col, old_vis, fr, r) implies scanned(col, vis, fr, r) && base(col, dist, fr, r) == base(col, dist, fr, r) by {}
        assert forall|j: int| 0 <= j < n implies (#[trigger] pred[j]) < n && scanned(col, vis, fr, pred[j] as int) by {
            assert(scanned(col, old_vis, fr, pred[j] as int));
        }
        assert forall|j: int| 0 <= j < n implies #[trigger] dist[j] == base(col, dist, fr, pred[j] as int) + red(c, u, v, pred[j] as int, j) by {
            assert(scanned(col, old_vis, fr, pred[j] as int));
        }
        assert forall|r: int, j: int| 0 <= r < n && 0 <= j < n && scanned(col, vis, fr, r) && (r != scan || j < 0 || vis[j]) implies
            #[trigger] dist[j] <= base(col, dist, fr, r) + #[trigger] red(c, u, v, r, j) by {
            lemma_red_nonneg(c, u, v, col, row, r, j);
            if r == scan {
                assert(base(col, dist, fr, r) == dist[e]);
                if j != e {
                    assert(old_vis[j]);
                }
            } else {
                assert(scanned(col, old_vis, fr, r));
            }
        }
        assert forall|j: int, k: int| 0 <= j < n && 0 <= k < n && #[trigger] vis[j] && !#[trigger] vis[k] implies dist[j] <= dist[k] by {
            if j != e {
                assert(old_vis[j]);
            }
        }
        assert forall|j: int| 0 <= j < n && #[trigger] vis[j] && pred[j] != fr implies rank[col[pred[j] as int] as int] < rank[j] by {
            if j != e {
                assert(old_vis[j]);
                assert(scanned(col, old_vis, fr, pred[j] as int));
            }
        }
    }
    assert forall|j: int| 0 <= j < n && #[trigger] vis[j] implies 0 <= rank[j] < n - count_false(vis) by {
        if j != e {
            assert(old_vis[j]);
            assert(rank[j] == old_rank[j]);
        } else {
            assert(rank[j] == nvis);
        }
    }
}

/// Relaxing column `k` from the row `scan` lowers its label.
proof fn lemma_relax_step(
    c: Seq<Vec<usize>>,
    u: Seq<i64>,
    v: Seq<i64>,
    col: Seq<usize>,
    row: Seq<usize>,
    fr: int,
    d0: Seq<i64>,
    p0: Seq<usize>,
    vis: Seq<bool>,
    rank: Seq<int>,
    scan: int,
    k: int,
    d1: Seq<i64>,
    p1: Seq<usize>,
)
    requires
        duals_ok(c, u, v, col, row),
        0 <= scan < c.len(),
        scan != fr,
        col[scan] != UNASSIGNED,
        col[scan] < c.len(),
        vis[col[scan] as int],
        0 <= k < c.len(),
        !vis[k],
        forall|j: int| 0 <= j < c.len() && #[trigger] vis[j] ==> d0[j] <= d0[col[scan] as int],
        search_ok_p(c, u, v, col, row, fr, d0, p0, vis, rank, scan, k),
        base(col, d0, fr, scan) + red(c, u, v, scan, k) < d0[k],
        d1 == d0.update(k, (base(col, d0, fr, scan) + red(c, u, v, scan, k)) as i64),
        p1 == p0.update(k, scan as usize),
        c.len() <= usize::MAX,
    ensures
        search_ok_p(c, u, v, col, row, fr, d1, p1, vis, rank, scan, k + 1),
        forall|j: int| 0 <= j < c.len() && #[trigger] vis[j] ==> d1[j] <= d1[col[scan] as int],
{
    let n = c.len();
    let e = col[scan] as int;
    let nd = base(col, d0, fr, scan) + red(c, u, v, scan, k);
    lemma_red_nonneg(c, u, v, col, row, scan, k);
    assert(e != k);
    assert(d1[k] == nd);
    assert forall|r: int| 0 <= r < n && scanned(col, vis, fr, r) implies base(col, d1, fr, r) == base(col, d0, fr, r) by {
        if r != fr {
            assert(col[r] as int != k);
        }
    }
    assert forall|j: int| 0 <= j < n implies (#[trigger] p1[j]) < n && scanned(col, vis, fr, p1[j] as int) by {
        if j != k {
            assert(p1[j] == p0[j]);
        }
    }
    assert forall|j: int| 0 <= j < n implies #[trigger] d1[j] == base(col, d1, fr, p1[j] as int) + red(c, u, v, p1[j] as int, j) by {
        if j != k {
            assert(p1[j] == p0[j]);
            assert(scanned(col, vis, fr, p0[j] as int));
        }
    }
    assert forall|r: int, j: int| 0 <= r < n && 0 <= j < n && scanned(col, vis, fr, r) && (r != scan || j < k + 1 || vis[j]) implies
        #[trigger] d1[j] <= base(col, d1, fr, r) + #[trigger] red(c, u, v, r, j) by {
        if j != k {
            assert(d1[j] == d0[j]);
        } else if r != scan {
            assert(d0[k] <= base(col, d0, fr, r) + red(c, u, v, r, k));
        }
    }
    assert forall|j: int, x: int| 0 <= j < n && 0 <= x < n && #[trigger] vis[j] && !#[trigger] vis[x] implies d1[j] <= d1[x] by {
        assert(j != k);
        if x == k {
            assert(d0[j] <= d0[e]);
            assert(base(col, d0, fr, scan) == d0[e]);
        }
    }
    assert forall|j: int| 0 <= j < n && #[trigger] vis[j] && p1[j] != fr implies rank[col[p1[j] as int] as int] < rank[j] by {
        assert(j != k);
    }
    assert forall|j: int| 0 <= j < n implies 0 <= #[trigger] d1[j] <= 3 * cost_limit() by {
        if j == k {
            assert(base(col, d0, fr, scan) == d0[e]);
        }
    }
}

/// Column `k` keeps its label when it is visited or the route through
/// `scan` is no shorter.
proof fn lemma_relax_skip(
    c: Seq<Vec<usize>>,
    u: Seq<i64>,
    v: Seq<i64>,
    col: Seq<usize>,
    row: Seq<usize>,
    fr: int,
    dist: Seq<i64>,
    pred: Seq<usize>,
    vis: Seq<bool>,
    rank: Seq<int>,
    scan: int,
    k: int,
)
    requires
        0 <= k < c.len(),
        search_ok_p(c, u, v, col, row, fr, dist, pred, vis, rank, scan, k),
        vis[k] || dist[k] <= base(col, dist, fr, scan) + red(c, u, v, scan, k),
    ensures
        search_ok_p(c, u, v, col, row, fr, dist, pred, vis, rank, scan, k + 1),
{
    let n = c.len();
    assert forall|r: int, j: int| 0 <= r < n && 0 <= j < n && scanned(col, vis, fr, r) && (r != scan || j < k + 1 || vis[j]) implies
        #[trigger] dist[j] <= base(col, dist, fr, r) + #[trigger] red(c, u, v, r, j) by {
    }
}

/// A finished scan restores the full search invariant.
proof fn lemma_relax_done(
    c: Seq<Vec<usize>>,
    u: Seq<i64>,
    v: Seq<i64>,
    col: Seq<usize>,
    row: Seq<usize>,
    fr: int,
    dist: Seq<i64>,
    pred: Seq<usize>,
    vis: Seq<bool>,
    rank: Seq<int>,
    scan: int,
)
    requires
        search_ok_p(c, u, v, col, row, fr, dist, pred, vis, rank, scan, c.len() as int),
    ensures
        search_ok(c, u, v, col, row, fr, dist, pred, vis, rank),
{
    let n = c.len();
    assert forall|r: int, j: int| 0 <= r < n && 0 <= j < n && scanned(col, vis, fr, r) && (r != -1 || j < 0 || vis[j]) implies
        #[trigger] dist[j] <= base(col, dist, fr, r) + #[trigger] red(c, u, v, r, j) by {
    }
}

/// Shortest augmenting path search from the free row `fr` (Dijkstra on
/// reduced costs); stops at the first unmatched column reached.
fn search(
    cost: &[Vec<usize>],
    col: &Vec<usize>,
    row: &Vec<usize>,
    u: &Vec<i64>,
    v: &Vec<i64>,
    fr: usize,
) -> (res: (Vec<i64>, Vec<usize>, Vec<bool>, usize, Ghost<Seq<int>>))
    requires
        cost@.len() > 0,
        square_costs(cost@),
        fr < cost@.len(),
        matching_ok(cost@.len() as int, col@, row@),
        duals_ok(cost@, u@, v@, col@, row@),
        col@[fr as int] == UNASSIGNED,
    ensures
        ({
            let (dist, pred, visited, end, rank) = res;
            &&& search_ok(cost@, u@, v@, col@, row@, fr as int, dist@, pred@, visited@.update(end as int, false), rank@)
            &&& end < cost@.len()
            &&& visited@.len() == cost@.len()
            &&& rank@[end as int] >= 0
            &&& visited@[end as int]
            &&& row@[end as int] == UNASSIGNED
            &&& forall|j: int| 0 <= j < cost@.len() && #[trigger] visited@[j] ==> dist@[j] <= dist@[end as int]
            &&& forall|k: int| 0 <= k < cost@.len() && !#[trigger] visited@[k] ==> dist@[end as int] <= dist@[k]
            &&& forall|j: int| 0 <= j < cost@.len() && #[trigger] visited@[j] && j != end ==> rank@[j] < rank@[end as int]
            &&& pred@[end as int] != fr ==> rank@[col@[pred@[end as int] as int] as int] < rank@[end as int]
            &&& !visited@.update(end as int, false)[end as int]
        }),
{
    let n = cost.len();
    let mut dist: Vec<i64> = Vec::new();
    let mut pred: Vec<usize> = Vec::new();
    let mut visited: Vec<bool> = Vec::new();
    let mut j: usize = 0;
    while j < n
        invariant
            n == cost@.len(),
            square_costs(cost@),
            fr < n,
            duals_ok(cost@, u@, v@, col@, row@),
            j <= n,
            dist@.len() == j,
            pred@.len() == j,
            visited@.len() == j,
            count_false(visited@) == j,
            forall|k: int| 0 <= k < j ==> !(#[trigger] visited@[k]),
            forall|k: int| 0 <= k < j ==> #[trigger] pred@[k] == fr,
            forall|k: int| 0 <= k < j ==> #[trigger] dist@[k] == red(cost@, u@, v@, fr as int, k),
        decreases n - j,
    {
        assert(cost@[fr as int]@.len() >= n);
        assert(cost_at(cost@, fr as int, j as int) <= cost_limit());
        assert(u@[fr as int] + v@[j as int] <= cost_at(cost@, fr as int, j as int));
        let ghost before = visited@;
        dist.push(cost[fr][j] as i64 - u[fr] - v[j]);
        pred.push(fr);
        visited.push(false);
        assert(visited@.drop_last() =~= before);
        j = j + 1;
    }
    let ghost mut rank: Seq<int> = Seq::new(n as nat, |k: int| 0int);
    proof {
        assert forall|r: int, k: int| 0 <= r < n && 0 <= k < n && scanned(col@, visited@, fr as int, r) implies
            #[trigger] dist@[k] <= base(col@, dist@, fr as int, r) + #[trigger] red(cost@, u@, v@, r, k) by {
            if r != fr {
                assert(!visited@[col@[r] as int]);
            }
        }
        assert(search_ok(cost@, u@, v@, col@, row@, fr as int, dist@, pred@, visited@, rank));
    }
    let mut end_col: usize = UNASSIGNED;
    let mut done = false;
    while !done
        invariant
            n == cost@.len(),
            n > 0,
            square_costs(cost@),
            fr < n,
            matching_ok(n as int, col@, row@),
            duals_ok(cost@, u@, v@, col@, row@),
            col@[fr as int] == UNASSIGNED,
            !done ==> search_ok(cost@, u@, v@, col@, row@, fr as int, dist@, pred@, visited@, rank),
            done ==> {
                &&& search_ok(cost@, u@, v@, col@, row@, fr as int, dist@, pred@, visited@.update(end_col as int, false), rank)
                &&& end_col < n
                &&& visited@.len() == n
                &&& rank[end_col as int] >= 0
                &&& visited@[end_col as int]
                &&& row@[end_col as int] == UNASSIGNED
                &&& forall|j: int| 0 <= j < n && #[trigger] visited@[j] ==> dist@[j] <= dist@[end_col as int]
                &&& forall|k: int| 0 <= k < n && !#[trigger] visited@[k] ==> dist@[end_col as int] <= dist@[k]
                &&& forall|j: int| 0 <= j < n && #[trigger] visited@[j] && j != end_col ==> rank[j] < rank[end_col as int]
                &&& pred@[end_col as int] != fr ==> rank[col@[pred@[end_col as int] as int] as int] < rank[end_col as int]
                &&& !visited@.update(end_col as int, false)[end_col as int]
            },
        decreases count_false(visited@) + if done { 0int } else { 1int },
    {
        proof {
            assert(cost@.len() <= usize::MAX);
            lemma_unvisited_exists(cost@, col@, row@, fr as int, visited@);
        }
        let mut min_dist: i64 = i64::MAX;
        let mut best: usize = UNASSIGNED;
        let mut k: usize = 0;
        while k < n
            invariant
                n == visited@.len(),
                n == dist@.len(),
                k <= n,
                forall|x: int| 0 <= x < n ==> 0 <= #[trigger] dist@[x] <= 3 * cost_limit(),
                best == UNASSIGNED ==> min_dist == i64::MAX && forall|x: int| 0 <= x < k ==> #[trigger] visited@[x],
                best != UNASSIGNED ==> best < k && !visited@[best as int] && min_dist == dist@[best as int]
                    && forall|x: int| 0 <= x < k && !#[trigger] visited@[x] ==> min_dist <= dist@[x],
            decreases n - k,
        {
            if !visited[k] && dist[k] < min_dist {
                min_dist = dist[k];
                best = k;
            }
            k = k + 1;
        }
        if best == UNASSIGNED {
            proof {
                assert(false);
            }
        }
        let e = best;
        let ghost old_vis = visited@;
        let ghost old_rank = rank;
        let ghost nvis = n - count_false(visited@);
        proof {
            lemma_count_false_update(visited@, e as int);
            rank = rank.update(e as int, nvis);
        }
        visited.set(e, true);
        proof {
            assert(cost@.len() <= usize::MAX);
            lemma_visit(cost@, u@, v@, col@, row@, fr as int, dist@, pred@, old_vis, old_rank, e as int, nvis, rank);
        }
        if row[e] == UNASSIGNED {
            end_col = e;
            done = true;
            proof {
                assert(visited@.update(e as int, false) =~= old_vis);
            }
        } else {
            let scan = row[e];
            let mut k: usize = 0;
            while k < n
                invariant
                    n == cost@.len(),
                    square_costs(cost@),
                    fr < n,
                    matching_ok(n as int, col@, row@),
                    duals_ok(cost@, u@, v@, col@, row@),
                    col@[fr as int] == UNASSIGNED,
                    e < n,
                    visited@[e as int],
                    scan == row@[e as int],
                    scan < n,
                    col@[scan as int] == e,
                    min_dist == dist@[e as int],
                    k <= n,
                    forall|x: int| 0 <= x < n && !#[trigger] visited@[x] ==> dist@[e as int] <= dist@[x],
                    forall|x: int| 0 <= x < n && #[trigger] visited@[x] ==> dist@[x] <= dist@[e as int],
                    search_ok_p(cost@, u@, v@, col@, row@, fr as int, dist@, pred@, visited@, rank, scan as int, k as int),
                decreases n - k,
            {
                if !visited[k] {
                    proof {
                        assert(cost@[scan as int]@.len() >= n);
                        assert(cost_at(cost@, scan as int, k as int) <= cost_limit());
                        assert(u@[scan as int] + v@[k as int] <= cost_at(cost@, scan as int, k as int));
                        assert(-cost_limit() <= u@[scan as int] <= cost_limit());
                        assert(-cost_limit() <= v@[k as int] <= cost_limit());
                        assert(0 <= dist@[e as int] <= 3 * cost_limit());
                    }
                    let new_dist = cost[scan][k] as i64 - u[scan] - v[k] + min_dist;
                    assert(new_dist == base(col@, dist@, fr as int, scan as int) + red(cost@, u@, v@, scan as int, k as int));
                    if new_dist < dist[k] {
                        let ghost d0 = dist@;
                        let ghost p0 = pred@;
                        dist.set(k, new_dist);
                        pred.set(k, scan);
                        proof {
                            assert(cost@.len() <= usize::MAX);
                            lemma_relax_step(cost@, u@, v@, col@, row@, fr as int, d0, p0, visited@, rank, scan as int, k as int, dist@, pred@);
                        }
                    } else {
                        proof {
                            lemma_relax_skip(cost@, u@, v@, col@, row@, fr as int, dist@, pred@, visited@, rank, scan as int, k as int);
                        }
                    }
                } else {
                    proof {
                        lemma_relax_skip(cost@, u@, v@, col@, row@, fr as int, dist@, pred@, visited@, rank, scan as int, k as int);
                    }
                }
                k = k + 1;
            }
            proof {
                lemma_relax_done(cost@, u@, v@, col@, row@, fr as int, dist@, pred@, visited@, rank, scan as int);
            }
        }
    }
    (dist, pred, visited, end_col, Ghost(rank))
}


/// Column potential after the dual update of an augmentation (`e` is the
/// column where the search ended, `delta` its label).
spec fn new_v(v0: Seq<i64>, d: Seq<i64>, vis_s: Seq<bool>, e: int, delta: int, j: int) -> int {
    if vis_s[j] || j == e { v0[j] + d[j] - delta } else { v0[j] as int }
}

/// Row potential after the dual update, before the free row's is set.
spec fn new_u(c: Seq<Vec<usize>>, u0: Seq<i64>, v0: Seq<i64>, c0: Seq<usize>, d: Seq<i64>, vis_s: Seq<bool>, fr: int, e: int, delta: int, i: int) -> int {
    if i != fr && c0[i] != UNASSIGNED && c0[i] < vis_s.len() && vis_s[c0[i] as int] {
        cost_at(c, i, c0[i] as int) - new_v(v0, d, vis_s, e, delta, c0[i] as int)
    } else {
        u0[i] as int
    }
}

/// Row potential after the whole augmentation.
spec fn final_u(c: Seq<Vec<usize>>, u0: Seq<i64>, v0: Seq<i64>, c0: Seq<usize>, d: Seq<i64>, vis_s: Seq<bool>, fr: int, e: int, delta: int, i: int) -> int {
    if i == fr { u0[i] + delta } else { new_u(c, u0, v0, c0, d, vis_s, fr, e, delta, i) }
}

/// The potentials after an augmentation are feasible, tight on the new
/// matching and bounded.
proof fn lemma_final_duals(
    c: Seq<Vec<usize>>,
    u0: Seq<i64>,
    v0: Seq<i64>,
    c0: Seq<usize>,
    r0: Seq<usize>,
    fr: int,
    d: Seq<i64>,
    p: Seq<usize>,
    vis_s: Seq<bool>,
    rank: Seq<int>,
    e: int,
    col: Seq<usize>,
    row: Seq<usize>,
    uu: Seq<i64>,
    vv: Seq<i64>,
)
    requires
        c.len() > 0,
        c.len() <= usize::MAX,
        square_costs(c),
        0 <= fr < c.len(),
        matching_ok(c.len() as int, c0, r0),
        duals_ok(c, u0, v0, c0, r0),
        c0[fr] == UNASSIGNED,
        search_ok(c, u0, v0, c0, r0, fr, d, p, vis_s, rank),
        0 <= e < c.len(),
        !vis_s[e],
        r0[e] == UNASSIGNED,
        forall|j: int| 0 <= j < c.len() && #[trigger] vis_s[j] ==> d[j] <= d[e],
        forall|k: int| 0 <= k < c.len() && !#[trigger] vis_s[k] ==> d[e] <= d[k],
        matching_ok(c.len() as int, col, row),
        forall|i: int| 0 <= i < c.len() ==> #[trigger] col[i] == c0[i] || (col[i] < c.len() && (vis_s[col[i] as int] || col[i] == e) && p[col[i] as int] == i),
        forall|k: int| 0 <= k < c.len() && #[trigger] row[k] == UNASSIGNED ==> r0[k] == UNASSIGNED && k != e,
        col[fr] != UNASSIGNED,
        uu.len() == c.len(),
        vv.len() == c.len(),
        forall|i: int| 0 <= i < c.len() ==> #[trigger] uu[i] == final_u(c, u0, v0, c0, d, vis_s, fr, e, d[e] as int, i),
        forall|j: int| 0 <= j < c.len() ==> #[trigger] vv[j] == new_v(v0, d, vis_s, e, d[e] as int, j),
    ensures
        duals_ok(c, uu, vv, col, row),
{
    let n = c.len();
    let delta = d[e] as int;
    let b = cost_limit();
    // the potential of every scanned row moved by delta less its label
    assert forall|i: int| 0 <= i < n && scanned(c0, vis_s, fr, i) implies
        #[trigger] uu[i] == u0[i] + delta - base(c0, d, fr, i) by {
        if i != fr {
            let k = c0[i] as int;
            assert(r0[k] == i);
            assert(u0[i] + v0[k] == cost_at(c, i, k));
        }
    }
    assert forall|i: int| 0 <= i < n && !scanned(c0, vis_s, fr, i) implies #[trigger] uu[i] == u0[i] by {}
    // feasibility
    assert forall|i: int, j: int| 0 <= i < n && 0 <= j < n implies uu[i] + vv[j] <= #[trigger] cost_at(c, i, j) by {
        assert(u0[i] + v0[j] <= cost_at(c, i, j));
        lemma_red_nonneg(c, u0, v0, c0, r0, i, j);
        if scanned(c0, vis_s, fr, i) {
            assert(d[j] <= base(c0, d, fr, i) + red(c, u0, v0, i, j));
            if i != fr {
                assert(vis_s[c0[i] as int]);
            }
        }
    }
    // tightness on the new matching
    assert forall|i: int| 0 <= i < n && #[trigger] col[i] != UNASSIGNED implies uu[i] + vv[col[i] as int] == cost_at(c, i, col[i] as int) by {
        let k = col[i] as int;
        if col[i] != c0[i] {
            assert(p[k] == i);
            assert(scanned(c0, vis_s, fr, i));
            assert(d[k] == base(c0, d, fr, p[k] as int) + red(c, u0, v0, p[k] as int, k));
        } else {
            assert(r0[k] == i);
            assert(u0[i] + v0[k] == cost_at(c, i, k));
            assert(k != e);
            if vis_s[k] {
                assert(scanned(c0, vis_s, fr, i));
            } else {
                assert(!scanned(c0, vis_s, fr, i));
            }
        }
    }
    // bounds
    assert forall|j: int| 0 <= j < n implies #[trigger] vv[j] <= b by {
        assert(-b <= v0[j] <= b);
        if vis_s[j] || j == e {
            assert(d[j] <= d[e]);
        }
    }
    assert forall|i: int| 0 <= i < n implies #[trigger] uu[i] <= b by {
        assert(uu[i] + vv[e] <= cost_at(c, i, e));
        assert(v0[e] >= 0);
        assert(cost_at(c, i, e) <= b);
    }
    assert forall|j: int| 0 <= j < n && #[trigger] row[j] == UNASSIGNED implies vv[j] >= 0 by {
        assert(r0[j] == UNASSIGNED);
        assert(j != e);
        assert(v0[j] >= 0);
        if vis_s[j] {
            assert(r0[j] != UNASSIGNED);
        }
    }
    assert forall|j: int| 0 <= j < n implies -b <= #[trigger] vv[j] by {
        if row[j] != UNASSIGNED {
            let i = row[j] as int;
            assert(col[i] == j);
            assert(uu[i] + vv[j] == cost_at(c, i, j));
            assert(uu[i] <= b);
        }
    }
    assert forall|i: int| 0 <= i < n implies -b <= #[trigger] uu[i] by {
        if col[i] != UNASSIGNED {
            let j = col[i] as int;
            assert(uu[i] + vv[j] == cost_at(c, i, j));
            assert(vv[j] <= b);
        } else {
            assert(c0[i] == UNASSIGNED);
            assert(i != fr);
            assert(!scanned(c0, vis_s, fr, i));
            assert(-b <= u0[i]);
        }
    }
}


/// Assigns the free row `fr` by one augmentation, keeping every matched row
/// matched and the potentials feasible and tight.
fn augment(
    cost: &[Vec<usize>],
    col: &mut Vec<usize>,
    row: &mut Vec<usize>,
    u: &mut Vec<i64>,
    v: &mut Vec<i64>,
    fr: usize,
)
    requires
        cost@.len() > 0,
        square_costs(cost@),
        fr < cost@.len(),
        matching_ok(cost@.len() as int, old(col)@, old(row)@),
        duals_ok(cost@, old(u)@, old(v)@, old(col)@, old(row)@),
        old(col)@[fr as int] == UNASSIGNED,
    ensures
        matching_ok(cost@.len() as int, final(col)@, final(row)@),
        duals_ok(cost@, final(u)@, final(v)@, final(col)@, final(row)@),
        final(col)@[fr as int] != UNASSIGNED,
        forall|i: int| 0 <= i < cost@.len() && #[trigger] old(col)@[i] != UNASSIGNED ==> final(col)@[i] != UNASSIGNED,
{
    let n = cost.len();
    let (dist, pred, visited, end, Ghost(rank)) = search(cost, col, row, u, v, fr);
    let ghost c0 = col@;
    let ghost r0 = row@;
    let ghost u0 = u@;
    let ghost v0 = v@;
    let ghost vis_s = visited@.update(end as int, false);
    let final_min = dist[end];
    let ghost delta = final_min as int;
    proof {
        assert(search_ok(cost@, u@, v@, col@, row@, fr as int, dist@, pred@, visited@.update(end as int, false), rank));
        assert(visited@.update(end as int, false).len() == n);
        assert(visited@[end as int]);
        assert(visited@.len() == n);
        assert(visited@ =~= vis_s.update(end as int, true));
    }
    // dual update
    let mut j: usize = 0;
    while j < n
        invariant
            n == cost@.len(),
            square_costs(cost@),
            fr < n,
            end < n,
            col@ == c0,
            row@ == r0,
            matching_ok(n as int, c0, r0),
            duals_ok(cost@, u0, v0, c0, r0),
            c0[fr as int] == UNASSIGNED,
            r0[end as int] == UNASSIGNED,
            visited@ == vis_s.update(end as int, true),
            !vis_s[end as int],
            search_ok(cost@, u0, v0, c0, r0, fr as int, dist@, pred@, vis_s, rank),
            final_min == dist@[end as int],
            delta == final_min as int,
            forall|x: int| 0 <= x < n && #[trigger] vis_s[x] ==> dist@[x] <= dist@[end as int],
            j <= n,
            u@.len() == n,
            v@.len() == n,
            forall|x: int| 0 <= x < n ==> #[trigger] v@[x] == if x < j && x != end { new_v(v0, dist@, vis_s, end as int, delta, x) } else { v0[x] as int },
            forall|i: int| 0 <= i < n ==> #[trigger] u@[i] == if c0[i] != UNASSIGNED && c0[i] < j { new_u(cost@, u0, v0, c0, dist@, vis_s, fr as int, end as int, delta, i) } else { u0[i] as int },
        decreases n - j,
    {
        if visited[j] && j != end {
            let ghost vj = v@;
            proof {
                assert(vis_s[j as int]);
                assert(vj[j as int] == v0[j as int]);
                assert(-cost_limit() <= v0[j as int] <= cost_limit());
                assert(0 <= dist@[j as int] <= 3 * cost_limit());
                assert(0 <= final_min <= 3 * cost_limit());
                assert(r0[j as int] != UNASSIGNED);
            }
            let nv = v[j] + dist[j] - final_min;
            v.set(j, nv);
            if row[j] != UNASSIGNED {
                let r = row[j];
                proof {
                    assert(c0[r as int] == j);
                    assert(cost@[r as int]@.len() >= n);
                    assert(cost_at(cost@, r as int, j as int) <= cost_limit());
                    assert(nv <= v0[j as int]);
                }
                let ghost ub = u@;
                u.set(r, cost[r][j] as i64 - v[j]);
                proof {
                    assert(r != fr);
                    assert(vis_s[j as int]);
                    assert(new_v(v0, dist@, vis_s, end as int, delta, j as int) == nv);
                    assert(u@[r as int] == cost_at(cost@, r as int, j as int) - nv);
                    assert(u@[r as int] == new_u(cost@, u0, v0, c0, dist@, vis_s, fr as int, end as int, delta, r as int));
                    assert forall|i: int| 0 <= i < n implies #[trigger] u@[i] == if c0[i] != UNASSIGNED && c0[i] < j + 1 { new_u(cost@, u0, v0, c0, dist@, vis_s, fr as int, end as int, delta, i) } else { u0[i] as int } by {
                        if i == r {
                            assert(i != fr);
                        } else {
                            assert(u@[i] == ub[i]);
                            if c0[i] == j {
                                assert(r0[j as int] == i);
                            }
                        }
                    }
                }
            }
            proof {
                assert forall|x: int| 0 <= x < n implies #[trigger] v@[x] == if x < j + 1 && x != end { new_v(v0, dist@, vis_s, end as int, delta, x) } else { v0[x] as int } by {
                    if x != j {
                        assert(v@[x] == vj[x]);
                    }
                }
            }
        } else {
            proof {
                assert forall|x: int| 0 <= x < n implies #[trigger] v@[x] == if x < j + 1 && x != end { new_v(v0, dist@, vis_s, end as int, delta, x) } else { v0[x] as int } by {
                    if x == j && j != end {
                        assert(!vis_s[j as int]);
                    }
                }
                assert forall|i: int| 0 <= i < n implies #[trigger] u@[i] == if c0[i] != UNASSIGNED && c0[i] < j + 1 { new_u(cost@, u0, v0, c0, dist@, vis_s, fr as int, end as int, delta, i) } else { u0[i] as int } by {
                    if c0[i] == j {
                        if j == end {
                            assert(r0[end as int] == i);
                        } else {
                            assert(!vis_s[j as int]);
                        }
                    }
                }
            }
        }
        j = j + 1;
    }
    let ve = v[end] + dist[end] - final_min;
    v.set(end, ve);
    // flip the matching along the augmenting path
    let mut j: usize = end;
    let mut stop = false;
    while !stop
        invariant
            n == cost@.len(),
            fr < n,
            end < n,
            j < n,
            matching_ok(n as int, c0, r0),
            c0[fr as int] == UNASSIGNED,
            r0[end as int] == UNASSIGNED,
            !vis_s[end as int],
            search_ok(cost@, u0, v0, c0, r0, fr as int, dist@, pred@, vis_s, rank),
            forall|x: int| 0 <= x < n && #[trigger] vis_s[x] && x != end ==> rank[x] < rank[end as int],
            pred@[end as int] != fr ==> rank[c0[pred@[end as int] as int] as int] < rank[end as int],
            col@.len() == n,
            row@.len() == n,
            !stop ==> (vis_s[j as int] || j == end),
            rank[end as int] >= 0,
            forall|i: int| 0 <= i < n ==> #[trigger] col@[i] == c0[i] || (col@[i] < n && (vis_s[col@[i] as int] || col@[i] == end) && pred@[col@[i] as int] == i),
            forall|k: int| 0 <= k < n && #[trigger] row@[k] == UNASSIGNED ==> r0[k] == UNASSIGNED && (k != end || (!stop && j == end)),
            !stop ==> forall|k: int| 0 <= k < n && k != j && #[trigger] row@[k] != UNASSIGNED ==> row@[k] < n && col@[row@[k] as int] == k,
            !stop ==> forall|i: int| 0 <= i < n && #[trigger] col@[i] != UNASSIGNED ==> col@[i] < n && col@[i] != j && row@[col@[i] as int] == i,
            !stop ==> forall|i: int| 0 <= i < n && #[trigger] col@[i] != c0[i] ==> c0[i] != UNASSIGNED && c0[i] < n && vis_s[c0[i] as int] && rank[c0[i] as int] >= rank[j as int],
            !stop ==> forall|k: int| 0 <= k < n && #[trigger] row@[k] != r0[k] ==> (vis_s[k] || k == end) && rank[k] >= rank[j as int],
            !stop ==> row@[j as int] == r0[j as int],
            stop ==> matching_ok(n as int, col@, row@),
            stop ==> col@[fr as int] != UNASSIGNED,
        decreases (if stop { 0int } else { 1int }) + (if stop { 0int } else { rank[j as int] + 1 }),
    {
        let i = pred[j];
        proof {
            assert(scanned(c0, vis_s, fr as int, i as int));
            if i != fr {
                if j == end {
                    assert(rank[c0[i as int] as int] < rank[end as int]);
                } else {
                    assert(rank[c0[i as int] as int] < rank[j as int]);
                }
                assert(col@[i as int] == c0[i as int]);
            } else {
                assert(col@[fr as int] == c0[fr as int]);
            }
        }
        let ghost old_col = col@;
        let ghost old_row = row@;
        row.set(j, i);
        let prev_j = col[i];
        col.set(i, j);
        if i == fr {
            stop = true;
            proof {
                assert forall|k: int| 0 <= k < n && #[trigger] row@[k] != UNASSIGNED implies row@[k] < n && col@[row@[k] as int] == k by {
                    if k != j {
                        assert(old_row[k] == row@[k]);
                        assert(old_col[old_row[k] as int] == k);
                        if old_row[k] == fr {
                            assert(old_col[fr as int] == c0[fr as int]);
                        }
                    }
                }
                assert forall|x: int| 0 <= x < n && #[trigger] col@[x] != UNASSIGNED implies col@[x] < n && row@[col@[x] as int] == x by {
                    if x != fr {
                        assert(old_col[x] != UNASSIGNED);
                        assert(old_col[x] != j);
                    }
                }
            }
        } else {
            let ghost jn = prev_j;
            proof {
                assert(prev_j == c0[i as int]);
                assert(vis_s[prev_j as int]);
                assert(rank[prev_j as int] < rank[j as int]);
                assert(r0[prev_j as int] == i);
                assert(row@[prev_j as int] == old_row[prev_j as int]);
                assert(old_row[prev_j as int] == r0[prev_j as int]) by {
                    if old_row[prev_j as int] != r0[prev_j as int] {
                        assert(rank[prev_j as int] >= rank[j as int]);
                    }
                }
                assert forall|k: int| 0 <= k < n && k != jn && #[trigger] row@[k] != UNASSIGNED implies row@[k] < n && col@[row@[k] as int] == k by {
                    if k != j {
                        assert(old_row[k] == row@[k]);
                        assert(old_col[old_row[k] as int] == k);
                        if old_row[k] == i {
                            assert(old_col[i as int] == c0[i as int]);
                        }
                    }
                }
                assert forall|x: int| 0 <= x < n && #[trigger] col@[x] != UNASSIGNED implies col@[x] < n && col@[x] != jn && row@[col@[x] as int] == x by {
                    if x != i {
                        assert(old_col[x] != UNASSIGNED);
                        assert(old_col[x] != j);
                        assert(old_row[old_col[x] as int] == x);
                        if old_col[x] == jn {
                            assert(old_row[jn as int] == i);
                        }
                    }
                }
                assert forall|x: int| 0 <= x < n && #[trigger] col@[x] != c0[x] implies c0[x] != UNASSIGNED && c0[x] < n && vis_s[c0[x] as int] && rank[c0[x] as int] >= rank[jn as int] by {
                    if x != i {
                        assert(old_col[x] == col@[x]);
                    }
                }
                assert forall|k: int| 0 <= k < n && #[trigger] row@[k] != r0[k] implies (vis_s[k] || k == end) && rank[k] >= rank[jn as int] by {
                    if k != j {
                        assert(old_row[k] == row@[k]);
                    }
                }
            }
            j = prev_j;
        }
    }
    let cf = col[fr];
    proof {
        assert(col@[fr as int] != c0[fr as int]);
        assert(pred@[cf as int] == fr);
        assert(dist@[cf as int] == base(c0, dist@, fr as int, fr as int) + red(cost@, u0, v0, fr as int, cf as int));
        assert(cost@[fr as int]@.len() >= n);
        assert(v@[cf as int] == new_v(v0, dist@, vis_s, end as int, delta, cf as int));
    }
    u.set(fr, cost[fr][cf] as i64 - v[cf]);
    proof {
        let uu = u@;
        let vv = v@;
        assert forall|x: int| 0 <= x < n implies #[trigger] vv[x] == new_v(v0, dist@, vis_s, end as int, delta, x) by {}
        assert forall|i: int| 0 <= i < n implies #[trigger] uu[i] == final_u(cost@, u0, v0, c0, dist@, vis_s, fr as int, end as int, delta, i) by {
            if i != fr && !(c0[i] != UNASSIGNED && c0[i] < n) {
                assert(c0[i] == UNASSIGNED || c0[i] >= n);
            }
        }
        assert(cost@.len() <= usize::MAX);
        lemma_final_duals(cost@, u0, v0, c0, r0, fr as int, dist@, pred@, vis_s, rank, end as int, col@, row@, uu, vv);
    }
}


/// Sum of a finite sequence of integers.
pub open spec fn seq_sum(s: Seq<int>) -> int
    decreases s.len(),
{
    if s.len() == 0 { 0 } else { seq_sum(s.drop_last()) + s.last() }
}

/// `p` lists `n` distinct columns, each below `n`: a permutation of `0..n`.
pub open spec fn is_permutation(p: Seq<usize>, n: int) -> bool {
    &&& p.len() == n
    &&& forall|i: int| 0 <= i < n ==> (#[trigger] p[i]) < n
    &&& forall|i: int, j: int| 0 <= i < n && 0 <= j < n && i != j ==> #[trigger] p[i] != #[trigger] p[j]
}

/// Total cost of giving row `i` the column `p[i]`.
pub open spec fn assignment_cost(c: Seq<Vec<usize>>, p: Seq<usize>) -> int {
    seq_sum(Seq::new(p.len(), |i: int| cost_at(c, i, p[i] as int)))
}

/// The column of each pair, in order.
pub open spec fn pair_columns(res: Seq<(usize, usize)>) -> Seq<usize> {
    res.map_values(|x: (usize, usize)| x.1)
}

proof fn lemma_seq_sum_update(s: Seq<int>, k: int, x: int)
    requires
        0 <= k < s.len(),
    ensures
        seq_sum(s.update(k, x)) == seq_sum(s) - s[k] + x,
    decreases s.len(),
{
    if k == s.len() - 1 {
        assert(s.update(k, x).drop_last() =~= s.drop_last());
    } else {
        assert(s.update(k, x).drop_last() =~= s.drop_last().update(k, x));
        lemma_seq_sum_update(s.drop_last(), k, x);
    }
}

/// Termwise `a[i] <= b[i] + d[i]` gives the same bound on the sums, and
/// termwise equality gives equality.
proof fn lemma_seq_sum_le(a: Seq<int>, b: Seq<int>, d: Seq<int>)
    requires
        a.len() == b.len(),
        a.len() == d.len(),
        forall|i: int| 0 <= i < a.len() ==> #[trigger] a[i] <= b[i] + d[i],
    ensures
        seq_sum(a) <= seq_sum(b) + seq_sum(d),
        (forall|i: int| 0 <= i < a.len() ==> #[trigger] a[i] == b[i] + d[i]) ==> seq_sum(a) == seq_sum(b) + seq_sum(d),
    decreases a.len(),
{
    if a.len() > 0 {
        lemma_seq_sum_le(a.drop_last(), b.drop_last(), d.drop_last());
        if forall|i: int| 0 <= i < a.len() ==> #[trigger] a[i] == b[i] + d[i] {
            assert forall|i: int| 0 <= i < a.drop_last().len() implies #[trigger] a.drop_last()[i] == b.drop_last()[i] + d.drop_last()[i] by {
                assert(a[i] == b[i] + d[i]);
            }
        }
    }
}

/// Summing `w` in the order of a permutation gives the sum of `w`.
proof fn lemma_perm_sum(p: Seq<usize>, w: Seq<int>)
    requires
        is_permutation(p, w.len() as int),
    ensures
        seq_sum(Seq::new(p.len(), |i: int| w[p[i] as int])) == seq_sum(w),
    decreases p.len(),
{
    let n = p.len() as int;
    let sq = Seq::new(p.len(), |i: int| w[p[i] as int]);
    if n == 0 {
        assert(sq =~= Seq::<int>::empty());
        assert(w =~= Seq::<int>::empty());
    } else {
        if !(exists|k: int| 0 <= k < n && p[k] == n - 1) {
            assert forall|i: int| 0 <= i < p.len() implies (#[trigger] p[i]) < n && p[i] != n - 1 by {}
            lemma_injective_bound(p, n, n - 1);
        }
        let k = choose|k: int| 0 <= k < n && p[k] == n - 1;
        let q = p.update(k, p[n - 1]).drop_last();
        let w2 = w.drop_last();
        assert forall|i: int| 0 <= i < n - 1 implies (#[trigger] q[i]) < n - 1 by {
            if i == k {
                assert(p[n - 1] != p[k]);
            } else {
                assert(p[i] != p[k]);
            }
        }
        assert forall|i: int, j: int| 0 <= i < n - 1 && 0 <= j < n - 1 && i != j implies #[trigger] q[i] != #[trigger] q[j] by {
            if i == k {
                assert(p[n - 1] != p[j]);
            } else if j == k {
                assert(p[n - 1] != p[i]);
            } else {
                assert(p[i] != p[j]);
            }
        }
        lemma_perm_sum(q, w2);
        let t = Seq::new(q.len(), |i: int| w2[q[i] as int]);
        assert(seq_sum(w) == seq_sum(w2) + w[n - 1]);
        assert(seq_sum(sq) == seq_sum(sq.drop_last()) + w[p[n - 1] as int]);
        if k == n - 1 {
            assert(t =~= sq.drop_last());
        } else {
            assert(t =~= sq.drop_last().update(k, w[p[n - 1] as int]));
            lemma_seq_sum_update(sq.drop_last(), k, w[p[n - 1] as int]);
        }
    }
}

/// Feasible potentials that are tight on the permutation `sigma` make it a
/// least-cost assignment.
proof fn lemma_tight_is_optimal(c: Seq<Vec<usize>>, u: Seq<i64>, v: Seq<i64>, sigma: Seq<usize>, p: Seq<usize>)
    requires
        u.len() == c.len(),
        v.len() == c.len(),
        forall|i: int, j: int| 0 <= i < c.len() && 0 <= j < c.len() ==> u[i] + v[j] <= #[trigger] cost_at(c, i, j),
        forall|i: int| 0 <= i < c.len() ==> u[i] + v[#[trigger] sigma[i] as int] == cost_at(c, i, sigma[i] as int),
        is_permutation(sigma, c.len() as int),
        is_permutation(p, c.len() as int),
    ensures
        assignment_cost(c, sigma) <= assignment_cost(c, p),
{
    let n = c.len() as int;
    let us = Seq::new(n as nat, |i: int| u[i] as int);
    let vs = Seq::new(n as nat, |j: int| v[j] as int);
    let vp = Seq::new(n as nat, |i: int| vs[p[i] as int]);
    let vsig = Seq::new(n as nat, |i: int| vs[sigma[i] as int]);
    let cp = Seq::new(p.len(), |i: int| cost_at(c, i, p[i] as int));
    let csig = Seq::new(sigma.len(), |i: int| cost_at(c, i, sigma[i] as int));
    lemma_perm_sum(p, vs);
    lemma_perm_sum(sigma, vs);
    assert forall|i: int| 0 <= i < n implies us[i] + vp[i] <= #[trigger] cp[i] by {
        assert(u[i] + v[p[i] as int] <= cost_at(c, i, p[i] as int));
    }
    assert forall|i: int| 0 <= i < n implies #[trigger] csig[i] <= us[i] + vsig[i] by {
        assert(u[i] + v[sigma[i] as int] == cost_at(c, i, sigma[i] as int));
    }
    assert forall|i: int| 0 <= i < n implies #[trigger] csig[i] == us[i] + vsig[i] by {
        assert(u[i] + v[sigma[i] as int] == cost_at(c, i, sigma[i] as int));
    }
    lemma_seq_sum_le(csig, us, vsig);
    // sum(us) + sum(vp) <= sum(cp): bound the negated terms
    let ncp = Seq::new(n as nat, |i: int| -cp[i]);
    let nus = Seq::new(n as nat, |i: int| -us[i]);
    let nvp = Seq::new(n as nat, |i: int| -vp[i]);
    lemma_seq_sum_neg(cp);
    lemma_seq_sum_neg(us);
    lemma_seq_sum_neg(vp);
    assert forall|i: int| 0 <= i < n implies #[trigger] ncp[i] <= nus[i] + nvp[i] by {}
    lemma_seq_sum_le(ncp, nus, nvp);
}

proof fn lemma_seq_sum_neg(s: Seq<int>)
    ensures
        seq_sum(Seq::new(s.len(), |i: int| -s[i])) == -seq_sum(s),
    decreases s.len(),
{
    if s.len() > 0 {
        lemma_seq_sum_neg(s.drop_last());
        assert(Seq::new(s.len(), |i: int| -s[i]).drop_last() =~= Seq::new(s.drop_last().len(), |i: int| -s.drop_last()[i]));
    }
}


/// Least-cost assignment of `n` rows to `n` columns (Jonker-Volgenant):
/// row `i` is paired with column `res[i].1`, the columns form a permutation,
/// and no other permutation has a smaller total cost.
pub fn lapjv_assignment(cost: &[Vec<usize>]) -> (res: Vec<(usize, usize)>)
    requires
        square_costs(cost@),
    ensures
        res@.len() == cost@.len(),
        forall|i: int| 0 <= i < res@.len() ==> (#[trigger] res@[i]).0 == i,
        is_permutation(pair_columns(res@), cost@.len() as int),
        forall|p: Seq<usize>| is_permutation(p, cost@.len() as int) ==>
            assignment_cost(cost@, pair_columns(res@)) <= #[trigger] assignment_cost(cost@, p),
{
    let n = cost.len();
    if n == 0 {
        let res: Vec<(usize, usize)> = Vec::new();
        proof {
            assert forall|p: Seq<usize>| is_permutation(p, 0) implies
                assignment_cost(cost@, pair_columns(res@)) <= #[trigger] assignment_cost(cost@, p) by {
                assert(Seq::new(p.len(), |i: int| cost_at(cost@, i, p[i] as int)) =~= Seq::<int>::empty());
                assert(Seq::new(pair_columns(res@).len(), |i: int| cost_at(cost@, i, pair_columns(res@)[i] as int)) =~= Seq::<int>::empty());
            }
        }
        return res;
    }
    let mut col: Vec<usize> = Vec::new();
    let mut row: Vec<usize> = Vec::new();
    let mut k: usize = 0;
    while k < n
        invariant
            k <= n,
            col@.len() == k,
            row@.len() == k,
            forall|x: int| 0 <= x < k ==> #[trigger] col@[x] == UNASSIGNED,
            forall|x: int| 0 <= x < k ==> #[trigger] row@[x] == UNASSIGNED,
        decreases n - k,
    {
        col.push(UNASSIGNED);
        row.push(UNASSIGNED);
        k = k + 1;
    }
    let mut v = reduce_columns(cost);
    let mut u = reduce_rows(cost, &v);
    proof {
        assert(matching_ok(n as int, col@, row@));
        assert(duals_ok(cost@, u@, v@, col@, row@));
    }
    // greedy pass over pairs that are already tight
    let mut i: usize = 0;
    while i < n
        invariant
            n == cost@.len(),
            n > 0,
            square_costs(cost@),
            i <= n,
            matching_ok(n as int, col@, row@),
            duals_ok(cost@, u@, v@, col@, row@),
        decreases n - i,
    {
        let mut j: usize = 0;
        while j < n
            invariant
                n == cost@.len(),
                n > 0,
                square_costs(cost@),
                i < n,
                j <= n,
                matching_ok(n as int, col@, row@),
                duals_ok(cost@, u@, v@, col@, row@),
            decreases n - j,
        {
            proof {
                assert(cost@[i as int]@.len() >= n);
                assert(cost_at(cost@, i as int, j as int) <= cost_limit());
                assert(-cost_limit() <= u@[i as int] <= cost_limit());
                assert(-cost_limit() <= v@[j as int] <= cost_limit());
            }
            if col[i] == UNASSIGNED && row[j] == UNASSIGNED && cost[i][j] as i64 == u[i] + v[j] {
                let ghost c0 = col@;
                let ghost r0 = row@;
                col.set(i, j);
                row.set(j, i);
                proof {
                    assert forall|x: int| 0 <= x < n && #[trigger] col@[x] != UNASSIGNED implies col@[x] < n && row@[col@[x] as int] == x by {
                        if x != i {
                            assert(c0[x] != UNASSIGNED);
                            assert(c0[x] != j);
                        }
                    }
                    assert forall|y: int| 0 <= y < n && #[trigger] row@[y] != UNASSIGNED implies row@[y] < n && col@[row@[y] as int] == y by {
                        if y != j {
                            assert(r0[y] != UNASSIGNED);
                            assert(r0[y] != i);
                        }
                    }
                    assert forall|x: int| 0 <= x < n && #[trigger] col@[x] != UNASSIGNED implies u@[x] + v@[col@[x] as int] == cost_at(cost@, x, col@[x] as int) by {
                        if x != i {
                            assert(c0[x] != UNASSIGNED);
                        }
                    }
                }
                break;
            }
            j = j + 1;
        }
        i = i + 1;
    }
    // one augmentation per row still free
    let mut fr: usize = 0;
    while fr < n
        invariant
            n == cost@.len(),
            n > 0,
            square_costs(cost@),
            fr <= n,
            matching_ok(n as int, col@, row@),
            duals_ok(cost@, u@, v@, col@, row@),
            forall|x: int| 0 <= x < fr ==> #[trigger] col@[x] != UNASSIGNED,
        decreases n - fr,
    {
        if col[fr] == UNASSIGNED {
            let ghost c0 = col@;
            augment(cost, &mut col, &mut row, &mut u, &mut v, fr);
            proof {
                assert forall|x: int| 0 <= x < fr + 1 implies #[trigger] col@[x] != UNASSIGNED by {
                    if x < fr {
                        assert(c0[x] != UNASSIGNED);
                    }
                }
            }
        }
        fr = fr + 1;
    }
    let mut res: Vec<(usize, usize)> = Vec::new();
    let mut i: usize = 0;
    while i < n
        invariant
            n == cost@.len(),
            col@.len() == n,
            i <= n,
            res@.len() == i,
            forall|x: int| 0 <= x < i ==> (#[trigger] res@[x]).0 == x && res@[x].1 == col@[x],
        decreases n - i,
    {
        res.push((i, col[i]));
        i = i + 1;
    }
    proof {
        let sigma = pair_columns(res@);
        assert(sigma =~= col@);
        assert forall|x: int| 0 <= x < n implies (#[trigger] sigma[x]) < n by {
            assert(col@[x] != UNASSIGNED);
        }
        assert forall|x: int, y: int| 0 <= x < n && 0 <= y < n && x != y implies #[trigger] sigma[x] != #[trigger] sigma[y] by {
            assert(col@[x] != UNASSIGNED);
            assert(col@[y] != UNASSIGNED);
            assert(row@[col@[x] as int] == x);
            assert(row@[col@[y] as int] == y);
        }
        assert forall|x: int| 0 <= x < n implies u@[x] + v@[#[trigger] sigma[x] as int] == cost_at(cost@, x, sigma[x] as int) by {
            assert(col@[x] != UNASSIGNED);
        }
        assert forall|p: Seq<usize>| is_permutation(p, n as int) implies
            assignment_cost(cost@, sigma) <= #[trigger] assignment_cost(cost@, p) by {
            lemma_tight_is_optimal(cost@, u@, v@, sigma, p);
        }
    }
    res
}

} // verus!
