use vstd::prelude::*;
use crate::bfs::{adj_symmetric, adj_well_formed, edge, hop_distance_is, reachable, lemma_hop_distance_symmetric};

verus! {

/// A satellite as the link logic reads it: its grid address and the indices
/// (into the satellite list) of the satellites it has inter-satellite links
/// to.
pub struct SatNode {
    pub plane: usize,
    pub sat_index: usize,
    pub neighbors: Vec<usize>,
}

/// Number of occurrences of `x` in `s`.
pub open spec fn count(s: Seq<usize>, x: usize) -> nat
    decreases s.len(),
{
    if s.len() == 0 {
        0
    } else {
        count(s.drop_last(), x) + if s.last() == x { 1nat } else { 0nat }
    }
}

pub proof fn lemma_count_push(s: Seq<usize>, y: usize, x: usize)
    ensures
        count(s.push(y), x) == count(s, x) + if y == x { 1nat } else { 0nat },
{
    assert(s.push(y).drop_last() =~= s);
}

pub proof fn lemma_count_take_step(s: Seq<usize>, k: int, x: usize)
    requires
        0 <= k < s.len(),
    ensures
        count(s.take(k + 1), x) == count(s.take(k), x) + if s[k] == x { 1nat } else { 0nat },
{
    assert(s.take(k + 1).drop_last() =~= s.take(k));
}

/// `x` occurs in `s` exactly when its count is positive.
pub proof fn lemma_count_contains(s: Seq<usize>, x: usize)
    ensures
        (count(s, x) > 0) == s.contains(x),
    decreases s.len(),
{
    if s.len() > 0 {
        lemma_count_contains(s.drop_last(), x);
        if s.last() == x {
            assert(s[s.len() - 1] == x);
        }
        if s.drop_last().contains(x) {
            let i = choose|i: int| 0 <= i < s.drop_last().len() && s.drop_last()[i] == x;
            assert(s[i] == x);
        }
        if s.contains(x) && s.last() != x {
            let i = choose|i: int| 0 <= i < s.len() && s[i] == x;
            assert(s.drop_last()[i] == x);
        }
    }
}

/// Neighbour list of satellite `v`, in the listing of `positions`.
pub open spec fn nbrs(positions: Seq<SatNode>, v: int) -> Seq<usize> {
    positions[v].neighbors@
}

/// How many times `v` is linked to `u` in the undirected closure of the
/// neighbour lists: once for each listing of `v` among `u`'s neighbours and
/// once for each listing of `u` among `v`'s, counting only in-range indices.
pub open spec fn undirected_count(positions: Seq<SatNode>, u: int, v: usize) -> nat {
    if v < positions.len() {
        count(nbrs(positions, u), v) + count(nbrs(positions, v as int), u as usize)
    } else {
        0
    }
}

/// Adjacency rows after every neighbour of satellites `0..i` and the first
/// `k` neighbours of satellite `i` have been linked, in that order: each
/// in-range neighbour `j` of `i` appends `j` to row `i`, then `i` to row `j`.
pub open spec fn rows_after(positions: Seq<SatNode>, i: nat, k: nat) -> Seq<Seq<usize>>
    decreases i, k,
{
    let n = positions.len();
    if k == 0 {
        if i == 0 {
            Seq::new(n, |u: int| Seq::<usize>::empty())
        } else {
            rows_after(positions, (i - 1) as nat, nbrs(positions, i - 1).len())
        }
    } else {
        let prev = rows_after(positions, i, (k - 1) as nat);
        let j = nbrs(positions, i as int)[k - 1];
        if j < n {
            let r1 = prev.update(i as int, prev[i as int].push(j));
            r1.update(j as int, r1[j as int].push(i as usize))
        } else {
            prev
        }
    }
}

proof fn lemma_rows_after_len(positions: Seq<SatNode>, i: nat, k: nat)
    requires
        i < positions.len() || (i == positions.len() && k == 0),
    ensures
        rows_after(positions, i, k).len() == positions.len(),
    decreases i, k,
{
    if k == 0 {
        if i > 0 {
            lemma_rows_after_len(positions, (i - 1) as nat, nbrs(positions, i - 1).len());
        }
    } else {
        lemma_rows_after_len(positions, i, (k - 1) as nat);
    }
}

/// Count of `v` in row `u` after the first `i` satellites have been fully
/// processed and `k` neighbours of satellite `i`.
spec fn partial_count(positions: Seq<SatNode>, i: int, k: int, u: int, v: usize) -> nat {
    let n = positions.len();
    if v >= n {
        0
    } else {
        let a: nat = if u < i {
            count(nbrs(positions, u), v)
        } else if u == i {
            count(nbrs(positions, i).take(k), v)
        } else {
            0
        };
        let b: nat = if v < i {
            count(nbrs(positions, v as int), u as usize)
        } else if v == i {
            count(nbrs(positions, i).take(k), u as usize)
        } else {
            0
        };
        a + b
    }
}

/// Undirected adjacency lists: every in-range neighbour `j` of satellite `i`
/// yields the entry `j` in row `i` and the entry `i` in row `j`.
pub fn build_bidirectional_adj(positions: &[SatNode]) -> (adj: Vec<Vec<usize>>)
    ensures
        adj@.len() == positions@.len(),
        forall|u: int, v: usize| 0 <= u < adj@.len() ==> #[trigger] count(adj@[u]@, v) == undirected_count(positions@, u, v),
        forall|u: int| 0 <= u < adj@.len() ==> (#[trigger] adj@[u])@ == rows_after(positions@, positions@.len(), 0)[u],
{
    let n = positions.len();
    let mut adj: Vec<Vec<usize>> = Vec::new();
    let mut t: usize = 0;
    while t < n
        invariant
            t <= n,
            n == positions@.len(),
            adj@.len() == t,
            forall|u: int| 0 <= u < t ==> #[trigger] adj@[u]@.len() == 0,
        decreases n - t,
    {
        adj.push(Vec::new());
        t = t + 1;
    }
    proof {
        assert forall|u: int| 0 <= u < n implies (#[trigger] adj@[u])@ == rows_after(positions@, 0, 0)[u] by {
            assert(adj@[u]@ =~= Seq::<usize>::empty());
        }
        assert forall|u: int, v: usize| 0 <= u < n implies #[trigger] count(adj@[u]@, v) == partial_count(positions@, 0, 0, u, v) by {
            assert(adj@[u]@ =~= Seq::<usize>::empty());
            assert(nbrs(positions@, 0).take(0) =~= Seq::<usize>::empty());
        }
    }
    let mut i: usize = 0;
    while i < n
        invariant
            i <= n,
            n == positions@.len(),
            adj@.len() == n,
            forall|u: int, v: usize| 0 <= u < n ==> #[trigger] count(adj@[u]@, v) == partial_count(positions@, i as int, 0, u, v),
            forall|u: int| 0 <= u < n ==> (#[trigger] adj@[u])@ == rows_after(positions@, i as nat, 0)[u],
        decreases n - i,
    {
        let nb = &positions[i].neighbors;
        let mut k: usize = 0;
        while k < nb.len()
            invariant
                i < n,
                k <= nb@.len(),
                nb@ == nbrs(positions@, i as int),
                n == positions@.len(),
                adj@.len() == n,
                forall|u: int, v: usize| 0 <= u < n ==> #[trigger] count(adj@[u]@, v) == partial_count(positions@, i as int, k as int, u, v),
                forall|u: int| 0 <= u < n ==> (#[trigger] adj@[u])@ == rows_after(positions@, i as nat, k as nat)[u],
            decreases nb@.len() - k,
        {
            let j = nb[k];
            let ghost old_adj = adj@;
            if j < n {
                adj[i].push(j);
                let ghost mid_adj = adj@;
                adj[j].push(i);
                proof {
                    lemma_rows_after_len(positions@, i as nat, k as nat);
                    let prev = rows_after(positions@, i as nat, k as nat);
                    assert(nbrs(positions@, i as int)[k as int] == j);
                    assert forall|u: int| 0 <= u < n implies (#[trigger] adj@[u])@ == rows_after(positions@, i as nat, (k + 1) as nat)[u] by {
                        assert(old_adj[u]@ == prev[u]);
                        assert(old_adj[i as int]@ == prev[i as int]);
                        assert(mid_adj[j as int]@ == prev.update(i as int, prev[i as int].push(j))[j as int]);
                    }
                    assert forall|u: int, v: usize| 0 <= u < n implies #[trigger] count(adj@[u]@, v) == partial_count(positions@, i as int, k + 1, u, v) by {
                        lemma_count_take_step(nbrs(positions@, i as int), k as int, v);
                        lemma_count_take_step(nbrs(positions@, i as int), k as int, u as usize);
                        if u == i && u == j {
                            lemma_count_push(old_adj[u]@, j, v);
                            lemma_count_push(mid_adj[u]@, i, v);
                        } else if u == i {
                            lemma_count_push(old_adj[u]@, j, v);
                        } else if u == j {
                            lemma_count_push(old_adj[u]@, i, v);
                        }
                    }
                }
            } else {
                proof {
                    assert(nbrs(positions@, i as int)[k as int] == j);
                    assert forall|u: int| 0 <= u < n implies (#[trigger] adj@[u])@ == rows_after(positions@, i as nat, (k + 1) as nat)[u] by {}
                    assert forall|u: int, v: usize| 0 <= u < n implies #[trigger] count(adj@[u]@, v) == partial_count(positions@, i as int, k + 1, u, v) by {
                        lemma_count_take_step(nbrs(positions@, i as int), k as int, v);
                        lemma_count_take_step(nbrs(positions@, i as int), k as int, u as usize);
                    }
                }
            }
            k = k + 1;
        }
        proof {
            assert(nb@.take(nb@.len() as int) =~= nb@);
            assert forall|u: int| 0 <= u < n implies (#[trigger] adj@[u])@ == rows_after(positions@, (i + 1) as nat, 0)[u] by {
                assert(rows_after(positions@, (i + 1) as nat, 0) == rows_after(positions@, i as nat, nbrs(positions@, i as int).len()));
            }
            assert forall|u: int, v: usize| 0 <= u < n implies #[trigger] count(adj@[u]@, v) == partial_count(positions@, i + 1, 0, u, v) by {
                assert(nbrs(positions@, i + 1).take(0) =~= Seq::<usize>::empty());
            }
        }
        i = i + 1;
    }
    adj
}


/// The undirected closure links `u` to `v` as often as `v` to `u`.
pub proof fn lemma_undirected_count_symmetric(positions: Seq<SatNode>, u: usize, v: usize)
    requires
        u < positions.len(),
        v < positions.len(),
    ensures
        undirected_count(positions, u as int, v) == undirected_count(positions, v as int, u),
{
}

/// Adjacency lists with the counts that [`build_bidirectional_adj`] returns
/// are symmetric: whenever `v` is a neighbour of `u`, `u` is a neighbour of `v`.
pub proof fn lemma_bidirectional_adj_symmetric(positions: Seq<SatNode>, adj: Seq<Vec<usize>>)
    requires
        adj.len() == positions.len(),
        forall|u: int, v: usize| 0 <= u < adj.len() ==> #[trigger] count(adj[u]@, v) == undirected_count(positions, u, v),
    ensures
        adj_symmetric(adj),
        adj_well_formed(adj),
{
    assert forall|u: usize, v: usize| #[trigger] edge(adj, u, v) implies edge(adj, v, u) by {
        lemma_count_contains(adj[u as int]@, v);
        assert(count(adj[u as int]@, v) == undirected_count(positions, u as int, v));
        assert(v < positions.len());
        lemma_count_contains(adj[v as int]@, u);
        assert(count(adj[v as int]@, u) == undirected_count(positions, v as int, u));
    }
    assert forall|u: int, k: int| 0 <= u < adj.len() && 0 <= k < adj[u]@.len() implies #[trigger] adj[u]@[k] < adj.len() by {
        let v = adj[u]@[k];
        assert(adj[u]@.contains(v));
        lemma_count_contains(adj[u]@, v);
        assert(count(adj[u]@, v) == undirected_count(positions, u, v));
    }
}


/// On link lists with the counts that [`build_bidirectional_adj`] returns,
/// the hop distance that [`graph_hop_count`](crate::bfs::graph_hop_count)
/// computes is the same in both directions, and reachability is symmetric.
pub proof fn lemma_bidirectional_hop_count_symmetric(positions: Seq<SatNode>, adj: Seq<Vec<usize>>, s: usize, t: usize, d: int)
    requires
        adj.len() == positions.len(),
        forall|u: int, v: usize| 0 <= u < adj.len() ==> #[trigger] count(adj[u]@, v) == undirected_count(positions, u, v),
    ensures
        hop_distance_is(adj, s, t, d) <==> hop_distance_is(adj, t, s, d),
        reachable(adj, s, t) <==> reachable(adj, t, s),
{
    lemma_bidirectional_adj_symmetric(positions, adj);
    lemma_hop_distance_symmetric(adj, s, t, d);
    lemma_hop_distance_symmetric(adj, t, s, d);
}

} // verus!
