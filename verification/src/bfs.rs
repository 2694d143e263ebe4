use vstd::prelude::*;
use std::collections::VecDeque;

verus! {

/// `v` is listed among the neighbours of `u`.
pub open spec fn edge(adj: Seq<Vec<usize>>, u: usize, v: usize) -> bool {
    u < adj.len() && adj[u as int]@.contains(v)
}

/// `w` is a walk in `adj`: consecutive nodes are linked.
pub open spec fn is_walk(adj: Seq<Vec<usize>>, w: Seq<usize>) -> bool {
    &&& w.len() >= 1
    &&& w[0] < adj.len()
    &&& forall|i: int| 0 <= i < w.len() - 1 ==> #[trigger] edge(adj, w[i], w[i + 1])
}

/// `w` is a walk from `s` to `t`; it has `w.len() - 1` hops.
pub open spec fn walk_between(adj: Seq<Vec<usize>>, w: Seq<usize>, s: usize, t: usize) -> bool {
    &&& is_walk(adj, w)
    &&& w[0] == s
    &&& w.last() == t
}

/// Every listed neighbour is a node of the graph.
pub open spec fn adj_well_formed(adj: Seq<Vec<usize>>) -> bool {
    forall|u: int, k: int| 0 <= u < adj.len() && 0 <= k < adj[u]@.len() ==> #[trigger] adj[u]@[k] < adj.len()
}

/// Every listed neighbour is a node of the graph or the node `dst`.
pub open spec fn links_in_range_or_to(adj: Seq<Vec<usize>>, dst: usize) -> bool {
    forall|u: int, k: int| 0 <= u < adj.len() && 0 <= k < adj[u]@.len() ==> #[trigger] adj[u]@[k] < adj.len() || adj[u]@[k] == dst
}

/// `t` can be reached from `s` in exactly `d` hops, and in no fewer.
pub open spec fn hop_distance_is(adj: Seq<Vec<usize>>, s: usize, t: usize, d: int) -> bool {
    &&& exists|w: Seq<usize>| #[trigger] walk_between(adj, w, s, t) && w.len() == d + 1
    &&& forall|w: Seq<usize>| #[trigger] walk_between(adj, w, s, t) ==> w.len() - 1 >= d
}

pub open spec fn reachable(adj: Seq<Vec<usize>>, s: usize, t: usize) -> bool {
    exists|w: Seq<usize>| #[trigger] walk_between(adj, w, s, t)
}

pub open spec fn count_false(s: Seq<bool>) -> nat
    decreases s.len(),
{
    if s.len() == 0 {
        0
    } else {
        count_false(s.drop_last()) + if !s.last() { 1nat } else { 0nat }
    }
}

pub(crate) proof fn lemma_count_false_update(s: Seq<bool>, i: int)
    requires
        0 <= i < s.len(),
        !s[i],
    ensures
        count_false(s.update(i, true)) + 1 == count_false(s),
    decreases s.len(),
{
    let t = s.update(i, true);
    if i == s.len() - 1 {
        assert(t.drop_last() =~= s.drop_last());
    } else {
        assert(t.drop_last() =~= s.drop_last().update(i, true));
        lemma_count_false_update(s.drop_last(), i);
    }
}

/// The queue state of the breadth-first search.
spec fn queue_ok(
    adj: Seq<Vec<usize>>,
    src: usize,
    dst: usize,
    q: Seq<(usize, usize)>,
    visited: Seq<bool>,
) -> bool {
    let n = adj.len();
    &&& visited.len() == n
    &&& q.len() >= 1
    &&& q[0] == (src, 0usize)
    &&& forall|i: int| 0 <= i < q.len() ==> (#[trigger] q[i]).0 < n && visited[q[i].0 as int] && q[i].0 != dst
    &&& forall|v: int| 0 <= v < n && #[trigger] visited[v] ==> exists|i: int| 0 <= i < q.len() && (#[trigger] q[i]).0 == v
    &&& forall|i: int| 0 <= i < q.len() ==> hop_distance_is(adj, src, (#[trigger] q[i]).0, q[i].1 as int)
    &&& forall|i: int, j: int| 0 <= i <= j < q.len() ==> (#[trigger] q[i]).1 <= (#[trigger] q[j]).1
    &&& forall|i: int| 0 <= i < q.len() ==> (#[trigger] q[i]).1 <= i
}

/// All neighbours of the first `p` queue entries are visited, and none of
/// them is the target `dst`.
spec fn processed(adj: Seq<Vec<usize>>, q: Seq<(usize, usize)>, visited: Seq<bool>, p: int, dst: usize) -> bool {
    forall|i: int, k: int| 0 <= i < p && 0 <= k < adj[q[i].0 as int]@.len()
        ==> visited[#[trigger] adj[(#[trigger] q[i]).0 as int]@[k] as int] && adj[q[i].0 as int]@[k] != dst
}

/// Every node of a walk from the source whose inner nodes all have queue
/// distance below `d` (and so lie among the first `p` processed entries) is
/// visited.
proof fn lemma_walk_visited(
    adj: Seq<Vec<usize>>,
    src: usize,
    dst: usize,
    q: Seq<(usize, usize)>,
    visited: Seq<bool>,
    p: int,
    d: int,
    w: Seq<usize>,
    j: int,
)
    requires
        links_in_range_or_to(adj, dst),
        queue_ok(adj, src, dst, q, visited),
        0 <= p <= q.len(),
        processed(adj, q, visited, p, dst),
        forall|i: int| 0 <= i < q.len() && (#[trigger] q[i]).1 < d ==> i < p,
        walk_between(adj, w, src, w.last()),
        w.len() - 1 <= d,
        0 <= j < w.len(),
    ensures
        visited[w[j] as int],
        w[j] != dst,
    decreases j,
{
    if j == 0 {
        assert(q[0].0 == src);
    } else {
        lemma_walk_visited(adj, src, dst, q, visited, p, d, w, j - 1);
        let x = w[j - 1];
        assert(edge(adj, w[j - 1], w[j - 1 + 1]));
        assert(x < adj.len());
        let i = choose|i: int| 0 <= i < q.len() && (#[trigger] q[i]).0 == x;
        // the prefix of w is a walk to x with j - 1 hops
        let pre = w.take(j);
        assert(walk_between(adj, pre, src, x)) by {
            assert forall|t: int| 0 <= t < pre.len() - 1 implies #[trigger] edge(adj, pre[t], pre[t + 1]) by {
                assert(edge(adj, w[t], w[t + 1]));
            }
        }
        assert(q[i].1 <= j - 1);
        assert(i < p);
        let k = choose|k: int| 0 <= k < adj[x as int]@.len() && adj[x as int]@[k] == w[j];
        assert(visited[adj[q[i].0 as int]@[k] as int]);
        assert(adj[q[i].0 as int]@[k] != dst);
    }
}

/// A walk to `u` with `d` hops, followed by the link `u -> v`.
proof fn lemma_extend_walk(adj: Seq<Vec<usize>>, src: usize, u: usize, v: usize, d: int)
    requires
        hop_distance_is(adj, src, u, d),
        edge(adj, u, v),
    ensures
        exists|w: Seq<usize>| #[trigger] walk_between(adj, w, src, v) && w.len() == d + 2,
{
    let wu = choose|w: Seq<usize>| #[trigger] walk_between(adj, w, src, u) && w.len() == d + 1;
    let wv = wu.push(v);
    assert forall|i: int| 0 <= i < wv.len() - 1 implies #[trigger] edge(adj, wv[i], wv[i + 1]) by {
        if i < wu.len() - 1 {
            assert(edge(adj, wu[i], wu[i + 1]));
        }
    }
    assert(walk_between(adj, wv, src, v));
}

/// The last node of a walk of at least one hop is a listed neighbour, so it is
/// a node of the graph or `dst`.
proof fn lemma_walk_last_in_range(adj: Seq<Vec<usize>>, w: Seq<usize>, s: usize, t: usize, dst: usize)
    requires
        links_in_range_or_to(adj, dst),
        walk_between(adj, w, s, t),
        s != t,
    ensures
        t < adj.len() || t == dst,
{
    let j = w.len() - 2;
    assert(edge(adj, w[j], w[j + 1]));
    let k = choose|k: int| 0 <= k < adj[w[j] as int]@.len() && adj[w[j] as int]@[k] == t;
}

/// Queue entries from position `head - 1` on are at least `dist` hops away.
proof fn lemma_no_shorter_walk(
    adj: Seq<Vec<usize>>,
    src: usize,
    dst: usize,
    q: Seq<(usize, usize)>,
    visited: Seq<bool>,
    head: int,
    dist: int,
)
    requires
        queue_ok(adj, src, dst, q, visited),
        1 <= head <= q.len(),
        q[head - 1].1 == dist,
    ensures
        forall|i: int| 0 <= i < q.len() && (#[trigger] q[i]).1 < dist ==> i < head - 1,
{
    assert forall|i: int| 0 <= i < q.len() && (#[trigger] q[i]).1 < dist implies i < head - 1 by {
        if i >= head - 1 {
            assert(q[head - 1].1 <= q[i].1);
        }
    }
}

/// An unvisited node (or the target, which is never visited) lies more than
/// `dist` hops away while the entry at `head - 1` is being expanded.
proof fn lemma_unvisited_far(
    adj: Seq<Vec<usize>>,
    src: usize,
    dst: usize,
    q: Seq<(usize, usize)>,
    visited: Seq<bool>,
    head: int,
    dist: int,
    w: Seq<usize>,
)
    requires
        links_in_range_or_to(adj, dst),
        queue_ok(adj, src, dst, q, visited),
        1 <= head <= q.len(),
        q[head - 1].1 == dist,
        processed(adj, q, visited, head - 1, dst),
        walk_between(adj, w, src, w.last()),
        w.last() != src,
        w.last() == dst || !visited[w.last() as int],
    ensures
        w.len() - 1 >= dist + 1,
{
    lemma_no_shorter_walk(adj, src, dst, q, visited, head, dist);
    if w.len() - 1 <= dist {
        lemma_walk_visited(adj, src, dst, q, visited, head - 1, dist, w, w.len() - 1);
        lemma_walk_last_in_range(adj, w, src, w.last(), dst);
        let x = w.last();
        let i = choose|i: int| 0 <= i < q.len() && (#[trigger] q[i]).0 == x;
    }
}

/// Number of hops on a shortest walk from `src_idx` to `dst_idx`, 0 when they
/// are the same node, `usize::MAX` when `dst_idx` cannot be reached.
#[verifier::rlimit(80)]
pub fn graph_hop_count(src_idx: usize, dst_idx: usize, adj: &[Vec<usize>]) -> (res: usize)
    requires
        src_idx != dst_idx ==> src_idx < adj@.len(),
        adj@.len() < usize::MAX,
        links_in_range_or_to(adj@, dst_idx),
    ensures
        src_idx == dst_idx ==> res == 0,
        src_idx != dst_idx ==> (res != usize::MAX <==> reachable(adj@, src_idx, dst_idx)),
        src_idx != dst_idx && res != usize::MAX ==> hop_distance_is(adj@, src_idx, dst_idx, res as int),
{
    if src_idx == dst_idx {
        return 0;
    }
    let n = adj.len();
    let mut visited: Vec<bool> = Vec::new();
    let mut t: usize = 0;
    while t < n
        invariant
            t <= n,
            visited@.len() == t,
            forall|v: int| 0 <= v < t ==> !(#[trigger] visited@[v]),
            count_false(visited@) == t,
        decreases n - t,
    {
        let ghost before = visited@;
        visited.push(false);
        assert(visited@.drop_last() =~= before);
        t = t + 1;
    }
    proof {
        lemma_count_false_update(visited@, src_idx as int);
    }
    visited.set(src_idx, true);
    let mut queue: VecDeque<(usize, usize)> = VecDeque::new();
    queue.push_back((src_idx, 0));
    let ghost mut hist: Seq<(usize, usize)> = seq![(src_idx, 0usize)];
    let ghost mut head: int = 0;
    proof {
        let w0 = seq![src_idx];
        assert(walk_between(adj@, w0, src_idx, src_idx));
        assert forall|v: int| 0 <= v < n && #[trigger] visited@[v] implies exists|i: int| 0 <= i < hist.len() && (#[trigger] hist[i]).0 == v by {
            assert(hist[0].0 == v);
        }
    }
    proof {
        assert(queue@ =~= hist.subrange(head, hist.len() as int));
    }
    while queue.len() > 0
        invariant
            0 <= head <= hist.len(),
            queue@ == hist.subrange(head, hist.len() as int),
            n == adj@.len(),
            src_idx < n,
            src_idx != dst_idx,
            links_in_range_or_to(adj@, dst_idx),
            n < usize::MAX,
            head <= hist.len(),
            queue_ok(adj@, src_idx, dst_idx, hist, visited@),
            processed(adj@, hist, visited@, head, dst_idx),
            head < hist.len() ==> forall|j: int| 0 <= j < hist.len() ==> (#[trigger] hist[j]).1 <= hist[head].1 + 1,
            head > 0 ==> forall|j: int| 0 <= j < hist.len() ==> (#[trigger] hist[j]).1 <= hist[head - 1].1 + 1,
            hist.len() + count_false(visited@) == n,
        decreases n - head,
    {
        let (u, dist) = match queue.pop_front() {
            Some(x) => x,
            None => {
                proof {
                    assert(false);
                }
                (0, 0)
            },
        };
        proof {
            assert(hist[head] == (u, dist));
            head = head + 1;
            assert(queue@ =~= hist.subrange(head, hist.len() as int));
        }
        let row = &adj[u];
        let mut k: usize = 0;
        while k < row.len()
            invariant
                n == adj@.len(),
                src_idx < n,
                src_idx != dst_idx,
                links_in_range_or_to(adj@, dst_idx),
                n < usize::MAX,
                1 <= head <= hist.len(),
                queue@ == hist.subrange(head, hist.len() as int),
                u < n,
                row@ == adj@[u as int]@,
                (u, dist) == hist[head - 1],
                k <= row@.len(),
                queue_ok(adj@, src_idx, dst_idx, hist, visited@),
                processed(adj@, hist, visited@, head - 1, dst_idx),
                forall|j: int| 0 <= j < k ==> visited@[#[trigger] row@[j] as int] && row@[j] != dst_idx,
                forall|j: int| 0 <= j < hist.len() ==> (#[trigger] hist[j]).1 <= dist + 1,
                hist.len() + count_false(visited@) == n,
            decreases row@.len() - k,
        {
            let v = row[k];
            proof {
                assert(adj@[u as int]@[k as int] < n || adj@[u as int]@[k as int] == dst_idx);
                assert(edge(adj@, u, v));
                assert(dist <= head - 1);
                lemma_no_shorter_walk(adj@, src_idx, dst_idx, hist, visited@, head, dist as int);
            }
            if v == dst_idx {
                proof {
                    if dst_idx < n {
                        lemma_count_false_update(visited@, dst_idx as int);
                    }
                    lemma_extend_walk(adj@, src_idx, u, v, dist as int);
                    assert(reachable(adj@, src_idx, dst_idx));
                    assert forall|w: Seq<usize>| #[trigger] walk_between(adj@, w, src_idx, dst_idx) implies w.len() - 1 >= dist + 1 by {
                        lemma_unvisited_far(adj@, src_idx, dst_idx, hist, visited@, head, dist as int, w);
                    }
                }
                return dist + 1;
            }
            if !visited[v] {
                let ghost old_q = hist;
                let ghost old_vis = visited@;
                proof {
                    lemma_extend_walk(adj@, src_idx, u, v, dist as int);
                    assert forall|w: Seq<usize>| #[trigger] walk_between(adj@, w, src_idx, v) implies w.len() - 1 >= dist + 1 by {
                        lemma_unvisited_far(adj@, src_idx, dst_idx, hist, visited@, head, dist as int, w);
                    }
                    lemma_count_false_update(visited@, v as int);
                }
                visited.set(v, true);
                queue.push_back((v, dist + 1));
                proof {
                    hist = hist.push((v, (dist + 1) as usize));
                    assert(queue@ =~= hist.subrange(head, hist.len() as int));
                    let q = hist;
                    assert(q.drop_last() =~= old_q);
                    assert forall|i: int| 0 <= i < q.len() implies (#[trigger] q[i]).0 < n && visited@[q[i].0 as int] && q[i].0 != dst_idx by {
                        if i < old_q.len() {
                            assert(old_q[i] == q[i]);
                        }
                    }
                    assert forall|x: int| 0 <= x < n && #[trigger] visited@[x] implies exists|i: int| 0 <= i < q.len() && (#[trigger] q[i]).0 == x by {
                        if x == v {
                            assert(q[q.len() - 1].0 == x);
                        } else {
                            assert(old_vis[x]);
                            let i = choose|i: int| 0 <= i < old_q.len() && (#[trigger] old_q[i]).0 == x;
                            assert(q[i].0 == x);
                        }
                    }
                    assert forall|i: int| 0 <= i < q.len() implies hop_distance_is(adj@, src_idx, (#[trigger] q[i]).0, q[i].1 as int) by {
                        if i < old_q.len() {
                            assert(old_q[i] == q[i]);
                        }
                    }
                    assert forall|i: int, j: int| 0 <= i <= j < q.len() implies (#[trigger] q[i]).1 <= (#[trigger] q[j]).1 by {
                        if j < old_q.len() {
                            assert(old_q[i] == q[i]);
                            assert(old_q[j] == q[j]);
                        } else if i < old_q.len() {
                            assert(old_q[i] == q[i]);
                        }
                    }
                    assert forall|i: int| 0 <= i < q.len() implies (#[trigger] q[i]).1 <= i by {
                        if i < old_q.len() {
                            assert(old_q[i] == q[i]);
                        }
                    }
                    assert(queue_ok(adj@, src_idx, dst_idx, hist, visited@));
                    assert forall|i: int, kk: int| 0 <= i < head - 1 && 0 <= kk < adj@[q[i].0 as int]@.len()
                        implies visited@[#[trigger] adj@[(#[trigger] q[i]).0 as int]@[kk] as int] by {
                        assert(old_q[i] == q[i]);
                        assert(old_vis[adj@[old_q[i].0 as int]@[kk] as int]);
                    }
                    assert forall|j: int| 0 <= j < hist.len() implies (#[trigger] hist[j]).1 <= dist + 1 by {
                        if j < old_q.len() {
                            assert(old_q[j] == q[j]);
                        }
                    }
                    assert forall|j: int| 0 <= j < k + 1 implies visited@[#[trigger] row@[j] as int] by {
                        if j < k {
                            assert(old_vis[row@[j] as int]);
                        }
                    }
                }
            }
            k = k + 1;
        }
        proof {
            assert forall|i: int, kk: int| 0 <= i < head && 0 <= kk < adj@[hist[i].0 as int]@.len()
                implies visited@[#[trigger] adj@[(#[trigger] hist[i]).0 as int]@[kk] as int] by {
                if i == head - 1 {
                    assert(row@[kk] == adj@[hist[i].0 as int]@[kk]);
                }
            }
            if head < hist.len() {
                assert(hist[head - 1].1 <= hist[head].1);
            }
        }
    }
    proof {
        if reachable(adj@, src_idx, dst_idx) {
            let w = choose|w: Seq<usize>| #[trigger] walk_between(adj@, w, src_idx, dst_idx);
            lemma_walk_visited(adj@, src_idx, dst_idx, hist, visited@, hist.len() as int, w.len() - 1, w, w.len() - 1);
            lemma_walk_last_in_range(adj@, w, src_idx, dst_idx, dst_idx);
            let i = choose|i: int| 0 <= i < hist.len() && (#[trigger] hist[i]).0 == dst_idx;
        }
    }
    usize::MAX
}


/// Every link can be followed both ways.
pub open spec fn adj_symmetric(adj: Seq<Vec<usize>>) -> bool {
    forall|u: usize, v: usize| #[trigger] edge(adj, u, v) ==> edge(adj, v, u)
}

proof fn lemma_walk_reverse(adj: Seq<Vec<usize>>, w: Seq<usize>)
    requires
        adj_symmetric(adj),
        is_walk(adj, w),
    ensures
        is_walk(adj, w.reverse()),
        w.reverse()[0] == w.last(),
        w.reverse().last() == w[0],
{
    let r = w.reverse();
    let n = w.len();
    assert forall|i: int| 0 <= i < r.len() - 1 implies #[trigger] edge(adj, r[i], r[i + 1]) by {
        let j = n - 2 - i;
        assert(edge(adj, w[j], w[j + 1]));
        assert(r[i] == w[j + 1]);
        assert(r[i + 1] == w[j]);
    }
    if n > 1 {
        let j = n - 2;
        assert(edge(adj, w[j], w[j + 1]));
        assert(w[j + 1] == w.last());
        assert(edge(adj, w.last(), w[j]));
    }
}

/// On a symmetric adjacency the hop distance from `s` to `t` is the hop
/// distance from `t` to `s`, and `s` reaches `t` exactly when `t` reaches `s`.
pub proof fn lemma_hop_distance_symmetric(adj: Seq<Vec<usize>>, s: usize, t: usize, d: int)
    requires
        adj_symmetric(adj),
    ensures
        hop_distance_is(adj, s, t, d) ==> hop_distance_is(adj, t, s, d),
        reachable(adj, s, t) ==> reachable(adj, t, s),
{
    if reachable(adj, s, t) {
        let w = choose|w: Seq<usize>| #[trigger] walk_between(adj, w, s, t);
        lemma_walk_reverse(adj, w);
        assert(walk_between(adj, w.reverse(), t, s));
    }
    if hop_distance_is(adj, s, t, d) {
        let w = choose|w: Seq<usize>| #[trigger] walk_between(adj, w, s, t) && w.len() == d + 1;
        lemma_walk_reverse(adj, w);
        assert(walk_between(adj, w.reverse(), t, s));
        assert forall|w2: Seq<usize>| #[trigger] walk_between(adj, w2, t, s) implies w2.len() - 1 >= d by {
            lemma_walk_reverse(adj, w2);
            assert(walk_between(adj, w2.reverse(), s, t));
        }
    }
}


/// No walk from `s` to `t` has fewer hops than the hop distance that
/// [`graph_hop_count`] returns: any route over the links, the least-length
/// one included, takes at least that many hops.
pub proof fn lemma_walk_at_least_hop_distance(adj: Seq<Vec<usize>>, s: usize, t: usize, d: int, w: Seq<usize>)
    requires
        hop_distance_is(adj, s, t, d),
        walk_between(adj, w, s, t),
    ensures
        w.len() - 1 >= d,
{
}

} // verus!
