use vstd::prelude::*;
use crate::torus::{path_direction, lemma_ring_forward};
use crate::spacecomp::{hop_count, lemma_hop_count_triangle};

verus! {

/// Plane after `up` on a ring of `num_planes` planes.
pub open spec fn next_plane(up: usize, num_planes: usize) -> usize {
    ((up + 1) % (num_planes as int)) as usize
}

/// Plane before `up` on a ring of `num_planes` planes.
pub open spec fn prev_plane(up: usize, num_planes: usize) -> usize {
    ((up + num_planes - 1) % (num_planes as int)) as usize
}

/// Grid links of slot `us` of plane `up`, in order: the next and previous
/// slot of the same plane, then the same slot of the next and of the
/// previous plane. A star constellation has no link across the seam
/// between the last and the first plane.
pub open spec fn grid_neighbor_list(up: usize, us: usize, num_planes: usize, sats_per_plane: usize, is_star: bool) -> Seq<(usize, usize)> {
    let fwd = next_plane(up, num_planes);
    let bck = prev_plane(up, num_planes);
    let in_plane = seq![
        (up, ((us + 1) % (sats_per_plane as int)) as usize),
        (up, ((us + sats_per_plane - 1) % (sats_per_plane as int)) as usize),
    ];
    let with_fwd = if !is_star || fwd != 0 || up != num_planes - 1 { in_plane.push((fwd, us)) } else { in_plane };
    if !is_star || up != 0 || bck != num_planes - 1 { with_fwd.push((bck, us)) } else { with_fwd }
}

/// The grid links of slot `slot` of plane `plane` (see [`grid_neighbor_list`]).
pub fn grid_neighbors(plane: usize, slot: usize, num_planes: usize, sats_per_plane: usize, is_star: bool) -> (res: Vec<(usize, usize)>)
    requires
        plane < num_planes,
        slot < sats_per_plane,
        2 * num_planes <= usize::MAX,
        2 * sats_per_plane <= usize::MAX,
    ensures
        res@ == grid_neighbor_list(plane, slot, num_planes, sats_per_plane, is_star),
{
    let fwd = (plane + 1) % num_planes;
    let bck = (plane + num_planes - 1) % num_planes;
    let mut res: Vec<(usize, usize)> = Vec::new();
    res.push((plane, (slot + 1) % sats_per_plane));
    res.push((plane, (slot + sats_per_plane - 1) % sats_per_plane));
    if !is_star || fwd != 0 || plane != num_planes - 1 {
        res.push((fwd, slot));
    }
    if !is_star || plane != 0 || bck != num_planes - 1 {
        res.push((bck, slot));
    }
    proof {
        assert(res@ =~= grid_neighbor_list(plane, slot, num_planes, sats_per_plane, is_star));
    }
    res
}

/// Both halves of the address lie inside the grid.
pub open spec fn in_grid(a: (usize, usize), num_planes: usize, sats_per_plane: usize) -> bool {
    a.0 < num_planes && a.1 < sats_per_plane
}

proof fn lemma_step_one_hop(a: int, m: int, fwd_step: bool)
    requires
        0 <= a < m,
    ensures
        ({
            let b = if fwd_step { (a + 1) % m } else { (a + m - 1) % m };
            &&& 0 <= b < m
            &&& path_direction(a, b, m, false).1 <= 1
            &&& fwd_step ==> (b == a + 1 || (b == 0 && a == m - 1))
            &&& !fwd_step ==> (b == a - 1 || (b == m - 1 && a == 0))
        }),
{
    let b = if fwd_step { (a + 1) % m } else { (a + m - 1) % m };
    if fwd_step {
        if a + 1 < m {
            vstd::arithmetic::div_mod::lemma_small_mod((a + 1) as nat, m as nat);
        } else {
            vstd::arithmetic::div_mod::lemma_mod_self_0(m);
        }
    } else {
        if a >= 1 {
            vstd::arithmetic::div_mod::lemma_mod_add_multiples_vanish(a - 1, m);
            vstd::arithmetic::div_mod::lemma_small_mod((a - 1) as nat, m as nat);
        } else {
            vstd::arithmetic::div_mod::lemma_small_mod((m - 1) as nat, m as nat);
        }
    }
    lemma_ring_forward(a, b, m);
    lemma_ring_forward(b, a, m);
}

/// Every grid link joins two addresses of the grid at most one hop apart.
pub proof fn lemma_grid_link_one_hop(up: usize, us: usize, num_planes: usize, sats_per_plane: usize, is_star: bool, k: int)
    requires
        in_grid((up, us), num_planes, sats_per_plane),
        0 <= k < grid_neighbor_list(up, us, num_planes, sats_per_plane, is_star).len(),
    ensures
        ({
            let v = grid_neighbor_list(up, us, num_planes, sats_per_plane, is_star)[k];
            &&& in_grid(v, num_planes, sats_per_plane)
            &&& hop_count(up as int, us as int, v.0 as int, v.1 as int, num_planes as int, sats_per_plane as int, is_star) <= 1
        }),
{
    let np = num_planes as int;
    let spp = sats_per_plane as int;
    lemma_step_one_hop(us as int, spp, true);
    lemma_step_one_hop(us as int, spp, false);
    lemma_step_one_hop(up as int, np, true);
    lemma_step_one_hop(up as int, np, false);
    vstd::arithmetic::div_mod::lemma_mod_self_0(np);
    vstd::arithmetic::div_mod::lemma_mod_self_0(spp);
    lemma_ring_forward(up as int, up as int, np);
    lemma_ring_forward(us as int, us as int, spp);
}

/// `w` is a walk over grid links: it starts inside the grid and each address
/// is a grid link of the one before.
pub open spec fn is_grid_walk(w: Seq<(usize, usize)>, num_planes: usize, sats_per_plane: usize, is_star: bool) -> bool {
    &&& w.len() >= 1
    &&& in_grid(w[0], num_planes, sats_per_plane)
    &&& forall|i: int| 0 <= i < w.len() - 1 ==>
        #[trigger] grid_neighbor_list(w[i].0, w[i].1, num_planes, sats_per_plane, is_star).contains(w[i + 1])
}

/// A walk over grid links from `a` to `b` has at least as many hops as the
/// Manhattan hop count between `a` and `b`: no grid route is shorter in hops.
pub proof fn lemma_grid_walk_hops(w: Seq<(usize, usize)>, num_planes: usize, sats_per_plane: usize, is_star: bool)
    requires
        is_grid_walk(w, num_planes, sats_per_plane, is_star),
    ensures
        in_grid(w.last(), num_planes, sats_per_plane),
        hop_count(w[0].0 as int, w[0].1 as int, w.last().0 as int, w.last().1 as int,
            num_planes as int, sats_per_plane as int, is_star) <= w.len() - 1,
    decreases w.len(),
{
    let a = w[0];
    if w.len() == 1 {
        vstd::arithmetic::div_mod::lemma_mod_self_0(num_planes as int);
        vstd::arithmetic::div_mod::lemma_mod_self_0(sats_per_plane as int);
        lemma_ring_forward(a.0 as int, a.0 as int, num_planes as int);
        lemma_ring_forward(a.1 as int, a.1 as int, sats_per_plane as int);
    } else {
        let d = w.drop_last();
        assert forall|i: int| 0 <= i < d.len() - 1 implies
            #[trigger] grid_neighbor_list(d[i].0, d[i].1, num_planes, sats_per_plane, is_star).contains(d[i + 1]) by {
            assert(grid_neighbor_list(w[i].0, w[i].1, num_planes, sats_per_plane, is_star).contains(w[i + 1]));
        }
        lemma_grid_walk_hops(d, num_planes, sats_per_plane, is_star);
        let y = d.last();
        let z = w.last();
        let j = w.len() - 2;
        assert(y == w[j]);
        assert(grid_neighbor_list(w[j].0, w[j].1, num_planes, sats_per_plane, is_star).contains(w[j + 1]));
        let k = choose|k: int| 0 <= k < grid_neighbor_list(y.0, y.1, num_planes, sats_per_plane, is_star).len()
            && grid_neighbor_list(y.0, y.1, num_planes, sats_per_plane, is_star)[k] == z;
        lemma_grid_link_one_hop(y.0, y.1, num_planes, sats_per_plane, is_star, k);
        lemma_hop_count_triangle(a.0, a.1, y.0, y.1, z.0, z.1, num_planes, sats_per_plane, is_star);
    }
}

} // verus!
