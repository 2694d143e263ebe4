use vstd::prelude::*;

verus! {

/// Remainder of `a / m` rounded toward zero, as Rust's `%` on signed integers.
pub open spec fn trunc_rem(a: int, m: int) -> int {
    if a >= 0 { a % m } else { -((-a) % m) }
}

/// Steps `current` by `direction` on a ring of `modulus` positions.
pub fn wrap_index(current: usize, direction: i32, modulus: usize) -> (res: usize)
    requires
        0 < modulus <= i32::MAX,
        current <= i32::MAX,
        i32::MIN <= current + direction + modulus <= i32::MAX,
    ensures
        current + direction + modulus >= 0 ==> res == (current + direction + modulus) % (modulus as int),
        current + direction + modulus < 0 ==> res == trunc_rem(current + direction + modulus, modulus as int) as usize,
{
    let s: i32 = current as i32 + direction + modulus as i32;
    let r: i32 = s % (modulus as i32);
    r as usize
}


/// Direction (+1 or -1) and number of hops from `src` to `dst`.
///
/// On a ring (`is_star == false`) the shorter way round wins, with ties going
/// forward; on an open line (`is_star == true`) the hops are the plain
/// difference and `modulus` is not read.
pub open spec fn path_direction(src: int, dst: int, modulus: int, is_star: bool) -> (int, int) {
    if is_star {
        if dst >= src { (1, dst - src) } else { (-1, src - dst) }
    } else {
        let fwd = (dst + modulus - src) % modulus;
        let bwd = (src + modulus - dst) % modulus;
        if fwd <= bwd { (1, fwd) } else { (-1, bwd) }
    }
}

pub fn compute_path_direction(src: usize, dst: usize, modulus: usize, is_star: bool) -> (res: (i32, usize))
    requires
        !is_star ==> {
            &&& modulus > 0
            &&& dst + modulus <= usize::MAX
            &&& src + modulus <= usize::MAX
            &&& src <= dst + modulus
            &&& dst <= src + modulus
        },
    ensures
        res.0 as int == path_direction(src as int, dst as int, modulus as int, is_star).0,
        res.1 as int == path_direction(src as int, dst as int, modulus as int, is_star).1,
{
    if is_star {
        if dst >= src {
            (1, dst - src)
        } else {
            (-1, src - dst)
        }
    } else {
        let diff_fwd = (dst + modulus - src) % modulus;
        let diff_bwd = (src + modulus - dst) % modulus;
        if diff_fwd <= diff_bwd {
            (1, diff_fwd)
        } else {
            (-1, diff_bwd)
        }
    }
}

/// Position reached from `start` after `k` steps of `dir` on a ring of `m`.
pub open spec fn ring_walk(start: int, dir: int, k: int, m: int) -> int {
    (start + dir * k) % m
}

/// Hop count of the path chosen by [`compute_path_direction`]; it is the same
/// whichever end the path starts from.
pub proof fn lemma_path_direction_symmetric(src: int, dst: int, modulus: int, is_star: bool)
    requires
        0 <= src,
        0 <= dst,
        !is_star ==> modulus > 0 && src < modulus && dst < modulus,
    ensures
        path_direction(src, dst, modulus, is_star).1 == path_direction(dst, src, modulus, is_star).1,
{
}

/// Walking the hops that [`compute_path_direction`] returns, in its direction,
/// from `src` reaches `dst`; on a ring the hop count is at most half the ring.
pub proof fn lemma_path_direction_reaches(src: int, dst: int, modulus: int, is_star: bool)
    requires
        0 <= src,
        0 <= dst,
        !is_star ==> modulus > 0 && src < modulus && dst < modulus,
    ensures
        ({
            let (dir, steps) = path_direction(src, dst, modulus, is_star);
            &&& steps >= 0
            &&& is_star ==> src + dir * steps == dst
            &&& !is_star ==> ring_walk(src, dir, steps, modulus) == dst
            &&& !is_star ==> 2 * steps <= modulus
        }),
{
    let (dir, steps) = path_direction(src, dst, modulus, is_star);
    if !is_star {
        if dst >= src {
            assert((dst + modulus - src) % modulus == dst - src) by {
                vstd::arithmetic::div_mod::lemma_mod_add_multiples_vanish(dst - src, modulus);
                vstd::arithmetic::div_mod::lemma_small_mod((dst - src) as nat, modulus as nat);
            }
            if src == dst {
                assert((src + modulus - dst) % modulus == 0) by {
                    vstd::arithmetic::div_mod::lemma_mod_self_0(modulus);
                }
            } else {
                assert((src + modulus - dst) % modulus == modulus - (dst - src)) by {
                    vstd::arithmetic::div_mod::lemma_small_mod((src + modulus - dst) as nat, modulus as nat);
                }
            }
        } else {
            assert((src + modulus - dst) % modulus == src - dst) by {
                vstd::arithmetic::div_mod::lemma_mod_add_multiples_vanish(src - dst, modulus);
                vstd::arithmetic::div_mod::lemma_small_mod((src - dst) as nat, modulus as nat);
            }
            assert((dst + modulus - src) % modulus == modulus - (src - dst)) by {
                vstd::arithmetic::div_mod::lemma_small_mod((dst + modulus - src) as nat, modulus as nat);
            }
        }
        if dir == 1 {
            assert(ring_walk(src, dir, steps, modulus) == (src + steps) % modulus);
            if dst >= src {
                vstd::arithmetic::div_mod::lemma_small_mod(dst as nat, modulus as nat);
            } else {
                assert(src + steps == dst + modulus);
                vstd::arithmetic::div_mod::lemma_mod_add_multiples_vanish(dst, modulus);
                vstd::arithmetic::div_mod::lemma_small_mod(dst as nat, modulus as nat);
            }
        } else {
            assert(ring_walk(src, dir, steps, modulus) == (src - steps) % modulus);
            if dst <= src {
                vstd::arithmetic::div_mod::lemma_small_mod(dst as nat, modulus as nat);
            } else {
                assert(src - steps == dst - modulus);
                vstd::arithmetic::div_mod::lemma_mod_sub_multiples_vanish(dst, modulus);
                vstd::arithmetic::div_mod::lemma_small_mod(dst as nat, modulus as nat);
            }
        }
    }
}


proof fn lemma_ring_step(start: int, dir: int, k: int, m: int)
    requires
        m > 0,
        dir == 1 || dir == -1,
    ensures
        0 <= ring_walk(start, dir, k, m) < m,
        (ring_walk(start, dir, k, m) + dir + m) % m == ring_walk(start, dir, k + 1, m),
{
    let a = start + dir * k;
    assert(start + dir * (k + 1) == a + dir) by (nonlinear_arith)
        requires
            a == start + dir * k,
    ;
    let r = a % m;
    vstd::arithmetic::div_mod::lemma_mod_bound(a, m);
    vstd::arithmetic::div_mod::lemma_mod_add_multiples_vanish(r + dir, m);
    vstd::arithmetic::div_mod::lemma_add_mod_noop(a, dir, m);
    vstd::arithmetic::div_mod::lemma_add_mod_noop_right(r, dir, m);
    assert(m + (r + dir) == r + dir + m);
}

proof fn lemma_ring_walk_zero(start: int, dir: int, m: int)
    requires
        0 <= start < m,
    ensures
        ring_walk(start, dir, 0, m) == start,
{
    vstd::arithmetic::div_mod::lemma_small_mod(start as nat, m as nat);
}

/// Node `i` of the Manhattan candidate path from `(sp, ss)` to `(dp, ds)`:
/// with `planes_first` the path first hops across planes at the source slot,
/// then along the destination plane; otherwise it first hops along the source
/// plane, then across planes at the destination slot.
pub open spec fn candidate_node(
    sp: int,
    ss: int,
    dp: int,
    ds: int,
    num_planes: int,
    sats_per_plane: int,
    is_star: bool,
    planes_first: bool,
    i: int,
) -> (usize, usize) {
    let (pdir, psteps) = path_direction(sp, dp, num_planes, is_star);
    let (sdir, ssteps) = path_direction(ss, ds, sats_per_plane, false);
    if i == 0 {
        (sp as usize, ss as usize)
    } else if planes_first {
        if i <= psteps {
            (ring_walk(sp, pdir, i, num_planes) as usize, ss as usize)
        } else {
            (dp as usize, ring_walk(ss, sdir, i - psteps, sats_per_plane) as usize)
        }
    } else {
        if i <= ssteps {
            (sp as usize, ring_walk(ss, sdir, i, sats_per_plane) as usize)
        } else {
            (ring_walk(sp, pdir, i - ssteps, num_planes) as usize, ds as usize)
        }
    }
}

pub open spec fn candidate_path(
    sp: int,
    ss: int,
    dp: int,
    ds: int,
    num_planes: int,
    sats_per_plane: int,
    is_star: bool,
    planes_first: bool,
) -> Seq<(usize, usize)> {
    let psteps = path_direction(sp, dp, num_planes, is_star).1;
    let ssteps = path_direction(ss, ds, sats_per_plane, false).1;
    Seq::new(
        (1 + psteps + ssteps) as nat,
        |i: int| candidate_node(sp, ss, dp, ds, num_planes, sats_per_plane, is_star, planes_first, i),
    )
}

/// Indices are in range and the grid is small enough for `i32` steps.
pub open spec fn torus_args_ok(
    src_plane: usize,
    src_sat: usize,
    dst_plane: usize,
    dst_sat: usize,
    num_planes: usize,
    sats_per_plane: usize,
) -> bool {
    &&& 0 < num_planes
    &&& 2 * num_planes <= i32::MAX
    &&& 0 < sats_per_plane
    &&& 2 * sats_per_plane <= i32::MAX
    &&& src_plane < num_planes
    &&& dst_plane < num_planes
    &&& src_sat < sats_per_plane
    &&& dst_sat < sats_per_plane
}

/// One of the two hop-by-hop Manhattan paths between two satellites of a
/// Walker grid (see [`candidate_node`]).
pub fn manhattan_candidate_path(
    src_plane: usize,
    src_sat: usize,
    dst_plane: usize,
    dst_sat: usize,
    num_planes: usize,
    sats_per_plane: usize,
    is_star: bool,
    planes_first: bool,
) -> (res: Vec<(usize, usize)>)
    requires
        torus_args_ok(src_plane, src_sat, dst_plane, dst_sat, num_planes, sats_per_plane),
    ensures
        res@ == candidate_path(
            src_plane as int,
            src_sat as int,
            dst_plane as int,
            dst_sat as int,
            num_planes as int,
            sats_per_plane as int,
            is_star,
            planes_first,
        ),
{
    let ghost spec_path = candidate_path(
        src_plane as int,
        src_sat as int,
        dst_plane as int,
        dst_sat as int,
        num_planes as int,
        sats_per_plane as int,
        is_star,
        planes_first,
    );
    let (plane_dir, plane_steps) = compute_path_direction(src_plane, dst_plane, num_planes, is_star);
    let (sat_dir, sat_steps) = compute_path_direction(src_sat, dst_sat, sats_per_plane, false);
    proof {
        lemma_path_direction_reaches(src_plane as int, dst_plane as int, num_planes as int, is_star);
        lemma_path_direction_reaches(src_sat as int, dst_sat as int, sats_per_plane as int, false);
        lemma_ring_walk_zero(src_plane as int, plane_dir as int, num_planes as int);
        lemma_ring_walk_zero(src_sat as int, sat_dir as int, sats_per_plane as int);
    }
    let mut p: Vec<(usize, usize)> = Vec::new();
    p.push((src_plane, src_sat));
    // first leg
    let (first_dir, first_steps, first_mod, first_start) = if planes_first {
        (plane_dir, plane_steps, num_planes, src_plane)
    } else {
        (sat_dir, sat_steps, sats_per_plane, src_sat)
    };
    let mut cur = first_start;
    let mut k: usize = 0;
    while k < first_steps
        invariant
            k <= first_steps,
            0 < first_mod, 2 * first_mod <= i32::MAX,
            first_dir == 1 || first_dir == -1,
            cur < first_mod,
            cur as int == ring_walk(first_start as int, first_dir as int, k as int, first_mod as int),
            p@.len() == 1 + k,
            planes_first ==> first_dir == plane_dir && first_steps == plane_steps && first_mod == num_planes && first_start == src_plane,
            !planes_first ==> first_dir == sat_dir && first_steps == sat_steps && first_mod == sats_per_plane && first_start == src_sat,
            plane_dir as int == path_direction(src_plane as int, dst_plane as int, num_planes as int, is_star).0,
            plane_steps as int == path_direction(src_plane as int, dst_plane as int, num_planes as int, is_star).1,
            sat_dir as int == path_direction(src_sat as int, dst_sat as int, sats_per_plane as int, false).0,
            sat_steps as int == path_direction(src_sat as int, dst_sat as int, sats_per_plane as int, false).1,
            spec_path == candidate_path(src_plane as int, src_sat as int, dst_plane as int, dst_sat as int, num_planes as int, sats_per_plane as int, is_star, planes_first),
            spec_path.len() == 1 + plane_steps + sat_steps,
            forall|j: int| 0 <= j < p@.len() ==> p@[j] == spec_path[j],
        decreases first_steps - k,
    {
        proof {
            lemma_ring_step(first_start as int, first_dir as int, k as int, first_mod as int);
        }
        cur = wrap_index(cur, first_dir, first_mod);
        k = k + 1;
        if planes_first {
            p.push((cur, src_sat));
        } else {
            p.push((src_plane, cur));
        }
        assert(p@[k as int] == spec_path[k as int]);
    }
    // second leg
    let (second_dir, second_steps, second_mod, second_start) = if planes_first {
        (sat_dir, sat_steps, sats_per_plane, src_sat)
    } else {
        (plane_dir, plane_steps, num_planes, src_plane)
    };
    let mut cur = second_start;
    let mut k: usize = 0;
    while k < second_steps
        invariant
            k <= second_steps,
            0 < second_mod, 2 * second_mod <= i32::MAX,
            second_dir == 1 || second_dir == -1,
            cur < second_mod,
            cur as int == ring_walk(second_start as int, second_dir as int, k as int, second_mod as int),
            p@.len() == 1 + first_steps + k,
            planes_first ==> second_dir == sat_dir && second_steps == sat_steps && second_mod == sats_per_plane && second_start == src_sat && first_steps == plane_steps,
            !planes_first ==> second_dir == plane_dir && second_steps == plane_steps && second_mod == num_planes && second_start == src_plane && first_steps == sat_steps,
            plane_dir as int == path_direction(src_plane as int, dst_plane as int, num_planes as int, is_star).0,
            plane_steps as int == path_direction(src_plane as int, dst_plane as int, num_planes as int, is_star).1,
            sat_dir as int == path_direction(src_sat as int, dst_sat as int, sats_per_plane as int, false).0,
            sat_steps as int == path_direction(src_sat as int, dst_sat as int, sats_per_plane as int, false).1,
            spec_path == candidate_path(src_plane as int, src_sat as int, dst_plane as int, dst_sat as int, num_planes as int, sats_per_plane as int, is_star, planes_first),
            spec_path.len() == 1 + plane_steps + sat_steps,
            forall|j: int| 0 <= j < p@.len() ==> p@[j] == spec_path[j],
        decreases second_steps - k,
    {
        proof {
            lemma_ring_step(second_start as int, second_dir as int, k as int, second_mod as int);
        }
        cur = wrap_index(cur, second_dir, second_mod);
        k = k + 1;
        if planes_first {
            p.push((dst_plane, cur));
        } else {
            p.push((cur, dst_sat));
        }
        assert(p@[first_steps + k] == spec_path[first_steps + k]);
    }
    assert(p@ =~= spec_path);
    p
}

/// The Manhattan candidate paths start at the source, end at the destination,
/// and have one node more than the plane hops plus the slot hops.
pub proof fn lemma_candidate_path_ends(
    sp: int,
    ss: int,
    dp: int,
    ds: int,
    num_planes: int,
    sats_per_plane: int,
    is_star: bool,
    planes_first: bool,
)
    requires
        0 <= sp < num_planes,
        0 <= dp < num_planes,
        0 <= ss < sats_per_plane,
        0 <= ds < sats_per_plane,
    ensures
        ({
            let path = candidate_path(sp, ss, dp, ds, num_planes, sats_per_plane, is_star, planes_first);
            &&& path.len() >= 1
            &&& path.len() == 1 + path_direction(sp, dp, num_planes, is_star).1 + path_direction(ss, ds, sats_per_plane, false).1
            &&& path[0] == (sp as usize, ss as usize)
            &&& path.last() == (dp as usize, ds as usize)
        }),
{
    lemma_path_direction_reaches(sp, dp, num_planes, is_star);
    lemma_path_direction_reaches(ss, ds, sats_per_plane, false);
    let (pdir, psteps) = path_direction(sp, dp, num_planes, is_star);
    if is_star {
        assert(ring_walk(sp, pdir, psteps, num_planes) == dp) by {
            vstd::arithmetic::div_mod::lemma_small_mod(dp as nat, num_planes as nat);
        }
    }
    let (sdir, ssteps) = path_direction(ss, ds, sats_per_plane, false);
    lemma_ring_walk_zero(sp, pdir, num_planes);
    lemma_ring_walk_zero(ss, sdir, sats_per_plane);
}


/// One step forward with [`wrap_index`] followed by one step back (or back
/// then forward) returns to the starting position.
pub proof fn lemma_wrap_index_step_back(current: int, modulus: int)
    requires
        0 <= current < modulus,
    ensures
        ((current + 1 + modulus) % modulus + (-1) + modulus) % modulus == current,
        ((current + (-1) + modulus) % modulus + 1 + modulus) % modulus == current,
{
    let m = modulus;
    let c = current;
    // forward: (c + 1 + m) % m is c + 1, or 0 at the end of the ring
    vstd::arithmetic::div_mod::lemma_mod_add_multiples_vanish(c + 1, m);
    let f = (c + 1 + m) % m;
    if c + 1 < m {
        vstd::arithmetic::div_mod::lemma_small_mod((c + 1) as nat, m as nat);
        assert(f == c + 1);
        vstd::arithmetic::div_mod::lemma_mod_add_multiples_vanish(c, m);
        vstd::arithmetic::div_mod::lemma_small_mod(c as nat, m as nat);
    } else {
        vstd::arithmetic::div_mod::lemma_mod_self_0(m);
        assert(f == 0);
        vstd::arithmetic::div_mod::lemma_small_mod((m - 1) as nat, m as nat);
    }
    // backward: (c - 1 + m) % m is c - 1, or m - 1 at the start of the ring
    let b = (c - 1 + m) % m;
    if c >= 1 {
        vstd::arithmetic::div_mod::lemma_mod_add_multiples_vanish(c - 1, m);
        vstd::arithmetic::div_mod::lemma_small_mod((c - 1) as nat, m as nat);
        assert(b == c - 1);
        vstd::arithmetic::div_mod::lemma_mod_add_multiples_vanish(c, m);
        vstd::arithmetic::div_mod::lemma_small_mod(c as nat, m as nat);
    } else {
        vstd::arithmetic::div_mod::lemma_small_mod((m - 1) as nat, m as nat);
        assert(b == m - 1);
        vstd::arithmetic::div_mod::lemma_mod_self_0(m);
        assert((m - 1 + 1 + m) % m == (2 * m) % m);
        vstd::arithmetic::div_mod::lemma_mod_multiples_basic(2, m);
    }
}


/// Forward distance from `a` to `b` on a ring of `m` positions, without `%`.
pub proof fn lemma_ring_forward(a: int, b: int, m: int)
    requires
        0 <= a < m,
        0 <= b < m,
    ensures
        (b + m - a) % m == if b >= a { b - a } else { b - a + m },
{
    if b >= a {
        vstd::arithmetic::div_mod::lemma_mod_add_multiples_vanish(b - a, m);
        vstd::arithmetic::div_mod::lemma_small_mod((b - a) as nat, m as nat);
    } else {
        vstd::arithmetic::div_mod::lemma_small_mod((b - a + m) as nat, m as nat);
    }
}

/// Hop counts of [`compute_path_direction`] obey the triangle inequality:
/// going from `a` to `c` never takes more hops than going through `b`.
pub proof fn lemma_path_direction_triangle(a: int, b: int, c: int, modulus: int, is_star: bool)
    requires
        0 <= a < modulus,
        0 <= b < modulus,
        0 <= c < modulus,
    ensures
        path_direction(a, c, modulus, is_star).1 <= path_direction(a, b, modulus, is_star).1 + path_direction(b, c, modulus, is_star).1,
{
    if !is_star {
        lemma_ring_forward(a, b, modulus);
        lemma_ring_forward(b, a, modulus);
        lemma_ring_forward(b, c, modulus);
        lemma_ring_forward(c, b, modulus);
        lemma_ring_forward(a, c, modulus);
        lemma_ring_forward(c, a, modulus);
    }
}

/// Position after `k` steps of [`wrap_index`] in direction `dir` from `start`.
pub open spec fn wrap_steps(start: int, dir: int, modulus: int, k: nat) -> int
    decreases k,
{
    if k == 0 {
        start
    } else {
        (wrap_steps(start, dir, modulus, (k - 1) as nat) + dir + modulus) % modulus
    }
}

proof fn lemma_wrap_steps_walk(start: int, dir: int, modulus: int, k: nat)
    requires
        0 <= start < modulus,
        dir == 1 || dir == -1,
    ensures
        wrap_steps(start, dir, modulus, k) == ring_walk(start, dir, k as int, modulus),
    decreases k,
{
    if k == 0 {
        vstd::arithmetic::div_mod::lemma_small_mod(start as nat, modulus as nat);
    } else {
        let k1 = (k - 1) as nat;
        lemma_wrap_steps_walk(start, dir, modulus, k1);
        let x = start + dir * k1;
        let m = modulus;
        vstd::arithmetic::div_mod::lemma_add_mod_noop_right(dir + m, x, m);
        assert((x % m + dir + m) % m == ((dir + m) + x) % m);
        vstd::arithmetic::div_mod::lemma_mod_add_multiples_vanish(x + dir, m);
        assert(((dir + m) + x) % m == (x + dir) % m);
        assert(start + dir * (k as int) == x + dir) by (nonlinear_arith)
            requires
                x == start + dir * k1,
                k1 == k - 1,
        ;
    }
}

/// Stepping with [`wrap_index`] in the direction that
/// [`compute_path_direction`] picks on a ring reaches `dst` after exactly the
/// hop count it returns, and not at any earlier step.
pub proof fn lemma_wrap_steps_reach(src: int, dst: int, modulus: int)
    requires
        0 <= src < modulus,
        0 <= dst < modulus,
    ensures
        ({
            let (dir, steps) = path_direction(src, dst, modulus, false);
            &&& steps >= 0
            &&& wrap_steps(src, dir, modulus, steps as nat) == dst
            &&& forall|j: nat| j < steps ==> #[trigger] wrap_steps(src, dir, modulus, j) != dst
        }),
{
    let (dir, steps) = path_direction(src, dst, modulus, false);
    lemma_path_direction_reaches(src, dst, modulus, false);
    lemma_ring_forward(src, dst, modulus);
    lemma_ring_forward(dst, src, modulus);
    lemma_wrap_steps_walk(src, dir, modulus, steps as nat);
    assert forall|j: nat| j < steps implies #[trigger] wrap_steps(src, dir, modulus, j) != dst by {
        lemma_wrap_steps_walk(src, dir, modulus, j);
        let y = src + dir * (j as int);
        assert(y == src + j || y == src - j);
        if dir == 1 {
            assert(y == src + j);
            if y < modulus {
                vstd::arithmetic::div_mod::lemma_small_mod(y as nat, modulus as nat);
            } else {
                vstd::arithmetic::div_mod::lemma_mod_add_multiples_vanish(y - modulus, modulus);
                vstd::arithmetic::div_mod::lemma_small_mod((y - modulus) as nat, modulus as nat);
            }
        } else {
            assert(y == src - j);
            if y >= 0 {
                vstd::arithmetic::div_mod::lemma_small_mod(y as nat, modulus as nat);
            } else {
                vstd::arithmetic::div_mod::lemma_mod_add_multiples_vanish(y, modulus);
                vstd::arithmetic::div_mod::lemma_small_mod((y + modulus) as nat, modulus as nat);
            }
        }
    }
}

} // verus!
