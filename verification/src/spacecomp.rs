use vstd::prelude::*;
use std::collections::HashSet;
use crate::torus::{compute_path_direction, path_direction, lemma_path_direction_reaches, lemma_path_direction_symmetric, lemma_path_direction_triangle, candidate_path, lemma_candidate_path_ends};
use crate::lapjv::{is_permutation, seq_sum, lapjv_assignment, square_costs, cost_at, cost_limit, assignment_cost, pair_columns};

verus! {

/// Roles picked for an in-orbit map-reduce job, as grid addresses
/// `(plane, slot)`: the satellites collecting over the area of interest, the
/// mappers they hand data to (`assignments[k] == (collector k, mapper k)`),
/// the reducer, and the satellite over the ground station.
pub struct SpaceCompResult {
    pub collectors: Vec<(usize, usize)>,
    pub mappers: Vec<(usize, usize)>,
    pub assignments: Vec<(usize, usize)>,
    pub reducer: (usize, usize),
    pub gs_sat: (usize, usize),
}

/// Arguments on which [`compute_path_direction`] runs without overflow:
/// for a ring, a non-empty ring on which `src + modulus` and `dst + modulus`
/// fit and neither end lies a full ring past the other; an open line (star
/// planes) needs nothing.
pub open spec fn direction_args_ok(src: usize, dst: usize, modulus: usize, is_star: bool) -> bool {
    !is_star ==> {
        &&& modulus > 0
        &&& dst + modulus <= usize::MAX
        &&& src + modulus <= usize::MAX
        &&& src <= dst + modulus
        &&& dst <= src + modulus
    }
}

/// Arguments on which [`manhattan_hop_count`] runs without overflow: both
/// direction computations do, and the two hop counts add up within `usize`.
pub open spec fn hop_args_ok(p1: usize, s1: usize, p2: usize, s2: usize, num_planes: usize, sats_per_plane: usize, is_star: bool) -> bool {
    &&& direction_args_ok(p1, p2, num_planes, is_star)
    &&& direction_args_ok(s1, s2, sats_per_plane, false)
    &&& hop_count(p1 as int, s1 as int, p2 as int, s2 as int, num_planes as int, sats_per_plane as int, is_star) <= usize::MAX
}

/// Number of hops of a Manhattan route between two grid addresses.
pub open spec fn hop_count(p1: int, s1: int, p2: int, s2: int, num_planes: int, sats_per_plane: int, is_star: bool) -> int {
    path_direction(p1, p2, num_planes, is_star).1 + path_direction(s1, s2, sats_per_plane, false).1
}

/// Hops between `(p1, s1)` and `(p2, s2)` on the Manhattan lattice of the grid.
pub fn manhattan_hop_count(
    p1: usize,
    s1: usize,
    p2: usize,
    s2: usize,
    num_planes: usize,
    sats_per_plane: usize,
    is_star: bool,
) -> (res: usize)
    requires
        hop_args_ok(p1, s1, p2, s2, num_planes, sats_per_plane, is_star),
    ensures
        res == hop_count(p1 as int, s1 as int, p2 as int, s2 as int, num_planes as int, sats_per_plane as int, is_star),
{
    let (_, plane_hops) = compute_path_direction(p1, p2, num_planes, is_star);
    let (_, sat_hops) = compute_path_direction(s1, s2, sats_per_plane, false);
    plane_hops + sat_hops
}


/// The hop count between two grid addresses is the same from either end.
pub proof fn lemma_hop_count_symmetric(p1: usize, s1: usize, p2: usize, s2: usize, num_planes: usize, sats_per_plane: usize, is_star: bool)
    requires
        p1 < num_planes,
        p2 < num_planes,
        s1 < sats_per_plane,
        s2 < sats_per_plane,
    ensures
        hop_count(p1 as int, s1 as int, p2 as int, s2 as int, num_planes as int, sats_per_plane as int, is_star)
            == hop_count(p2 as int, s2 as int, p1 as int, s1 as int, num_planes as int, sats_per_plane as int, is_star),
{
    lemma_path_direction_symmetric(p1 as int, p2 as int, num_planes as int, is_star);
    lemma_path_direction_symmetric(s1 as int, s2 as int, sats_per_plane as int, false);
}

/// A Manhattan candidate path between two grid addresses has one node more
/// than the hop count between them.
pub proof fn lemma_candidate_path_hops(p1: usize, s1: usize, p2: usize, s2: usize, num_planes: usize, sats_per_plane: usize, is_star: bool, planes_first: bool)
    requires
        p1 < num_planes,
        p2 < num_planes,
        s1 < sats_per_plane,
        s2 < sats_per_plane,
    ensures
        candidate_path(p1 as int, s1 as int, p2 as int, s2 as int, num_planes as int, sats_per_plane as int, is_star, planes_first).len()
            == 1 + hop_count(p1 as int, s1 as int, p2 as int, s2 as int, num_planes as int, sats_per_plane as int, is_star),
{
    lemma_candidate_path_ends(p1 as int, s1 as int, p2 as int, s2 as int, num_planes as int, sats_per_plane as int, is_star, planes_first);
}

/// The hop count obeys the triangle inequality: from `(p1, s1)` to
/// `(p3, s3)` never takes more hops than going through `(p2, s2)`.
pub proof fn lemma_hop_count_triangle(
    p1: usize, s1: usize, p2: usize, s2: usize, p3: usize, s3: usize,
    num_planes: usize, sats_per_plane: usize, is_star: bool,
)
    requires
        p1 < num_planes,
        p2 < num_planes,
        p3 < num_planes,
        s1 < sats_per_plane,
        s2 < sats_per_plane,
        s3 < sats_per_plane,
    ensures
        hop_count(p1 as int, s1 as int, p3 as int, s3 as int, num_planes as int, sats_per_plane as int, is_star)
            <= hop_count(p1 as int, s1 as int, p2 as int, s2 as int, num_planes as int, sats_per_plane as int, is_star)
             + hop_count(p2 as int, s2 as int, p3 as int, s3 as int, num_planes as int, sats_per_plane as int, is_star),
{
    lemma_path_direction_triangle(p1 as int, p2 as int, p3 as int, num_planes as int, is_star);
    lemma_path_direction_triangle(s1 as int, s2 as int, s3 as int, sats_per_plane as int, false);
}

/// An address is no hops from itself.
pub proof fn lemma_hop_count_zero(p: usize, s: usize, num_planes: usize, sats_per_plane: usize, is_star: bool)
    requires
        p < num_planes,
        s < sats_per_plane,
    ensures
        hop_count(p as int, s as int, p as int, s as int, num_planes as int, sats_per_plane as int, is_star) == 0,
{
    vstd::arithmetic::div_mod::lemma_mod_self_0(num_planes as int);
    vstd::arithmetic::div_mod::lemma_mod_self_0(sats_per_plane as int);
}

/// Both halves of a grid address lie inside the grid.
pub open spec fn on_grid(a: (usize, usize), num_planes: usize, sats_per_plane: usize) -> bool {
    a.0 < num_planes && a.1 < sats_per_plane
}

/// Every address of `s` lies inside the grid.
pub open spec fn all_on_grid(s: Seq<(usize, usize)>, num_planes: usize, sats_per_plane: usize) -> bool {
    forall|i: int| 0 <= i < s.len() ==> on_grid(#[trigger] s[i], num_planes, sats_per_plane)
}

/// Hops between two grid addresses.
pub open spec fn hops(a: (usize, usize), b: (usize, usize), num_planes: usize, sats_per_plane: usize, is_star: bool) -> int {
    hop_count(a.0 as int, a.1 as int, b.0 as int, b.1 as int, num_planes as int, sats_per_plane as int, is_star)
}

/// Hops from `a` to the nearest address of the nonempty list `targets`.
pub open spec fn nearest_hops(a: (usize, usize), targets: Seq<(usize, usize)>, num_planes: usize, sats_per_plane: usize, is_star: bool) -> int
    decreases targets.len(),
{
    if targets.len() <= 1 {
        hops(a, targets[0], num_planes, sats_per_plane, is_star)
    } else {
        let rest = nearest_hops(a, targets.drop_last(), num_planes, sats_per_plane, is_star);
        let last = hops(a, targets.last(), num_planes, sats_per_plane, is_star);
        if last < rest { last } else { rest }
    }
}

/// A hop count between grid addresses is at most `num_planes + sats_per_plane`.
pub proof fn lemma_hops_bound(a: (usize, usize), b: (usize, usize), num_planes: usize, sats_per_plane: usize, is_star: bool)
    requires
        on_grid(a, num_planes, sats_per_plane),
        on_grid(b, num_planes, sats_per_plane),
    ensures
        0 <= hops(a, b, num_planes, sats_per_plane, is_star) <= num_planes + sats_per_plane,
{
    lemma_path_direction_reaches(a.0 as int, b.0 as int, num_planes as int, is_star);
    lemma_path_direction_reaches(a.1 as int, b.1 as int, sats_per_plane as int, false);
}

/// The nearest target is within `num_planes + sats_per_plane` hops, and no
/// target is nearer.
pub proof fn lemma_nearest_hops(a: (usize, usize), targets: Seq<(usize, usize)>, num_planes: usize, sats_per_plane: usize, is_star: bool)
    requires
        targets.len() > 0,
        on_grid(a, num_planes, sats_per_plane),
        all_on_grid(targets, num_planes, sats_per_plane),
    ensures
        0 <= nearest_hops(a, targets, num_planes, sats_per_plane, is_star) <= num_planes + sats_per_plane,
        forall|i: int| 0 <= i < targets.len() ==> nearest_hops(a, targets, num_planes, sats_per_plane, is_star) <= hops(a, #[trigger] targets[i], num_planes, sats_per_plane, is_star),
        exists|i: int| 0 <= i < targets.len() && nearest_hops(a, targets, num_planes, sats_per_plane, is_star) == hops(a, #[trigger] targets[i], num_planes, sats_per_plane, is_star),
    decreases targets.len(),
{
    lemma_hops_bound(a, targets.last(), num_planes, sats_per_plane, is_star);
    lemma_hops_bound(a, targets[0], num_planes, sats_per_plane, is_star);
    if targets.len() > 1 {
        let rest = targets.drop_last();
        lemma_nearest_hops(a, rest, num_planes, sats_per_plane, is_star);
        assert forall|i: int| 0 <= i < targets.len() implies nearest_hops(a, targets, num_planes, sats_per_plane, is_star) <= hops(a, #[trigger] targets[i], num_planes, sats_per_plane, is_star) by {
            if i < targets.len() - 1 {
                assert(rest[i] == targets[i]);
            }
        }
        let w = choose|i: int| 0 <= i < rest.len() && nearest_hops(a, rest, num_planes, sats_per_plane, is_star) == hops(a, #[trigger] rest[i], num_planes, sats_per_plane, is_star);
        assert(rest[w] == targets[w]);
        assert(targets[targets.len() - 1] == targets.last());
    } else {
        assert(targets[0] == targets.last());
    }
}

/// The plane and slot counts can be doubled without overflow.
pub open spec fn grid_fits(num_planes: usize, sats_per_plane: usize) -> bool {
    &&& 2 * num_planes <= usize::MAX
    &&& 2 * sats_per_plane <= usize::MAX
}

/// Hops from `a` to the nearest address of `targets`.
fn nearest_hop_count(a: (usize, usize), targets: &[(usize, usize)], num_planes: usize, sats_per_plane: usize, is_star: bool) -> (res: usize)
    requires
        targets@.len() > 0,
        grid_fits(num_planes, sats_per_plane),
        on_grid(a, num_planes, sats_per_plane),
        all_on_grid(targets@, num_planes, sats_per_plane),
    ensures
        res == nearest_hops(a, targets@, num_planes, sats_per_plane, is_star),
{
    let mut best = manhattan_hop_count(a.0, a.1, targets[0].0, targets[0].1, num_planes, sats_per_plane, is_star);
    proof {
        assert(on_grid(targets@[0], num_planes, sats_per_plane));
        assert(targets@.take(1).len() == 1);
        assert(targets@.take(1)[0] == targets@[0]);
    }
    let mut k: usize = 1;
    while k < targets.len()
        invariant
            1 <= k <= targets@.len(),
            grid_fits(num_planes, sats_per_plane),
            on_grid(a, num_planes, sats_per_plane),
            all_on_grid(targets@, num_planes, sats_per_plane),
            best == nearest_hops(a, targets@.take(k as int), num_planes, sats_per_plane, is_star),
        decreases targets@.len() - k,
    {
        proof {
            assert(on_grid(targets@[k as int], num_planes, sats_per_plane));
        }
        let h = manhattan_hop_count(a.0, a.1, targets[k].0, targets[k].1, num_planes, sats_per_plane, is_star);
        proof {
            let t = targets@.take(k + 1);
            assert(t.drop_last() =~= targets@.take(k as int));
            assert(t.last() == targets@[k as int]);
        }
        if h < best {
            best = h;
        }
        k = k + 1;
    }
    proof {
        assert(targets@.take(targets@.len() as int) =~= targets@);
    }
    best
}

/// Key of a grid address in an address set: the plane in the high 64 bits,
/// the slot in the low 64 bits.
pub open spec fn addr_key(a: (usize, usize)) -> u128 {
    (a.0 as int * 0x1_0000_0000_0000_0000int + a.1 as int) as u128
}

proof fn lemma_addr_key(a: (usize, usize), b: (usize, usize))
    ensures
        addr_key(a) as int == a.0 as int * 0x1_0000_0000_0000_0000int + a.1 as int,
        addr_key(a) == addr_key(b) ==> a == b,
{
    assert(0 <= (a.0 as int) * 0x1_0000_0000_0000_0000int + (a.1 as int) < 0x1_0000_0000_0000_0000_0000_0000_0000_0000int) by (nonlinear_arith)
        requires
            (a.0 as int) < 0x1_0000_0000_0000_0000int,
            (a.1 as int) < 0x1_0000_0000_0000_0000int,
    ;
    assert(0 <= (b.0 as int) * 0x1_0000_0000_0000_0000int + (b.1 as int) < 0x1_0000_0000_0000_0000_0000_0000_0000_0000int) by (nonlinear_arith)
        requires
            (b.0 as int) < 0x1_0000_0000_0000_0000int,
            (b.1 as int) < 0x1_0000_0000_0000_0000int,
    ;
    if addr_key(a) == addr_key(b) {
        let k = addr_key(a) as int;
        vstd::arithmetic::div_mod::lemma_fundamental_div_mod_converse(k, 0x1_0000_0000_0000_0000int, a.0 as int, a.1 as int);
        vstd::arithmetic::div_mod::lemma_fundamental_div_mod_converse(k, 0x1_0000_0000_0000_0000int, b.0 as int, b.1 as int);
    }
}

fn addr_key_of(a: (usize, usize)) -> (k: u128)
    ensures
        k == addr_key(a),
{
    proof {
        lemma_addr_key(a, a);
    }
    assert((a.0 as u128) * 0x1_0000_0000_0000_0000u128 + (a.1 as u128) < 0x1_0000_0000_0000_0000_0000_0000_0000_0000int) by (nonlinear_arith)
        requires
            (a.0 as int) < 0x1_0000_0000_0000_0000int,
            (a.1 as int) < 0x1_0000_0000_0000_0000int,
    ;
    (a.0 as u128) * 0x1_0000_0000_0000_0000u128 + (a.1 as u128)
}

/// The set of the addresses of `list`, keyed by [`addr_key`].
fn addr_set(list: &[(usize, usize)]) -> (set: HashSet<u128>)
    ensures
        forall|a: (usize, usize)| #[trigger] set@.contains(addr_key(a)) <==> list@.contains(a),
{
    broadcast use vstd::std_specs::hash::group_hash_axioms;
    let mut set: HashSet<u128> = HashSet::new();
    let mut i: usize = 0;
    while i < list.len()
        invariant
            i <= list@.len(),
            forall|k: u128| #[trigger] set@.contains(k) <==> exists|j: int| 0 <= j < i && addr_key(list@[j]) == k,
        decreases list@.len() - i,
    {
        let k = addr_key_of(list[i]);
        set.insert(k);
        proof {
            assert forall|k2: u128| #[trigger] set@.contains(k2) <==> exists|j: int| 0 <= j < i + 1 && addr_key(list@[j]) == k2 by {
                if k2 == k {
                    assert(addr_key(list@[i as int]) == k2);
                }
            }
        }
        i = i + 1;
    }
    proof {
        assert forall|a: (usize, usize)| #[trigger] set@.contains(addr_key(a)) <==> list@.contains(a) by {
            if set@.contains(addr_key(a)) {
                let j = choose|j: int| 0 <= j < list@.len() && addr_key(list@[j]) == addr_key(a);
                lemma_addr_key(list@[j], a);
            }
            if list@.contains(a) {
                let j = choose|j: int| 0 <= j < list@.len() && list@[j] == a;
                assert(addr_key(list@[j]) == addr_key(a));
            }
        }
    }
    set
}

/// Whether address `a` is in the set built by [`addr_set`].
fn in_addr_set(set: &HashSet<u128>, a: (usize, usize)) -> (res: bool)
    ensures
        res == set@.contains(addr_key(a)),
{
    broadcast use vstd::std_specs::hash::group_hash_axioms;
    let k = addr_key_of(a);
    set.contains(&k)
}

/// Sort key `a` with position `ia` comes strictly before key `b` with
/// position `ib`: keys compared lexicographically, ties broken by position.
pub open spec fn key_before(a: (int, int), ia: int, b: (int, int), ib: int) -> bool {
    a.0 < b.0 || (a.0 == b.0 && (a.1 < b.1 || (a.1 == b.1 && ia < ib)))
}

/// Lexicographic `<=` on key pairs.
pub open spec fn key_le(a: (int, int), b: (int, int)) -> bool {
    a.0 < b.0 || (a.0 == b.0 && a.1 <= b.1)
}

/// `idx` witnesses that `out` is `items` sorted by `key`, equal keys kept in
/// the order they had.
pub open spec fn sort_witness(items: Seq<(usize, usize)>, key: spec_fn((usize, usize)) -> (int, int), out: Seq<(usize, usize)>, idx: Seq<usize>) -> bool {
    &&& is_permutation(idx, items.len() as int)
    &&& out.len() == items.len()
    &&& forall|k: int| 0 <= k < out.len() ==> #[trigger] out[k] == items[idx[k] as int]
    &&& forall|k: int, l: int| 0 <= k < l < out.len() ==>
        key_before(key(items[#[trigger] idx[k] as int]), idx[k] as int, key(items[#[trigger] idx[l] as int]), idx[l] as int)
}

/// `out` is the stable sort of `items` by `key`.
pub open spec fn stably_sorted(items: Seq<(usize, usize)>, key: spec_fn((usize, usize)) -> (int, int), out: Seq<(usize, usize)>) -> bool {
    exists|idx: Seq<usize>| sort_witness(items, key, out, idx)
}

/// Inserting position `i` at slot `p` of a sorted index list, after every
/// entry whose key is at most its own and before the others, keeps it sorted.
proof fn lemma_insert_sorted(items: Seq<(usize, usize)>, key: spec_fn((usize, usize)) -> (int, int), idx: Seq<usize>, i: int, p: int)
    requires
        0 <= i < items.len(),
        i < usize::MAX,
        idx.len() == i,
        0 <= p <= i,
        forall|k: int| 0 <= k < i ==> (#[trigger] idx[k]) < i,
        forall|k: int, l: int| 0 <= k < i && 0 <= l < i && k != l ==> #[trigger] idx[k] != #[trigger] idx[l],
        forall|k: int, l: int| 0 <= k < l < i ==>
            key_before(key(items[#[trigger] idx[k] as int]), idx[k] as int, key(items[#[trigger] idx[l] as int]), idx[l] as int),
        forall|q: int| 0 <= q < p ==> key_le(key(items[#[trigger] idx[q] as int]), key(items[i])),
        p < i ==> !key_le(key(items[idx[p] as int]), key(items[i])),
    ensures
        ({
            let nidx = idx.insert(p, i as usize);
            &&& nidx.len() == i + 1
            &&& forall|k: int| 0 <= k < i + 1 ==> (#[trigger] nidx[k]) < i + 1
            &&& forall|k: int, l: int| 0 <= k < i + 1 && 0 <= l < i + 1 && k != l ==> #[trigger] nidx[k] != #[trigger] nidx[l]
            &&& forall|k: int, l: int| 0 <= k < l < i + 1 ==>
                key_before(key(items[#[trigger] nidx[k] as int]), nidx[k] as int, key(items[#[trigger] nidx[l] as int]), nidx[l] as int)
        }),
{
    let nidx = idx.insert(p, i as usize);
    assert forall|k: int| 0 <= k < i + 1 implies (#[trigger] nidx[k]) < i + 1 by {
        if k > p {
            assert(nidx[k] == idx[k - 1]);
        }
    }
    assert forall|k: int, l: int| 0 <= k < i + 1 && 0 <= l < i + 1 && k != l implies #[trigger] nidx[k] != #[trigger] nidx[l] by {
        let ok = if k < p { k } else { k - 1 };
        let ol = if l < p { l } else { l - 1 };
        if k != p && l != p {
            assert(nidx[k] == idx[ok]);
            assert(nidx[l] == idx[ol]);
        } else if k == p {
            assert(nidx[l] == idx[ol]);
        } else {
            assert(nidx[k] == idx[ok]);
        }
    }
    assert forall|k: int, l: int| 0 <= k < l < i + 1 implies
        key_before(key(items[#[trigger] nidx[k] as int]), nidx[k] as int, key(items[#[trigger] nidx[l] as int]), nidx[l] as int) by {
        let ki = key(items[i]);
        if l < p {
            assert(nidx[k] == idx[k]);
            assert(nidx[l] == idx[l]);
        } else if l == p {
            assert(nidx[k] == idx[k]);
            assert(key_le(key(items[idx[k] as int]), ki));
        } else if k < p {
            assert(nidx[k] == idx[k]);
            assert(nidx[l] == idx[l - 1]);
        } else if k == p {
            assert(nidx[l] == idx[l - 1]);
            if l - 1 > p {
                assert(key_before(key(items[idx[p] as int]), idx[p] as int, key(items[idx[l - 1] as int]), idx[l - 1] as int));
            }
        } else {
            assert(nidx[k] == idx[k - 1]);
            assert(nidx[l] == idx[l - 1]);
        }
    }
}

/// Stable sort of `items` by the keys `keys` (`keys[i]` is the key of
/// `items[i]`), by insertion.
fn stable_sort_by_keys(items: &Vec<(usize, usize)>, keys: &Vec<(usize, usize)>, Ghost(key): Ghost<spec_fn((usize, usize)) -> (int, int)>) -> (out: Vec<(usize, usize)>)
    requires
        items@.len() == keys@.len(),
        forall|k: int| 0 <= k < items@.len() ==> (#[trigger] keys@[k]).0 as int == key(items@[k]).0 && keys@[k].1 as int == key(items@[k]).1,
    ensures
        stably_sorted(items@, key, out@),
{
    let n = items.len();
    let mut out: Vec<(usize, usize)> = Vec::new();
    let mut okeys: Vec<(usize, usize)> = Vec::new();
    let ghost mut idx: Seq<usize> = Seq::empty();
    let mut i: usize = 0;
    while i < n
        invariant
            n == items@.len(),
            items@.len() == keys@.len(),
            forall|k: int| 0 <= k < items@.len() ==> (#[trigger] keys@[k]).0 as int == key(items@[k]).0 && keys@[k].1 as int == key(items@[k]).1,
            i <= n,
            out@.len() == i,
            okeys@.len() == i,
            idx.len() == i,
            forall|k: int| 0 <= k < i ==> (#[trigger] idx[k]) < i,
            forall|k: int, l: int| 0 <= k < i && 0 <= l < i && k != l ==> #[trigger] idx[k] != #[trigger] idx[l],
            forall|k: int| 0 <= k < i ==> #[trigger] out@[k] == items@[idx[k] as int],
                forall|k: int| 0 <= k < i ==> #[trigger] okeys@[k] == keys@[idx[k] as int],
            forall|k: int, l: int| 0 <= k < l < i ==>
                key_before(key(items@[#[trigger] idx[k] as int]), idx[k] as int, key(items@[#[trigger] idx[l] as int]), idx[l] as int),
        decreases n - i,
    {
        let kk = keys[i];
        let mut p: usize = 0;
        loop
            invariant
                p <= i,
                i < n,
                okeys@.len() == i,
                out@.len() == i,
                forall|q: int| 0 <= q < p ==> key_le(key(items@[#[trigger] idx[q] as int]), key(items@[i as int])),
                idx.len() == i,
                forall|k: int| 0 <= k < i ==> #[trigger] out@[k] == items@[idx[k] as int],
                forall|k: int| 0 <= k < i ==> #[trigger] okeys@[k] == keys@[idx[k] as int],
                forall|k: int| 0 <= k < items@.len() ==> (#[trigger] keys@[k]).0 as int == key(items@[k]).0 && keys@[k].1 as int == key(items@[k]).1,
                kk == keys@[i as int],
                forall|k: int| 0 <= k < i ==> (#[trigger] idx[k]) < i,
                items@.len() == keys@.len(),
                n == items@.len(),
            ensures
                p <= i,
                forall|q: int| 0 <= q < p ==> key_le(key(items@[#[trigger] idx[q] as int]), key(items@[i as int])),
                p < i ==> !key_le(key(items@[idx[p as int] as int]), key(items@[i as int])),
            decreases i - p,
        {
            if p == out.len() {
                break;
            }
            let pk = okeys[p];
            proof {
                assert(okeys@[p as int] == keys@[idx[p as int] as int]);
                assert(idx[p as int] < i);
                assert(keys@[idx[p as int] as int].0 as int == key(items@[idx[p as int] as int]).0);
            }
            if pk.0 < kk.0 || (pk.0 == kk.0 && pk.1 <= kk.1) {
                p = p + 1;
            } else {
                break;
            }
        }
        proof {
            lemma_insert_sorted(items@, key, idx, i as int, p as int);
        }
        let ghost old_out = out@;
        let ghost old_keys = okeys@;
        let ghost old_idx = idx;
        out.insert(p, items[i]);
        okeys.insert(p, kk);
        proof {
            idx = idx.insert(p as int, i);
            assert forall|k: int| 0 <= k < i + 1 implies #[trigger] out@[k] == items@[idx[k] as int] && #[trigger] okeys@[k] == keys@[idx[k] as int] by {
                if k < p {
                    assert(out@[k] == old_out[k]);
                    assert(idx[k] == old_idx[k]);
                } else if k > p {
                    assert(out@[k] == old_out[k - 1]);
                    assert(okeys@[k] == old_keys[k - 1]);
                    assert(idx[k] == old_idx[k - 1]);
                }
            }
        }
        i = i + 1;
    }
    proof {
        assert(sort_witness(items@, key, out@, idx));
    }
    out
}


/// Number of candidates kept for the mapper pool: `max(3n, n + 4)`.
pub open spec fn pool_size(n: int) -> int {
    if 3 * n >= n + 4 { 3 * n } else { n + 4 }
}

/// The mapper pool for `n` collectors holds the larger of three per
/// collector and four more than the collectors: at least both, and one of
/// them (5 for one collector, 6 for two, 9 for three, 12 for four).
pub proof fn lemma_pool_size(n: int)
    requires
        n >= 0,
    ensures
        pool_size(n) >= 3 * n,
        pool_size(n) >= n + 4,
        pool_size(n) == 3 * n || pool_size(n) == n + 4,
        n >= 2 ==> pool_size(n) == 3 * n,
        n <= 2 ==> pool_size(n) == n + 4,
{
}

/// Satellites of `sats` that may become mappers: neither a collector nor
/// the ground-station satellite (order kept).
pub open spec fn mapper_eligible(sats: Seq<(usize, usize)>, collectors: Seq<(usize, usize)>, gs_sat: (usize, usize)) -> Seq<(usize, usize)> {
    sats.filter(not_collector_or_gs(collectors, gs_sat))
}

/// Neither a collector nor the ground-station satellite.
pub open spec fn not_collector_or_gs(collectors: Seq<(usize, usize)>, gs_sat: (usize, usize)) -> spec_fn((usize, usize)) -> bool {
    |s: (usize, usize)| !collectors.contains(s) && s != gs_sat
}

/// Within `h` hops of the nearest collector.
pub open spec fn near_collectors(collectors: Seq<(usize, usize)>, h: int, num_planes: usize, sats_per_plane: usize, is_star: bool) -> spec_fn((usize, usize)) -> bool {
    |s: (usize, usize)| nearest_hops(s, collectors, num_planes, sats_per_plane, is_star) <= h
}

/// Satellites of `e` within `h` hops of their nearest collector (order kept).
pub open spec fn within_hops(e: Seq<(usize, usize)>, collectors: Seq<(usize, usize)>, h: int, num_planes: usize, sats_per_plane: usize, is_star: bool) -> Seq<(usize, usize)> {
    e.filter(near_collectors(collectors, h, num_planes, sats_per_plane, is_star))
}

/// Mapper candidates are ranked by hops to the nearest collector, then by
/// hops to the ground-station satellite.
pub open spec fn pool_key(collectors: Seq<(usize, usize)>, gs_sat: (usize, usize), num_planes: usize, sats_per_plane: usize, is_star: bool) -> spec_fn((usize, usize)) -> (int, int) {
    |s: (usize, usize)| (nearest_hops(s, collectors, num_planes, sats_per_plane, is_star), hops(s, gs_sat, num_planes, sats_per_plane, is_star))
}

/// `pool` is the mapper pool: with `h` the least hop radius (from 1 up) at
/// which at least `pool_size(n)` eligible satellites lie within `h` hops of a
/// collector, the first `pool_size(n)` of those satellites in stable key
/// order.
pub open spec fn is_mapper_pool(
    sats: Seq<(usize, usize)>,
    collectors: Seq<(usize, usize)>,
    gs_sat: (usize, usize),
    num_planes: usize,
    sats_per_plane: usize,
    is_star: bool,
    pool: Seq<(usize, usize)>,
) -> bool {
    let e = mapper_eligible(sats, collectors, gs_sat);
    let size = pool_size(collectors.len() as int);
    exists|h: int, sorted: Seq<(usize, usize)>| {
        &&& h >= 1
        &&& within_hops(e, collectors, h, num_planes, sats_per_plane, is_star).len() >= size
        &&& (forall|g: int| 1 <= g < h ==> (#[trigger] within_hops(e, collectors, g, num_planes, sats_per_plane, is_star)).len() < size)
        &&& stably_sorted(within_hops(e, collectors, h, num_planes, sats_per_plane, is_star), pool_key(collectors, gs_sat, num_planes, sats_per_plane, is_star), sorted)
        &&& pool == sorted.take(size)
    }
}

proof fn lemma_filter_take_step(s: Seq<(usize, usize)>, i: int, pred: spec_fn((usize, usize)) -> bool)
    requires
        0 <= i < s.len(),
    ensures
        s.take(i + 1).filter(pred) == (if pred(s[i]) { s.take(i).filter(pred).push(s[i]) } else { s.take(i).filter(pred) }),
{
    reveal(Seq::filter);
    assert(s.take(i + 1).drop_last() =~= s.take(i));
}

proof fn lemma_filter_keeps_all(s: Seq<(usize, usize)>, pred: spec_fn((usize, usize)) -> bool)
    requires
        forall|i: int| 0 <= i < s.len() ==> pred(#[trigger] s[i]),
    ensures
        s.filter(pred) == s,
    decreases s.len(),
{
    reveal(Seq::filter);
    if s.len() > 0 {
        lemma_filter_keeps_all(s.drop_last(), pred);
        assert(s.drop_last().push(s.last()) =~= s);
    }
}

proof fn lemma_filter_on_grid(s: Seq<(usize, usize)>, pred: spec_fn((usize, usize)) -> bool, num_planes: usize, sats_per_plane: usize)
    requires
        all_on_grid(s, num_planes, sats_per_plane),
    ensures
        all_on_grid(s.filter(pred), num_planes, sats_per_plane),
    decreases s.len(),
{
    reveal(Seq::filter);
    if s.len() > 0 {
        lemma_filter_on_grid(s.drop_last(), pred, num_planes, sats_per_plane);
    }
}

proof fn lemma_filter_keeps_property(s: Seq<(usize, usize)>, pred: spec_fn((usize, usize)) -> bool, q: spec_fn((usize, usize)) -> bool)
    requires
        forall|i: int| 0 <= i < s.len() ==> q(#[trigger] s[i]),
    ensures
        forall|i: int| 0 <= i < s.filter(pred).len() ==> q(#[trigger] s.filter(pred)[i]),
    decreases s.len(),
{
    reveal(Seq::filter);
    if s.len() > 0 {
        lemma_filter_keeps_property(s.drop_last(), pred, q);
        assert forall|i: int| 0 <= i < s.filter(pred).len() implies q(#[trigger] s.filter(pred)[i]) by {
            let sub = s.drop_last().filter(pred);
            if i < sub.len() {
                assert(s.filter(pred)[i] == sub[i]);
            } else {
                assert(s.filter(pred)[i] == s.last());
                assert(q(s[s.len() - 1]));
            }
        }
    }
}

proof fn lemma_filter_within(s: Seq<(usize, usize)>, pred: spec_fn((usize, usize)) -> bool)
    ensures
        forall|i: int| 0 <= i < s.filter(pred).len() ==> s.contains(#[trigger] s.filter(pred)[i]),
    decreases s.len(),
{
    reveal(Seq::filter);
    if s.len() > 0 {
        let d = s.drop_last();
        lemma_filter_within(d, pred);
        assert forall|i: int| 0 <= i < s.filter(pred).len() implies s.contains(#[trigger] s.filter(pred)[i]) by {
            let sub = d.filter(pred);
            if i < sub.len() {
                assert(s.filter(pred)[i] == sub[i]);
                assert(d.contains(sub[i]));
                let j = choose|j: int| 0 <= j < d.len() && d[j] == sub[i];
                assert(s[j] == sub[i]);
            } else {
                assert(s.filter(pred)[i] == s[s.len() - 1]);
            }
        }
    }
}

proof fn lemma_filter_no_duplicates(s: Seq<(usize, usize)>, pred: spec_fn((usize, usize)) -> bool)
    requires
        s.no_duplicates(),
    ensures
        s.filter(pred).no_duplicates(),
    decreases s.len(),
{
    reveal(Seq::filter);
    if s.len() > 0 {
        let d = s.drop_last();
        assert(d.no_duplicates());
        lemma_filter_no_duplicates(d, pred);
        lemma_filter_within(d, pred);
        let sub = d.filter(pred);
        if pred(s.last()) {
            assert forall|i: int, j: int| 0 <= i < j < sub.push(s.last()).len() implies sub.push(s.last())[i] != sub.push(s.last())[j] by {
                if j == sub.len() {
                    assert(d.contains(sub[i]));
                    let k = choose|k: int| 0 <= k < d.len() && d[k] == sub[i];
                    assert(s[k] == sub[i]);
                }
            }
        }
    }
}

/// The satellites of `sats` that may become mappers, in order.
fn eligible_mappers(sats: &[(usize, usize)], collectors: &[(usize, usize)], gs_sat: (usize, usize)) -> (e: Vec<(usize, usize)>)
    ensures
        e@ == mapper_eligible(sats@, collectors@, gs_sat),
{
    let ghost pred = not_collector_or_gs(collectors@, gs_sat);
    let collector_set = addr_set(collectors);
    let mut e: Vec<(usize, usize)> = Vec::new();
    let mut i: usize = 0;
    while i < sats.len()
        invariant
            i <= sats@.len(),
            pred == not_collector_or_gs(collectors@, gs_sat),
            forall|a: (usize, usize)| #[trigger] collector_set@.contains(addr_key(a)) <==> collectors@.contains(a),
            e@ == sats@.take(i as int).filter(pred),
        decreases sats@.len() - i,
    {
        let s = sats[i];
        proof {
            lemma_filter_take_step(sats@, i as int, pred);
        }
        let in_collectors = in_addr_set(&collector_set, s);
        if !in_collectors && !(s.0 == gs_sat.0 && s.1 == gs_sat.1) {
            e.push(s);
        }
        i = i + 1;
    }
    proof {
        assert(sats@.take(sats@.len() as int) =~= sats@);
    }
    e
}

/// The satellites of `e` within `h` hops of their nearest collector, with
/// their pool keys.
fn within_hop_radius(
    e: &Vec<(usize, usize)>,
    collectors: &[(usize, usize)],
    gs_sat: (usize, usize),
    h: usize,
    num_planes: usize,
    sats_per_plane: usize,
    is_star: bool,
) -> (res: (Vec<(usize, usize)>, Vec<(usize, usize)>))
    requires
        collectors@.len() > 0,
        grid_fits(num_planes, sats_per_plane),
        all_on_grid(e@, num_planes, sats_per_plane),
        all_on_grid(collectors@, num_planes, sats_per_plane),
        on_grid(gs_sat, num_planes, sats_per_plane),
    ensures
        res.0@ == within_hops(e@, collectors@, h as int, num_planes, sats_per_plane, is_star),
        res.1@.len() == res.0@.len(),
        forall|k: int| 0 <= k < res.0@.len() ==>
            (#[trigger] res.1@[k]).0 as int == pool_key(collectors@, gs_sat, num_planes, sats_per_plane, is_star)(res.0@[k]).0
            && res.1@[k].1 as int == pool_key(collectors@, gs_sat, num_planes, sats_per_plane, is_star)(res.0@[k]).1,
{
    let ghost pred = near_collectors(collectors@, h as int, num_planes, sats_per_plane, is_star);
    let ghost key = pool_key(collectors@, gs_sat, num_planes, sats_per_plane, is_star);
    let mut w: Vec<(usize, usize)> = Vec::new();
    let mut wk: Vec<(usize, usize)> = Vec::new();
    let mut i: usize = 0;
    while i < e.len()
        invariant
            i <= e@.len(),
            collectors@.len() > 0,
            grid_fits(num_planes, sats_per_plane),
            all_on_grid(e@, num_planes, sats_per_plane),
            all_on_grid(collectors@, num_planes, sats_per_plane),
            on_grid(gs_sat, num_planes, sats_per_plane),
            pred == near_collectors(collectors@, h as int, num_planes, sats_per_plane, is_star),
            key == pool_key(collectors@, gs_sat, num_planes, sats_per_plane, is_star),
            w@ == e@.take(i as int).filter(pred),
            wk@.len() == w@.len(),
            forall|k: int| 0 <= k < w@.len() ==> (#[trigger] wk@[k]).0 as int == key(w@[k]).0 && wk@[k].1 as int == key(w@[k]).1,
        decreases e@.len() - i,
    {
        let s = e[i];
        proof {
            lemma_filter_take_step(e@, i as int, pred);
            assert(on_grid(e@[i as int], num_planes, sats_per_plane));
        }
        let to_collector = nearest_hop_count(s, collectors, num_planes, sats_per_plane, is_star);
        if to_collector <= h {
            let to_gs = manhattan_hop_count(s.0, s.1, gs_sat.0, gs_sat.1, num_planes, sats_per_plane, is_star);
            w.push(s);
            wk.push((to_collector, to_gs));
        }
        i = i + 1;
    }
    proof {
        assert(e@.take(e@.len() as int) =~= e@);
    }
    (w, wk)
}

/// The mapper pool for the given collectors: see [`is_mapper_pool`].
pub fn mapper_pool(
    sats: &[(usize, usize)],
    collectors: &[(usize, usize)],
    gs_sat: (usize, usize),
    num_planes: usize,
    sats_per_plane: usize,
    is_star: bool,
) -> (pool: Vec<(usize, usize)>)
    requires
        collectors@.len() > 0,
        3 * collectors@.len() + 4 <= usize::MAX,
        grid_fits(num_planes, sats_per_plane),
        all_on_grid(sats@, num_planes, sats_per_plane),
        all_on_grid(collectors@, num_planes, sats_per_plane),
        on_grid(gs_sat, num_planes, sats_per_plane),
        mapper_eligible(sats@, collectors@, gs_sat).len() >= pool_size(collectors@.len() as int),
    ensures
        is_mapper_pool(sats@, collectors@, gs_sat, num_planes, sats_per_plane, is_star, pool@),
        pool@.len() == pool_size(collectors@.len() as int),
        pool@.len() >= 3 * collectors@.len(),
        pool@.len() >= collectors@.len() + 4,
        pool@.len() == 3 * collectors@.len() || pool@.len() == collectors@.len() + 4,
{
    let n = collectors.len();
    let size = if 3 * n >= n + 4 { 3 * n } else { n + 4 };
    let e = eligible_mappers(sats, collectors, gs_sat);
    let ghost ep = not_collector_or_gs(collectors@, gs_sat);
    proof {
        lemma_filter_on_grid(sats@, ep, num_planes, sats_per_plane);
        assert(on_grid(collectors@[0], num_planes, sats_per_plane));
    }
    let ghost key = pool_key(collectors@, gs_sat, num_planes, sats_per_plane, is_star);
    let mut h: usize = 1;
    loop
        invariant
            n == collectors@.len(),
            n > 0,
            size == pool_size(n as int),
            grid_fits(num_planes, sats_per_plane),
            num_planes > 0,
            sats_per_plane > 0,
            all_on_grid(e@, num_planes, sats_per_plane),
            all_on_grid(collectors@, num_planes, sats_per_plane),
            on_grid(gs_sat, num_planes, sats_per_plane),
            e@ == mapper_eligible(sats@, collectors@, gs_sat),
            e@.len() >= size,
            key == pool_key(collectors@, gs_sat, num_planes, sats_per_plane, is_star),
            1 <= h <= num_planes + sats_per_plane,
            forall|g: int| 1 <= g < h ==> (#[trigger] within_hops(e@, collectors@, g, num_planes, sats_per_plane, is_star)).len() < size,
        decreases num_planes + sats_per_plane - h,
    {
        let (w, wk) = within_hop_radius(&e, collectors, gs_sat, h, num_planes, sats_per_plane, is_star);
        if w.len() >= size {
            let sorted = stable_sort_by_keys(&w, &wk, Ghost(key));
            let mut pool: Vec<(usize, usize)> = Vec::new();
            let mut k: usize = 0;
            while k < size
                invariant
                    k <= size,
                    size <= sorted@.len(),
                    pool@ == sorted@.take(k as int),
                decreases size - k,
            {
                pool.push(sorted[k]);
                proof {
                    assert(sorted@.take(k + 1) =~= sorted@.take(k as int).push(sorted@[k as int]));
                }
                k = k + 1;
            }
            proof {
                assert(sorted@.len() == w@.len()) by {
                    let idx = choose|idx: Seq<usize>| sort_witness(w@, key, sorted@, idx);
                }
                assert(is_mapper_pool(sats@, collectors@, gs_sat, num_planes, sats_per_plane, is_star, pool@)) by {
                    let hh = h as int;
                    assert(hh >= 1);
                    assert(within_hops(e@, collectors@, hh, num_planes, sats_per_plane, is_star).len() >= pool_size(collectors@.len() as int));
                }
            }
            return pool;
        }
        proof {
            if h >= num_planes + sats_per_plane {
                let pred = near_collectors(collectors@, h as int, num_planes, sats_per_plane, is_star);
                assert forall|i: int| 0 <= i < e@.len() implies pred(#[trigger] e@[i]) by {
                    assert(on_grid(e@[i], num_planes, sats_per_plane));
                    lemma_nearest_hops(e@[i], collectors@, num_planes, sats_per_plane, is_star);
                }
                lemma_filter_keeps_all(e@, pred);
                assert(false);
            }
        }
        h = h + 1;
    }
}


/// Total hops when collector `k` hands its data to `pool[p[k]]`.
pub open spec fn job_hops(collectors: Seq<(usize, usize)>, pool: Seq<(usize, usize)>, p: Seq<usize>, num_planes: usize, sats_per_plane: usize, is_star: bool) -> int {
    seq_sum(Seq::new(collectors.len(), |k: int| hops(collectors[k], pool[p[k] as int], num_planes, sats_per_plane, is_star)))
}

/// `sigma` gives each collector a distinct member of the pool with the
/// least total hops.
pub open spec fn optimal_mapping(collectors: Seq<(usize, usize)>, pool: Seq<(usize, usize)>, sigma: Seq<usize>, num_planes: usize, sats_per_plane: usize, is_star: bool) -> bool {
    &&& is_permutation(sigma, pool.len() as int)
    &&& forall|p: Seq<usize>| is_permutation(p, pool.len() as int) ==>
        job_hops(collectors, pool, sigma, num_planes, sats_per_plane, is_star) <= #[trigger] job_hops(collectors, pool, p, num_planes, sats_per_plane, is_star)
}

proof fn lemma_seq_sum_zero_tail(s: Seq<int>, n: int)
    requires
        0 <= n <= s.len(),
        forall|i: int| n <= i < s.len() ==> #[trigger] s[i] == 0,
    ensures
        seq_sum(s) == seq_sum(s.take(n)),
    decreases s.len(),
{
    if s.len() > n {
        lemma_seq_sum_zero_tail(s.drop_last(), n);
        assert(s.drop_last().take(n) =~= s.take(n));
    } else {
        assert(s.take(n) =~= s);
    }
}

/// Gives each collector its own mapper from the pool, with the least total
/// hops (`assignments[k] == (k, k)`: collector `k` feeds mapper `k`).
pub fn assign_mappers(
    collectors: &[(usize, usize)],
    pool: &[(usize, usize)],
    num_planes: usize,
    sats_per_plane: usize,
    is_star: bool,
) -> (res: (Vec<(usize, usize)>, Vec<(usize, usize)>))
    requires
        collectors@.len() <= pool@.len(),
        grid_fits(num_planes, sats_per_plane),
        num_planes + sats_per_plane <= cost_limit(),
        all_on_grid(collectors@, num_planes, sats_per_plane),
        all_on_grid(pool@, num_planes, sats_per_plane),
    ensures
        exists|sigma: Seq<usize>| {
            &&& optimal_mapping(collectors@, pool@, sigma, num_planes, sats_per_plane, is_star)
            &&& res.0@ == Seq::new(collectors@.len(), |k: int| pool@[sigma[k] as int])
        },
        res.1@ == Seq::new(collectors@.len(), |k: int| (k as usize, k as usize)),
{
    let n = collectors.len();
    let m = pool.len();
    let mut pad: Vec<Vec<usize>> = Vec::new();
    let mut i: usize = 0;
    while i < m
        invariant
            n <= m,
            m == pool@.len(),
            n == collectors@.len(),
            i <= m,
            grid_fits(num_planes, sats_per_plane),
            num_planes + sats_per_plane <= cost_limit(),
            all_on_grid(collectors@, num_planes, sats_per_plane),
            all_on_grid(pool@, num_planes, sats_per_plane),
            pad@.len() == i,
            forall|r: int| 0 <= r < i ==> (#[trigger] pad@[r])@.len() == m,
            forall|r: int, c: int| 0 <= r < i && 0 <= c < m ==> #[trigger] cost_at(pad@, r, c) == if r < n { hops(collectors@[r], pool@[c], num_planes, sats_per_plane, is_star) } else { 0 },
            forall|r: int, c: int| 0 <= r < i && 0 <= c < m ==> #[trigger] cost_at(pad@, r, c) <= num_planes + sats_per_plane,
        decreases m - i,
    {
        let mut line: Vec<usize> = Vec::new();
        let mut j: usize = 0;
        while j < m
            invariant
                n <= m,
                m == pool@.len(),
                n == collectors@.len(),
                i < m,
                j <= m,
                grid_fits(num_planes, sats_per_plane),
                all_on_grid(collectors@, num_planes, sats_per_plane),
                all_on_grid(pool@, num_planes, sats_per_plane),
                line@.len() == j,
                forall|c: int| 0 <= c < j ==> #[trigger] line@[c] as int == if i < n { hops(collectors@[i as int], pool@[c], num_planes, sats_per_plane, is_star) } else { 0 },
                forall|c: int| 0 <= c < j ==> #[trigger] line@[c] <= num_planes + sats_per_plane,
            decreases m - j,
        {
            if i < n {
                proof {
                    assert(on_grid(collectors@[i as int], num_planes, sats_per_plane));
                    assert(on_grid(pool@[j as int], num_planes, sats_per_plane));
                }
                let hcount = manhattan_hop_count(collectors[i].0, collectors[i].1, pool[j].0, pool[j].1, num_planes, sats_per_plane, is_star);
                line.push(hcount);
            } else {
                line.push(0);
            }
            j = j + 1;
        }
        let ghost before = pad@;
        let ghost lv = line@;
        pad.push(line);
        proof {
            assert(pad@[i as int]@ == lv);
            assert forall|r: int, c: int| 0 <= r < i + 1 && 0 <= c < m implies #[trigger] cost_at(pad@, r, c) == if r < n { hops(collectors@[r], pool@[c], num_planes, sats_per_plane, is_star) } else { 0 } by {
                if r < i {
                    assert(pad@[r] == before[r]);
                    assert(cost_at(before, r, c) == cost_at(pad@, r, c));
                } else {
                    assert(pad@[r]@[c] == lv[c]);
                    assert(lv[c] as int == if i < n { hops(collectors@[i as int], pool@[c], num_planes, sats_per_plane, is_star) } else { 0 });
                }
            }
            assert forall|r: int, c: int| 0 <= r < i + 1 && 0 <= c < m implies #[trigger] cost_at(pad@, r, c) <= num_planes + sats_per_plane by {
                if r < i {
                    assert(pad@[r] == before[r]);
                    assert(cost_at(before, r, c) == cost_at(pad@, r, c));
                } else {
                    assert(pad@[r]@[c] == lv[c]);
                }
            }
        }
        i = i + 1;
    }
    proof {
        assert(square_costs(pad@));
    }
    let full = lapjv_assignment(&pad);
    let ghost sigma = pair_columns(full@);
    let mut mappers: Vec<(usize, usize)> = Vec::new();
    let mut assignments: Vec<(usize, usize)> = Vec::new();
    let mut k: usize = 0;
    while k < full.len()
        invariant
            full@.len() == m,
            n <= m,
            m == pool@.len(),
            n == collectors@.len(),
            k <= m,
            sigma == pair_columns(full@),
            is_permutation(sigma, m as int),
            forall|x: int| 0 <= x < full@.len() ==> (#[trigger] full@[x]).0 == x,
            mappers@.len() == if k < n { k as int } else { n as int },
            assignments@.len() == mappers@.len(),
            forall|x: int| 0 <= x < mappers@.len() ==> #[trigger] mappers@[x] == pool@[sigma[x] as int],
            forall|x: int| 0 <= x < assignments@.len() ==> #[trigger] assignments@[x] == (x as usize, x as usize),
        decreases m - k,
    {
        let (r, c) = full[k];
        if r < n {
            proof {
                assert(sigma[k as int] == c);
                assert(c < m);
            }
            mappers.push(pool[c]);
            let a = assignments.len();
            assignments.push((r, a));
        }
        k = k + 1;
    }
    proof {
        assert(mappers@ =~= Seq::new(n as nat, |x: int| pool@[sigma[x] as int]));
        assert(assignments@ =~= Seq::new(n as nat, |x: int| (x as usize, x as usize)));
        assert forall|p: Seq<usize>| is_permutation(p, m as int) implies
            job_hops(collectors@, pool@, sigma, num_planes, sats_per_plane, is_star) <= #[trigger] job_hops(collectors@, pool@, p, num_planes, sats_per_plane, is_star) by {
            assert(assignment_cost(pad@, sigma) <= assignment_cost(pad@, p));
            assert forall|q: Seq<usize>| is_permutation(q, m as int) implies
                assignment_cost(pad@, q) == job_hops(collectors@, pool@, q, num_planes, sats_per_plane, is_star) by {
                let full_terms = Seq::new(q.len(), |x: int| cost_at(pad@, x, q[x] as int));
                lemma_seq_sum_zero_tail(full_terms, n as int);
                assert(full_terms.take(n as int) =~= Seq::new(collectors@.len(), |x: int| hops(collectors@[x], pool@[q[x] as int], num_planes, sats_per_plane, is_star)));
            }
        }
        assert(optimal_mapping(collectors@, pool@, sigma, num_planes, sats_per_plane, is_star));
    }
    (mappers, assignments)
}


/// Neither a collector, a mapper nor the ground-station satellite.
pub open spec fn free_for_reducer(collectors: Seq<(usize, usize)>, mappers: Seq<(usize, usize)>, gs_sat: (usize, usize)) -> spec_fn((usize, usize)) -> bool {
    |s: (usize, usize)| !collectors.contains(s) && !mappers.contains(s) && s != gs_sat
}

/// Satellites of `sats` that may become the reducer (order kept).
pub open spec fn reducer_candidates(sats: Seq<(usize, usize)>, collectors: Seq<(usize, usize)>, mappers: Seq<(usize, usize)>, gs_sat: (usize, usize)) -> Seq<(usize, usize)> {
    sats.filter(free_for_reducer(collectors, mappers, gs_sat))
}

/// Reducer candidates are ranked by hops to the nearest mapper, then by hops
/// to the ground-station satellite.
pub open spec fn reducer_key(mappers: Seq<(usize, usize)>, gs_sat: (usize, usize), num_planes: usize, sats_per_plane: usize, is_star: bool) -> spec_fn((usize, usize)) -> (int, int) {
    |s: (usize, usize)| (nearest_hops(s, mappers, num_planes, sats_per_plane, is_star), hops(s, gs_sat, num_planes, sats_per_plane, is_star))
}

/// `c[i]` has the least key of `c`, and no earlier entry has that key.
pub open spec fn is_first_min(c: Seq<(usize, usize)>, key: spec_fn((usize, usize)) -> (int, int), i: int) -> bool {
    &&& 0 <= i < c.len()
    &&& forall|j: int| 0 <= j < i ==> !key_le(key(#[trigger] c[j]), key(c[i]))
    &&& forall|j: int| i < j < c.len() ==> key_le(key(c[i]), key(#[trigger] c[j]))
}

/// The first component of a reducer key is the hop count to the nearest
/// mapper: at most the hops to every mapper, and equal to the hops to some
/// mapper. The second is the hop count to the ground-station satellite.
pub proof fn lemma_reducer_key_nearest(mappers: Seq<(usize, usize)>, gs_sat: (usize, usize), num_planes: usize, sats_per_plane: usize, is_star: bool, s: (usize, usize))
    requires
        mappers.len() > 0,
        on_grid(s, num_planes, sats_per_plane),
        all_on_grid(mappers, num_planes, sats_per_plane),
    ensures
        forall|m: int| 0 <= m < mappers.len() ==>
            reducer_key(mappers, gs_sat, num_planes, sats_per_plane, is_star)(s).0 <= #[trigger] hops(s, mappers[m], num_planes, sats_per_plane, is_star),
        exists|m: int| 0 <= m < mappers.len() &&
            reducer_key(mappers, gs_sat, num_planes, sats_per_plane, is_star)(s).0 == #[trigger] hops(s, mappers[m], num_planes, sats_per_plane, is_star),
        reducer_key(mappers, gs_sat, num_planes, sats_per_plane, is_star)(s).1 == hops(s, gs_sat, num_planes, sats_per_plane, is_star),
{
    lemma_nearest_hops(s, mappers, num_planes, sats_per_plane, is_star);
}

/// The candidate chosen as the first least reducer key is no farther from
/// its nearest mapper than any candidate is from any mapper, and among the
/// candidates that near to a mapper it is nearest to the ground-station
/// satellite.
pub proof fn lemma_first_min_reducer(
    c: Seq<(usize, usize)>,
    mappers: Seq<(usize, usize)>,
    gs_sat: (usize, usize),
    num_planes: usize,
    sats_per_plane: usize,
    is_star: bool,
    i: int,
)
    requires
        mappers.len() > 0,
        all_on_grid(c, num_planes, sats_per_plane),
        all_on_grid(mappers, num_planes, sats_per_plane),
        is_first_min(c, reducer_key(mappers, gs_sat, num_planes, sats_per_plane, is_star), i),
    ensures
        reducer_nearest(c, mappers, gs_sat, num_planes, sats_per_plane, is_star, c[i]),
{
    let key = reducer_key(mappers, gs_sat, num_planes, sats_per_plane, is_star);
    let r = c[i];
    lemma_reducer_key_nearest(mappers, gs_sat, num_planes, sats_per_plane, is_star, r);
    let k = choose|m: int| 0 <= m < mappers.len() && key(r).0 == #[trigger] hops(r, mappers[m], num_planes, sats_per_plane, is_star);
    assert forall|j: int, m: int| 0 <= j < c.len() && 0 <= m < mappers.len() implies
        hops(r, mappers[k], num_planes, sats_per_plane, is_star) <= #[trigger] hops(c[j], mappers[m], num_planes, sats_per_plane, is_star)
        && (hops(c[j], mappers[m], num_planes, sats_per_plane, is_star) <= hops(r, mappers[k], num_planes, sats_per_plane, is_star)
            ==> hops(r, gs_sat, num_planes, sats_per_plane, is_star) <= hops(c[j], gs_sat, num_planes, sats_per_plane, is_star)) by {
        assert(on_grid(c[j], num_planes, sats_per_plane));
        lemma_reducer_key_nearest(mappers, gs_sat, num_planes, sats_per_plane, is_star, c[j]);
        assert(key(c[j]).0 <= hops(c[j], mappers[m], num_planes, sats_per_plane, is_star));
        if j < i {
            assert(!key_le(key(c[j]), key(r)));
        } else if j > i {
            assert(key_le(key(r), key(c[j])));
        }
    }
    assert(reducer_near(c, mappers, gs_sat, num_planes, sats_per_plane, is_star, r, k));
}

/// `r` is no farther from mapper `k` than any candidate of `c` is from any
/// mapper, and no farther from the ground-station satellite than any
/// candidate that is as near to some mapper.
pub open spec fn reducer_near(
    c: Seq<(usize, usize)>,
    mappers: Seq<(usize, usize)>,
    gs_sat: (usize, usize),
    num_planes: usize,
    sats_per_plane: usize,
    is_star: bool,
    r: (usize, usize),
    k: int,
) -> bool {
    forall|j: int, m: int| 0 <= j < c.len() && 0 <= m < mappers.len() ==>
        hops(r, mappers[k], num_planes, sats_per_plane, is_star) <= #[trigger] hops(c[j], mappers[m], num_planes, sats_per_plane, is_star)
        && (hops(c[j], mappers[m], num_planes, sats_per_plane, is_star) <= hops(r, mappers[k], num_planes, sats_per_plane, is_star)
            ==> hops(r, gs_sat, num_planes, sats_per_plane, is_star) <= hops(c[j], gs_sat, num_planes, sats_per_plane, is_star))
}

/// Some mapper `k` is such that `r` is as near to it as any candidate of `c`
/// is to any mapper, and `r` is as near to the ground-station satellite as
/// any candidate that is that near to a mapper.
pub open spec fn reducer_nearest(
    c: Seq<(usize, usize)>,
    mappers: Seq<(usize, usize)>,
    gs_sat: (usize, usize),
    num_planes: usize,
    sats_per_plane: usize,
    is_star: bool,
    r: (usize, usize),
) -> bool {
    exists|k: int| 0 <= k < mappers.len() && #[trigger] reducer_near(c, mappers, gs_sat, num_planes, sats_per_plane, is_star, r, k)
}

/// The reducer: the first reducer candidate with the least key, or `None`
/// when there is no candidate.
pub fn pick_reducer(
    sats: &[(usize, usize)],
    collectors: &[(usize, usize)],
    mappers: &[(usize, usize)],
    gs_sat: (usize, usize),
    num_planes: usize,
    sats_per_plane: usize,
    is_star: bool,
) -> (res: Option<(usize, usize)>)
    requires
        mappers@.len() > 0,
        grid_fits(num_planes, sats_per_plane),
        all_on_grid(sats@, num_planes, sats_per_plane),
        all_on_grid(mappers@, num_planes, sats_per_plane),
        on_grid(gs_sat, num_planes, sats_per_plane),
    ensures
        ({
            let c = reducer_candidates(sats@, collectors@, mappers@, gs_sat);
            let key = reducer_key(mappers@, gs_sat, num_planes, sats_per_plane, is_star);
            match res {
                None => c.len() == 0,
                Some(r) => {
                    &&& exists|i: int| is_first_min(c, key, i) && #[trigger] c[i] == r
                    &&& reducer_nearest(c, mappers@, gs_sat, num_planes, sats_per_plane, is_star, r)
                },
            }
        }),
{
    let ghost pred = free_for_reducer(collectors@, mappers@, gs_sat);
    let ghost key = reducer_key(mappers@, gs_sat, num_planes, sats_per_plane, is_star);
    let collector_set = addr_set(collectors);
    let mapper_set = addr_set(mappers);
    let mut best: Option<((usize, usize), (usize, usize))> = None;
    let ghost mut bi: int = 0;
    let mut i: usize = 0;
    while i < sats.len()
        invariant
            i <= sats@.len(),
            mappers@.len() > 0,
            grid_fits(num_planes, sats_per_plane),
            all_on_grid(sats@, num_planes, sats_per_plane),
            all_on_grid(mappers@, num_planes, sats_per_plane),
            on_grid(gs_sat, num_planes, sats_per_plane),
            pred == free_for_reducer(collectors@, mappers@, gs_sat),
            forall|a: (usize, usize)| #[trigger] collector_set@.contains(addr_key(a)) <==> collectors@.contains(a),
            forall|a: (usize, usize)| #[trigger] mapper_set@.contains(addr_key(a)) <==> mappers@.contains(a),
            key == reducer_key(mappers@, gs_sat, num_planes, sats_per_plane, is_star),
            best is None <==> sats@.take(i as int).filter(pred).len() == 0,
            best matches Some(b) ==> {
                &&& is_first_min(sats@.take(i as int).filter(pred), key, bi)
                &&& sats@.take(i as int).filter(pred)[bi] == b.0
                &&& b.1.0 as int == key(b.0).0
                &&& b.1.1 as int == key(b.0).1
            },
        decreases sats@.len() - i,
    {
        let s = sats[i];
        let ghost c0 = sats@.take(i as int).filter(pred);
        proof {
            lemma_filter_take_step(sats@, i as int, pred);
            assert(on_grid(sats@[i as int], num_planes, sats_per_plane));
        }
        let in_c = in_addr_set(&collector_set, s);
        let in_m = in_addr_set(&mapper_set, s);
        if !in_c && !in_m && !(s.0 == gs_sat.0 && s.1 == gs_sat.1) {
            let to_mapper = nearest_hop_count(s, mappers, num_planes, sats_per_plane, is_star);
            let to_gs = manhattan_hop_count(s.0, s.1, gs_sat.0, gs_sat.1, num_planes, sats_per_plane, is_star);
            let ghost c1 = c0.push(s);
            match best {
                None => {
                    best = Some((s, (to_mapper, to_gs)));
                    proof {
                        bi = c0.len() as int;
                        assert(c0.len() == 0);
                    }
                },
                Some(b) => {
                    if to_mapper < b.1.0 || (to_mapper == b.1.0 && to_gs < b.1.1) {
                        best = Some((s, (to_mapper, to_gs)));
                        proof {
                            let oldbi = bi;
                            bi = c0.len() as int;
                            assert forall|j: int| 0 <= j < bi implies !key_le(key(#[trigger] c1[j]), key(c1[bi])) by {
                                assert(c1[j] == c0[j]);
                                if j != oldbi {
                                    if j < oldbi {
                                        assert(!key_le(key(c0[j]), key(c0[oldbi])));
                                    } else {
                                        assert(key_le(key(c0[oldbi]), key(c0[j])));
                                    }
                                }
                            }
                        }
                    } else {
                        proof {
                            assert forall|j: int| 0 <= j < bi implies !key_le(key(#[trigger] c1[j]), key(c1[bi])) by {
                                assert(c1[j] == c0[j]);
                            }
                            assert forall|j: int| bi < j < c1.len() implies key_le(key(c1[bi]), key(#[trigger] c1[j])) by {
                                if j < c0.len() {
                                    assert(c1[j] == c0[j]);
                                }
                            }
                        }
                    }
                },
            }
        }
        i = i + 1;
    }
    proof {
        assert(sats@.take(sats@.len() as int) =~= sats@);
    }
    match best {
        None => {
            proof {
                let c = reducer_candidates(sats@, collectors@, mappers@, gs_sat);
                assert(c == sats@.take(sats@.len() as int).filter(pred));
            }
            None
        },
        Some(b) => {
            proof {
                let c = reducer_candidates(sats@, collectors@, mappers@, gs_sat);
                assert(c == sats@.take(sats@.len() as int).filter(pred));
                assert(is_first_min(c, key, bi) && c[bi] == b.0);
                lemma_filter_on_grid(sats@, pred, num_planes, sats_per_plane);
                lemma_first_min_reducer(c, mappers@, gs_sat, num_planes, sats_per_plane, is_star, bi);
                assert(reducer_nearest(c, mappers@, gs_sat, num_planes, sats_per_plane, is_star, b.0));
            }
            Some(b.0)
        },
    }
}

/// Whether the hop-radius search for the mapper pool ends: it needs at least
/// `pool_size(n)` eligible satellites.
pub fn mapper_search_ends(sats: &[(usize, usize)], collectors: &[(usize, usize)], gs_sat: (usize, usize)) -> (res: bool)
    requires
        3 * collectors@.len() + 4 <= usize::MAX,
    ensures
        res == (mapper_eligible(sats@, collectors@, gs_sat).len() >= pool_size(collectors@.len() as int)),
        res == (mapper_eligible(sats@, collectors@, gs_sat).len() >= 3 * collectors@.len()
            && mapper_eligible(sats@, collectors@, gs_sat).len() >= collectors@.len() + 4),
{
    let n = collectors.len();
    let size = if 3 * n >= n + 4 { 3 * n } else { n + 4 };
    let e = eligible_mappers(sats, collectors, gs_sat);
    e.len() >= size
}

/// Plans one pass of an in-orbit map-reduce job over the satellites `sats`
/// (those flying in the chosen direction): the collectors and the
/// ground-station satellite are given; the mappers are an optimal
/// assignment out of the mapper pool and the reducer the best remaining
/// satellite. `None` when there is no collector or no satellite is left for
/// the reducer.
pub fn plan_spacecomp_pass(
    sats: &[(usize, usize)],
    collectors: &[(usize, usize)],
    gs_sat: (usize, usize),
    num_planes: usize,
    sats_per_plane: usize,
    is_star: bool,
) -> (res: Option<SpaceCompResult>)
    requires
        3 * collectors@.len() + 4 <= usize::MAX,
        grid_fits(num_planes, sats_per_plane),
        num_planes + sats_per_plane <= cost_limit(),
        all_on_grid(sats@, num_planes, sats_per_plane),
        all_on_grid(collectors@, num_planes, sats_per_plane),
        on_grid(gs_sat, num_planes, sats_per_plane),
        collectors@.len() > 0 ==> mapper_eligible(sats@, collectors@, gs_sat).len() >= pool_size(collectors@.len() as int),
    ensures
        collectors@.len() == 0 ==> res is None,
        collectors@.len() > 0 ==> exists|pool: Seq<(usize, usize)>, sigma: Seq<usize>| {
            let n = collectors@.len();
            let mappers = Seq::new(n, |k: int| pool[sigma[k] as int]);
            &&& is_mapper_pool(sats@, collectors@, gs_sat, num_planes, sats_per_plane, is_star, pool)
            &&& #[trigger] optimal_mapping(collectors@, pool, sigma, num_planes, sats_per_plane, is_star)
            &&& match res {
                None => reducer_candidates(sats@, collectors@, mappers, gs_sat).len() == 0,
                Some(r) => {
                    &&& r.collectors@ == collectors@
                    &&& r.mappers@ == mappers
                    &&& forall|k: int| 0 <= k < n ==> !collectors@.contains(#[trigger] r.mappers@[k]) && r.mappers@[k] != gs_sat
                    &&& sats@.no_duplicates() ==> r.mappers@.no_duplicates()
                    &&& !collectors@.contains(r.reducer) && !r.mappers@.contains(r.reducer) && r.reducer != gs_sat
                    &&& r.assignments@ == Seq::new(n, |k: int| (k as usize, k as usize))
                    &&& r.gs_sat == gs_sat
                    &&& exists|i: int| is_first_min(reducer_candidates(sats@, collectors@, mappers, gs_sat), reducer_key(mappers, gs_sat, num_planes, sats_per_plane, is_star), i)
                        && #[trigger] reducer_candidates(sats@, collectors@, mappers, gs_sat)[i] == r.reducer
                },
            }
        },
{
    let n = collectors.len();
    if n == 0 {
        return None;
    }
    let pool = mapper_pool(sats, collectors, gs_sat, num_planes, sats_per_plane, is_star);
    proof {
        let pred = not_collector_or_gs(collectors@, gs_sat);
        lemma_filter_on_grid(sats@, pred, num_planes, sats_per_plane);
        let h = choose|h: int, sorted: Seq<(usize, usize)>| {
            &&& h >= 1
            &&& within_hops(mapper_eligible(sats@, collectors@, gs_sat), collectors@, h, num_planes, sats_per_plane, is_star).len() >= pool_size(n as int)
            &&& (forall|g: int| 1 <= g < h ==> (#[trigger] within_hops(mapper_eligible(sats@, collectors@, gs_sat), collectors@, g, num_planes, sats_per_plane, is_star)).len() < pool_size(n as int))
            &&& stably_sorted(within_hops(mapper_eligible(sats@, collectors@, gs_sat), collectors@, h, num_planes, sats_per_plane, is_star), pool_key(collectors@, gs_sat, num_planes, sats_per_plane, is_star), sorted)
            &&& pool@ == sorted.take(pool_size(n as int))
        };
        let (hh, sorted) = h;
        let w = within_hops(mapper_eligible(sats@, collectors@, gs_sat), collectors@, hh, num_planes, sats_per_plane, is_star);
        lemma_filter_on_grid(mapper_eligible(sats@, collectors@, gs_sat), near_collectors(collectors@, hh, num_planes, sats_per_plane, is_star), num_planes, sats_per_plane);
        let idx = choose|idx: Seq<usize>| sort_witness(w, pool_key(collectors@, gs_sat, num_planes, sats_per_plane, is_star), sorted, idx);
        assert forall|k: int| 0 <= k < pool@.len() implies on_grid(#[trigger] pool@[k], num_planes, sats_per_plane) by {
            assert(pool@[k] == sorted[k]);
            assert(sorted[k] == w[idx[k] as int]);
            assert(on_grid(w[idx[k] as int], num_planes, sats_per_plane));
        }
        let e = mapper_eligible(sats@, collectors@, gs_sat);
        assert forall|j: int| 0 <= j < e.len() implies pred(#[trigger] e[j]) by {
            sats@.lemma_filter_pred(pred, j);
        }
        lemma_filter_keeps_property(e, near_collectors(collectors@, hh, num_planes, sats_per_plane, is_star), pred);
        assert forall|k: int| 0 <= k < pool@.len() implies pred(#[trigger] pool@[k]) by {
            assert(pool@[k] == sorted[k]);
            assert(sorted[k] == w[idx[k] as int]);
            assert(pred(w[idx[k] as int]));
        }
        if sats@.no_duplicates() {
            lemma_filter_no_duplicates(sats@, pred);
            lemma_filter_no_duplicates(e, near_collectors(collectors@, hh, num_planes, sats_per_plane, is_star));
            assert forall|a: int, b: int| 0 <= a < b < pool@.len() implies pool@[a] != pool@[b] by {
                assert(pool@[a] == w[idx[a] as int]);
                assert(pool@[b] == w[idx[b] as int]);
                assert(idx[a] != idx[b]);
            }
        }
    }
    let (mappers, assignments) = assign_mappers(collectors, &pool, num_planes, sats_per_plane, is_star);
    let ghost sigma = choose|sigma: Seq<usize>| {
        &&& optimal_mapping(collectors@, pool@, sigma, num_planes, sats_per_plane, is_star)
        &&& mappers@ == Seq::new(collectors@.len(), |k: int| pool@[sigma[k] as int])
    };
    proof {
        assert forall|k: int| 0 <= k < mappers@.len() implies on_grid(#[trigger] mappers@[k], num_planes, sats_per_plane) by {
            assert(mappers@[k] == pool@[sigma[k] as int]);
            assert(on_grid(pool@[sigma[k] as int], num_planes, sats_per_plane));
        }
    }
    let reducer = pick_reducer(sats, collectors, &mappers, gs_sat, num_planes, sats_per_plane, is_star);
    let mut cv: Vec<(usize, usize)> = Vec::new();
    let mut k: usize = 0;
    while k < n
        invariant
            n == collectors@.len(),
            k <= n,
            cv@ == collectors@.take(k as int),
        decreases n - k,
    {
        cv.push(collectors[k]);
        proof {
            assert(collectors@.take(k + 1) =~= collectors@.take(k as int).push(collectors@[k as int]));
        }
        k = k + 1;
    }
    proof {
        assert(collectors@.take(n as int) =~= collectors@);
        assert(optimal_mapping(collectors@, pool@, sigma, num_planes, sats_per_plane, is_star));
    }
    proof {
        let pred = not_collector_or_gs(collectors@, gs_sat);
        if sats@.no_duplicates() {
            assert forall|a: int, b: int| 0 <= a < b < mappers@.len() implies mappers@[a] != mappers@[b] by {
                assert(mappers@[a] == pool@[sigma[a] as int]);
                assert(mappers@[b] == pool@[sigma[b] as int]);
                assert(sigma[a] != sigma[b]);
            }
        }
        assert forall|k: int| 0 <= k < n implies !collectors@.contains(#[trigger] mappers@[k]) && mappers@[k] != gs_sat by {
            assert(mappers@[k] == pool@[sigma[k] as int]);
            assert(pred(pool@[sigma[k] as int]));
        }
    }
    match reducer {
        None => None,
        Some(r) => {
            proof {
                let c = reducer_candidates(sats@, collectors@, mappers@, gs_sat);
                let i = choose|i: int| is_first_min(c, reducer_key(mappers@, gs_sat, num_planes, sats_per_plane, is_star), i) && #[trigger] c[i] == r;
                sats@.lemma_filter_pred(free_for_reducer(collectors@, mappers@, gs_sat), i);
            }
            Some(SpaceCompResult { collectors: cv, mappers, assignments, reducer: r, gs_sat })
        },
    }
}


/// Position `a` comes before position `b` when its key is smaller, or equal
/// with `a` earlier.
pub open spec fn key_order(keys: Seq<u64>, a: int, b: int) -> bool {
    keys[a] < keys[b] || (keys[a] == keys[b] && a < b)
}

/// `idx` lists the positions `0..len` in stable order of `keys`.
pub open spec fn key_order_witness(len: int, keys: Seq<u64>, idx: Seq<usize>) -> bool {
    &&& is_permutation(idx, len)
    &&& forall|k: int, l: int| 0 <= k < l < len ==> key_order(keys, #[trigger] idx[k] as int, #[trigger] idx[l] as int)
}

/// `res` holds the first `n` candidates (all of them when there are fewer)
/// in stable order of their keys.
pub open spec fn is_nearest_first(cands: Seq<(usize, usize)>, keys: Seq<u64>, n: int, res: Seq<(usize, usize)>) -> bool {
    exists|idx: Seq<usize>| {
        &&& key_order_witness(cands.len() as int, keys, idx)
        &&& res.len() == (if n < cands.len() { n } else { cands.len() as int })
        &&& forall|k: int| 0 <= k < res.len() ==> #[trigger] res[k] == cands[idx[k] as int]
    }
}

proof fn lemma_insert_by_key(keys: Seq<u64>, idx: Seq<usize>, i: int, p: int)
    requires
        0 <= i < keys.len(),
        i < usize::MAX,
        idx.len() == i,
        0 <= p <= i,
        forall|k: int| 0 <= k < i ==> (#[trigger] idx[k]) < i,
        forall|k: int, l: int| 0 <= k < i && 0 <= l < i && k != l ==> #[trigger] idx[k] != #[trigger] idx[l],
        forall|k: int, l: int| 0 <= k < l < i ==> key_order(keys, #[trigger] idx[k] as int, #[trigger] idx[l] as int),
        forall|q: int| 0 <= q < p ==> keys[#[trigger] idx[q] as int] <= keys[i],
        p < i ==> keys[idx[p] as int] > keys[i],
    ensures
        ({
            let nidx = idx.insert(p, i as usize);
            &&& nidx.len() == i + 1
            &&& forall|k: int| 0 <= k < i + 1 ==> (#[trigger] nidx[k]) < i + 1
            &&& forall|k: int, l: int| 0 <= k < i + 1 && 0 <= l < i + 1 && k != l ==> #[trigger] nidx[k] != #[trigger] nidx[l]
            &&& forall|k: int, l: int| 0 <= k < l < i + 1 ==> key_order(keys, #[trigger] nidx[k] as int, #[trigger] nidx[l] as int)
        }),
{
    let nidx = idx.insert(p, i as usize);
    assert forall|k: int| 0 <= k < i + 1 implies (#[trigger] nidx[k]) < i + 1 by {
        if k > p {
            assert(nidx[k] == idx[k - 1]);
        }
    }
    assert forall|k: int, l: int| 0 <= k < i + 1 && 0 <= l < i + 1 && k != l implies #[trigger] nidx[k] != #[trigger] nidx[l] by {
        let ok = if k < p { k } else { k - 1 };
        let ol = if l < p { l } else { l - 1 };
        if k != p {
            assert(nidx[k] == idx[ok]);
        }
        if l != p {
            assert(nidx[l] == idx[ol]);
        }
    }
    assert forall|k: int, l: int| 0 <= k < l < i + 1 implies key_order(keys, #[trigger] nidx[k] as int, #[trigger] nidx[l] as int) by {
        if l < p {
            assert(nidx[k] == idx[k]);
            assert(nidx[l] == idx[l]);
        } else if l == p {
            assert(nidx[k] == idx[k]);
        } else if k < p {
            assert(nidx[k] == idx[k]);
            assert(nidx[l] == idx[l - 1]);
        } else if k == p {
            assert(nidx[l] == idx[l - 1]);
            if l - 1 > p {
                assert(key_order(keys, idx[p] as int, idx[l - 1] as int));
            }
        } else {
            assert(nidx[k] == idx[k - 1]);
            assert(nidx[l] == idx[l - 1]);
        }
    }
}

/// The first `n` candidates in stable order of their keys: the collectors
/// nearest to the area of interest, when the keys order the candidates by
/// distance.
pub fn nearest_first(cands: &[(usize, usize)], keys: &[u64], n: usize) -> (res: Vec<(usize, usize)>)
    requires
        cands@.len() == keys@.len(),
    ensures
        is_nearest_first(cands@, keys@, n as int, res@),
{
    let len = cands.len();
    let mut order: Vec<usize> = Vec::new();
    let mut i: usize = 0;
    while i < len
        invariant
            len == cands@.len(),
            len == keys@.len(),
            i <= len,
            order@.len() == i,
            forall|k: int| 0 <= k < i ==> (#[trigger] order@[k]) < i,
            forall|k: int, l: int| 0 <= k < i && 0 <= l < i && k != l ==> #[trigger] order@[k] != #[trigger] order@[l],
            forall|k: int, l: int| 0 <= k < l < i ==> key_order(keys@, #[trigger] order@[k] as int, #[trigger] order@[l] as int),
        decreases len - i,
    {
        let ki = keys[i];
        let mut p: usize = 0;
        loop
            invariant
                p <= i,
                i < len,
                len == keys@.len(),
                order@.len() == i,
                forall|k: int| 0 <= k < i ==> (#[trigger] order@[k]) < i,
                ki == keys@[i as int],
                forall|q: int| 0 <= q < p ==> keys@[#[trigger] order@[q] as int] <= ki,
            ensures
                p <= i,
                forall|q: int| 0 <= q < p ==> keys@[#[trigger] order@[q] as int] <= ki,
                p < i ==> keys@[order@[p as int] as int] > ki,
            decreases i - p,
        {
            if p == order.len() {
                break;
            }
            let o = order[p];
            if keys[o] <= ki {
                p = p + 1;
            } else {
                break;
            }
        }
        proof {
            lemma_insert_by_key(keys@, order@, i as int, p as int);
        }
        order.insert(p, i);
        i = i + 1;
    }
    let take = if n < len { n } else { len };
    let mut res: Vec<(usize, usize)> = Vec::new();
    let mut k: usize = 0;
    while k < take
        invariant
            take <= len,
            len == cands@.len(),
            order@.len() == len,
            forall|x: int| 0 <= x < len ==> (#[trigger] order@[x]) < len,
            k <= take,
            res@.len() == k,
            forall|x: int| 0 <= x < k ==> #[trigger] res@[x] == cands@[order@[x] as int],
        decreases take - k,
    {
        res.push(cands[order[k]]);
        k = k + 1;
    }
    proof {
        assert(key_order_witness(len as int, keys@, order@));
    }
    res
}

/// `i` is an in-range position with the least key among in-range positions,
/// and no earlier in-range position has that key.
pub open spec fn is_first_nearest(in_range: Seq<bool>, keys: Seq<u64>, i: int) -> bool {
    &&& 0 <= i < in_range.len()
    &&& in_range[i]
    &&& forall|j: int| 0 <= j < i && #[trigger] in_range[j] ==> keys[j] > keys[i]
    &&& forall|j: int| i < j < in_range.len() && #[trigger] in_range[j] ==> keys[j] >= keys[i]
}

/// The first in-range candidate with the least key (the satellite over the
/// ground station that is nearest to the area of interest), or `None` when
/// no candidate is in range.
pub fn first_nearest_in_range(cands: &[(usize, usize)], in_range: &[bool], keys: &[u64]) -> (res: Option<(usize, usize)>)
    requires
        cands@.len() == in_range@.len(),
        cands@.len() == keys@.len(),
    ensures
        match res {
            None => forall|j: int| 0 <= j < in_range@.len() ==> !#[trigger] in_range@[j],
            Some(c) => exists|i: int| is_first_nearest(in_range@, keys@, i) && #[trigger] cands@[i] == c,
        },
{
    let mut best: Option<usize> = None;
    let mut i: usize = 0;
    while i < cands.len()
        invariant
            cands@.len() == in_range@.len(),
            cands@.len() == keys@.len(),
            i <= cands@.len(),
            best is None ==> forall|j: int| 0 <= j < i ==> !#[trigger] in_range@[j],
            best matches Some(b) ==> {
                &&& b < i
                &&& in_range@[b as int]
                &&& forall|j: int| 0 <= j < b && #[trigger] in_range@[j] ==> keys@[j] > keys@[b as int]
                &&& forall|j: int| b < j < i && #[trigger] in_range@[j] ==> keys@[j] >= keys@[b as int]
            },
        decreases cands@.len() - i,
    {
        if in_range[i] {
            match best {
                None => {
                    best = Some(i);
                },
                Some(b) => {
                    if keys[i] < keys[b] {
                        best = Some(i);
                    }
                },
            }
        }
        i = i + 1;
    }
    match best {
        None => None,
        Some(b) => {
            proof {
                assert(is_first_nearest(in_range@, keys@, b as int));
            }
            Some(cands[b])
        },
    }
}

} // verus!
