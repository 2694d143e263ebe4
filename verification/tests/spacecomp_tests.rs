use leo_viz::spacecomp::{
    assign_mappers, first_nearest_in_range, manhattan_hop_count, mapper_pool, mapper_search_ends, nearest_first,
    pick_reducer, plan_spacecomp_pass,
};

fn all_sats(np: usize, spp: usize) -> Vec<(usize, usize)> {
    let mut v = Vec::new();
    for p in 0..np {
        for s in 0..spp {
            v.push((p, s));
        }
    }
    v
}

#[test]
fn hop_count_on_ring_grid() {
    assert_eq!(manhattan_hop_count(0, 0, 2, 3, 4, 8, false), 5);
    assert_eq!(manhattan_hop_count(0, 0, 3, 7, 4, 8, false), 2);
    assert_eq!(manhattan_hop_count(1, 1, 1, 1, 4, 8, false), 0);
}

#[test]
fn hop_count_star_planes_do_not_wrap() {
    assert_eq!(manhattan_hop_count(0, 0, 3, 0, 4, 8, true), 3);
    assert_eq!(manhattan_hop_count(0, 0, 3, 0, 4, 8, false), 1);
}

#[test]
fn hop_count_is_symmetric() {
    for a in all_sats(3, 5) {
        for b in all_sats(3, 5) {
            for star in [false, true] {
                assert_eq!(
                    manhattan_hop_count(a.0, a.1, b.0, b.1, 3, 5, star),
                    manhattan_hop_count(b.0, b.1, a.0, a.1, 3, 5, star)
                );
            }
        }
    }
}

#[test]
fn pool_is_nearest_eligible_in_key_order() {
    let sats = all_sats(4, 4);
    let pool = mapper_pool(&sats, &[(0, 0)], (2, 2), 4, 4, false);
    assert_eq!(pool, vec![(0, 1), (0, 3), (1, 0), (3, 0), (0, 2)]);
}

#[test]
fn pool_excludes_collectors_and_ground_station() {
    let sats = all_sats(4, 4);
    let pool = mapper_pool(&sats, &[(0, 0), (0, 1)], (0, 2), 4, 4, false);
    assert_eq!(pool.len(), 6);
    for m in &pool {
        assert!(*m != (0, 0) && *m != (0, 1) && *m != (0, 2));
    }
}

#[test]
fn mapper_search_needs_enough_satellites() {
    let sats = all_sats(2, 4);
    // one collector needs a pool of 5: 8 - 1 - 1 = 6 eligible
    assert!(mapper_search_ends(&sats, &[(0, 0)], (1, 1)));
    // only 2 eligible
    assert!(!mapper_search_ends(&sats[0..4], &[(0, 0)], (1, 1)));
    // two collectors need a pool of 6: 8 - 2 - 1 = 5 eligible
    assert!(!mapper_search_ends(&sats, &[(0, 0), (0, 1)], (1, 1)));
    // the ground station may itself be a collector
    assert!(mapper_search_ends(&sats, &[(0, 0)], (0, 0)));
}

#[test]
fn mappers_minimise_total_hops() {
    let pool = vec![(0, 1), (0, 3), (1, 0), (3, 0), (0, 2)];
    let (mappers, assignments) = assign_mappers(&[(0, 0)], &pool, 4, 4, false);
    assert_eq!(mappers, vec![(0, 1)]);
    assert_eq!(assignments, vec![(0, 0)]);
}

#[test]
fn mappers_are_distinct_and_optimal() {
    let collectors = vec![(0, 0), (2, 0)];
    let pool = vec![(2, 1), (0, 1), (1, 0), (3, 3), (1, 2), (2, 3)];
    let (mappers, assignments) = assign_mappers(&collectors, &pool, 4, 4, false);
    assert_eq!(assignments, vec![(0, 0), (1, 1)]);
    assert_eq!(mappers.len(), 2);
    assert_ne!(mappers[0], mappers[1]);
    let cost: usize = collectors
        .iter()
        .zip(mappers.iter())
        .map(|(c, m)| manhattan_hop_count(c.0, c.1, m.0, m.1, 4, 4, false))
        .sum();
    assert_eq!(cost, 2);
}

#[test]
fn reducer_is_first_nearest_free_satellite() {
    let sats = all_sats(4, 4);
    let r = pick_reducer(&sats, &[(0, 0)], &[(0, 1)], (2, 2), 4, 4, false);
    assert_eq!(r, Some((0, 2)));
}

#[test]
fn reducer_prefers_ground_station_on_ties() {
    let sats = vec![(3, 1), (1, 1), (0, 2)];
    let r = pick_reducer(&sats, &[(0, 0)], &[(0, 1)], (1, 2), 4, 4, false);
    assert_eq!(r, Some((1, 1)));
}

#[test]
fn reducer_none_when_nothing_is_free() {
    let sats = vec![(0, 0), (0, 1), (2, 2)];
    assert_eq!(pick_reducer(&sats, &[(0, 0)], &[(0, 1)], (2, 2), 4, 4, false), None);
}

#[test]
fn plan_full_pass() {
    let sats = all_sats(4, 4);
    let plan = plan_spacecomp_pass(&sats, &[(0, 0)], (2, 2), 4, 4, false).expect("a plan");
    assert_eq!(plan.collectors, vec![(0, 0)]);
    assert_eq!(plan.mappers, vec![(0, 1)]);
    assert_eq!(plan.assignments, vec![(0, 0)]);
    assert_eq!(plan.reducer, (0, 2));
    assert_eq!(plan.gs_sat, (2, 2));
}

#[test]
fn plan_roles_are_disjoint() {
    let sats = all_sats(5, 6);
    let collectors = vec![(0, 0), (0, 1), (1, 0)];
    let plan = plan_spacecomp_pass(&sats, &collectors, (3, 3), 5, 6, true).expect("a plan");
    assert_eq!(plan.mappers.len(), 3);
    assert_ne!(plan.mappers[0], plan.mappers[1]);
    assert_ne!(plan.mappers[0], plan.mappers[2]);
    assert_ne!(plan.mappers[1], plan.mappers[2]);
    for m in &plan.mappers {
        assert!(!collectors.contains(m));
        assert!(*m != (3, 3));
    }
    assert!(!collectors.contains(&plan.reducer));
    assert!(!plan.mappers.contains(&plan.reducer));
    assert!(plan.reducer != (3, 3));
}

#[test]
fn plan_without_collectors_is_none() {
    let sats = all_sats(4, 4);
    assert!(plan_spacecomp_pass(&sats, &[], (2, 2), 4, 4, false).is_none());
}

#[test]
fn nearest_first_is_stable() {
    let cands = vec![(0, 0), (0, 1), (0, 2), (0, 3), (0, 4)];
    let keys = vec![30, 10, 20, 10, 5];
    assert_eq!(nearest_first(&cands, &keys, 3), vec![(0, 4), (0, 1), (0, 3)]);
    assert_eq!(nearest_first(&cands, &keys, 10), vec![(0, 4), (0, 1), (0, 3), (0, 2), (0, 0)]);
    assert_eq!(nearest_first(&cands, &keys, 0), Vec::<(usize, usize)>::new());
}

#[test]
fn nearest_first_of_nothing() {
    assert_eq!(nearest_first(&[], &[], 4), Vec::<(usize, usize)>::new());
}

#[test]
fn first_nearest_in_range_takes_first_minimum() {
    let cands = vec![(1, 0), (1, 1), (1, 2), (1, 3)];
    let keys = vec![7, 3, 9, 3];
    assert_eq!(first_nearest_in_range(&cands, &[true, true, true, true], &keys), Some((1, 1)));
    assert_eq!(first_nearest_in_range(&cands, &[true, false, true, true], &keys), Some((1, 3)));
    assert_eq!(first_nearest_in_range(&cands, &[true, false, true, false], &keys), Some((1, 0)));
    assert_eq!(first_nearest_in_range(&cands, &[false, false, false, false], &keys), None);
}

#[test]
fn float_distance_keys_keep_order() {
    // non-negative floats order as their bit patterns do
    let ds = [0.0f64, 1e-300, 0.001, 0.25, 0.5, 1.0, 3.14];
    let keys: Vec<u64> = ds.iter().map(|d| d.to_bits()).collect();
    let cands: Vec<(usize, usize)> = (0..ds.len()).rev().map(|i| (0, i)).collect();
    let rev_keys: Vec<u64> = keys.iter().rev().copied().collect();
    let order = nearest_first(&cands, &rev_keys, ds.len());
    let expect: Vec<(usize, usize)> = (0..ds.len()).map(|i| (0, i)).collect();
    assert_eq!(order, expect);
}

#[test]
fn star_hop_count_reads_plane_difference_only() {
    // on an open line of planes the plane count is not read
    assert_eq!(manhattan_hop_count(0, 0, 10, 0, 4, 8, true), 10);
    assert_eq!(manhattan_hop_count(12, 3, 2, 5, 4, 8, true), 12);
}
