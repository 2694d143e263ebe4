use leo_viz::torus::{compute_path_direction, manhattan_candidate_path, wrap_index};

#[test]
fn wrap_index_steps_around_the_ring() {
    assert_eq!(wrap_index(0, -1, 5), 4);
    assert_eq!(wrap_index(4, 1, 5), 0);
    assert_eq!(wrap_index(2, 1, 5), 3);
}

#[test]
fn wrap_index_step_back_returns() {
    for m in 1..7usize {
        for c in 0..m {
            assert_eq!(wrap_index(wrap_index(c, 1, m), -1, m), c);
            assert_eq!(wrap_index(wrap_index(c, -1, m), 1, m), c);
        }
    }
}

#[test]
fn path_direction_prefers_shorter_way() {
    assert_eq!(compute_path_direction(0, 4, 5, false), (-1, 1));
    assert_eq!(compute_path_direction(0, 2, 5, false), (1, 2));
    assert_eq!(compute_path_direction(3, 1, 6, true), (-1, 2));
}

#[test]
fn path_direction_ties_go_forward() {
    assert_eq!(compute_path_direction(0, 2, 4, false), (1, 2));
    assert_eq!(compute_path_direction(2, 0, 4, false), (1, 2));
}

#[test]
fn path_direction_same_node_is_zero_hops() {
    assert_eq!(compute_path_direction(3, 3, 7, false), (1, 0));
    assert_eq!(compute_path_direction(3, 3, 7, true), (1, 0));
}

#[test]
fn path_direction_hops_are_symmetric() {
    for m in 1..8usize {
        for a in 0..m {
            for b in 0..m {
                assert_eq!(compute_path_direction(a, b, m, false).1, compute_path_direction(b, a, m, false).1);
                assert_eq!(compute_path_direction(a, b, m, true).1, compute_path_direction(b, a, m, true).1);
            }
        }
    }
}

#[test]
fn star_path_does_not_wrap() {
    assert_eq!(compute_path_direction(0, 5, 6, true), (1, 5));
    assert_eq!(compute_path_direction(0, 5, 6, false), (-1, 1));
}

#[test]
fn candidate_paths_planes_first_and_slots_first() {
    let pf = manhattan_candidate_path(0, 0, 1, 1, 3, 4, false, true);
    assert_eq!(pf, vec![(0, 0), (1, 0), (1, 1)]);
    let sf = manhattan_candidate_path(0, 0, 1, 1, 3, 4, false, false);
    assert_eq!(sf, vec![(0, 0), (0, 1), (1, 1)]);
}

#[test]
fn candidate_path_wraps_backwards() {
    let p = manhattan_candidate_path(0, 0, 2, 3, 3, 4, false, true);
    assert_eq!(p, vec![(0, 0), (2, 0), (2, 3)]);
    assert_eq!(p.first(), Some(&(0, 0)));
    assert_eq!(p.last(), Some(&(2, 3)));
}

#[test]
fn wrap_steps_reach_destination_exactly() {
    for m in 1..9usize {
        for src in 0..m {
            for dst in 0..m {
                let (dir, steps) = compute_path_direction(src, dst, m, false);
                let mut c = src;
                for j in 0..steps {
                    assert!(j == 0 || c != dst);
                    assert_ne!(c, dst);
                    c = wrap_index(c, dir, m);
                }
                assert_eq!(c, dst);
            }
        }
    }
}
