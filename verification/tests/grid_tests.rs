use leo_viz::grid::grid_neighbors;
use leo_viz::spacecomp::manhattan_hop_count;
use leo_viz::torus::manhattan_candidate_path;

#[test]
fn ring_grid_links() {
    assert_eq!(grid_neighbors(1, 2, 3, 4, false), vec![(1, 3), (1, 1), (2, 2), (0, 2)]);
    assert_eq!(grid_neighbors(0, 0, 3, 4, false), vec![(0, 1), (0, 3), (1, 0), (2, 0)]);
    assert_eq!(grid_neighbors(2, 3, 3, 4, false), vec![(2, 0), (2, 2), (0, 3), (1, 3)]);
}

#[test]
fn star_grid_has_no_seam_link() {
    assert_eq!(grid_neighbors(0, 0, 3, 4, true), vec![(0, 1), (0, 3), (1, 0)]);
    assert_eq!(grid_neighbors(2, 1, 3, 4, true), vec![(2, 2), (2, 0), (1, 1)]);
    assert_eq!(grid_neighbors(1, 1, 3, 4, true), vec![(1, 2), (1, 0), (2, 1), (0, 1)]);
}

#[test]
fn single_plane_links() {
    assert_eq!(grid_neighbors(0, 1, 1, 3, false), vec![(0, 2), (0, 0), (0, 1), (0, 1)]);
    assert_eq!(grid_neighbors(0, 1, 1, 3, true), vec![(0, 2), (0, 0)]);
}

#[test]
fn every_grid_link_is_one_hop() {
    for star in [false, true] {
        for p in 0..4usize {
            for s in 0..5usize {
                for (q, t) in grid_neighbors(p, s, 4, 5, star) {
                    assert!(q < 4 && t < 5);
                    assert!(manhattan_hop_count(p, s, q, t, 4, 5, star) <= 1);
                }
            }
        }
    }
}

#[test]
fn breadth_first_over_grid_links_matches_hop_count() {
    // hops over grid links equal the Manhattan hop count on these grids
    for star in [false, true] {
        let (np, spp) = (4usize, 5usize);
        for src in 0..np * spp {
            let mut dist = vec![usize::MAX; np * spp];
            dist[src] = 0;
            let mut queue = std::collections::VecDeque::from(vec![src]);
            while let Some(u) = queue.pop_front() {
                for (q, t) in grid_neighbors(u / spp, u % spp, np, spp, star) {
                    let v = q * spp + t;
                    if dist[v] == usize::MAX {
                        dist[v] = dist[u] + 1;
                        queue.push_back(v);
                    }
                }
            }
            for dst in 0..np * spp {
                let h = manhattan_hop_count(src / spp, src % spp, dst / spp, dst % spp, np, spp, star);
                assert_eq!(dist[dst], h);
            }
        }
    }
}

#[test]
fn candidate_paths_have_hop_count_hops() {
    for star in [false, true] {
        for sp in 0..3usize {
            for ss in 0..4usize {
                for dp in 0..3usize {
                    for ds in 0..4usize {
                        for pf in [false, true] {
                            let path = manhattan_candidate_path(sp, ss, dp, ds, 3, 4, star, pf);
                            assert_eq!(path.len(), 1 + manhattan_hop_count(sp, ss, dp, ds, 3, 4, star));
                            assert_eq!(path[0], (sp, ss));
                            assert_eq!(*path.last().unwrap(), (dp, ds));
                        }
                    }
                }
            }
        }
    }
}

#[test]
fn hop_count_triangle_inequality() {
    let (np, spp) = (4usize, 5usize);
    for star in [false, true] {
        for x in 0..np * spp {
            for y in 0..np * spp {
                for z in 0..np * spp {
                    let h = |a: usize, b: usize| manhattan_hop_count(a / spp, a % spp, b / spp, b % spp, np, spp, star);
                    assert!(h(x, z) <= h(x, y) + h(y, z));
                }
            }
            assert_eq!(manhattan_hop_count(x / spp, x % spp, x / spp, x % spp, np, spp, star), 0);
        }
    }
}
