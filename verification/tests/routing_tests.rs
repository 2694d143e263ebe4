use leo_viz::graph::SatNode;
use leo_viz::routing::find_satellite;

fn node(plane: usize, sat_index: usize) -> SatNode {
    SatNode { plane, sat_index, neighbors: Vec::new() }
}

#[test]
fn find_satellite_returns_first_match() {
    let v = vec![node(0, 0), node(1, 2), node(1, 2)];
    assert_eq!(find_satellite(&v, 1, 2), Some(1));
    assert_eq!(find_satellite(&v, 0, 0), Some(0));
    assert_eq!(find_satellite(&v, 2, 0), None);
}

#[test]
fn find_satellite_in_empty_list() {
    assert_eq!(find_satellite(&[], 0, 0), None);
}
