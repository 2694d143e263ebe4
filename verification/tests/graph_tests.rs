use leo_viz::bfs::graph_hop_count;
use leo_viz::graph::{build_bidirectional_adj, SatNode};

fn with_links(links: Vec<Vec<usize>>) -> Vec<SatNode> {
    links
        .into_iter()
        .enumerate()
        .map(|(i, neighbors)| SatNode { plane: 0, sat_index: i, neighbors })
        .collect()
}

#[test]
fn bidirectional_adj_adds_reverse_links() {
    let sats = with_links(vec![vec![1], vec![2], vec![], vec![9]]);
    let adj = build_bidirectional_adj(&sats);
    assert_eq!(adj, vec![vec![1], vec![0, 2], vec![1], vec![]]);
}

#[test]
fn bidirectional_adj_keeps_duplicates() {
    let sats = with_links(vec![vec![1], vec![0]]);
    let adj = build_bidirectional_adj(&sats);
    assert_eq!(adj, vec![vec![1, 1], vec![0, 0]]);
}

#[test]
fn bidirectional_adj_is_symmetric() {
    let sats = with_links(vec![vec![3, 1], vec![2], vec![0], vec![], vec![2, 7]]);
    let adj = build_bidirectional_adj(&sats);
    for u in 0..adj.len() {
        for v in 0..adj.len() {
            let uv = adj[u].iter().filter(|&&x| x == v).count();
            let vu = adj[v].iter().filter(|&&x| x == u).count();
            assert_eq!(uv, vu);
        }
    }
}

#[test]
fn hop_count_on_a_line() {
    let sats = with_links(vec![vec![1], vec![2], vec![], vec![9]]);
    let adj = build_bidirectional_adj(&sats);
    assert_eq!(graph_hop_count(0, 2, &adj), 2);
    assert_eq!(graph_hop_count(2, 0, &adj), 2);
    assert_eq!(graph_hop_count(0, 1, &adj), 1);
}

#[test]
fn hop_count_unreachable_is_max() {
    let sats = with_links(vec![vec![1], vec![2], vec![], vec![9]]);
    let adj = build_bidirectional_adj(&sats);
    assert_eq!(graph_hop_count(0, 3, &adj), usize::MAX);
    assert_eq!(graph_hop_count(3, 0, &adj), usize::MAX);
}

#[test]
fn hop_count_to_itself_is_zero() {
    let adj: Vec<Vec<usize>> = vec![vec![]];
    assert_eq!(graph_hop_count(0, 0, &adj), 0);
    assert_eq!(graph_hop_count(5, 5, &adj), 0);
}

#[test]
fn hop_count_takes_the_shortcut() {
    // ring 0-1-2-3-4-0 plus a chord 0-3
    let sats = with_links(vec![vec![1, 3], vec![2], vec![3], vec![4], vec![0]]);
    let adj = build_bidirectional_adj(&sats);
    assert_eq!(graph_hop_count(0, 3, &adj), 1);
    assert_eq!(graph_hop_count(1, 4, &adj), 2);
    assert_eq!(graph_hop_count(2, 4, &adj), 2);
}

#[test]
fn hop_count_to_listed_destination_outside_the_lists() {
    let adj: Vec<Vec<usize>> = vec![vec![5]];
    assert_eq!(graph_hop_count(0, 5, &adj), 1);
    let adj2: Vec<Vec<usize>> = vec![vec![1], vec![7]];
    assert_eq!(graph_hop_count(0, 7, &adj2), 2);
    assert_eq!(graph_hop_count(0, 9, &adj2.iter().map(|r| r.iter().map(|&x| if x == 7 { 9 } else { x }).collect()).collect::<Vec<Vec<usize>>>()), 2);
}
