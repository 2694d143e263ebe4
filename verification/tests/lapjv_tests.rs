use leo_viz::lapjv::lapjv_assignment;

fn total(cost: &[Vec<usize>], res: &[(usize, usize)]) -> usize {
    res.iter().map(|&(i, j)| cost[i][j]).sum()
}

fn best_total(cost: &[Vec<usize>]) -> usize {
    fn go(cost: &[Vec<usize>], row: usize, used: &mut Vec<bool>) -> usize {
        if row == cost.len() {
            return 0;
        }
        let mut best = usize::MAX;
        for j in 0..cost.len() {
            if !used[j] {
                used[j] = true;
                let rest = go(cost, row + 1, used);
                used[j] = false;
                best = best.min(cost[row][j] + rest);
            }
        }
        best
    }
    let mut used = vec![false; cost.len()];
    go(cost, 0, &mut used)
}

fn is_permutation(res: &[(usize, usize)], n: usize) -> bool {
    let mut seen = vec![false; n];
    for (k, &(i, j)) in res.iter().enumerate() {
        if i != k || j >= n || seen[j] {
            return false;
        }
        seen[j] = true;
    }
    res.len() == n
}

#[test]
fn empty_matrix() {
    let cost: Vec<Vec<usize>> = Vec::new();
    assert_eq!(lapjv_assignment(&cost), Vec::<(usize, usize)>::new());
}

#[test]
fn single_entry() {
    assert_eq!(lapjv_assignment(&[vec![7]]), vec![(0, 0)]);
}

#[test]
fn three_by_three_unique_optimum() {
    let cost = vec![vec![4, 1, 3], vec![2, 0, 5], vec![3, 2, 2]];
    let res = lapjv_assignment(&cost);
    assert_eq!(res, vec![(0, 1), (1, 0), (2, 2)]);
    assert_eq!(total(&cost, &res), 5);
}

#[test]
fn needs_augmenting_paths() {
    // every row is cheapest in column 0, so the greedy pass assigns only row 0
    let cost = vec![vec![1, 10, 20], vec![1, 30, 40], vec![1, 50, 9]];
    let res = lapjv_assignment(&cost);
    assert!(is_permutation(&res, 3));
    assert_eq!(total(&cost, &res), best_total(&cost));
    assert_eq!(res, vec![(0, 1), (1, 0), (2, 2)]);
    assert_eq!(total(&cost, &res), 20);
}

#[test]
fn identity_is_kept_when_diagonal_is_free() {
    let cost = vec![vec![0, 5, 5, 5], vec![5, 0, 5, 5], vec![5, 5, 0, 5], vec![5, 5, 5, 0]];
    assert_eq!(lapjv_assignment(&cost), vec![(0, 0), (1, 1), (2, 2), (3, 3)]);
}

#[test]
fn anti_diagonal() {
    let cost = vec![vec![9, 9, 1], vec![9, 1, 9], vec![1, 9, 9]];
    assert_eq!(lapjv_assignment(&cost), vec![(0, 2), (1, 1), (2, 0)]);
}

#[test]
fn optimal_on_many_matrices() {
    let mut seed: u64 = 12345;
    for n in 1..7usize {
        for _ in 0..20 {
            let mut cost = vec![vec![0usize; n]; n];
            for i in 0..n {
                for j in 0..n {
                    seed = seed.wrapping_mul(6364136223846793005).wrapping_add(1442695040888963407);
                    cost[i][j] = ((seed >> 33) % 20) as usize;
                }
            }
            let res = lapjv_assignment(&cost);
            assert!(is_permutation(&res, n));
            assert_eq!(total(&cost, &res), best_total(&cost));
        }
    }
}

#[test]
fn longer_rows_are_read_up_to_n() {
    let cost = vec![vec![3, 1, 0], vec![1, 3, 0]];
    assert_eq!(lapjv_assignment(&cost), vec![(0, 1), (1, 0)]);
}
