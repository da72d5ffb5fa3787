use stabilizer_qec::blossom::{min_weight_perfect_matching, min_weight_perfect_matching_diagnostic, MAX_VERTICES};

fn brute_force(n: usize, cost: &[Vec<i64>]) -> i64 {
    fn go(used: &mut Vec<bool>, n: usize, cost: &[Vec<i64>]) -> i64 {
        let first = match (0..n).find(|&i| !used[i]) {
            Some(i) => i,
            None => return 0,
        };
        used[first] = true;
        let mut best = i64::MAX;
        for j in 0..n {
            if !used[j] {
                used[j] = true;
                let w = cost[first][j] + go(used, n, cost);
                best = best.min(w);
                used[j] = false;
            }
        }
        used[first] = false;
        best
    }
    go(&mut vec![false; n], n, cost)
}

fn check_perfect(n: usize, m: &[usize]) {
    assert_eq!(m.len(), n);
    for i in 0..n {
        assert!(m[i] < n && m[i] != i && m[m[i]] == i, "vertex {i} badly matched: {:?}", m);
    }
}

#[test]
fn empty_and_unsupported_sizes() {
    let (r, why) = min_weight_perfect_matching_diagnostic(0, &[]);
    assert_eq!(r, Some(Vec::new()));
    assert_eq!(why, "");
    let cost = vec![vec![0i64; 3]; 3];
    let (r, why) = min_weight_perfect_matching_diagnostic(3, &cost);
    assert_eq!(r, None);
    assert_eq!(why, "unsupported size");
    assert_eq!(min_weight_perfect_matching(MAX_VERTICES + 2, &[]), None);
}

#[test]
fn two_vertices_pair_up() {
    let cost = vec![vec![0, 5], vec![5, 0]];
    assert_eq!(min_weight_perfect_matching(2, &cost), Some(vec![1, 0]));
}

#[test]
fn four_vertices_take_the_cheap_pairs() {
    // 0-1 and 2-3 are cheap; 0-2, 1-3 are expensive.
    let cost = vec![vec![0, 1, 9, 9], vec![1, 0, 9, 9], vec![9, 9, 0, 1], vec![9, 9, 1, 0]];
    let m = min_weight_perfect_matching(4, &cost).expect("a matching");
    assert_eq!(m, vec![1, 0, 3, 2]);
}

#[test]
fn matches_brute_force_on_random_instances() {
    let mut rng: u64 = 0x9E37_79B9_7F4A_7C15;
    let mut next = || {
        rng ^= rng << 13;
        rng ^= rng >> 7;
        rng ^= rng << 17;
        rng
    };
    let mut solved = 0;
    for n in [2usize, 4, 6, 8] {
        for _ in 0..40 {
            let mut cost = vec![vec![0i64; n]; n];
            for i in 0..n {
                for j in (i + 1)..n {
                    let w = (next() % 50) as i64;
                    cost[i][j] = w;
                    cost[j][i] = w;
                }
            }
            let (r, why) = min_weight_perfect_matching_diagnostic(n, &cost);
            if let Some(m) = r {
                check_perfect(n, &m);
                let w: i64 = (0..n).filter(|&i| i < m[i]).map(|i| cost[i][m[i]]).sum();
                assert_eq!(w, brute_force(n, &cost), "n={n}: not minimal ({why})");
                solved += 1;
            }
        }
    }
    assert!(solved > 100, "only {solved} instances solved");
}

#[test]
fn extreme_weights_fail_instead_of_overflowing() {
    let cost = vec![vec![0, i64::MIN], vec![i64::MIN, 0]];
    let (r, _) = min_weight_perfect_matching_diagnostic(2, &cost);
    assert_eq!(r, None);
}
