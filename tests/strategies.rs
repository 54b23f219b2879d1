use std::sync::Arc;

use multisearch::algorithms::{
    get_split_indices, linear_multiple_search, multiple_value_search, split_search,
};
use multisearch::bsearch::{is_sorted, lookup, lookup_in, lower_bound};
use multisearch::compare::{compare_results, Mismatch};
use multisearch::divide::{binary_multiple_search, divide_and_conquer_search};
use multisearch::partition::{
    block_aligned_bounds, linear_span_search, merge_results, partition_bounds, split_span_search,
};
use multisearch::search::{
    parallel_rayon_linear_multiple_search, run_parallel, run_sequential, run_span, search, SearchConfig, SearchError, Strategy,
};

fn next(state: &mut u64) -> u64 {
    *state = state
        .wrapping_mul(6364136223846793005)
        .wrapping_add(1442695040888963407);
    *state >> 33
}

fn random_sorted(len: usize, modulus: u64, seed: u64) -> Vec<u64> {
    let mut st = seed;
    let mut v: Vec<u64> = (0..len).map(|_| next(&mut st) % modulus).collect();
    v.sort();
    v
}

fn first_index_oracle(h: &[u64], s: &[u64]) -> Vec<Option<usize>> {
    s.iter().map(|x| h.iter().position(|y| y == x)).collect()
}

fn config() -> SearchConfig {
    SearchConfig {
        worker_count: 4,
        block_size: 3,
        small_task_threshold: 2,
        parallel_threshold: 8,
    }
}

const ALL: [Strategy; 4] = [
    Strategy::Baseline,
    Strategy::Cursor,
    Strategy::Split,
    Strategy::DivideAndConquer,
];

fn all_sorted_strategies(s: &Vec<u64>, h: &Vec<u64>) -> Vec<Vec<Option<usize>>> {
    let mut out = vec![
        linear_multiple_search(s, h),
        multiple_value_search(s, h),
        split_search(s, h),
        binary_multiple_search(s, h),
        divide_and_conquer_search(s, h, 0),
        divide_and_conquer_search(s, h, 1),
        divide_and_conquer_search(s, h, 5),
        parallel_rayon_linear_multiple_search(Arc::new(s.clone()), Arc::new(h.clone())),
    ];
    for strategy in ALL {
        out.push(run_sequential(s, h, strategy, &config()));
        out.push(run_parallel(s, h, strategy, &config()));
    }
    out
}

#[test]
fn concrete_scenario_small() {
    let h = vec![1, 3, 3, 5, 7, 9, 11];
    let s = vec![3, 4, 11, 0];
    let r = linear_multiple_search(&s, &h);
    assert_eq!(r.len(), 4);
    assert!(r[0] == Some(1) || r[0] == Some(2));
    assert_eq!(r[1], None);
    assert_eq!(r[2], Some(6));
    assert_eq!(r[3], None);
    assert_eq!(r, vec![Some(1), None, Some(6), None]);
    let par = parallel_rayon_linear_multiple_search(Arc::new(s.clone()), Arc::new(h.clone()));
    assert_eq!(par, r);
    assert_eq!(search(&s, &h, Strategy::Baseline, false, &config()), Ok(r.clone()));
    assert_eq!(search(&s, &h, Strategy::Baseline, true, &config()), Ok(r));
}

#[test]
fn concrete_scenario_small_sorted_needles() {
    let h = vec![1, 3, 3, 5, 7, 9, 11];
    let s = vec![0, 3, 4, 11];
    for r in all_sorted_strategies(&s, &h) {
        assert_eq!(r, vec![None, Some(1), None, Some(6)]);
    }
}

#[test]
fn concrete_scenario_split_large() {
    let h: Vec<u64> = (0..10_000u64).map(|i| (i / 3) * 10).collect();
    assert!(is_sorted(&h));
    let mut s: Vec<u64> = Vec::new();
    for j in 0..500u64 {
        s.push(h[((j * 7919) % 10_000) as usize]);
        s.push(((j * 13) % 3334) * 10 + 5);
    }
    s.sort();
    let base = linear_multiple_search(&s, &h);
    let split = split_search(&s, &h);
    assert_eq!(split, base);
    assert_eq!(base.iter().filter(|r| r.is_some()).count(), 500);
    assert_eq!(base.iter().filter(|r| r.is_none()).count(), 500);
    assert_eq!(binary_multiple_search(&s, &h), base);
    assert_eq!(multiple_value_search(&s, &h), base);
}

#[test]
fn answers_are_sound_and_complete() {
    for seed in 1..20u64 {
        let h = random_sorted(200, 150, seed);
        let s = random_sorted(120, 200, seed * 31 + 7);
        for r in all_sorted_strategies(&s, &h) {
            assert_eq!(r.len(), s.len());
            for (i, a) in r.iter().enumerate() {
                match a {
                    Some(k) => {
                        assert_eq!(h[*k], s[i]);
                        assert!(h[..*k].iter().all(|y| *y != s[i]));
                    }
                    None => assert!(!h.contains(&s[i])),
                }
            }
        }
    }
}

#[test]
fn strategies_match_baseline() {
    let cases: Vec<(Vec<u64>, Vec<u64>)> = vec![
        (random_sorted(300, 40, 3), random_sorted(250, 40, 4)),
        (random_sorted(300, 1000, 5), random_sorted(250, 1000, 6)),
        ((0..100u64).map(|i| i * 2).collect(), (0..80u64).map(|i| i * 2 + 1).collect()),
        ((0..100u64).map(|i| i * 2).collect(), (0..80u64).map(|i| i * 2).collect()),
        (vec![], random_sorted(50, 10, 8)),
        (random_sorted(50, 10, 9), vec![]),
        (vec![7], vec![1, 7, 7, 7, 9]),
        (vec![5, 5, 5, 5], vec![5, 5, 5, 6]),
    ];
    for (h, s) in cases {
        let base = linear_multiple_search(&s, &h);
        assert_eq!(base, first_index_oracle(&h, &s));
        for r in all_sorted_strategies(&s, &h) {
            assert_eq!(r, base);
        }
    }
}

#[test]
fn repeated_calls_agree() {
    let h = random_sorted(500, 300, 11);
    let s = random_sorted(400, 300, 12);
    assert_eq!(all_sorted_strategies(&s, &h), all_sorted_strategies(&s, &h));
}

#[test]
fn partitioned_runs_match_direct() {
    let h = random_sorted(400, 500, 21);
    for len in [0usize, 1, 7, 12, 24, 25, 60] {
        let s = random_sorted(len, 500, 22 + len as u64);
        let direct = linear_multiple_search(&s, &h);
        let direct_split = split_search(&s, &h);
        for workers in 1..=8usize {
            let bounds = partition_bounds(s.len(), workers);
            let parts: Vec<Vec<Option<usize>>> = bounds
                .iter()
                .map(|b| linear_span_search(&s, &h, b.0, b.1))
                .collect();
            assert_eq!(merge_results(&parts), direct);
            let blocks = block_aligned_bounds(s.len(), 5, workers);
            let parts: Vec<Vec<Option<usize>>> = blocks
                .iter()
                .map(|b| split_span_search(&s, &h, b.0, b.1, 5))
                .collect();
            assert_eq!(merge_results(&parts), direct_split);
            for strategy in ALL {
                let cfg = SearchConfig { worker_count: workers, ..config() };
                assert_eq!(run_parallel(&s, &h, strategy, &cfg), direct);
                let spans: Vec<Vec<Option<usize>>> = bounds
                    .iter()
                    .map(|b| run_span(&s, &h, b.0, b.1, strategy, &cfg))
                    .collect();
                assert_eq!(merge_results(&spans), direct);
            }
        }
    }
}

#[test]
fn empty_haystack_gives_none() {
    let h: Vec<u64> = vec![];
    let s = random_sorted(300, 100, 31);
    for r in all_sorted_strategies(&s, &h) {
        assert_eq!(r.len(), 300);
        assert!(r.iter().all(|a| a.is_none()));
    }
}

#[test]
fn empty_needles_give_empty_result() {
    let h = random_sorted(100, 100, 32);
    let s: Vec<u64> = vec![];
    for r in all_sorted_strategies(&s, &h) {
        assert!(r.is_empty());
    }
    assert_eq!(get_split_indices(0, 100), vec![]);
}

#[test]
fn parallel_threshold_boundaries() {
    let h = random_sorted(200, 100, 41);
    for len in [7usize, 8, 9] {
        let s = random_sorted(len, 100, 42 + len as u64);
        let direct = linear_multiple_search(&s, &h);
        for strategy in ALL {
            assert_eq!(search(&s, &h, strategy, true, &config()), Ok(direct.clone()));
            assert_eq!(search(&s, &h, strategy, false, &config()), Ok(direct.clone()));
        }
    }
}

#[test]
fn search_errors() {
    let h = vec![1, 2, 3];
    let s = vec![3, 1];
    let no_workers = SearchConfig { worker_count: 0, ..config() };
    assert_eq!(
        search(&s, &h, Strategy::Baseline, true, &no_workers),
        Err(SearchError::NoWorkers)
    );
    assert_eq!(
        search(&s, &h, Strategy::Baseline, false, &no_workers),
        Ok(vec![Some(2), Some(0)])
    );
    let no_blocks = SearchConfig { block_size: 0, ..config() };
    assert_eq!(
        search(&h, &h, Strategy::Split, false, &no_blocks),
        Err(SearchError::EmptyBlocks)
    );
    assert_eq!(
        search(&s, &vec![2, 1], Strategy::Baseline, false, &config()),
        Err(SearchError::UnsortedHaystack)
    );
    assert_eq!(
        search(&s, &h, Strategy::Cursor, false, &config()),
        Err(SearchError::UnsortedNeedles)
    );
    assert_eq!(
        search(&s, &h, Strategy::DivideAndConquer, true, &config()),
        Err(SearchError::UnsortedNeedles)
    );
}

#[test]
fn split_indices_values() {
    assert_eq!(get_split_indices(250, 100), vec![(0, 100), (100, 200), (200, 250)]);
    assert_eq!(get_split_indices(200, 100), vec![(0, 100), (100, 200)]);
    assert_eq!(get_split_indices(5, 100), vec![(0, 5)]);
}

#[test]
fn partition_bounds_values() {
    assert_eq!(partition_bounds(10, 4), vec![(0, 3), (3, 6), (6, 8), (8, 10)]);
    assert_eq!(partition_bounds(8, 4), vec![(0, 2), (2, 4), (4, 6), (6, 8)]);
    assert_eq!(partition_bounds(2, 3), vec![(0, 1), (1, 2), (2, 2)]);
    assert_eq!(block_aligned_bounds(23, 5, 2), vec![(0, 15), (15, 23)]);
    assert_eq!(block_aligned_bounds(10, 5, 3), vec![(0, 5), (5, 10), (10, 10)]);
}

#[test]
fn binary_search_values() {
    let h = vec![1, 3, 3, 5, 7];
    assert_eq!(lower_bound(&h, 0, 5, 3), 1);
    assert_eq!(lower_bound(&h, 0, 5, 4), 3);
    assert_eq!(lower_bound(&h, 0, 5, 9), 5);
    assert_eq!(lower_bound(&h, 2, 4, 0), 2);
    assert_eq!(lookup(&h, 3), Some(1));
    assert_eq!(lookup(&h, 0), None);
    assert_eq!(lookup_in(&h, 2, 5, 3), Some(2));
    assert_eq!(lookup_in(&h, 3, 5, 3), None);
    assert!(is_sorted(&h));
    assert!(!is_sorted(&vec![2, 1]));
    assert!(is_sorted(&vec![]));
}

#[test]
fn divide_and_conquer_with_duplicate_needles() {
    let h = vec![2, 4, 4, 4, 8, 8, 10];
    let s = vec![0, 2, 4, 4, 4, 4, 5, 8, 8, 8, 10, 10, 11];
    let expected = first_index_oracle(&h, &s);
    for leaf in 0..4usize {
        assert_eq!(divide_and_conquer_search(&s, &h, leaf), expected);
    }
}

#[test]
fn compare_results_reports_mismatch() {
    let a = vec![Some(1), None, Some(3)];
    assert_eq!(compare_results(&a, &a.clone()), None);
    assert_eq!(compare_results(&a, &vec![Some(1)]), Some(Mismatch::Length));
    assert_eq!(
        compare_results(&a, &vec![Some(1), Some(2), None]),
        Some(Mismatch::At(1))
    );
}
