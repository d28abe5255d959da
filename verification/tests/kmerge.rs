use schist::kmerge::{Merged, LoserTree, merge_runs};

#[test]
fn merges_two_runs() {
    let merged = merge_runs(vec![vec![1, 4, 7], vec![2, 3, 8]]);
    assert_eq!(merged, vec![1, 2, 3, 4, 7, 8]);
}

#[test]
fn merges_many_runs() {
    let runs = vec![
        vec![1, 10, 20],
        vec![2, 11, 21],
        vec![3, 12, 22],
        vec![0, 100],
    ];
    let merged = merge_runs(runs);
    let mut sorted = merged.clone();
    sorted.sort();
    assert_eq!(merged, sorted);
    assert_eq!(merged.len(), 11);
}

#[test]
fn tracks_run_provenance() {
    let lt = LoserTree::new(vec![vec![1, 3], vec![2, 4]]);
    let merged = lt.collect();
    assert_eq!(merged[0], Merged { key: 1, run: 0 });
    assert_eq!(merged[1], Merged { key: 2, run: 1 });
    assert_eq!(merged[3], Merged { key: 4, run: 1 });
}

#[test]
fn handles_empty_runs() {
    let merged = merge_runs(vec![vec![], vec![5], vec![]]);
    assert_eq!(merged, vec![5]);
    assert!(merge_runs(vec![vec![], vec![]]).is_empty());
}

#[test]
fn single_run() {
    assert_eq!(merge_runs(vec![vec![3, 1, 2]]), vec![3, 1, 2]);
}

#[test]
fn large_random_merge() {
    let mut runs = Vec::new();
    let mut state = 7u64;
    let mut all = Vec::new();
    for _ in 0..8 {
        let mut run = Vec::new();
        for _ in 0..100 {
            state = state.wrapping_mul(6364136223846793005).wrapping_add(1);
            run.push((state >> 40) as i64 % 1000);
        }
        run.sort();
        all.extend(run.iter().copied());
        runs.push(run);
    }
    all.sort();
    let merged = merge_runs(runs);
    assert_eq!(merged, all);
}

#[test]
fn equal_keys_come_in_the_order_of_the_tournament() {
    let out = LoserTree::new(vec![vec![1, 1], vec![1]]).collect();
    let runs: Vec<usize> = out.iter().map(|m| m.run).collect();
    assert_eq!(runs, vec![1, 0, 0]);
}
