use llm_workbench::search::{
    attach_names, key_to_bits, rank_top_k, rerank_diverse, score_key, search_with_rerank, ZERO_KEY,
};

fn key(x: f32) -> u32 {
    score_key(x.to_bits())
}

#[test]
fn keys_sort_like_scores() {
    let xs = [-1.0f32, -0.5, -1e-30, 0.0, 1e-30, 0.25, 0.9746, 1.0];
    for w in xs.windows(2) {
        assert!(key(w[0]) < key(w[1]), "{} vs {}", w[0], w[1]);
    }
    assert_eq!(key(-0.0), key(0.0));
    assert_eq!(key(0.0), ZERO_KEY);
    assert_eq!(f32::from_bits(key_to_bits(key(0.625))), 0.625);
    assert_eq!(f32::from_bits(key_to_bits(key(-3.5))), -3.5);
}

#[test]
fn empty_partition_gives_empty_result() {
    let keys: Vec<u32> = Vec::new();
    assert!(rank_top_k(&keys, 5).is_empty());
}

#[test]
fn top_k_is_descending_and_stable() {
    let keys = vec![key(0.5), key(0.9), key(0.5), key(0.1), key(0.9)];
    assert_eq!(rank_top_k(&keys, 3), vec![1, 4, 0]);
    assert_eq!(rank_top_k(&keys, 10), vec![1, 4, 0, 2, 3]);
    assert_eq!(rank_top_k(&keys, 0), Vec::<usize>::new());
    let r = rank_top_k(&keys, 4);
    assert!(r.len() <= 4.min(keys.len()));
    for w in r.windows(2) {
        assert!(keys[w[0]] >= keys[w[1]]);
    }
}

#[test]
fn missing_names_are_dropped() {
    let order = vec![4, 1, 7];
    let names = vec![Some("a.txt".to_string()), None, Some("c.txt".to_string())];
    let r = attach_names(&order, &names);
    assert_eq!(r, vec![(4, "a.txt".to_string()), (7, "c.txt".to_string())]);
}

fn penalized<'a>(rel: &'a [f32], sims: &[Vec<f32>]) -> (Vec<Vec<u32>>, impl Fn(usize, u32) -> u32 + 'a) {
    let pair_keys = sims.iter().map(|row| row.iter().map(|s| key(*s)).collect()).collect();
    let f = move |c: usize, m: u32| {
        let max_sim = f32::from_bits(key_to_bits(m));
        key(rel[c] - 0.3 * max_sim)
    };
    (pair_keys, f)
}

fn ids(n: usize) -> Vec<usize> {
    (0..n).collect()
}

#[test]
fn rerank_prefers_diverse_candidates() {
    // 0 and 1 are near duplicates; 2 is less relevant but different
    let rel = [0.95f32, 0.94, 0.80, 0.10];
    let sims = vec![
        vec![1.0, 0.99, 0.10, 0.0],
        vec![0.99, 1.0, 0.12, 0.0],
        vec![0.10, 0.12, 1.0, 0.0],
        vec![0.0, 0.0, 0.0, 1.0],
    ];
    let (pair_keys, f) = penalized(&rel, &sims);
    let sel = rerank_diverse(&ids(4), &pair_keys, 2, f);
    assert_eq!(sel, vec![0, 2]);
}

#[test]
fn rerank_reorders_a_small_pool() {
    // the pool holds no more than top_k: it is still re-ranked greedily
    let rel = [0.9f32, 0.8, 0.79];
    let sims = vec![vec![1.0, 0.99, 0.0], vec![0.99, 1.0, 0.0], vec![0.0, 0.0, 1.0]];
    let (pair_keys, f) = penalized(&rel, &sims);
    assert_eq!(rerank_diverse(&ids(3), &pair_keys, 3, f), vec![0, 2, 1]);
}

#[test]
fn rerank_uses_negative_similarities() {
    // 1 is strongly opposed to 0, which raises its penalised score above 2's
    let rel = [0.9f32, 0.5, 0.52];
    let sims = vec![vec![1.0, -0.9, -0.1], vec![-0.9, 1.0, 0.0], vec![-0.1, 0.0, 1.0]];
    let (pair_keys, f) = penalized(&rel, &sims);
    assert_eq!(rerank_diverse(&ids(3), &pair_keys, 2, f), vec![0, 1]);
}

#[test]
fn rerank_keeps_all_when_few() {
    let rel = [0.9f32, 0.8];
    let sims = vec![vec![1.0, 0.5], vec![0.5, 1.0]];
    let (pair_keys, f) = penalized(&rel, &sims);
    assert_eq!(rerank_diverse(&ids(2), &pair_keys, 5, f), vec![0, 1]);
    let (pair_keys, f) = penalized(&rel, &sims);
    assert_eq!(rerank_diverse(&ids(2), &pair_keys, 0, f), Vec::<usize>::new());
}

#[test]
fn rerank_first_equals_plain_first() {
    let scores = [0.2f32, 0.7, 0.65, 0.9, 0.1, 0.88];
    let keys: Vec<u32> = scores.iter().map(|s| key(*s)).collect();
    let top_k = 2;
    let plain = rank_top_k(&keys, top_k);
    // 3 and 5 are near duplicates of each other
    let sim = |i: usize, j: usize| -> f32 {
        if i == j {
            1.0
        } else if (i == 3 && j == 5) || (i == 5 && j == 3) {
            0.98
        } else {
            0.1
        }
    };
    let pair_key = |i: usize, j: usize| key(sim(i, j));
    let penalize = |i: usize, m: u32| key(scores[i] - 0.3 * f32::from_bits(key_to_bits(m)));
    let r = search_with_rerank(&keys, top_k, 2, pair_key, penalize);
    assert_eq!(r.len(), 2);
    assert_eq!(r[0], plain[0]);
    assert_eq!(plain[0], 3);
    // the pool is 3, 5, 1, 2; 5 is pushed back by its likeness to 3
    assert_eq!(r, vec![3, 1]);
}
