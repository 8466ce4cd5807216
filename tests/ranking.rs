use storage_core::ranking::{order_key, rank_top_k};

fn cosine(a: &[f32], b: &[f32]) -> f32 {
    let mag_a = a.iter().map(|x| x * x).sum::<f32>().sqrt();
    let mag_b = b.iter().map(|x| x * x).sum::<f32>().sqrt();
    if mag_a == 0.0 || mag_b == 0.0 {
        return 0.0;
    }
    a.iter().zip(b).map(|(x, y)| x * y).sum::<f32>() / (mag_a * mag_b)
}

fn bits(scores: &[f32]) -> Vec<u32> {
    scores.iter().map(|s| s.to_bits()).collect()
}

#[test]
fn test_vector_search_top_k() {
    let query = [1.0f32, 0.0, 0.0];
    let candidates: Vec<(u32, Vec<f32>)> = vec![
        (1, vec![1.0, 0.0, 2.0]),
        (2, vec![1.0, 2.0, 3.0]),
        (3, vec![1.0, 3.0, 4.0]),
        (4, vec![1.0, 3.0, 5.0]),
    ];
    let scores: Vec<f32> = candidates.iter().map(|(_, v)| cosine(&query, v)).collect();
    let top = rank_top_k(&bits(&scores), 2);
    let keys: Vec<u32> = top.iter().map(|i| candidates[*i].0).collect();
    assert_eq!(keys, vec![1, 2]);
}

#[test]
fn top_k_length_and_order() {
    let scores = [0.5f32, -1.0, 0.9, 0.5, 0.0];
    assert_eq!(rank_top_k(&bits(&scores), 0), Vec::<usize>::new());
    assert_eq!(rank_top_k(&bits(&scores), 3), vec![2, 0, 3]);
    assert_eq!(rank_top_k(&bits(&scores), 10), vec![2, 0, 3, 4, 1]);
    assert_eq!(rank_top_k(&Vec::new(), 3), Vec::<usize>::new());
}

#[test]
fn order_keys_follow_float_order() {
    let values = [f32::NEG_INFINITY, -2.5, -0.0, 0.0, 1e-30, 1.0, f32::INFINITY, f32::NAN];
    for w in values.windows(2) {
        assert!(order_key(w[0].to_bits()) < order_key(w[1].to_bits()));
    }
    assert_eq!(order_key(0.0f32.to_bits()), 0x8000_0000);
    assert_eq!(order_key((-0.0f32).to_bits()), 0x7FFF_FFFF);
}

#[test]
fn nan_scores_rank_without_panic() {
    let scores = [0.1f32, f32::NAN, 0.3];
    assert_eq!(rank_top_k(&bits(&scores), 3), vec![1, 2, 0]);
}
