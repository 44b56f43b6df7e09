use tinygpt_rs::sampling::top_k_keep;

#[test]
fn top_k_keeps_the_k_highest_keys() {
    let keys = [1u32, 5, 2, 0, 9];
    assert_eq!(top_k_keep(&keys, 2), vec![false, true, false, false, true]);
    assert_eq!(top_k_keep(&keys, 1), vec![false, false, false, false, true]);
    assert_eq!(top_k_keep(&keys, 3), vec![false, true, true, false, true]);
}

#[test]
fn top_k_zero_keeps_the_maximum_and_large_k_keeps_all() {
    let keys = [1u32, 5, 2, 0, 9];
    assert_eq!(top_k_keep(&keys, 0), vec![false, false, false, false, true]);
    assert_eq!(top_k_keep(&keys, 5), vec![true; 5]);
    assert_eq!(top_k_keep(&keys, 100), vec![true; 5]);
}

#[test]
fn top_k_keeps_ties_with_the_threshold() {
    let keys = [3u32, 7, 3, 7, 1];
    assert_eq!(top_k_keep(&keys, 1), vec![false, true, false, true, false]);
    assert_eq!(top_k_keep(&keys, 3), vec![true, true, true, true, false]);
}

#[test]
fn probability_bits_order_like_probabilities() {
    let probs = [0.1f32, 0.5, 0.2, 0.0, 0.9];
    let keys: Vec<u32> = probs.iter().map(|p| p.to_bits()).collect();
    assert_eq!(top_k_keep(&keys, 2), vec![false, true, false, false, true]);
}

#[test]
fn top_k_matches_a_sorted_threshold() {
    let keys: Vec<u32> = vec![40, 7, 7, 93, 12, 40, 0, 55, 7, 81];
    let mut sorted = keys.clone();
    sorted.sort_by(|a, b| b.cmp(a));
    for k in 0..13usize {
        let place = k.saturating_sub(1).min(keys.len() - 1);
        let threshold = sorted[place];
        let expected: Vec<bool> = keys.iter().map(|&x| x >= threshold).collect();
        assert_eq!(top_k_keep(&keys, k), expected, "k = {k}");
    }
}
