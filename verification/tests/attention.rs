use tinygpt_rs::attention::{causal_mask, causal_mask_for_chunk};

#[test]
fn causal_mask_blocks_future_positions() {
    let m = causal_mask(3);
    assert_eq!(m, vec![false, true, true, false, false, true, false, false, false]);
    for i in 0..5 {
        for j in 0..5 {
            assert_eq!(causal_mask(5)[i * 5 + j], j > i);
        }
    }
    assert!(causal_mask(0).is_empty());
}

#[test]
fn chunk_mask_is_the_full_mask_narrowed_to_the_chunk_rows() {
    for offset in 0..5 {
        for t in 0..4 {
            let total = offset + t;
            let full = causal_mask(total);
            let chunk = causal_mask_for_chunk(offset, t);
            assert_eq!(chunk, full[offset * total..total * total].to_vec());
        }
    }
    // one new token after 3 cached ones sees all 4 positions
    assert_eq!(causal_mask_for_chunk(3, 1), vec![false; 4]);
}
