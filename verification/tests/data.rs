use candle_core::Device;
use rand::SeedableRng;
use tinygpt_rs::data::Dataset;
use tinygpt_rs::tokenizer::Tokenizer;

#[test]
fn batch_has_expected_shape() {
    let text = "abcdefghijklmnopqrstuvwxyz".repeat(10);
    let tok = Tokenizer::from_corpus(&text);
    let ds = Dataset::from_text(&text, &tok);
    let device = Device::Cpu;
    let mut rng = rand::rngs::StdRng::seed_from_u64(0);
    let (inputs, targets) = ds.random_batch(4, 8, &device, &mut rng).unwrap();
    assert_eq!(inputs.dims(), &[4, 8]);
    assert_eq!(targets.dims(), &[4, 8]);
}

#[test]
fn targets_are_inputs_shifted_by_one() {
    let text = "abcdefghijklmnopqrstuvwxyz".repeat(10);
    let tok = Tokenizer::from_corpus(&text);
    let ds = Dataset::from_text(&text, &tok);
    let device = Device::Cpu;
    let mut rng = rand::rngs::StdRng::seed_from_u64(0);
    let (inputs, targets) = ds.random_batch(1, 8, &device, &mut rng).unwrap();
    let inputs: Vec<u32> = inputs.flatten_all().unwrap().to_vec1().unwrap();
    let targets: Vec<u32> = targets.flatten_all().unwrap().to_vec1().unwrap();
    assert_eq!(&inputs[1..], &targets[..targets.len() - 1]);
}

#[test]
fn batch_rows_are_windows_of_the_stream() {
    let text = "abcdefghijklmnopqrstuvwxyz".repeat(10);
    let tok = Tokenizer::from_corpus(&text);
    let ds = Dataset::from_text(&text, &tok);
    let device = Device::Cpu;
    let mut rng = rand::rngs::StdRng::seed_from_u64(7);
    let (inputs, targets) = ds.random_batch(3, 5, &device, &mut rng).unwrap();
    let inputs: Vec<Vec<u32>> = inputs.to_vec2().unwrap();
    let targets: Vec<Vec<u32>> = targets.to_vec2().unwrap();
    for (inp, tgt) in inputs.iter().zip(targets.iter()) {
        // the alphabet repeats, so a window is consecutive letters mod 26
        for j in 0..5 {
            assert_eq!(tgt[j], (inp[j] + 1) % 26);
            if j + 1 < 5 {
                assert_eq!(inp[j + 1], tgt[j]);
            }
        }
    }
}

#[test]
fn from_text_keeps_the_tokens_of_the_text() {
    let tok = Tokenizer::from_corpus("abcdefgh");
    let ds = Dataset::from_text("hgaz", &tok);
    let (inputs, targets) = ds.batch_from_draws(2, &[0, 1]);
    // stream [7, 6, 0]: only one window of 3 tokens, at 0
    assert_eq!(inputs, vec![7, 6, 7, 6]);
    assert_eq!(targets, vec![6, 0, 6, 0]);
}

#[test]
fn draws_pick_window_starts_modulo_the_room_left() {
    let tok = Tokenizer::from_corpus("abcdefgh");
    let ds = Dataset::from_text("abcdefgh", &tok);
    // 8 tokens, windows of 3 + 1: starts 0..=4, draw d picks d % 5
    let (inputs, targets) = ds.batch_from_draws(3, &[0, 5, 9, 13]);
    assert_eq!(inputs, vec![0, 1, 2, 0, 1, 2, 4, 5, 6, 3, 4, 5]);
    assert_eq!(targets, vec![1, 2, 3, 1, 2, 3, 5, 6, 7, 4, 5, 6]);
}

#[test]
fn same_seed_gives_same_batch() {
    let text = "the quick brown fox jumps over the lazy dog ".repeat(5);
    let tok = Tokenizer::from_corpus(&text);
    let ds = Dataset::from_text(&text, &tok);
    let device = Device::Cpu;
    let mut rng1 = rand::rngs::StdRng::seed_from_u64(3);
    let mut rng2 = rand::rngs::StdRng::seed_from_u64(3);
    let (a, _) = ds.random_batch(2, 6, &device, &mut rng1).unwrap();
    let (b, _) = ds.random_batch(2, 6, &device, &mut rng2).unwrap();
    let a: Vec<u32> = a.flatten_all().unwrap().to_vec1().unwrap();
    let b: Vec<u32> = b.flatten_all().unwrap().to_vec1().unwrap();
    assert_eq!(a, b);
}
