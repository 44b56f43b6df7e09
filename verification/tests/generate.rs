use tinygpt_rs::generate::GenerationState;
use tinygpt_rs::tokenizer::Tokenizer;

#[test]
fn generation_feeds_each_token_at_the_next_position() {
    let text = "abcdefghij".repeat(20);
    let tok = Tokenizer::from_corpus(&text);
    let mut st = GenerationState::start(&tok, "abc", 10);
    assert_eq!(st.prompt_len(), 3);
    assert_eq!(st.prompt_tokens(), vec![0, 1, 2]);
    let mut positions = Vec::new();
    let mut next = 0u32;
    while !st.is_done() {
        positions.push(st.push_token(next));
        next = (next + 3) % tok.vocab_size() as u32;
    }
    assert_eq!(positions, (3..13).collect::<Vec<usize>>());
    let out = st.text(&tok);
    assert_eq!(out.chars().count(), 3 + 10);
    assert_eq!(out, "abcadgjcfibeh");
}

#[test]
fn generation_with_no_new_tokens_is_done_at_once() {
    let tok = Tokenizer::from_corpus("xyz");
    let st = GenerationState::start(&tok, "zzq", 0);
    assert!(st.is_done());
    assert_eq!(st.prompt_tokens(), vec![2, 2]);
    assert_eq!(st.text(&tok), "zz");
}

#[test]
fn tokens_outside_the_vocabulary_are_detected_before_decoding() {
    let tok = Tokenizer::from_corpus("abc");
    let mut st = GenerationState::start(&tok, "ab", 2);
    assert!(st.tokens_known(&tok));
    st.push_token(2);
    assert!(st.tokens_known(&tok));
    st.push_token(7);
    assert!(st.is_done());
    assert!(!st.tokens_known(&tok));
    assert_eq!(st.tokens(), &[0, 1, 2, 7]);
    let bigger = Tokenizer::from_corpus("abcdefgh");
    assert!(st.tokens_known(&bigger));
    assert_eq!(st.text(&bigger), "abch");
}
