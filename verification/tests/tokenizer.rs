use tinygpt_rs::tokenizer::Tokenizer;

#[test]
fn round_trips_text() {
    let tok = Tokenizer::from_corpus("hello world");
    let ids = tok.encode("hello world");
    assert_eq!(tok.decode(&ids), "hello world");
}

#[test]
fn vocab_size_matches_distinct_chars() {
    let tok = Tokenizer::from_corpus("aabbcc");
    assert_eq!(tok.vocab_size(), 3);
}

#[test]
fn encode_unknown_char_is_skipped() {
    let tok = Tokenizer::from_corpus("abc");
    let ids = tok.encode("abz");
    assert_eq!(ids.len(), 2); // 'z' not in vocab, dropped
}

#[test]
fn vocabulary_is_sorted_by_code_point() {
    let tok = Tokenizer::from_corpus("hello world");
    // distinct chars in order: ' ' d e h l o r w
    assert_eq!(tok.vocab_size(), 8);
    assert_eq!(tok.decode(&[0, 1, 2, 3, 4, 5, 6, 7]), " dehlorw");
    assert_eq!(tok.encode("hello world"), vec![3, 2, 4, 4, 5, 0, 7, 5, 6, 4, 1]);
}

#[test]
fn encode_skips_unknown_chars_in_place() {
    let tok = Tokenizer::from_corpus("abc");
    assert_eq!(tok.encode("abz"), vec![0, 1]);
    assert_eq!(tok.encode("zcza"), vec![2, 0]);
    assert_eq!(tok.encode(""), Vec::<u32>::new());
    assert_eq!(tok.decode(&tok.encode("xaybz")), "ab");
}

#[test]
fn encode_of_decode_gives_back_the_tokens() {
    let tok = Tokenizer::from_corpus("the quick brown fox");
    let ids = vec![4, 0, 10, 10, 3, 7];
    let text = tok.decode(&ids);
    assert_eq!(text.chars().count(), ids.len());
    assert_eq!(tok.encode(&text), ids);
}

#[test]
fn non_ascii_characters_are_tokens_too() {
    let tok = Tokenizer::from_corpus("héllo wörld é");
    assert_eq!(tok.vocab_size(), 9);
    let ids = tok.encode("wörld héllo");
    assert_eq!(tok.decode(&ids), "wörld héllo");
    // 'é' (U+00E9) and 'ö' (U+00F6) come after every ASCII letter
    assert_eq!(tok.encode("éö"), vec![7, 8]);
}

#[test]
fn empty_corpus_has_empty_vocabulary() {
    let tok = Tokenizer::from_corpus("");
    assert_eq!(tok.vocab_size(), 0);
    assert_eq!(tok.encode("abc"), Vec::<u32>::new());
    assert_eq!(tok.decode(&[]), "");
}

#[test]
fn vocabulary_depends_only_on_the_set_of_characters() {
    let a = Tokenizer::from_corpus("banana split");
    let b = Tokenizer::from_corpus("tilps ananab  nn");
    assert_eq!(a.vocab_size(), b.vocab_size());
    let all: Vec<u32> = (0..a.vocab_size() as u32).collect();
    assert_eq!(a.decode(&all), b.decode(&all));
    assert_eq!(a.decode(&all), " abilnpst");
}
