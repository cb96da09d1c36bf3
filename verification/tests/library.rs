use ternary_language_model::{
    TernaryNgramModel, TernaryTokenizer, TernaryTransition, TernaryVocabulary, Trit, TritToken,
};

#[test]
fn test_trit_values() {
    assert_eq!(Trit::Neg.value(), -1);
    assert_eq!(Trit::Zero.value(), 0);
    assert_eq!(Trit::Pos.value(), 1);
}

#[test]
fn test_trit_from_value() {
    assert_eq!(Trit::from_value(-1), Some(Trit::Neg));
    assert_eq!(Trit::from_value(0), Some(Trit::Zero));
    assert_eq!(Trit::from_value(1), Some(Trit::Pos));
    assert_eq!(Trit::from_value(2), None);
}

#[test]
fn test_trit_token_len() {
    let tok = TritToken::new(vec![Trit::Pos, Trit::Zero, Trit::Neg]);
    assert_eq!(tok.len(), 3);
    assert!(!tok.is_empty());
}

#[test]
fn test_trit_token_empty() {
    let tok = TritToken::new(vec![]);
    assert!(tok.is_empty());
}

#[test]
fn test_tokenizer_encode_decode_roundtrip() {
    let tok = TernaryTokenizer::new();
    let text = "hello";
    let encoded = tok.encode(text);
    let decoded = tok.decode(&encoded);
    assert_eq!(decoded, text);
}

#[test]
fn test_tokenizer_encode_nonempty() {
    let tok = TernaryTokenizer::new();
    let encoded = tok.encode("ab");
    assert_eq!(encoded.len(), 2);
    for token in &encoded {
        assert_eq!(token.len(), 6); // 6 trits per byte
    }
}

#[test]
fn test_tokenizer_vocab() {
    let mut tok = TernaryTokenizer::new();
    let token = TritToken::new(vec![Trit::Pos, Trit::Neg]);
    tok.add_vocab("test", token.clone());
    assert_eq!(tok.get_vocab("test"), Some(&token));
    assert_eq!(tok.get_vocab("missing"), None);
}

#[test]
fn test_vocabulary_add() {
    let mut vocab = TernaryVocabulary::new();
    let id1 = vocab.add("hello");
    let id2 = vocab.add("world");
    let id3 = vocab.add("hello"); // duplicate
    assert_eq!(id1, id3);
    assert_ne!(id1, id2);
    assert_eq!(vocab.len(), 2);
}

#[test]
fn test_vocabulary_lookup() {
    let mut vocab = TernaryVocabulary::new();
    let id = vocab.add("foo");
    assert_eq!(vocab.get_id("foo"), Some(id));
    assert_eq!(vocab.get_id("bar"), None);
    assert_eq!(vocab.get_token(id), Some("foo"));
}

#[test]
fn test_vocabulary_empty() {
    let vocab = TernaryVocabulary::new();
    assert!(vocab.is_empty());
}

#[test]
fn test_transition_observe_and_probability() {
    let mut t = TernaryTransition::new();
    t.observe(Trit::Pos);
    t.observe(Trit::Pos);
    t.observe(Trit::Neg);
    // Probabilities as exact fractions: 2/3, 1/3 and 0.
    assert_eq!(t.probability_fraction(Trit::Pos), (2, 3));
    assert_eq!(t.probability_fraction(Trit::Neg), (1, 3));
    assert_eq!(t.probability_fraction(Trit::Zero), (0, 3));
}

#[test]
fn test_transition_default_probability() {
    let t = TernaryTransition::new();
    assert_eq!(t.probability_fraction(Trit::Neg), (1, 3));
    assert_eq!(t.probability_fraction(Trit::Zero), (1, 3));
    assert_eq!(t.probability_fraction(Trit::Pos), (1, 3));
}

#[test]
fn test_transition_sample() {
    let mut t = TernaryTransition::new();
    t.observe(Trit::Pos);
    assert_eq!(t.sample(), Trit::Pos);
}

#[test]
fn test_ngram_train_and_predict() {
    let mut model = TernaryNgramModel::new(2);
    let seq = vec![Trit::Pos, Trit::Pos, Trit::Pos, Trit::Pos];
    model.train(&seq);
    assert_eq!(model.predict(&[Trit::Pos]), Trit::Pos);
}

#[test]
fn test_ngram_generate() {
    let mut model = TernaryNgramModel::new(2);
    let seq = vec![Trit::Pos, Trit::Pos, Trit::Pos, Trit::Pos];
    model.train(&seq);
    let generated = model.generate(&[Trit::Pos], 5);
    assert!(generated.len() > 5);
    // All should be Pos given uniform training
    for t in &generated[1..] {
        assert_eq!(*t, Trit::Pos);
    }
}

#[test]
fn test_ngram_transition_count() {
    let mut model = TernaryNgramModel::new(2);
    let seq = vec![Trit::Pos, Trit::Neg, Trit::Zero, Trit::Pos];
    model.train(&seq);
    assert_eq!(model.transition_count(), 3);
}

#[test]
fn test_ngram_train_short_sequence() {
    let mut model = TernaryNgramModel::new(5);
    let seq = vec![Trit::Pos, Trit::Neg];
    model.train(&seq);
    assert_eq!(model.transition_count(), 0);
}

#[test]
fn test_generate_empty_seed() {
    let model = TernaryNgramModel::new(2);
    let result = model.generate(&[], 5);
    assert!(result.is_empty());
}
