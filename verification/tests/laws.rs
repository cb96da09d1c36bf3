use ternary_language_model::{
    KeyedMap, TernaryNgramModel, TernaryTokenizer, TernaryTransition, TernaryVocabulary, Trit,
    TritToken,
};

fn balanced_value(trits: &[Trit]) -> i64 {
    let mut v: i64 = 0;
    let mut p: i64 = 1;
    for t in trits {
        v += t.value() as i64 * p;
        p *= 3;
    }
    v
}

#[test]
fn trit_value_roundtrip_all() {
    for t in [Trit::Neg, Trit::Zero, Trit::Pos] {
        assert_eq!(Trit::from_value(t.value()), Some(t));
    }
    assert_eq!(Trit::from_value(-2), None);
    assert_eq!(Trit::from_value(127), None);
    assert_eq!(Trit::from_value(-128), None);
}

#[test]
fn encode_gives_exact_numerals() {
    let tok = TernaryTokenizer::new();
    let encoded = tok.encode("hi");
    assert_eq!(
        encoded[0].trits,
        vec![Trit::Neg, Trit::Neg, Trit::Zero, Trit::Pos, Trit::Pos, Trit::Zero]
    );
    assert_eq!(
        encoded[1].trits,
        vec![Trit::Zero, Trit::Neg, Trit::Zero, Trit::Pos, Trit::Pos, Trit::Zero]
    );
    assert_eq!(tok.decode(&encoded), "hi");
}

#[test]
fn encode_every_byte_value() {
    let tok = TernaryTokenizer::new();
    // All ASCII characters, one at a time: six trits whose value is the byte.
    for b in 0u8..128 {
        let s = String::from(b as char);
        let encoded = tok.encode(&s);
        assert_eq!(encoded.len(), 1);
        assert_eq!(encoded[0].len(), 6);
        assert_eq!(balanced_value(&encoded[0].trits), b as i64);
        assert_eq!(tok.decode(&encoded), s);
    }
}

#[test]
fn encode_extreme_bytes() {
    let tok = TernaryTokenizer::new();
    let encoded = tok.encode("\u{0}");
    assert_eq!(encoded[0].trits, vec![Trit::Zero; 6]);
    // U+00FF is the two bytes C3 BF in UTF-8.
    let encoded = tok.encode("\u{ff}");
    assert_eq!(encoded.len(), 2);
    assert_eq!(balanced_value(&encoded[0].trits), 0xC3);
    assert_eq!(balanced_value(&encoded[1].trits), 0xBF);
}

#[test]
fn decode_reads_non_ascii_bytes_as_latin1() {
    let tok = TernaryTokenizer::new();
    let encoded = tok.encode("é");
    assert_eq!(encoded.len(), 2);
    assert_eq!(tok.decode(&encoded), "\u{c3}\u{a9}");
}

#[test]
fn decode_truncates_to_a_byte() {
    let tok = TernaryTokenizer::new();
    // 1 + 3*1 + 9*1 + 27*1 + 81*1 + 243*0 + 729*0 ... = 121 -> 'y'
    let t = TritToken::new(vec![Trit::Pos, Trit::Pos, Trit::Pos, Trit::Pos, Trit::Pos]);
    assert_eq!(tok.decode(&[t]), "y");
    // 3 - 27 + 81 + 243 = 300, and 300 - 256 = 44 = ','
    let t = TritToken::new(vec![
        Trit::Zero, Trit::Pos, Trit::Zero, Trit::Neg, Trit::Pos, Trit::Pos,
    ]);
    assert_eq!(balanced_value(&t.trits), 300);
    assert_eq!(tok.decode(&[t]), ",");
    // -1 -> 255
    let t = TritToken::new(vec![Trit::Neg]);
    assert_eq!(tok.decode(&[t]), "\u{ff}");
    // The empty token is 0.
    let t = TritToken::new(vec![]);
    assert_eq!(tok.decode(&[t]), "\u{0}");
    // Nineteen trits is the longest token read.
    let t = TritToken::new(vec![Trit::Pos; 19]);
    assert_eq!(balanced_value(&t.trits) % 256, (581130733i64 % 256));
    assert_eq!(tok.decode(&[t]), String::from((581130733i64 % 256) as u8 as char));
}

#[test]
fn decode_empty_and_encode_empty() {
    let tok = TernaryTokenizer::default();
    assert!(tok.encode("").is_empty());
    assert_eq!(tok.decode(&[]), "");
}

#[test]
fn tokenizer_vocab_overwrite() {
    let mut tok = TernaryTokenizer::new();
    let a = TritToken::new(vec![Trit::Pos]);
    let b = TritToken::new(vec![Trit::Neg, Trit::Neg]);
    tok.add_vocab("x", a.clone());
    tok.add_vocab("y", a.clone());
    tok.add_vocab("x", b.clone());
    assert_eq!(tok.get_vocab("x"), Some(&b));
    assert_eq!(tok.get_vocab("y"), Some(&a));
    assert_eq!(tok.vocab.len(), 2);
}

#[test]
fn vocabulary_ids_are_dense_and_inverse() {
    let mut vocab = TernaryVocabulary::default();
    assert_eq!(vocab.add("a"), 0);
    assert_eq!(vocab.add("b"), 1);
    assert_eq!(vocab.add("a"), 0);
    assert_eq!(vocab.add("c"), 2);
    assert_eq!(vocab.len(), 3);
    assert!(!vocab.is_empty());
    for name in ["a", "b", "c"] {
        let id = vocab.get_id(name).unwrap();
        assert_eq!(vocab.get_token(id), Some(name));
    }
    assert_eq!(vocab.get_token(3), None);
    assert_eq!(vocab.get_id(""), None);
}

#[test]
fn transition_sample_ties_and_empty() {
    let t = TernaryTransition::default();
    assert_eq!(t.sample(), Trit::Zero);
    let mut t = TernaryTransition::new();
    t.observe(Trit::Neg);
    assert_eq!(t.sample(), Trit::Neg);
    t.observe(Trit::Zero);
    // Neg and Zero tie: the later one wins.
    assert_eq!(t.sample(), Trit::Zero);
    t.observe(Trit::Pos);
    assert_eq!(t.sample(), Trit::Pos);
    t.observe(Trit::Neg);
    assert_eq!(t.sample(), Trit::Neg);
    assert_eq!(t.counts, [2, 1, 1]);
    assert_eq!(t.total, 4);
}

#[test]
fn transition_probabilities_sum_to_one() {
    let mut t = TernaryTransition::new();
    for x in [Trit::Pos, Trit::Neg, Trit::Pos, Trit::Zero, Trit::Pos] {
        t.observe(x);
    }
    let (a, d) = t.probability_fraction(Trit::Neg);
    let (b, d2) = t.probability_fraction(Trit::Zero);
    let (c, d3) = t.probability_fraction(Trit::Pos);
    assert_eq!((d, d2, d3), (5, 5, 5));
    assert_eq!(a + b + c, d);
    assert_eq!(c, 3);
}

#[test]
fn train_counts_every_ngram() {
    let mut model = TernaryNgramModel::new(3);
    let seq = vec![Trit::Pos, Trit::Neg, Trit::Pos, Trit::Neg, Trit::Zero, Trit::Pos, Trit::Neg];
    model.train(&seq);
    // windows: [+,-]->+, [-,+]->-, [+,-]->0, [-,0]->+, [0,+]->-
    assert_eq!(model.transition_count(), 3 + 0 + 1);
    let t = model.transitions.get(&vec![Trit::Pos, Trit::Neg]).unwrap();
    assert_eq!(t.counts, [0, 1, 1]);
    assert_eq!(t.total, 2);
    assert_eq!(model.predict(&[Trit::Pos, Trit::Neg]), Trit::Pos);
    assert_eq!(model.predict(&[Trit::Neg, Trit::Zero]), Trit::Pos);
    assert_eq!(model.predict(&[Trit::Zero, Trit::Pos]), Trit::Neg);
    // Unseen contexts, and contexts of the wrong length, predict Zero.
    assert_eq!(model.predict(&[Trit::Zero, Trit::Zero]), Trit::Zero);
    assert_eq!(model.predict(&[Trit::Pos]), Trit::Zero);
    assert_eq!(model.order_counts.get(&3), Some(&5));
    // Training again adds to the counts.
    model.train(&seq);
    let t = model.transitions.get(&vec![Trit::Pos, Trit::Neg]).unwrap();
    assert_eq!(t.counts, [0, 2, 2]);
    assert_eq!(model.order_counts.get(&3), Some(&10));
    assert_eq!(model.transition_count(), 4);
}

#[test]
fn train_short_leaves_order_counts() {
    let mut model = TernaryNgramModel::new(3);
    model.train(&[Trit::Pos, Trit::Pos]);
    assert!(model.order_counts.is_empty());
    model.train(&[Trit::Pos, Trit::Pos, Trit::Pos]);
    assert_eq!(model.order_counts.get(&3), Some(&1));
}

#[test]
fn unigram_model_predicts_most_frequent() {
    let mut model = TernaryNgramModel::new(1);
    model.train(&[Trit::Neg, Trit::Zero, Trit::Neg, Trit::Pos]);
    assert_eq!(model.transition_count(), 1);
    assert_eq!(model.predict(&[]), Trit::Neg);
    assert_eq!(model.generate(&[], 3), vec![Trit::Neg, Trit::Neg, Trit::Neg]);
}

#[test]
fn generate_follows_predictions() {
    let mut model = TernaryNgramModel::new(2);
    // Pos -> Neg, Neg -> Zero, Zero -> Pos
    model.train(&[Trit::Pos, Trit::Neg, Trit::Zero, Trit::Pos, Trit::Neg, Trit::Zero]);
    let g = model.generate(&[Trit::Zero, Trit::Pos], 4);
    assert_eq!(
        g,
        vec![Trit::Zero, Trit::Pos, Trit::Neg, Trit::Zero, Trit::Pos, Trit::Neg]
    );
    assert_eq!(model.generate(&[Trit::Pos], 0), vec![Trit::Pos]);
    // An untrained model continues with Zero.
    let fresh = TernaryNgramModel::new(3);
    assert_eq!(fresh.generate(&[Trit::Pos, Trit::Pos], 2), vec![Trit::Pos, Trit::Pos, Trit::Zero, Trit::Zero]);
    assert!(fresh.generate(&[Trit::Pos], 2).is_empty());
}

#[test]
fn position_probabilities_per_ngram() {
    let mut model = TernaryNgramModel::new(2);
    model.train(&[Trit::Pos, Trit::Pos, Trit::Pos, Trit::Neg]);
    // After Pos: Pos twice, Neg once.
    let probs = model.position_probabilities(&[Trit::Pos, Trit::Pos, Trit::Neg, Trit::Zero, Trit::Zero]).unwrap();
    assert_eq!(probs, vec![(2, 3), (1, 3), (1, 3), (1, 3)]);
    let probs = model.position_probabilities(&[Trit::Pos, Trit::Zero]).unwrap();
    assert_eq!(probs, vec![(0, 3)]);
    assert_eq!(model.position_probabilities(&[Trit::Pos]), None);
    assert_eq!(model.position_probabilities(&[]), None);
}

#[test]
fn keyed_map_insert_get_len() {
    let mut m: KeyedMap<Vec<Trit>, u32> = KeyedMap::new();
    assert_eq!(m.len(), 0);
    m.insert(vec![Trit::Pos], 1);
    m.insert(vec![], 2);
    m.insert(vec![Trit::Pos], 3);
    assert_eq!(m.len(), 2);
    assert_eq!(m.get(&vec![Trit::Pos]), Some(&3));
    assert_eq!(m.get(&vec![]), Some(&2));
    assert_eq!(m.get(&vec![Trit::Neg]), None);
    assert_eq!(m.get(&vec![Trit::Pos, Trit::Pos]), None);
}
