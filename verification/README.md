# ternary_language_model

N-gram language modelling over balanced ternary symbols (−1, 0, +1), verified with Verus.

- `src/trit.rs` — the `Trit` symbol and its value.
- `src/balanced.rs` — balanced ternary numerals: the six-trit numeral of a byte and reading a numeral back.
- `src/keyed_map.rs` — a small map with no duplicate keys, used for string and context keys.
- `src/token.rs`, `src/tokenizer.rs` — trit tokens, byte-wise text encoding/decoding, named tokens.
- `src/vocabulary.rs` — string ↔ id vocabulary with dense ids.
- `src/transition.rs` — counts of successors of one context, exact probabilities, argmax sampling.
- `src/ngram.rs` — the n-gram model: training, prediction, generation, per-n-gram probabilities.
- `app/lib.rs` — the floating-point scores (probabilities as `f64`, temperature sampling, perplexity, cross-entropy).
