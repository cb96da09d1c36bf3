//! N-gram language modelling over balanced ternary symbols, with a
//! balanced-ternary byte tokenizer and a string/identifier vocabulary.

pub mod trit;
pub mod balanced;
pub mod keyed_map;
pub mod token;
pub mod tokenizer;
pub mod vocabulary;
pub mod transition;
pub mod ngram;

pub use trit::Trit;
pub use token::TritToken;
pub use keyed_map::{KeyedMap, MapKey};
pub use tokenizer::TernaryTokenizer;
pub use vocabulary::TernaryVocabulary;
pub use transition::TernaryTransition;
pub use ngram::TernaryNgramModel;
