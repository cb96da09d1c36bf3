//! Encoding text as balanced ternary tokens, one token per byte, and a
//! vocabulary of named tokens.

use vstd::prelude::*;
use vstd::string::*;
use crate::balanced::{
    MAX_NUMERAL_LEN, is_byte_numeral, numeral_char, byte_to_trits, trits_to_char,
    balanced_value, place_value_sum, lemma_value_is_place_value_sum,
};
use crate::keyed_map::KeyedMap;
use crate::token::TritToken;

verus! {

/// Tokenizer that converts strings to ternary token sequences.
pub struct TernaryTokenizer {
    pub vocab: KeyedMap<String, TritToken>,
}

/// `tokens` is the encoding of `bytes`: one token per byte, each the byte's
/// six-trit balanced ternary numeral.
pub open spec fn encodes(bytes: Seq<u8>, tokens: Seq<TritToken>) -> bool {
    &&& tokens.len() == bytes.len()
    &&& forall|i: int| 0 <= i < bytes.len() ==> is_byte_numeral(#[trigger] tokens[i]@, bytes[i])
}

/// The text that `tokens` decode to: one character per token.
pub open spec fn decoded(tokens: Seq<TritToken>) -> Seq<char> {
    Seq::new(tokens.len(), |i: int| numeral_char(tokens[i]@))
}

/// Every token is short enough to be decoded.
pub open spec fn decodable(tokens: Seq<TritToken>) -> bool {
    forall|i: int| 0 <= i < tokens.len() ==> (#[trigger] tokens[i]@).len() <= MAX_NUMERAL_LEN
}

/// `String::push`: appends one character.
#[verifier::external_body]
fn push_char(s: &mut String, c: char)
    ensures
        final(s)@ == old(s)@.push(c),
{
    s.push(c);
}

impl TernaryTokenizer {
    pub fn new() -> (t: Self)
        ensures
            t.vocab@ == Map::<Seq<char>, TritToken>::empty(),
    {
        Self { vocab: KeyedMap::new() }
    }

    /// Encode a string byte by byte into ternary tokens.
    /// Each byte maps to six trits via its balanced ternary numeral.
    pub fn encode(&self, text: &str) -> (tokens: Vec<TritToken>)
        ensures
            encodes(text.spec_bytes(), tokens@),
    {
        let bytes = text.as_bytes();
        let mut tokens: Vec<TritToken> = Vec::new();
        let mut i: usize = 0;
        while i < bytes.len()
            invariant
                bytes@ == text.spec_bytes(),
                i <= bytes@.len(),
                encodes(bytes@.take(i as int), tokens@),
            decreases bytes@.len() - i,
        {
            let token = TritToken::new(byte_to_trits(bytes[i]));
            tokens.push(token);
            i = i + 1;
            proof {
                let done = bytes@.take(i as int);
                assert forall|j: int| 0 <= j < done.len() implies is_byte_numeral(
                    #[trigger] tokens@[j]@,
                    done[j],
                ) by {
                    assert(done[j] == bytes@[j]);
                    if j < i - 1 {
                        assert(bytes@.take(i - 1)[j] == bytes@[j]);
                    }
                }
            }
        }
        assert(bytes@.take(i as int) =~= bytes@);
        tokens
    }

    /// Decode ternary tokens back to a string, one character per token.
    pub fn decode(&self, tokens: &[TritToken]) -> (text: String)
        requires
            decodable(tokens@),
        ensures
            text@ == decoded(tokens@),
            text@.len() == tokens@.len(),
            forall|i: int|
                0 <= i < tokens@.len() ==> #[trigger] text@[i] as int == place_value_sum(
                    tokens@[i]@,
                ) % 256,
    {
        let mut text = String::new();
        let mut i: usize = 0;
        while i < tokens.len()
            invariant
                decodable(tokens@),
                i <= tokens@.len(),
                text@ == decoded(tokens@).take(i as int),
            decreases tokens@.len() - i,
        {
            assert(tokens@[i as int]@.len() <= MAX_NUMERAL_LEN);
            let c = trits_to_char(&tokens[i].trits);
            push_char(&mut text, c);
            i = i + 1;
            assert(text@ =~= decoded(tokens@).take(i as int));
        }
        assert(decoded(tokens@).take(i as int) =~= decoded(tokens@));
        proof {
            lemma_decoded_chars(tokens@);
        }
        text
    }

    /// Add a named token to the vocabulary.
    pub fn add_vocab(&mut self, name: &str, token: TritToken)
        ensures
            final(self).vocab@ == old(self).vocab@.insert(name@, token),
    {
        self.vocab.insert(name.to_owned(), token);
    }

    /// Look up a named token.
    pub fn get_vocab(&self, name: &str) -> (r: Option<&TritToken>)
        ensures
            match r {
                Some(t) => self.vocab@.contains_key(name@) && *t == self.vocab@[name@],
                None => !self.vocab@.contains_key(name@),
            },
    {
        self.vocab.get(&name.to_owned())
    }
}

impl Default for TernaryTokenizer {
    fn default() -> (t: Self)
        ensures
            t.vocab@ == Map::<Seq<char>, TritToken>::empty(),
    {
        Self::new()
    }
}

/// Decoding the encoding of any text gives its bytes, each read as the
/// character with that code.
pub proof fn lemma_decode_encode(bytes: Seq<u8>, tokens: Seq<TritToken>)
    requires
        encodes(bytes, tokens),
    ensures
        decodable(tokens),
        decoded(tokens) == bytes.map_values(|b: u8| b as char),
{
    assert forall|i: int| 0 <= i < tokens.len() implies decoded(tokens)[i] == bytes.map_values(
        |b: u8| b as char,
    )[i] by {
        assert(is_byte_numeral(tokens[i]@, bytes[i]));
        assert(balanced_value(tokens[i]@) == bytes[i] as int);
    }
    assert(decoded(tokens) =~= bytes.map_values(|b: u8| b as char));
}

/// Decoding the encoding of an ASCII text gives the text back.
pub proof fn lemma_ascii_roundtrip(text: &str, tokens: Seq<TritToken>)
    requires
        is_ascii(text),
        encodes(text.spec_bytes(), tokens),
    ensures
        decodable(tokens),
        decoded(tokens) == text@,
{
    broadcast use is_ascii_spec_bytes;

    lemma_decode_encode(text.spec_bytes(), tokens);
    assert forall|i: int| 0 <= i < text@.len() implies decoded(tokens)[i] == text@[i] by {
        let c = text@[i];
        assert('\0' <= c <= '\u{7f}');
        assert(text.spec_bytes()[i] == c as u8);
        assert(((c as u8) as char) == c);
    }
    assert(decoded(tokens) =~= text@);
}

/// After a named token is added, looking the name up gives that token, and
/// looking up any other name gives what it gave before.
pub proof fn lemma_vocab_read_after_write(
    before: Map<Seq<char>, TritToken>,
    name: Seq<char>,
    token: TritToken,
    other: Seq<char>,
)
    ensures
        before.insert(name, token).contains_key(name),
        before.insert(name, token)[name] == token,
        other != name ==> (before.insert(name, token).contains_key(other) <==> before.contains_key(
            other,
        )),
        other != name && before.contains_key(other) ==> before.insert(name, token)[other]
            == before[other],
{
}

/// Each decoded character is the sum of its token's trits times their place
/// values (the first trit having place value 1), modulo 256, whatever the
/// token's length.
pub proof fn lemma_decoded_chars(tokens: Seq<TritToken>)
    ensures
        decoded(tokens).len() == tokens.len(),
        forall|i: int|
            0 <= i < tokens.len() ==> #[trigger] decoded(tokens)[i] as int == place_value_sum(
                tokens[i]@,
            ) % 256,
{
    assert forall|i: int| 0 <= i < tokens.len() implies #[trigger] decoded(tokens)[i] as int
        == place_value_sum(tokens[i]@) % 256 by {
        lemma_value_is_place_value_sum(tokens[i]@);
        let v = balanced_value(tokens[i]@) % 256;
        assert(0 <= v < 256);
        assert(((v as u8) as char) as int == v);
    }
}

} // verus!
