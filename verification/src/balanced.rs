//! Balanced ternary numerals: the value of a trit sequence (least
//! significant trit first), the six-trit numeral of a byte, and reading a
//! numeral back as a byte.

use vstd::prelude::*;
use crate::trit::{Trit, trit_value};

verus! {

/// Number of trits in the numeral of one byte.
pub const TRITS_PER_BYTE: usize = 6;

/// Longest numeral that `numeral_value` reads: its place values must fit in an `i32`.
pub const MAX_NUMERAL_LEN: usize = 19;

/// Three to the power `k`.
pub open spec fn pow3(k: nat) -> int
    decreases k,
{
    if k == 0 {
        1
    } else {
        3 * pow3((k - 1) as nat)
    }
}

/// The number that a balanced ternary numeral stands for; `trits[0]` has place value 1,
/// `trits[1]` place value 3, and so on.
pub open spec fn balanced_value(trits: Seq<Trit>) -> int
    decreases trits.len(),
{
    if trits.len() == 0 {
        0
    } else {
        trit_value(trits[0]) + 3 * balanced_value(trits.drop_first())
    }
}

/// `trits` is the six-trit balanced ternary numeral of the byte `b`.
pub open spec fn is_byte_numeral(trits: Seq<Trit>, b: u8) -> bool {
    trits.len() == TRITS_PER_BYTE && balanced_value(trits) == b as int
}

/// The character that a numeral is read back as: its value modulo 256, as a byte.
pub open spec fn numeral_char(trits: Seq<Trit>) -> char {
    ((balanced_value(trits) % 256) as u8) as char
}

/// The sum over all places `i` of `trit_value(trits[i]) * 3^i`.
pub open spec fn place_value_sum(trits: Seq<Trit>) -> int
    decreases trits.len(),
{
    if trits.len() == 0 {
        0
    } else {
        place_value_sum(trits.drop_last()) + trit_value(trits.last()) * pow3(
            (trits.len() - 1) as nat,
        )
    }
}

pub proof fn lemma_pow3_positive(k: nat)
    ensures
        pow3(k) >= 1,
    decreases k,
{
    if k > 0 {
        lemma_pow3_positive((k - 1) as nat);
    }
}

pub proof fn lemma_pow3_monotonic(i: nat, j: nat)
    requires
        i <= j,
    ensures
        pow3(i) <= pow3(j),
    decreases j,
{
    if i < j {
        lemma_pow3_monotonic(i, (j - 1) as nat);
        lemma_pow3_positive((j - 1) as nat);
    }
}

/// Appending a trit adds its value times the next place value.
pub proof fn lemma_value_push(s: Seq<Trit>, t: Trit)
    ensures
        balanced_value(s.push(t)) == balanced_value(s) + trit_value(t) * pow3(s.len()),
    decreases s.len(),
{
    if s.len() == 0 {
        assert(s.push(t).drop_first() =~= Seq::<Trit>::empty());
        assert(balanced_value(Seq::<Trit>::empty()) == 0);
        assert(pow3(0) == 1);
    } else {
        assert(s.push(t).drop_first() =~= s.drop_first().push(t));
        lemma_value_push(s.drop_first(), t);
        let p = pow3(s.drop_first().len());
        assert(3 * (trit_value(t) * p) == trit_value(t) * (3 * p)) by (nonlinear_arith);
        assert(pow3(s.len()) == 3 * p);
        assert(s.push(t)[0] == s[0]);
    }
}

/// A numeral stands for the sum of its trits times their place values, the
/// first trit having place value 1.
pub proof fn lemma_value_is_place_value_sum(s: Seq<Trit>)
    ensures
        balanced_value(s) == place_value_sum(s),
    decreases s.len(),
{
    if s.len() > 0 {
        lemma_value_is_place_value_sum(s.drop_last());
        lemma_value_push(s.drop_last(), s.last());
        assert(s.drop_last().push(s.last()) =~= s);
    }
}

/// A numeral of `k` trits stands for a number of magnitude at most `(3^k - 1) / 2`.
pub proof fn lemma_value_bound(s: Seq<Trit>)
    ensures
        2 * balanced_value(s) <= pow3(s.len()) - 1,
        2 * balanced_value(s) >= 1 - pow3(s.len()),
    decreases s.len(),
{
    if s.len() > 0 {
        lemma_value_bound(s.drop_first());
    }
}

/// Two balanced ternary numerals of one length that stand for one number are equal.
pub proof fn lemma_numeral_unique(a: Seq<Trit>, b: Seq<Trit>)
    requires
        a.len() == b.len(),
        balanced_value(a) == balanced_value(b),
    ensures
        a == b,
    decreases a.len(),
{
    if a.len() > 0 {
        let ra = balanced_value(a.drop_first());
        let rb = balanced_value(b.drop_first());
        // The first trit is the value's residue, taken in -1..=1.
        assert(trit_value(a[0]) == trit_value(b[0]) && ra == rb) by {
            let x = trit_value(a[0]);
            let y = trit_value(b[0]);
            assert(x + 3 * ra == y + 3 * rb);
            assert(x - y == 3 * (rb - ra));
        }
        assert(a[0] == b[0]);
        lemma_numeral_unique(a.drop_first(), b.drop_first());
        assert(a =~= seq![a[0]] + a.drop_first());
        assert(b =~= seq![b[0]] + b.drop_first());
    }
}

/// Each byte has exactly one six-trit balanced ternary numeral.
pub proof fn lemma_byte_numeral_unique(a: Seq<Trit>, b: Seq<Trit>, v: u8)
    requires
        is_byte_numeral(a, v),
        is_byte_numeral(b, v),
    ensures
        a == b,
{
    lemma_numeral_unique(a, b);
}

/// The six-trit balanced ternary numeral of a byte, least significant trit first.
pub fn byte_to_trits(b: u8) -> (trits: Vec<Trit>)
    ensures
        is_byte_numeral(trits@, b),
{
    let mut trits: Vec<Trit> = Vec::new();
    let mut val: i32 = b as i32;
    let mut i: usize = 0;
    while i < TRITS_PER_BYTE
        invariant
            i <= TRITS_PER_BYTE,
            trits@.len() == i,
            0 <= val <= 255,
            b as int == balanced_value(trits@) + pow3(i as nat) * val,
        decreases TRITS_PER_BYTE - i,
    {
        let rem = val % 3;
        let ghost old_trits = trits@;
        let ghost old_val = val as int;
        val = val / 3;
        let t = if rem == 0 {
            Trit::Zero
        } else if rem == 1 {
            Trit::Pos
        } else {
            val = val + 1;
            Trit::Neg
        };
        trits.push(t);
        proof {
            lemma_value_push(old_trits, t);
            let p = pow3(i as nat);
            assert(old_val == 3 * val + trit_value(t));
            assert(p * old_val == trit_value(t) * p + (3 * p) * val) by (nonlinear_arith)
                requires
                    old_val == 3 * val + trit_value(t),
            ;
        }
        i = i + 1;
    }
    proof {
        lemma_value_bound(trits@);
        reveal_with_fuel(pow3, 7);
        assert(pow3(6) == 729);
    }
    trits
}

/// Reads a numeral back: its value, truncated to a byte, as a character.
pub fn trits_to_char(trits: &Vec<Trit>) -> (c: char)
    requires
        trits@.len() <= MAX_NUMERAL_LEN,
    ensures
        c == numeral_char(trits@),
        c as int == place_value_sum(trits@) % 256,
{
    let mut val: i32 = 0;
    let mut pow: i32 = 1;
    let mut i: usize = 0;
    proof {
        reveal_with_fuel(pow3, 20);
        assert(pow3(19) == 1162261467);
    }
    while i < trits.len()
        invariant
            i <= trits@.len() <= MAX_NUMERAL_LEN,
            pow3(19) == 1162261467,
            val == balanced_value(trits@.take(i as int)),
            pow == pow3(i as nat),
        decreases trits@.len() - i,
    {
        let t = trits[i];
        proof {
            assert(trits@.take(i + 1) =~= trits@.take(i as int).push(t));
            lemma_value_push(trits@.take(i as int), t);
            lemma_value_bound(trits@.take(i as int));
            lemma_pow3_monotonic((i + 1) as nat, 19);
        }
        let v = t.value() as i32;
        proof {
            lemma_pow3_positive(i as nat);
            assert(-(pow as int) <= v * pow <= pow) by (nonlinear_arith)
                requires
                    -1 <= v <= 1,
                    pow >= 0,
            ;
            assert(v * pow == trit_value(t) * pow3(i as nat));
        }
        val = val + v * pow;
        pow = pow * 3;
        i = i + 1;
    }
    assert(trits@.take(i as int) =~= trits@);
    assert((val as u8) as int == (val as int) % 256) by (bit_vector);
    proof {
        lemma_value_is_place_value_sum(trits@);
    }
    (#[verifier::truncate] (val as u8)) as char
}

} // verus!
