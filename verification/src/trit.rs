//! The ternary symbol and its numeric value.

use vstd::prelude::*;

verus! {

/// A ternary value: -1, 0, or +1.
#[derive(Clone, Copy, Debug, PartialEq, Eq, Hash, Structural)]
pub enum Trit {
    Neg,
    Zero,
    Pos,
}

/// The integer that a trit stands for.
pub open spec fn trit_value(t: Trit) -> int {
    match t {
        Trit::Neg => -1,
        Trit::Zero => 0,
        Trit::Pos => 1,
    }
}

/// The trit whose value is `v`, if `v` is one of -1, 0, 1.
pub open spec fn trit_of_value(v: int) -> Option<Trit> {
    if v == -1 {
        Some(Trit::Neg)
    } else if v == 0 {
        Some(Trit::Zero)
    } else if v == 1 {
        Some(Trit::Pos)
    } else {
        None
    }
}

impl Trit {
    pub fn value(self) -> (v: i8)
        ensures
            v as int == trit_value(self),
    {
        match self {
            Trit::Neg => -1,
            Trit::Zero => 0,
            Trit::Pos => 1,
        }
    }

    pub fn from_value(v: i8) -> (t: Option<Self>)
        ensures
            t == trit_of_value(v as int),
    {
        match v {
            -1 => Some(Trit::Neg),
            0 => Some(Trit::Zero),
            1 => Some(Trit::Pos),
            _ => None,
        }
    }
}

/// Reading a trit's value back gives the trit, and every value that reads
/// back as a trit is that trit's value.
pub proof fn lemma_value_roundtrip(t: Trit, v: int)
    ensures
        trit_of_value(trit_value(t)) == Some(t),
        trit_of_value(v) == Some(t) <==> trit_value(t) == v,
{
}

} // verus!
