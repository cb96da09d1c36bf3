//! Tokens made of trits.

use vstd::prelude::*;
use crate::trit::Trit;

verus! {

/// Token represented as a sequence of trits.
#[derive(Clone, Debug, PartialEq, Eq, Hash)]
pub struct TritToken {
    pub trits: Vec<Trit>,
}

impl View for TritToken {
    type V = Seq<Trit>;

    open spec fn view(&self) -> Seq<Trit> {
        self.trits@
    }
}

impl TritToken {
    pub fn new(trits: Vec<Trit>) -> (t: Self)
        ensures
            t.trits == trits,
    {
        Self { trits }
    }

    pub fn len(&self) -> (n: usize)
        ensures
            n == self@.len(),
    {
        self.trits.len()
    }

    pub fn is_empty(&self) -> (b: bool)
        ensures
            b == (self@.len() == 0),
    {
        self.trits.len() == 0
    }
}

} // verus!
