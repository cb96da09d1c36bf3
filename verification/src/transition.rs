//! Counts of the trits that followed one context, and what they predict.

use vstd::prelude::*;
use crate::trit::Trit;

verus! {

/// Slot of a trit in a table of counts: Neg, Zero, Pos in that order.
pub open spec fn trit_slot(t: Trit) -> int {
    match t {
        Trit::Neg => 0,
        Trit::Zero => 1,
        Trit::Pos => 2,
    }
}

/// The trit counted in a slot; slots past the last count as Pos.
pub open spec fn slot_trit(i: int) -> Trit {
    if i == 0 {
        Trit::Neg
    } else if i == 1 {
        Trit::Zero
    } else {
        Trit::Pos
    }
}

fn trit_index(t: Trit) -> (i: usize)
    ensures
        i == trit_slot(t),
{
    match t {
        Trit::Neg => 0,
        Trit::Zero => 1,
        Trit::Pos => 2,
    }
}

fn idx_to_trit(i: usize) -> (t: Trit)
    ensures
        t == slot_trit(i as int),
{
    match i {
        0 => Trit::Neg,
        1 => Trit::Zero,
        _ => Trit::Pos,
    }
}

/// The trit with the largest of three counts (Neg, Zero, Pos), the later
/// one winning a tie.
pub open spec fn most_frequent(neg: int, zero: int, pos: int) -> Trit {
    if pos >= zero && pos >= neg {
        Trit::Pos
    } else if zero >= neg {
        Trit::Zero
    } else {
        Trit::Neg
    }
}

/// Ternary transition counts for an n-gram model.
#[derive(Clone, Copy, Debug)]
pub struct TernaryTransition {
    /// Index 0 counts Neg, 1 counts Zero, 2 counts Pos.
    pub counts: [u64; 3],
    pub total: u64,
}

impl TernaryTransition {
    /// How often `t` was observed.
    pub open spec fn count(&self, t: Trit) -> u64 {
        self.counts@[trit_slot(t)]
    }

    /// The total is the sum of the three counts.
    pub open spec fn wf(&self) -> bool {
        self.total == self.counts@[0] + self.counts@[1] + self.counts@[2]
    }

    /// Probability of `t` as a fraction (numerator, denominator): its share of
    /// the observations, or one third when nothing was observed.
    pub open spec fn spec_probability(&self, t: Trit) -> (u64, u64) {
        if self.total == 0 {
            (1, 3)
        } else {
            (self.count(t), self.total)
        }
    }

    /// The most frequently observed trit, the later slot winning a tie;
    /// Zero when nothing was observed.
    pub open spec fn spec_sample(&self) -> Trit {
        if self.total == 0 {
            Trit::Zero
        } else {
            most_frequent(
                self.counts@[0] as int,
                self.counts@[1] as int,
                self.counts@[2] as int,
            )
        }
    }

    pub fn new() -> (t: Self)
        ensures
            t.counts@ == seq![0u64, 0u64, 0u64],
            t.total == 0,
    {
        Self { counts: [0, 0, 0], total: 0 }
    }

    /// Records one more observation of `trit`.
    pub fn observe(&mut self, trit: Trit)
        requires
            old(self).total < u64::MAX,
            old(self).count(trit) < u64::MAX,
        ensures
            final(self).counts@ == old(self).counts@.update(
                trit_slot(trit),
                (old(self).count(trit) + 1) as u64,
            ),
            final(self).total == old(self).total + 1,
            observed(*old(self), *final(self), trit),
    {
        let idx = trit_index(trit);
        let c = self.counts[idx];
        self.counts[idx] = c + 1;
        self.total = self.total + 1;
    }

    /// Probability of `trit` as an exact fraction (numerator, denominator).
    pub fn probability_fraction(&self, trit: Trit) -> (p: (u64, u64))
        ensures
            p == self.spec_probability(trit),
            self.total == 0 ==> p == (1u64, 3u64),
            self.total > 0 ==> p.0 == self.counts@[trit_slot(trit)] && p.1 == self.total,
    {
        if self.total == 0 {
            (1, 3)
        } else {
            (self.counts[trit_index(trit)], self.total)
        }
    }

    /// The most probable trit (deterministic sampling).
    pub fn sample(&self) -> (t: Trit)
        ensures
            t == self.spec_sample(),
    {
        if self.total == 0 {
            return Trit::Zero;
        }
        let mut best: usize = 0;
        if self.counts[1] >= self.counts[best] {
            best = 1;
        }
        if self.counts[2] >= self.counts[best] {
            best = 2;
        }
        idx_to_trit(best)
    }
}

impl Default for TernaryTransition {
    fn default() -> (t: Self)
        ensures
            t.counts@ == seq![0u64, 0u64, 0u64],
            t.total == 0,
    {
        Self::new()
    }
}

/// The probabilities that a transition gives the three trits add up to one.
pub proof fn lemma_probabilities_sum_to_one(t: TernaryTransition)
    requires
        t.wf(),
    ensures
        t.spec_probability(Trit::Neg).1 == t.spec_probability(Trit::Zero).1,
        t.spec_probability(Trit::Neg).1 == t.spec_probability(Trit::Pos).1,
        t.spec_probability(Trit::Neg).1 > 0,
        t.spec_probability(Trit::Neg).0 + t.spec_probability(Trit::Zero).0
            + t.spec_probability(Trit::Pos).0 == t.spec_probability(Trit::Neg).1,
{
}

/// The sampled trit was observed at least as often as any other, and more
/// often than every trit in a later slot.
pub proof fn lemma_sample_is_most_frequent(tr: TernaryTransition, t: Trit)
    requires
        tr.total > 0,
    ensures
        tr.count(tr.spec_sample()) >= tr.count(t),
        trit_slot(t) > trit_slot(tr.spec_sample()) ==> tr.count(tr.spec_sample()) > tr.count(t),
{
}

/// How many of the observations in `obs` are `t`.
pub open spec fn occurrences(obs: Seq<Trit>, t: Trit) -> nat
    decreases obs.len(),
{
    if obs.len() == 0 {
        0
    } else {
        occurrences(obs.drop_last(), t) + if obs.last() == t {
            1nat
        } else {
            0nat
        }
    }
}

/// `after` is `before` with one more observation of `t`, as `observe` leaves it.
pub open spec fn observed(before: TernaryTransition, after: TernaryTransition, t: Trit) -> bool {
    &&& after.counts@ == before.counts@.update(trit_slot(t), (before.count(t) + 1) as u64)
    &&& after.total == before.total + 1
}

/// One more observation of `t` adds one to the numerator of `t` and to the
/// denominator, and leaves the numerators of the other trits as they were;
/// the first observation gives `t` probability one and the others zero.
pub proof fn lemma_observe_probability(a: TernaryTransition, b: TernaryTransition, t: Trit, u: Trit)
    requires
        a.wf(),
        a.total < u64::MAX,
        observed(a, b, t),
    ensures
        b.spec_probability(u) == if a.total == 0 {
            (if u == t {
                1u64
            } else {
                0u64
            }, 1u64)
        } else {
            ((a.spec_probability(u).0 + if u == t {
                1int
            } else {
                0int
            }) as u64, (a.total + 1) as u64)
        },
{
    assert(a.count(t) <= a.total);
    if u != t {
        assert(trit_slot(u) != trit_slot(t));
    }
}

proof fn lemma_history_counts(obs: Seq<Trit>, trs: Seq<TernaryTransition>, i: int)
    requires
        0 <= i <= obs.len(),
        obs.len() < u64::MAX,
        trs.len() == obs.len() + 1,
        trs[0].counts@ == seq![0u64, 0u64, 0u64],
        trs[0].total == 0,
        forall|k: int| 0 <= k < obs.len() ==> #[trigger] observed(trs[k], trs[k + 1], obs[k]),
    ensures
        trs[i].total == i,
        forall|u: Trit| #[trigger] trs[i].count(u) == occurrences(obs.take(i), u),
    decreases i,
{
    if i == 0 {
        assert forall|u: Trit| #[trigger] trs[i].count(u) == occurrences(obs.take(i), u) by {
            assert(obs.take(0).len() == 0);
        }
    } else {
        lemma_history_counts(obs, trs, i - 1);
        let k = i - 1;
        assert(observed(trs[k], trs[k + 1], obs[k]));
        assert(k + 1 == i);
        assert forall|u: Trit| #[trigger] trs[i].count(u) == occurrences(obs.take(i), u) by {
            assert(obs.take(i).drop_last() =~= obs.take(i - 1));
            assert(obs.take(i).last() == obs[i - 1]);
            assert(occurrences(obs.take(i - 1), u) <= i - 1) by {
                lemma_occurrences_bounded(obs.take(i - 1), u);
            }
            assert(trs[k].count(u) == occurrences(obs.take(k), u));
            if u != obs[k] {
                assert(trit_slot(u) != trit_slot(obs[k]));
                assert(trs[i].count(u) == trs[k].count(u));
            } else {
                assert(trs[i].count(u) == trs[k].count(u) + 1);
            }
            assert(occurrences(obs.take(i), u) == occurrences(obs.take(k), u) + if obs[k] == u {
                1nat
            } else {
                0nat
            });
        }
    }
}

proof fn lemma_occurrences_bounded(obs: Seq<Trit>, t: Trit)
    ensures
        occurrences(obs, t) <= obs.len(),
    decreases obs.len(),
{
    if obs.len() > 0 {
        lemma_occurrences_bounded(obs.drop_last(), t);
    }
}

/// A transition made by `new` and then `observe` on each trit of `obs` in
/// turn gives each trit probability (times it was observed, number of
/// observations), and one third to each when nothing was observed.
pub proof fn lemma_probability_is_observed_share(obs: Seq<Trit>, trs: Seq<TernaryTransition>, u: Trit)
    requires
        obs.len() < u64::MAX,
        trs.len() == obs.len() + 1,
        trs[0].counts@ == seq![0u64, 0u64, 0u64],
        trs[0].total == 0,
        forall|k: int| 0 <= k < obs.len() ==> #[trigger] observed(trs[k], trs[k + 1], obs[k]),
    ensures
        trs.last().spec_probability(u) == if obs.len() == 0 {
            (1u64, 3u64)
        } else {
            (occurrences(obs, u) as u64, obs.len() as u64)
        },
{
    lemma_history_counts(obs, trs, obs.len() as int);
    assert(obs.take(obs.len() as int) =~= obs);
}

} // verus!
