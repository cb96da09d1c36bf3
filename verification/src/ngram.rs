//! An n-gram model over trits: each context of `n - 1` trits keeps counts of
//! the trits that followed it.

use vstd::prelude::*;
use std::collections::HashMap;
use crate::trit::Trit;
use crate::keyed_map::KeyedMap;
use crate::transition::{TernaryTransition, trit_slot, most_frequent};

verus! {

broadcast use vstd::std_specs::hash::group_hash_axioms;

/// Number of n-grams in a sequence of length `len`.
pub open spec fn window_total(len: int, n: int) -> int {
    if len < n {
        0
    } else {
        len - n + 1
    }
}

/// The context of the n-gram that starts at `i`: its first `n - 1` trits.
pub open spec fn window_context(seq: Seq<Trit>, n: int, i: int) -> Seq<Trit> {
    seq.subrange(i, i + n - 1)
}

/// The trit that ends the n-gram that starts at `i`.
pub open spec fn window_target(seq: Seq<Trit>, n: int, i: int) -> Trit {
    seq[i + n - 1]
}

/// How many of the first `k` n-grams of `seq` have context `ctx` and end in `t`.
pub open spec fn ngram_count(seq: Seq<Trit>, n: int, ctx: Seq<Trit>, t: Trit, k: nat) -> nat
    decreases k,
{
    if k == 0 {
        0
    } else {
        ngram_count(seq, n, ctx, t, (k - 1) as nat) + if seq.subrange(k - 1, k - 1 + n - 1) == ctx
            && seq[k - 1 + n - 1] == t {
            1nat
        } else {
            0nat
        }
    }
}

/// How many of the first `k` n-grams of `seq` have context `ctx`.
pub open spec fn context_count(seq: Seq<Trit>, n: int, ctx: Seq<Trit>, k: nat) -> nat
    decreases k,
{
    if k == 0 {
        0
    } else {
        context_count(seq, n, ctx, (k - 1) as nat) + if seq.subrange(k - 1, k - 1 + n - 1) == ctx {
            1nat
        } else {
            0nat
        }
    }
}

/// How often `t` followed `ctx` according to a table of transitions.
pub open spec fn table_count(m: Map<Seq<Trit>, TernaryTransition>, ctx: Seq<Trit>, t: Trit) -> int {
    if m.contains_key(ctx) {
        m[ctx].count(t) as int
    } else {
        0
    }
}

/// How often anything followed `ctx` according to a table of transitions.
pub open spec fn table_total(m: Map<Seq<Trit>, TernaryTransition>, ctx: Seq<Trit>) -> int {
    if m.contains_key(ctx) {
        m[ctx].total as int
    } else {
        0
    }
}

/// The trit predicted after `ctx`: the sample of its transition, or Zero for an unseen context.
pub open spec fn predicted(m: Map<Seq<Trit>, TernaryTransition>, ctx: Seq<Trit>) -> Trit {
    if m.contains_key(ctx) {
        m[ctx].spec_sample()
    } else {
        Trit::Zero
    }
}

/// Probability of `t` after `ctx` as a fraction; one third for an unseen context.
pub open spec fn context_probability(
    m: Map<Seq<Trit>, TernaryTransition>,
    ctx: Seq<Trit>,
    t: Trit,
) -> (u64, u64) {
    if m.contains_key(ctx) {
        m[ctx].spec_probability(t)
    } else {
        (1, 3)
    }
}

/// The share of the observations after `ctx` that were `t`, as a fraction:
/// (times `t` followed `ctx`, times anything followed `ctx`), or one third
/// when nothing is recorded after `ctx`.
pub open spec fn share_after(m: Map<Seq<Trit>, TernaryTransition>, ctx: Seq<Trit>, t: Trit) -> (
    u64,
    u64,
) {
    if table_total(m, ctx) > 0 {
        (table_count(m, ctx, t) as u64, table_total(m, ctx) as u64)
    } else {
        (1, 3)
    }
}

/// The probability of `t` after a context is the share of the recorded
/// observations after that very context that were `t`.
pub proof fn lemma_context_probability_is_share(
    m: Map<Seq<Trit>, TernaryTransition>,
    ctx: Seq<Trit>,
    t: Trit,
)
    ensures
        context_probability(m, ctx, t) == share_after(m, ctx, t),
{
}

/// For a model trained from no transitions on `s`, the probability reported
/// for the `j`-th n-gram of a test sequence `q` is (how many n-grams of `s`
/// have that n-gram's first `n - 1` trits, in order, and end in its last
/// trit, how many n-grams of `s` have those first `n - 1` trits), and one
/// third when no n-gram of `s` starts with them.
pub proof fn lemma_trained_position_probabilities(
    m: Map<Seq<Trit>, TernaryTransition>,
    s: Seq<Trit>,
    n: int,
    q: Seq<Trit>,
    v: Seq<(u64, u64)>,
)
    requires
        n >= 1,
        trained_upto(
            Map::<Seq<Trit>, TernaryTransition>::empty(),
            m,
            s,
            n,
            window_total(s.len() as int, n) as nat,
        ),
        v.len() == window_total(q.len() as int, n),
        forall|j: int|
            0 <= j < v.len() ==> #[trigger] v[j] == context_probability(
                m,
                window_context(q, n, j),
                window_target(q, n, j),
            ),
    ensures
        forall|j: int|
            0 <= j < v.len() ==> {
                let k = window_total(s.len() as int, n) as nat;
                let ctx = q.subrange(j, j + n - 1);
                let tgt = q[j + n - 1];
                #[trigger] v[j] == if context_count(s, n, ctx, k) > 0 {
                    (ngram_count(s, n, ctx, tgt, k) as u64, context_count(s, n, ctx, k) as u64)
                } else {
                    (1u64, 3u64)
                }
            },
{
    let k = window_total(s.len() as int, n) as nat;
    assert forall|j: int| 0 <= j < v.len() implies {
        let ctx = q.subrange(j, j + n - 1);
        let tgt = q[j + n - 1];
        #[trigger] v[j] == if context_count(s, n, ctx, k) > 0 {
            (ngram_count(s, n, ctx, tgt, k) as u64, context_count(s, n, ctx, k) as u64)
        } else {
            (1u64, 3u64)
        }
    } by {
        let ctx = q.subrange(j, j + n - 1);
        let tgt = q[j + n - 1];
        assert(window_context(q, n, j) == ctx);
        assert(table_count(m, ctx, tgt) == ngram_count(s, n, ctx, tgt, k));
        assert(table_total(m, ctx) == context_count(s, n, ctx, k));
        lemma_context_probability_is_share(m, ctx, tgt);
    }
}

/// Every stored count can grow by `extra` without overflow.
pub open spec fn counts_have_room(m: Map<Seq<Trit>, TernaryTransition>, extra: int) -> bool {
    forall|ctx: Seq<Trit>| #[trigger]
        m.contains_key(ctx) ==> m[ctx].total + extra <= u64::MAX && m[ctx].counts@[0] + extra
            <= u64::MAX && m[ctx].counts@[1] + extra <= u64::MAX && m[ctx].counts@[2] + extra
            <= u64::MAX
}

proof fn lemma_counts_bounded(seq: Seq<Trit>, n: int, ctx: Seq<Trit>, t: Trit, k: nat)
    ensures
        ngram_count(seq, n, ctx, t, k) <= k,
        context_count(seq, n, ctx, k) <= k,
    decreases k,
{
    if k > 0 {
        lemma_counts_bounded(seq, n, ctx, t, (k - 1) as nat);
    }
}

/// `after` is `before` with one more observation of `next` after `ctx`.
spec fn recorded(
    before: Map<Seq<Trit>, TernaryTransition>,
    after: Map<Seq<Trit>, TernaryTransition>,
    ctx: Seq<Trit>,
    next: Trit,
) -> bool {
    &&& after.dom() == before.dom().insert(ctx)
    &&& forall|c: Seq<Trit>| #[trigger] before.contains_key(c) && c != ctx ==> after[c] == before[c]
    &&& forall|t: Trit| #[trigger] table_count(after, ctx, t) == table_count(before, ctx, t) + if t == next {
        1int
    } else {
        0int
    }
    &&& table_total(after, ctx) == table_total(before, ctx) + 1
    &&& (before.contains_key(ctx) ==> before[ctx].wf()) ==> after[ctx].wf()
}

/// `m` is `start` after training on the first `k` n-grams of `seq`.
pub open spec fn trained_upto(
    start: Map<Seq<Trit>, TernaryTransition>,
    m: Map<Seq<Trit>, TernaryTransition>,
    seq: Seq<Trit>,
    n: int,
    k: nat,
) -> bool {
    &&& forall|ctx: Seq<Trit>| #[trigger]
        m.contains_key(ctx) <==> start.contains_key(ctx) || context_count(seq, n, ctx, k) > 0
    &&& forall|ctx: Seq<Trit>, t: Trit| #[trigger]
        table_count(m, ctx, t) == table_count(start, ctx, t) + ngram_count(seq, n, ctx, t, k)
    &&& forall|ctx: Seq<Trit>| #[trigger]
        table_total(m, ctx) == table_total(start, ctx) + context_count(seq, n, ctx, k)
}

/// Every transition in the table has been observed and is well formed.
pub open spec fn table_wf(m: Map<Seq<Trit>, TernaryTransition>) -> bool {
    forall|ctx: Seq<Trit>| #[trigger] m.contains_key(ctx) ==> m[ctx].wf() && m[ctx].total > 0
}

proof fn lemma_train_step(
    start: Map<Seq<Trit>, TernaryTransition>,
    before: Map<Seq<Trit>, TernaryTransition>,
    after: Map<Seq<Trit>, TernaryTransition>,
    seq: Seq<Trit>,
    n: int,
    k: nat,
)
    requires
        n >= 1,
        k + n <= seq.len(),
        trained_upto(start, before, seq, n, k),
        recorded(before, after, window_context(seq, n, k as int), window_target(seq, n, k as int)),
    ensures
        trained_upto(start, after, seq, n, k + 1),
        table_wf(before) ==> table_wf(after),
{
    let ctx = window_context(seq, n, k as int);
    let next = window_target(seq, n, k as int);
    assert forall|c: Seq<Trit>| #[trigger]
        after.contains_key(c) <==> start.contains_key(c) || context_count(seq, n, c, k + 1) > 0 by {
        assert(context_count(seq, n, c, k + 1) == context_count(seq, n, c, k) + if ctx == c {
            1nat
        } else {
            0nat
        });
    }
    assert forall|c: Seq<Trit>, t: Trit| #[trigger]
        table_count(after, c, t) == table_count(start, c, t) + ngram_count(seq, n, c, t, k + 1) by {
        assert(table_count(before, c, t) == table_count(start, c, t) + ngram_count(seq, n, c, t, k));
        assert(ngram_count(seq, n, c, t, k + 1) == ngram_count(seq, n, c, t, k) + if ctx == c
            && next == t {
            1nat
        } else {
            0nat
        });
        if c != ctx {
            if before.contains_key(c) {
                assert(after[c] == before[c]);
            }
        } else {
            assert(table_count(after, ctx, t) == table_count(before, ctx, t) + if t == next {
                1int
            } else {
                0int
            });
        }
    }
    assert forall|c: Seq<Trit>| #[trigger]
        table_total(after, c) == table_total(start, c) + context_count(seq, n, c, k + 1) by {
        assert(table_total(before, c) == table_total(start, c) + context_count(seq, n, c, k));
        if c != ctx {
            if before.contains_key(c) {
                assert(after[c] == before[c]);
            }
        }
    }
    if table_wf(before) {
        assert forall|c: Seq<Trit>| #[trigger] after.contains_key(c) implies after[c].wf()
            && after[c].total > 0 by {
            if c != ctx {
                assert(before.contains_key(c));
                assert(after[c] == before[c]);
            } else {
                assert(table_total(after, ctx) == table_total(before, ctx) + 1);
            }
        }
    }
}

/// After training a model with no transitions on `seq`, the trit predicted
/// after a context is the one that most often followed it in `seq` (the
/// later of Neg, Zero, Pos on a tie), and Zero for a context that never occurred.
pub proof fn lemma_trained_prediction(
    start: Map<Seq<Trit>, TernaryTransition>,
    m: Map<Seq<Trit>, TernaryTransition>,
    seq: Seq<Trit>,
    n: int,
    ctx: Seq<Trit>,
)
    requires
        start == Map::<Seq<Trit>, TernaryTransition>::empty(),
        trained_upto(start, m, seq, n, window_total(seq.len() as int, n) as nat),
    ensures
        ({
            let k = window_total(seq.len() as int, n) as nat;
            predicted(m, ctx) == if context_count(seq, n, ctx, k) > 0 {
                most_frequent(
                    ngram_count(seq, n, ctx, Trit::Neg, k) as int,
                    ngram_count(seq, n, ctx, Trit::Zero, k) as int,
                    ngram_count(seq, n, ctx, Trit::Pos, k) as int,
                )
            } else {
                Trit::Zero
            }
        }),
{
    let k = window_total(seq.len() as int, n) as nat;
    assert(table_count(m, ctx, Trit::Neg) == ngram_count(seq, n, ctx, Trit::Neg, k));
    assert(table_count(m, ctx, Trit::Zero) == ngram_count(seq, n, ctx, Trit::Zero, k));
    assert(table_count(m, ctx, Trit::Pos) == ngram_count(seq, n, ctx, Trit::Pos, k));
    assert(table_total(m, ctx) == context_count(seq, n, ctx, k));
}

/// A copy of `seq[start..end]`.
fn copy_range(seq: &[Trit], start: usize, end: usize) -> (r: Vec<Trit>)
    requires
        start <= end <= seq@.len(),
    ensures
        r@ == seq@.subrange(start as int, end as int),
{
    let mut r: Vec<Trit> = Vec::new();
    let mut i = start;
    while i < end
        invariant
            start <= i <= end <= seq@.len(),
            r@ == seq@.subrange(start as int, i as int),
        decreases end - i,
    {
        r.push(seq[i]);
        i = i + 1;
        assert(r@ =~= seq@.subrange(start as int, i as int));
    }
    r
}

/// N-gram language model using ternary transitions.
pub struct TernaryNgramModel {
    pub n: usize,
    pub transitions: KeyedMap<Vec<Trit>, TernaryTransition>,
    pub order_counts: HashMap<usize, usize>,
}

impl TernaryNgramModel {
    /// Every stored transition has been observed at least once and its
    /// total is the sum of its counts.
    pub open spec fn wf(&self) -> bool {
        table_wf(self.transitions@)
    }

    /// How many n-grams of order `n` have been trained on.
    pub open spec fn order_count(&self) -> int {
        if self.order_counts@.contains_key(self.n) {
            self.order_counts@[self.n] as int
        } else {
            0
        }
    }

    pub fn new(n: usize) -> (m: Self)
        ensures
            m.n == n,
            m.transitions@ == Map::<Seq<Trit>, TernaryTransition>::empty(),
            m.order_counts@ == Map::<usize, usize>::empty(),
            m.wf(),
    {
        Self { n, transitions: KeyedMap::new(), order_counts: HashMap::new() }
    }

    /// Records one more observation of `next` after `context`.
    fn record(&mut self, context: Vec<Trit>, next: Trit)
        requires
            table_total(old(self).transitions@, context@) < u64::MAX,
            table_count(old(self).transitions@, context@, next) < u64::MAX,
        ensures
            final(self).n == old(self).n,
            final(self).order_counts == old(self).order_counts,
            recorded(old(self).transitions@, final(self).transitions@, context@, next),
    {
        let mut t = match self.transitions.get(&context) {
            Some(t) => *t,
            None => TernaryTransition::new(),
        };
        t.observe(next);
        self.transitions.insert(context, t);
    }

    /// Train on a sequence of trits: every n-gram in it is counted under its
    /// context.
    pub fn train(&mut self, sequence: &[Trit])
        requires
            old(self).n >= 1,
            counts_have_room(
                old(self).transitions@,
                window_total(sequence@.len() as int, old(self).n as int),
            ),
            old(self).order_count() + window_total(sequence@.len() as int, old(self).n as int)
                <= usize::MAX,
        ensures
            final(self).n == old(self).n,
            old(self).wf() ==> final(self).wf(),
            sequence@.len() < old(self).n ==> final(self).transitions@ == old(
                self,
            ).transitions@ && final(self).order_counts@ == old(self).order_counts@,
            sequence@.len() >= old(self).n ==> final(self).order_counts@ == old(
                self,
            ).order_counts@.insert(
                old(self).n,
                (old(self).order_count() + window_total(
                    sequence@.len() as int,
                    old(self).n as int,
                )) as usize,
            ),
            trained_upto(
                old(self).transitions@,
                final(self).transitions@,
                sequence@,
                old(self).n as int,
                window_total(sequence@.len() as int, old(self).n as int) as nat,
            ),
    {
        if sequence.len() < self.n {
            return;
        }
        let n = self.n;
        let len = sequence.len();
        let windows = len - n + 1;
        let ghost seq = sequence@;
        let ghost start = self.transitions@;
        let mut i: usize = 0;
        proof {
            assert(trained_upto(start, start, seq, n as int, 0));
        }
        while i < windows
            invariant
                n == self.n,
                n >= 1,
                windows + n - 1 == seq.len(),
                len == seq.len(),
                seq == sequence@,
                i <= windows,
                self.order_counts == old(self).order_counts,
                start == old(self).transitions@,
                counts_have_room(start, windows as int),
                table_wf(start) ==> table_wf(self.transitions@),
                trained_upto(start, self.transitions@, seq, n as int, i as nat),
            decreases windows - i,
        {
            let context = copy_range(sequence, i, i + n - 1);
            let next = sequence[i + n - 1];
            let ghost before = self.transitions@;
            let ghost ctx = context@;
            proof {
                lemma_counts_bounded(seq, n as int, ctx, next, i as nat);
                assert(table_total(before, ctx) == table_total(start, ctx) + context_count(
                    seq,
                    n as int,
                    ctx,
                    i as nat,
                ));
                assert(table_count(before, ctx, next) == table_count(start, ctx, next)
                    + ngram_count(seq, n as int, ctx, next, i as nat));
                if start.contains_key(ctx) {
                    assert(start[ctx].count(next) + windows <= u64::MAX);
                }
            }
            self.record(context, next);
            proof {
                assert(window_context(seq, n as int, i as int) == ctx);
                lemma_train_step(start, before, self.transitions@, seq, n as int, i as nat);
            }
            i = i + 1;
        }
        let prior = match self.order_counts.get(&n) {
            Some(c) => *c,
            None => 0,
        };
        self.order_counts.insert(n, prior + windows);
    }

    /// Predict the next trit given a context.
    pub fn predict(&self, context: &[Trit]) -> (t: Trit)
        ensures
            t == predicted(self.transitions@, context@),
    {
        let key = copy_range(context, 0, context.len());
        assert(key@ =~= context@);
        match self.transitions.get(&key) {
            Some(tr) => tr.sample(),
            None => Trit::Zero,
        }
    }

    /// Generate a sequence of trits from a seed context: the seed, followed
    /// by `length` trits, each predicted from the `n - 1` trits before it.
    pub fn generate(&self, seed: &[Trit], length: usize) -> (r: Vec<Trit>)
        requires
            self.n >= 1,
        ensures
            seed@.len() < self.n - 1 ==> r@.len() == 0,
            seed@.len() >= self.n - 1 ==> {
                &&& r@.len() == seed@.len() + length
                &&& r@.take(seed@.len() as int) == seed@
                &&& forall|j: int|
                    seed@.len() <= j < r@.len() ==> #[trigger] r@[j] == predicted(
                        self.transitions@,
                        r@.subrange(j - (self.n - 1), j),
                    )
            },
    {
        if seed.len() < self.n - 1 {
            return Vec::new();
        }
        let mut result = copy_range(seed, 0, seed.len());
        let ghost seed_len = seed@.len() as int;
        let mut k: usize = 0;
        while k < length
            invariant
                self.n >= 1,
                seed_len == seed@.len() >= self.n - 1,
                k <= length,
                result@.len() == seed_len + k,
                result@.take(seed_len) == seed@,
                forall|j: int|
                    seed_len <= j < result@.len() ==> #[trigger] result@[j] == predicted(
                        self.transitions@,
                        result@.subrange(j - (self.n - 1), j),
                    ),
            decreases length - k,
        {
            let ctx_len = self.n - 1;
            let start = result.len().saturating_sub(ctx_len);
            let context = copy_range(result.as_slice(), start, result.len());
            let next = self.predict(context.as_slice());
            let ghost prev = result@;
            result.push(next);
            proof {
                assert(result@.take(seed_len) =~= prev.take(seed_len));
                assert forall|j: int|
                    seed_len <= j < result@.len() implies #[trigger] result@[j] == predicted(
                        self.transitions@,
                        result@.subrange(j - (self.n - 1), j),
                    ) by {
                    assert(result@.subrange(j - (self.n - 1), j) =~= prev.subrange(
                        j - (self.n - 1),
                        j,
                    ));
                }
            }
            k = k + 1;
        }
        result
    }

    /// For each n-gram of `sequence`, in order, the probability (as a
    /// fraction) that the model gives its last trit after its context; none
    /// when the sequence is shorter than `n`.
    pub fn position_probabilities(&self, sequence: &[Trit]) -> (r: Option<Vec<(u64, u64)>>)
        requires
            self.n >= 1,
        ensures
            r is None <==> sequence@.len() < self.n,
            r matches Some(v) ==> {
                &&& v@.len() == window_total(sequence@.len() as int, self.n as int)
                &&& forall|j: int|
                    0 <= j < v@.len() ==> #[trigger] v@[j] == context_probability(
                        self.transitions@,
                        window_context(sequence@, self.n as int, j),
                        window_target(sequence@, self.n as int, j),
                    )
                &&& forall|j: int|
                    0 <= j < v@.len() ==> #[trigger] v@[j] == share_after(
                        self.transitions@,
                        sequence@.subrange(j, j + self.n - 1),
                        sequence@[j + self.n - 1],
                    )
            },
    {
        if sequence.len() < self.n {
            return None;
        }
        let mut probs: Vec<(u64, u64)> = Vec::new();
        let mut i = self.n - 1;
        while i < sequence.len()
            invariant
                self.n >= 1,
                self.n - 1 <= i <= sequence@.len(),
                probs@.len() == i - (self.n - 1),
                forall|j: int|
                    0 <= j < probs@.len() ==> #[trigger] probs@[j] == context_probability(
                        self.transitions@,
                        window_context(sequence@, self.n as int, j),
                        window_target(sequence@, self.n as int, j),
                    ),
            decreases sequence@.len() - i,
        {
            let start = i + 1 - self.n;
            let context = copy_range(sequence, start, i);
            let next = sequence[i];
            let prob = match self.transitions.get(&context) {
                Some(tr) => tr.probability_fraction(next),
                None => (1, 3),
            };
            let ghost prev = probs@;
            probs.push(prob);
            proof {
                assert(window_context(sequence@, self.n as int, start as int) == context@);
                assert forall|j: int|
                    0 <= j < probs@.len() implies #[trigger] probs@[j] == context_probability(
                        self.transitions@,
                        window_context(sequence@, self.n as int, j),
                        window_target(sequence@, self.n as int, j),
                    ) by {
                    if j < prev.len() {
                        assert(probs@[j] == prev[j]);
                    }
                }
            }
            i = i + 1;
        }
        proof {
            assert forall|j: int| 0 <= j < probs@.len() implies #[trigger] probs@[j] == share_after(
                self.transitions@,
                sequence@.subrange(j, j + self.n - 1),
                sequence@[j + self.n - 1],
            ) by {
                lemma_context_probability_is_share(
                    self.transitions@,
                    window_context(sequence@, self.n as int, j),
                    window_target(sequence@, self.n as int, j),
                );
            }
        }
        Some(probs)
    }

    /// Number of distinct contexts with a transition.
    pub fn transition_count(&self) -> (c: usize)
        ensures
            c == self.transitions@.dom().len(),
    {
        self.transitions.len()
    }
}


} // verus!
