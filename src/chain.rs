//! The back-off chain of tables and the weighted draw of the next symbol.
use vstd::prelude::*;

use crate::cache::{chain_words, tables_of};
use crate::corpus::{BOUNDARY, MAX_CORPUS_SYMBOLS, corpus_size, events, lemma_event_present, occurrences, padded, unit_events, units_view};
use crate::ngram::{NGramModel, lemma_count_positive_has_context, table_of, train_model};
use crate::config::{MAX_ORDER, MAX_PRIOR_MILLIS, PRIOR_SCALE};

verus! {

/// The last `k` symbols of `ctx`.
pub open spec fn suffix(ctx: Seq<u32>, k: nat) -> Seq<u32> {
    ctx.subrange(ctx.len() - k, ctx.len() as int)
}

fn suffix_vec(ctx: &Vec<u32>, k: usize) -> (r: Vec<u32>)
    requires
        k <= ctx@.len(),
    ensures
        r@ == suffix(ctx@, k as nat),
{
    let mut r: Vec<u32> = Vec::new();
    let start = ctx.len() - k;
    let mut i: usize = start;
    while i < ctx.len()
        invariant
            start == ctx@.len() - k,
            start <= i <= ctx@.len(),
            r@ == ctx@.subrange(start as int, i as int),
        decreases ctx@.len() - i,
    {
        r.push(ctx[i]);
        i = i + 1;
        assert(r@ =~= ctx@.subrange(start as int, i as int));
    }
    r
}

/// A trained model of every order from `order` down to zero: `models[k]`
/// is the order-`k` table.
pub struct BackoffChain {
    pub order: usize,
    pub models: Vec<NGramModel>,
}

impl BackoffChain {
    pub open spec fn wf(&self) -> bool {
        &&& self.order <= MAX_ORDER
        &&& self.models@.len() == self.order + 1
        &&& forall|k: int|
            0 <= k < self.models@.len() ==> (#[trigger] self.models@[k]).wf()
                && self.models@[k].order == k && self.models@[k].within_limits()
    }

    /// Every table counts exactly the events of `units` at its order.
    pub open spec fn trained_on(&self, units: Seq<Seq<u32>>) -> bool {
        forall|k: int, c: Seq<u32>, s: u32|
            0 <= k <= self.order ==> #[trigger] self.models@[k].count_of(c, s) == occurrences(
                events(units, k as nat),
                (c, s),
            )
    }

    /// Every table is exactly the one counting the events of `units` at
    /// its order builds, entries in order of first occurrence.
    pub open spec fn built_from(&self, units: Seq<Seq<u32>>) -> bool {
        forall|k: int|
            0 <= k <= self.order ==> #[trigger] self.models@[k].grams() == table_of(
                events(units, k as nat),
            )
    }

    /// The symbols the order-0 table knows: the training alphabet with the
    /// boundary.
    pub open spec fn alphabet(&self) -> Seq<u32> {
        self.models@[0].symbols@
    }

    /// With back-off: the highest order, `k` or below, whose table has seen
    /// the last symbols of `ctx`; order 0 when none has.
    pub open spec fn backoff_level(&self, ctx: Seq<u32>, k: nat) -> nat
        decreases k,
    {
        if k == 0 {
            0
        } else if self.models@[k as int].has_context(suffix(ctx, k)) {
            k
        } else {
            self.backoff_level(ctx, (k - 1) as nat)
        }
    }

    /// The order whose table a draw after `ctx` uses: without back-off the
    /// top order when it has seen `ctx`, else order 0 directly.
    pub open spec fn active_level(&self, ctx: Seq<u32>, backoff: bool) -> nat {
        if backoff {
            self.backoff_level(ctx, self.order as nat)
        } else if self.models@[self.order as int].has_context(ctx) {
            self.order as nat
        } else {
            0
        }
    }

    /// The weights a draw at table `level` after `ctx` chooses among, one
    /// per symbol of the alphabet; with `allow_end` false the boundary's
    /// is zero.
    pub open spec fn level_weights(&self, level: nat, ctx: Seq<u32>, prior_millis: u64, allow_end: bool) -> Seq<
        u128,
    > {
        Seq::new(
            self.alphabet().len(),
            |i: int|
                if !allow_end && self.alphabet()[i] == BOUNDARY {
                    0u128
                } else {
                    self.weight_of(level, ctx, self.alphabet()[i], prior_millis) as u128
                },
        )
    }

    /// The smoothed weight of `s` at table `level` after `ctx`: its count
    /// in thousandths plus the prior, the same for every symbol.
    pub open spec fn weight_of(&self, level: nat, ctx: Seq<u32>, s: u32, prior_millis: u64) -> int {
        self.models@[level as int].count_of(suffix(ctx, level), s) * PRIOR_SCALE + prior_millis
    }
}

/// Trains a chain of every order from `order` down to zero on the units.
pub fn train_chain(units: &Vec<Vec<u32>>, order: usize) -> (r: BackoffChain)
    requires
        order <= MAX_ORDER,
        corpus_size(units_view(units@)) <= MAX_CORPUS_SYMBOLS + 1,
    ensures
        r.wf(),
        r.order == order,
        r.trained_on(units_view(units@)),
        r.built_from(units_view(units@)),
{
    let mut models: Vec<NGramModel> = Vec::new();
    let mut k: usize = 0;
    while k <= order
        invariant
            order <= MAX_ORDER,
            corpus_size(units_view(units@)) <= MAX_CORPUS_SYMBOLS + 1,
            k <= order + 1,
            models@.len() == k,
            forall|j: int|
                0 <= j < k ==> (#[trigger] models@[j]).wf() && models@[j].order == j
                    && models@[j].within_limits(),
            forall|j: int, c: Seq<u32>, s: u32|
                0 <= j < k ==> #[trigger] models@[j].count_of(c, s) == occurrences(
                    events(units_view(units@), j as nat),
                    (c, s),
                ),
            forall|j: int|
                0 <= j < k ==> #[trigger] models@[j].grams() == table_of(
                    events(units_view(units@), j as nat),
                ),
        decreases order + 1 - k,
    {
        let m = train_model(units, k);
        models.push(m);
        k = k + 1;
    }
    BackoffChain { order, models }
}

/// An upper bound on any one smoothed weight.
pub const WEIGHT_LIMIT: u128 = 0x1_0000_0000_0000_0000_0000;

/// The sum of the first `n` weights.
pub open spec fn prefix_sum(w: Seq<u128>, n: int) -> int
    decreases n,
{
    if n <= 0 {
        0
    } else {
        prefix_sum(w, n - 1) + w[n - 1]
    }
}

proof fn lemma_prefix_sum_at_least(w: Seq<u128>, j: int, n: int)
    requires
        0 <= j < n <= w.len(),
    ensures
        prefix_sum(w, n) >= w[j],
    decreases n,
{
    if j < n - 1 {
        lemma_prefix_sum_at_least(w, j, n - 1);
    } else {
        lemma_prefix_sum_nonneg(w, n - 1);
    }
}

proof fn lemma_prefix_sum_nonneg(w: Seq<u128>, n: int)
    ensures
        prefix_sum(w, n) >= 0,
    decreases n,
{
    if n > 0 {
        lemma_prefix_sum_nonneg(w, n - 1);
    }
}

/// The sum of all the weights.
pub fn total_weight(w: &Vec<u128>) -> (t: u128)
    requires
        w@.len() <= MAX_CORPUS_SYMBOLS + 1,
        forall|i: int| 0 <= i < w@.len() ==> w@[i] < WEIGHT_LIMIT,
    ensures
        t == prefix_sum(w@, w@.len() as int),
{
    let mut t: u128 = 0;
    let mut i: usize = 0;
    while i < w.len()
        invariant
            w@.len() <= MAX_CORPUS_SYMBOLS + 1,
            forall|j: int| 0 <= j < w@.len() ==> w@[j] < WEIGHT_LIMIT,
            i <= w@.len(),
            t == prefix_sum(w@, i as int),
            t <= i * WEIGHT_LIMIT,
        decreases w@.len() - i,
    {
        assert(t + w@[i as int] <= (i + 1) * WEIGHT_LIMIT) by (nonlinear_arith)
            requires
                t <= i * WEIGHT_LIMIT,
                w@[i as int] < WEIGHT_LIMIT,
        ;
        assert((i + 1) * WEIGHT_LIMIT <= (MAX_CORPUS_SYMBOLS + 2) * WEIGHT_LIMIT) by (
        nonlinear_arith)
            requires
                i + 1 <= MAX_CORPUS_SYMBOLS + 2,
        ;
        t = t + w[i];
        i = i + 1;
    }
    t
}

/// The index whose slice of the cumulative weights holds `r`: the draw of a
/// weighted choice given a uniform `r` below the total. A zero weight is
/// never picked.
pub fn pick(w: &Vec<u128>, r: u128) -> (i: usize)
    requires
        r < prefix_sum(w@, w@.len() as int),
    ensures
        i < w@.len(),
        prefix_sum(w@, i as int) <= r < prefix_sum(w@, i as int) + w@[i as int],
        w@[i as int] > 0,
{
    let mut acc: u128 = 0;
    let mut i: usize = 0;
    while i < w.len()
        invariant
            r < prefix_sum(w@, w@.len() as int),
            i <= w@.len(),
            acc == prefix_sum(w@, i as int),
            acc <= r,
        decreases w@.len() - i,
    {
        if r - acc < w[i] {
            return i;
        }
        acc = acc + w[i];
        i = i + 1;
    }
    i
}

impl BackoffChain {
    /// The table a draw after `ctx` uses (see `active_level`).
    pub fn select_level(&self, ctx: &Vec<u32>, backoff: bool) -> (r: usize)
        requires
            self.wf(),
            ctx@.len() == self.order,
        ensures
            r == self.active_level(ctx@, backoff),
            r <= self.order,
    {
        if !backoff {
            if self.models[self.order].contains_context(ctx) {
                return self.order;
            }
            return 0;
        }
        let mut k: usize = self.order;
        while k > 0
            invariant
                self.wf(),
                ctx@.len() == self.order,
                backoff,
                k <= self.order,
                self.backoff_level(ctx@, self.order as nat) == self.backoff_level(ctx@, k as nat),
            decreases k,
        {
            let tail = suffix_vec(ctx, k);
            if self.models[k].contains_context(&tail) {
                return k;
            }
            k = k - 1;
        }
        0
    }

    /// The smoothed weight of each symbol of the alphabet, in its order,
    /// at table `level` after `ctx`. With `allow_end` false the boundary
    /// gets weight zero.
    pub fn weights(&self, level: usize, ctx: &Vec<u32>, prior_millis: u64, allow_end: bool) -> (r:
        Vec<u128>)
        requires
            self.wf(),
            level <= self.order,
            ctx@.len() == self.order,
            prior_millis <= MAX_PRIOR_MILLIS,
        ensures
            r@.len() == self.alphabet().len(),
            forall|i: int|
                0 <= i < r@.len() ==> #[trigger] r@[i] == if !allow_end && self.alphabet()[i]
                    == BOUNDARY {
                    0
                } else {
                    self.weight_of(level as nat, ctx@, self.alphabet()[i], prior_millis)
                },
            forall|i: int| 0 <= i < r@.len() ==> #[trigger] r@[i] < WEIGHT_LIMIT,
            r@.len() <= MAX_CORPUS_SYMBOLS + 1,
            r@ == self.level_weights(level as nat, ctx@, prior_millis, allow_end),
    {
        let tail = suffix_vec(ctx, level);
        let table = &self.models[level];
        let alphabet = &self.models[0].symbols;
        assert(self.models@[0].wf() && self.models@[0].within_limits());
        let mut r: Vec<u128> = Vec::new();
        let mut i: usize = 0;
        while i < alphabet.len()
            invariant
                self.wf(),
                level <= self.order,
                table == self.models@[level as int],
                alphabet@ == self.alphabet(),
                alphabet@.len() <= MAX_CORPUS_SYMBOLS + 1,
                tail@ == suffix(ctx@, level as nat),
                prior_millis <= MAX_PRIOR_MILLIS,
                i <= alphabet@.len(),
                r@.len() == i,
                forall|j: int|
                    0 <= j < i ==> #[trigger] r@[j] == if !allow_end && self.alphabet()[j]
                        == BOUNDARY {
                        0
                    } else {
                        self.weight_of(level as nat, ctx@, self.alphabet()[j], prior_millis)
                    },
                forall|j: int| 0 <= j < i ==> #[trigger] r@[j] < WEIGHT_LIMIT,
            decreases alphabet@.len() - i,
        {
            let s = alphabet[i];
            if !allow_end && s == BOUNDARY {
                r.push(0);
            } else {
                let c = table.lookup(&tail, s);
                r.push((c as u128) * (PRIOR_SCALE as u128) + (prior_millis as u128));
            }
            i = i + 1;
        }
        assert(r@ =~= self.level_weights(level as nat, ctx@, prior_millis, allow_end));
        r
    }

}

/// With a zero prior, a symbol has weight after a context only if training
/// saw it there: any symbol a draw can return was observed after the
/// active context.
pub proof fn lemma_zero_prior_draws_observed(
    chain: BackoffChain,
    units: Seq<Seq<u32>>,
    ctx: Seq<u32>,
    backoff: bool,
    s: u32,
)
    requires
        chain.wf(),
        chain.trained_on(units),
        ctx.len() == chain.order,
        chain.weight_of(chain.active_level(ctx, backoff), ctx, s, 0) > 0,
    ensures
        occurrences(
            events(units, chain.active_level(ctx, backoff)),
            (suffix(ctx, chain.active_level(ctx, backoff)), s),
        ) > 0,
{
    let level = chain.active_level(ctx, backoff);
    lemma_backoff_level_bound(chain, ctx, chain.order as nat);
    assert(chain.models@[level as int].count_of(suffix(ctx, level), s) == occurrences(
        events(units, level),
        (suffix(ctx, level), s),
    ));
}

proof fn lemma_backoff_level_bound(chain: BackoffChain, ctx: Seq<u32>, k: nat)
    ensures
        chain.backoff_level(ctx, k) <= k,
    decreases k,
{
    if k > 0 {
        lemma_backoff_level_bound(chain, ctx, (k - 1) as nat);
    }
}

/// With a positive prior, every symbol of the alphabet has a positive
/// weight after any context, so any of them can be drawn.
pub proof fn lemma_positive_prior_full_support(
    chain: BackoffChain,
    ctx: Seq<u32>,
    backoff: bool,
    prior_millis: u64,
    i: int,
)
    requires
        prior_millis > 0,
        0 <= i < chain.alphabet().len(),
    ensures
        chain.weight_of(chain.active_level(ctx, backoff), ctx, chain.alphabet()[i], prior_millis)
            > 0,
{
}

/// The order-0 table of a trained chain counts every symbol of every
/// training word, and the boundary that ends it, at least once; so its
/// empty context is always seen, and a draw that backs off to order 0 has
/// every training symbol to choose from.
pub proof fn lemma_order_zero_support(chain: BackoffChain, units: Seq<Seq<u32>>, u: int, j: int)
    requires
        chain.wf(),
        chain.trained_on(units),
        0 <= u < units.len(),
        0 <= j < units[u].len(),
    ensures
        chain.models@[0].count_of(Seq::empty(), units[u][j]) > 0,
        chain.models@[0].count_of(Seq::empty(), BOUNDARY) > 0,
        chain.models@[0].has_context(Seq::empty()),
{
    let w = units[u];
    let p = padded(w, 0);
    assert(p =~= w + seq![BOUNDARY]);
    assert(unit_events(w, 0)[j] == (p.subrange(j, j), p[j]));
    assert(p.subrange(j, j) =~= Seq::<u32>::empty());
    lemma_event_present(units, 0, u, j);
    assert(unit_events(w, 0)[w.len() as int] == (p.subrange(w.len() as int, w.len() as int), p[w.len() as int]));
    assert(p.subrange(w.len() as int, w.len() as int) =~= Seq::<u32>::empty());
    lemma_event_present(units, 0, u, w.len() as int);
    assert(chain.models@[0].count_of(Seq::empty(), units[u][j]) == occurrences(
        events(units, 0),
        (Seq::empty(), units[u][j]),
    ));
    assert(chain.models@[0].count_of(Seq::empty(), BOUNDARY) == occurrences(
        events(units, 0),
        (Seq::empty(), BOUNDARY),
    ));
    lemma_count_positive_has_context(chain.models@[0], Seq::empty(), BOUNDARY);
}

/// `a` may come before `b` among the candidates of a draw: the heavier
/// first, equal weights by symbol.
pub open spec fn comes_first(a: (u128, u32), b: (u128, u32)) -> bool {
    a.0 > b.0 || (a.0 == b.0 && a.1 <= b.1)
}

/// Candidates ordered heaviest first.
pub open spec fn heaviest_first(s: Seq<(u128, u32)>) -> bool {
    forall|a: int, b: int| 0 <= a < b < s.len() ==> comes_first(#[trigger] s[a], #[trigger] s[b])
}

fn comes_first_exec(a: (u128, u32), b: (u128, u32)) -> (r: bool)
    ensures
        r == comes_first(a, b),
{
    a.0 > b.0 || (a.0 == b.0 && a.1 <= b.1)
}

fn swap_down(c: &mut Vec<(u128, u32)>, j: usize)
    requires
        0 < j < old(c)@.len(),
    ensures
        final(c)@ == old(c)@.update(j - 1, old(c)@[j as int]).update(j as int, old(c)@[j - 1]),
        final(c)@.to_multiset() == old(c)@.to_multiset(),
{
    broadcast use vstd::seq_lib::group_to_multiset_ensures;

    let a = c[j - 1];
    let b = c[j];
    let ghost s0 = c@;
    c.set(j - 1, b);
    let ghost s1 = c@;
    c.set(j, a);
    proof {
        assert(s1.to_multiset() == s0.to_multiset().insert(b).remove(a));
        assert(s1[j as int] == b);
        assert(c@.to_multiset() == s1.to_multiset().insert(a).remove(b));
        assert(s0.to_multiset().count(a) > 0);
        assert(c@.to_multiset() =~= s0.to_multiset());
    }
}

/// Orders the candidates heaviest first, keeping the same candidates.
pub fn sort_heaviest_first(c: &mut Vec<(u128, u32)>)
    ensures
        final(c)@.to_multiset() == old(c)@.to_multiset(),
        final(c)@.len() == old(c)@.len(),
        heaviest_first(final(c)@),
{
    broadcast use vstd::seq_lib::group_to_multiset_ensures;

    let n = c.len();
    if n == 0 {
        return;
    }
    let mut i: usize = 1;
    while i < n
        invariant
            n == c@.len(),
            1 <= i <= n,
            c@.to_multiset() == old(c)@.to_multiset(),
            forall|a: int, b: int| 0 <= a < b < i ==> comes_first(#[trigger] c@[a], #[trigger] c@[b]),
        decreases n - i,
    {
        let mut j: usize = i;
        while j > 0 && !comes_first_exec(c[j - 1], c[j])
            invariant
                n == c@.len(),
                0 <= j <= i < n,
                c@.to_multiset() == old(c)@.to_multiset(),
                forall|a: int, b: int|
                    0 <= a < b <= i && a != j && b != j ==> comes_first(
                        #[trigger] c@[a],
                        #[trigger] c@[b],
                    ),
                forall|b: int| j < b <= i ==> comes_first(c@[j as int], #[trigger] c@[b]),
            decreases j,
        {
            swap_down(c, j);
            j = j - 1;
        }
        assert forall|a: int, b: int| 0 <= a < b < i + 1 implies comes_first(
            #[trigger] c@[a],
            #[trigger] c@[b],
        ) by {
            if b == j && a < j - 1 {
                assert(comes_first(c@[a], c@[j - 1]));
            }
        }
        i = i + 1;
    }
}

/// The weights of a list of candidates.
pub open spec fn weights_in(c: Seq<(u128, u32)>) -> Seq<u128> {
    c.map_values(|p: (u128, u32)| p.0)
}

impl BackoffChain {
    /// The candidates of a draw at table `level` after `ctx`: each symbol
    /// of the alphabet with its weight, in alphabet order.
    pub open spec fn candidates(&self, level: nat, ctx: Seq<u32>, prior_millis: u64, allow_end: bool) -> Seq<
        (u128, u32),
    > {
        Seq::new(
            self.alphabet().len(),
            |i: int| (self.level_weights(level, ctx, prior_millis, allow_end)[i], self.alphabet()[i]),
        )
    }

    /// What a draw after `ctx` chooses among: the candidates `c` of the
    /// active table in some heaviest-first order, and the total weight `t`.
    pub open spec fn draw_setup(
        &self,
        ctx: Seq<u32>,
        backoff: bool,
        prior_millis: u64,
        allow_end: bool,
        c: Seq<(u128, u32)>,
        t: int,
    ) -> bool {
        &&& c.to_multiset() == self.candidates(
            self.active_level(ctx, backoff),
            ctx,
            prior_millis,
            allow_end,
        ).to_multiset()
        &&& heaviest_first(c)
        &&& t == prefix_sum(weights_in(c), c.len() as int)
    }

    /// A symbol `s` a draw may return: one of the alphabet with a positive
    /// weight at the active table, and not the boundary unless `allow_end`.
    pub open spec fn drawable(&self, ctx: Seq<u32>, backoff: bool, prior_millis: u64, allow_end: bool, s: u32) -> bool {
        exists|i: int|
            0 <= i < self.alphabet().len() && #[trigger] self.alphabet()[i] == s && self.weight_of(
                self.active_level(ctx, backoff),
                ctx,
                s,
                prior_millis,
            ) > 0 && (allow_end || s != BOUNDARY)
    }

    /// The draw `draw` after `ctx` selects `s`: among the candidates of the
    /// active table ordered heaviest first, `s` owns the slice of the
    /// cumulative weights that holds `draw` reduced modulo the total.
    pub open spec fn picks(
        &self,
        ctx: Seq<u32>,
        backoff: bool,
        prior_millis: u64,
        allow_end: bool,
        draw: u128,
        s: u32,
    ) -> bool {
        exists|c: Seq<(u128, u32)>, t: int|
            #![trigger self.draw_setup(ctx, backoff, prior_millis, allow_end, c, t)]
            self.draw_setup(ctx, backoff, prior_millis, allow_end, c, t) && t != 0 && exists|i: int|
                0 <= i < c.len() && #[trigger] c[i].1 == s && prefix_sum(weights_in(c), i) <= draw
                    % (t as u128) < prefix_sum(weights_in(c), i) + c[i].0
    }

    /// The alphabet holds a symbol other than the boundary.
    pub open spec fn has_letter(&self) -> bool {
        exists|i: int| 0 <= i < self.alphabet().len() && #[trigger] self.alphabet()[i] != BOUNDARY
    }

    fn ordered_candidates(&self, ctx: &Vec<u32>, backoff: bool, prior_millis: u64, allow_end: bool) -> (r: (
        Vec<(u128, u32)>,
        Vec<u128>,
        u128,
    ))
        requires
            self.wf(),
            ctx@.len() == self.order,
            prior_millis <= MAX_PRIOR_MILLIS,
        ensures
            self.draw_setup(ctx@, backoff, prior_millis, allow_end, r.0@, r.2 as int),
            r.1@ == weights_in(r.0@),
            prior_millis > 0 && self.has_letter() ==> r.2 > 0,
            forall|i: int|
                0 <= i < r.0@.len() && r.0@[i].0 > 0 ==> self.drawable(
                    ctx@,
                    backoff,
                    prior_millis,
                    allow_end,
                    #[trigger] r.0@[i].1,
                ),
    {
        broadcast use vstd::seq_lib::group_to_multiset_ensures;

        let level = self.select_level(ctx, backoff);
        let w = self.weights(level, ctx, prior_millis, allow_end);
        let alphabet = &self.models[0].symbols;
        let ghost cs = self.candidates(level as nat, ctx@, prior_millis, allow_end);
        let mut c: Vec<(u128, u32)> = Vec::new();
        let mut i: usize = 0;
        while i < w.len()
            invariant
                w@.len() == alphabet@.len(),
                alphabet@ == self.alphabet(),
                w@ == self.level_weights(level as nat, ctx@, prior_millis, allow_end),
                cs == self.candidates(level as nat, ctx@, prior_millis, allow_end),
                i <= w@.len(),
                c@ == cs.subrange(0, i as int),
            decreases w@.len() - i,
        {
            c.push((w[i], alphabet[i]));
            i = i + 1;
            assert(c@ =~= cs.subrange(0, i as int));
        }
        assert(c@ =~= cs);
        sort_heaviest_first(&mut c);
        proof {
            assert forall|k: int| 0 <= k < c@.len() implies (#[trigger] c@[k]).0 < WEIGHT_LIMIT && (
            c@[k].0 > 0 ==> self.drawable(ctx@, backoff, prior_millis, allow_end, c@[k].1)) by {
                assert(c@.to_multiset().count(c@[k]) > 0);
                assert(cs.contains(c@[k]));
                let j = choose|j: int| 0 <= j < cs.len() && cs[j] == c@[k];
                assert(w@[j] < WEIGHT_LIMIT);
                if c@[k].0 > 0 {
                    assert(self.alphabet()[j] == c@[k].1);
                }
            }
        }
        let mut sw: Vec<u128> = Vec::new();
        let mut k: usize = 0;
        while k < c.len()
            invariant
                k <= c@.len(),
                sw@ == weights_in(c@).subrange(0, k as int),
            decreases c@.len() - k,
        {
            sw.push(c[k].0);
            k = k + 1;
            assert(sw@ =~= weights_in(c@).subrange(0, k as int));
        }
        assert(sw@ =~= weights_in(c@));
        let total = total_weight(&sw);
        proof {
            if prior_millis > 0 && self.has_letter() {
                let k = choose|k: int|
                    0 <= k < self.alphabet().len() && #[trigger] self.alphabet()[k] != BOUNDARY;
                if 0 <= k < cs.len() {
                    assert(w@[k] > 0);
                    assert(cs[k].0 > 0);
                    assert(cs.to_multiset().count(cs[k]) > 0);
                    assert(c@.contains(cs[k]));
                    let j = choose|j: int| 0 <= j < c@.len() && c@[j] == cs[k];
                    assert(sw@[j] == c@[j].0);
                    lemma_prefix_sum_at_least(sw@, j, sw@.len() as int);
                }
            }
        }
        (c, sw, total)
    }

    /// One draw after `ctx`, from the candidates of the active table ordered
    /// heaviest first: the symbol whose slice of the cumulative weights
    /// holds `draw` reduced modulo the total. `None` when every weight is
    /// zero.
    pub fn next_symbol(
        &self,
        ctx: &Vec<u32>,
        backoff: bool,
        prior_millis: u64,
        allow_end: bool,
        draw: u128,
    ) -> (r: Option<u32>)
        requires
            self.wf(),
            ctx@.len() == self.order,
            prior_millis <= MAX_PRIOR_MILLIS,
        ensures
            exists|c: Seq<(u128, u32)>, t: int|
                #![trigger self.draw_setup(ctx@, backoff, prior_millis, allow_end, c, t)]
                self.draw_setup(ctx@, backoff, prior_millis, allow_end, c, t) && (r is None <==> t
                    == 0) && (r is Some ==> exists|i: int|
                    0 <= i < c.len() && #[trigger] c[i].1 == r->0 && prefix_sum(weights_in(c), i)
                        <= draw % (t as u128) < prefix_sum(weights_in(c), i) + c[i].0),
            r is Some ==> self.drawable(ctx@, backoff, prior_millis, allow_end, r->0),
            r is Some ==> self.picks(ctx@, backoff, prior_millis, allow_end, draw, r->0),
            prior_millis > 0 && self.has_letter() ==> r is Some,
    {
        let (c, sw, total) = self.ordered_candidates(ctx, backoff, prior_millis, allow_end);
        if total == 0 {
            return None;
        }
        let i = pick(&sw, draw % total);
        assert(c@[i as int].0 == sw@[i as int]);
        assert(self.draw_setup(ctx@, backoff, prior_millis, allow_end, c@, total as int));
        Some(c[i].1)
    }
}

/// Training is deterministic: two chains of the same order built from the
/// same units have the same tables, entry for entry, and so are stored as
/// the same words.
pub proof fn lemma_training_deterministic(a: BackoffChain, b: BackoffChain, units: Seq<Seq<u32>>)
    requires
        a.wf(),
        b.wf(),
        a.order == b.order,
        a.built_from(units),
        b.built_from(units),
    ensures
        tables_of(a.models@) == tables_of(b.models@),
        chain_words(a) == chain_words(b),
{
    assert forall|k: int| 0 <= k < tables_of(a.models@).len() implies tables_of(a.models@)[k]
        == tables_of(b.models@)[k] by {
        assert(a.models@[k].grams() == table_of(events(units, k as nat)));
        assert(b.models@[k].grams() == table_of(events(units, k as nat)));
    }
    assert(tables_of(a.models@) =~= tables_of(b.models@));
}

} // verus!
