//! Count tables of one order: what follows each context, and how often.
use vstd::prelude::*;

use crate::corpus::{BOUNDARY, Event, MAX_CORPUS_SYMBOLS, corpus_size, events, lemma_corpus_size_prefix, lemma_events_len, lemma_events_step, lemma_occurrences_push, occurrences, padded, unit_events, units_view};
use crate::config::MAX_ORDER;

verus! {

/// A table entry seen abstractly: context, next symbol, count.
pub type GramView = (Seq<u32>, u32, u64);

/// The count a table gives to `sym` after `ctx`: the sum over its matching
/// entries (a well-formed table has at most one).
pub open spec fn gram_count(g: Seq<GramView>, ctx: Seq<u32>, sym: u32) -> nat
    decreases g.len(),
{
    if g.len() == 0 {
        0
    } else {
        gram_count(g.drop_last(), ctx, sym) + if g.last().0 == ctx && g.last().1 == sym {
            g.last().2 as nat
        } else {
            0nat
        }
    }
}

pub open spec fn gram_term(x: GramView, ctx: Seq<u32>, sym: u32) -> nat {
    if x.0 == ctx && x.1 == sym {
        x.2 as nat
    } else {
        0nat
    }
}

proof fn lemma_gram_count_update(g: Seq<GramView>, j: int, x: GramView, ctx: Seq<u32>, sym: u32)
    requires
        0 <= j < g.len(),
    ensures
        gram_count(g.update(j, x), ctx, sym) + gram_term(g[j], ctx, sym) == gram_count(g, ctx, sym)
            + gram_term(x, ctx, sym),
    decreases g.len(),
{
    let u = g.update(j, x);
    if j == g.len() - 1 {
        assert(u.drop_last() =~= g.drop_last());
    } else {
        assert(u.drop_last() =~= g.drop_last().update(j, x));
        lemma_gram_count_update(g.drop_last(), j, x, ctx, sym);
    }
}

/// A table of order-`k` counts: every context has length `k` and every
/// count is at least one.
pub open spec fn table_wf(g: Seq<GramView>, k: nat) -> bool {
    forall|i: int| 0 <= i < g.len() ==> (#[trigger] g[i]).0.len() == k && g[i].2 >= 1
}

/// No context and symbol appear in two entries.
pub open spec fn distinct_keys(g: Seq<GramView>) -> bool {
    forall|i: int, j: int|
        0 <= i < j < g.len() ==> !((#[trigger] g[i]).0 == (#[trigger] g[j]).0 && g[i].1 == g[j].1)
}

/// Some entry of `g` has context `ctx` and symbol `sym`.
pub open spec fn has_key(g: Seq<GramView>, ctx: Seq<u32>, sym: u32) -> bool {
    exists|j: int| 0 <= j < g.len() && (#[trigger] g[j]).0 == ctx && g[j].1 == sym
}

/// `g` after one more `e`: its entry counts one more, or it gets a new
/// entry with count one at its end.
pub open spec fn add_event(g: Seq<GramView>, e: Event) -> Seq<GramView> {
    if has_key(g, e.0, e.1) {
        let j = choose|j: int| 0 <= j < g.len() && (#[trigger] g[j]).0 == e.0 && g[j].1 == e.1;
        g.update(j, (g[j].0, g[j].1, (g[j].2 + 1) as u64))
    } else {
        g.push((e.0, e.1, 1u64))
    }
}

/// The table that counting `s` event by event builds: entries in the
/// order their first event came.
pub open spec fn table_of(s: Seq<Event>) -> Seq<GramView>
    decreases s.len(),
{
    if s.len() == 0 {
        Seq::empty()
    } else {
        add_event(table_of(s.drop_last()), s.last())
    }
}

/// The count table of one order, held as three parallel vectors.
pub struct NGramModel {
    pub order: usize,
    pub contexts: Vec<Vec<u32>>,
    pub symbols: Vec<u32>,
    pub counts: Vec<u64>,
}

impl NGramModel {
    pub open spec fn grams(&self) -> Seq<GramView> {
        Seq::new(self.counts@.len(), |i: int| (self.contexts@[i]@, self.symbols@[i], self.counts@[i]))
    }

    pub open spec fn wf(&self) -> bool {
        &&& self.contexts@.len() == self.counts@.len()
        &&& self.symbols@.len() == self.counts@.len()
        &&& table_wf(self.grams(), self.order as nat)
    }

    /// The count of `sym` after `ctx` in this table.
    pub open spec fn count_of(&self, ctx: Seq<u32>, sym: u32) -> nat {
        gram_count(self.grams(), ctx, sym)
    }

    /// At most as many entries, and counts no larger, than a corpus of the
    /// largest accepted size yields.
    pub open spec fn within_limits(&self) -> bool {
        &&& self.counts@.len() <= MAX_CORPUS_SYMBOLS + 1
        &&& forall|i: int| 0 <= i < self.counts@.len() ==> self.counts@[i] <= MAX_CORPUS_SYMBOLS + 1
    }

    /// Some entry has context `ctx`.
    pub open spec fn has_context(&self, ctx: Seq<u32>) -> bool {
        exists|i: int| 0 <= i < self.counts@.len() && (#[trigger] self.contexts@[i])@ == ctx
    }
}

fn same_symbols(a: &Vec<u32>, b: &Vec<u32>) -> (r: bool)
    ensures
        r == (a@ == b@),
{
    if a.len() != b.len() {
        return false;
    }
    let mut i: usize = 0;
    while i < a.len()
        invariant
            a@.len() == b@.len(),
            i <= a@.len(),
            forall|j: int| 0 <= j < i ==> a@[j] == b@[j],
        decreases a@.len() - i,
    {
        if a[i] != b[i] {
            return false;
        }
        i = i + 1;
    }
    assert(a@ =~= b@);
    true
}

fn copy_symbols(a: &Vec<u32>) -> (r: Vec<u32>)
    ensures
        r@ == a@,
{
    let mut r: Vec<u32> = Vec::new();
    let mut i: usize = 0;
    while i < a.len()
        invariant
            i <= a@.len(),
            r@ == a@.subrange(0, i as int),
        decreases a@.len() - i,
    {
        r.push(a[i]);
        i = i + 1;
        assert(r@ =~= a@.subrange(0, i as int));
    }
    assert(r@ =~= a@);
    r
}

impl NGramModel {
    /// An empty table of the given order.
    pub fn new(order: usize) -> (r: NGramModel)
        ensures
            r.wf(),
            r.order == order,
            r.grams() == Seq::<GramView>::empty(),
            distinct_keys(r.grams()),
    {
        let r = NGramModel { order, contexts: Vec::new(), symbols: Vec::new(), counts: Vec::new() };
        assert(r.grams() =~= Seq::<GramView>::empty());
        r
    }

    /// Counts one more `sym` after `ctx`: the entry for them goes up by one,
    /// or a new entry with count one is added.
    pub fn record(&mut self, ctx: &Vec<u32>, sym: u32, bound: u64)
        requires
            old(self).wf(),
            distinct_keys(old(self).grams()),
            ctx@.len() == old(self).order,
            bound < u64::MAX,
            forall|i: int| 0 <= i < old(self).counts@.len() ==> old(self).counts@[i] <= bound,
        ensures
            final(self).wf(),
            distinct_keys(final(self).grams()),
            final(self).grams() == add_event(old(self).grams(), (ctx@, sym)),
            final(self).order == old(self).order,
            final(self).counts@.len() <= old(self).counts@.len() + 1,
            forall|i: int|
                0 <= i < final(self).counts@.len() ==> final(self).counts@[i] <= bound + 1,
            forall|c: Seq<u32>, s: u32|
                #[trigger] final(self).count_of(c, s) == old(self).count_of(c, s) + if c == ctx@
                    && s == sym {
                    1nat
                } else {
                    0nat
                },
    {
        let ghost g0 = self.grams();
        let mut j: usize = 0;
        while j < self.counts.len()
            invariant
                self.wf(),
                distinct_keys(g0),
                self.grams() == g0,
                self.order == old(self).order,
                self.counts@.len() == old(self).counts@.len(),
                ctx@.len() == self.order,
                bound < u64::MAX,
                g0 == old(self).grams(),
                forall|i: int| 0 <= i < self.counts@.len() ==> self.counts@[i] <= bound,
                j <= self.counts@.len(),
                forall|i: int| 0 <= i < j ==> !((#[trigger] g0[i]).0 == ctx@ && g0[i].1 == sym),
            decreases self.counts@.len() - j,
        {
            if self.symbols[j] == sym && same_symbols(&self.contexts[j], ctx) {
                assert(g0[j as int] == (ctx@, sym, self.counts@[j as int]));
                let c = self.counts[j];
                assert(c <= bound);
                self.counts.set(j, c + 1);
                proof {
                    let x = (ctx@, sym, (c + 1) as u64);
                    assert(self.grams() =~= g0.update(j as int, x));
                    assert(has_key(g0, ctx@, sym));
                    let jj = choose|jj: int|
                        0 <= jj < g0.len() && (#[trigger] g0[jj]).0 == ctx@ && g0[jj].1 == sym;
                    if jj != j {
                        if jj < j {
                            assert(!(g0[jj].0 == g0[j as int].0 && g0[jj].1 == g0[j as int].1));
                        } else {
                            assert(!(g0[j as int].0 == g0[jj].0 && g0[j as int].1 == g0[jj].1));
                        }
                    }
                    assert(self.grams() == add_event(g0, (ctx@, sym)));
                    assert forall|cc: Seq<u32>, s: u32|
                        #[trigger] gram_count(self.grams(), cc, s) == gram_count(g0, cc, s)
                            + if cc == ctx@ && s == sym {
                            1nat
                        } else {
                            0nat
                        } by {
                        lemma_gram_count_update(g0, j as int, x, cc, s);
                    }
                    assert forall|a: int, b: int|
                        0 <= a < b < self.grams().len() implies !((#[trigger] self.grams()[a]).0
                        == (#[trigger] self.grams()[b]).0 && self.grams()[a].1
                        == self.grams()[b].1) by {
                        assert(g0[a].0 == self.grams()[a].0 && g0[a].1 == self.grams()[a].1);
                        assert(g0[b].0 == self.grams()[b].0 && g0[b].1 == self.grams()[b].1);
                    }
                }
                return;
            }
            j = j + 1;
        }
        let copy = copy_symbols(ctx);
        self.contexts.push(copy);
        self.symbols.push(sym);
        self.counts.push(1);
        proof {
            let x = (ctx@, sym, 1u64);
            assert(self.grams() =~= g0.push(x));
            assert(!has_key(g0, ctx@, sym));
            assert(self.grams().drop_last() =~= g0);
            assert forall|cc: Seq<u32>, s: u32|
                #[trigger] gram_count(self.grams(), cc, s) == gram_count(g0, cc, s) + if cc == ctx@
                    && s == sym {
                    1nat
                } else {
                    0nat
                } by {
                assert(self.grams().last() == x);
            }
            assert forall|a: int, b: int|
                0 <= a < b < self.grams().len() implies !((#[trigger] self.grams()[a]).0 == (
                #[trigger] self.grams()[b]).0 && self.grams()[a].1 == self.grams()[b].1) by {
                if b < g0.len() {
                    assert(g0[a] == self.grams()[a] && g0[b] == self.grams()[b]);
                } else {
                    assert(g0[a] == self.grams()[a]);
                }
            }
        }
    }
}

/// The symbol at position `p` of the padded word.
fn padded_at(w: &Vec<u32>, k: usize, p: usize) -> (r: u32)
    requires
        p < k + w@.len() + 1,
    ensures
        r == padded(w@, k as nat)[p as int],
{
    let ghost pw = padded(w@, k as nat);
    assert(pw.len() == k + w@.len() + 1);
    if p < k {
        assert(pw[p as int] == BOUNDARY);
        BOUNDARY
    } else if p - k < w.len() {
        assert(pw[p as int] == w@[p - k]);
        w[p - k]
    } else {
        assert(pw[p as int] == BOUNDARY);
        BOUNDARY
    }
}

/// The `k` padded symbols that precede position `i + k`.
fn window_at(w: &Vec<u32>, k: usize, i: usize) -> (r: Vec<u32>)
    requires
        i <= w@.len(),
        k <= MAX_ORDER,
        w@.len() <= MAX_CORPUS_SYMBOLS,
    ensures
        r@ == padded(w@, k as nat).subrange(i as int, i + k),
{
    let mut r: Vec<u32> = Vec::new();
    let mut j: usize = 0;
    while j < k
        invariant
            i <= w@.len(),
            k <= MAX_ORDER,
            w@.len() <= MAX_CORPUS_SYMBOLS,
            j <= k,
            r@ == padded(w@, k as nat).subrange(i as int, i + j),
        decreases k - j,
    {
        let x = padded_at(w, k, i + j);
        r.push(x);
        j = j + 1;
        assert(r@ =~= padded(w@, k as nat).subrange(i as int, i + j));
    }
    r
}

/// Trains the order-`k` table on the units: every count is the number of
/// times its context was followed by its symbol.
pub fn train_model(units: &Vec<Vec<u32>>, k: usize) -> (r: NGramModel)
    requires
        k <= MAX_ORDER,
        corpus_size(units_view(units@)) <= MAX_CORPUS_SYMBOLS + 1,
    ensures
        r.wf(),
        distinct_keys(r.grams()),
        r.grams() == table_of(events(units_view(units@), k as nat)),
        r.order == k,
        r.within_limits(),
        forall|c: Seq<u32>, s: u32|
            #[trigger] r.count_of(c, s) == occurrences(
                events(units_view(units@), k as nat),
                (c, s),
            ),
{
    let ghost uv = units_view(units@);
    let mut model = NGramModel::new(k);
    let ghost mut done: Seq<Event> = Seq::empty();
    let mut processed: u64 = 0;
    let mut u: usize = 0;
    proof {
        assert(model.grams().len() == 0);
        lemma_events_len(uv, k as nat);
        assert(uv.subrange(0, 0) =~= Seq::<Seq<u32>>::empty());
    }
    while u < units.len()
        invariant
            uv == units_view(units@),
            k <= MAX_ORDER,
            corpus_size(uv) <= MAX_CORPUS_SYMBOLS + 1,
            u <= units@.len(),
            model.wf(),
            distinct_keys(model.grams()),
            model.grams() == table_of(done),
            model.order == k,
            done == events(uv.subrange(0, u as int), k as nat),
            processed as nat == done.len(),
            processed <= corpus_size(uv.subrange(0, u as int)),
            model.counts@.len() <= processed,
            forall|i: int| 0 <= i < model.counts@.len() ==> model.counts@[i] <= processed,
            forall|c: Seq<u32>, s: u32| #[trigger] model.count_of(c, s) == occurrences(done, (c, s)),
        decreases units@.len() - u,
    {
        let w = &units[u];
        proof {
            lemma_corpus_size_prefix(uv, u as int);
            lemma_events_step(uv, u as int, k as nat);
            assert(uv[u as int] == w@);
            lemma_events_len(uv.subrange(0, u as int), k as nat);
        }
        let ghost start = done;
        assert(start.len() <= corpus_size(uv.subrange(0, u as int)));
        if w.len() > 0 {
            let mut i: usize = 0;
            while i <= w.len()
                invariant
                    k <= MAX_ORDER,
                    0 < w@.len() <= MAX_CORPUS_SYMBOLS,
                    i <= w@.len() + 1,
                    model.wf(),
                    distinct_keys(model.grams()),
                    model.grams() == table_of(done),
                    model.order == k,
                    done == start + unit_events(w@, k as nat).subrange(0, i as int),
                    u < uv.len(),
                    start.len() <= corpus_size(uv.subrange(0, u as int)),
                    processed as nat == done.len(),
                    processed + (w@.len() + 1 - i) <= MAX_CORPUS_SYMBOLS + 1,
                    model.counts@.len() <= processed,
                    forall|j: int| 0 <= j < model.counts@.len() ==> model.counts@[j] <= processed,
                    forall|c: Seq<u32>, s: u32|
                        #[trigger] model.count_of(c, s) == occurrences(done, (c, s)),
                decreases w@.len() + 1 - i,
            {
                let window = window_at(w, k, i);
                let next = padded_at(w, k, i + k);
                let ghost before = done;
                model.record(&window, next, processed);
                proof {
                    let e = (window@, next);
                    done = done.push(e);
                    assert(done.drop_last() =~= before);
                    assert(unit_events(w@, k as nat)[i as int] == e);
                    assert(done =~= start + unit_events(w@, k as nat).subrange(0, i + 1));
                    assert forall|c: Seq<u32>, s: u32|
                        #[trigger] model.count_of(c, s) == occurrences(done, (c, s)) by {
                        lemma_occurrences_push(before, e, (c, s));
                    }
                }
                processed = processed + 1;
                i = i + 1;
            }
            assert(done =~= start + unit_events(w@, k as nat));
            assert(processed == start.len() + w@.len() + 1);
        } else {
            assert(done =~= start + unit_events(w@, k as nat));
        }
        proof {
            lemma_events_step(uv, u as int, k as nat);
            assert(uv[u as int] == w@);
        }
        u = u + 1;
    }
    assert(uv.subrange(0, units@.len() as int) =~= uv);
    model
}

proof fn lemma_gram_count_absent(g: Seq<GramView>, ctx: Seq<u32>, sym: u32)
    requires
        forall|i: int| 0 <= i < g.len() ==> !((#[trigger] g[i]).0 == ctx && g[i].1 == sym),
    ensures
        gram_count(g, ctx, sym) == 0,
    decreases g.len(),
{
    if g.len() > 0 {
        assert(!(g[g.len() - 1].0 == ctx && g[g.len() - 1].1 == sym));
        lemma_gram_count_absent(g.drop_last(), ctx, sym);
    }
}

pub(crate) proof fn lemma_count_positive_has_context(m: NGramModel, ctx: Seq<u32>, sym: u32)
    requires
        m.wf(),
        m.count_of(ctx, sym) > 0,
    ensures
        m.has_context(ctx),
{
    let g = m.grams();
    if !m.has_context(ctx) {
        assert forall|i: int| 0 <= i < g.len() implies !((#[trigger] g[i]).0 == ctx && g[i].1
            == sym) by {
            assert(g[i].0 == m.contexts@[i]@);
        }
        lemma_gram_count_absent(g, ctx, sym);
    }
}

impl NGramModel {
    /// The count of `sym` after `ctx`; zero when never observed.
    pub fn lookup(&self, ctx: &Vec<u32>, sym: u32) -> (r: u64)
        requires
            self.wf(),
            self.within_limits(),
        ensures
            r == self.count_of(ctx@, sym),
    {
        let ghost g = self.grams();
        let mut total: u64 = 0;
        let mut j: usize = 0;
        while j < self.counts.len()
            invariant
                self.wf(),
                self.within_limits(),
                g == self.grams(),
                j <= self.counts@.len(),
                total == gram_count(g.subrange(0, j as int), ctx@, sym),
                total <= j * (MAX_CORPUS_SYMBOLS + 1),
            decreases self.counts@.len() - j,
        {
            proof {
                assert(g.subrange(0, j + 1).drop_last() =~= g.subrange(0, j as int));
                assert(g.subrange(0, j + 1).last() == g[j as int]);
            }
            if self.symbols[j] == sym && same_symbols(&self.contexts[j], ctx) {
                let c = self.counts[j];
                assert(c <= MAX_CORPUS_SYMBOLS + 1);
                assert((MAX_CORPUS_SYMBOLS + 1) * (MAX_CORPUS_SYMBOLS + 1) < 0x2000_0000_0000_0000)
                    by (nonlinear_arith)
                    requires
                        MAX_CORPUS_SYMBOLS + 1 == 0x4000_0001,
                ;
                assert(total + c <= (j + 1) * (MAX_CORPUS_SYMBOLS + 1)) by (nonlinear_arith)
                    requires
                        total <= j * (MAX_CORPUS_SYMBOLS + 1),
                        c <= MAX_CORPUS_SYMBOLS + 1,
                ;
                assert((j + 1) * (MAX_CORPUS_SYMBOLS + 1) <= (MAX_CORPUS_SYMBOLS + 1) * (
                MAX_CORPUS_SYMBOLS + 1)) by (nonlinear_arith)
                    requires
                        j + 1 <= MAX_CORPUS_SYMBOLS + 1,
                ;
                total = total + c;
            } else {
                assert(j * (MAX_CORPUS_SYMBOLS + 1) <= (j + 1) * (MAX_CORPUS_SYMBOLS + 1)) by (
                nonlinear_arith);
            }
            j = j + 1;
        }
        assert(g.subrange(0, g.len() as int) =~= g);
        total
    }

    /// Whether some entry has context `ctx`.
    pub fn contains_context(&self, ctx: &Vec<u32>) -> (r: bool)
        requires
            self.wf(),
        ensures
            r == self.has_context(ctx@),
    {
        let mut j: usize = 0;
        while j < self.counts.len()
            invariant
                self.wf(),
                j <= self.counts@.len(),
                forall|i: int| 0 <= i < j ==> (#[trigger] self.contexts@[i])@ != ctx@,
            decreases self.counts@.len() - j,
        {
            if same_symbols(&self.contexts[j], ctx) {
                return true;
            }
            j = j + 1;
        }
        false
    }
}

} // verus!
