//! The stored form of a chain, the key it is stored under, and the cache
//! policy.
use vstd::prelude::*;

use crate::chain::BackoffChain;
use crate::corpus::{MAX_CORPUS_SYMBOLS, lemma_concat_split};
use crate::ngram::{GramView, NGramModel, table_wf};
use crate::config::{CachePolicy, ModelParameters, MAX_ORDER};

verus! {

/// What to do with the model cache in one run.
#[derive(Clone, Copy, Debug, PartialEq, Eq, Structural)]
pub struct CachePlan {
    /// Try to load a stored chain before training.
    pub read: bool,
    /// Store the chain once it has been trained.
    pub write_after_training: bool,
}

/// The cache plan of a policy: bypass neither reads nor writes; a forced
/// rebuild never reads and always writes what it trains; the default reads
/// and, on a miss, writes what it trains.
pub fn cache_plan(policy: CachePolicy) -> (r: CachePlan)
    ensures
        r.read <==> policy == CachePolicy::UseOrBuild,
        r.write_after_training <==> policy != CachePolicy::Bypass,
{
    match policy {
        CachePolicy::Bypass => CachePlan { read: false, write_after_training: false },
        CachePolicy::UseOrBuild => CachePlan { read: true, write_after_training: true },
        CachePolicy::ForceRebuild => CachePlan { read: false, write_after_training: true },
    }
}

/// The words that store one entry: its context, its symbol, its count.
pub open spec fn entry_words(x: GramView) -> Seq<u32> {
    x.0 + seq![x.1, x.2 as u32]
}

/// The words that store the entries of a table, one after another.
pub open spec fn grams_words(g: Seq<GramView>) -> Seq<u32>
    decreases g.len(),
{
    if g.len() == 0 {
        Seq::empty()
    } else {
        grams_words(g.drop_last()) + entry_words(g.last())
    }
}

/// A table stored as its number of entries, then the entries.
pub open spec fn block_words(g: Seq<GramView>) -> Seq<u32> {
    seq![g.len() as u32] + grams_words(g)
}

/// The tables stored one after another, lowest order first.
pub open spec fn tables_words(ts: Seq<Seq<GramView>>) -> Seq<u32>
    decreases ts.len(),
{
    if ts.len() == 0 {
        Seq::empty()
    } else {
        tables_words(ts.drop_last()) + block_words(ts.last())
    }
}

pub open spec fn tables_of(models: Seq<NGramModel>) -> Seq<Seq<GramView>> {
    models.map_values(|m: NGramModel| m.grams())
}

/// A chain stored as its order, then its tables.
pub open spec fn chain_words(c: BackoffChain) -> Seq<u32> {
    seq![c.order as u32] + tables_words(tables_of(c.models@))
}

proof fn lemma_tables_push(models: Seq<NGramModel>, m: NGramModel)
    ensures
        tables_words(tables_of(models.push(m))) == tables_words(tables_of(models)) + block_words(
            m.grams(),
        ),
{
    assert(tables_of(models.push(m)) =~= tables_of(models).push(m.grams()));
    assert(tables_of(models.push(m)).drop_last() =~= tables_of(models));
}

proof fn lemma_grams_push(g: Seq<GramView>, x: GramView)
    ensures
        grams_words(g.push(x)) == grams_words(g) + entry_words(x),
{
    assert(g.push(x).drop_last() =~= g);
}

impl BackoffChain {
    /// The chain as words, for the model cache (see `chain_words`).
    pub fn encode(&self) -> (r: Vec<u32>)
        requires
            self.wf(),
        ensures
            r@ == chain_words(*self),
    {
        let mut r: Vec<u32> = Vec::new();
        r.push(self.order as u32);
        let mut k: usize = 0;
        while k < self.models.len()
            invariant
                self.wf(),
                k <= self.models@.len(),
                r@ == seq![self.order as u32] + tables_words(
                    tables_of(self.models@.subrange(0, k as int)),
                ),
            decreases self.models@.len() - k,
        {
            let m = &self.models[k];
            r.push(m.counts.len() as u32);
            let ghost base = r@;
            let mut i: usize = 0;
            while i < m.counts.len()
                invariant
                    m.wf(),
                    i <= m.counts@.len(),
                    r@ == base + grams_words(m.grams().subrange(0, i as int)),
                decreases m.counts@.len() - i,
            {
                let ctx = &m.contexts[i];
                let ghost before = r@;
                let mut j: usize = 0;
                while j < ctx.len()
                    invariant
                        j <= ctx@.len(),
                        r@ == before + ctx@.subrange(0, j as int),
                    decreases ctx@.len() - j,
                {
                    r.push(ctx[j]);
                    j = j + 1;
                    assert(r@ =~= before + ctx@.subrange(0, j as int));
                }
                r.push(m.symbols[i]);
                r.push(m.counts[i] as u32);
                proof {
                    let g = m.grams();
                    assert(g.subrange(0, i + 1) =~= g.subrange(0, i as int).push(g[i as int]));
                    lemma_grams_push(g.subrange(0, i as int), g[i as int]);
                    assert(ctx@.subrange(0, ctx@.len() as int) =~= ctx@);
                    assert(r@ =~= base + grams_words(g.subrange(0, i + 1)));
                }
                i = i + 1;
            }
            proof {
                let ms = self.models@;
                assert(ms.subrange(0, k + 1) =~= ms.subrange(0, k as int).push(ms[k as int]));
                lemma_tables_push(ms.subrange(0, k as int), ms[k as int]);
                assert(m.grams().subrange(0, m.counts@.len() as int) =~= m.grams());
                assert(r@ =~= seq![self.order as u32] + tables_words(
                    tables_of(ms.subrange(0, k + 1)),
                ));
            }
            k = k + 1;
        }
        assert(self.models@.subrange(0, self.models@.len() as int) =~= self.models@);
        r
    }
}

/// Reads a chain stored from position `start` to the end of `words`.
/// `None` when the words are cut short, run on, or hold an order, a table
/// size or a count that a trained chain cannot have; what it returns
/// stores back to exactly those words.
pub fn decode_chain(words: &Vec<u32>, start: usize) -> (r: Option<BackoffChain>)
    ensures
        r is Some ==> r->0.wf() && start <= words@.len() && chain_words(r->0) == words@.subrange(
            start as int,
            words@.len() as int,
        ),
        start <= words@.len() && (exists|c: BackoffChain|
            c.wf() && #[trigger] chain_words(c) == words@.subrange(start as int, words@.len() as int))
            ==> r is Some,
{
    let ghost hyp = start <= words@.len() && exists|c: BackoffChain|
        c.wf() && #[trigger] chain_words(c) == words@.subrange(start as int, words@.len() as int);
    let ghost c0 = choose|c: BackoffChain|
        c.wf() && #[trigger] chain_words(c) == words@.subrange(start as int, words@.len() as int);
    let ghost t0 = tables_of(c0.models@);
    proof {
        if hyp {
            lemma_chain_tables_fit(c0);
            assert(words@.subrange(start as int, words@.len() as int).len() > 0);
            lemma_rest_split(words@, start as int, seq![c0.order as u32], tables_words(t0));
            assert(words@[start + 0] == seq![c0.order as u32][0]);
            assert(t0.subrange(0, t0.len() as int) =~= t0);
            assert(t0.len() == c0.order + 1);
        }
    }
    if start >= words.len() {
        return None;
    }
    let order_word = words[start];
    if order_word as u64 > MAX_ORDER as u64 {
        return None;
    }
    let order = order_word as usize;
    assert(hyp ==> order == c0.order);
    let mut models: Vec<NGramModel> = Vec::new();
    let mut pos: usize = start + 1;
    let mut k: usize = 0;
    while k <= order
        invariant
            order <= MAX_ORDER,
            order as u32 == order_word,
            start < pos <= words@.len(),
            k <= order + 1,
            models@.len() == k,
            forall|j: int|
                0 <= j < k ==> (#[trigger] models@[j]).wf() && models@[j].order == j
                    && models@[j].within_limits(),
            words@.subrange(start as int, pos as int) == seq![order_word] + tables_words(
                tables_of(models@),
            ),
            hyp == (start <= words@.len() && exists|c: BackoffChain|
                c.wf() && #[trigger] chain_words(c) == words@.subrange(start as int, words@.len() as int)),
            hyp ==> order == c0.order && t0.len() == order + 1 && (forall|i: int|
                0 <= i < t0.len() ==> table_fits(#[trigger] t0[i], 0 + i as nat)) && words@.subrange(
                pos as int,
                words@.len() as int,
            ) == tables_words(t0.subrange(k as int, t0.len() as int)),
        decreases order + 1 - k,
    {
        let ghost rest_t = t0.subrange(k + 1, t0.len() as int);
        proof {
            if hyp {
                let rest = t0.subrange(k as int, t0.len() as int);
                lemma_tables_words_front(rest);
                assert(rest[0] == t0[k as int]);
                assert(rest.skip(1) =~= rest_t);
                assert(block_words(t0[k as int]) + tables_words(rest_t) =~= seq![
                    t0[k as int].len() as u32,
                ] + (grams_words(t0[k as int]) + tables_words(rest_t)));
                lemma_rest_split(
                    words@,
                    pos as int,
                    seq![t0[k as int].len() as u32],
                    grams_words(t0[k as int]) + tables_words(rest_t),
                );
                assert(words@[pos + 0] == seq![t0[k as int].len() as u32][0]);
                assert(table_fits(t0[k as int], 0 + k as nat));
                assert(t0[k as int].subrange(0, t0[k as int].len() as int) =~= t0[k as int]);
            }
        }
        if pos >= words.len() {
            return None;
        }
        let n = words[pos];
        if n as u64 > MAX_CORPUS_SYMBOLS as u64 + 1 {
            return None;
        }
        let ghost head = words@.subrange(start as int, pos as int);
        pos = pos + 1;
        let mut model = NGramModel::new(k);
        assert(model.grams().len() == 0);
        let mut i: u32 = 0;
        assert(hyp ==> n == t0[k as int].len());
        while i < n
            invariant
                hyp == (start <= words@.len() && exists|c: BackoffChain|
                    c.wf() && #[trigger] chain_words(c) == words@.subrange(start as int, words@.len() as int)),
                hyp ==> k < t0.len() && n == t0[k as int].len() && table_fits(t0[k as int], k as nat)
                    && rest_t == t0.subrange(k + 1, t0.len() as int) && words@.subrange(
                    pos as int,
                    words@.len() as int,
                ) == grams_words(t0[k as int].subrange(i as int, n as int)) + tables_words(rest_t),
                start < pos <= words@.len(),
                k <= MAX_ORDER,
                n <= MAX_CORPUS_SYMBOLS + 1,
                i <= n,
                model.wf(),
                model.order == k,
                model.within_limits(),
                model.counts@.len() == i,
                words@.subrange(start as int, pos as int) == head + seq![n] + grams_words(
                    model.grams(),
                ),
            decreases n - i,
        {
            let ghost p0 = pos as int;
            let ghost g = t0[k as int].subrange(i as int, n as int);
            proof {
                if hyp {
                    lemma_grams_words_front(g);
                    assert(g[0] == t0[k as int][i as int]);
                    assert(g.skip(1) =~= t0[k as int].subrange(i + 1, n as int));
                    assert(entry_words(g[0]) + grams_words(g.skip(1)) + tables_words(rest_t)
                        =~= entry_words(g[0]) + (grams_words(g.skip(1)) + tables_words(rest_t)));
                    lemma_rest_split(
                        words@,
                        pos as int,
                        entry_words(g[0]),
                        grams_words(g.skip(1)) + tables_words(rest_t),
                    );
                    assert(g[0].0.len() == k);
                    assert(entry_words(g[0]).len() == k + 2);
                    assert(entry_words(g[0])[k + 1int] == g[0].2 as u32);
                    assert(words@[pos + (k + 1int)] == entry_words(g[0])[k + 1int]);
                }
            }
            if words.len() - pos < k + 2 {
                return None;
            }
            let count = words[pos + k + 1];
            if count == 0 || count as u64 > MAX_CORPUS_SYMBOLS as u64 + 1 {
                return None;
            }
            let mut ctx: Vec<u32> = Vec::new();
            let mut j: usize = 0;
            let wl = words.len();
            while j < k
                invariant
                    wl == words@.len(),
                    pos + k + 2 <= words@.len(),
                    j <= k,
                    ctx@ == words@.subrange(pos as int, pos + j),
                decreases k - j,
            {
                ctx.push(words[pos + j]);
                j = j + 1;
                assert(ctx@ =~= words@.subrange(pos as int, pos + j));
            }
            let sym = words[pos + k];
            let ghost g0 = model.grams();
            let ghost x: GramView = (ctx@, sym, count as u64);
            model.contexts.push(ctx);
            model.symbols.push(sym);
            model.counts.push(count as u64);
            proof {
                assert(model.grams() =~= g0.push(x));
                lemma_grams_push(g0, x);
                assert(words@.subrange(pos as int, pos + k + 2) =~= entry_words(x));
                assert(words@.subrange(start as int, pos + k + 2) =~= words@.subrange(
                    start as int,
                    pos as int,
                ) + words@.subrange(pos as int, pos + k + 2));
            }
            pos = pos + k + 2;
            i = i + 1;
            assert(hyp ==> words@.subrange(pos as int, words@.len() as int) == grams_words(
                t0[k as int].subrange(i as int, n as int),
            ) + tables_words(rest_t));
        }
        proof {
            if hyp {
                assert(t0[k as int].subrange(n as int, n as int) =~= Seq::<GramView>::empty());
                assert(grams_words(Seq::<GramView>::empty()) + tables_words(rest_t) =~= tables_words(
                    rest_t,
                ));
            }
        }
        proof {
            assert(n as nat == model.grams().len());
            lemma_tables_push(models@, model);
            assert(block_words(model.grams()) == seq![n] + grams_words(model.grams()));
            assert(words@.subrange(start as int, pos as int) =~= head + block_words(model.grams()));
        }
        models.push(model);
        k = k + 1;
    }
    proof {
        if hyp {
            assert(t0.subrange(k as int, t0.len() as int) =~= Seq::<Seq<GramView>>::empty());
        }
    }
    if pos != words.len() {
        return None;
    }
    let chain = BackoffChain { order, models };
    Some(chain)
}

proof fn lemma_rest_split(words: Seq<u32>, pos: int, x: Seq<u32>, y: Seq<u32>)
    requires
        0 <= pos <= words.len(),
        words.subrange(pos, words.len() as int) == x + y,
    ensures
        pos + x.len() <= words.len(),
        words.subrange(pos + x.len(), words.len() as int) == y,
        forall|j: int| 0 <= j < x.len() ==> words[pos + j] == #[trigger] x[j],
{
    assert(words.subrange(pos + x.len(), words.len() as int) =~= (x + y).subrange(
        x.len() as int,
        (x + y).len() as int,
    ));
    assert forall|j: int| 0 <= j < x.len() implies words[pos + j] == #[trigger] x[j] by {
        assert(words.subrange(pos, words.len() as int)[j] == (x + y)[j]);
        assert(words.subrange(pos, words.len() as int)[j] == words[pos + j]);
        assert((x + y)[j] == x[j]);
    }
}

pub const FNV_OFFSET: u32 = 0x811c_9dc5;

pub const FNV_PRIME: u32 = 0x0100_0193;

/// The 32-bit FNV-1a fingerprint of a symbol sequence, one symbol at a time.
pub open spec fn fingerprint(s: Seq<u32>) -> u32
    decreases s.len(),
{
    if s.len() == 0 {
        FNV_OFFSET
    } else {
        (((fingerprint(s.drop_last()) ^ s.last()) as int * FNV_PRIME as int) % 0x1_0000_0000) as u32
    }
}

/// The fingerprint of `corpus` (see `fingerprint`).
pub fn corpus_fingerprint(corpus: &Vec<u32>) -> (r: u32)
    ensures
        r == fingerprint(corpus@),
{
    let mut h: u32 = FNV_OFFSET;
    let mut i: usize = 0;
    while i < corpus.len()
        invariant
            i <= corpus@.len(),
            h == fingerprint(corpus@.subrange(0, i as int)),
        decreases corpus@.len() - i,
    {
        proof {
            let p = corpus@.subrange(0, i + 1);
            assert(p.drop_last() =~= corpus@.subrange(0, i as int));
        }
        let x = h ^ corpus[i];
        assert((x as u64) * (FNV_PRIME as u64) < 0x1_0000_0000 * 0x0100_0194) by (nonlinear_arith)
            requires
                x < 0x1_0000_0000,
                FNV_PRIME < 0x0100_0194,
        ;
        h = ((x as u64) * (FNV_PRIME as u64) % 0x1_0000_0000) as u32;
        i = i + 1;
    }
    assert(corpus@.subrange(0, corpus@.len() as int) =~= corpus@);
    h
}

/// What identifies a cache entry: the delimiter, the training parameters,
/// and the corpus's length and fingerprint.
pub open spec fn cache_key(corpus: Seq<u32>, delimiter: u32, params: ModelParameters) -> Seq<u32> {
    seq![
        delimiter,
        params.order as u32,
        (params.prior_millis % 0x1_0000_0000) as u32,
        (params.prior_millis / 0x1_0000_0000) as u32,
        if params.backoff {
            1u32
        } else {
            0u32
        },
        corpus.len() as u32,
        fingerprint(corpus),
    ]
}

pub fn make_cache_key(corpus: &Vec<u32>, delimiter: u32, params: &ModelParameters) -> (r: Vec<u32>)
    ensures
        r@ == cache_key(corpus@, delimiter, *params),
{
    let mut r: Vec<u32> = Vec::new();
    r.push(delimiter);
    r.push(params.order as u32);
    r.push((params.prior_millis % 0x1_0000_0000) as u32);
    r.push((params.prior_millis / 0x1_0000_0000) as u32);
    r.push(
        if params.backoff {
            1
        } else {
            0
        },
    );
    r.push(corpus.len() as u32);
    r.push(corpus_fingerprint(corpus));
    assert(r@ =~= cache_key(corpus@, delimiter, *params));
    r
}

/// The cache entry for a chain trained on `corpus`: its key, then the chain.
pub fn store_entry(corpus: &Vec<u32>, delimiter: u32, params: &ModelParameters, chain: &BackoffChain) -> (r:
    Vec<u32>)
    requires
        chain.wf(),
    ensures
        r@ == cache_key(corpus@, delimiter, *params) + chain_words(*chain),
{
    let mut r = make_cache_key(corpus, delimiter, params);
    let body = chain.encode();
    let ghost head = r@;
    let mut i: usize = 0;
    while i < body.len()
        invariant
            i <= body@.len(),
            r@ == head + body@.subrange(0, i as int),
        decreases body@.len() - i,
    {
        r.push(body[i]);
        i = i + 1;
        assert(r@ =~= head + body@.subrange(0, i as int));
    }
    assert(body@.subrange(0, body@.len() as int) =~= body@);
    r
}

/// Reads a cache entry for `corpus` and `params`. `None`, a miss, when the
/// entry was stored under another key, for another order, or cannot be
/// read as a chain; otherwise the chain the entry stores.
pub fn load_entry(words: &Vec<u32>, corpus: &Vec<u32>, delimiter: u32, params: &ModelParameters) -> (r:
    Option<BackoffChain>)
    ensures
        r is Some ==> r->0.wf() && r->0.order == params.order && words@ == cache_key(
            corpus@,
            delimiter,
            *params,
        ) + chain_words(r->0),
        words@.len() < 7 || words@.subrange(0, 7) != cache_key(corpus@, delimiter, *params)
            ==> r is None,
        (exists|c: BackoffChain|
            c.wf() && c.order == params.order && words@ == #[trigger] cache_key(
                corpus@,
                delimiter,
                *params,
            ) + chain_words(c)) ==> r is Some,
{
    let ghost stored = exists|c: BackoffChain|
        c.wf() && c.order == params.order && words@ == #[trigger] cache_key(corpus@, delimiter, *params)
            + chain_words(c);
    let ghost c0 = choose|c: BackoffChain|
        c.wf() && c.order == params.order && words@ == #[trigger] cache_key(corpus@, delimiter, *params)
            + chain_words(c);
    proof {
        if stored {
            let key_s = cache_key(corpus@, delimiter, *params);
            assert(key_s.len() == 7);
            assert(words@.subrange(0, 7) =~= key_s);
            assert(words@.subrange(7, words@.len() as int) =~= chain_words(c0));
        }
    }
    let key = make_cache_key(corpus, delimiter, params);
    if words.len() < key.len() {
        return None;
    }
    let mut i: usize = 0;
    while i < key.len()
        invariant
            key@.len() == 7,
            key@.len() <= words@.len(),
            key@ == cache_key(corpus@, delimiter, *params),
            stored == (exists|c: BackoffChain|
                c.wf() && c.order == params.order && words@ == #[trigger] cache_key(
                    corpus@,
                    delimiter,
                    *params,
                ) + chain_words(c)),
            stored ==> words@.subrange(0, 7) == key@,
            i <= key@.len(),
            forall|j: int| 0 <= j < i ==> words@[j] == key@[j],
        decreases key@.len() - i,
    {
        if words[i] != key[i] {
            assert(words@.subrange(0, 7)[i as int] != key@[i as int]);
            assert(!stored);
            return None;
        }
        i = i + 1;
    }
    assert(words@.subrange(0, 7) =~= key@);
    assert(stored ==> words@.subrange(7, words@.len() as int) == chain_words(c0));
    match decode_chain(words, key.len()) {
        None => None,
        Some(chain) => {
            proof {
                if stored {
                    lemma_stored_chain_is_unique(chain, c0);
                }
            }
            if chain.order != params.order {
                return None;
            }
            assert(words@ =~= words@.subrange(0, 7) + words@.subrange(7, words@.len() as int));
            Some(chain)
        },
    }
}

/// A table as a decoded or trained chain holds it at order `k`.
pub open spec fn table_fits(g: Seq<GramView>, k: nat) -> bool {
    &&& table_wf(g, k)
    &&& g.len() <= MAX_CORPUS_SYMBOLS + 1
    &&& forall|i: int| 0 <= i < g.len() ==> (#[trigger] g[i]).2 <= MAX_CORPUS_SYMBOLS + 1
}

proof fn lemma_grams_words_front(g: Seq<GramView>)
    requires
        g.len() > 0,
    ensures
        grams_words(g) == entry_words(g[0]) + grams_words(g.skip(1)),
    decreases g.len(),
{
    if g.len() == 1 {
        assert(g.drop_last() =~= Seq::<GramView>::empty());
        assert(g.skip(1) =~= Seq::<GramView>::empty());
        assert(grams_words(g) =~= entry_words(g[0]) + grams_words(g.skip(1)));
    } else {
        let d = g.drop_last();
        lemma_grams_words_front(d);
        assert(g.skip(1).drop_last() =~= d.skip(1));
        assert(g.skip(1).last() == g.last());
        assert(d[0] == g[0]);
        assert(grams_words(g) =~= entry_words(g[0]) + grams_words(g.skip(1)));
    }
}

proof fn lemma_tables_words_front(t: Seq<Seq<GramView>>)
    requires
        t.len() > 0,
    ensures
        tables_words(t) == block_words(t[0]) + tables_words(t.skip(1)),
    decreases t.len(),
{
    if t.len() == 1 {
        assert(t.drop_last() =~= Seq::<Seq<GramView>>::empty());
        assert(t.skip(1) =~= Seq::<Seq<GramView>>::empty());
        assert(tables_words(t) =~= block_words(t[0]) + tables_words(t.skip(1)));
    } else {
        let d = t.drop_last();
        lemma_tables_words_front(d);
        assert(t.skip(1).drop_last() =~= d.skip(1));
        assert(t.skip(1).last() == t.last());
        assert(d[0] == t[0]);
        assert(tables_words(t) =~= block_words(t[0]) + tables_words(t.skip(1)));
    }
}

proof fn lemma_grams_words_injective(
    a: Seq<GramView>,
    b: Seq<GramView>,
    k: nat,
    ra: Seq<u32>,
    rb: Seq<u32>,
)
    requires
        a.len() == b.len(),
        table_fits(a, k),
        table_fits(b, k),
        grams_words(a) + ra == grams_words(b) + rb,
    ensures
        a == b,
        ra == rb,
    decreases a.len(),
{
    if a.len() == 0 {
        assert(grams_words(a) + ra =~= ra);
        assert(grams_words(b) + rb =~= rb);
        assert(a =~= b);
    } else {
        lemma_grams_words_front(a);
        lemma_grams_words_front(b);
        let (x, y) = (a[0], b[0]);
        assert(grams_words(a) + ra =~= entry_words(x) + (grams_words(a.skip(1)) + ra));
        assert(grams_words(b) + rb =~= entry_words(y) + (grams_words(b.skip(1)) + rb));
        lemma_concat_split(
            entry_words(x),
            grams_words(a.skip(1)) + ra,
            entry_words(y),
            grams_words(b.skip(1)) + rb,
        );
        assert(x.0 =~= entry_words(x).subrange(0, k as int));
        assert(y.0 =~= entry_words(y).subrange(0, k as int));
        assert(entry_words(x)[k as int] == x.1);
        assert(entry_words(y)[k as int] == y.1);
        assert(entry_words(x)[k + 1int] == x.2 as u32);
        assert(entry_words(y)[k + 1int] == y.2 as u32);
        assert(x.2 == y.2);
        assert(table_fits(a.skip(1), k)) by {
            assert forall|i: int| 0 <= i < a.skip(1).len() implies (#[trigger] a.skip(1)[i]).0.len()
                == k && a.skip(1)[i].2 >= 1 && a.skip(1)[i].2 <= MAX_CORPUS_SYMBOLS + 1 by {
                assert(a.skip(1)[i] == a[i + 1]);
            }
        }
        assert(table_fits(b.skip(1), k)) by {
            assert forall|i: int| 0 <= i < b.skip(1).len() implies (#[trigger] b.skip(1)[i]).0.len()
                == k && b.skip(1)[i].2 >= 1 && b.skip(1)[i].2 <= MAX_CORPUS_SYMBOLS + 1 by {
                assert(b.skip(1)[i] == b[i + 1]);
            }
        }
        lemma_grams_words_injective(a.skip(1), b.skip(1), k, ra, rb);
        assert(a =~= seq![x] + a.skip(1));
        assert(b =~= seq![y] + b.skip(1));
    }
}

proof fn lemma_tables_words_injective(a: Seq<Seq<GramView>>, b: Seq<Seq<GramView>>, base: nat)
    requires
        a.len() == b.len(),
        forall|i: int| 0 <= i < a.len() ==> table_fits(#[trigger] a[i], base + i as nat),
        forall|i: int| 0 <= i < b.len() ==> table_fits(#[trigger] b[i], base + i as nat),
        tables_words(a) == tables_words(b),
    ensures
        a == b,
    decreases a.len(),
{
    if a.len() == 0 {
        assert(a =~= b);
    } else {
        lemma_tables_words_front(a);
        lemma_tables_words_front(b);
        let (x, y) = (a[0], b[0]);
        assert(table_fits(x, base) && table_fits(y, base));
        assert(block_words(x) + tables_words(a.skip(1)) =~= seq![x.len() as u32] + (grams_words(x)
            + tables_words(a.skip(1))));
        assert(block_words(y) + tables_words(b.skip(1)) =~= seq![y.len() as u32] + (grams_words(y)
            + tables_words(b.skip(1))));
        lemma_concat_split(
            seq![x.len() as u32],
            grams_words(x) + tables_words(a.skip(1)),
            seq![y.len() as u32],
            grams_words(y) + tables_words(b.skip(1)),
        );
        assert(seq![x.len() as u32][0] == seq![y.len() as u32][0]);
        assert(x.len() == y.len());
        lemma_grams_words_injective(x, y, base, tables_words(a.skip(1)), tables_words(b.skip(1)));
        assert forall|i: int| 0 <= i < a.skip(1).len() implies table_fits(
            #[trigger] a.skip(1)[i],
            (base + 1) as nat + i as nat,
        ) by {
            assert(a.skip(1)[i] == a[i + 1]);
            assert(table_fits(a[i + 1], base + (i + 1) as nat));
        }
        assert forall|i: int| 0 <= i < b.skip(1).len() implies table_fits(
            #[trigger] b.skip(1)[i],
            (base + 1) as nat + i as nat,
        ) by {
            assert(b.skip(1)[i] == b[i + 1]);
            assert(table_fits(b[i + 1], base + (i + 1) as nat));
        }
        lemma_tables_words_injective(a.skip(1), b.skip(1), base + 1);
        assert(a =~= seq![x] + a.skip(1));
        assert(b =~= seq![y] + b.skip(1));
    }
}

proof fn lemma_chain_tables_fit(c: BackoffChain)
    requires
        c.wf(),
    ensures
        forall|i: int|
            0 <= i < tables_of(c.models@).len() ==> table_fits(
                #[trigger] tables_of(c.models@)[i],
                0 + i as nat,
            ),
{
    assert forall|i: int| 0 <= i < tables_of(c.models@).len() implies table_fits(
        #[trigger] tables_of(c.models@)[i],
        0 + i as nat,
    ) by {
        let m = c.models@[i];
        assert(m.wf() && m.order == i && m.within_limits());
        assert(tables_of(c.models@)[i] == m.grams());
        assert forall|j: int| 0 <= j < m.grams().len() implies (#[trigger] m.grams()[j]).2
            <= MAX_CORPUS_SYMBOLS + 1 by {
            assert(m.grams()[j].2 == m.counts@[j]);
        }
    }
}

/// The stored form determines the chain: two well-formed chains stored as
/// the same words have the same order and the same tables, entry for entry,
/// so they give the same count to every context and symbol and make the
/// same draw from the same random value.
pub proof fn lemma_stored_chain_is_unique(a: BackoffChain, b: BackoffChain)
    requires
        a.wf(),
        b.wf(),
        chain_words(a) == chain_words(b),
    ensures
        a.order == b.order,
        tables_of(a.models@) == tables_of(b.models@),
{
    lemma_concat_split(
        seq![a.order as u32],
        tables_words(tables_of(a.models@)),
        seq![b.order as u32],
        tables_words(tables_of(b.models@)),
    );
    assert(seq![a.order as u32][0] == seq![b.order as u32][0]);
    assert(a.order == b.order);
    lemma_chain_tables_fit(a);
    lemma_chain_tables_fit(b);
    lemma_tables_words_injective(tables_of(a.models@), tables_of(b.models@), 0);
}

/// Reading back a stored cache entry gives the chain that was stored: a
/// chain that `load_entry` can return from the words `store_entry` wrote
/// for `c` has the order and the tables of `c`.
pub proof fn lemma_cache_round_trip(
    c: BackoffChain,
    d: BackoffChain,
    corpus: Seq<u32>,
    delimiter: u32,
    params: ModelParameters,
)
    requires
        c.wf(),
        d.wf(),
        cache_key(corpus, delimiter, params) + chain_words(c) == cache_key(corpus, delimiter, params)
            + chain_words(d),
    ensures
        c.order == d.order,
        tables_of(c.models@) == tables_of(d.models@),
{
    lemma_concat_split(
        cache_key(corpus, delimiter, params),
        chain_words(c),
        cache_key(corpus, delimiter, params),
        chain_words(d),
    );
    lemma_stored_chain_is_unique(c, d);
}

} // verus!
