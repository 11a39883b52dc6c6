//! Words drawn from a chain, and the checks and training that come first.
use vstd::prelude::*;

use crate::cache::{chain_words, tables_of};
use crate::chain::{BackoffChain, lemma_training_deterministic, train_chain};
use crate::corpus::{BOUNDARY, MAX_CORPUS_SYMBOLS, corpus_is_empty, flat, free_of, lemma_flat_injective, split_units, units_view};
use crate::config::{LengthRange, MarkovError, ModelParameters};
use crate::random::random_below;

verus! {

/// How many times a word that ended too early is started again.
pub const MAX_ATTEMPTS: usize = 100;

/// ASCII upper case of a lower-case letter; other symbols stay as they are.
pub open spec fn upper_symbol(s: u32) -> u32 {
    if 97 <= s <= 122 {
        (s - 32) as u32
    } else {
        s
    }
}

/// `w` with its first symbol in upper case when `capitalize` is set.
pub open spec fn capitalized_word(w: Seq<u32>, capitalize: bool) -> Seq<u32> {
    if capitalize && w.len() > 0 {
        w.update(0, upper_symbol(w[0]))
    } else {
        w
    }
}

/// No symbol of `w` is the boundary.
pub open spec fn no_boundary(w: Seq<u32>) -> bool {
    forall|i: int| 0 <= i < w.len() ==> #[trigger] w[i] != BOUNDARY
}

/// `ctx` without its first symbol, followed by `s`.
pub open spec fn shifted(ctx: Seq<u32>, s: u32) -> Seq<u32> {
    if ctx.len() == 0 {
        ctx
    } else {
        ctx.subrange(1, ctx.len() as int).push(s)
    }
}

/// The context at the start of a word: `order` boundaries.
pub fn start_context(order: usize) -> (r: Vec<u32>)
    ensures
        r@ == Seq::new(order as nat, |i: int| BOUNDARY),
{
    let mut r: Vec<u32> = Vec::new();
    let mut i: usize = 0;
    while i < order
        invariant
            i <= order,
            r@ == Seq::new(i as nat, |j: int| BOUNDARY),
        decreases order - i,
    {
        r.push(BOUNDARY);
        i = i + 1;
        assert(r@ =~= Seq::new(i as nat, |j: int| BOUNDARY));
    }
    r
}

/// The context after `s` is drawn: the window moves on by one symbol.
pub fn shift_context(ctx: &Vec<u32>, s: u32) -> (r: Vec<u32>)
    ensures
        r@ == shifted(ctx@, s),
{
    let mut r: Vec<u32> = Vec::new();
    if ctx.len() == 0 {
        assert(r@ =~= ctx@);
        return r;
    }
    let mut i: usize = 1;
    while i < ctx.len()
        invariant
            1 <= i <= ctx@.len(),
            r@ == ctx@.subrange(1, i as int),
        decreases ctx@.len() - i,
    {
        r.push(ctx[i]);
        i = i + 1;
        assert(r@ =~= ctx@.subrange(1, i as int));
    }
    r.push(s);
    r
}

fn upper_first(w: &mut Vec<u32>)
    ensures
        final(w)@.len() == old(w)@.len(),
        old(w)@.len() > 0 ==> final(w)@ == old(w)@.update(0, upper_symbol(old(w)@[0])),
        no_boundary(old(w)@) ==> no_boundary(final(w)@),
{
    if w.len() > 0 {
        let c = w[0];
        if 97 <= c && c <= 122 {
            w.set(0, c - 32);
        }
        assert(w@ =~= old(w)@.update(0, upper_symbol(old(w)@[0])));
    }
}

/// The context after the symbols `p` of a word: the last `order` of the
/// starting boundaries followed by `p`.
pub open spec fn word_context(order: nat, p: Seq<u32>) -> Seq<u32> {
    (Seq::new(order, |i: int| BOUNDARY) + p).subrange(p.len() as int, (p.len() + order) as int)
}

/// Whether a draw may end the word at length `len`: always, but on the
/// last attempt only once `minimum` is reached.
pub open spec fn end_allowed(last: bool, minimum: usize, len: int) -> bool {
    !last || len >= minimum
}

proof fn lemma_word_context_push(order: nat, p: Seq<u32>, s: u32)
    ensures
        shifted(word_context(order, p), s) == word_context(order, p.push(s)),
{
    let b = Seq::new(order, |i: int| BOUNDARY);
    assert(b + p.push(s) =~= (b + p).push(s));
    assert(shifted(word_context(order, p), s) =~= word_context(order, p.push(s)));
}

/// One random value per step of a word, each below `u128::MAX`.
fn random_draws(n: usize) -> (r: Vec<u128>)
    ensures
        r@.len() == n,
{
    let mut r: Vec<u128> = Vec::new();
    let mut i: usize = 0;
    while i < n
        invariant
            i <= n,
            r@.len() == i,
        decreases n - i,
    {
        r.push(random_below(u128::MAX));
        i = i + 1;
    }
    r
}

impl BackoffChain {
    /// Each symbol of `w` could be drawn after the symbols before it.
    pub open spec fn follows_chain(&self, params: ModelParameters, w: Seq<u32>) -> bool {
        forall|i: int|
            0 <= i < w.len() ==> #[trigger] self.drawable(
                word_context(self.order as nat, w.subrange(0, i)),
                params.backoff,
                params.prior_millis,
                true,
                w[i],
            )
    }

    /// Each symbol of `w` is the one `draws[offset + i]` picks after the
    /// symbols before it.
    pub open spec fn drawn_from(
        &self,
        params: ModelParameters,
        minimum: usize,
        last: bool,
        w: Seq<u32>,
        draws: Seq<u128>,
        offset: int,
    ) -> bool {
        forall|i: int|
            0 <= i < w.len() ==> #[trigger] self.picks(
                word_context(self.order as nat, w.subrange(0, i)),
                params.backoff,
                params.prior_millis,
                end_allowed(last, minimum, i),
                draws[offset + i],
                w[i],
            )
    }

    /// One attempt at a word, step `i` drawing with `draws[offset + i]`:
    /// each picked symbol is appended until the boundary is picked or the
    /// word reaches `range.maximum`. `None` when the boundary comes before
    /// `range.minimum` or no symbol has weight; on the `last` attempt the
    /// boundary may not come before the minimum.
    pub fn attempt_word(
        &self,
        params: &ModelParameters,
        range: &LengthRange,
        last: bool,
        draws: &Vec<u128>,
        offset: usize,
    ) -> (r: Option<Vec<u32>>)
        requires
            self.wf(),
            self.order == params.order,
            params.is_valid(),
            range.is_valid(),
            offset + range.maximum <= draws@.len(),
        ensures
            r is Some ==> range.minimum <= r->0@.len() <= range.maximum && no_boundary(r->0@)
                && self.follows_chain(*params, r->0@) && self.drawn_from(
                *params,
                range.minimum,
                last,
                r->0@,
                draws@,
                offset as int,
            ),
            r is Some && r->0@.len() < range.maximum ==> self.picks(
                word_context(self.order as nat, r->0@),
                params.backoff,
                params.prior_millis,
                end_allowed(last, range.minimum, r->0@.len() as int),
                draws@[offset + r->0@.len()],
                BOUNDARY,
            ),
            last && params.prior_millis > 0 && self.has_letter() ==> r is Some,
    {
        let mut ctx = start_context(self.order);
        let mut word: Vec<u32> = Vec::new();
        assert(ctx@ =~= word_context(self.order as nat, word@));
        let dl = draws.len();
        while word.len() < range.maximum
            invariant
                dl == draws@.len(),
                self.wf(),
                self.order == params.order,
                params.is_valid(),
                range.is_valid(),
                offset + range.maximum <= draws@.len(),
                ctx@ == word_context(self.order as nat, word@),
                ctx@.len() == self.order,
                word@.len() <= range.maximum,
                no_boundary(word@),
                self.follows_chain(*params, word@),
                self.drawn_from(*params, range.minimum, last, word@, draws@, offset as int),
            decreases range.maximum - word@.len(),
        {
            let allow_end = !last || word.len() >= range.minimum;
            let draw = draws[offset + word.len()];
            match self.next_symbol(&ctx, params.backoff, params.prior_millis, allow_end, draw) {
                None => {
                    return None;
                },
                Some(s) => {
                    if s == BOUNDARY {
                        if word.len() >= range.minimum {
                            assert(word@.subrange(0, word@.len() as int) =~= word@);
                            return Some(word);
                        }
                        return None;
                    }
                    let ghost before = word@;
                    word.push(s);
                    proof {
                        lemma_word_context_push(self.order as nat, before, s);
                        assert(word@.subrange(0, before.len() as int) =~= before);
                        assert forall|i: int| 0 <= i < word@.len() implies #[trigger] word@[i]
                            != BOUNDARY by {
                            if i < before.len() {
                                assert(word@[i] == before[i]);
                            }
                        }
                        assert forall|i: int| 0 <= i < word@.len() implies #[trigger] self.drawable(
                            word_context(self.order as nat, word@.subrange(0, i)),
                            params.backoff,
                            params.prior_millis,
                            true,
                            word@[i],
                        ) by {
                            if i < before.len() {
                                assert(word@.subrange(0, i) =~= before.subrange(0, i));
                                assert(word@[i] == before[i]);
                            }
                        }
                        assert forall|i: int| 0 <= i < word@.len() implies #[trigger] self.picks(
                            word_context(self.order as nat, word@.subrange(0, i)),
                            params.backoff,
                            params.prior_millis,
                            end_allowed(last, range.minimum, i),
                            draws@[offset + i],
                            word@[i],
                        ) by {
                            if i < before.len() {
                                assert(word@.subrange(0, i) =~= before.subrange(0, i));
                                assert(word@[i] == before[i]);
                            }
                        }
                    }
                    ctx = shift_context(&ctx, s);
                },
            }
        }
        Some(word)
    }

    /// Generates one word from the given draws, `range.maximum` of them for
    /// each attempt in turn (see `attempt_word`); up to `MAX_ATTEMPTS`
    /// attempts, the last of which may not end before the minimum. The
    /// first letter is upper-cased when `capitalize` is set. `None` when no
    /// attempt gives a word or the draws run out.
    pub fn generate_word_from(
        &self,
        params: &ModelParameters,
        range: &LengthRange,
        capitalize: bool,
        draws: &Vec<u128>,
    ) -> (r: Option<Vec<u32>>)
        requires
            self.wf(),
            self.order == params.order,
            params.is_valid(),
            range.is_valid(),
        ensures
            r is Some ==> exists|w: Seq<u32>|
                #![trigger capitalized_word(w, capitalize)]
                range.minimum <= w.len() <= range.maximum && no_boundary(w) && self.follows_chain(
                    *params,
                    w,
                ) && r->0@ == capitalized_word(w, capitalize),
            r is Some ==> range.minimum <= r->0@.len() <= range.maximum && no_boundary(r->0@),
            draws@.len() >= MAX_ATTEMPTS * range.maximum && params.prior_millis > 0
                && self.has_letter() ==> r is Some,
    {
        let ghost enough = draws@.len() >= MAX_ATTEMPTS * range.maximum && params.prior_millis > 0
            && self.has_letter();
        let mut attempt: usize = 0;
        let mut offset: usize = 0;
        while attempt < MAX_ATTEMPTS
            invariant
                self.wf(),
                self.order == params.order,
                params.is_valid(),
                range.is_valid(),
                enough == (draws@.len() >= MAX_ATTEMPTS * range.maximum && params.prior_millis > 0
                    && self.has_letter()),
                offset == attempt * range.maximum,
                offset <= draws@.len(),
                attempt <= MAX_ATTEMPTS,
                enough ==> attempt < MAX_ATTEMPTS,
            decreases MAX_ATTEMPTS - attempt,
        {
            if draws.len() - offset < range.maximum {
                proof {
                    if enough {
                        assert((attempt + 1) * range.maximum <= MAX_ATTEMPTS * range.maximum) by (
                        nonlinear_arith)
                            requires
                                attempt + 1 <= MAX_ATTEMPTS,
                        ;
                        assert((attempt + 1) * range.maximum == attempt * range.maximum
                            + range.maximum) by (nonlinear_arith);
                        assert(false);
                    }
                }
                return None;
            }
            let last = attempt + 1 == MAX_ATTEMPTS;
            match self.attempt_word(params, range, last, draws, offset) {
                Some(w) => {
                    let mut word = w;
                    let ghost plain = word@;
                    if capitalize {
                        upper_first(&mut word);
                    }
                    assert(word@ == capitalized_word(plain, capitalize));
                    return Some(word);
                },
                None => {},
            }
            assert((attempt + 1) * range.maximum == attempt * range.maximum + range.maximum) by (
            nonlinear_arith);
            offset = offset + range.maximum;
            attempt = attempt + 1;
        }
        None
    }

    /// Generates one word as `generate_word_from` does, each attempt with
    /// fresh random draws, each below `u128::MAX` and reduced modulo the
    /// total weight of its step. A word is sure to come back when the prior
    /// is positive and the alphabet holds a symbol other than the boundary.
    pub fn generate_word(&self, params: &ModelParameters, range: &LengthRange, capitalize: bool) -> (r:
        Option<Vec<u32>>)
        requires
            self.wf(),
            self.order == params.order,
            params.is_valid(),
            range.is_valid(),
        ensures
            r is Some ==> exists|w: Seq<u32>|
                #![trigger capitalized_word(w, capitalize)]
                range.minimum <= w.len() <= range.maximum && no_boundary(w) && self.follows_chain(
                    *params,
                    w,
                ) && r->0@ == capitalized_word(w, capitalize),
            r is Some ==> range.minimum <= r->0@.len() <= range.maximum && no_boundary(r->0@),
            params.prior_millis > 0 && self.has_letter() ==> r is Some,
    {
        let mut attempt: usize = 0;
        while attempt < MAX_ATTEMPTS
            invariant
                self.wf(),
                self.order == params.order,
                params.is_valid(),
                range.is_valid(),
                attempt <= MAX_ATTEMPTS,
                params.prior_millis > 0 && self.has_letter() ==> attempt < MAX_ATTEMPTS,
            decreases MAX_ATTEMPTS - attempt,
        {
            let last = attempt + 1 == MAX_ATTEMPTS;
            let draws = random_draws(range.maximum);
            match self.attempt_word(params, range, last, &draws, 0) {
                Some(w) => {
                    let mut word = w;
                    let ghost plain = word@;
                    if capitalize {
                        upper_first(&mut word);
                    }
                    assert(word@ == capitalized_word(plain, capitalize));
                    return Some(word);
                },
                None => {
                    assert(!(last && params.prior_millis > 0 && self.has_letter()));
                },
            }
            attempt = attempt + 1;
        }
        None
    }
}

/// Checks the request before any file is touched: the length range and
/// the model parameters.
pub fn validate_request(range: &LengthRange, params: &ModelParameters) -> (r: Result<
    (),
    MarkovError,
>)
    ensures
        r is Ok <==> range.is_valid() && params.is_valid(),
        r is Err ==> r == Err::<(), MarkovError>(MarkovError::InvalidRangeError),
{
    if range.validate().is_err() {
        return Err(MarkovError::InvalidRangeError);
    }
    params.validate()
}

/// Builds the chain for a corpus: the parameters are checked first, then a
/// corpus of nothing but delimiters is refused, then the units between
/// delimiters are trained on at every order up to `params.order`.
pub fn build_chain(corpus: &Vec<u32>, delimiter: u32, params: &ModelParameters) -> (r: Result<
    BackoffChain,
    MarkovError,
>)
    requires
        corpus@.len() <= MAX_CORPUS_SYMBOLS,
    ensures
        !params.is_valid() ==> r == Err::<BackoffChain, MarkovError>(
            MarkovError::InvalidRangeError,
        ),
        params.is_valid() && corpus_is_empty(corpus@, delimiter) ==> r
            == Err::<BackoffChain, MarkovError>(MarkovError::EmptyCorpusError),
        params.is_valid() && !corpus_is_empty(corpus@, delimiter)
            ==> r is Ok,
        r is Ok ==> r->Ok_0.wf() && r->Ok_0.order == params.order && exists|units: Seq<Seq<u32>>|
            #[trigger] flat(units, delimiter) == corpus@ + seq![delimiter] && r->Ok_0.trained_on(
                units,
            ) && r->Ok_0.built_from(units) && free_of(units, delimiter),
{
    if params.validate().is_err() {
        return Err(MarkovError::InvalidRangeError);
    }
    let mut i: usize = 0;
    while i < corpus.len()
        invariant
            i <= corpus@.len(),
            corpus@.len() <= MAX_CORPUS_SYMBOLS,
            params.is_valid(),
            forall|j: int| 0 <= j < i ==> #[trigger] corpus@[j] == delimiter,
        decreases corpus@.len() - i,
    {
        if corpus[i] != delimiter {
            let units = split_units(corpus, delimiter);
            let chain = train_chain(&units, params.order);
            assert(flat(units_view(units@), delimiter) == corpus@ + seq![delimiter]);
            return Ok(chain);
        }
        i = i + 1;
    }
    Err(MarkovError::EmptyCorpusError)
}

/// Building twice from the same corpus, delimiter and order gives the same
/// tables and the same stored words: the units the corpus splits into are
/// the same, and training on them is deterministic.
pub proof fn lemma_build_deterministic(
    a: BackoffChain,
    b: BackoffChain,
    corpus: Seq<u32>,
    delimiter: u32,
    ua: Seq<Seq<u32>>,
    ub: Seq<Seq<u32>>,
)
    requires
        a.wf(),
        b.wf(),
        a.order == b.order,
        flat(ua, delimiter) == corpus + seq![delimiter],
        flat(ub, delimiter) == corpus + seq![delimiter],
        free_of(ua, delimiter),
        free_of(ub, delimiter),
        a.built_from(ua),
        b.built_from(ub),
    ensures
        tables_of(a.models@) == tables_of(b.models@),
        chain_words(a) == chain_words(b),
{
    lemma_flat_injective(ua, ub, delimiter);
    lemma_training_deterministic(a, b, ua);
}

} // verus!
