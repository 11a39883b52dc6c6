//! Training units and the events a character model learns from them.
use vstd::prelude::*;


verus! {

/// The word-boundary sentinel. It lies above every Unicode scalar value, so
/// no corpus symbol can be mistaken for it.
pub const BOUNDARY: u32 = 0x110000;

/// One observation of training: a context and the symbol that followed it.
pub type Event = (Seq<u32>, u32);

/// A word bounded by sentinels: `k` boundaries before it, one after.
pub open spec fn padded(w: Seq<u32>, k: nat) -> Seq<u32> {
    Seq::new(k, |i: int| BOUNDARY) + w + seq![BOUNDARY]
}

/// The events a training unit yields at order `k`: each window of `k`
/// padded symbols with the symbol after it. An empty unit yields none.
pub open spec fn unit_events(w: Seq<u32>, k: nat) -> Seq<Event> {
    if w.len() == 0 {
        Seq::empty()
    } else {
        Seq::new(
            (w.len() + 1) as nat,
            |i: int| (padded(w, k).subrange(i, i + k), padded(w, k)[i + k]),
        )
    }
}

/// The events of a whole corpus of units at order `k`, unit after unit.
pub open spec fn events(units: Seq<Seq<u32>>, k: nat) -> Seq<Event>
    decreases units.len(),
{
    if units.len() == 0 {
        Seq::empty()
    } else {
        events(units.drop_last(), k) + unit_events(units.last(), k)
    }
}

/// How many times `e` occurs in `s`.
pub open spec fn occurrences(s: Seq<Event>, e: Event) -> nat
    decreases s.len(),
{
    if s.len() == 0 {
        0
    } else {
        occurrences(s.drop_last(), e) + if s.last() == e {
            1nat
        } else {
            0nat
        }
    }
}

pub(crate) proof fn lemma_occurrences_push(s: Seq<Event>, x: Event, e: Event)
    ensures
        occurrences(s.push(x), e) == occurrences(s, e) + if x == e {
            1nat
        } else {
            0nat
        },
{
    assert(s.push(x).drop_last() =~= s);
}

/// The largest corpus accepted, in symbols.
pub const MAX_CORPUS_SYMBOLS: usize = 0x4000_0000;

/// The training units as sequences of symbols.
pub open spec fn units_view(units: Seq<Vec<u32>>) -> Seq<Seq<u32>> {
    units.map_values(|w: Vec<u32>| w@)
}

/// Symbols of all units plus one boundary per unit.
pub open spec fn corpus_size(units: Seq<Seq<u32>>) -> nat
    decreases units.len(),
{
    if units.len() == 0 {
        0
    } else {
        corpus_size(units.drop_last()) + units.last().len() + 1
    }
}

pub(crate) proof fn lemma_events_len(units: Seq<Seq<u32>>, k: nat)
    ensures
        events(units, k).len() <= corpus_size(units),
    decreases units.len(),
{
    if units.len() > 0 {
        lemma_events_len(units.drop_last(), k);
    }
}

pub(crate) proof fn lemma_corpus_size_prefix(units: Seq<Seq<u32>>, u: int)
    requires
        0 <= u < units.len(),
    ensures
        corpus_size(units.subrange(0, u)) + units[u].len() + 1 <= corpus_size(units),
    decreases units.len(),
{
    if u < units.len() - 1 {
        assert(units.drop_last().subrange(0, u) =~= units.subrange(0, u));
        lemma_corpus_size_prefix(units.drop_last(), u);
    }
}

pub(crate) proof fn lemma_events_step(units: Seq<Seq<u32>>, u: int, k: nat)
    requires
        0 <= u < units.len(),
    ensures
        events(units.subrange(0, u + 1), k) == events(units.subrange(0, u), k) + unit_events(
            units[u],
            k,
        ),
        corpus_size(units.subrange(0, u + 1)) == corpus_size(units.subrange(0, u)) + units[u].len()
            + 1,
{
    assert(units.subrange(0, u + 1).drop_last() =~= units.subrange(0, u));
}

/// Each unit followed by the delimiter, all in a row.
pub open spec fn flat(units: Seq<Seq<u32>>, d: u32) -> Seq<u32>
    decreases units.len(),
{
    if units.len() == 0 {
        Seq::empty()
    } else {
        flat(units.drop_last(), d) + units.last() + seq![d]
    }
}

proof fn lemma_flat_size(units: Seq<Seq<u32>>, d: u32)
    ensures
        flat(units, d).len() == corpus_size(units),
    decreases units.len(),
{
    if units.len() > 0 {
        lemma_flat_size(units.drop_last(), d);
    }
}

/// No unit holds the delimiter.
pub open spec fn free_of(units: Seq<Seq<u32>>, d: u32) -> bool {
    forall|u: int, j: int| 0 <= u < units.len() && 0 <= j < units[u].len() ==> #[trigger] units[u][j] != d
}

/// Splits a corpus into training units at each `delimiter`. The units hold
/// no delimiter, and writing each followed by the delimiter gives back the
/// corpus with one delimiter more at its end.
pub fn split_units(corpus: &Vec<u32>, delimiter: u32) -> (r: Vec<Vec<u32>>)
    ensures
        flat(units_view(r@), delimiter) == corpus@ + seq![delimiter],
        forall|u: int, j: int|
            0 <= u < r@.len() && 0 <= j < r@[u]@.len() ==> #[trigger] r@[u]@[j] != delimiter,
        corpus_size(units_view(r@)) == corpus@.len() + 1,
        free_of(units_view(r@), delimiter),
{
    let mut done: Vec<Vec<u32>> = Vec::new();
    let mut cur: Vec<u32> = Vec::new();
    let mut i: usize = 0;
    while i < corpus.len()
        invariant
            i <= corpus@.len(),
            flat(units_view(done@), delimiter) + cur@ == corpus@.subrange(0, i as int),
            forall|u: int, j: int|
                0 <= u < done@.len() && 0 <= j < done@[u]@.len() ==> #[trigger] done@[u]@[j]
                    != delimiter,
            forall|j: int| 0 <= j < cur@.len() ==> cur@[j] != delimiter,
        decreases corpus@.len() - i,
    {
        let c = corpus[i];
        if c == delimiter {
            let ghost before = done@;
            let unit = cur;
            proof {
                assert(units_view(before.push(unit)) =~= units_view(before).push(unit@));
                assert(units_view(before.push(unit)).drop_last() =~= units_view(before));
            }
            let ghost cur_v = unit@;
            done.push(unit);
            cur = Vec::new();
            proof {
                let nv = units_view(done@);
                assert(nv =~= units_view(before).push(cur_v));
                assert(nv.drop_last() =~= units_view(before));
                assert(flat(nv, delimiter) == flat(units_view(before), delimiter) + cur_v + seq![
                    delimiter,
                ]);
                assert(corpus@.subrange(0, i + 1) =~= corpus@.subrange(0, i as int) + seq![c]);
            }
            assert(flat(units_view(done@), delimiter) + cur@ =~= corpus@.subrange(0, i + 1));
        } else {
            let ghost old_cur = cur@;
            cur.push(c);
            proof {
                assert(cur@ =~= old_cur.push(c));
                assert(corpus@.subrange(0, i + 1) =~= corpus@.subrange(0, i as int).push(c));
                assert(forall|j: int| 0 <= j < old_cur.len() ==> cur@[j] == old_cur[j]);
            }
            assert(flat(units_view(done@), delimiter) + cur@ =~= corpus@.subrange(0, i + 1));
        }
        i = i + 1;
    }
    let ghost before = done@;
    let unit = cur;
    proof {
        assert(units_view(before.push(unit)) =~= units_view(before).push(unit@));
        assert(units_view(before.push(unit)).drop_last() =~= units_view(before));
    }
    let ghost cur_v = unit@;
    done.push(unit);
    proof {
        let nv = units_view(done@);
        assert(nv =~= units_view(before).push(cur_v));
        assert(nv.drop_last() =~= units_view(before));
        assert(flat(nv, delimiter) == flat(units_view(before), delimiter) + cur_v + seq![delimiter]);
        assert(corpus@.subrange(0, corpus@.len() as int) =~= corpus@);
    }
    assert(flat(units_view(done@), delimiter) =~= corpus@ + seq![delimiter]);
    proof {
        lemma_flat_size(units_view(done@), delimiter);
        let v = units_view(done@);
        assert forall|u: int, j: int| 0 <= u < v.len() && 0 <= j < v[u].len() implies #[trigger] v[u][j]
            != delimiter by {
            assert(v[u] == done@[u]@);
        }
    }
    done
}

/// The corpus holds nothing but delimiters, so it yields no training word.
pub open spec fn corpus_is_empty(corpus: Seq<u32>, delimiter: u32) -> bool {
    forall|i: int| 0 <= i < corpus.len() ==> #[trigger] corpus[i] == delimiter
}

proof fn lemma_occurrences_concat(a: Seq<Event>, b: Seq<Event>, e: Event)
    ensures
        occurrences(a + b, e) == occurrences(a, e) + occurrences(b, e),
    decreases b.len(),
{
    if b.len() > 0 {
        assert((a + b).drop_last() =~= a + b.drop_last());
        lemma_occurrences_concat(a, b.drop_last(), e);
    } else {
        assert(a + b =~= a);
    }
}

proof fn lemma_occurrences_index(s: Seq<Event>, i: int)
    requires
        0 <= i < s.len(),
    ensures
        occurrences(s, s[i]) > 0,
    decreases s.len(),
{
    if i < s.len() - 1 {
        assert(s.drop_last()[i] == s[i]);
        lemma_occurrences_index(s.drop_last(), i);
    }
}

pub(crate) proof fn lemma_event_present(units: Seq<Seq<u32>>, k: nat, u: int, j: int)
    requires
        0 <= u < units.len(),
        0 <= j <= units[u].len(),
        units[u].len() > 0,
    ensures
        occurrences(events(units, k), unit_events(units[u], k)[j]) > 0,
    decreases units.len(),
{
    let e = unit_events(units[u], k)[j];
    let before = events(units.drop_last(), k);
    let last = unit_events(units.last(), k);
    lemma_occurrences_concat(before, last, e);
    if u == units.len() - 1 {
        lemma_occurrences_index(last, j);
    } else {
        assert(units.drop_last()[u] == units[u]);
        lemma_event_present(units.drop_last(), k, u, j);
    }
}

pub(crate) proof fn lemma_concat_split(a: Seq<u32>, b: Seq<u32>, c: Seq<u32>, d: Seq<u32>)
    requires
        a + b == c + d,
        a.len() == c.len(),
    ensures
        a == c,
        b == d,
{
    assert(a =~= (a + b).subrange(0, a.len() as int));
    assert(c =~= (c + d).subrange(0, c.len() as int));
    assert(b =~= (a + b).subrange(a.len() as int, (a + b).len() as int));
    assert(d =~= (c + d).subrange(c.len() as int, (c + d).len() as int));
}

proof fn lemma_flat_shape(units: Seq<Seq<u32>>, d: u32)
    ensures
        flat(units, d).len() == 0 <==> units.len() == 0,
        units.len() > 0 ==> flat(units, d).last() == d,
{
}

/// A corpus splits into delimiter-free units in only one way.
pub(crate) proof fn lemma_flat_injective(a: Seq<Seq<u32>>, b: Seq<Seq<u32>>, d: u32)
    requires
        free_of(a, d),
        free_of(b, d),
        flat(a, d) == flat(b, d),
    ensures
        a == b,
    decreases a.len(),
{
    lemma_flat_shape(a, d);
    lemma_flat_shape(b, d);
    if a.len() == 0 {
        assert(a =~= b);
    } else {
        let (fa, la) = (flat(a.drop_last(), d), a.last());
        let (fb, lb) = (flat(b.drop_last(), d), b.last());
        assert(fa + la =~= flat(a, d).drop_last());
        assert(fb + lb =~= flat(b, d).drop_last());
        lemma_flat_shape(a.drop_last(), d);
        lemma_flat_shape(b.drop_last(), d);
        if la.len() < lb.len() {
            let p = fa.len() - 1;
            assert((fa + la)[p] == d);
            assert((fb + lb)[p] == lb[p - fb.len()]);
            assert(lb[p - fb.len()] == b[b.len() - 1][p - fb.len()]);
        } else if lb.len() < la.len() {
            let p = fb.len() - 1;
            assert((fb + lb)[p] == d);
            assert((fa + la)[p] == la[p - fa.len()]);
            assert(la[p - fa.len()] == a[a.len() - 1][p - fa.len()]);
        }
        lemma_concat_split(fa, la, fb, lb);
        assert(free_of(a.drop_last(), d)) by {
            assert forall|u: int, j: int|
                0 <= u < a.drop_last().len() && 0 <= j < a.drop_last()[u].len() implies #[trigger] a.drop_last()[u][j]
                != d by {
                assert(a.drop_last()[u] == a[u]);
            }
        }
        assert(free_of(b.drop_last(), d)) by {
            assert forall|u: int, j: int|
                0 <= u < b.drop_last().len() && 0 <= j < b.drop_last()[u].len() implies #[trigger] b.drop_last()[u][j]
                != d by {
                assert(b.drop_last()[u] == b[u]);
            }
        }
        lemma_flat_injective(a.drop_last(), b.drop_last(), d);
        assert(a =~= a.drop_last().push(la));
        assert(b =~= b.drop_last().push(lb));
    }
}

} // verus!
