use secretgen::config::ModelParameters;
use secretgen::cache::{corpus_fingerprint, decode_chain, load_entry, make_cache_key, store_entry};
use secretgen::chain::BackoffChain;
use secretgen::corpus::BOUNDARY;
use secretgen::markov::build_chain;

const NL: u32 = '\n' as u32;

fn symbols(text: &str) -> Vec<u32> {
    text.chars().map(|c| c as u32).collect()
}

fn same_tables(a: &BackoffChain, b: &BackoffChain) -> bool {
    a.order == b.order
        && a.models.len() == b.models.len()
        && a.models.iter().zip(b.models.iter()).all(|(x, y)| {
            x.order == y.order && x.contexts == y.contexts && x.symbols == y.symbols && x.counts == y.counts
        })
}

#[test]
fn cache_entry_round_trips() {
    let corpus = symbols("banana\nanana\nbandana");
    let p = ModelParameters { order: 2, prior_millis: 250, backoff: true };
    let chain = build_chain(&corpus, NL, &p).ok().unwrap();
    let entry = store_entry(&corpus, NL, &p, &chain);
    let back = load_entry(&entry, &corpus, NL, &p).unwrap();
    assert!(same_tables(&chain, &back));
    // identical decisions for identical draws
    let contexts = [vec![BOUNDARY, BOUNDARY], vec![BOUNDARY, 'b' as u32], vec!['x' as u32, 'a' as u32]];
    for ctx in contexts.iter() {
        for draw in 0..200u128 {
            assert_eq!(
                chain.next_symbol(ctx, true, 250, true, draw),
                back.next_symbol(ctx, true, 250, true, draw)
            );
        }
    }
}

#[test]
fn encoded_chain_decodes_to_the_same_tables() {
    let corpus = symbols("abc\nab");
    let p = ModelParameters { order: 1, prior_millis: 0, backoff: false };
    let chain = build_chain(&corpus, NL, &p).ok().unwrap();
    let words = chain.encode();
    assert_eq!(words[0], 1);
    let back = decode_chain(&words, 0).unwrap();
    assert!(same_tables(&chain, &back));
}

#[test]
fn cache_entry_for_other_parameters_is_a_miss() {
    let corpus = symbols("banana\nanana");
    let p = ModelParameters { order: 2, prior_millis: 0, backoff: false };
    let chain = build_chain(&corpus, NL, &p).ok().unwrap();
    let entry = store_entry(&corpus, NL, &p, &chain);
    let q = ModelParameters { order: 2, prior_millis: 1, backoff: false };
    assert!(load_entry(&entry, &corpus, NL, &q).is_none());
    let r = ModelParameters { order: 2, prior_millis: 0, backoff: true };
    assert!(load_entry(&entry, &corpus, NL, &r).is_none());
    let other = symbols("banana\nananas");
    assert!(load_entry(&entry, &other, NL, &p).is_none());
}

#[test]
fn damaged_cache_entry_is_a_miss() {
    let corpus = symbols("banana\nanana");
    let p = ModelParameters { order: 2, prior_millis: 0, backoff: false };
    let chain = build_chain(&corpus, NL, &p).ok().unwrap();
    let entry = store_entry(&corpus, NL, &p, &chain);
    let mut cut = entry.clone();
    cut.pop();
    assert!(load_entry(&cut, &corpus, NL, &p).is_none());
    let mut longer = entry.clone();
    longer.push(0);
    assert!(load_entry(&longer, &corpus, NL, &p).is_none());
    assert!(load_entry(&vec![], &corpus, NL, &p).is_none());
}

#[test]
fn training_twice_stores_identical_entries() {
    let corpus = symbols("banana\nanana\nbandana");
    let p = ModelParameters { order: 3, prior_millis: 0, backoff: false };
    let a = build_chain(&corpus, NL, &p).ok().unwrap();
    let b = build_chain(&corpus, NL, &p).ok().unwrap();
    assert_eq!(store_entry(&corpus, NL, &p, &a), store_entry(&corpus, NL, &p, &b));
}

#[test]
fn fingerprint_is_fnv1a() {
    assert_eq!(corpus_fingerprint(&vec![]), 0x811c_9dc5);
    assert_eq!(corpus_fingerprint(&symbols("a")), 0xe40c_292c);
    assert_eq!(corpus_fingerprint(&symbols("foobar")), 0xbf9c_f968);
}

#[test]
fn cache_key_holds_parameters_and_fingerprint() {
    let p = ModelParameters { order: 3, prior_millis: 0x1_0000_0005, backoff: true };
    let key = make_cache_key(&symbols("a"), NL, &p);
    assert_eq!(key, vec![NL, 3, 5, 1, 1, 1, 0xe40c_292c]);
}
