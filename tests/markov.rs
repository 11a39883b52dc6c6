use secretgen::config::{CachePolicy, LengthRange, MarkovError, ModelParameters};
use secretgen::cache::cache_plan;
use secretgen::chain::{BackoffChain, pick, sort_heaviest_first, total_weight, train_chain};
use secretgen::corpus::{BOUNDARY, split_units};
use secretgen::markov::{build_chain, shift_context, start_context, validate_request};
use secretgen::ngram::train_model;

const NL: u32 = '\n' as u32;

fn symbols(text: &str) -> Vec<u32> {
    text.chars().map(|c| c as u32).collect()
}

fn text(word: &[u32]) -> String {
    word.iter().map(|&s| char::from_u32(s).unwrap()).collect()
}

fn params(order: usize, prior_millis: u64, backoff: bool) -> ModelParameters {
    ModelParameters { order, prior_millis, backoff }
}

fn chain_for(corpus: &str, p: &ModelParameters) -> BackoffChain {
    build_chain(&symbols(corpus), NL, p).ok().unwrap()
}

#[test]
fn splits_corpus_at_delimiters() {
    let units = split_units(&symbols("ab\n\nc"), NL);
    assert_eq!(units, vec![symbols("ab"), vec![], symbols("c")]);
    let units = split_units(&symbols("ab\n"), NL);
    assert_eq!(units, vec![symbols("ab"), vec![]]);
    let units = split_units(&vec![], NL);
    assert_eq!(units, vec![Vec::<u32>::new()]);
}

#[test]
fn order_two_counts_bounded_words() {
    let a = 'a' as u32;
    let b = 'b' as u32;
    let units = vec![symbols("ab"), symbols("ab"), vec![]];
    let m = train_model(&units, 2);
    assert_eq!(m.order, 2);
    assert_eq!(m.lookup(&vec![BOUNDARY, BOUNDARY], a), 2);
    assert_eq!(m.lookup(&vec![BOUNDARY, a], b), 2);
    assert_eq!(m.lookup(&vec![a, b], BOUNDARY), 2);
    assert_eq!(m.lookup(&vec![a, b], a), 0);
    assert_eq!(m.counts.len(), 3);
    assert!(m.contains_context(&vec![BOUNDARY, a]));
    assert!(!m.contains_context(&vec![b, a]));
}

#[test]
fn order_zero_counts_symbol_frequencies() {
    let units = split_units(&symbols("banana"), NL);
    let m = train_model(&units, 0);
    assert_eq!(m.lookup(&vec![], 'a' as u32), 3);
    assert_eq!(m.lookup(&vec![], 'n' as u32), 2);
    assert_eq!(m.lookup(&vec![], 'b' as u32), 1);
    assert_eq!(m.lookup(&vec![], BOUNDARY), 1);
    assert_eq!(m.counts.len(), 4);
}

#[test]
fn order_zero_table_covers_every_training_symbol() {
    let corpus = "banana\nanana\nbandana";
    let chain = chain_for(corpus, &params(2, 0, false));
    for c in corpus.chars().filter(|&c| c != '\n') {
        assert!(chain.models[0].lookup(&vec![], c as u32) > 0);
    }
    assert!(chain.models[0].lookup(&vec![], BOUNDARY) > 0);
    // an unseen context still draws from the order-0 table
    let unseen = vec!['x' as u32, 'q' as u32];
    assert_eq!(chain.select_level(&unseen, false), 0);
    for draw in 0..50u128 {
        assert!(chain.next_symbol(&unseen, false, 0, true, draw).is_some());
    }
}

#[test]
fn training_is_deterministic() {
    let corpus = symbols("banana\nanana\nbandana");
    let units = split_units(&corpus, NL);
    let a = train_chain(&units, 3);
    let b = train_chain(&units, 3);
    for k in 0..=3 {
        assert_eq!(a.models[k].contexts, b.models[k].contexts);
        assert_eq!(a.models[k].symbols, b.models[k].symbols);
        assert_eq!(a.models[k].counts, b.models[k].counts);
    }
}

#[test]
fn zero_prior_only_draws_observed_symbols() {
    let chain = chain_for("banana\nanana\nbandana", &params(2, 0, false));
    let ctx = vec![BOUNDARY, 'b' as u32];
    for draw in 0..1000u128 {
        let s = chain.next_symbol(&ctx, false, 0, true, draw).unwrap();
        assert_eq!(s, 'a' as u32);
    }
}

#[test]
fn positive_prior_gives_every_symbol_weight() {
    let chain = chain_for("banana\nanana\nbandana", &params(2, 500, false));
    let ctx = vec![BOUNDARY, 'b' as u32];
    let level = chain.select_level(&ctx, false);
    assert_eq!(level, 2);
    let w = chain.weights(level, &ctx, 500, true);
    assert_eq!(w.len(), chain.models[0].symbols.len());
    for x in &w {
        assert!(*x > 0);
    }
    // "ba" is followed by 'a' twice: 2 * 1000 + 500
    let a_index = chain.models[0].symbols.iter().position(|&s| s == 'a' as u32).unwrap();
    assert_eq!(w[a_index], 2500);
}

#[test]
fn backoff_falls_to_the_longest_seen_suffix() {
    let chain = chain_for("banana\nanana\nbandana", &params(2, 0, true));
    // "xa" was never seen, but "a" was, as an order-1 context
    let ctx = vec!['x' as u32, 'a' as u32];
    assert_eq!(chain.select_level(&ctx, true), 1);
    assert_eq!(chain.select_level(&ctx, false), 0);
    let ctx = vec!['x' as u32, 'q' as u32];
    assert_eq!(chain.select_level(&ctx, true), 0);
    let ctx = vec!['a' as u32, 'n' as u32];
    assert_eq!(chain.select_level(&ctx, true), 2);
}

#[test]
fn pick_follows_cumulative_weights() {
    let w: Vec<u128> = vec![0, 3, 2];
    assert_eq!(total_weight(&w), 5);
    assert_eq!(pick(&w, 0), 1);
    assert_eq!(pick(&w, 2), 1);
    assert_eq!(pick(&w, 3), 2);
    assert_eq!(pick(&w, 4), 2);
}

#[test]
fn contexts_start_with_boundaries_and_shift() {
    assert_eq!(start_context(3), vec![BOUNDARY; 3]);
    assert_eq!(shift_context(&vec![1, 2, 3], 4), vec![2, 3, 4]);
    assert_eq!(shift_context(&vec![], 4), Vec::<u32>::new());
}

#[test]
fn generated_bigrams_occur_in_corpus() {
    let corpus = "banana\nanana\nbandana";
    let p = params(2, 0, false);
    let chain = chain_for(corpus, &p);
    let range = LengthRange { minimum: 3, maximum: 6 };
    for _ in 0..200 {
        let word = text(&chain.generate_word(&p, &range, false).unwrap());
        let chars: Vec<char> = word.chars().collect();
        for pair in chars.windows(2) {
            let bigram: String = pair.iter().collect();
            assert!(corpus.contains(&bigram), "{} not in corpus ({})", bigram, word);
        }
    }
}

#[test]
fn generated_words_respect_length_range() {
    let corpus = "banana\nanana\nbandana\nab\nabracadabra";
    for (order, prior, backoff) in [(1, 0, false), (2, 0, true), (3, 250, false), (0, 0, false)] {
        let p = params(order, prior, backoff);
        let chain = chain_for(corpus, &p);
        for (min, max) in [(1, 1), (2, 10), (4, 5), (7, 7)] {
            let range = LengthRange { minimum: min, maximum: max };
            for _ in 0..20 {
                if let Some(w) = chain.generate_word(&p, &range, false) {
                    assert!(min <= w.len() && w.len() <= max);
                    assert!(!w.contains(&BOUNDARY));
                }
            }
        }
    }
}

#[test]
fn generated_word_is_capitalized() {
    let p = params(1, 0, false);
    let chain = chain_for("banana", &p);
    let range = LengthRange { minimum: 2, maximum: 6 };
    let w = text(&chain.generate_word(&p, &range, true).unwrap());
    assert_eq!(w.chars().next(), Some('B'));
}

#[test]
fn empty_corpus_is_refused() {
    let p = params(3, 0, false);
    assert_eq!(build_chain(&vec![], NL, &p).err(), Some(MarkovError::EmptyCorpusError));
    assert_eq!(build_chain(&symbols("\n\n"), NL, &p).err(), Some(MarkovError::EmptyCorpusError));
}

#[test]
fn invalid_range_is_refused_before_training() {
    let range = LengthRange { minimum: 5, maximum: 3 };
    assert_eq!(validate_request(&range, &params(3, 0, false)), Err(MarkovError::InvalidRangeError));
    let range = LengthRange { minimum: 2, maximum: 10 };
    assert_eq!(validate_request(&range, &params(3, 0, false)), Ok(()));
    assert_eq!(validate_request(&range, &params(0, 0, true)), Err(MarkovError::InvalidRangeError));
    assert_eq!(
        build_chain(&symbols("abc"), NL, &params(0, 0, true)).err(),
        Some(MarkovError::InvalidRangeError)
    );
}

#[test]
fn cache_plans_follow_policy() {
    let bypass = cache_plan(CachePolicy::Bypass);
    assert!(!bypass.read && !bypass.write_after_training);
    let rebuild = cache_plan(CachePolicy::ForceRebuild);
    assert!(!rebuild.read && rebuild.write_after_training);
    let default = cache_plan(CachePolicy::UseOrBuild);
    assert!(default.read && default.write_after_training);
}

#[test]
fn draws_scan_candidates_heaviest_first() {
    // after 'a': 'c' twice, 'b' once; the alphabet lists 'b' before 'c'
    let chain = chain_for("ab\nac\nac", &params(1, 0, false));
    let ctx = vec!['a' as u32];
    for draw in 0..2000u128 {
        assert_eq!(chain.next_symbol(&ctx, false, 0, true, draw), Some('c' as u32));
    }
    for draw in 2000..3000u128 {
        assert_eq!(chain.next_symbol(&ctx, false, 0, true, draw), Some('b' as u32));
    }
    // draws past the total wrap around
    assert_eq!(chain.next_symbol(&ctx, false, 0, true, 3000), Some('c' as u32));
}

#[test]
fn sort_orders_by_weight_then_symbol() {
    let mut c: Vec<(u128, u32)> = vec![(1, 9), (5, 2), (1, 3), (0, 1), (5, 1)];
    sort_heaviest_first(&mut c);
    assert_eq!(c, vec![(5, 1), (5, 2), (1, 3), (1, 9), (0, 1)]);
}

#[test]
fn no_symbol_when_every_weight_is_zero() {
    // after "ab" only the boundary follows; forbidding it leaves nothing
    let chain = chain_for("ab", &params(2, 0, false));
    let ctx = vec!['a' as u32, 'b' as u32];
    assert_eq!(chain.next_symbol(&ctx, false, 0, true, 7), Some(BOUNDARY));
    assert_eq!(chain.next_symbol(&ctx, false, 0, false, 7), None);
}

#[test]
fn word_from_draws_is_reproducible() {
    let p = params(2, 0, false);
    let chain = chain_for("banana\nanana\nbandana", &p);
    let range = LengthRange { minimum: 3, maximum: 6 };
    let draws: Vec<u128> = (0..600u128).map(|i| i * 7919 + 13).collect();
    let a = chain.generate_word_from(&p, &range, false, &draws);
    let b = chain.generate_word_from(&p, &range, false, &draws);
    assert_eq!(a, b);
    let w = a.unwrap();
    assert!(w.len() >= 3 && w.len() <= 6);
}

#[test]
fn attempt_follows_each_draw() {
    // after the boundary 'a' and 'b' weigh the same and 'a' comes first:
    // draws below 1000 pick 'a', the next 1000 pick 'b'
    let p = params(1, 0, false);
    let chain = chain_for("ab\nba", &p);
    let range = LengthRange { minimum: 1, maximum: 2 };
    let w = chain.attempt_word(&p, &range, false, &vec![0, 0], 0).unwrap();
    assert_eq!(w, vec!['a' as u32, 'b' as u32]);
    let w = chain.attempt_word(&p, &range, false, &vec![1000, 0], 0).unwrap();
    assert_eq!(w, vec!['b' as u32, 'a' as u32]);
}

#[test]
fn too_few_draws_give_no_word() {
    let p = params(1, 0, false);
    let chain = chain_for("banana", &p);
    let range = LengthRange { minimum: 2, maximum: 4 };
    assert_eq!(chain.generate_word_from(&p, &range, false, &vec![0, 1, 2]), None);
}

#[test]
fn positive_prior_always_gives_a_word() {
    // without a prior, "ab" cannot make a word of five letters
    let chain = chain_for("ab", &params(2, 0, false));
    let range = LengthRange { minimum: 5, maximum: 6 };
    assert_eq!(chain.generate_word(&params(2, 0, false), &range, false), None);
    let p = params(2, 100, false);
    let chain = chain_for("ab", &p);
    for _ in 0..20 {
        let w = chain.generate_word(&p, &range, false).unwrap();
        assert!(w.len() >= 5 && w.len() <= 6);
    }
}
