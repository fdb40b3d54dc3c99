//! End-to-end tests of training, generation and sampling.

use chain::Chain;
use rand::SeedableRng;

fn feed_line(c: &mut Chain, line: &str) {
    let toks: Vec<String> = line.split(' ').map(|s| s.to_string()).collect();
    c.feed(&toks);
}

#[test]
fn end_to_end_single_message() {
    let mut c = Chain::new(1);
    feed_line(&mut c, "a b a b a b");

    let a = c.word_id("a").expect("a was fed");
    let b = c.word_id("b").expect("b was fed");

    // Key (a): exactly one edge, (b, 3), sum 3.
    let stats_a = c.find_edge_stats(&vec![Some(a)], 5).expect("key (a) exists");
    assert_eq!(stats_a.edge_count, 1);
    assert_eq!(stats_a.top_edges, vec![(Some(b), 3u64)]);
    let sum_a: u64 = stats_a.top_edges.iter().map(|e| e.1).sum();
    assert_eq!(sum_a, 3);

    // Key (b): edges to both `a` and the boundary symbol.
    let stats_b = c.find_edge_stats(&vec![Some(b)], 5).expect("key (b) exists");
    assert_eq!(stats_b.edge_count, 2);
    let mut edges = stats_b.top_edges.clone();
    edges.sort_by_key(|e| e.0);
    assert_eq!(edges, vec![(None, 1u64), (Some(a), 2u64)]);
}

#[test]
fn untrained_model_generates_nothing() {
    let c = Chain::new(2);
    assert_eq!(c.generate(), "");
    assert_eq!(c.generate_from_token("anything"), "");
}

#[test]
fn unknown_word_generates_nothing() {
    let mut c = Chain::new(1);
    feed_line(&mut c, "a b");
    assert_eq!(c.generate_from_token("zzz"), "");
}

#[test]
fn generation_starts_with_known_seed() {
    let mut c = Chain::new(1);
    feed_line(&mut c, "a b a b a b");
    let mut rng = rand::rngs::StdRng::seed_from_u64(7);
    let out = c.generate_from_token_with_rng(&mut rng, "a");
    assert!(out.starts_with("a"));
}

#[test]
fn deterministic_chain_generates_the_only_walk() {
    // With one deterministic edge per key, every draw yields the same text.
    let mut c = Chain::new(1);
    feed_line(&mut c, "x y z");
    for seed in 0..5u64 {
        let mut rng = rand::rngs::StdRng::seed_from_u64(seed);
        assert_eq!(c.generate_with_rng(&mut rng), "x y z");
    }
}

#[test]
fn seed_sequence_of_wrong_length_errors() {
    let mut c = Chain::new(2);
    feed_line(&mut c, "a b c");
    let short = c.try_generate_from_token_sequence(&vec!["a".to_string()]);
    assert_eq!(
        short,
        Err(chain::ChainError::WrongSeedLength { needed: 2, got: 1 })
    );
    let long = c.try_generate_from_token_sequence(&vec![
        "a".to_string(),
        "b".to_string(),
        "c".to_string(),
    ]);
    assert_eq!(
        long,
        Err(chain::ChainError::WrongSeedLength { needed: 2, got: 3 })
    );
    let ok = c.try_generate_from_token_sequence(&vec!["a".to_string(), "b".to_string()]);
    assert!(ok.is_ok());
}

#[test]
fn order_one_seed_sequence_is_always_empty() {
    // The alignment search tries only order - 1 placements, so an
    // order-one model has none to try.
    let mut c = Chain::new(1);
    feed_line(&mut c, "a b");
    let mut rng = rand::rngs::StdRng::seed_from_u64(1);
    assert_eq!(c.generate_from_token_seq_with_rng(&mut rng, &vec!["a".to_string()]), "");
}

#[test]
fn sample_retries_echoes() {
    let mut c = Chain::new(1);
    feed_line(&mut c, "solo");
    // The only walk from "solo" is "solo" itself: an echo every time.
    let out = chain::sample(&c, "solo", 4);
    assert_eq!(out, "solo");
    // An unknown seed samples to nothing.
    assert_eq!(chain::sample(&c, "unknown", 4), "");
}

#[test]
fn sample_seq_wrong_length_seed_is_empty() {
    let mut c = Chain::new(3);
    feed_line(&mut c, "a b c d");
    assert_eq!(chain::sample_seq(&c, &vec!["a".to_string()], 4), "");
    let four: Vec<String> = ["a", "b", "c", "d"].iter().map(|s| s.to_string()).collect();
    assert_eq!(chain::sample_seq(&c, &four, 4), "");
}

#[test]
fn metadata_round_trip() {
    let mut c = Chain::new(2).with_metadata("note".to_string());
    feed_line(&mut c, "a b c");
    assert_eq!(c.model_meta_data(), "note");
    let bytes = c.save_to_bytes().unwrap();
    let back = Chain::load_from_bytes(&bytes, 2).unwrap();
    assert_eq!(back.model_meta_data(), "note");
    assert_eq!(back.order(), 2);
}

#[test]
fn stats_report_mentions_edges() {
    let mut c = Chain::new(1);
    feed_line(&mut c, "a b a b a b");
    let report = c.stats_for_phrase(&vec!["a".to_string()]);
    assert!(report.starts_with("==== Word Metadata ====\n-> Word: `a`\n-> word_id: 0\n"));
    assert!(report.contains("-> edge_count: 1"));
    assert!(report.contains("    -> b: 3"));
    assert!(report.ends_with("======================="));
    let missing = c.stats_for_phrase(&vec!["zzz".to_string()]);
    assert!(missing.contains("-> word_id: not found"));
}

#[test]
fn counts_accumulate_across_feeds() {
    let mut c = Chain::new(1);
    feed_line(&mut c, "a b");
    feed_line(&mut c, "a b");
    let a = c.word_id("a").unwrap();
    let b = c.word_id("b").unwrap();
    let stats = c.find_edge_stats(&vec![Some(a)], 5).unwrap();
    assert_eq!(stats.top_edges, vec![(Some(b), 2u64)]);
    // The start key saw both messages too.
    let start = c.find_edge_stats(&vec![None], 5).unwrap();
    assert_eq!(start.top_edges, vec![(Some(a), 2u64)]);
}

#[test]
fn weighted_draws_follow_the_counts() {
    // Key (b) has edges a:2 and boundary:1, so about two thirds of the
    // walks from "b" should continue; with a fixed seed the count is
    // reproducible.
    let mut c = Chain::new(1);
    feed_line(&mut c, "a b a b a b");
    let mut rng = rand::rngs::StdRng::seed_from_u64(42);
    let mut continued = 0;
    for _ in 0..300 {
        let out = c.generate_from_token_with_rng(&mut rng, "b");
        if out != "b" {
            continued += 1;
        }
    }
    assert!(continued > 150 && continued < 260, "continued {} of 300", continued);
}

#[test]
fn capacity_estimate_is_roomy_for_small_models() {
    let mut c = Chain::new(1);
    feed_line(&mut c, "a b a b a b");
    let est = c.capacity_estimate();
    assert!(est > 0);
}

#[test]
fn sample_with_empty_seed_returns_a_walk() {
    let mut c = Chain::new(1);
    feed_line(&mut c, "x y z");
    // The only walk from the boundary key is the full message; its trim
    // differs from the empty seed, so the first attempt is returned.
    assert_eq!(chain::sample(&c, "", 4), "x y z");
    assert_eq!(chain::sample(&c, "   ", 4), "x y z");
}

#[test]
fn seed_sequence_walks_from_its_alignment() {
    let mut c = Chain::new(2);
    feed_line(&mut c, "p q r");
    let mut rng = rand::rngs::StdRng::seed_from_u64(3);
    let seed: Vec<String> = vec!["p".to_string(), "q".to_string()];
    // The first alignment holds both words; the only walk continues with
    // "r" and then stops at the boundary.
    assert_eq!(c.generate_from_token_seq_with_rng(&mut rng, &seed), "p q r");
}
