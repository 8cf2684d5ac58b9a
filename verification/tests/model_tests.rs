use markov_text::followup::FollowUp;
use markov_text::model::{MarkovData, MarkovError};
use markov_text::prefix::Prefix;
use markov_text::text::tokenize;

fn prefix_of(words: &[&str]) -> Prefix {
    Prefix::new(words.iter().map(|w| w.to_string()).collect())
}

#[test]
fn tokenize_lowercases_and_splits() {
    let toks = tokenize("The CAT\tsat\n  on the MAT ");
    let toks: Vec<&str> = toks.iter().map(|s| s.as_str()).collect();
    assert_eq!(toks, vec!["the", "cat", "sat", "on", "the", "mat"]);
}

#[test]
fn tokenize_empty_and_blank() {
    assert_eq!(tokenize("").len(), 0);
    assert_eq!(tokenize(" \t\n ").len(), 0);
}

#[test]
fn tokenize_splits_on_unicode_whitespace() {
    let toks = tokenize("a\u{a0}b\u{2003}c");
    let toks: Vec<&str> = toks.iter().map(|s| s.as_str()).collect();
    assert_eq!(toks, vec!["a", "b", "c"]);
}

#[test]
fn cyclic_corpus_generates_any_length() {
    let corpus = "x y z x y z x y z x y z".to_string();
    let mut m = MarkovData::with_seed(&corpus, 9).unwrap();
    let words = m.generate(50).unwrap();
    assert_eq!(words.len(), 50);
    // In a cyclic single-path chain, consecutive words follow the cycle.
    let cycle = ["x", "y", "z"];
    let start = cycle.iter().position(|c| *c == words[0]).unwrap();
    for (k, w) in words.iter().enumerate() {
        assert_eq!(w.as_str(), cycle[(start + k) % 3]);
    }
}

#[test]
fn zero_count_generation_succeeds() {
    let mut m = MarkovData::with_seed(&"a b c d".to_string(), 0).unwrap();
    assert_eq!(m.generate(0).unwrap().len(), 0);
    let out = m
        .generate_from(&prefix_of(&["a", "b", "c"]), 0)
        .unwrap();
    assert!(out.is_empty());
}

#[test]
fn advance_is_fifo() {
    let mut p = prefix_of(&["a", "b", "c"]);
    p.push_new("d".to_string());
    assert_eq!(p.word_at(0), "b");
    assert_eq!(p.word_at(1), "c");
    assert_eq!(p.word_at(2), "d");
    assert_eq!(p.len(), 3);
}

#[test]
fn distinct_prefixes_never_alias() {
    let p1 = prefix_of(&["a", "b", "c"]);
    let p2 = prefix_of(&["a", "b", "x"]);
    assert!(p1 != p2);
    assert!(p1 == p1.clone());

    let corpus = "a b c d a b x e".to_string();
    let m = MarkovData::with_seed(&corpus, 7).unwrap();
    let d1 = m.distribution_of(&p1).unwrap();
    let d2 = m.distribution_of(&p2).unwrap();
    assert_eq!(d1.count_of(&"d".to_string()), 1);
    assert_eq!(d1.count_of(&"e".to_string()), 0);
    assert_eq!(d2.count_of(&"e".to_string()), 1);
    assert_eq!(d2.count_of(&"d".to_string()), 0);
}

#[test]
fn training_round_trip() {
    let corpus = "a b c d a b c e".to_string();
    let m = MarkovData::with_seed(&corpus, 1).unwrap();
    let d = m.distribution_of(&prefix_of(&["a", "b", "c"])).unwrap();
    assert_eq!(d.len(), 2);
    assert_eq!(d.count_of(&"d".to_string()), 1);
    assert_eq!(d.count_of(&"e".to_string()), 1);
    assert_eq!(d.total(), 2);
    let w_d = d.count_of(&"d".to_string()) as f64 / d.total() as f64;
    let w_e = d.count_of(&"e".to_string()) as f64 / d.total() as f64;
    assert!((w_d - 0.5).abs() < 1e-9);
    assert!((w_e - 0.5).abs() < 1e-9);
}

#[test]
fn weights_sum_to_one() {
    let corpus = "the cat sat on the mat the cat ran off the mat the cat sat".to_string();
    let m = MarkovData::with_seed(&corpus, 3).unwrap();
    assert!(m.prefix_count() > 0);
    for i in 0..m.prefix_count() {
        let p = m.prefix_at(i);
        let d = m.distribution_of(&p).unwrap();
        let mut sum = 0.0f64;
        for j in 0..d.len() {
            sum += d.count_at(j) as f64 / d.total() as f64;
        }
        assert!((sum - 1.0).abs() < 1e-9);
    }
}

#[test]
fn entropy_model_trains_same_contents() {
    // Training is deterministic; only sampling draws differ between runs.
    let corpus = "a b c d a b c e".to_string();
    let m = MarkovData::new(&corpus).unwrap();
    assert_eq!(m.prefix_count(), 4);
    let d = m.distribution_of(&prefix_of(&["a", "b", "c"])).unwrap();
    assert_eq!(d.count_of(&"d".to_string()), 1);
    assert_eq!(d.count_of(&"e".to_string()), 1);
}

#[test]
fn corpus_too_short_is_surfaced() {
    assert_eq!(
        MarkovData::with_seed(&"".to_string(), 0).unwrap_err(),
        MarkovError::CorpusTooShort
    );
    assert_eq!(
        MarkovData::with_seed(&"a b c".to_string(), 0).unwrap_err(),
        MarkovError::CorpusTooShort
    );
}

#[test]
fn boundary_single_window() {
    let m = MarkovData::with_seed(&"a b c d".to_string(), 0).unwrap();
    assert_eq!(m.prefix_count(), 1);
    let d = m.distribution_of(&prefix_of(&["a", "b", "c"])).unwrap();
    assert_eq!(d.len(), 1);
    assert_eq!(d.count_of(&"d".to_string()), 1);
    assert_eq!(d.total(), 1);
    assert!((d.count_of(&"d".to_string()) as f64 / d.total() as f64 - 1.0).abs() < 1e-9);
}

#[test]
fn missing_prefix_is_surfaced() {
    let mut m = MarkovData::with_seed(&"a b c d".to_string(), 0).unwrap();
    let unknown = prefix_of(&["x", "y", "z"]);
    assert_eq!(m.choose_next(&unknown).unwrap_err(), MarkovError::MissingPrefix);
    assert!(m.distribution_of(&unknown).is_none());
}

#[test]
fn repeated_window_accumulates() {
    let m = MarkovData::with_seed(&"a a a a a a".to_string(), 0).unwrap();
    assert_eq!(m.prefix_count(), 1);
    let d = m.distribution_of(&prefix_of(&["a", "a", "a"])).unwrap();
    assert_eq!(d.count_of(&"a".to_string()), 3);
    assert_eq!(d.total(), 3);
}

#[test]
fn end_to_end_single_path() {
    let corpus = "the cat sat on the mat the cat ran".to_string();
    let mut m = MarkovData::with_seed(&corpus, 11).unwrap();
    let d = m.distribution_of(&prefix_of(&["the", "cat", "sat"])).unwrap();
    assert_eq!(d.len(), 1);
    assert_eq!(d.count_of(&"on".to_string()), 1);
    assert_eq!(d.total(), 1);
    let d2 = m.distribution_of(&prefix_of(&["cat", "sat", "on"])).unwrap();
    assert_eq!(d2.len(), 1);
    assert_eq!(d2.count_of(&"the".to_string()), 1);

    let mut cursor = prefix_of(&["the", "cat", "sat"]);
    let w1 = m.choose_next(&cursor).unwrap();
    cursor.push_new(w1.clone());
    let w2 = m.choose_next(&cursor).unwrap();
    assert_eq!(format!("{} {}", w1, w2), "on the");

    let out = m
        .generate_from(&prefix_of(&["the", "cat", "sat"]), 2)
        .unwrap();
    assert_eq!(out.join(" "), "on the");
}

#[test]
fn weighted_choice_boundaries() {
    let mut d = FollowUp::new();
    for _ in 0..3 {
        d.accumulate("x".to_string());
    }
    for _ in 0..7 {
        d.accumulate("y".to_string());
    }
    d.normalize();
    assert_eq!(d.total(), 10);
    // u = 0.2 over a total of 10 falls at draw 2: cumulative 3 covers it.
    let r_low = (0.2f64 * d.total() as f64) as usize;
    assert_eq!(d.choose_next(r_low), "x");
    // u = 0.5 falls at draw 5: past "x"'s 3, inside "y"'s slice.
    let r_mid = (0.5f64 * d.total() as f64) as usize;
    assert_eq!(d.choose_next(r_mid), "y");
    // The very last draw still lands on the final entry.
    assert_eq!(d.choose_next(9), "y");
    assert_eq!(d.choose_next(0), "x");
}

#[test]
fn seeded_runs_are_reproducible() {
    let corpus = "the cat sat on the mat the cat ran off the mat and the cat came back".to_string();
    let mut m1 = MarkovData::with_seed(&corpus, 42).unwrap();
    let mut m2 = MarkovData::with_seed(&corpus, 42).unwrap();

    let s1 = m1.choose_seed().unwrap();
    let s2 = m2.choose_seed().unwrap();
    assert!(s1 == s2);

    let out1 = m1.generate(12);
    let out2 = m2.generate(12);
    match (out1, out2) {
        (Ok(a), Ok(b)) => assert_eq!(a, b),
        (Err(a), Err(b)) => assert_eq!(a, b),
        _ => panic!("same seed, different outcomes"),
    }
}

#[test]
fn generated_words_come_from_corpus() {
    let corpus = "one two three four one two three five one two three four".to_string();
    let mut m = MarkovData::with_seed(&corpus, 5).unwrap();
    if let Ok(words) = m.generate(8) {
        assert_eq!(words.len(), 8);
        let vocab = ["one", "two", "three", "four", "five"];
        for w in &words {
            assert!(vocab.contains(&w.as_str()));
        }
    }
}
