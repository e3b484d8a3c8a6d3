use topic_model::corpus::{Corpus, CorpusError};
use topic_model::random::RandomSource;
use topic_model::vocab::Vocabulary;

fn strings(items: &[&str]) -> Vec<String> {
    items.iter().map(|s| s.to_string()).collect()
}

fn vocab_ab() -> Vocabulary {
    Vocabulary::from_terms(strings(&["a", "b"]))
}

fn scenario_a() -> Corpus {
    let docs = vec![strings(&["a", "b", "a"]), strings(&["b", "b"])];
    let initial = vec![vec![0, 1, 0], vec![1, 1]];
    Corpus::with_topics(2, &vocab_ab(), &docs, &initial).unwrap()
}

fn assignments(c: &Corpus) -> Vec<Vec<u32>> {
    let mut out = Vec::new();
    for d in 0..c.num_documents() {
        let mut row = Vec::new();
        for i in 0..c.document_len(d) {
            row.push(c.assignment(d, i));
        }
        out.push(row);
    }
    out
}

#[test]
fn scenario_a_initial_counts() {
    let c = scenario_a();
    assert_eq!(c.topic_distribution(0), vec![2, 1]);
    assert_eq!(c.topic_distribution(1), vec![0, 2]);
    assert_eq!(c.topic_word_count(0, 1), 2);
    assert_eq!(c.topic_word_count(0, 2), 0);
    // Topic 1 holds the one "b" of the first document and both of the second.
    assert_eq!(c.topic_word_count(1, 1), 0);
    assert_eq!(c.topic_word_count(1, 2), 3);
    assert_eq!(c.topic_total(0), 2);
    assert_eq!(c.topic_total(1), 3);
    assert_eq!(c.term_at(0, 1), 2);
    assert_eq!(c.topic_word_count(0, 99), 0);
}

#[test]
fn scenario_b_unknown_term_dropped() {
    let vocab = Vocabulary::from_terms(strings(&["a"]));
    let mut rng = RandomSource::from_seed(7);
    let c = Corpus::new(2, &vocab, &strings(&["a x a"]), &mut rng).unwrap();
    assert_eq!(c.num_documents(), 1);
    assert_eq!(c.document_len(0), 2);
    assert_eq!(c.term_at(0, 0), 1);
    assert_eq!(c.term_at(0, 1), 1);
}

#[test]
fn scenario_c_single_topic_stays_zero() {
    let mut rng = RandomSource::from_seed(3);
    let docs = strings(&["a b a", "b b", "a"]);
    let mut c = Corpus::new(1, &vocab_ab(), &docs, &mut rng).unwrap();
    for _ in 0..5 {
        c.sweep(&mut rng);
        for row in assignments(&c) {
            assert!(row.iter().all(|&z| z == 0));
        }
    }
    assert_eq!(c.topic_total(0), 6);
}

#[test]
fn zero_topics_is_rejected() {
    let mut rng = RandomSource::from_seed(1);
    let r = Corpus::new(0, &vocab_ab(), &strings(&["a b"]), &mut rng);
    assert!(matches!(r, Err(CorpusError::InvalidTopicCount)));
    let r = Corpus::with_topics(0, &vocab_ab(), &vec![strings(&["a"])], &vec![vec![0]]);
    assert!(matches!(r, Err(CorpusError::InvalidTopicCount)));
}

#[test]
fn mismatched_assignment_is_rejected() {
    let docs = vec![strings(&["a", "x", "b"])];
    let r = Corpus::with_topics(2, &vocab_ab(), &docs, &vec![vec![0, 1, 0]]);
    assert!(matches!(r, Err(CorpusError::InvalidAssignment)));
    let r = Corpus::with_topics(2, &vocab_ab(), &docs, &vec![vec![0, 2]]);
    assert!(matches!(r, Err(CorpusError::InvalidAssignment)));
    let r = Corpus::with_topics(2, &vocab_ab(), &docs, &vec![]);
    assert!(matches!(r, Err(CorpusError::InvalidAssignment)));
    let r = Corpus::with_topics(2, &vocab_ab(), &docs, &vec![vec![0, 1]]);
    assert!(r.is_ok());
}

fn mixed() -> Corpus {
    let docs = vec![strings(&["a", "a"]), strings(&["a", "b"])];
    Corpus::with_topics(2, &vocab_ab(), &docs, &vec![vec![0, 1], vec![0, 1]]).unwrap()
}

#[test]
fn resample_moves_occurrence_on_high_draw() {
    // Weights for the first occurrence: topic 0 has 2^32, topic 1 has 2^31.
    let mut c = mixed();
    c.resample(0, 0, u32::MAX);
    assert_eq!(c.assignment(0, 0), 1);
    assert_eq!(c.topic_distribution(0), vec![0, 2]);
    assert_eq!(c.topic_total(0), 1);
    assert_eq!(c.topic_total(1), 3);
    assert_eq!(c.topic_word_count(0, 1), 1);
    assert_eq!(c.topic_word_count(1, 1), 2);
}

#[test]
fn resample_threshold_is_two_thirds() {
    let mut c = mixed();
    c.resample(0, 0, 2863311530);
    assert_eq!(c.assignment(0, 0), 0);
    let mut c = mixed();
    c.resample(0, 0, 2863311531);
    assert_eq!(c.assignment(0, 0), 1);
}

#[test]
fn resample_keeps_topic_on_low_draw() {
    let mut c = mixed();
    c.resample(0, 0, 0);
    assert_eq!(assignments(&c), vec![vec![0, 1], vec![0, 1]]);
    assert_eq!(c.topic_total(0), 2);
}

#[test]
fn degenerate_scenario_keeps_every_topic() {
    // Each term of this state sits on one topic only, so every occurrence
    // has a single topic of positive weight: its own.
    let mut c = scenario_a();
    c.sweep_with_draws(&vec![vec![u32::MAX, u32::MAX, 0], vec![u32::MAX, 7]]);
    assert_eq!(assignments(&c), vec![vec![0, 1, 0], vec![1, 1]]);
}

#[test]
fn sweep_with_low_draws() {
    let mut c = mixed();
    c.sweep_with_draws(&vec![vec![0, 0], vec![0, 0]]);
    assert_eq!(assignments(&c), vec![vec![0, 0], vec![0, 1]]);
    assert_eq!(c.topic_total(0), 3);
    assert_eq!(c.topic_total(1), 1);
}

#[test]
fn sweep_with_high_draws() {
    let mut c = mixed();
    c.sweep_with_draws(&vec![vec![u32::MAX, u32::MAX], vec![u32::MAX, u32::MAX]]);
    assert_eq!(assignments(&c), vec![vec![1, 1], vec![1, 1]]);
    assert_eq!(c.topic_total(0), 0);
    assert_eq!(c.topic_total(1), 4);
    assert_eq!(c.topic_word_count(1, 1), 3);
}

#[test]
fn counts_are_conserved_over_sweeps() {
    let mut rng = RandomSource::from_seed(42);
    let docs = strings(&["a b a b b", "b a", "c a b", ""]);
    let mut c = Corpus::new(3, &vocab_ab(), &docs, &mut rng).unwrap();
    for _ in 0..10 {
        c.sweep(&mut rng);
        let mut total = 0;
        for d in 0..c.num_documents() {
            let dist = c.topic_distribution(d);
            assert_eq!(dist.iter().sum::<u64>() as usize, c.document_len(d));
            total += c.document_len(d);
            for i in 0..c.document_len(d) {
                assert!(c.assignment(d, i) < 3);
            }
        }
        let totals: u64 = (0..3).map(|z| c.topic_total(z)).sum();
        assert_eq!(totals as usize, total);
        assert_eq!(total, 9);
    }
}

#[test]
fn runs_from_the_same_seed_agree() {
    let docs = strings(&["a b a b b", "b a", "a a b b"]);
    let mut r1 = RandomSource::from_seed(11);
    let mut r2 = RandomSource::from_seed(11);
    let mut c1 = Corpus::new(3, &vocab_ab(), &docs, &mut r1).unwrap();
    let mut c2 = Corpus::new(3, &vocab_ab(), &docs, &mut r2).unwrap();
    assert_eq!(assignments(&c1), assignments(&c2));
    for _ in 0..8 {
        c1.sweep(&mut r1);
        c2.sweep(&mut r2);
        assert_eq!(assignments(&c1), assignments(&c2));
    }
    c1.run(3, &mut r1);
    c2.run(3, &mut r2);
    assert_eq!(assignments(&c1), assignments(&c2));
}

#[test]
fn empty_corpus_sweeps() {
    let mut rng = RandomSource::from_seed(5);
    let mut c = Corpus::new(2, &vocab_ab(), &vec![], &mut rng).unwrap();
    c.sweep(&mut rng);
    assert_eq!(c.num_documents(), 0);
    assert_eq!(c.topic_total(0) + c.topic_total(1), 0);
    assert_eq!(c.num_topics(), 2);
}

#[test]
fn top_terms_rank_by_count_then_id() {
    let c = mixed();
    assert_eq!(c.top_terms(0, 5), vec![(1, 2)]);
    assert_eq!(c.top_terms(1, 5), vec![(1, 1), (2, 1)]);
    assert_eq!(c.top_terms(1, 1), vec![(1, 1)]);
    assert_eq!(c.top_terms(0, 0), vec![]);
    let s = scenario_a();
    assert_eq!(s.top_terms(1, 3), vec![(2, 3)]);
}

#[test]
fn tables_match_a_full_recount() {
    let mut rng = RandomSource::from_seed(2024);
    let vocab = Vocabulary::from_terms(strings(&["a", "b", "c", "d"]));
    let docs = strings(&["a b c d a", "d d c", "b a a a", "c", "x y a"]);
    let mut c = Corpus::new(3, &vocab, &docs, &mut rng).unwrap();
    for _ in 0..6 {
        c.sweep(&mut rng);
        let mut word = vec![vec![0u64; 5]; 3];
        let mut total = vec![0u64; 3];
        for d in 0..c.num_documents() {
            let mut dist = vec![0u64; 3];
            for i in 0..c.document_len(d) {
                let z = c.assignment(d, i) as usize;
                dist[z] += 1;
                total[z] += 1;
                word[z][c.term_at(d, i) as usize] += 1;
            }
            assert_eq!(c.topic_distribution(d), dist);
        }
        for z in 0..3u32 {
            assert_eq!(c.topic_total(z), total[z as usize]);
            for w in 0..5u32 {
                assert_eq!(c.topic_word_count(z, w), word[z as usize][w as usize]);
            }
        }
    }
}

#[test]
fn zero_topics_takes_no_draw() {
    let mut used = RandomSource::from_seed(77);
    let mut fresh = RandomSource::from_seed(77);
    let r = Corpus::new(0, &vocab_ab(), &strings(&["a b a", "b"]), &mut used);
    assert!(matches!(r, Err(CorpusError::InvalidTopicCount)));
    for _ in 0..5 {
        assert_eq!(used.unit_draw(), fresh.unit_draw());
    }
}

#[test]
fn topic_totals_equal_word_count_sums() {
    let mut rng = RandomSource::from_seed(8);
    let mut c = Corpus::new(2, &vocab_ab(), &strings(&["a b b a", "b a x"]), &mut rng).unwrap();
    c.run(4, &mut rng);
    for z in 0..2u32 {
        let s: u64 = (0..3u32).map(|w| c.topic_word_count(z, w)).sum();
        assert_eq!(c.topic_total(z), s);
    }
    assert_eq!(c.topic_total(0) + c.topic_total(1), 6);
}
