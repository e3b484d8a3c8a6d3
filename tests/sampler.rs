use topic_model::random::RandomSource;
use topic_model::sampler::{select_topic, topic_weight};
use topic_model::text::tokenize;

#[test]
fn weight_is_fixed_point_ratio_times_doc_count() {
    assert_eq!(topic_weight(2, 2, 2), 2 * (1u128 << 32));
    assert_eq!(topic_weight(1, 3, 1), 1431655765);
    assert_eq!(topic_weight(0, 5, 4), 0);
    assert_eq!(topic_weight(0, 0, 4), 0);
}

#[test]
fn selection_follows_cumulative_weights() {
    let w = vec![2u128 << 32, 1431655765];
    assert_eq!(select_topic(&w, 0), Some(0));
    assert_eq!(select_topic(&w, u32::MAX), Some(1));
    let w = vec![0u128, 10, 0, 10];
    assert_eq!(select_topic(&w, 0), Some(1));
    assert_eq!(select_topic(&w, 1 << 31), Some(3));
    assert_eq!(select_topic(&w, (1 << 31) - 1), Some(1));
}

#[test]
fn selection_on_zero_weights_is_none() {
    assert_eq!(select_topic(&vec![0u128, 0, 0], 123), None);
    assert_eq!(select_topic(&vec![], 0), None);
}

#[test]
fn tokenize_splits_on_white_space() {
    let t = tokenize(&"a  b\tc\n".to_string());
    assert_eq!(t, vec!["a".to_string(), "b".to_string(), "c".to_string()]);
    assert!(tokenize(&"   ".to_string()).is_empty());
}

#[test]
fn random_source_is_seeded() {
    let mut a = RandomSource::from_seed(9);
    let mut b = RandomSource::from_seed(9);
    for _ in 0..20 {
        let x = a.topic_draw(5);
        assert!(x < 5);
        assert_eq!(x, b.topic_draw(5));
        assert_eq!(a.unit_draw(), b.unit_draw());
    }
}
