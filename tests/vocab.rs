use topic_model::vocab::{VocabError, Vocabulary};

#[test]
fn ids_follow_first_registration() {
    let terms: Vec<String> = ["x", "y", "x", "z"].iter().map(|s| s.to_string()).collect();
    let v = Vocabulary::from_terms(terms);
    assert_eq!(v.len(), 3);
    assert_eq!(v.encode(&"x".to_string()), 1);
    assert_eq!(v.encode(&"y".to_string()), 2);
    assert_eq!(v.encode(&"z".to_string()), 3);
    assert_eq!(v.encode(&"w".to_string()), 0);
}

#[test]
fn decode_inverts_encode() {
    let mut v = Vocabulary::new();
    assert_eq!(v.register("apple".to_string()), 1);
    assert_eq!(v.register("pear".to_string()), 2);
    assert_eq!(v.register("apple".to_string()), 1);
    assert_eq!(v.decode(2), Ok("pear".to_string()));
    assert_eq!(v.decode(1), Ok("apple".to_string()));
}

#[test]
fn decode_unknown_id_fails() {
    let v = Vocabulary::from_terms(vec!["a".to_string()]);
    assert_eq!(v.decode(0), Err(VocabError::UnknownId));
    assert_eq!(v.decode(2), Err(VocabError::UnknownId));
}

#[test]
fn encode_all_drops_unknown_terms() {
    let v = Vocabulary::from_terms(vec!["a".to_string(), "b".to_string()]);
    let toks: Vec<String> = ["b", "q", "a", "b"].iter().map(|s| s.to_string()).collect();
    assert_eq!(v.encode_all(&toks), vec![2, 1, 2]);
}
