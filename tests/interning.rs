use corpuslib::stringmap::Stringmap;
use corpuslib::vocab;
use corpuslib::vocabulary;

#[test]
fn interner_codes_are_dense_and_stable() {
    let mut m = Stringmap::new();
    assert_eq!(m.add(&"a".to_string()), 0);
    assert_eq!(m.add(&"b".to_string()), 1);
    assert_eq!(m.add(&"a".to_string()), 0);
    assert_eq!(m.add(&"a".to_string()), 0);
    assert_eq!(m.add(&"c".to_string()), 2);
    assert_eq!(m.len(), 3);
    assert_eq!(m.get(&"b".to_string()), Some(1));
    assert_eq!(m.get(&"d".to_string()), None);
    assert!(m.contains(&"c".to_string()));
    assert!(!m.contains(&"d".to_string()));
    assert_eq!(m.token(2), "c");
}

#[test]
fn code_vocabulary_ids_start_at_one() {
    let mut v = vocab::Vocabulary::new();
    v.register("a");
    v.register("b");
    v.register("a");
    assert_eq!(v.code_for("a"), 1);
    assert_eq!(v.code_for("b"), 2);
    assert_eq!(v.code_for("zz"), 0);
    assert_eq!(v.string_for(1), "a");
    assert_eq!(v.string_for(2), "b");
    assert_eq!(v.string_for(0), "<UNKNOWN>");
    assert_eq!(v.string_for(3), "<UNKNOWN>");
}

#[test]
fn frequency_vocabulary_filters() {
    let mut v = vocabulary::Vocabulary::new();
    assert_eq!(v.len(), 0);
    v.add("a");
    v.add("b");
    v.add("a");
    v.add("c");
    v.add("a");
    v.add("c");
    assert_eq!(v.len(), 3);
    assert!(v.contains("b"));
    v.filter_by_minimum_frequency(2);
    assert_eq!(v.len(), 2);
    assert!(v.contains("a"));
    assert!(v.contains("c"));
    assert!(!v.contains("b"));
    v.filter_by_minimum_frequency(3);
    assert_eq!(v.len(), 1);
    assert!(v.contains("a"));
}
