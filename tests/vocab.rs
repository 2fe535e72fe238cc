use litsea::vocab::{vocabulary, FeatureIndex};

fn strings(v: &[&str]) -> Vec<String> {
    v.iter().map(|s| s.to_string()).collect()
}

#[test]
fn vocabulary_is_sorted_deduplicated_with_bias_first() {
    assert_eq!(vocabulary(&strings(&["b", "a", "b", "c"])), strings(&["", "a", "b", "c"]));
    assert_eq!(vocabulary(&vec![]), strings(&[""]));
}

#[test]
fn vocabulary_orders_by_code_point() {
    assert_eq!(
        vocabulary(&strings(&["い", "あ", "B", "a", "ab", "UW1:x"])),
        strings(&["", "B", "UW1:x", "a", "ab", "あ", "い"])
    );
}

#[test]
fn test_initialize_features_vocabulary() {
    let v = vocabulary(&strings(&["feat1", "feat2", "feat3"]));
    assert!(v.contains(&"".to_string()));
    assert!(v.contains(&"feat1".to_string()));
    assert!(v.contains(&"feat2".to_string()));
    assert!(v.contains(&"feat3".to_string()));
}

#[test]
fn index_finds_positions_and_skips_unknown_names() {
    let ix = FeatureIndex::new(vocabulary(&strings(&["b", "a", "c"]))).unwrap();
    assert_eq!(ix.len(), 4);
    assert_eq!(ix.position(""), Some(0));
    assert_eq!(ix.position("b"), Some(2));
    assert_eq!(ix.position("zz"), None);
    assert_eq!(ix.positions_of(&strings(&["c", "x", "a"])), vec![3, 1]);
    assert_eq!(ix.positions_of(&strings(&["c", "a"])), vec![3, 1]);
    assert_eq!(ix.name(3), "c");
}

#[test]
fn index_refuses_names_out_of_order() {
    assert!(FeatureIndex::new(strings(&["b", "a"])).is_none());
    assert!(FeatureIndex::new(strings(&["a", "a"])).is_none());
}

#[test]
fn index_insert_appends_new_names() {
    let mut ix = FeatureIndex::new(vec![]).unwrap();
    assert_eq!(ix.insert("m".to_string()), 0);
    assert_eq!(ix.insert("a".to_string()), 1);
    assert_eq!(ix.insert("z".to_string()), 2);
    assert_eq!(ix.insert("a".to_string()), 1);
    assert_eq!(ix.len(), 3);
    assert_eq!(ix.position("a"), Some(1));
    assert_eq!(ix.position("z"), Some(2));
    assert_eq!(ix.positions_of(&strings(&["z", "q", "m"])), vec![2, 0]);
}
