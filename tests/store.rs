use litsea::store::{Confusion, InstanceStore};
use litsea::vocab::{vocabulary, FeatureIndex};

#[test]
fn instances_are_sorted_and_deduplicated() {
    let mut s = InstanceStore::new(5);
    s.add_instance(&vec![3, 1, 3, 2], 1);
    s.add_instance(&vec![], -1);
    s.add_instance(&vec![4, 0], -1);
    assert_eq!(s.num_instances(), 3);
    assert_eq!(s.features_of(0), &[1, 2, 3]);
    assert!(s.features_of(1).is_empty());
    assert_eq!(s.features_of(2), &[0, 4]);
    assert_eq!(s.label_of(0), 1);
    assert_eq!(s.label_of(2), -1);
    assert!(s.has_feature(0, 2));
    assert!(!s.has_feature(0, 4));
    assert!(s.has_feature(2, 4));
    assert!(!s.has_feature(1, 0));
}

#[test]
fn growing_features_keeps_instances() {
    let mut s = InstanceStore::new(1);
    s.add_instance(&vec![0], 1);
    s.grow_features(3);
    assert_eq!(s.num_features(), 3);
    s.add_instance(&vec![2], -1);
    assert_eq!(s.features_of(0), &[0]);
    assert_eq!(s.features_of(1), &[2]);
}

#[test]
fn confusion_counts() {
    // Two instances: {A} labelled 1 scores 0.75, {B} labelled -1 scores -0.75.
    let mut s = InstanceStore::new(3);
    s.add_instance(&vec![1], 1);
    s.add_instance(&vec![2], -1);
    let c = s.confusion(&vec![true, false]);
    assert_eq!(
        c,
        Confusion {
            num_instances: 2,
            true_positives: 1,
            false_positives: 0,
            false_negatives: 0,
            true_negatives: 1,
        }
    );
    assert_eq!(
        c.true_positives + c.false_positives + c.false_negatives + c.true_negatives,
        c.num_instances
    );
    let c2 = s.confusion(&vec![false, true]);
    assert_eq!(c2.false_negatives, 1);
    assert_eq!(c2.false_positives, 1);
    let empty = InstanceStore::new(1).confusion(&vec![]);
    assert_eq!(empty.num_instances, 0);
    assert_eq!(empty.true_positives, 0);
}

#[test]
fn ingest_maps_names_through_the_index() {
    let ix = FeatureIndex::new(vocabulary(&vec!["a".to_string(), "b".to_string()])).unwrap();
    let mut s = InstanceStore::new(ix.len());
    let lines = vec![
        (1i8, vec!["b".to_string(), "zz".to_string(), "a".to_string()]),
        (-1i8, vec!["zz".to_string()]),
    ];
    s.ingest(&ix, &lines);
    assert_eq!(s.num_instances(), 2);
    assert_eq!(s.features_of(0), &[1, 2]);
    assert!(s.features_of(1).is_empty());
    assert_eq!(s.label_of(0), 1);
    assert_eq!(s.label_of(1), -1);
}
