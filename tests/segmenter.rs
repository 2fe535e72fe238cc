use litsea::features::attributes;
use litsea::language::Language;
use litsea::segmenter::Segmenter;

fn strings(v: &[&str]) -> Vec<String> {
    v.iter().map(|s| s.to_string()).collect()
}

#[test]
fn test_get_type_japanese_scenario() {
    let segmenter = Segmenter::new(Language::Japanese);
    assert_eq!(segmenter.get_type("あ"), "I");
    assert_eq!(segmenter.get_type("漢"), "H");
    assert_eq!(segmenter.get_type("A"), "A");
    assert_eq!(segmenter.get_type("５"), "N");
    assert_eq!(segmenter.get_type("@"), "O");
    // Japanese has no punctuation class.
    assert_eq!(segmenter.get_type("。"), "O");
}

#[test]
fn test_get_type_japanese() {
    let segmenter = Segmenter::new(Language::Japanese);

    assert_eq!(segmenter.get_type("あ"), "I");
    assert_eq!(segmenter.get_type("漢"), "H");
    // Japanese has no punctuation class: the ideographic full stop is other.
    assert_eq!(segmenter.get_type("。"), "O");
    assert_eq!(segmenter.get_type("A"), "A");
    assert_eq!(segmenter.get_type("1"), "N");
    assert_eq!(segmenter.get_type("@"), "O");
}

#[test]
fn test_get_type_chinese() {
    let segmenter = Segmenter::new(Language::Chinese);

    // No rule gives a function-word class: a common particle is an ideograph.
    assert_eq!(segmenter.get_type("的"), "C");
    assert_eq!(segmenter.get_type("中"), "C");
    assert_eq!(segmenter.get_type("国"), "C");
    assert_eq!(segmenter.get_type("。"), "P");
    assert_eq!(segmenter.get_type("A"), "A");
    assert_eq!(segmenter.get_type("5"), "N");
    assert_eq!(segmenter.get_type("@"), "O");
}

#[test]
fn test_get_type_korean() {
    let segmenter = Segmenter::new(Language::Korean);

    // Every Hangul syllable, particle or not, with or without a final consonant, is `S`.
    assert_eq!(segmenter.get_type("는"), "S");
    assert_eq!(segmenter.get_type("가"), "S");
    assert_eq!(segmenter.get_type("한"), "S");
    assert_eq!(segmenter.get_type("ㄱ"), "G");
    assert_eq!(segmenter.get_type("漢"), "H");
    assert_eq!(segmenter.get_type("A"), "A");
    assert_eq!(segmenter.get_type("5"), "N");
    assert_eq!(segmenter.get_type("@"), "O");
}

#[test]
fn instances_come_once_each_in_order() {
    let segmenter = Segmenter::new(Language::Japanese);
    let mut labels = Vec::new();
    let mut firsts = Vec::new();
    for (attrs, label) in segmenter.corpus_instances("テスト です") {
        labels.push(label);
        firsts.push(attrs.iter().find(|a| a.starts_with("UW4:")).cloned());
    }
    assert_eq!(labels, vec![-1, -1, 1, -1]);
    assert_eq!(
        firsts,
        vec![
            Some("UW4:ス".to_string()),
            Some("UW4:ト".to_string()),
            Some("UW4:で".to_string()),
            Some("UW4:す".to_string()),
        ]
    );
}

#[test]
fn test_add_corpus_with_writer() {
    let segmenter = Segmenter::new(Language::Japanese);
    let sentence = "テスト です";
    let collected = segmenter.corpus_instances(sentence);

    assert!(!collected.is_empty());
    for (_, label) in &collected {
        assert!(*label == 1 || *label == -1);
    }
    let (attrs, _) = &collected[0];
    assert!(attrs.iter().any(|a| a.starts_with("UW")));
    assert!(attrs.iter().any(|a| a.starts_with("UC")));
}

#[test]
fn test_add_sentence_empty() {
    let segmenter = Segmenter::new(Language::Japanese);
    assert!(segmenter.corpus_instances("").is_empty());
}

#[test]
fn test_segment_empty_sentence() {
    let segmenter = Segmenter::new(Language::Japanese);
    let result = segmenter.segment("", |_a: &Vec<String>| 1i8);
    assert!(result.is_empty());
}

#[test]
fn test_get_attributes() {
    let segmenter = Segmenter::new(Language::Japanese);
    let tags = vec!["U".to_string(); 7];
    let chars = strings(&["B3", "B2", "B1", "あ", "い", "う", "E1"]);
    let types = strings(&["O", "O", "O", "O", "I", "I", "O"]);

    let attrs = segmenter.get_attributes(4, &tags, &chars, &types);
    assert!(attrs.contains(&"UW4:い".to_string()));
    assert!(attrs.contains(&"UC4:I".to_string()));
    assert!(attrs.contains(&"UP3:U".to_string()));
    assert!(attrs.contains(&"WC1:あI".to_string()));
    assert!(attrs.contains(&"WC2:Oい".to_string()));
    assert!(attrs.contains(&"WC3:あO".to_string()));
    assert!(attrs.contains(&"WC4:いI".to_string()));
    assert_eq!(attrs.len(), 42);
}

#[test]
fn test_get_attributes_korean() {
    let segmenter = Segmenter::new(Language::Korean);
    let tags = vec!["U".to_string(); 7];
    let chars = strings(&["B3", "B2", "B1", "한", "국", "어", "E1"]);
    let types = strings(&["O", "O", "O", "SF", "SF", "SN", "O"]);

    let attrs = segmenter.get_attributes(4, &tags, &chars, &types);
    assert!(attrs.contains(&"UW4:국".to_string()));
    assert!(attrs.contains(&"UC4:SF".to_string()));
    assert!(!attrs.contains(&"WC1:한SF".to_string()));
    assert!(!attrs.contains(&"WC2:SF국".to_string()));
    assert_eq!(attrs.len(), 38);
}

#[test]
fn chinese_schema_has_mixed_features_and_exact_strings() {
    let tags = strings(&["U", "U", "U", "U", "B"]);
    let chars = strings(&["B3", "B2", "B1", "中", "国", "人", "E1", "E2"]);
    let types = strings(&["O", "O", "O", "C", "C", "C", "O", "O"]);
    let attrs = attributes(5, &tags, &chars, &types, Language::Chinese);
    assert_eq!(attrs.len(), 42);
    let expected = [
        "UP1:U", "UP2:U", "UP3:B", "BP1:UU", "BP2:UB", "UW1:B1", "UW2:中", "UW3:国", "UW4:人",
        "UW5:E1", "UW6:E2", "BW1:中国", "BW2:国人", "BW3:人E1", "UC1:O", "UC2:C", "UC3:C", "UC4:C",
        "UC5:O", "UC6:O", "BC1:CC", "BC2:CC", "BC3:CO", "TC1:OCC", "TC2:CCC", "TC3:CCO",
        "TC4:COO", "UQ1:UO", "UQ2:UC", "UQ3:BC", "BQ1:UCC", "BQ2:UCC", "BQ3:BCC", "BQ4:BCC",
        "TQ1:UOCC", "TQ2:UCCC", "TQ3:BOCC", "TQ4:BCCC", "WC1:国C", "WC2:C人", "WC3:国C",
        "WC4:人C",
    ];
    assert_eq!(attrs, strings(&expected));
}

#[test]
fn corpus_walk_labels_word_starts() {
    let segmenter = Segmenter::new(Language::Japanese);
    let collected = segmenter.corpus_instances("テスト  です");
    let labels: Vec<i8> = collected.iter().map(|(_, l)| *l).collect();
    assert_eq!(labels, vec![-1, -1, 1, -1]);
    // The first position asked about is the second letter.
    assert!(collected[0].0.contains(&"UW4:ス".to_string()));
    assert!(collected[0].0.contains(&"UP3:U".to_string()));
    assert!(collected[2].0.contains(&"UW4:で".to_string()));
    assert!(collected[2].0.contains(&"UC4:I".to_string()));
    assert!(collected[2].0.contains(&"UC3:K".to_string()));
}

#[test]
fn corpus_walk_single_letter_yields_nothing() {
    let segmenter = Segmenter::new(Language::Japanese);
    assert!(segmenter.corpus_instances("あ").is_empty());
    assert!(segmenter.corpus_instances("   ").is_empty());
}

#[test]
fn segment_follows_the_predictor() {
    let segmenter = Segmenter::new(Language::Japanese);
    let all = segmenter.segment("これはテスト", |_a: &Vec<String>| 1i8);
    assert_eq!(all, strings(&["こ", "れ", "は", "テ", "ス", "ト"]));
    let none = segmenter.segment("これはテスト", |_a: &Vec<String>| -1i8);
    assert_eq!(none, strings(&["これはテスト"]));
    let at_ha = segmenter.segment("これはテスト", |a: &Vec<String>| {
        if a.contains(&"UW4:は".to_string()) || a.contains(&"BC2:IK".to_string()) {
            1
        } else {
            -1
        }
    });
    assert_eq!(at_ha, strings(&["これ", "は", "テスト"]));
}

#[test]
fn segment_feeds_back_its_decisions() {
    let segmenter = Segmenter::new(Language::Korean);
    // A new word exactly where the previous letter did not start one.
    let r = segmenter.segment("abcde", |a: &Vec<String>| {
        if a.contains(&"UP3:B".to_string()) {
            -1
        } else {
            1
        }
    });
    assert_eq!(r, strings(&["a", "bc", "de"]));
}

#[test]
fn segment_single_letter() {
    let segmenter = Segmenter::new(Language::Chinese);
    assert_eq!(segmenter.segment("中", |_a: &Vec<String>| 1i8), strings(&["中"]));
    assert_eq!(segmenter.language(), Language::Chinese);
}
