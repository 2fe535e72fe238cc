use litsea::language::{CharTypePatterns, Language, TypeRule};
use litsea::version;

#[test]
fn test_version() {
    let v = version();
    assert!(!v.is_empty());
    assert_eq!(v, "0.1.0");
}

#[test]
fn test_language_from_str() {
    assert_eq!("japanese".parse::<Language>().unwrap(), Language::Japanese);
    assert_eq!("ja".parse::<Language>().unwrap(), Language::Japanese);
    assert_eq!("Japanese".parse::<Language>().unwrap(), Language::Japanese);
    assert_eq!("chinese".parse::<Language>().unwrap(), Language::Chinese);
    assert_eq!("zh".parse::<Language>().unwrap(), Language::Chinese);
    assert_eq!("Chinese".parse::<Language>().unwrap(), Language::Chinese);
    assert_eq!("korean".parse::<Language>().unwrap(), Language::Korean);
    assert_eq!("ko".parse::<Language>().unwrap(), Language::Korean);
    assert_eq!("KOREAN".parse::<Language>().unwrap(), Language::Korean);
    assert!("french".parse::<Language>().is_err());
    assert!("".parse::<Language>().is_err());
}

#[test]
fn test_language_display() {
    assert_eq!(Language::Japanese.to_string(), "japanese");
    assert_eq!(Language::Chinese.to_string(), "chinese");
    assert_eq!(Language::Korean.to_string(), "korean");
}

#[test]
fn test_language_default() {
    assert_eq!(Language::default(), Language::Japanese);
}

#[test]
fn test_japanese_patterns() {
    let p = Language::Japanese.char_type_patterns();
    assert_eq!(p.get_type("三"), "M");
    assert_eq!(p.get_type("漢"), "H");
    assert_eq!(p.get_type("あ"), "I");
    assert_eq!(p.get_type("ア"), "K");
    assert_eq!(p.get_type("A"), "A");
    assert_eq!(p.get_type("ａ"), "A");
    assert_eq!(p.get_type("5"), "N");
    assert_eq!(p.get_type("５"), "N");
    assert_eq!(p.get_type("@"), "O");
}

#[test]
fn test_chinese_patterns() {
    let p = Language::Chinese.char_type_patterns();
    assert_eq!(p.get_type("中"), "C");
    assert_eq!(p.get_type("国"), "C");
    assert_eq!(p.get_type("人"), "C");
    assert_eq!(p.get_type("。"), "P");
    assert_eq!(p.get_type("，"), "P");
    assert_eq!(p.get_type("A"), "A");
    assert_eq!(p.get_type("5"), "N");
    assert_eq!(p.get_type("@"), "O");
}

#[test]
fn test_korean_patterns() {
    let p = Language::Korean.char_type_patterns();
    assert_eq!(p.get_type("한"), "S");
    assert_eq!(p.get_type("글"), "S");
    assert_eq!(p.get_type("ㄱ"), "G");
    assert_eq!(p.get_type("ㅏ"), "G");
    assert_eq!(p.get_type("漢"), "H");
    assert_eq!(p.get_type("。"), "P");
    assert_eq!(p.get_type("A"), "A");
    assert_eq!(p.get_type("5"), "N");
    assert_eq!(p.get_type("@"), "O");
}

#[test]
fn chinese_extension_radical_and_bopomofo_codes() {
    let p = Language::Chinese.char_type_patterns();
    assert_eq!(p.get_type("\u{3400}"), "X");
    assert_eq!(p.get_type("\u{2E80}"), "R");
    assert_eq!(p.get_type("ㄅ"), "B");
    // No rule gives `F`: a common function word is an ordinary ideograph.
    assert_eq!(p.get_type("的"), "C");
}

#[test]
fn korean_jamo_code() {
    let p = Language::Korean.char_type_patterns();
    assert_eq!(p.get_type("\u{1100}"), "J");
}

#[test]
fn language_parse_reports_the_name() {
    let e = Language::parse("French").unwrap_err();
    assert!(e.contains("'French'"));
    assert_eq!(Language::parse("ZH"), Ok(Language::Chinese));
    assert_eq!(Language::parse("Ja"), Ok(Language::Japanese));
}

#[test]
fn language_from_lowercase_is_exact() {
    assert_eq!(Language::from_lowercase("ko"), Some(Language::Korean));
    assert_eq!(Language::from_lowercase("chinese"), Some(Language::Chinese));
    assert_eq!(Language::from_lowercase("Korean"), None);
    assert_eq!(Language::from_lowercase("jap"), None);
}

#[test]
fn select_code_takes_first_hit() {
    let p = Language::Japanese.char_type_patterns();
    assert_eq!(p.select_code(&vec![false, true, true]), "H");
    assert_eq!(p.select_code(&vec![true, true, false]), "M");
    assert_eq!(p.select_code(&vec![false, false, false]), "O");
    assert_eq!(p.select_code(&vec![false, false, true]), "I");
    assert_eq!(p.select_code(&vec![]), "O");
}

#[test]
fn custom_rules_first_match_wins() {
    let p = CharTypePatterns::new(vec![TypeRule::new("[a-c]", "X"), TypeRule::new("[a-z]", "Y")]);
    assert_eq!(p.get_type("b"), "X");
    assert_eq!(p.get_type("q"), "Y");
    assert_eq!(p.get_type("7"), "O");
}

#[test]
fn invalid_pattern_never_matches() {
    let p = CharTypePatterns::new(vec![TypeRule::new("[a-", "X"), TypeRule::new("[a-z]", "Y")]);
    assert_eq!(p.get_type("b"), "Y");
}
