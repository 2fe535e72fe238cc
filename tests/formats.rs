use litsea::formats::{
    feature_line, model_layout, model_text, parse_i8, parse_instance_line, parse_instance_lines,
    parse_model_lines, scan_features, split_fields, split_lines, LineError, ModelEntry,
    ModelTextError, ScanError,
};
use litsea::util::{locate_model, LocationError, ModelLocation, ModelScheme};

#[test]
fn test_parse_model_content_empty_input() {
    // The bias line is required, so empty content is refused.
    let result = parse_model_lines("");
    assert!(result.is_err());
    assert_eq!(result, Err(ModelTextError::MissingBias));
}

#[test]
fn model_lines_read_weights_and_bias() {
    let r = parse_model_lines("BW1:こん\t-0.1262\nUC4:I\t0.4513\n0.23105\n").unwrap();
    assert_eq!(
        r,
        vec![
            ModelEntry::Weight("BW1:こん".to_string(), "-0.1262".to_string()),
            ModelEntry::Weight("UC4:I".to_string(), "0.4513".to_string()),
            ModelEntry::Bias("0.23105".to_string()),
        ]
    );
}

#[test]
fn model_lines_refuse_a_blank_line_with_its_number() {
    assert_eq!(parse_model_lines("a\t1\n  \n0.5\n"), Err(ModelTextError::EmptyLine(2)));
    assert_eq!(parse_model_lines("\n"), Err(ModelTextError::EmptyLine(1)));
}

#[test]
fn model_lines_need_the_bias_last() {
    assert_eq!(parse_model_lines("0.5\na\t1\n0.2\n"), Err(ModelTextError::MisplacedBias(1)));
    assert_eq!(parse_model_lines("a\t1\nb\t2\n"), Err(ModelTextError::MissingBias));
    assert_eq!(parse_model_lines("0.25"), Ok(vec![ModelEntry::Bias("0.25".to_string())]));
    assert_eq!(
        parse_model_lines("not_a_number"),
        Ok(vec![ModelEntry::Bias("not_a_number".to_string())])
    );
}

#[test]
fn instance_lines_of_a_feature_file() {
    assert_eq!(
        parse_instance_lines("1 feat1 feat2\n-1 feat1\n"),
        Ok(vec![
            (1, vec!["feat1".to_string(), "feat2".to_string()]),
            (-1, vec!["feat1".to_string()]),
        ])
    );
    assert_eq!(parse_instance_lines("1 a\n\n-1 b\n"), Err((2, LineError::MissingLabel)));
    assert_eq!(
        parse_instance_lines("1 a\nx b\n"),
        Err((2, LineError::InvalidLabel("x".to_string())))
    );
    assert_eq!(parse_instance_lines(""), Ok(vec![]));
}

#[test]
fn lines_drop_line_endings() {
    assert_eq!(split_lines("a\r\nb\n\nc"), vec!["a", "b", "", "c"]);
    assert_eq!(split_lines("a\n"), vec!["a"]);
    assert_eq!(split_lines("a\r"), vec!["a\r"]);
    assert!(split_lines("").is_empty());
    assert_eq!(split_lines("\n"), vec![""]);
}

#[test]
fn fields_split_on_any_white_space() {
    assert_eq!(split_fields("  a\tb  c\u{3000}d "), vec!["a", "b", "c", "d"]);
    assert!(split_fields(" \t ").is_empty());
    assert_eq!(split_fields("x"), vec!["x"]);
}

#[test]
fn i8_parsing() {
    assert_eq!(parse_i8("1"), Some(1));
    assert_eq!(parse_i8("-1"), Some(-1));
    assert_eq!(parse_i8("+5"), Some(5));
    assert_eq!(parse_i8("007"), Some(7));
    assert_eq!(parse_i8("127"), Some(127));
    assert_eq!(parse_i8("128"), None);
    assert_eq!(parse_i8("-128"), Some(-128));
    assert_eq!(parse_i8("-129"), None);
    assert_eq!(parse_i8("99999"), None);
    assert_eq!(parse_i8("x"), None);
    assert_eq!(parse_i8("1x"), None);
    assert_eq!(parse_i8(""), None);
    assert_eq!(parse_i8("-"), None);
}

#[test]
fn instance_lines() {
    assert_eq!(
        parse_instance_line("1 feat1 feat2"),
        Ok((1, vec!["feat1".to_string(), "feat2".to_string()]))
    );
    assert_eq!(parse_instance_line("-1"), Ok((-1, vec![])));
    assert_eq!(parse_instance_line("   "), Err(LineError::MissingLabel));
    assert_eq!(parse_instance_line("x a"), Err(LineError::InvalidLabel("x".to_string())));
}

#[test]
fn model_scheme_text() {
    assert_eq!(ModelScheme::Http.as_str(), "http");
    assert_eq!(ModelScheme::Https.as_str(), "https");
    assert_eq!(ModelScheme::File.as_str(), "file");
    assert_eq!("https".parse::<ModelScheme>(), Ok(ModelScheme::Https));
    assert!("HTTP".parse::<ModelScheme>().is_err());
    assert!(ModelScheme::parse("ftp").unwrap_err().contains("ftp"));
}

#[test]
fn model_locations() {
    assert_eq!(locate_model("file:///tmp/m.model"), Ok(ModelLocation::File("/tmp/m.model".to_string())));
    assert_eq!(
        locate_model("https://example.com/a://b"),
        Ok(ModelLocation::Remote(ModelScheme::Https, "https://example.com/a://b".to_string()))
    );
    assert_eq!(
        locate_model("http://h/m"),
        Ok(ModelLocation::Remote(ModelScheme::Http, "http://h/m".to_string()))
    );
    assert_eq!(locate_model("ftp://h/m"), Err(LocationError::InvalidScheme("ftp".to_string())));
    assert_eq!(locate_model("models/ja.model"), Ok(ModelLocation::File("models/ja.model".to_string())));
    assert_eq!(locate_model(""), Ok(ModelLocation::File("".to_string())));
}

#[test]
fn feature_scan_lists_names_and_counts_instances() {
    let s = scan_features("1 feat1 feat2\n0 feat3\n\n").unwrap();
    assert_eq!(s.names, vec!["feat1", "feat2", "feat3"]);
    assert_eq!(s.num_instances, 2);
    let r = scan_features("1 a b\n-1 a\n").unwrap();
    assert_eq!(r.names, vec!["a", "b", "a"]);
    assert_eq!(r.num_instances, 2);
}

#[test]
fn feature_scan_without_features_is_refused() {
    assert_eq!(scan_features("1\n").err(), Some(ScanError::NoFeatures));
    assert_eq!(scan_features("").err(), Some(ScanError::NoFeatures));
}

#[test]
fn feature_lines_sort_their_features() {
    let attrs = vec!["UW4:い".to_string(), "BP1:UU".to_string(), "UC4:I".to_string()];
    assert_eq!(feature_line(&attrs, 1), "1\tBP1:UU\tUC4:I\tUW4:い");
    assert_eq!(feature_line(&vec![], -1), "-1");
    let line = feature_line(&attrs, -1);
    assert_eq!(
        parse_instance_line(&line),
        Ok((-1, vec!["BP1:UU".to_string(), "UC4:I".to_string(), "UW4:い".to_string()]))
    );
}

#[test]
fn model_text_reads_back() {
    let entries = vec![
        ModelEntry::Weight("feat1".to_string(), "0.5".to_string()),
        ModelEntry::Weight("feat2".to_string(), "-0.3".to_string()),
        ModelEntry::Bias("-0.1".to_string()),
    ];
    let text = model_text(&entries);
    assert_eq!(text, "feat1\t0.5\nfeat2\t-0.3\n-0.1\n");
    assert_eq!(parse_model_lines(&text), Ok(entries));
    assert_eq!(model_text(&vec![]), "");
}

#[test]
fn model_layout_sorts_names_and_keeps_the_last_line() {
    let entries = vec![
        ModelEntry::Weight("b".to_string(), "1".to_string()),
        ModelEntry::Weight("a".to_string(), "2".to_string()),
        ModelEntry::Weight("b".to_string(), "3".to_string()),
        ModelEntry::Bias("0.5".to_string()),
    ];
    assert_eq!(
        model_layout(&entries),
        vec![("".to_string(), 3), ("a".to_string(), 1), ("b".to_string(), 2)]
    );
    assert_eq!(model_layout(&vec![ModelEntry::Bias("0".to_string())]), vec![("".to_string(), 0)]);
}
