use ulog_decoder::splitter::{split_segment_once, split_segments, SplitSegmentError};

#[test]
fn simple() {
    let x = split_segment_once(r#"14_meow_womp"#, '_').unwrap();
    assert_eq!(x, ("14".to_string(), Some("meow_womp")));
}

#[test]
fn entire() {
    let x = split_segment_once(r#"1234"#, '_').unwrap();
    assert_eq!(x, ("1234".to_string(), None));
}

#[test]
fn trailing() {
    let x = split_segment_once(r#"1234_"#, '_').unwrap();
    assert_eq!(x, ("1234".to_string(), Some("")));
}

#[test]
fn quoted() {
    let x = split_segment_once(r#""14_meow"_whoa"#, '_').unwrap();
    assert_eq!(x, ("14_meow".to_string(), Some("whoa")));
}

#[test]
fn quoted_entire() {
    let x = split_segment_once(r#""14_meow""#, '_').unwrap();
    assert_eq!(x, ("14_meow".to_string(), None));
}

#[test]
fn quoted_trailing() {
    let x = split_segment_once(r#""14_meow"_"#, '_').unwrap();
    assert_eq!(x, ("14_meow".to_string(), Some("")));
}

#[test]
fn empty() {
    let x = split_segment_once(r#""#, '_').unwrap();
    assert_eq!(x, ("".to_string(), None));
}

#[test]
#[should_panic = "NonAsciiDelim"]
fn error_non_ascii() {
    split_segment_once(r#"meow"#, '\u{1F602}').unwrap();
}

#[test]
fn segments() {
    let x = split_segments(r#"123_45_6___"me_ow\"_"_"#, '_').unwrap();
    assert_eq!(x, vec!["123", "45", "6", "", "", "me_ow\"_", ""]);
}

#[test]
fn empty_input_is_one_empty_field() {
    assert_eq!(split_segments("", '_').unwrap(), vec![""]);
}

#[test]
fn trailing_delimiter_gives_empty_field() {
    assert_eq!(split_segments("a_", '_').unwrap(), vec!["a", ""]);
}

#[test]
fn quoted_field_keeps_delimiter() {
    assert_eq!(split_segments("\"a_b\"_c", '_').unwrap(), vec!["a_b", "c"]);
}

#[test]
fn missing_closing_quote_is_unbalanced() {
    assert!(matches!(split_segments("\"a", '_'), Err(SplitSegmentError::UnbalancedQuotes)));
}

#[test]
fn text_after_closing_quote_is_partial() {
    assert!(matches!(split_segments("\"a\"b", '_'), Err(SplitSegmentError::PartiallyQuotedField)));
}

#[test]
fn escaped_quote_does_not_close_field() {
    assert_eq!(split_segments(r#""a\"b"_c"#, '_').unwrap(), vec!["a\"b", "c"]);
}

#[test]
fn quoted_field_is_unescaped() {
    assert_eq!(split_segments(r#""a\tb\x41""#, '_').unwrap(), vec!["a\tbA"]);
}

#[test]
fn malformed_escape_is_rejected() {
    assert!(matches!(
        split_segments(r#""a\xZZ""#, '_'),
        Err(SplitSegmentError::UnescapeError { .. })
    ));
}

#[test]
fn non_ascii_delimiter_is_rejected() {
    assert!(matches!(split_segments("a", '\u{e9}'), Err(SplitSegmentError::NonAsciiDelim)));
}

#[test]
fn unquoted_field_keeps_backslashes() {
    assert_eq!(split_segments(r#"a\n_b"#, '_').unwrap(), vec![r#"a\n"#, "b"]);
}
