//! Tests for the entry parser.
use rs_wikix2parquet::IxError;
use rs_wikix2parquet::ix::IndexEntry;
use rs_wikix2parquet::ix::lines2entries;

#[test]
fn parses_simple_line() {
    let e = IndexEntry::from_str("569:10:Foo").unwrap();
    assert_eq!(e.byte_offset, 569);
    assert_eq!(e.article_id, "10");
    assert_eq!(e.title, "Foo");
}

#[test]
fn title_keeps_its_own_delimiters() {
    let e = IndexEntry::from_str("569:10:The Movie 3: Sub").unwrap();
    assert_eq!(e.byte_offset, 569);
    assert_eq!(e.article_id, "10");
    assert_eq!(e.title, "The Movie 3: Sub");
}

#[test]
fn title_of_only_delimiters() {
    let e = IndexEntry::from_str("1:2:::::").unwrap();
    assert_eq!(e.article_id, "2");
    assert_eq!(e.title, "::::");
}

#[test]
fn non_ascii_fields_survive() {
    let e = IndexEntry::from_str("12:34:Grüße: ein Test π").unwrap();
    assert_eq!(e.byte_offset, 12);
    assert_eq!(e.article_id, "34");
    assert_eq!(e.title, "Grüße: ein Test π");
}

#[test]
fn empty_article_id_is_kept_verbatim() {
    let e = IndexEntry::from_str("7::t").unwrap();
    assert_eq!(e.article_id, "");
    assert_eq!(e.title, "t");
}

#[test]
fn empty_title_is_allowed() {
    let e = IndexEntry::from_str("7:8:").unwrap();
    assert_eq!(e.article_id, "8");
    assert_eq!(e.title, "");
}

#[test]
fn zero_offset_is_allowed() {
    let e = IndexEntry::from_str("0:1:x").unwrap();
    assert_eq!(e.byte_offset, 0);
}

#[test]
fn largest_offset_is_allowed() {
    let e = IndexEntry::from_str("18446744073709551615:1:x").unwrap();
    assert_eq!(e.byte_offset, u64::MAX);
}

#[test]
fn non_numeric_offset_fails() {
    assert_eq!(IndexEntry::from_str("abc:1:Foo").unwrap_err(), IxError::BadByteOffset);
}

#[test]
fn no_delimiter_reports_missing_article_id() {
    assert_eq!(IndexEntry::from_str("5").unwrap_err(), IxError::MissingArticleId);
}

#[test]
fn empty_line_reports_missing_article_id() {
    assert_eq!(IndexEntry::from_str("").unwrap_err(), IxError::MissingArticleId);
}

#[test]
fn one_delimiter_reports_missing_title() {
    assert_eq!(IndexEntry::from_str("5:1").unwrap_err(), IxError::MissingTitle);
}

#[test]
fn missing_title_is_reported_before_bad_offset() {
    assert_eq!(IndexEntry::from_str("abc:1").unwrap_err(), IxError::MissingTitle);
}

#[test]
fn empty_offset_fails() {
    assert_eq!(IndexEntry::from_str(":1:t").unwrap_err(), IxError::BadByteOffset);
}

#[test]
fn overflowing_offset_fails() {
    assert_eq!(
        IndexEntry::from_str("18446744073709551616:1:x").unwrap_err(),
        IxError::BadByteOffset
    );
}

#[test]
fn plus_prefixed_offset_is_accepted() {
    // Rust's own u64 parsing allows one leading plus sign.
    let e = IndexEntry::from_str("+5:1:x").unwrap();
    assert_eq!(e.byte_offset, 5);
    assert_eq!(IndexEntry::from_str("+0:1:x").unwrap().byte_offset, 0);
}

#[test]
fn minus_prefixed_offset_fails() {
    assert_eq!(IndexEntry::from_str("-5:1:x").unwrap_err(), IxError::BadByteOffset);
}

#[test]
fn bare_or_doubled_sign_fails() {
    assert_eq!(IndexEntry::from_str("+:1:x").unwrap_err(), IxError::BadByteOffset);
    assert_eq!(IndexEntry::from_str("++5:1:x").unwrap_err(), IxError::BadByteOffset);
}

#[test]
fn lines2entries_maps_one_to_one_in_order() {
    let lines = vec![
        Ok("1:2:a".to_string()),
        Err(IxError::Read("broken line".to_string())),
        Ok("x:2:a".to_string()),
        Ok("3:4:b:c".to_string()),
    ];
    let out = lines2entries(lines);
    assert_eq!(out.len(), 4);
    let first = out[0].as_ref().unwrap();
    assert_eq!(first.byte_offset, 1);
    assert!(matches!(out[1], Err(IxError::Read(_))));
    assert!(matches!(out[2], Err(IxError::BadByteOffset)));
    let last = out[3].as_ref().unwrap();
    assert_eq!(last.title, "b:c");
}
