use pdf_dump::search::{
    object_matches, parse_search_expr, CompiledRegex, EntryValue, SearchCondition, SearchObject,
};
use pdf_dump::stream::{FilterEntry, PdfStream};

fn name(key: &str, value: &str) -> (Vec<u8>, EntryValue) {
    (key.as_bytes().to_vec(), EntryValue::Name(value.as_bytes().to_vec()))
}

fn string(key: &str, value: &str) -> (Vec<u8>, EntryValue) {
    (key.as_bytes().to_vec(), EntryValue::Str(value.as_bytes().to_vec()))
}

fn other(key: &str) -> (Vec<u8>, EntryValue) {
    (key.as_bytes().to_vec(), EntryValue::Other)
}

fn dict(entries: Vec<(Vec<u8>, EntryValue)>) -> SearchObject {
    SearchObject::Dictionary(entries)
}

fn stream(entries: Vec<(Vec<u8>, EntryValue)>, content: &[u8]) -> SearchObject {
    SearchObject::Stream(entries, PdfStream { filter: None, content: content.to_vec() })
}

fn key_equals(key: &str, value: &str) -> SearchCondition {
    SearchCondition::KeyEquals { key: key.as_bytes().to_vec(), value: value.as_bytes().to_vec() }
}

fn regex(p: &str) -> SearchCondition {
    SearchCondition::RegexMatch { pattern: CompiledRegex::compile(p).unwrap() }
}

#[test]
fn parse_search_expr_key_value() {
    let conds = parse_search_expr("Type=Font").unwrap();
    assert_eq!(conds.len(), 1);
    assert!(matches!(&conds[0], SearchCondition::KeyEquals { key, value } if key == b"Type" && value == b"Font"));
}

#[test]
fn parse_search_expr_has_key() {
    let conds = parse_search_expr("key=MediaBox").unwrap();
    assert_eq!(conds.len(), 1);
    assert!(matches!(&conds[0], SearchCondition::HasKey { key } if key == b"MediaBox"));
}

#[test]
fn parse_search_expr_value_contains() {
    let conds = parse_search_expr("value=Hello").unwrap();
    assert_eq!(conds.len(), 1);
    assert!(matches!(&conds[0], SearchCondition::ValueContains { text } if text == "Hello"));
}

#[test]
fn parse_search_expr_multiple() {
    let conds = parse_search_expr("Type=Font,Subtype=Type1").unwrap();
    assert_eq!(conds.len(), 2);
}

#[test]
fn parse_search_expr_empty_fails() {
    assert!(parse_search_expr("").is_err());
}

#[test]
fn parse_search_expr_no_equals_fails() {
    assert!(parse_search_expr("badexpr").is_err());
}

#[test]
fn parse_search_expr_empty_value_fails() {
    assert!(parse_search_expr("Type=").is_err());
}

#[test]
fn parse_search_expr_error_texts() {
    assert_eq!(parse_search_expr("").err().unwrap(), "Empty search expression");
    assert_eq!(
        parse_search_expr("a=b, badexpr ,c=").err().unwrap(),
        "Invalid condition 'badexpr'. Expected Key=Value, key=Key, or value=Text"
    );
    assert_eq!(parse_search_expr("Type = ").err().unwrap(), "Empty value in 'Type ='");
    // Only the first '=' splits; the rest belongs to the value.
    let conds = parse_search_expr("A=b=c").unwrap();
    assert!(matches!(&conds[0], SearchCondition::KeyEquals { key, value } if key == b"A" && value == b"b=c"));
}

#[test]
fn object_matches_key_value() {
    let obj = dict(vec![name("Type", "Font")]);
    assert!(object_matches(&obj, &[key_equals("Type", "Font")]));
}

#[test]
fn object_matches_key_value_case_insensitive() {
    let obj = dict(vec![name("Type", "Font")]);
    assert!(object_matches(&obj, &[key_equals("Type", "font")]));
}

#[test]
fn object_matches_has_key() {
    let obj = dict(vec![other("MediaBox")]);
    assert!(object_matches(&obj, &[SearchCondition::HasKey { key: b"MediaBox".to_vec() }]));
}

#[test]
fn object_matches_has_key_missing() {
    let obj = dict(vec![]);
    assert!(!object_matches(&obj, &[SearchCondition::HasKey { key: b"MediaBox".to_vec() }]));
}

#[test]
fn object_matches_value_contains() {
    let obj = dict(vec![name("BaseFont", "Helvetica")]);
    let conds = vec![SearchCondition::ValueContains { text: "helvet".to_string() }];
    assert!(object_matches(&obj, &conds));
}

#[test]
fn object_matches_non_dict_returns_false() {
    let conds = vec![SearchCondition::HasKey { key: b"Type".to_vec() }];
    assert!(!object_matches(&SearchObject::Other, &conds));
}

#[test]
fn object_matches_stream() {
    let obj = stream(vec![name("Type", "XObject")], b"");
    assert!(object_matches(&obj, &[key_equals("Type", "XObject")]));
}

#[test]
fn object_matches_and_logic() {
    let obj = dict(vec![name("Type", "Font"), name("Subtype", "Type1")]);
    assert!(object_matches(&obj, &[key_equals("Type", "Font"), key_equals("Subtype", "Type1")]));
}

#[test]
fn object_matches_and_logic_partial_fail() {
    let obj = dict(vec![name("Type", "Font")]);
    assert!(!object_matches(&obj, &[key_equals("Type", "Font"), key_equals("Subtype", "Type1")]));
}

#[test]
fn object_matches_key_equals_string_value() {
    let obj = dict(vec![string("Title", "MyTitle")]);
    assert!(object_matches(&obj, &[key_equals("Title", "mytitle")]));
}

#[test]
fn object_matches_key_equals_non_matching_type() {
    let obj = dict(vec![other("Count")]);
    assert!(!object_matches(&obj, &[key_equals("Count", "42")]));
}

#[test]
fn object_matches_value_contains_string_object() {
    let obj = dict(vec![string("Title", "Hello World")]);
    let conds = vec![SearchCondition::ValueContains { text: "world".to_string() }];
    assert!(object_matches(&obj, &conds));
}

#[test]
fn object_matches_value_contains_no_match() {
    let obj = dict(vec![name("Type", "Page")]);
    let conds = vec![SearchCondition::ValueContains { text: "nonexistent".to_string() }];
    assert!(!object_matches(&obj, &conds));
}

#[test]
fn object_matches_value_contains_non_string_values_skipped() {
    let obj = dict(vec![other("Count")]);
    let conds = vec![SearchCondition::ValueContains { text: "42".to_string() }];
    assert!(!object_matches(&obj, &conds));
}

#[test]
fn object_matches_value_contains_lowercases_needle_only() {
    // The needle is lower-cased; the haystack is compared in ASCII lower case.
    let obj = dict(vec![name("Title", "ABC")]);
    let conds = vec![SearchCondition::ValueContains { text: "aBc".to_string() }];
    assert!(object_matches(&obj, &conds));
    // The first entry with a key decides KeyEquals.
    let dup = dict(vec![name("Type", "Page"), name("Type", "Font")]);
    assert!(!object_matches(&dup, &[key_equals("Type", "Font")]));
}

#[test]
fn parse_search_expr_key_case_insensitive() {
    let conds = parse_search_expr("KEY=MediaBox").unwrap();
    assert!(matches!(&conds[0], SearchCondition::HasKey { key } if key == b"MediaBox"));
}

#[test]
fn parse_search_expr_value_case_insensitive() {
    let conds = parse_search_expr("VALUE=Hello").unwrap();
    assert!(matches!(&conds[0], SearchCondition::ValueContains { text } if text == "Hello"));
}

#[test]
fn parse_search_expr_whitespace_trimmed() {
    let conds = parse_search_expr("  Type = Font  ").unwrap();
    assert_eq!(conds.len(), 1);
    assert!(matches!(&conds[0], SearchCondition::KeyEquals { key, value } if key == b"Type" && value == b"Font"));
}

#[test]
fn parse_search_expr_multiple_with_whitespace() {
    let conds = parse_search_expr("Type=Font , Subtype=Type1").unwrap();
    assert_eq!(conds.len(), 2);
}

#[test]
fn parse_search_expr_empty_parts_skipped() {
    let conds = parse_search_expr("Type=Font,").unwrap();
    assert_eq!(conds.len(), 1);
}

#[test]
fn parse_search_expr_only_commas_fails() {
    assert!(parse_search_expr(",,,").is_err());
}

#[test]
fn search_stream_contains_matches() {
    let obj = stream(vec![], b"Hello World stream content");
    let conditions = vec![SearchCondition::StreamContains { text: "world".to_string() }];
    assert!(object_matches(&obj, &conditions));
    assert!(!object_matches(&SearchObject::Other, &conditions));
}

#[test]
fn search_stream_contains_case_insensitive() {
    let obj = stream(vec![], b"FlateDecode Content");
    let conditions = vec![SearchCondition::StreamContains { text: "flatedecode".to_string() }];
    assert!(object_matches(&obj, &conditions));
}

#[test]
fn search_stream_no_match() {
    let obj = stream(vec![], b"ABC");
    let conditions = vec![SearchCondition::StreamContains { text: "XYZ".to_string() }];
    assert!(!object_matches(&obj, &conditions));
}

#[test]
fn search_stream_decodes_filters_first() {
    let obj = SearchObject::Stream(
        vec![],
        PdfStream {
            filter: Some(FilterEntry::Name(b"ASCIIHexDecode".to_vec())),
            content: b"48656C6C6F>".to_vec(),
        },
    );
    let conditions = vec![SearchCondition::StreamContains { text: "hello".to_string() }];
    assert!(object_matches(&obj, &conditions));
}

#[test]
fn parse_search_stream_condition() {
    let conditions = parse_search_expr("stream=Hello").unwrap();
    assert_eq!(conditions.len(), 1);
    assert!(matches!(&conditions[0], SearchCondition::StreamContains { text } if text == "Hello"));
}

#[test]
fn search_stream_and_key_combined() {
    let obj = stream(vec![name("Type", "XObject")], b"q 1 0 0 1 0 0 cm Q");
    let conditions = vec![
        key_equals("Type", "XObject"),
        SearchCondition::StreamContains { text: "cm".to_string() },
    ];
    assert!(object_matches(&obj, &conditions));
}

#[test]
fn search_stream_on_dict_returns_false() {
    let obj = dict(vec![]);
    let conditions = vec![SearchCondition::StreamContains { text: "anything".to_string() }];
    assert!(!object_matches(&obj, &conditions));
}

#[test]
fn parse_search_expr_regex() {
    let conds = parse_search_expr("regex=Font\\d+").unwrap();
    assert_eq!(conds.len(), 1);
    assert!(matches!(&conds[0], SearchCondition::RegexMatch { pattern } if pattern.source() == "Font\\d+"));
}

#[test]
fn parse_search_expr_regex_case_insensitive() {
    let conds = parse_search_expr("REGEX=test").unwrap();
    assert_eq!(conds.len(), 1);
    assert!(matches!(&conds[0], SearchCondition::RegexMatch { .. }));
}

#[test]
fn parse_search_expr_regex_invalid() {
    let result = parse_search_expr("regex=[invalid");
    match result {
        Err(e) => assert!(e.starts_with("Invalid regex '[invalid': "), "got: {}", e),
        Ok(_) => panic!("Expected error for invalid regex"),
    }
}

#[test]
fn object_matches_regex_name_value() {
    let obj = dict(vec![name("BaseFont", "Helvetica-Bold")]);
    assert!(object_matches(&obj, &[regex("Helvetica")]));
}

#[test]
fn object_matches_regex_key_name() {
    let obj = dict(vec![other("MediaBox")]);
    assert!(object_matches(&obj, &[regex("^Media")]));
}

#[test]
fn object_matches_regex_string_value() {
    let obj = dict(vec![string("Title", "Chapter 5 - Results")]);
    assert!(object_matches(&obj, &[regex(r"Chapter \d+")]));
}

#[test]
fn object_matches_regex_no_match() {
    let obj = dict(vec![name("Type", "Page")]);
    assert!(!object_matches(&obj, &[regex("Font")]));
}

#[test]
fn object_matches_regex_combined_with_other() {
    let obj = dict(vec![name("Type", "Font"), name("BaseFont", "Helvetica")]);
    assert!(object_matches(&obj, &[key_equals("Type", "Font"), regex("Helv")]));
}

#[test]
fn object_matches_regex_stream_content() {
    let obj = stream(vec![name("Type", "XObject")], b"BT /F1 12 Tf (Hello World) Tj ET");
    assert!(object_matches(&obj, &[regex("Hello")]));
}

#[test]
fn object_matches_regex_case_flag() {
    let obj = dict(vec![name("BaseFont", "HELVETICA")]);
    assert!(object_matches(&obj, &[regex("(?i)helvetica")]));
}

#[test]
fn object_matches_regex_skips_invalid_utf8_values() {
    let obj = dict(vec![(b"K".to_vec(), EntryValue::Str(vec![0xff, b'a']))]);
    assert!(!object_matches(&obj, &[regex("a")]));
}
