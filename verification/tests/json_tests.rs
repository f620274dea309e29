use pdf_dump::json::{print_stats_json, print_validation_json, Json};
use pdf_dump::model::{ObjRef, PdfDoc, PdfValue};
use pdf_dump::stats::collect_stats;
use pdf_dump::tree::tree_json_value;
use pdf_dump::types::DumpConfig;
use pdf_dump::validate::validate_pdf;

type Entries = Vec<(Vec<u8>, PdfValue)>;

fn id(num: u32) -> ObjRef {
    ObjRef { num, gen: 0 }
}

fn reference(num: u32) -> PdfValue {
    PdfValue::Reference(id(num))
}

fn dict(entries: Vec<(&str, PdfValue)>) -> Entries {
    entries.into_iter().map(|(k, v)| (k.as_bytes().to_vec(), v)).collect()
}

fn doc_of(mut objects: Vec<(ObjRef, PdfValue)>, trailer: Entries) -> PdfDoc {
    objects.sort_by_key(|(k, _)| (k.num, k.gen));
    PdfDoc { objects, trailer }
}

fn config(depth: Option<usize>) -> DumpConfig {
    DumpConfig { decode: false, truncate: None, json: true, hex: false, depth, deref: false, raw: false }
}

fn member<'a>(j: &'a Json, key: &str) -> Option<&'a Json> {
    match j {
        Json::Object(ms) => ms.iter().rev().find(|(k, _)| k == key).map(|(_, v)| v),
        _ => None,
    }
}

/// Every string value anywhere in a JSON value.
fn strings(j: &Json, out: &mut Vec<String>) {
    match j {
        Json::Str(s) => out.push(s.clone()),
        Json::Array(items) => items.iter().for_each(|x| strings(x, out)),
        Json::Object(ms) => ms.iter().for_each(|(_, v)| strings(v, out)),
        _ => {},
    }
}

fn has_string(j: &Json, s: &str) -> bool {
    let mut all = Vec::new();
    strings(j, &mut all);
    all.iter().any(|x| x == s)
}

#[test]
fn tree_json_output_valid() {
    let doc = doc_of(
        vec![
            (id(2), PdfValue::Dictionary(dict(vec![("Type", PdfValue::Name(b"Pages".to_vec()))]))),
            (
                id(1),
                PdfValue::Dictionary(dict(vec![("Type", PdfValue::Name(b"Catalog".to_vec())), ("Pages", reference(2))])),
            ),
        ],
        dict(vec![("Root", reference(1))]),
    );
    let j = tree_json_value(&doc, &config(None));
    let tree = member(&j, "tree").unwrap();
    assert!(matches!(member(tree, "node"), Some(Json::Str(s)) if s == "Trailer"));
    match member(tree, "children") {
        Some(Json::Array(children)) => {
            assert_eq!(children.len(), 1);
            assert!(matches!(member(&children[0], "key"), Some(Json::Str(s)) if s == "/Root"));
            assert!(matches!(member(&children[0], "object"), Some(Json::Str(s)) if s == "1 0"));
            assert!(member(&children[0], "children").is_some());
        },
        _ => panic!("children should be an array"),
    }
}

#[test]
fn tree_json_visited_status() {
    let doc = doc_of(
        vec![
            (id(2), PdfValue::Dictionary(vec![])),
            (id(1), PdfValue::Dictionary(dict(vec![("Ref", reference(2))]))),
            (id(3), PdfValue::Dictionary(dict(vec![("Ref", reference(2))]))),
        ],
        dict(vec![("A", reference(1)), ("B", reference(3))]),
    );
    let j = tree_json_value(&doc, &config(None));
    assert!(has_string(&j, "visited"));
}

#[test]
fn tree_json_depth_limit() {
    let doc = doc_of(
        vec![(id(2), PdfValue::Dictionary(vec![])), (id(1), PdfValue::Dictionary(dict(vec![("Child", reference(2))])))],
        dict(vec![("Root", reference(1))]),
    );
    let j = tree_json_value(&doc, &config(Some(1)));
    assert!(has_string(&j, "depth_limit_reached"));
}

#[test]
fn tree_json_missing_object_shows_status() {
    let doc = doc_of(vec![], dict(vec![("Root", reference(99))]));
    let j = tree_json_value(&doc, &config(None));
    assert!(has_string(&j, "missing"), "JSON should contain missing status");
}

#[test]
fn print_validation_json_produces_valid_json() {
    let doc = doc_of(vec![], vec![]);
    let j = print_validation_json(&validate_pdf(&doc, &vec![]));
    assert!(matches!(member(&j, "error_count"), Some(Json::UInt(n)) if *n > 0));
    assert!(matches!(member(&j, "warning_count"), Some(Json::UInt(_))));
    assert!(matches!(member(&j, "issues"), Some(Json::Array(_))));
}

#[test]
fn print_validation_json_structure() {
    let doc = doc_of(vec![(id(1), PdfValue::Dictionary(dict(vec![("Ref", reference(99))])))], vec![]);
    let j = print_validation_json(&validate_pdf(&doc, &vec![]));
    assert!(matches!(member(&j, "error_count"), Some(Json::UInt(_))));
    assert!(matches!(member(&j, "warning_count"), Some(Json::UInt(_))));
    assert!(matches!(member(&j, "info_count"), Some(Json::UInt(_))));
    match member(&j, "issues") {
        Some(Json::Array(issues)) => {
            assert!(!issues.is_empty());
            for issue in issues {
                let level = match member(issue, "level") {
                    Some(Json::Str(s)) => s.clone(),
                    _ => panic!("level should be a string"),
                };
                assert!(matches!(member(issue, "message"), Some(Json::Str(_))));
                assert!(level == "error" || level == "warning" || level == "info");
            }
        },
        _ => panic!("issues should be an array"),
    }
}

#[test]
fn print_stats_json_output() {
    let doc = doc_of(vec![(id(1), PdfValue::Integer(42))], vec![]);
    let j = print_stats_json(&collect_stats(&doc, 0));
    assert!(matches!(member(&j, "object_count"), Some(Json::UInt(1))));
    assert!(matches!(member(&j, "total_stream_bytes"), Some(Json::Num(s)) if s == "0"));
    match member(&j, "type_counts") {
        Some(Json::Object(ms)) => {
            assert_eq!(ms.len(), 1);
            assert_eq!(ms[0].0, "Integer");
            assert!(matches!(ms[0].1, Json::UInt(1)));
        },
        _ => panic!("type_counts should be an object"),
    }
}
