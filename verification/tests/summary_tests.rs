use std::io::Write;

use pdf_dump::model::{ObjRef, PdfDoc, PdfValue};
use pdf_dump::json::{list_json_value, Json};
use pdf_dump::summary::{collect_stream_stats, count_object_types, metadata_info, print_list, print_overview, summary_detail};

type Entries = Vec<(Vec<u8>, PdfValue)>;

fn id(num: u32, gen: u16) -> ObjRef {
    ObjRef { num, gen }
}

fn name(n: &str) -> PdfValue {
    PdfValue::Name(n.as_bytes().to_vec())
}

fn integer(i: i64) -> PdfValue {
    PdfValue::Integer(i)
}

fn real_num(r: f32) -> PdfValue {
    PdfValue::Real(format!("{}", r))
}

fn dict(entries: Vec<(&str, PdfValue)>) -> Entries {
    entries.into_iter().map(|(k, v)| (k.as_bytes().to_vec(), v)).collect()
}

/// A stream as a new one is made, with an optional `/Filter`.
fn make_stream(filter: Option<PdfValue>, content: Vec<u8>) -> PdfValue {
    let mut d: Entries = Vec::new();
    if let Some(f) = filter {
        d.push((b"Filter".to_vec(), f));
    }
    d.push((b"Length".to_vec(), integer(content.len() as i64)));
    PdfValue::Stream { dict: d, content }
}

fn zlib_compress(data: &[u8]) -> Vec<u8> {
    let mut e = flate2::write::ZlibEncoder::new(Vec::new(), flate2::Compression::default());
    e.write_all(data).unwrap();
    e.finish().unwrap()
}

fn doc_of(mut objects: Vec<(ObjRef, PdfValue)>, trailer: Entries) -> PdfDoc {
    objects.sort_by_key(|(k, _)| (k.num, k.gen));
    PdfDoc { objects, trailer }
}

/// Pages (1 0) and a catalog (2 0) that the trailer names.
fn minimal(mut extra: Vec<(ObjRef, PdfValue)>) -> PdfDoc {
    let mut objects = vec![
        (id(1, 0), PdfValue::Dictionary(dict(vec![("Type", name("Pages")), ("Count", integer(0)), ("Kids", PdfValue::Array(vec![]))]))),
        (id(2, 0), PdfValue::Dictionary(dict(vec![("Type", name("Catalog")), ("Pages", PdfValue::Reference(id(1, 0)))]))),
    ];
    objects.append(&mut extra);
    doc_of(objects, dict(vec![("Root", PdfValue::Reference(id(2, 0)))]))
}

fn overview(doc: &PdfDoc, encrypted: bool, decode: bool) -> String {
    print_overview(doc, "1.4", &vec![], encrypted, decode, &vec![]).join("\n") + "\n"
}

fn get<'a>(m: &'a [(String, String)], k: &str) -> &'a str {
    m.iter().find(|e| e.0 == k).map(|e| e.1.as_str()).unwrap()
}

#[test]
fn summary_detail_integer() {
    assert_eq!(summary_detail(&integer(42)), "");
}

#[test]
fn summary_detail_stream() {
    assert_eq!(summary_detail(&make_stream(None, vec![0; 100])), "100 bytes");
}

#[test]
fn summary_detail_stream_with_filter() {
    let s = make_stream(Some(name("FlateDecode")), vec![0; 50]);
    assert!(summary_detail(&s).contains("FlateDecode"));
}

#[test]
fn summary_detail_dict_with_basefont() {
    let d = PdfValue::Dictionary(dict(vec![("BaseFont", name("Helvetica"))]));
    assert!(summary_detail(&d).contains("Helvetica"));
}

#[test]
fn summary_detail_dict_keys_only() {
    let d = PdfValue::Dictionary(dict(vec![("Foo", integer(1)), ("Bar", integer(2))]));
    let detail = summary_detail(&d);
    assert!(detail.contains("2 keys"), "Dict with no notable keys should show key count, got: {}", detail);
}

#[test]
fn summary_detail_dict_with_mediabox() {
    let d = PdfValue::Dictionary(dict(vec![(
        "MediaBox",
        PdfValue::Array(vec![integer(0), integer(0), integer(612), integer(792)]),
    )]));
    let detail = summary_detail(&d);
    assert!(detail.contains("MediaBox"), "Should show MediaBox");
    assert!(detail.contains("[0 0 612 792]"), "Should show array values, got: {}", detail);
}

#[test]
fn summary_detail_dict_with_subtype() {
    let d = PdfValue::Dictionary(dict(vec![("Subtype", name("Type1"))]));
    assert!(summary_detail(&d).contains("/Subtype=Type1"));
}

#[test]
fn summary_detail_dict_notable_non_name_non_array() {
    let d = PdfValue::Dictionary(dict(vec![("BaseFont", integer(42))]));
    let detail = summary_detail(&d);
    assert!(detail.contains("/BaseFont=..."), "Non-name/array notable should show '...', got: {}", detail);
}

#[test]
fn summary_detail_stream_no_filter() {
    assert_eq!(summary_detail(&make_stream(None, vec![0; 75])), "75 bytes");
}

#[test]
fn summary_detail_null() {
    assert_eq!(summary_detail(&PdfValue::Null), "");
}

#[test]
fn summary_detail_boolean() {
    assert_eq!(summary_detail(&PdfValue::Boolean(true)), "");
}

#[test]
fn summary_detail_mediabox_with_reals() {
    let d = PdfValue::Dictionary(dict(vec![(
        "MediaBox",
        PdfValue::Array(vec![real_num(0.0), real_num(0.0), real_num(595.28), real_num(841.89)]),
    )]));
    let detail = summary_detail(&d);
    assert!(detail.contains("595.28"), "Should format Real values, got: {}", detail);
}

#[test]
fn summary_detail_mediabox_with_mixed_types() {
    let d = PdfValue::Dictionary(dict(vec![("MediaBox", PdfValue::Array(vec![integer(0), name("Unknown")]))]));
    let detail = summary_detail(&d);
    assert!(detail.contains("?"), "Non-numeric array items should show '?', got: {}", detail);
}

#[test]
fn metadata_info_with_info_and_catalog() {
    let doc = doc_of(
        vec![
            (id(1, 0), PdfValue::Dictionary(dict(vec![("Title", PdfValue::Str(b"Test".to_vec()))]))),
            (
                id(2, 0),
                PdfValue::Dictionary(dict(vec![("Type", name("Catalog")), ("Lang", PdfValue::Str(b"en-US".to_vec()))])),
            ),
        ],
        dict(vec![("Info", PdfValue::Reference(id(1, 0))), ("Root", PdfValue::Reference(id(2, 0)))]),
    );
    let (info_map, catalog_map) = metadata_info(&doc);
    assert_eq!(get(&info_map, "Title"), "Test");
    assert_eq!(get(&catalog_map, "Lang"), "en-US");
}

#[test]
fn metadata_info_empty_doc() {
    let doc = doc_of(vec![], Vec::new());
    let (info_map, catalog_map) = metadata_info(&doc);
    assert!(info_map.is_empty());
    assert!(catalog_map.is_empty());
}

#[test]
fn metadata_info_catalog_page_layout_name() {
    let doc = doc_of(
        vec![(id(1, 0), PdfValue::Dictionary(dict(vec![("Type", name("Catalog")), ("PageLayout", name("TwoColumnLeft"))])))],
        dict(vec![("Root", PdfValue::Reference(id(1, 0)))]),
    );
    let (_, catalog_map) = metadata_info(&doc);
    assert_eq!(get(&catalog_map, "PageLayout"), "/TwoColumnLeft");
}

#[test]
fn overview_shows_encrypted_via_encryption_state() {
    let doc = minimal(vec![]);
    let out = overview(&doc, true, false);
    assert!(out.contains("Encrypted:   yes"), "Should detect encryption via encryption_state, got: {}", out);
}

#[test]
fn overview_shows_not_encrypted_when_no_encrypt() {
    let doc = minimal(vec![]);
    let out = overview(&doc, false, false);
    assert!(out.contains("Encrypted:   no"), "Should show not encrypted, got: {}", out);
}

#[test]
fn overview_shows_object_type_breakdown() {
    let doc = minimal(vec![(id(3, 0), integer(42))]);
    let out = overview(&doc, false, false);
    assert!(out.contains("Types:"), "Should show type breakdown, got: {}", out);
    assert!(out.contains("dictionaries"), "Should list dictionaries");
    assert!(out.contains("integers"), "Should list integers");
}

#[test]
fn overview_shows_stream_filters() {
    let compressed = zlib_compress(b"hello");
    let doc = minimal(vec![(id(3, 0), make_stream(Some(name("FlateDecode")), compressed))]);
    let out = overview(&doc, false, false);
    assert!(out.contains("Filters:"), "Should show filter histogram, got: {}", out);
    assert!(out.contains("FlateDecode"), "Should list FlateDecode");
}

#[test]
fn overview_skips_decoded_bytes_by_default() {
    let compressed = zlib_compress(b"hello world test data for compression");
    let doc = minimal(vec![(id(3, 0), make_stream(Some(name("FlateDecode")), compressed))]);
    let out = overview(&doc, false, false);
    assert!(!out.contains("decoded"), "Overview should not decode streams by default, got: {}", out);
    assert!(out.contains("bytes"), "Should still show byte count");
}

// ── Further cases ────────────────────────────────────────────────────

#[test]
fn overview_is_exact_for_a_small_document() {
    let doc = minimal(vec![
        (id(3, 0), make_stream(Some(name("FlateDecode")), zlib_compress(b"hello"))),
        (id(4, 0), make_stream(None, vec![1; 40])),
    ]);
    let lines = print_overview(&doc, "1.7", &vec![], false, true, &vec!["page labels".to_string()]);
    let raw = 40 + match &doc.objects[2].1 {
        PdfValue::Stream { content, .. } => content.len(),
        _ => 0,
    };
    assert_eq!(lines[0], "PDF Version: 1.7");
    assert_eq!(lines[1], "Objects:     4");
    assert_eq!(lines[2], "Pages:       0");
    assert_eq!(lines[3], "Encrypted:   no");
    assert_eq!(lines[4], "");
    assert!(lines[5].starts_with("Validation:  0 errors, 2 warnings, 0 info"), "{}", lines[5]);
    assert_eq!(lines[8], "Types:       2 dictionaries, 2 streams");
    assert_eq!(lines[9], "");
    assert_eq!(lines[10], format!("Streams:     2 ({} bytes raw, 45 decoded)", raw));
    assert_eq!(lines[11], "  Filters:   FlateDecode \u{00d7}1");
    assert_eq!(lines[12], format!("  Largest:   #4 (40 B), #3 ({} B)", raw - 40));
    assert_eq!(lines[13], "Features:    page labels");
    assert_eq!(lines[14], "");
    assert_eq!(lines[15], "Tip: Use --json for machine-readable output.");
}

#[test]
fn metadata_fields_come_in_name_order() {
    let doc = doc_of(
        vec![(
            id(1, 0),
            PdfValue::Dictionary(dict(vec![
                ("Title", PdfValue::Str(b"T".to_vec())),
                ("Author", PdfValue::Str(b"A".to_vec())),
                ("Creator", PdfValue::Str(b"C".to_vec())),
                ("CreationDate", PdfValue::Str(b"D".to_vec())),
                ("Producer", name("NotAString")),
            ])),
        )],
        dict(vec![("Info", PdfValue::Reference(id(1, 0)))]),
    );
    let (info, _) = metadata_info(&doc);
    let keys: Vec<&str> = info.iter().map(|e| e.0.as_str()).collect();
    assert_eq!(keys, vec!["Author", "CreationDate", "Creator", "Title"]);
}

#[test]
fn object_kinds_are_counted_in_name_order() {
    let doc = minimal(vec![(id(3, 0), integer(1)), (id(4, 0), PdfValue::Null), (id(5, 0), integer(2))]);
    assert_eq!(
        count_object_types(&doc),
        vec![("dictionaries".to_string(), 2), ("integers".to_string(), 2), ("nulls".to_string(), 1)]
    );
}

#[test]
fn stream_stats_keep_three_largest() {
    let doc = doc_of(
        (1..=5).map(|n| (id(n, 0), make_stream(None, vec![0; n as usize * 10]))).collect(),
        Vec::new(),
    );
    let st = collect_stream_stats(&doc, false);
    assert_eq!(st.count, 5);
    assert_eq!(st.total_bytes, 150);
    assert_eq!(st.total_decoded_bytes, None);
    assert_eq!(st.largest, vec![(5, 50), (4, 40), (3, 30)]);
}

#[test]
fn detail_shows_at_most_three_notable_keys() {
    let d = PdfValue::Dictionary(dict(vec![
        ("Subtype", name("Type1")),
        ("BaseFont", name("Helvetica")),
        ("MediaBox", PdfValue::Array(vec![])),
        ("Subtype", name("Again")),
    ]));
    assert_eq!(summary_detail(&d), "/Subtype=Type1, /BaseFont=Helvetica, /MediaBox=[]");
}

fn list_text(doc: &PdfDoc) -> String {
    print_list(doc, "1.4").join("\n") + "\n"
}

fn json_member<'a>(j: &'a Json, key: &str) -> Option<&'a Json> {
    match j {
        Json::Object(ms) => ms.iter().rev().find(|(k, _)| k == key).map(|(_, v)| v),
        _ => None,
    }
}

#[test]
fn print_list_shows_version_and_count() {
    let doc = doc_of(vec![(id(1, 0), integer(42))], vec![]);
    let out = list_text(&doc);
    assert!(out.contains("PDF 1.4"));
    assert!(out.contains("1 objects"));
    assert!(out.contains("Obj#"));
    assert_eq!(
        out,
        "PDF 1.4  |  1 objects\n\n  Obj#  Gen  Kind          /Type          Detail\n     1    0  Integer       -              \n"
    );
}

#[test]
fn print_list_stream_shows_bytes_and_filter() {
    let doc = doc_of(vec![(id(1, 0), make_stream(Some(name("FlateDecode")), vec![0u8; 100]))], vec![]);
    let out = list_text(&doc);
    assert!(out.contains("100 bytes"));
    assert!(out.contains("FlateDecode"));
    assert!(out.contains("Stream"));
}

#[test]
fn print_list_dict_shows_type_label() {
    let doc = doc_of(vec![(id(1, 0), PdfValue::Dictionary(dict(vec![("Type", name("Page"))])))], vec![]);
    let out = list_text(&doc);
    assert!(out.contains("Page"));
    assert!(out.contains("Dictionary"));
}

#[test]
fn print_list_multiple_objects_sorted() {
    let doc = doc_of(vec![(id(3, 0), integer(30)), (id(1, 0), integer(10)), (id(2, 0), integer(20))], vec![]);
    let out = list_text(&doc);
    assert!(out.contains("3 objects"));
    let pos1 = out.find("     1").unwrap();
    let pos2 = out.find("     2").unwrap();
    let pos3 = out.find("     3").unwrap();
    assert!(pos1 < pos2 && pos2 < pos3, "Objects should be in sorted order");
}

#[test]
fn print_list_json_produces_valid_json() {
    let doc = doc_of(vec![(id(1, 0), integer(42))], vec![]);
    let j = list_json_value(&doc, "1.4");
    assert!(matches!(json_member(&j, "object_count"), Some(Json::UInt(1))));
    assert!(matches!(json_member(&j, "objects"), Some(Json::Array(_))));
}

#[test]
fn print_list_json_includes_detail() {
    let doc = doc_of(
        vec![
            (id(1, 0), PdfValue::Dictionary(dict(vec![("Type", name("Font")), ("BaseFont", name("Helvetica"))]))),
            (id(2, 0), make_stream(Some(name("FlateDecode")), vec![0u8; 50])),
        ],
        vec![],
    );
    let j = list_json_value(&doc, "1.4");
    match json_member(&j, "objects") {
        Some(Json::Array(objects)) => {
            assert_eq!(objects.len(), 2);
            assert!(objects.iter().any(|o| matches!(json_member(o, "type"), Some(Json::Str(t)) if t == "Font")));
            assert!(matches!(json_member(&objects[1], "detail"), Some(Json::Str(d)) if d == "50 bytes, FlateDecode"));
        },
        _ => panic!("objects should be an array"),
    }
}
