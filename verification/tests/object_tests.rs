use pdf_dump::dump::{
    dump_object_and_children, dump_page, print_object, print_objects, print_single_object, print_stream_content,
};
use pdf_dump::json::{collect_reachable_objects, object_to_json, print_objects_json, print_single_object_json, Json};
use pdf_dump::model::{pdf_stream_of, ObjRef, PdfDoc, PdfValue};
use pdf_dump::stream::decode_stream;
use pdf_dump::object::{format_operation, print_content_data};
use pdf_dump::types::{DumpConfig, PageSpec};
use pdf_dump::validate::reachable_objects;
use std::io::Write;

type Entries = Vec<(Vec<u8>, PdfValue)>;
type Table = Vec<(ObjRef, Result<Vec<String>, String>)>;

fn id(num: u32, gen: u16) -> ObjRef {
    ObjRef { num, gen }
}

fn reference(num: u32) -> PdfValue {
    PdfValue::Reference(id(num, 0))
}

fn name(n: &str) -> PdfValue {
    PdfValue::Name(n.as_bytes().to_vec())
}

fn integer(i: i64) -> PdfValue {
    PdfValue::Integer(i)
}

fn real_num(r: f32) -> PdfValue {
    PdfValue::Real(format!("{}", r))
}

fn string(s: &[u8]) -> PdfValue {
    PdfValue::Str(s.to_vec())
}

fn dict(entries: Vec<(&str, PdfValue)>) -> Entries {
    entries.into_iter().map(|(k, v)| (k.as_bytes().to_vec(), v)).collect()
}

/// A stream as a new one is made: `/Length` set to the content's length.
fn stream(mut d: Entries, content: Vec<u8>) -> PdfValue {
    let len = integer(content.len() as i64);
    match d.iter_mut().find(|e| e.0 == b"Length") {
        Some(e) => e.1 = len,
        None => d.push((b"Length".to_vec(), len)),
    }
    PdfValue::Stream { dict: d, content }
}

fn make_stream(filter: Option<PdfValue>, content: Vec<u8>) -> PdfValue {
    let d = match filter {
        Some(f) => vec![(b"Filter".to_vec(), f)],
        None => vec![],
    };
    stream(d, content)
}

fn zlib_compress(data: &[u8]) -> Vec<u8> {
    let mut e = flate2::write::ZlibEncoder::new(Vec::new(), flate2::Compression::default());
    e.write_all(data).unwrap();
    e.finish().unwrap()
}

fn doc_of(mut objects: Vec<(ObjRef, PdfValue)>, trailer: Entries) -> PdfDoc {
    objects.sort_by_key(|(k, _)| (k.num, k.gen));
    PdfDoc { objects, trailer }
}

fn empty_doc() -> PdfDoc {
    doc_of(vec![], vec![])
}

fn cfg(decode: bool, truncate: Option<usize>, hex: bool, depth: Option<usize>, deref: bool, raw: bool) -> DumpConfig {
    DumpConfig { decode, truncate, json: false, hex, depth, deref, raw }
}

fn default_config() -> DumpConfig {
    cfg(false, None, false, None, false, false)
}

fn json_cfg(decode: bool, truncate: Option<usize>, hex: bool, deref: bool, raw: bool) -> DumpConfig {
    DumpConfig { decode, truncate, json: true, hex, depth: None, deref, raw }
}

fn decode_stream_view(dict: &Entries, content: &Vec<u8>) -> Vec<u8> {
    let st = pdf_stream_of(dict, content);
    let (d, _) = decode_stream(&st);
    d.to_vec()
}

fn operand(o: &lopdf::Object) -> PdfValue {
    match o {
        lopdf::Object::Null => PdfValue::Null,
        lopdf::Object::Boolean(b) => PdfValue::Boolean(*b),
        lopdf::Object::Integer(i) => PdfValue::Integer(*i),
        lopdf::Object::Real(r) => PdfValue::Real(format!("{}", r)),
        lopdf::Object::Name(n) => PdfValue::Name(n.clone()),
        lopdf::Object::String(s, _) => PdfValue::Str(s.clone()),
        lopdf::Object::Array(a) => PdfValue::Array(a.iter().map(operand).collect()),
        lopdf::Object::Dictionary(d) => {
            PdfValue::Dictionary(d.iter().map(|(k, v)| (k.clone(), operand(v))).collect())
        },
        lopdf::Object::Stream(s) => PdfValue::Stream {
            dict: s.dict.iter().map(|(k, v)| (k.clone(), operand(v))).collect(),
            content: s.content.clone(),
        },
        lopdf::Object::Reference(r) => PdfValue::Reference(id(r.0, r.1)),
    }
}

/// The operations of content bytes, as lopdf's parser reads them.
fn parse_ops(content: &[u8]) -> Result<Vec<String>, String> {
    match lopdf::content::Content::decode(content) {
        Ok(c) => Ok(c.operations.iter().map(|op| format_operation(&op.operator, &op.operands.iter().map(operand).collect())).collect()),
        Err(e) => Err(format!("{}", e)),
    }
}

/// The parse of every stream object's decoded content.
fn content_table(doc: &PdfDoc) -> Table {
    let mut t = Vec::new();
    for (r, v) in &doc.objects {
        if let PdfValue::Stream { dict, content } = v {
            let decoded = decode_stream_view(dict, content);
            t.push((*r, parse_ops(&decoded)));
        }
    }
    t
}

fn print_obj(obj: &PdfValue) -> (String, Vec<(bool, ObjRef)>) {
    let doc = empty_doc();
    let mut refs = Vec::new();
    let out = print_object(obj, &doc, &vec![], 1, &default_config(), false, None, &mut refs);
    (out, refs)
}

fn dump(doc: &PdfDoc, start: u32, config: &DumpConfig, is_contents: bool, visited: &mut Vec<ObjRef>) -> String {
    let table = content_table(doc);
    let mut out = String::new();
    dump_object_and_children(&mut out, id(start, 0), doc, visited, config, is_contents, 0, &table);
    out
}

fn single(doc: &PdfDoc, n: u32, config: &DumpConfig) -> String {
    print_single_object(doc, n, config).unwrap()
}

fn content_data(content: &[u8], description: &str, indent: &str, config: &DumpConfig, is_contents: bool, warning: Option<&str>) -> String {
    let parsed = if is_contents { Some(parse_ops(content)) } else { None };
    print_content_data(content, description, indent, config, warning, parsed.as_ref())
}

fn stream_content(s: &PdfValue, indent: &str, config: &DumpConfig, is_contents: bool) -> String {
    match s {
        PdfValue::Stream { dict, content } => {
            let decoded = decode_stream_view(dict, content);
            let parsed = parse_ops(&decoded);
            print_stream_content(dict, content, indent, config, is_contents, Some(&parsed))
        },
        _ => panic!("not a stream"),
    }
}

fn member<'a>(j: &'a Json, key: &str) -> Option<&'a Json> {
    match j {
        Json::Object(ms) => ms.iter().rev().find(|(k, _)| k == key).map(|(_, v)| v),
        _ => None,
    }
}

fn str_of(j: Option<&Json>) -> Option<&str> {
    match j {
        Some(Json::Str(s)) => Some(s.as_str()),
        _ => None,
    }
}

fn keys(listing: &[(String, Json)]) -> Vec<&str> {
    listing.iter().map(|(k, _)| k.as_str()).collect()
}

/// Two pages under one page tree, each with a content stream that names it.
fn build_two_page_doc() -> (PdfDoc, Vec<ObjRef>) {
    let doc = doc_of(
        vec![
            (id(1, 0), PdfValue::Dictionary(dict(vec![("Type", name("Catalog")), ("Pages", reference(2))]))),
            (
                id(2, 0),
                PdfValue::Dictionary(dict(vec![
                    ("Type", name("Pages")),
                    ("Kids", PdfValue::Array(vec![reference(3), reference(5)])),
                    ("Count", integer(2)),
                ])),
            ),
            (
                id(3, 0),
                PdfValue::Dictionary(dict(vec![("Type", name("Page")), ("Parent", reference(2)), ("Contents", reference(4))])),
            ),
            (id(4, 0), stream(vec![], b"BT /F1 12 Tf (Page1) Tj ET".to_vec())),
            (
                id(5, 0),
                PdfValue::Dictionary(dict(vec![("Type", name("Page")), ("Parent", reference(2)), ("Contents", reference(6))])),
            ),
            (id(6, 0), stream(vec![], b"BT /F1 12 Tf (Page2) Tj ET".to_vec())),
        ],
        dict(vec![("Root", reference(1))]),
    );
    (doc, vec![id(3, 0), id(5, 0)])
}

fn page_text(doc: &PdfDoc, pages: &Vec<ObjRef>, spec: PageSpec, config: &DumpConfig) -> String {
    let table = content_table(doc);
    let (out, err) = dump_page(doc, pages, &spec, config, &table);
    assert!(err.is_none());
    out
}

fn chain_doc() -> PdfDoc {
    doc_of(
        vec![
            (id(3, 0), PdfValue::Dictionary(dict(vec![("Type", name("Grandchild"))]))),
            (id(2, 0), PdfValue::Dictionary(dict(vec![("Type", name("Child")), ("Next", reference(3))]))),
            (id(1, 0), PdfValue::Dictionary(dict(vec![("Type", name("Root")), ("Child", reference(2))]))),
        ],
        dict(vec![("Root", reference(1))]),
    )
}

#[test]
fn print_content_data_with_warning() {
    let out = content_data(b"raw data", "raw", "  ", &default_config(), false, Some("test warning message"));
    assert!(out.contains("[WARNING: test warning message]"));
}

#[test]
fn print_content_data_without_warning() {
    let out = content_data(b"raw data", "raw", "  ", &default_config(), false, None);
    assert!(!out.contains("WARNING"));
}

#[test]
fn object_to_json_stream_decode_warning() {
    let s = make_stream(Some(name("FlateDecode")), b"corrupt data".to_vec());
    let val = object_to_json(&s, &empty_doc(), &json_cfg(true, None, false, false, false));
    assert!(member(&val, "decode_warning").is_some(), "Corrupt stream should have decode_warning in JSON");
}

#[test]
fn object_to_json_stream_no_decode_warning() {
    let s = make_stream(None, b"text content".to_vec());
    let val = object_to_json(&s, &empty_doc(), &json_cfg(true, None, false, false, false));
    assert!(member(&val, "decode_warning").is_none(), "Valid stream should not have decode_warning");
}

#[test]
fn print_object_null() {
    let (out, _) = print_obj(&PdfValue::Null);
    assert_eq!(out, "null");
}

#[test]
fn print_object_boolean() {
    let (out, _) = print_obj(&PdfValue::Boolean(true));
    assert_eq!(out, "true");
    let (out, _) = print_obj(&PdfValue::Boolean(false));
    assert_eq!(out, "false");
}

#[test]
fn print_object_integer() {
    let (out, _) = print_obj(&integer(42));
    assert_eq!(out, "42");
}

#[test]
fn print_object_real() {
    let (out, _) = print_obj(&real_num(2.72));
    assert_eq!(out, "2.72");
}

#[test]
fn print_object_name() {
    let (out, _) = print_obj(&name("Type"));
    assert_eq!(out, "/Type");
}

#[test]
fn print_object_string() {
    let (out, _) = print_obj(&string(b"hello"));
    assert_eq!(out, "(hello)");
}

#[test]
fn print_object_array() {
    let (out, _) = print_obj(&PdfValue::Array(vec![integer(1), integer(2)]));
    assert!(out.contains("["));
    assert!(out.contains("1"));
    assert!(out.contains("2"));
    assert!(out.contains("]"));
    assert_eq!(out, "[\n    1\n    2\n  ]");
}

#[test]
fn print_object_dictionary() {
    let (out, _) = print_obj(&PdfValue::Dictionary(dict(vec![("Key", integer(99))])));
    assert!(out.contains("<<"));
    assert!(out.contains("/Key"));
    assert!(out.contains("99"));
    assert!(out.contains(">>"));
    assert_eq!(out, "<<\n    /Key 99\n  >>");
}

#[test]
fn print_object_stream_no_decode() {
    let (out, _) = print_obj(&make_stream(None, b"stream data".to_vec()));
    assert!(out.contains("<<"));
    assert!(out.contains(">> stream"));
    assert!(!out.contains("Stream content"));
}

#[test]
fn print_object_stream_with_decode() {
    let s = make_stream(None, b"visible data".to_vec());
    let mut refs = Vec::new();
    let config = cfg(true, None, false, None, false, false);
    let out = print_object(&s, &empty_doc(), &vec![], 1, &config, false, None, &mut refs);
    assert!(out.contains(">> stream"));
    assert!(out.contains("Stream content"));
    assert!(out.contains("visible data"));
}

#[test]
fn print_object_reference_populates_child_refs() {
    let (out, refs) = print_obj(&PdfValue::Reference(id(5, 0)));
    assert_eq!(out, "5 0 R");
    assert!(refs.contains(&(false, id(5, 0))));
}

#[test]
fn print_object_reference_visited() {
    let mut refs = Vec::new();
    let out = print_object(&reference(5), &empty_doc(), &vec![id(5, 0)], 1, &default_config(), false, None, &mut refs);
    assert!(out.contains("5 0 R (visited)"));
}

#[test]
fn print_object_contents_key_propagates_is_contents() {
    let d = PdfValue::Dictionary(dict(vec![("Contents", reference(10))]));
    let mut refs = Vec::new();
    print_object(&d, &empty_doc(), &vec![], 1, &default_config(), false, None, &mut refs);
    assert!(refs.contains(&(true, id(10, 0))));
}

#[test]
fn print_content_data_ascii_no_truncation() {
    let out = content_data(b"Hello PDF stream", "raw", "  ", &default_config(), false, None);
    assert!(out.contains("Stream content (raw, 16 bytes)"));
    assert!(out.contains("Hello PDF stream"));
}

#[test]
fn print_content_data_binary_truncated() {
    let content: Vec<u8> = (0..200).map(|i| (i as u8).wrapping_add(0x80)).collect();
    let config = cfg(false, Some(100), false, None, false, false);
    let out = content_data(&content, "raw", "", &config, false, None);
    assert!(out.contains("200 (truncated to 100)"));
}

#[test]
fn print_content_data_is_contents_parses_operations() {
    let out = content_data(b"BT\n/F1 12 Tf\nET", "decoded", "  ", &default_config(), true, None);
    assert!(out.contains("Parsed Content Stream"));
    assert!(out.contains("operations"));
    assert!(out.contains("  Parsed Content Stream (3 operations):\n    BT\n    /F1 12 Tf\n    ET\n"));
}

#[test]
fn dump_single_object_no_refs() {
    let doc = doc_of(vec![(id(1, 0), integer(42))], vec![]);
    let mut visited = Vec::new();
    let out = dump(&doc, 1, &default_config(), false, &mut visited);
    assert!(out.contains("Object 1 0:"));
    assert!(out.contains("42"));
    assert!(visited.contains(&id(1, 0)));
    assert_eq!(out, "Object 1 0:\n42\n\n");
}

#[test]
fn dump_object_follows_references() {
    let doc = doc_of(
        vec![(id(1, 0), PdfValue::Dictionary(dict(vec![("Child", reference(2))]))), (id(2, 0), integer(99))],
        vec![],
    );
    let mut visited = Vec::new();
    let out = dump(&doc, 1, &default_config(), false, &mut visited);
    assert!(out.contains("Object 1 0:"));
    assert!(out.contains("Object 2 0:"));
    assert!(out.contains("99"));
    assert!(visited.contains(&id(1, 0)));
    assert!(visited.contains(&id(2, 0)));
}

#[test]
fn dump_object_circular_reference() {
    let doc = doc_of(
        vec![
            (id(1, 0), PdfValue::Dictionary(dict(vec![("Next", reference(2))]))),
            (id(2, 0), PdfValue::Dictionary(dict(vec![("Prev", reference(1))]))),
        ],
        vec![],
    );
    let mut visited = Vec::new();
    let out = dump(&doc, 1, &default_config(), false, &mut visited);
    assert!(out.contains("Object 1 0:"));
    assert!(out.contains("Object 2 0:"));
    assert!(visited.contains(&id(1, 0)));
    assert!(visited.contains(&id(2, 0)));
}

#[test]
fn print_object_empty_array() {
    let (out, refs) = print_obj(&PdfValue::Array(vec![]));
    assert!(out.contains("["));
    assert!(out.contains("]"));
    assert!(refs.is_empty());
}

#[test]
fn print_object_empty_dictionary() {
    let (out, refs) = print_obj(&PdfValue::Dictionary(vec![]));
    assert!(out.contains("<<"));
    assert!(out.contains(">>"));
    assert!(refs.is_empty());
}

#[test]
fn print_object_nested_dictionary() {
    let inner = PdfValue::Dictionary(dict(vec![("InnerKey", integer(7))]));
    let (out, _) = print_obj(&PdfValue::Dictionary(dict(vec![("Outer", inner)])));
    assert!(out.contains("/Outer"));
    assert!(out.contains("/InnerKey"));
    assert!(out.contains("7"));
}

#[test]
fn print_object_array_with_references_collects_child_refs() {
    let (out, refs) = print_obj(&PdfValue::Array(vec![reference(3), reference(4)]));
    assert!(out.contains("3 0 R"));
    assert!(out.contains("4 0 R"));
    assert!(refs.contains(&(false, id(3, 0))));
    assert!(refs.contains(&(false, id(4, 0))));
}

#[test]
fn print_object_negative_integer() {
    let (out, _) = print_obj(&integer(-99));
    assert_eq!(out, "-99");
}

#[test]
fn print_object_zero_real() {
    let (out, _) = print_obj(&real_num(0.0));
    assert_eq!(out, "0");
}

#[test]
fn print_object_name_with_special_chars() {
    let (out, _) = print_obj(&name("Font+Name"));
    assert_eq!(out, "/Font+Name");
}

#[test]
fn print_object_string_hex_format() {
    let (out, _) = print_obj(&string(b"hex"));
    assert_eq!(out, "(hex)");
}

#[test]
fn print_object_stream_with_flatedecode_and_decode_flag() {
    let s = make_stream(Some(name("FlateDecode")), zlib_compress(b"decompressed text"));
    let mut refs = Vec::new();
    let config = cfg(true, None, false, None, false, false);
    let out = print_object(&s, &empty_doc(), &vec![], 1, &config, false, None, &mut refs);
    assert!(out.contains(">> stream"));
    assert!(out.contains("decoded"));
    assert!(out.contains("decompressed text"));
}

#[test]
fn print_object_multiple_refs_in_dict() {
    let (_, refs) = print_obj(&PdfValue::Dictionary(dict(vec![("A", reference(10)), ("B", reference(20))])));
    assert!(refs.contains(&(false, id(10, 0))));
    assert!(refs.contains(&(false, id(20, 0))));
    assert_eq!(refs.len(), 2);
}

#[test]
fn print_object_is_contents_propagated_to_array_ref() {
    let mut refs = Vec::new();
    print_object(&PdfValue::Array(vec![reference(7)]), &empty_doc(), &vec![], 1, &default_config(), true, None, &mut refs);
    assert!(refs.contains(&(true, id(7, 0))));
}

#[test]
fn print_object_stream_dict_entries_printed() {
    let s = stream(dict(vec![("Length", integer(11)), ("Filter", name("FlateDecode"))]), b"stream data".to_vec());
    let (out, _) = print_obj(&s);
    assert!(out.contains("/Length"));
    assert!(out.contains("11"));
    assert!(out.contains("/Filter"));
    assert!(out.contains("/FlateDecode"));
}

#[test]
fn print_content_data_empty_content() {
    let out = content_data(b"", "raw", "  ", &default_config(), false, None);
    assert!(out.contains("Stream content (raw, 0 bytes)"));
}

#[test]
fn print_content_data_binary_no_truncation() {
    let content: Vec<u8> = (0..200).map(|i| (i as u8).wrapping_add(0x80)).collect();
    let out = content_data(&content, "raw", "", &default_config(), false, None);
    assert!(out.contains("200 bytes"));
    assert!(!out.contains("truncated"));
}

#[test]
fn print_content_data_binary_short_with_truncation_enabled() {
    let out = content_data(&vec![0x80; 50], "raw", "", &cfg(false, Some(100), false, None, false, false), false, None);
    assert!(out.contains("50 bytes"));
    assert!(!out.contains("truncated"));
}

#[test]
fn print_content_data_binary_exactly_100_bytes_with_truncation() {
    let out = content_data(&vec![0x80; 100], "raw", "", &cfg(false, Some(100), false, None, false, false), false, None);
    assert!(out.contains("100 bytes"));
    assert!(!out.contains("truncated"));
}

#[test]
fn print_content_data_binary_101_bytes_with_truncation() {
    let out = content_data(&vec![0x80; 101], "raw", "", &cfg(false, Some(100), false, None, false, false), false, None);
    assert!(out.contains("101 (truncated to 100)"));
}

#[test]
fn print_content_data_truncate_none_no_truncation() {
    let out = content_data(&vec![0x80; 200], "raw", "", &default_config(), false, None);
    assert!(out.contains("200 bytes"));
    assert!(!out.contains("truncated"));
}

#[test]
fn print_content_data_truncate_custom_50() {
    let out = content_data(&vec![0x80; 200], "raw", "", &cfg(false, Some(50), false, None, false, false), false, None);
    assert!(out.contains("200 (truncated to 50)"));
}

#[test]
fn print_content_data_truncate_larger_than_stream() {
    let out = content_data(&vec![0x80; 50], "raw", "", &cfg(false, Some(500), false, None, false, false), false, None);
    assert!(out.contains("50 bytes"));
    assert!(!out.contains("truncated"));
}

#[test]
fn print_content_data_is_contents_invalid_stream_falls_back() {
    let out = content_data(b"( unclosed string", "raw", "  ", &default_config(), true, None);
    let parsed = out.contains("Parsed Content Stream");
    let fallback = out.contains("Could not parse content stream") && out.contains("Stream content");
    assert!(parsed || fallback, "Expected either parsed or fallback output, got: {}", out);
}

#[test]
fn print_content_data_ascii_not_truncated_even_when_flag_set() {
    let content = b"abcdefghij".repeat(20);
    let out = content_data(&content, "raw", "", &cfg(false, Some(100), false, None, false, false), false, None);
    assert!(out.contains("200 bytes"));
    assert!(!out.contains("truncated"));
}

#[test]
fn print_stream_content_no_filter() {
    let s = make_stream(None, b"raw stream bytes".to_vec());
    let out = stream_content(&s, "  ", &default_config(), false);
    assert!(out.contains("raw"));
    assert!(out.contains("raw stream bytes"));
}

#[test]
fn print_stream_content_flatedecode() {
    let s = make_stream(Some(name("FlateDecode")), zlib_compress(b"decoded content"));
    let out = stream_content(&s, "  ", &default_config(), false);
    assert!(out.contains("decoded"));
    assert!(out.contains("decoded content"));
}

#[test]
fn print_stream_content_with_truncation() {
    let s = make_stream(None, vec![0x80; 200]);
    let out = stream_content(&s, "", &cfg(false, Some(100), false, None, false, false), false);
    assert!(out.contains("truncated to 100"));
}

#[test]
fn print_stream_content_is_contents_parses() {
    let s = make_stream(None, b"BT\n/F1 12 Tf\nET".to_vec());
    let out = stream_content(&s, "  ", &default_config(), true);
    assert!(out.contains("Parsed Content Stream"));
}

#[test]
fn dump_object_not_found() {
    let doc = empty_doc();
    let mut visited = Vec::new();
    let out = dump(&doc, 99, &default_config(), false, &mut visited);
    assert!(out.contains("Object 99 0:"));
    assert!(out.contains("Error getting object"));
    assert!(visited.contains(&id(99, 0)));
    assert_eq!(out, "Object 99 0:\n  Error getting object: object ID 99 0 not found\n");
}

#[test]
fn dump_object_already_visited_produces_no_output() {
    let doc = doc_of(vec![(id(1, 0), integer(42))], vec![]);
    let mut visited = vec![id(1, 0)];
    let out = dump(&doc, 1, &default_config(), false, &mut visited);
    assert_eq!(out, "");
}

#[test]
fn dump_object_deep_chain_three_levels() {
    let doc = doc_of(
        vec![
            (id(1, 0), PdfValue::Dictionary(dict(vec![("Next", reference(2))]))),
            (id(2, 0), PdfValue::Dictionary(dict(vec![("Next", reference(3))]))),
            (id(3, 0), integer(777)),
        ],
        vec![],
    );
    let mut visited = Vec::new();
    let out = dump(&doc, 1, &default_config(), false, &mut visited);
    assert!(out.contains("Object 1 0:"));
    assert!(out.contains("Object 2 0:"));
    assert!(out.contains("Object 3 0:"));
    assert!(out.contains("777"));
    assert_eq!(visited.len(), 3);
}

#[test]
fn dump_object_multiple_children_from_parent() {
    let doc = doc_of(
        vec![
            (id(1, 0), PdfValue::Dictionary(dict(vec![("Child1", reference(2)), ("Child2", reference(3))]))),
            (id(2, 0), integer(22)),
            (id(3, 0), integer(33)),
        ],
        vec![],
    );
    let mut visited = Vec::new();
    let out = dump(&doc, 1, &default_config(), false, &mut visited);
    assert!(out.contains("Object 1 0:"));
    assert!(out.contains("Object 2 0:"));
    assert!(out.contains("Object 3 0:"));
    assert!(out.contains("22"));
    assert!(out.contains("33"));
}

#[test]
fn dump_object_with_stream_and_decode() {
    let doc = doc_of(
        vec![(id(1, 0), make_stream(Some(name("FlateDecode")), zlib_compress(b"stream content here")))],
        vec![],
    );
    let mut visited = Vec::new();
    let out = dump(&doc, 1, &cfg(true, None, false, None, false, false), false, &mut visited);
    assert!(out.contains("Object 1 0:"));
    assert!(out.contains("stream content here"));
}

#[test]
fn dump_object_is_contents_propagates() {
    let doc = doc_of(
        vec![
            (id(1, 0), PdfValue::Dictionary(dict(vec![("Contents", reference(2))]))),
            (id(2, 0), make_stream(None, b"BT\n/F1 12 Tf\nET".to_vec())),
        ],
        vec![],
    );
    let mut visited = Vec::new();
    let out = dump(&doc, 1, &cfg(true, None, false, None, false, false), false, &mut visited);
    assert!(out.contains("Object 2 0:"));
    assert!(out.contains("Parsed Content Stream"));
}

#[test]
fn dump_object_separator_between_siblings() {
    let doc = doc_of(
        vec![(id(1, 0), PdfValue::Dictionary(dict(vec![("A", reference(2))]))), (id(2, 0), integer(1))],
        vec![],
    );
    let mut visited = Vec::new();
    let out = dump(&doc, 1, &default_config(), false, &mut visited);
    assert!(out.contains("--------------------------------"));
    assert_eq!(out, "Object 1 0:\n<<\n    /A 2 0 R\n  >>\n\n--------------------------------\n\nObject 2 0:\n1\n\n");
}

#[test]
fn print_object_integer_zero() {
    let (out, _) = print_obj(&integer(0));
    assert_eq!(out, "0");
}

#[test]
fn print_object_real_negative() {
    let (out, _) = print_obj(&real_num(-2.75));
    assert_eq!(out, "-2.75");
}

#[test]
fn print_object_real_large() {
    let (out, _) = print_obj(&real_num(99999.5));
    assert_eq!(out, "99999.5");
}

#[test]
fn print_object_empty_string() {
    let (out, _) = print_obj(&string(b""));
    assert_eq!(out, "()");
}

#[test]
fn print_object_empty_name() {
    let (out, _) = print_obj(&name(""));
    assert_eq!(out, "/");
}

#[test]
fn print_object_string_non_utf8() {
    let (out, _) = print_obj(&PdfValue::Str(vec![0xFF, 0xFE]));
    assert!(out.starts_with('('));
    assert!(out.ends_with(')'));
    assert!(out.contains('\u{FFFD}'), "Non-UTF8 bytes should produce replacement chars");
}

#[test]
fn print_object_name_non_utf8() {
    let (out, _) = print_obj(&PdfValue::Name(vec![0x80, 0x81]));
    assert!(out.starts_with('/'));
    assert!(out.contains('\u{FFFD}'), "Non-UTF8 name bytes should produce replacement chars");
}

#[test]
fn print_object_reference_nonzero_generation() {
    let (out, refs) = print_obj(&PdfValue::Reference(id(5, 2)));
    assert_eq!(out, "5 2 R");
    assert!(refs.contains(&(false, id(5, 2))));
}

#[test]
fn print_object_array_mixed_types() {
    let arr = PdfValue::Array(vec![integer(1), name("Foo"), PdfValue::Boolean(true), PdfValue::Null, real_num(1.5)]);
    let (out, _) = print_obj(&arr);
    assert!(out.contains("1"));
    assert!(out.contains("/Foo"));
    assert!(out.contains("true"));
    assert!(out.contains("null"));
    assert!(out.contains("1.5"));
}

#[test]
fn print_object_array_of_arrays() {
    let outer = PdfValue::Array(vec![PdfValue::Array(vec![integer(10)])]);
    let (out, _) = print_obj(&outer);
    assert_eq!(out.matches('[').count(), 2, "Expected 2 opening brackets for nested arrays");
    assert_eq!(out.matches(']').count(), 2, "Expected 2 closing brackets for nested arrays");
    assert!(out.contains("10"));
    assert_eq!(out, "[\n    [\n      10\n    ]\n  ]");
}

#[test]
fn print_object_dict_in_array() {
    let arr = PdfValue::Array(vec![PdfValue::Dictionary(dict(vec![("K", integer(5))]))]);
    let (out, _) = print_obj(&arr);
    assert!(out.contains("<<"));
    assert!(out.contains("/K"));
    assert!(out.contains("5"));
    assert!(out.contains(">>"));
}

#[test]
fn print_object_stream_dict_with_reference_collects_child_ref() {
    let s = stream(dict(vec![("Font", reference(20))]), b"data".to_vec());
    let (_, refs) = print_obj(&s);
    assert!(refs.contains(&(false, id(20, 0))), "Reference in stream dict should be collected");
}

#[test]
fn print_object_contents_key_with_non_reference_value() {
    let (out, refs) = print_obj(&PdfValue::Dictionary(dict(vec![("Contents", integer(42))])));
    assert!(out.contains("/Contents"));
    assert!(out.contains("42"));
    assert!(refs.is_empty(), "Non-reference Contents value should not add child refs");
}

#[test]
fn print_object_contents_key_with_array_of_refs() {
    let d = PdfValue::Dictionary(dict(vec![("Contents", PdfValue::Array(vec![reference(10), reference(11)]))]));
    let (_, refs) = print_obj(&d);
    assert!(refs.contains(&(true, id(10, 0))), "Array ref under /Contents should have is_contents=true");
    assert!(refs.contains(&(true, id(11, 0))), "Array ref under /Contents should have is_contents=true");
}

#[test]
fn print_content_data_description_propagated() {
    let out = content_data(b"x", "custom-desc", "  ", &default_config(), false, None);
    assert!(out.contains("custom-desc"), "Description should appear in output");
}

#[test]
fn print_content_data_indent_str_used() {
    let out = content_data(b"data", "raw", "    ", &default_config(), false, None);
    assert!(out.contains("    Stream content"), "Indent string should prefix stream content line");
}

#[test]
fn print_content_data_is_contents_indent_str_used() {
    let out = content_data(b"BT\n/F1 12 Tf\nET", "raw", ">>> ", &default_config(), true, None);
    assert!(out.contains(">>> Parsed Content Stream"), "Indent string should prefix parsed content header");
}

#[test]
fn print_stream_content_flatedecode_is_contents() {
    let s = make_stream(Some(name("FlateDecode")), zlib_compress(b"BT\n/F1 12 Tf\n(Hello) Tj\nET"));
    let out = stream_content(&s, "  ", &default_config(), true);
    assert!(out.contains("Parsed Content Stream"), "Decoded content stream should be parsed");
    assert!(out.contains("(Hello) Tj"));
}

#[test]
fn print_stream_content_corrupt_flatedecode_not_contents() {
    let s = make_stream(Some(name("FlateDecode")), b"not valid zlib data at all".to_vec());
    let out = stream_content(&s, "", &default_config(), false);
    assert!(out.contains("raw"), "Corrupt FlateDecode should fall back to 'raw'");
    assert!(out.contains("not valid zlib data"));
}

#[test]
fn print_stream_content_description_shows_decoded_for_flatedecode() {
    let s = make_stream(Some(name("FlateDecode")), zlib_compress(b"text"));
    let out = stream_content(&s, "", &default_config(), false);
    assert!(out.contains("decoded"), "Successfully decompressed should show 'decoded'");
}

#[test]
fn print_stream_content_description_shows_raw_for_no_filter() {
    let s = make_stream(None, b"plain".to_vec());
    let out = stream_content(&s, "", &default_config(), false);
    assert!(out.contains("raw"), "No filter should show 'raw'");
}

#[test]
fn dump_object_stream_dict_refs_traversed() {
    let doc = doc_of(
        vec![(id(1, 0), stream(dict(vec![("Font", reference(2))]), b"data".to_vec())), (id(2, 0), integer(42))],
        vec![],
    );
    let mut visited = Vec::new();
    let out = dump(&doc, 1, &default_config(), false, &mut visited);
    assert!(out.contains("Object 1 0:"), "Parent stream should be printed");
    assert!(out.contains("Object 2 0:"), "Referenced object in stream dict should be traversed");
    assert!(out.contains("42"));
}

#[test]
fn dump_object_is_contents_direct_param() {
    let doc = doc_of(vec![(id(1, 0), make_stream(None, b"BT\n/F1 12 Tf\nET".to_vec()))], vec![]);
    let mut visited = Vec::new();
    let out = dump(&doc, 1, &cfg(true, None, false, None, false, false), true, &mut visited);
    assert!(out.contains("Parsed Content Stream"), "Direct is_contents=true should trigger content parsing");
}

#[test]
fn dump_object_with_decode_and_truncate() {
    let doc = doc_of(vec![(id(1, 0), make_stream(None, vec![0x80; 200]))], vec![]);
    let mut visited = Vec::new();
    let out = dump(&doc, 1, &cfg(true, Some(100), false, None, false, false), false, &mut visited);
    assert!(out.contains("truncated to 100"), "Binary stream should be truncated");
}

#[test]
fn dump_object_diamond_dependency() {
    let doc = doc_of(
        vec![
            (id(1, 0), PdfValue::Dictionary(dict(vec![("B", reference(2)), ("C", reference(3))]))),
            (id(2, 0), PdfValue::Dictionary(dict(vec![("D", reference(4))]))),
            (id(3, 0), PdfValue::Dictionary(dict(vec![("D", reference(4))]))),
            (id(4, 0), integer(999)),
        ],
        vec![],
    );
    let mut visited = Vec::new();
    let out = dump(&doc, 1, &default_config(), false, &mut visited);
    assert_eq!(visited.len(), 4, "All 4 objects should be visited exactly once");
    assert_eq!(out.matches("Object 4 0:").count(), 1, "Diamond dependency: object 4 should be dumped only once");
}

#[test]
fn dump_object_self_referencing() {
    let doc = doc_of(vec![(id(1, 0), PdfValue::Dictionary(dict(vec![("Self", reference(1))])))], vec![]);
    let mut visited = Vec::new();
    let out = dump(&doc, 1, &default_config(), false, &mut visited);
    assert_eq!(out.matches("Object 1 0:").count(), 1, "Self-referencing object should be printed once");
}

#[test]
fn depth_zero_prints_root_only() {
    let doc = doc_of(
        vec![
            (id(2, 0), PdfValue::Dictionary(dict(vec![("Type", name("Child"))]))),
            (id(1, 0), PdfValue::Dictionary(dict(vec![("Type", name("Root")), ("Child", reference(2))]))),
        ],
        vec![],
    );
    let mut visited = Vec::new();
    let out = dump(&doc, 1, &cfg(false, None, false, Some(0), false, false), false, &mut visited);
    assert!(out.contains("Object 1 0:"), "Should print root object");
    assert!(!out.contains("Object 2 0:"), "Should NOT follow child ref");
    assert!(out.contains("depth limit reached"));
    assert!(out.contains("1 references not followed"));
}

#[test]
fn depth_one_follows_immediate_refs_only() {
    let mut visited = Vec::new();
    let out = dump(&chain_doc(), 1, &cfg(false, None, false, Some(1), false, false), false, &mut visited);
    assert!(out.contains("Object 1 0:"), "Should print root");
    assert!(out.contains("Object 2 0:"), "Should follow immediate child");
    assert!(!out.contains("Object 3 0:"), "Should NOT follow grandchild");
    assert!(out.contains("depth limit reached"));
}

#[test]
fn depth_none_traverses_everything() {
    let mut visited = Vec::new();
    let out = dump(&chain_doc(), 1, &default_config(), false, &mut visited);
    assert!(out.contains("Object 1 0:"), "Should print root");
    assert!(out.contains("Object 2 0:"), "Should print child");
    assert!(out.contains("Object 3 0:"), "Should print grandchild");
    assert!(!out.contains("depth limit reached"));
}

#[test]
fn depth_limit_shows_correct_ref_count() {
    let doc = doc_of(
        vec![
            (id(2, 0), PdfValue::Dictionary(vec![])),
            (id(3, 0), PdfValue::Dictionary(vec![])),
            (id(4, 0), PdfValue::Dictionary(vec![])),
            (id(1, 0), PdfValue::Dictionary(dict(vec![("A", reference(2)), ("B", reference(3)), ("C", reference(4))]))),
        ],
        vec![],
    );
    let mut visited = Vec::new();
    let out = dump(&doc, 1, &cfg(false, None, false, Some(0), false, false), false, &mut visited);
    assert!(out.contains("3 references not followed"));
}

#[test]
fn collect_reachable_with_depth_limit() {
    let doc = chain_doc();
    let objects = collect_reachable_objects(&doc, Some(0));
    assert!(keys(&objects).contains(&"1:0"), "Root should be included");
    assert!(!keys(&objects).contains(&"2:0"), "Child should NOT be included at depth 0");
    let objects = collect_reachable_objects(&doc, Some(1));
    assert!(keys(&objects).contains(&"1:0"));
    assert!(keys(&objects).contains(&"2:0"));
    assert!(!keys(&objects).contains(&"3:0"), "Grandchild should NOT be included at depth 1");
    let objects = collect_reachable_objects(&doc, None);
    assert!(keys(&objects).contains(&"1:0"));
    assert!(keys(&objects).contains(&"2:0"));
    assert!(keys(&objects).contains(&"3:0"));
}

#[test]
fn print_single_object_integer() {
    let doc = doc_of(vec![(id(1, 0), integer(42))], vec![]);
    let out = single(&doc, 1, &default_config());
    assert!(out.contains("Object 1 0:"));
    assert!(out.contains("42"));
    assert_eq!(out, "Object 1 0:\n42\n");
}

#[test]
fn print_single_object_dict_does_not_follow_refs() {
    let doc = doc_of(
        vec![(id(1, 0), PdfValue::Dictionary(dict(vec![("Child", reference(2))]))), (id(2, 0), integer(99))],
        vec![],
    );
    let out = single(&doc, 1, &default_config());
    assert!(out.contains("Object 1 0:"));
    assert!(out.contains("2 0 R"));
    assert!(!out.contains("Object 2 0:"));
    assert!(!out.contains("99"));
}

#[test]
fn print_single_object_stream_with_decode() {
    let doc = doc_of(vec![(id(1, 0), make_stream(None, b"visible data".to_vec()))], vec![]);
    let out = single(&doc, 1, &cfg(true, None, false, None, false, false));
    assert!(out.contains("Object 1 0:"));
    assert!(out.contains("visible data"));
}

#[test]
fn dump_page_shows_page_header() {
    let (doc, pages) = build_two_page_doc();
    let out = page_text(&doc, &pages, PageSpec::Single(1), &default_config());
    assert!(out.contains("Page 1 (Object"));
}

#[test]
fn dump_page_confines_to_target_page() {
    let (doc, pages) = build_two_page_doc();
    let out = page_text(&doc, &pages, PageSpec::Single(1), &cfg(true, None, false, None, false, false));
    assert!(out.contains("Page1"), "Should contain page 1 content");
    assert!(!out.contains("Page2"), "Should NOT contain page 2 content");
}

#[test]
fn dump_page_two_shows_only_page_two() {
    let (doc, pages) = build_two_page_doc();
    let out = page_text(&doc, &pages, PageSpec::Single(2), &cfg(true, None, false, None, false, false));
    assert!(out.contains("Page 2 (Object"));
    assert!(out.contains("Page2"), "Should contain page 2 content");
    assert!(!out.contains("Page1"), "Should NOT contain page 1 content");
}

#[test]
fn dump_page_missing_page_reports_error() {
    let (doc, pages) = build_two_page_doc();
    let (out, err) = dump_page(&doc, &pages, &PageSpec::Range(2, 3), &default_config(), &vec![]);
    assert!(out.contains("Page 2 (Object 5 0):"));
    assert_eq!(err.unwrap(), "Page 3 not found. Document has 2 pages.");
}

#[test]
fn object_to_json_null() {
    let val = object_to_json(&PdfValue::Null, &empty_doc(), &json_cfg(false, None, false, false, false));
    assert_eq!(str_of(member(&val, "type")), Some("null"));
}

#[test]
fn object_to_json_reference_with_deref() {
    let doc = doc_of(vec![(id(2, 0), integer(42))], vec![]);
    let val = object_to_json(&reference(2), &doc, &json_cfg(false, None, false, true, false));
    assert_eq!(str_of(member(&val, "type")), Some("reference"));
    let resolved = member(&val, "resolved").unwrap();
    assert_eq!(str_of(member(resolved, "type")), Some("integer"));
    assert!(matches!(member(resolved, "value"), Some(Json::Int(42))));
}

#[test]
fn collect_reachable_objects_basic() {
    let (doc, _) = build_two_page_doc();
    let objects = collect_reachable_objects(&doc, None);
    assert!(!objects.is_empty(), "Should collect reachable objects");
    for (key, val) in &objects {
        assert!(key.contains(':'), "Key should be obj:gen format, got: {}", key);
        assert!(member(val, "type").is_some(), "Each object should have a type field");
    }
}

#[test]
fn collect_reachable_objects_empty_doc() {
    let objects = collect_reachable_objects(&empty_doc(), None);
    assert!(objects.is_empty(), "Empty doc should have no reachable objects");
}

#[test]
fn hex_mode_binary_stream() {
    let doc = doc_of(vec![(id(1, 0), stream(vec![], (0..32).collect()))], vec![]);
    let out = single(&doc, 1, &cfg(true, None, true, None, false, false));
    assert!(out.contains("00000000  "));
    assert!(!out.contains("---"));
}

#[test]
fn hex_mode_text_stream_unaffected() {
    let doc = doc_of(vec![(id(1, 0), stream(vec![], b"Hello world".to_vec()))], vec![]);
    let out = single(&doc, 1, &cfg(true, None, true, None, false, false));
    assert!(out.contains("---"));
}

#[test]
fn hex_mode_json_shows_content_hex() {
    let doc = doc_of(vec![(id(1, 0), stream(vec![], (0..32).collect()))], vec![]);
    let j = print_single_object_json(&doc, 1, &json_cfg(true, None, true, false, false)).unwrap();
    assert!(str_of(member(member(&j, "object").unwrap(), "content_hex")).is_some());
}

#[test]
fn collect_reachable_ids_from_trailer() {
    let doc = doc_of(vec![(id(1, 0), integer(42)), (id(2, 0), integer(99))], dict(vec![("Root", reference(1))]));
    let marks = reachable_objects(&doc);
    assert!(marks[0]);
    assert!(!marks[1]);
}

#[test]
fn collect_reachable_ids_multi_hop() {
    let doc = doc_of(
        vec![
            (id(1, 0), PdfValue::Dictionary(dict(vec![("Next", reference(2))]))),
            (id(2, 0), PdfValue::Dictionary(dict(vec![("Next", reference(3))]))),
            (id(3, 0), integer(99)),
        ],
        dict(vec![("Root", reference(1))]),
    );
    assert_eq!(reachable_objects(&doc), vec![true, true, true]);
}

#[test]
fn collect_reachable_ids_cycle_safe() {
    let doc = doc_of(
        vec![
            (id(1, 0), PdfValue::Dictionary(dict(vec![("Next", reference(2))]))),
            (id(2, 0), PdfValue::Dictionary(dict(vec![("Prev", reference(1))]))),
        ],
        dict(vec![("Root", reference(1))]),
    );
    assert_eq!(reachable_objects(&doc), vec![true, true]);
}

#[test]
fn collect_reachable_ids_via_array() {
    let doc = doc_of(
        vec![
            (id(1, 0), PdfValue::Array(vec![reference(2), reference(3)])),
            (id(2, 0), integer(1)),
            (id(3, 0), integer(2)),
        ],
        dict(vec![("Root", reference(1))]),
    );
    let marks = reachable_objects(&doc);
    assert!(marks[1]);
    assert!(marks[2]);
}

#[test]
fn collect_reachable_ids_via_stream_dict() {
    let doc = doc_of(
        vec![(id(1, 0), stream(dict(vec![("Font", reference(2))]), vec![])), (id(2, 0), integer(42))],
        dict(vec![("Root", reference(1))]),
    );
    assert!(reachable_objects(&doc)[1]);
}

#[test]
fn hex_mode_with_truncate() {
    let doc = doc_of(vec![(id(1, 0), stream(vec![], (0..200).map(|i| (i % 256) as u8).collect()))], vec![]);
    let out = single(&doc, 1, &cfg(true, Some(100), true, None, false, false));
    assert!(out.contains("00000000  "));
    assert!(out.contains("truncated to 100"));
    let hex_lines: Vec<&str> = out.lines().filter(|l| l.starts_with("0000")).collect();
    assert_eq!(hex_lines.len(), 7);
}

#[test]
fn hex_mode_without_decode_streams_no_hex() {
    let doc = doc_of(vec![(id(1, 0), stream(vec![], (0..32).collect()))], vec![]);
    let out = single(&doc, 1, &cfg(false, None, true, None, false, false));
    assert!(!out.contains("00000000  "));
}

#[test]
fn hex_mode_json_with_truncate() {
    let doc = doc_of(vec![(id(1, 0), stream(vec![], (0..200).map(|i| (i % 256) as u8).collect()))], vec![]);
    let j = print_single_object_json(&doc, 1, &json_cfg(true, Some(100), true, false, false)).unwrap();
    let hex_str = str_of(member(member(&j, "object").unwrap(), "content_hex")).unwrap();
    let hex_lines: Vec<&str> = hex_str.lines().filter(|l| l.starts_with("0000")).collect();
    assert_eq!(hex_lines.len(), 7);
}

#[test]
fn hex_mode_json_text_stream_uses_content_not_hex() {
    let doc = doc_of(vec![(id(1, 0), stream(vec![], b"Hello world, this is text".to_vec()))], vec![]);
    let j = print_single_object_json(&doc, 1, &json_cfg(true, None, true, false, false)).unwrap();
    let o = member(&j, "object").unwrap();
    assert!(str_of(member(o, "content")).is_some());
    assert!(member(o, "content_hex").is_none());
}

#[test]
fn json_binary_stream_no_hex_shows_content_binary() {
    let doc = doc_of(vec![(id(1, 0), stream(vec![], (0..32).collect()))], vec![]);
    let j = print_single_object_json(&doc, 1, &json_cfg(true, None, false, false, false)).unwrap();
    let o = member(&j, "object").unwrap();
    assert!(str_of(member(o, "content_binary")).is_some());
    assert!(member(o, "content_hex").is_none());
}

#[test]
fn json_binary_stream_truncate_no_hex_shows_content_truncated() {
    let doc = doc_of(vec![(id(1, 0), stream(vec![], (0..200).map(|i| (i % 256) as u8).collect()))], vec![]);
    let j = print_single_object_json(&doc, 1, &json_cfg(true, Some(100), false, false, false)).unwrap();
    assert!(str_of(member(member(&j, "object").unwrap(), "content_truncated")).is_some());
}

#[test]
fn print_content_data_truncate_zero() {
    let out = content_data(&vec![0x80; 50], "raw", "", &cfg(false, Some(0), false, None, false, false), false, None);
    assert!(out.contains("truncated to 0"), "truncate=0 should truncate: {}", out);
}

#[test]
fn print_content_data_truncate_one() {
    let out = content_data(&vec![0x80; 100], "raw", "", &cfg(false, Some(1), false, None, false, false), false, None);
    assert!(out.contains("truncated to 1"), "truncate=1 should truncate: {}", out);
}

#[test]
fn print_content_data_hex_with_truncation() {
    let content: Vec<u8> = (0..200).map(|i| i as u8).collect();
    let out = content_data(&content, "raw", "", &cfg(false, Some(32), true, None, false, false), false, None);
    assert!(out.contains("truncated to 32"), "Should show truncation: {}", out);
    assert!(out.contains("00000000"), "Should have hex dump offset");
    assert!(out.contains("00000010"), "Should have second hex line for 32 bytes");
    assert!(!out.contains("00000020"), "Should not have third hex line: {}", out);
}

#[test]
fn print_content_data_hex_without_truncation() {
    let content: Vec<u8> = (0..48).map(|i| i as u8).collect();
    let out = content_data(&content, "raw", "", &cfg(false, None, true, None, false, false), false, None);
    assert!(out.contains("48 bytes"), "Should show full size: {}", out);
    assert!(!out.contains("truncated"));
    assert!(out.contains("00000020"), "Should have third hex line for 48 bytes");
}

#[test]
fn print_content_data_warning_with_hex_mode() {
    let out = content_data(&vec![0x80; 32], "raw", "", &cfg(false, None, true, None, false, false), false, Some("FlateDecode decompression failed"));
    assert!(out.contains("[WARNING: FlateDecode decompression failed]"), "Warning should appear with hex");
    assert!(out.contains("00000000"), "Hex dump should still appear");
}

#[test]
fn print_content_data_warning_with_truncation() {
    let out = content_data(&vec![0x80; 200], "raw", "", &cfg(false, Some(50), false, None, false, false), false, Some("unsupported filter: DCTDecode"));
    assert!(out.contains("[WARNING: unsupported filter: DCTDecode]"), "Warning should appear");
    assert!(out.contains("truncated to 50"), "Truncation should apply");
}

#[test]
fn print_content_data_warning_with_hex_and_truncation() {
    let content: Vec<u8> = (0..200).map(|i| i as u8).collect();
    let out = content_data(&content, "raw", "", &cfg(false, Some(16), true, None, false, false), false, Some("LZWDecode: invalid data"));
    assert!(out.contains("[WARNING: LZWDecode: invalid data]"));
    assert!(out.contains("truncated to 16"));
    assert!(out.contains("00000000"), "Hex dump should appear");
    assert!(!out.contains("00000010"), "Only 16 bytes = 1 hex line");
}

#[test]
fn depth_zero_json_limits_objects() {
    let doc = chain_doc();
    let d0 = collect_reachable_objects(&doc, Some(0));
    assert!(keys(&d0).contains(&"1:0"), "Root should be collected at depth 0");
    assert!(!keys(&d0).contains(&"2:0"), "Child should NOT be collected at depth 0");
    assert!(!keys(&d0).contains(&"3:0"), "Grandchild should NOT be at depth 0");
    let d2 = collect_reachable_objects(&doc, Some(2));
    assert!(keys(&d2).contains(&"1:0"));
    assert!(keys(&d2).contains(&"2:0"));
    assert!(keys(&d2).contains(&"3:0"), "Grandchild should be at depth 2");
}

#[test]
fn depth_one_follows_all_immediate_refs() {
    let doc = doc_of(
        vec![
            (id(5, 0), PdfValue::Dictionary(dict(vec![("Type", name("Deep"))]))),
            (id(2, 0), PdfValue::Dictionary(dict(vec![("Type", name("C1")), ("Deep", reference(5))]))),
            (id(3, 0), PdfValue::Dictionary(dict(vec![("Type", name("C2"))]))),
            (id(4, 0), PdfValue::Dictionary(dict(vec![("Type", name("C3"))]))),
            (id(1, 0), PdfValue::Dictionary(dict(vec![("A", reference(2)), ("B", reference(3)), ("C", reference(4))]))),
        ],
        vec![],
    );
    let mut visited = Vec::new();
    let out = dump(&doc, 1, &cfg(false, None, false, Some(1), false, false), false, &mut visited);
    assert!(out.contains("Object 1 0:"), "Should print root");
    assert!(out.contains("Object 2 0:"), "Should follow child A");
    assert!(out.contains("Object 3 0:"), "Should follow child B");
    assert!(out.contains("Object 4 0:"), "Should follow child C");
    assert!(!out.contains("Object 5 0:"), "Should NOT follow grandchild");
    assert!(out.contains("depth limit reached"));
}

#[test]
fn print_stream_content_corrupt_shows_warning() {
    let s = stream(dict(vec![("Filter", name("FlateDecode"))]), b"not zlib data at all".to_vec());
    let out = stream_content(&s, "  ", &default_config(), false);
    assert!(out.contains("[WARNING: FlateDecode decompression failed]"), "Warning should propagate: {}", out);
    assert!(out.contains("raw"), "Description should say raw for failed decode");
}

#[test]
fn print_stream_content_unsupported_filter_shows_warning() {
    let s = stream(dict(vec![("Filter", name("JBIG2Decode"))]), b"jbig2 data".to_vec());
    let out = stream_content(&s, "", &default_config(), false);
    assert!(out.contains("[WARNING: unsupported filter: JBIG2Decode]"), "Should show unsupported warning: {}", out);
}

#[test]
fn print_stream_content_successful_decode_no_warning() {
    let s = stream(dict(vec![("Filter", name("FlateDecode"))]), zlib_compress(b"success"));
    let out = stream_content(&s, "", &default_config(), false);
    assert!(!out.contains("WARNING"), "Successful decode should have no warning");
    assert!(out.contains("decoded"), "Should say decoded");
}

#[test]
fn object_to_json_stream_unsupported_filter_warning() {
    let s = make_stream(Some(name("CCITTFaxDecode")), b"fax data".to_vec());
    let val = object_to_json(&s, &empty_doc(), &json_cfg(true, None, false, false, false));
    let warning = str_of(member(&val, "decode_warning"));
    assert!(warning.is_some(), "Unsupported filter should produce JSON warning");
    assert!(warning.unwrap().contains("unsupported filter"));
}

#[test]
fn object_to_json_stream_pipeline_partial_failure_warning() {
    let s = make_stream(Some(PdfValue::Array(vec![name("ASCIIHexDecode"), name("FlateDecode")])), b"48656c6c6f>".to_vec());
    let val = object_to_json(&s, &empty_doc(), &json_cfg(true, None, false, false, false));
    let warning = str_of(member(&val, "decode_warning"));
    assert!(warning.is_some(), "Pipeline failure should produce JSON warning");
    assert!(warning.unwrap().contains("FlateDecode"));
}

#[test]
fn dump_page_range() {
    let (doc, pages) = build_two_page_doc();
    let out = page_text(&doc, &pages, PageSpec::Range(1, 2), &cfg(true, None, false, None, false, false));
    assert!(out.contains("Page 1 (Object"));
    assert!(out.contains("Page 2 (Object"));
}

#[test]
fn multi_object_plain_output() {
    let doc = doc_of(vec![(id(1, 0), integer(42)), (id(2, 0), PdfValue::Boolean(true))], vec![]);
    let (out, missing) = print_objects(&doc, &vec![1, 2], &default_config());
    assert!(missing.is_none());
    assert!(out.contains("Object 1 0:"));
    assert!(out.contains("Object 2 0:"));
    assert_eq!(out, "Object 1 0:\n42\n\nObject 2 0:\ntrue\n");
}

#[test]
fn multi_object_json_wraps_in_array() {
    let doc = doc_of(vec![(id(1, 0), integer(42)), (id(2, 0), PdfValue::Boolean(true))], vec![]);
    let j = print_objects_json(&doc, &vec![1, 2], &json_cfg(false, None, false, false, false)).unwrap();
    match member(&j, "objects") {
        Some(Json::Array(items)) => assert_eq!(items.len(), 2),
        _ => panic!("objects should be an array"),
    }
}

#[test]
fn single_object_json_backward_compat() {
    let doc = doc_of(vec![(id(1, 0), integer(42))], vec![]);
    let j = print_objects_json(&doc, &vec![1], &json_cfg(false, None, false, false, false)).unwrap();
    assert!(matches!(member(&j, "object_number"), Some(Json::Int(1))));
}

#[test]
fn multi_object_missing_reports_error_in_json() {
    let doc = doc_of(vec![(id(1, 0), integer(42))], vec![]);
    let j = print_objects_json(&doc, &vec![1, 99], &json_cfg(false, None, false, false, false)).unwrap();
    match member(&j, "objects") {
        Some(Json::Array(items)) => assert_eq!(str_of(member(&items[1], "error")), Some("not found")),
        _ => panic!("objects should be an array"),
    }
}

#[test]
fn deref_shows_reference_summary() {
    let doc = doc_of(
        vec![
            (id(1, 0), PdfValue::Dictionary(dict(vec![("Type", name("Page")), ("Ref", reference(2))]))),
            (id(2, 0), PdfValue::Dictionary(dict(vec![("Type", name("Font")), ("BaseFont", name("Helvetica"))]))),
        ],
        vec![],
    );
    let out = single(&doc, 1, &cfg(false, None, false, None, true, false));
    assert!(out.contains("2 0 R =>"));
    assert!(out.contains("/Type /Font"));
    assert!(out.contains("2 0 R => << /Type /Font, /BaseFont=/Helvetica, 2 keys >>"));
}

#[test]
fn deref_false_no_expansion() {
    let doc = doc_of(
        vec![(id(1, 0), PdfValue::Dictionary(dict(vec![("Ref", reference(2))]))), (id(2, 0), integer(42))],
        vec![],
    );
    let out = single(&doc, 1, &default_config());
    assert!(out.contains("2 0 R"));
    assert!(!out.contains("=>"));
}

#[test]
fn deref_json_adds_resolved() {
    let doc = doc_of(
        vec![(id(1, 0), PdfValue::Dictionary(dict(vec![("Ref", reference(2))]))), (id(2, 0), integer(42))],
        vec![],
    );
    let j = print_single_object_json(&doc, 1, &json_cfg(false, None, false, true, false)).unwrap();
    let r = member(member(member(&j, "object").unwrap(), "entries").unwrap(), "Ref").unwrap();
    assert_eq!(str_of(member(r, "type")), Some("reference"));
    let resolved = member(r, "resolved").unwrap();
    assert_eq!(str_of(member(resolved, "type")), Some("integer"));
    assert!(matches!(member(resolved, "value"), Some(Json::Int(42))));
}

#[test]
fn deref_json_no_recursive_deref() {
    let doc = doc_of(
        vec![
            (id(1, 0), PdfValue::Dictionary(dict(vec![("Ref", reference(2))]))),
            (id(2, 0), PdfValue::Dictionary(dict(vec![("Inner", reference(3))]))),
            (id(3, 0), integer(99)),
        ],
        vec![],
    );
    let j = print_single_object_json(&doc, 1, &json_cfg(false, None, false, true, false)).unwrap();
    let r = member(member(member(&j, "object").unwrap(), "entries").unwrap(), "Ref").unwrap();
    let inner = member(member(member(r, "resolved").unwrap(), "entries").unwrap(), "Inner").unwrap();
    assert_eq!(str_of(member(inner, "type")), Some("reference"));
    assert!(member(inner, "resolved").is_none());
}

#[test]
fn deref_stream_summary() {
    let doc = doc_of(
        vec![
            (id(1, 0), PdfValue::Dictionary(dict(vec![("Contents", reference(2))]))),
            (id(2, 0), stream(dict(vec![("Filter", name("FlateDecode"))]), vec![0u8; 100])),
        ],
        vec![],
    );
    let out = single(&doc, 1, &cfg(false, None, false, None, true, false));
    assert!(out.contains("stream, 100 bytes"));
    assert!(out.contains("FlateDecode"));
}

#[test]
fn raw_shows_compressed_bytes() {
    let compressed = zlib_compress(b"Hello, World!");
    let compressed_len = compressed.len();
    let doc = doc_of(vec![(id(1, 0), stream(dict(vec![("Filter", name("FlateDecode"))]), compressed))], vec![]);
    let out = single(&doc, 1, &cfg(false, None, false, None, false, true));
    assert!(out.contains("raw, undecoded"));
    assert!(out.contains(&format!("{} bytes", compressed_len)));
    assert!(!out.contains("Hello, World!"));
}

#[test]
fn raw_with_hex() {
    let doc = doc_of(vec![(id(1, 0), stream(vec![], (0..64).collect()))], vec![]);
    let out = single(&doc, 1, &cfg(false, None, true, None, false, true));
    assert!(out.contains("raw, undecoded"));
    assert!(out.contains("00000000  "));
}

#[test]
fn raw_with_truncate() {
    let doc = doc_of(vec![(id(1, 0), stream(vec![], (0..200).map(|i| (i % 256) as u8).collect()))], vec![]);
    let out = single(&doc, 1, &cfg(false, Some(50), true, None, false, true));
    assert!(out.contains("raw, undecoded"));
    assert!(out.contains("truncated to 50"));
}

#[test]
fn raw_on_non_stream_is_noop() {
    let doc = doc_of(vec![(id(1, 0), integer(42))], vec![]);
    let out = single(&doc, 1, &cfg(false, None, false, None, false, true));
    assert!(out.contains("42"));
    assert!(!out.contains("raw"));
}

#[test]
fn raw_json_text_stream() {
    let doc = doc_of(vec![(id(1, 0), stream(vec![], b"Hello text content".to_vec()))], vec![]);
    let j = print_single_object_json(&doc, 1, &json_cfg(false, None, false, false, true)).unwrap();
    let o = member(&j, "object").unwrap();
    assert_eq!(str_of(member(o, "raw_content")), Some("Hello text content"));
    assert!(member(o, "content").is_none());
}

#[test]
fn raw_json_binary_stream() {
    let doc = doc_of(vec![(id(1, 0), stream(vec![], (0..32).collect()))], vec![]);
    let j = print_single_object_json(&doc, 1, &json_cfg(false, None, false, false, true)).unwrap();
    assert!(str_of(member(member(&j, "object").unwrap(), "raw_content_binary")).unwrap().contains("32 bytes"));
}

#[test]
fn raw_json_binary_hex() {
    let doc = doc_of(vec![(id(1, 0), stream(vec![], (0..32).collect()))], vec![]);
    let j = print_single_object_json(&doc, 1, &json_cfg(false, None, true, false, true)).unwrap();
    assert!(str_of(member(member(&j, "object").unwrap(), "raw_content_hex")).unwrap().contains("00000000"));
}

#[test]
fn raw_json_binary_hex_truncate() {
    let doc = doc_of(vec![(id(1, 0), stream(vec![], (0..200).map(|i| (i % 256) as u8).collect()))], vec![]);
    let j = print_single_object_json(&doc, 1, &json_cfg(false, Some(32), true, false, true)).unwrap();
    let hex_str = str_of(member(member(&j, "object").unwrap(), "raw_content_hex")).unwrap();
    let hex_lines: Vec<&str> = hex_str.lines().filter(|l| l.starts_with("0000")).collect();
    assert_eq!(hex_lines.len(), 2);
}

#[test]
fn raw_text_stream_shows_content() {
    let doc = doc_of(vec![(id(1, 0), stream(vec![], b"Some PDF text stream".to_vec()))], vec![]);
    let out = single(&doc, 1, &cfg(false, None, false, None, false, true));
    assert!(out.contains("raw, undecoded"));
    assert!(out.contains("Some PDF text stream"));
}

#[test]
fn raw_does_not_parse_content_stream() {
    let doc = doc_of(vec![(id(1, 0), stream(vec![], b"BT /F1 12 Tf (Hello) Tj ET".to_vec()))], vec![]);
    let out = single(&doc, 1, &cfg(false, None, false, None, false, true));
    assert!(out.contains("raw, undecoded"));
    assert!(out.contains("BT /F1 12 Tf"));
    assert!(!out.contains("Parsed Content Stream"));
}

#[test]
fn format_operation_operands_then_operator() {
    assert_eq!(format_operation("Tf", &vec![name("F1"), integer(12)]), "/F1 12 Tf");
    assert_eq!(format_operation("BT", &vec![]), "BT");
    assert_eq!(format_operation("Tj", &vec![string(b"Hello")]), "(Hello) Tj");
}

#[test]
fn decode_uses_format_operation_not_debug() {
    let doc = doc_of(vec![(id(1, 0), stream(vec![], b"(Hello) Tj".to_vec()))], vec![]);
    let out = single(&doc, 1, &cfg(true, None, false, None, false, false));
    assert!(!out.contains("Operation {"), "Should not contain Debug format");
    assert!(out.contains("(Hello) Tj"), "Should contain formatted operation");
}
