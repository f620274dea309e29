use pdf_dump::json::Json;
use pdf_dump::model::{ObjRef, PdfDoc, PdfValue};
use pdf_dump::structure::{collect_structure_tree, print_structure, print_structure_json, StructElemInfo};
use pdf_dump::types::DumpConfig;

type Entries = Vec<(Vec<u8>, PdfValue)>;

fn id(num: u32) -> ObjRef {
    ObjRef { num, gen: 0 }
}

fn reference(num: u32) -> PdfValue {
    PdfValue::Reference(id(num))
}

fn name(n: &str) -> PdfValue {
    PdfValue::Name(n.as_bytes().to_vec())
}

fn dict(entries: Vec<(&str, PdfValue)>) -> PdfValue {
    PdfValue::Dictionary(entries.into_iter().map(|(k, v)| (k.as_bytes().to_vec(), v)).collect::<Entries>())
}

fn doc_of(mut objects: Vec<(ObjRef, PdfValue)>) -> PdfDoc {
    objects.sort_by_key(|(k, _)| (k.num, k.gen));
    PdfDoc { objects, trailer: vec![(b"Root".to_vec(), reference(1))] }
}

fn config(depth: Option<usize>) -> DumpConfig {
    DumpConfig { decode: false, truncate: None, json: false, hex: false, depth, deref: false, raw: false }
}

fn make_struct_doc() -> (PdfDoc, Vec<ObjRef>) {
    let doc = doc_of(vec![
        (id(3), dict(vec![("Type", name("Page")), ("Parent", reference(2))])),
        (id(2), dict(vec![("Type", name("Pages")), ("Kids", PdfValue::Array(vec![reference(3)])), ("Count", PdfValue::Integer(1))])),
        (
            id(12),
            dict(vec![("Type", name("StructElem")), ("S", name("Span")), ("Pg", reference(3)), ("K", PdfValue::Integer(0))]),
        ),
        (
            id(11),
            dict(vec![
                ("Type", name("StructElem")),
                ("S", name("P")),
                ("K", PdfValue::Array(vec![reference(12)])),
                ("T", PdfValue::Str(b"My Paragraph".to_vec())),
            ]),
        ),
        (id(10), dict(vec![("Type", name("StructElem")), ("S", name("Document")), ("K", PdfValue::Array(vec![reference(11)]))])),
        (id(5), dict(vec![("Type", name("StructTreeRoot")), ("K", reference(10))])),
        (
            id(1),
            dict(vec![
                ("Type", name("Catalog")),
                ("Pages", reference(2)),
                ("StructTreeRoot", reference(5)),
                ("MarkInfo", dict(vec![("Marked", PdfValue::Boolean(true))])),
            ]),
        ),
    ]);
    (doc, vec![id(3)])
}

fn text(doc: &PdfDoc, pages: &Vec<ObjRef>, depth: Option<usize>) -> String {
    print_structure(doc, pages, &config(depth)).join("\n") + "\n"
}

fn member<'a>(j: &'a Json, key: &str) -> Option<&'a Json> {
    match j {
        Json::Object(ms) => ms.iter().rev().find(|(k, _)| k == key).map(|(_, v)| v),
        _ => None,
    }
}

fn count(items: &[StructElemInfo]) -> usize {
    items.iter().map(|e| 1 + count(&e.children)).sum()
}

#[test]
fn structure_collects_tree() {
    let (doc, pages) = make_struct_doc();
    let (is_marked, tree) = collect_structure_tree(&doc, &pages);
    assert!(is_marked);
    assert_eq!(tree.len(), 1);
    assert_eq!(tree[0].role, "Document");
    assert_eq!(tree[0].children.len(), 1);
    assert_eq!(tree[0].children[0].role, "P");
    assert_eq!(tree[0].children[0].title.as_deref(), Some("My Paragraph"));
    assert_eq!(tree[0].children[0].children.len(), 1);
    assert_eq!(tree[0].children[0].children[0].role, "Span");
    assert_eq!(tree[0].children[0].children[0].mcid, Some(0));
}

#[test]
fn structure_page_refs() {
    let (doc, pages) = make_struct_doc();
    let (_, tree) = collect_structure_tree(&doc, &pages);
    assert_eq!(tree[0].children[0].children[0].page, Some(1));
}

#[test]
fn structure_no_struct_tree_root() {
    let doc = doc_of(vec![(id(1), dict(vec![("Type", name("Catalog"))]))]);
    let (is_marked, tree) = collect_structure_tree(&doc, &vec![]);
    assert!(!is_marked);
    assert!(tree.is_empty());
}

#[test]
fn structure_mark_info_false() {
    let doc = doc_of(vec![(
        id(1),
        dict(vec![("Type", name("Catalog")), ("MarkInfo", dict(vec![("Marked", PdfValue::Boolean(false))]))]),
    )]);
    let (is_marked, _) = collect_structure_tree(&doc, &vec![]);
    assert!(!is_marked);
}

#[test]
fn structure_text_output() {
    let (doc, pages) = make_struct_doc();
    let out = text(&doc, &pages, None);
    assert!(out.contains("Tagged PDF: yes"));
    assert!(out.contains("Structure elements: 3"));
    assert!(out.contains("/Document"));
    assert!(out.contains("/P"));
    assert!(out.contains("/Span"));
    assert!(out.contains("MCID=0"));
    assert!(out.contains("\"My Paragraph\""));
    assert_eq!(
        out,
        "Tagged PDF: yes\nStructure elements: 3\n\n[10] /Document\n  [11] /P \"My Paragraph\"\n    [12] /Span (page 1) MCID=0\n"
    );
}

#[test]
fn structure_json_output() {
    let (doc, pages) = make_struct_doc();
    let j = print_structure_json(&doc, &pages, &config(None));
    assert!(matches!(member(&j, "tagged"), Some(Json::Bool(true))));
    assert!(matches!(member(&j, "element_count"), Some(Json::UInt(3))));
    match member(&j, "structure") {
        Some(Json::Array(items)) => {
            assert!(matches!(member(&items[0], "role"), Some(Json::Str(s)) if s == "Document"));
            assert!(matches!(member(&items[0], "children"), Some(Json::Array(_))));
        },
        _ => panic!("structure should be an array"),
    }
}

#[test]
fn structure_depth_limit_0() {
    let (doc, pages) = make_struct_doc();
    let out = text(&doc, &pages, Some(0));
    assert!(out.contains("/Document"));
    assert!(out.contains("children"));
    assert!(!out.contains("/P"));
    assert!(out.contains("[10] /Document (2 children)"));
}

#[test]
fn structure_depth_limit_1() {
    let (doc, pages) = make_struct_doc();
    let out = text(&doc, &pages, Some(1));
    assert!(out.contains("/Document"));
    assert!(out.contains("/P"));
    assert!(!out.contains("/Span"));
}

#[test]
fn structure_json_with_depth_limit() {
    let (doc, pages) = make_struct_doc();
    let j = print_structure_json(&doc, &pages, &config(Some(0)));
    match member(&j, "structure") {
        Some(Json::Array(items)) => {
            assert!(member(&items[0], "children_count").is_some());
            assert!(member(&items[0], "children").is_none());
        },
        _ => panic!("structure should be an array"),
    }
}

#[test]
fn structure_cycle_detection() {
    let doc = doc_of(vec![
        (id(11), dict(vec![("S", name("Span")), ("K", reference(10))])),
        (id(10), dict(vec![("S", name("P")), ("K", reference(11))])),
        (id(5), dict(vec![("Type", name("StructTreeRoot")), ("K", reference(10))])),
        (id(1), dict(vec![("Type", name("Catalog")), ("StructTreeRoot", reference(5))])),
    ]);
    let (_, tree) = collect_structure_tree(&doc, &vec![]);
    assert!(count(&tree) <= 2);
}

#[test]
fn structure_empty_tree() {
    let doc = doc_of(vec![
        (id(5), dict(vec![("Type", name("StructTreeRoot"))])),
        (
            id(1),
            dict(vec![
                ("Type", name("Catalog")),
                ("StructTreeRoot", reference(5)),
                ("MarkInfo", dict(vec![("Marked", PdfValue::Boolean(true))])),
            ]),
        ),
    ]);
    let (is_marked, tree) = collect_structure_tree(&doc, &vec![]);
    assert!(is_marked);
    assert!(tree.is_empty());
}

#[test]
fn structure_alt_text() {
    let doc = doc_of(vec![
        (id(10), dict(vec![("S", name("Figure")), ("Alt", PdfValue::Str(b"A photo of sunset".to_vec()))])),
        (id(5), dict(vec![("Type", name("StructTreeRoot")), ("K", reference(10))])),
        (id(1), dict(vec![("Type", name("Catalog")), ("StructTreeRoot", reference(5))])),
    ]);
    let out = text(&doc, &vec![], None);
    assert!(out.contains("alt=\"A photo of sunset\""));
}

#[test]
fn structure_k_as_array() {
    let doc = doc_of(vec![
        (id(10), dict(vec![("S", name("P"))])),
        (id(11), dict(vec![("S", name("Span"))])),
        (id(5), dict(vec![("Type", name("StructTreeRoot")), ("K", PdfValue::Array(vec![reference(10), reference(11)]))])),
        (id(1), dict(vec![("Type", name("Catalog")), ("StructTreeRoot", reference(5))])),
    ]);
    let (_, tree) = collect_structure_tree(&doc, &vec![]);
    assert_eq!(tree.len(), 2);
    assert_eq!(tree[0].role, "P");
    assert_eq!(tree[1].role, "Span");
}

#[test]
fn structure_inline_element_and_mcid_dict() {
    let doc = doc_of(vec![
        (
            id(5),
            dict(vec![
                ("Type", name("StructTreeRoot")),
                ("K", PdfValue::Array(vec![dict(vec![("S", name("Note")), ("K", dict(vec![("MCID", PdfValue::Integer(7))]))])])),
            ]),
        ),
        (id(1), dict(vec![("Type", name("Catalog")), ("StructTreeRoot", reference(5))])),
    ]);
    let (_, tree) = collect_structure_tree(&doc, &vec![]);
    assert_eq!(tree.len(), 1);
    assert_eq!(tree[0].object_id, ObjRef { num: 0, gen: 0 });
    assert_eq!(tree[0].mcid, Some(7));
    let out = text(&doc, &vec![], None);
    assert!(out.contains("\n/Note MCID=7\n"));
}
