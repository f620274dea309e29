use pdf_dump::model::{ObjRef, PdfDoc, PdfValue};
use pdf_dump::validate::{
    check_broken_references, check_content_stream_syntax, check_duplicate_objects,
    check_font_requirements, check_names_tree_structure, check_page_tree, check_page_tree_cycles,
    check_required_keys, check_stream_lengths, check_unreachable_objects, collect_broken_refs,
    page_has_media_box, reachable_objects, validate_pdf, validation_report, ValidationIssue,
    ValidationLevel,
};

type Entries = Vec<(Vec<u8>, PdfValue)>;

fn id(num: u32, gen: u16) -> ObjRef {
    ObjRef { num, gen }
}

fn r(num: u32) -> PdfValue {
    PdfValue::Reference(id(num, 0))
}

fn name(n: &str) -> PdfValue {
    PdfValue::Name(n.as_bytes().to_vec())
}

fn integer(i: i64) -> PdfValue {
    PdfValue::Integer(i)
}

/// Sets a key as a dictionary does: an existing key keeps its place.
fn set(d: &mut Entries, k: &str, v: PdfValue) {
    for e in d.iter_mut() {
        if e.0 == k.as_bytes() {
            e.1 = v;
            return;
        }
    }
    d.push((k.as_bytes().to_vec(), v));
}

fn media_box() -> PdfValue {
    PdfValue::Array(vec![integer(0), integer(0), integer(612), integer(792)])
}

/// A stream as a new one is made: its `/Length` is set to the content's
/// length.
fn stream(mut dict: Entries, content: Vec<u8>) -> PdfValue {
    set(&mut dict, "Length", integer(content.len() as i64));
    PdfValue::Stream { dict, content }
}

fn new_doc() -> PdfDoc {
    PdfDoc { objects: Vec::new(), trailer: Vec::new() }
}

/// Inserts an object in id order, replacing one with the same id.
fn insert(doc: &mut PdfDoc, at: ObjRef, v: PdfValue) {
    let pos = doc
        .objects
        .iter()
        .position(|(k, _)| (k.num, k.gen) >= (at.num, at.gen))
        .unwrap_or(doc.objects.len());
    if pos < doc.objects.len() && doc.objects[pos].0 == at {
        doc.objects[pos].1 = v;
    } else {
        doc.objects.insert(pos, (at, v));
    }
}

fn has(issues: &[ValidationIssue], level: Option<ValidationLevel>, text: &str) -> bool {
    issues
        .iter()
        .any(|i| level.map_or(true, |l| i.level == l) && i.message.contains(text))
}

fn minimal_catalog(doc: &mut PdfDoc, count: i64) {
    let mut pages = Vec::new();
    set(&mut pages, "Type", name("Pages"));
    set(&mut pages, "Count", integer(count));
    set(&mut pages, "Kids", PdfValue::Array(vec![]));
    insert(doc, id(2, 0), PdfValue::Dictionary(pages));
    let mut catalog = Vec::new();
    set(&mut catalog, "Type", name("Catalog"));
    set(&mut catalog, "Pages", r(2));
    insert(doc, id(1, 0), PdfValue::Dictionary(catalog));
    set(&mut doc.trailer, "Root", r(1));
}

#[test]
fn validate_empty_doc_reports_missing_root() {
    let doc = new_doc();
    let report = validate_pdf(&doc, &vec![]);
    assert!(report
        .issues
        .iter()
        .any(|i| i.level == ValidationLevel::Error && i.message.contains("Trailer missing /Root")));
}

#[test]
fn check_broken_references_detects_broken() {
    let mut doc = new_doc();
    let mut dict = Vec::new();
    set(&mut dict, "Ref", r(99));
    insert(&mut doc, id(1, 0), PdfValue::Dictionary(dict));

    let mut issues = Vec::new();
    check_broken_references(&doc, &mut issues);
    assert_eq!(issues.len(), 1);
    assert!(issues[0].message.contains("99"));
}

#[test]
fn check_broken_references_valid() {
    let mut doc = new_doc();
    insert(&mut doc, id(2, 0), integer(42));
    let mut dict = Vec::new();
    set(&mut dict, "Ref", r(2));
    insert(&mut doc, id(1, 0), PdfValue::Dictionary(dict));

    let mut issues = Vec::new();
    check_broken_references(&doc, &mut issues);
    assert!(issues.is_empty());
}

#[test]
fn collect_broken_refs_in_array() {
    let mut doc = new_doc();
    let obj = PdfValue::Array(vec![r(99)]);
    insert(&mut doc, id(1, 0), PdfValue::Array(vec![r(99)]));

    let broken = collect_broken_refs(&obj, &doc);
    assert_eq!(broken.len(), 1);
}

#[test]
fn collect_broken_refs_in_stream_dict() {
    let mut doc = new_doc();
    let ref_dict = || {
        let mut dict = Vec::new();
        set(&mut dict, "Ref", r(99));
        dict
    };
    let obj = stream(ref_dict(), vec![]);
    insert(&mut doc, id(1, 0), stream(ref_dict(), vec![]));

    let broken = collect_broken_refs(&obj, &doc);
    assert_eq!(broken.len(), 1);
}

#[test]
fn check_unreachable_objects_finds_orphans() {
    let mut doc = new_doc();
    insert(&mut doc, id(1, 0), integer(42));
    insert(&mut doc, id(2, 0), integer(99));
    set(&mut doc.trailer, "Root", r(1));

    let mut issues = Vec::new();
    check_unreachable_objects(&doc, &mut issues);
    assert_eq!(issues.len(), 1);
    assert!(issues[0].message.contains("2 0"));
}

#[test]
fn check_stream_lengths_mismatch() {
    let mut doc = new_doc();
    let s = stream(Vec::new(), vec![0; 10]);
    let s = match s {
        PdfValue::Stream { mut dict, content } => {
            set(&mut dict, "Length", integer(999));
            PdfValue::Stream { dict, content }
        }
        other => other,
    };
    insert(&mut doc, id(1, 0), s);

    let mut issues = Vec::new();
    check_stream_lengths(&doc, &mut issues);
    assert_eq!(issues.len(), 1);
    assert!(issues[0].message.contains("999"));
    assert!(issues[0].message.contains("10"));
}

#[test]
fn check_stream_lengths_correct() {
    let mut doc = new_doc();
    let mut dict = Vec::new();
    set(&mut dict, "Length", integer(10));
    insert(&mut doc, id(1, 0), stream(dict, vec![0; 10]));

    let mut issues = Vec::new();
    check_stream_lengths(&doc, &mut issues);
    assert!(issues.is_empty());
}

#[test]
fn page_has_media_box_direct() {
    let mut doc = new_doc();
    let mut page = Vec::new();
    set(&mut page, "MediaBox", media_box());
    insert(&mut doc, id(1, 0), PdfValue::Dictionary(page));

    assert!(page_has_media_box(&doc, id(1, 0)));
}

#[test]
fn page_has_media_box_inherited() {
    let mut doc = new_doc();
    let mut parent = Vec::new();
    set(&mut parent, "Type", name("Pages"));
    set(&mut parent, "MediaBox", media_box());
    insert(&mut doc, id(2, 0), PdfValue::Dictionary(parent));

    let mut page = Vec::new();
    set(&mut page, "Type", name("Page"));
    set(&mut page, "Parent", r(2));
    insert(&mut doc, id(1, 0), PdfValue::Dictionary(page));

    assert!(page_has_media_box(&doc, id(1, 0)));
}

#[test]
fn page_has_media_box_missing() {
    let mut doc = new_doc();
    let mut page = Vec::new();
    set(&mut page, "Type", name("Page"));
    insert(&mut doc, id(1, 0), PdfValue::Dictionary(page));

    assert!(!page_has_media_box(&doc, id(1, 0)));
}

#[test]
fn print_validation_no_issues() {
    let mut doc = new_doc();
    minimal_catalog(&mut doc, 0);

    let report = validate_pdf(&doc, &vec![]);
    let out = validation_report(&report).join("\n");
    assert!(out.contains("[OK]"));
}

#[test]
fn print_validation_shows_errors_and_summary() {
    let doc = new_doc();
    let report = validate_pdf(&doc, &vec![]);
    let out = validation_report(&report).join("\n");
    assert!(out.contains("[ERROR]"));
    assert!(out.contains("Summary:"));
}

#[test]
fn check_page_tree_count_mismatch() {
    let mut doc = new_doc();
    minimal_catalog(&mut doc, 5);

    let mut issues = Vec::new();
    check_page_tree(&doc, 0, &mut issues);
    assert_eq!(issues.len(), 1);
    assert!(issues[0].message.contains("/Pages /Count is 5"));
}

#[test]
fn collect_broken_refs_nested_dict() {
    let doc = new_doc();
    let mut inner = Vec::new();
    set(&mut inner, "Ref", r(99));
    let mut outer = Vec::new();
    set(&mut outer, "Inner", PdfValue::Dictionary(inner));
    let obj = PdfValue::Dictionary(outer);

    let broken = collect_broken_refs(&obj, &doc);
    assert_eq!(broken.len(), 1);
    assert_eq!(broken[0], id(99, 0));
}

#[test]
fn collect_broken_refs_nested_array() {
    let doc = new_doc();
    let obj = PdfValue::Array(vec![PdfValue::Array(vec![r(88)])]);

    let broken = collect_broken_refs(&obj, &doc);
    assert_eq!(broken.len(), 1);
    assert_eq!(broken[0], id(88, 0));
}

#[test]
fn collect_broken_refs_multiple_in_one_object() {
    let doc = new_doc();
    let mut dict = Vec::new();
    set(&mut dict, "A", r(91));
    set(&mut dict, "B", r(92));
    set(&mut dict, "C", r(93));
    let obj = PdfValue::Dictionary(dict);

    let broken = collect_broken_refs(&obj, &doc);
    assert_eq!(broken.len(), 3);
}

#[test]
fn collect_broken_refs_valid_ref_not_reported() {
    let mut doc = new_doc();
    insert(&mut doc, id(5, 0), integer(42));
    let obj = r(5);

    let broken = collect_broken_refs(&obj, &doc);
    assert!(broken.is_empty());
}

#[test]
fn collect_broken_refs_primitives_return_empty() {
    let doc = new_doc();
    assert!(collect_broken_refs(&PdfValue::Null, &doc).is_empty());
    assert!(collect_broken_refs(&PdfValue::Boolean(false), &doc).is_empty());
    assert!(collect_broken_refs(&integer(0), &doc).is_empty());
    assert!(collect_broken_refs(&PdfValue::Real("1.0".to_string()), &doc).is_empty());
    assert!(collect_broken_refs(&name("X"), &doc).is_empty());
}

#[test]
fn check_required_keys_catalog_missing_pages() {
    let mut doc = new_doc();
    let mut catalog = Vec::new();
    set(&mut catalog, "Type", name("Catalog"));
    insert(&mut doc, id(1, 0), PdfValue::Dictionary(catalog));
    set(&mut doc.trailer, "Root", r(1));

    let mut issues = Vec::new();
    check_required_keys(&doc, &vec![], &mut issues);
    assert!(has(&issues, Some(ValidationLevel::Error), "Catalog missing required /Pages"));
}

#[test]
fn check_required_keys_valid_catalog() {
    let mut doc = new_doc();
    minimal_catalog(&mut doc, 0);

    let mut issues = Vec::new();
    check_required_keys(&doc, &vec![], &mut issues);
    assert!(!has(&issues, None, "Catalog missing"));
}

#[test]
fn page_has_media_box_inherited_three_levels() {
    let mut doc = new_doc();
    let mut grandparent = Vec::new();
    set(&mut grandparent, "Type", name("Pages"));
    set(&mut grandparent, "MediaBox", media_box());
    insert(&mut doc, id(3, 0), PdfValue::Dictionary(grandparent));

    let mut parent = Vec::new();
    set(&mut parent, "Type", name("Pages"));
    set(&mut parent, "Parent", r(3));
    insert(&mut doc, id(2, 0), PdfValue::Dictionary(parent));

    let mut page = Vec::new();
    set(&mut page, "Type", name("Page"));
    set(&mut page, "Parent", r(2));
    insert(&mut doc, id(1, 0), PdfValue::Dictionary(page));

    assert!(page_has_media_box(&doc, id(1, 0)));
}

#[test]
fn page_has_media_box_cycle_guard() {
    let mut doc = new_doc();
    let mut page_a = Vec::new();
    set(&mut page_a, "Type", name("Page"));
    set(&mut page_a, "Parent", r(2));
    insert(&mut doc, id(1, 0), PdfValue::Dictionary(page_a));

    let mut page_b = Vec::new();
    set(&mut page_b, "Type", name("Pages"));
    set(&mut page_b, "Parent", r(1));
    insert(&mut doc, id(2, 0), PdfValue::Dictionary(page_b));

    assert!(!page_has_media_box(&doc, id(1, 0)));
}

#[test]
fn page_has_media_box_nonexistent_parent() {
    let mut doc = new_doc();
    let mut page = Vec::new();
    set(&mut page, "Type", name("Page"));
    set(&mut page, "Parent", r(99));
    insert(&mut doc, id(1, 0), PdfValue::Dictionary(page));

    assert!(!page_has_media_box(&doc, id(1, 0)));
}

#[test]
fn page_has_media_box_non_dict_object() {
    let mut doc = new_doc();
    insert(&mut doc, id(1, 0), integer(42));

    assert!(!page_has_media_box(&doc, id(1, 0)));
}

#[test]
fn check_stream_lengths_no_length_key_no_issue() {
    let mut doc = new_doc();
    insert(&mut doc, id(1, 0), stream(Vec::new(), vec![0; 10]));

    let mut issues = Vec::new();
    check_stream_lengths(&doc, &mut issues);
    assert!(issues.is_empty());
}

#[test]
fn check_stream_lengths_zero_length_correct() {
    let mut doc = new_doc();
    let mut dict = Vec::new();
    set(&mut dict, "Length", integer(0));
    insert(&mut doc, id(1, 0), stream(dict, vec![]));

    let mut issues = Vec::new();
    check_stream_lengths(&doc, &mut issues);
    assert!(issues.is_empty());
}

#[test]
fn check_page_tree_correct_count() {
    let mut doc = new_doc();
    let mut page = Vec::new();
    set(&mut page, "Type", name("Page"));
    set(&mut page, "Parent", r(2));
    set(&mut page, "MediaBox", media_box());
    insert(&mut doc, id(3, 0), PdfValue::Dictionary(page));

    let mut pages = Vec::new();
    set(&mut pages, "Type", name("Pages"));
    set(&mut pages, "Count", integer(1));
    set(&mut pages, "Kids", PdfValue::Array(vec![r(3)]));
    insert(&mut doc, id(2, 0), PdfValue::Dictionary(pages));

    let mut catalog = Vec::new();
    set(&mut catalog, "Type", name("Catalog"));
    set(&mut catalog, "Pages", r(2));
    insert(&mut doc, id(1, 0), PdfValue::Dictionary(catalog));
    set(&mut doc.trailer, "Root", r(1));

    let mut issues = Vec::new();
    check_page_tree(&doc, 1, &mut issues);
    assert!(issues.is_empty());
}

#[test]
fn validate_pdf_mixed_issues() {
    let mut doc = new_doc();
    let mut dict = Vec::new();
    set(&mut dict, "Ref", r(99));
    insert(&mut doc, id(1, 0), PdfValue::Dictionary(dict));

    let report = validate_pdf(&doc, &vec![]);
    assert!(report.error_count > 0);
    assert!(report.warn_count > 0);
    assert_eq!(report.error_count + report.warn_count + report.info_count, report.issues.len());
}

#[test]
fn check_unreachable_all_reachable() {
    let mut doc = new_doc();
    insert(&mut doc, id(1, 0), integer(42));
    set(&mut doc.trailer, "Root", r(1));

    let mut issues = Vec::new();
    check_unreachable_objects(&doc, &mut issues);
    assert!(issues.is_empty());
}

#[test]
fn check_unreachable_multiple_orphans() {
    let mut doc = new_doc();
    insert(&mut doc, id(1, 0), integer(1));
    insert(&mut doc, id(2, 0), integer(2));
    insert(&mut doc, id(3, 0), integer(3));

    let mut issues = Vec::new();
    check_unreachable_objects(&doc, &mut issues);
    assert_eq!(issues.len(), 3);
    assert!(issues.iter().all(|i| i.level == ValidationLevel::Warn));
}

/// A one-page document whose page has the given content, with ids given as
/// objects are added one after another.
fn one_page_doc(content: &[u8]) -> (PdfDoc, ObjRef) {
    let mut doc = new_doc();
    insert(&mut doc, id(1, 0), stream(Vec::new(), content.to_vec()));
    let mut page = Vec::new();
    set(&mut page, "Type", name("Page"));
    set(&mut page, "Contents", r(1));
    set(&mut page, "MediaBox", media_box());
    insert(&mut doc, id(2, 0), PdfValue::Dictionary(page));
    let mut pages = Vec::new();
    set(&mut pages, "Type", name("Pages"));
    set(&mut pages, "Count", integer(1));
    set(&mut pages, "Kids", PdfValue::Array(vec![r(2)]));
    insert(&mut doc, id(3, 0), PdfValue::Dictionary(pages));
    let mut catalog = Vec::new();
    set(&mut catalog, "Type", name("Catalog"));
    set(&mut catalog, "Pages", r(3));
    insert(&mut doc, id(4, 0), PdfValue::Dictionary(catalog));
    set(&mut doc.trailer, "Root", r(4));
    (doc, id(2, 0))
}

#[test]
fn validate_content_stream_valid() {
    let (doc, page) = one_page_doc(b"BT /F1 12 Tf (Hello) Tj ET");
    let mut issues = Vec::new();
    check_content_stream_syntax(&doc, &vec![page], &mut issues);
    assert!(issues.is_empty(), "Valid content stream should produce no issues");
}

#[test]
fn validate_content_stream_invalid() {
    let (doc, page) = one_page_doc(b"THIS IS NOT VALID PDF CONTENT STREAM SYNTAX <<<>>>!!!");
    let mut issues = Vec::new();
    check_content_stream_syntax(&doc, &vec![page], &mut issues);
    // The content parser is lenient: a warning may or may not come, but
    // nothing else may.
    assert!(issues.iter().all(|i| i.level == ValidationLevel::Warn && i.message.contains("invalid syntax")));
}

#[test]
fn validate_font_missing_basefont() {
    let mut doc = new_doc();
    let mut font = Vec::new();
    set(&mut font, "Type", name("Font"));
    set(&mut font, "Subtype", name("Type1"));
    insert(&mut doc, id(1, 0), PdfValue::Dictionary(font));

    let mut issues = Vec::new();
    check_font_requirements(&doc, &mut issues);
    assert!(has(&issues, None, "missing /BaseFont"));
}

#[test]
fn validate_font_valid() {
    let mut doc = new_doc();
    let mut font = Vec::new();
    set(&mut font, "Type", name("Font"));
    set(&mut font, "Subtype", name("Type1"));
    set(&mut font, "BaseFont", name("Helvetica"));
    insert(&mut doc, id(1, 0), PdfValue::Dictionary(font));

    let mut issues = Vec::new();
    check_font_requirements(&doc, &mut issues);
    assert!(issues.is_empty());
}

#[test]
fn validate_font_widths_mismatch() {
    let mut doc = new_doc();
    let mut font = Vec::new();
    set(&mut font, "Type", name("Font"));
    set(&mut font, "Subtype", name("TrueType"));
    set(&mut font, "BaseFont", name("Arial"));
    set(&mut font, "FirstChar", integer(32));
    set(&mut font, "LastChar", integer(126));
    let widths: Vec<PdfValue> = (0..10).map(|_| integer(600)).collect();
    set(&mut font, "Widths", PdfValue::Array(widths));
    insert(&mut doc, id(1, 0), PdfValue::Dictionary(font));

    let mut issues = Vec::new();
    check_font_requirements(&doc, &mut issues);
    assert!(has(&issues, None, "/Widths"));
}

#[test]
fn validate_font_firstchar_without_lastchar() {
    let mut doc = new_doc();
    let mut font = Vec::new();
    set(&mut font, "Type", name("Font"));
    set(&mut font, "Subtype", name("Type1"));
    set(&mut font, "BaseFont", name("Helvetica"));
    set(&mut font, "FirstChar", integer(32));
    insert(&mut doc, id(1, 0), PdfValue::Dictionary(font));

    let mut issues = Vec::new();
    check_font_requirements(&doc, &mut issues);
    assert!(issues.iter().any(|i| i.message.contains("/FirstChar") && i.message.contains("/LastChar")));
}

#[test]
fn validate_page_tree_cycle() {
    let mut doc = new_doc();
    let mut page = Vec::new();
    set(&mut page, "Type", name("Page"));
    set(&mut page, "Parent", r(2));
    set(&mut page, "MediaBox", media_box());
    insert(&mut doc, id(10, 0), PdfValue::Dictionary(page));

    let mut parent1 = Vec::new();
    set(&mut parent1, "Type", name("Pages"));
    set(&mut parent1, "Parent", r(3));
    set(&mut parent1, "Count", integer(1));
    set(&mut parent1, "Kids", PdfValue::Array(vec![r(10)]));
    insert(&mut doc, id(2, 0), PdfValue::Dictionary(parent1));

    let mut parent2 = Vec::new();
    set(&mut parent2, "Type", name("Pages"));
    set(&mut parent2, "Parent", r(2));
    insert(&mut doc, id(3, 0), PdfValue::Dictionary(parent2));

    let mut catalog = Vec::new();
    set(&mut catalog, "Type", name("Catalog"));
    set(&mut catalog, "Pages", r(2));
    insert(&mut doc, id(1, 0), PdfValue::Dictionary(catalog));
    set(&mut doc.trailer, "Root", r(1));

    let mut issues = Vec::new();
    check_page_tree_cycles(&doc, &vec![id(10, 0)], &mut issues);
    assert!(has(&issues, None, "cycle"));
}

/// A catalog whose `/Names` has an `/EmbeddedFiles` tree with one kid.
fn names_doc(kid: Entries) -> PdfDoc {
    let mut doc = new_doc();
    insert(&mut doc, id(5, 0), PdfValue::Dictionary(kid));
    let mut ef = Vec::new();
    set(&mut ef, "Kids", PdfValue::Array(vec![r(5)]));
    insert(&mut doc, id(4, 0), PdfValue::Dictionary(ef));
    let mut names = Vec::new();
    set(&mut names, "EmbeddedFiles", r(4));
    insert(&mut doc, id(3, 0), PdfValue::Dictionary(names));
    let mut catalog = Vec::new();
    set(&mut catalog, "Type", name("Catalog"));
    set(&mut catalog, "Names", r(3));
    insert(&mut doc, id(1, 0), PdfValue::Dictionary(catalog));
    set(&mut doc.trailer, "Root", r(1));
    doc
}

#[test]
fn validate_name_tree_odd_names() {
    let mut subtree = Vec::new();
    set(
        &mut subtree,
        "Names",
        PdfValue::Array(vec![
            PdfValue::Str(b"key1".to_vec()),
            integer(1),
            PdfValue::Str(b"key2".to_vec()),
        ]),
    );
    let doc = names_doc(subtree);

    let mut issues = Vec::new();
    check_names_tree_structure(&doc, &mut issues);
    assert!(has(&issues, None, "odd length"));
}

#[test]
fn validate_name_tree_no_names_or_kids() {
    let doc = names_doc(Vec::new());

    let mut issues = Vec::new();
    check_names_tree_structure(&doc, &mut issues);
    assert!(has(&issues, None, "neither /Names nor /Kids"));
}

#[test]
fn validate_duplicate_objects() {
    let mut doc = new_doc();
    insert(&mut doc, id(1, 0), integer(1));
    insert(&mut doc, id(1, 1), integer(2));
    insert(&mut doc, id(2, 0), integer(3));

    let mut issues = Vec::new();
    check_duplicate_objects(&doc, &mut issues);
    assert!(issues.iter().any(|i| i.message.contains("Object 1") && i.message.contains("multiple generations")));
}

#[test]
fn validate_no_duplicate_objects() {
    let mut doc = new_doc();
    insert(&mut doc, id(1, 0), integer(1));
    insert(&mut doc, id(2, 0), integer(2));

    let mut issues = Vec::new();
    check_duplicate_objects(&doc, &mut issues);
    assert!(issues.is_empty());
}

// ── Further cases ────────────────────────────────────────────────────

#[test]
fn unreachable_follows_chains_of_references() {
    let mut doc = new_doc();
    let mut a = Vec::new();
    set(&mut a, "Next", r(2));
    insert(&mut doc, id(1, 0), PdfValue::Dictionary(a));
    insert(&mut doc, id(2, 0), PdfValue::Array(vec![r(3)]));
    insert(&mut doc, id(3, 0), integer(7));
    insert(&mut doc, id(4, 0), integer(8));
    set(&mut doc.trailer, "Root", r(1));

    assert_eq!(reachable_objects(&doc), vec![true, true, true, false]);
    let mut issues = Vec::new();
    check_unreachable_objects(&doc, &mut issues);
    assert_eq!(issues.len(), 1);
    assert_eq!(issues[0].message, "Object 4 0 is unreachable from trailer");
}

#[test]
fn unreachable_handles_reference_cycles() {
    let mut doc = new_doc();
    insert(&mut doc, id(1, 0), PdfValue::Array(vec![r(2)]));
    insert(&mut doc, id(2, 0), PdfValue::Array(vec![r(1)]));
    insert(&mut doc, id(3, 0), PdfValue::Array(vec![r(3)]));
    set(&mut doc.trailer, "Root", r(2));

    assert_eq!(reachable_objects(&doc), vec![true, true, false]);
}

#[test]
fn broken_reference_message_is_exact() {
    let mut doc = new_doc();
    insert(&mut doc, id(7, 2), PdfValue::Array(vec![r(99)]));

    let mut issues = Vec::new();
    check_broken_references(&doc, &mut issues);
    assert_eq!(issues.len(), 1);
    assert_eq!(issues[0].level, ValidationLevel::Error);
    assert_eq!(issues[0].message, "Object 7 2: references non-existent object 99 0");
}

#[test]
fn page_cycle_message_names_the_repeated_object() {
    let mut doc = new_doc();
    let mut page = Vec::new();
    set(&mut page, "Parent", r(2));
    insert(&mut doc, id(1, 0), PdfValue::Dictionary(page));
    let mut p2 = Vec::new();
    set(&mut p2, "Parent", r(3));
    insert(&mut doc, id(2, 0), PdfValue::Dictionary(p2));
    let mut p3 = Vec::new();
    set(&mut p3, "Parent", r(2));
    insert(&mut doc, id(3, 0), PdfValue::Dictionary(p3));

    let mut issues = Vec::new();
    check_page_tree_cycles(&doc, &vec![id(1, 0)], &mut issues);
    assert_eq!(issues.len(), 1);
    assert_eq!(
        issues[0].message,
        "Page 1: cycle detected in /Parent chain (object 2 0 seen twice)"
    );
}

#[test]
fn page_chain_without_cycle_is_clean() {
    let mut doc = new_doc();
    let mut page = Vec::new();
    set(&mut page, "Parent", r(2));
    insert(&mut doc, id(1, 0), PdfValue::Dictionary(page));
    insert(&mut doc, id(2, 0), PdfValue::Dictionary(Vec::new()));

    let mut issues = Vec::new();
    check_page_tree_cycles(&doc, &vec![id(1, 0)], &mut issues);
    assert!(issues.is_empty());
}

#[test]
fn name_tree_kid_met_twice_is_a_cycle() {
    let mut doc = new_doc();
    let mut leaf = Vec::new();
    set(&mut leaf, "Names", PdfValue::Array(vec![]));
    insert(&mut doc, id(5, 0), PdfValue::Dictionary(leaf));
    let mut ef = Vec::new();
    set(&mut ef, "Kids", PdfValue::Array(vec![r(5), r(5)]));
    insert(&mut doc, id(4, 0), PdfValue::Dictionary(ef));
    let mut names = Vec::new();
    set(&mut names, "Dests", r(4));
    insert(&mut doc, id(3, 0), PdfValue::Dictionary(names));
    let mut catalog = Vec::new();
    set(&mut catalog, "Names", r(3));
    insert(&mut doc, id(1, 0), PdfValue::Dictionary(catalog));
    set(&mut doc.trailer, "Root", r(1));

    let mut issues = Vec::new();
    check_names_tree_structure(&doc, &mut issues);
    assert_eq!(issues.len(), 1);
    assert_eq!(issues[0].level, ValidationLevel::Error);
    assert_eq!(issues[0].message, "Name tree 'Dests': cycle detected at object 5 0");
}

#[test]
fn name_tree_self_kid_is_a_cycle_after_one_visit() {
    let mut doc = new_doc();
    let mut node = Vec::new();
    set(&mut node, "Kids", PdfValue::Array(vec![r(5)]));
    insert(&mut doc, id(5, 0), PdfValue::Dictionary(node));
    let mut names = Vec::new();
    set(&mut names, "AP", r(5));
    insert(&mut doc, id(3, 0), PdfValue::Dictionary(names));
    let mut catalog = Vec::new();
    set(&mut catalog, "Names", r(3));
    insert(&mut doc, id(1, 0), PdfValue::Dictionary(catalog));
    set(&mut doc.trailer, "Root", r(1));

    let mut issues = Vec::new();
    check_names_tree_structure(&doc, &mut issues);
    assert_eq!(issues.len(), 1);
    assert_eq!(issues[0].message, "Name tree 'AP': cycle detected at object 5 0");
}

#[test]
fn name_tree_odd_names_message_is_exact() {
    let mut subtree = Vec::new();
    set(&mut subtree, "Names", PdfValue::Array(vec![integer(1), integer(2), integer(3)]));
    let doc = names_doc(subtree);

    let mut issues = Vec::new();
    check_names_tree_structure(&doc, &mut issues);
    assert_eq!(issues.len(), 1);
    assert_eq!(issues[0].message, "Name tree 'EmbeddedFiles': /Names array has odd length (3)");
}

#[test]
fn report_lines_have_prefixes_and_summary() {
    let doc = new_doc();
    let report = validate_pdf(&doc, &vec![]);
    let lines = validation_report(&report);
    assert_eq!(lines[0], "[ERROR] Trailer missing /Root reference");
    assert_eq!(lines[lines.len() - 2], "");
    assert_eq!(lines[lines.len() - 1], "Summary: 1 errors, 0 warnings, 0 info");
    assert_eq!(report.error_count, 1);
}

#[test]
fn report_for_clean_document_is_one_line() {
    let mut doc = new_doc();
    minimal_catalog(&mut doc, 0);
    let report = validate_pdf(&doc, &vec![]);
    assert!(report.issues.is_empty());
    assert_eq!(validation_report(&report), vec!["[OK] No issues found.".to_string()]);
}

#[test]
fn duplicate_generations_are_listed() {
    let mut doc = new_doc();
    insert(&mut doc, id(4, 0), integer(1));
    insert(&mut doc, id(4, 3), integer(2));

    let mut issues = Vec::new();
    check_duplicate_objects(&doc, &mut issues);
    assert_eq!(issues.len(), 1);
    assert_eq!(issues[0].message, "Object 4: multiple generations present ([0, 3])");
}
