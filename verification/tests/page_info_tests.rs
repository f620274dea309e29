use pdf_dump::page_info::{
    base_font_name, is_garbled_text, text_preview, warning_mentions_font_problem,
};

#[test]
fn garbled_text_detection_clean() {
    assert!(!is_garbled_text("Hello World", &[]));
}

#[test]
fn garbled_text_detection_empty() {
    assert!(!is_garbled_text("", &[]));
    assert!(!is_garbled_text("   ", &[]));
}

#[test]
fn garbled_text_detection_mostly_non_ascii() {
    // More than 50% non-printable -> garbled
    assert!(is_garbled_text("\u{00}\u{01}\u{02}a", &[]));
}

#[test]
fn garbled_text_detection_cid_warning() {
    let warnings = vec!["CID font without ToUnicode".to_string()];
    assert!(is_garbled_text("some text", &warnings));
}

#[test]
fn garbled_text_cid_warning_empty_text() {
    // CID warning but no text => not garbled
    let warnings = vec!["CID font without ToUnicode".to_string()];
    assert!(!is_garbled_text("", &warnings));
}

#[test]
fn garbled_text_encoding_warning() {
    let warnings = vec!["Font has unknown encoding".to_string()];
    assert!(is_garbled_text("some text", &warnings));
}

#[test]
fn garbled_text_tounicode_warning() {
    let warnings = vec!["Missing ToUnicode CMap for font".to_string()];
    assert!(is_garbled_text("abc", &warnings));
}

#[test]
fn garbled_text_at_exactly_50_percent_boundary() {
    assert!(!is_garbled_text("\u{01}a", &[]));
    assert!(!is_garbled_text("\u{01}\u{02}ab", &[]));
}

#[test]
fn garbled_text_unicode_chars() {
    let text = "\u{00E9}\u{00F1}\u{00FC}a";
    assert!(is_garbled_text(text, &[]));
}

#[test]
fn garbled_text_other_warnings_and_whitespace() {
    // A warning about something else does not count.
    let warnings = vec!["Stream length mismatch".to_string()];
    assert!(!is_garbled_text("abc", &warnings));
    // White space is left out of the ratio: two odd characters among four
    // visible ones is not a majority.
    assert!(!is_garbled_text("\u{01} \u{02}\n a b", &[]));
    // Only the lower-cased form is matched against the keywords.
    assert!(warning_mentions_font_problem("no tounicode map"));
    assert!(!warning_mentions_font_problem("No ToUnicode map"));
    assert!(warning_mentions_font_problem("cid"));
    assert!(!warning_mentions_font_problem("ci d"));
}

#[test]
fn text_preview_cases() {
    assert_eq!(
        text_preview("anything", true),
        ("(text not extractable \u{2014} fonts lack Unicode mappings)".to_string(), false)
    );
    assert_eq!(text_preview("  hello  ", false), ("hello".to_string(), true));
    // 200 bytes exactly is not cut.
    let exact = "x".repeat(200);
    assert_eq!(text_preview(&exact, false), (exact.clone(), true));
    // 201 bytes: the first 200 characters, trimmed, then "...".
    let long = format!("{} y", "x".repeat(199));
    assert_eq!(text_preview(&long, false), (format!("{}...", "x".repeat(199)), true));
    // Fewer than 200 characters but more than 200 bytes: all characters kept.
    let wide = "\u{00e9}".repeat(101);
    assert_eq!(text_preview(&wide, false), (format!("{}...", wide), true));
}

#[test]
fn base_font_name_cases() {
    assert_eq!(base_font_name("Helvetica, Type1"), "Helvetica");
    assert_eq!(base_font_name("  Times-Roman "), "Times-Roman");
    assert_eq!(base_font_name(", TrueType"), "");
    assert_eq!(base_font_name(""), "");
}

// ── The page report ──────────────────────────────────────────────────


fn pid(num: u32) -> pdf_dump::model::ObjRef {
    pdf_dump::model::ObjRef { num, gen: 0 }
}

fn pname(n: &str) -> pdf_dump::model::PdfValue {
    pdf_dump::model::PdfValue::Name(n.as_bytes().to_vec())
}

fn pint(i: i64) -> pdf_dump::model::PdfValue {
    pdf_dump::model::PdfValue::Integer(i)
}

fn pdict(entries: Vec<(&str, pdf_dump::model::PdfValue)>) -> Vec<(Vec<u8>, pdf_dump::model::PdfValue)> {
    entries.into_iter().map(|(k, v)| (k.as_bytes().to_vec(), v)).collect()
}

fn pstream(content: &[u8]) -> pdf_dump::model::PdfValue {
    pdf_dump::model::PdfValue::Stream {
        dict: pdict(vec![("Length", pint(content.len() as i64))]),
        content: content.to_vec(),
    }
}

fn pbox(a: i64, b: i64, c: i64, d: i64) -> pdf_dump::model::PdfValue {
    pdf_dump::model::PdfValue::Array(vec![pint(a), pint(b), pint(c), pint(d)])
}

/// A one-page document: the page is object 10 with these entries.
fn page_doc(page: Vec<(&str, pdf_dump::model::PdfValue)>, mut extra: Vec<(pdf_dump::model::ObjRef, pdf_dump::model::PdfValue)>) -> pdf_dump::model::PdfDoc {
    extra.push((pid(10), pdf_dump::model::PdfValue::Dictionary(pdict(page))));
    extra.sort_by_key(|(k, _)| (k.num, k.gen));
    pdf_dump::model::PdfDoc { objects: extra, trailer: Vec::new() }
}

fn report(doc: &pdf_dump::model::PdfDoc, annots: Vec<&str>, text: &str) -> String {
    let subtypes: Vec<String> = annots.iter().map(|s| s.to_string()).collect();
    let info = pdf_dump::page_info::collect_page_info(doc, 1, pid(10), &subtypes, text, &vec![]);
    pdf_dump::page_info::print_page_info(&info).join("\n")
}

#[test]
fn page_info_shows_media_box() {
    let doc = page_doc(vec![("Type", pname("Page")), ("MediaBox", pbox(0, 0, 612, 792))], vec![]);
    let out = report(&doc, vec![], "");
    assert!(out.contains("Page 1"));
    assert!(out.contains("MediaBox"));
    assert!(out.contains("[0 0 612 792]"));
}

#[test]
fn page_info_shows_fonts() {
    let fonts = pdf_dump::model::PdfValue::Dictionary(pdict(vec![("F1", pdf_dump::model::PdfValue::Reference(pid(5)))]));
    let doc = page_doc(
        vec![("Type", pname("Page")), ("Resources", pdf_dump::model::PdfValue::Dictionary(pdict(vec![("Font", fonts)])))],
        vec![(pid(5), pdf_dump::model::PdfValue::Dictionary(pdict(vec![("BaseFont", pname("Helvetica")), ("Subtype", pname("Type1"))])))],
    );
    let out = report(&doc, vec![], "");
    assert!(out.contains("Fonts:"));
    assert!(out.contains("Helvetica"));
    assert!(out.contains("/F1"));
    assert!(out.contains("obj "));
}

#[test]
fn page_info_shows_content_streams() {
    let doc = page_doc(
        vec![("Contents", pdf_dump::model::PdfValue::Reference(pid(4)))],
        vec![(pid(4), pstream(b"BT (Hello World) Tj ET"))],
    );
    let out = report(&doc, vec![], "Hello World");
    assert!(out.contains("Content:"));
    assert!(out.contains("1 stream"));
    assert!(out.contains("Text preview:") || out.contains("Hello World"));
}

#[test]
fn page_info_with_xobjects() {
    let img = pdf_dump::model::PdfValue::Stream {
        dict: pdict(vec![
            ("Type", pname("XObject")),
            ("Subtype", pname("Image")),
            ("Width", pint(100)),
            ("Height", pint(200)),
            ("ColorSpace", pname("DeviceRGB")),
            ("Length", pint(10)),
        ]),
        content: vec![0u8; 10],
    };
    let xobjects = pdf_dump::model::PdfValue::Dictionary(pdict(vec![("Im1", pdf_dump::model::PdfValue::Reference(pid(1)))]));
    let doc = page_doc(
        vec![
            ("Type", pname("Page")),
            ("Contents", pdf_dump::model::PdfValue::Reference(pid(2))),
            ("Resources", pdf_dump::model::PdfValue::Dictionary(pdict(vec![("XObject", xobjects)]))),
            ("MediaBox", pbox(0, 0, 612, 792)),
        ],
        vec![(pid(1), img), (pid(2), pstream(b"BT (test) Tj ET"))],
    );
    let out = report(&doc, vec![], "test");
    assert!(out.contains("XObjects:"));
    assert!(out.contains("1 image"));
    assert!(out.contains("/Im1"));
    assert!(out.contains("Image, 100x200, DeviceRGB"));
}

#[test]
fn page_info_with_rotation() {
    let doc = page_doc(vec![("Rotate", pint(90)), ("MediaBox", pbox(0, 0, 612, 792))], vec![]);
    let out = report(&doc, vec![], "");
    assert!(out.contains("Rotate:"));
    assert!(out.contains("90"));
}

#[test]
fn page_info_with_crop_box() {
    let doc = page_doc(vec![("MediaBox", pbox(0, 0, 612, 792)), ("CropBox", pbox(50, 50, 562, 742))], vec![]);
    let out = report(&doc, vec![], "");
    assert!(out.contains("CropBox:"));
    assert!(out.contains("[50 50 562 742]"));
}

#[test]
fn page_info_no_content_streams() {
    let doc = page_doc(vec![("Type", pname("Page")), ("MediaBox", pbox(0, 0, 612, 792))], vec![]);
    let out = report(&doc, vec![], "");
    assert!(out.contains("Page 1"));
    assert!(!out.contains("Content:"));
}

#[test]
fn page_info_with_annotations() {
    let doc = page_doc(vec![("MediaBox", pbox(0, 0, 612, 792))], vec![]);
    let out = report(&doc, vec!["Text"], "");
    assert!(out.contains("Annotations:"));
    assert!(out.contains("1 Text"));
}

#[test]
fn page_info_multiple_content_streams() {
    let doc = page_doc(
        vec![(
            "Contents",
            pdf_dump::model::PdfValue::Array(vec![
                pdf_dump::model::PdfValue::Reference(pid(1)),
                pdf_dump::model::PdfValue::Reference(pid(2)),
            ]),
        )],
        vec![(pid(1), pstream(b"BT /F1 12 Tf (Hello) Tj ET")), (pid(2), pstream(b"BT /F1 12 Tf (World) Tj ET"))],
    );
    let out = report(&doc, vec![], "Hello World");
    assert!(out.contains("2 streams"), "Expected '2 streams' in output:\n{}", out);
    let expected_bytes = b"BT /F1 12 Tf (Hello) Tj ET".len() + b"BT /F1 12 Tf (World) Tj ET".len();
    assert!(out.contains(&format!("{} bytes", expected_bytes)));
}

#[test]
fn page_info_multiple_annotation_subtypes() {
    let doc = page_doc(vec![("MediaBox", pbox(0, 0, 612, 792))], vec![]);
    let out = report(&doc, vec!["Link", "Text", "Link"], "");
    assert!(out.contains("Annotations:  3 (2 Link, 1 Text)"), "{}", out);
}

#[test]
fn page_report_is_exact() {
    let doc = page_doc(
        vec![("MediaBox", pbox(0, 0, 612, 792)), ("Contents", pdf_dump::model::PdfValue::Reference(pid(4)))],
        vec![(pid(4), pstream(b"BT ET"))],
    );
    let subtypes: Vec<String> = vec![];
    let info = pdf_dump::page_info::collect_page_info(&doc, 3, pid(10), &subtypes, "  Hi  ", &vec!["w1".to_string()]);
    assert_eq!(
        pdf_dump::page_info::print_page_info(&info),
        vec![
            "Page 3 (Object 10 0)",
            "  MediaBox:     [0 0 612 792]",
            "  Content:      1 stream, 5 bytes",
            "  Text preview: \"Hi\"",
            "  Warning: w1",
            "",
        ]
    );
}

#[test]
fn page_info_for_a_non_dictionary_page_is_empty() {
    let doc = pdf_dump::model::PdfDoc { objects: vec![(pid(10), pint(1))], trailer: Vec::new() };
    let subtypes: Vec<String> = vec!["Text".to_string()];
    let info = pdf_dump::page_info::collect_page_info(&doc, 1, pid(10), &subtypes, "x", &vec![]);
    assert_eq!(info.media_box, "-");
    assert_eq!(info.annotation_count, 0);
    assert!(info.text_extractable);
    assert_eq!(pdf_dump::page_info::print_page_info(&info), vec!["Page 1 (Object 10 0)", "  MediaBox:     -", ""]);
}
