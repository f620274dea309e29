use pdf_dump::model::{ObjRef, PdfDoc, PdfValue};
use pdf_dump::recover::{
    extract_stream_body, find_subslice, has_candidates, recover_malformed_streams, recovery_banner, StreamRecovery,
};

/// A document with object 3 as a dictionary carrying a (wrong) `/Length`, and
/// its cross-reference offset.
fn doc_with_misparsed(offset: usize, declared_len: i64) -> (PdfDoc, Vec<(u32, usize)>) {
    let d = vec![(b"Length".to_vec(), PdfValue::Integer(declared_len))];
    (PdfDoc { objects: vec![(ObjRef { num: 3, gen: 0 }, PdfValue::Dictionary(d))], trailer: vec![] }, vec![(3, offset)])
}

fn length_of(dict: &Vec<(Vec<u8>, PdfValue)>) -> Option<i64> {
    dict.iter().find(|(k, _)| k == b"Length").and_then(|(_, v)| match v {
        PdfValue::Integer(n) => Some(*n),
        _ => None,
    })
}


#[test]
fn extract_stream_body_returns_none_without_stream() {
    let raw = b"3 0 obj\n<</Type /Foo>>\nendobj\n";
    assert!(extract_stream_body(raw, 0).is_none());
}

#[test]
fn extract_stream_body_handles_offset_past_eof() {
    assert!(extract_stream_body(b"short", 999).is_none());
}

#[test]
fn extract_stream_body_lf_body() {
    let raw = b"3 0 obj\n<</Length 2>>stream\nHELLO WORLD\nendstream\nendobj\n";
    assert_eq!(extract_stream_body(raw, 0).unwrap(), b"HELLO WORLD");
}

#[test]
fn extract_stream_body_crlf_body() {
    let raw = b"3 0 obj\r\n<</Length 1>>stream\r\nq Q\r\nendstream\r\nendobj\r\n";
    assert_eq!(extract_stream_body(raw, 0).unwrap(), b"q Q");
}

#[test]
fn extract_stream_body_does_not_cross_endobj() {
    let raw =
        b"3 0 obj\n<</Length 5>>\nendobj\n4 0 obj\n<</Length 1>>stream\nXX\nendstream\nendobj\n";
    assert!(extract_stream_body(raw, 0).is_none());
}

#[test]
fn extract_stream_body_skips_endstream_tail_and_bad_marker() {
    // `xstream` is not a marker (no white space or `>` before it); the second is
    let raw = b"<</A 1>>xstream\nNO\n>>stream\nYES\nendstream";
    assert_eq!(extract_stream_body(raw, 0).unwrap(), b"YES");
    // a marker not followed by an EOL is no marker
    assert!(extract_stream_body(b">>stream X endstream", 0).is_none());
}

#[test]
fn extract_stream_body_cr_only_before_endstream() {
    let raw = b">>stream\nAB\rendstream";
    assert_eq!(extract_stream_body(raw, 0).unwrap(), b"AB");
    // no endstream at all
    assert!(extract_stream_body(b">>stream\nAB", 0).is_none());
}

#[test]
fn extract_stream_body_from_offset() {
    let raw = b"junk 3 0 obj <<>> stream\nZ\nendstream endobj";
    assert_eq!(extract_stream_body(raw, 5).unwrap(), b"Z");
}

#[test]
fn find_subslice_cases() {
    assert_eq!(find_subslice(b"abcabc", b"ca"), Some(2));
    assert_eq!(find_subslice(b"abc", b""), None);
    assert_eq!(find_subslice(b"ab", b"abc"), None);
    assert_eq!(find_subslice(b"abc", b"abc"), Some(0));
    assert_eq!(find_subslice(b"abc", b"x"), None);
}

#[test]
fn recovers_stream_with_wrong_length() {
    let raw = b"3 0 obj\n<</Length 2>>stream\nHELLO WORLD\nendstream\nendobj\n";
    let (mut doc, offsets) = doc_with_misparsed(0, 2);
    let recs = recover_malformed_streams(&mut doc, raw, &offsets);
    assert_eq!(recs.len(), 1);
    assert_eq!(recs[0].id, ObjRef { num: 3, gen: 0 });
    assert_eq!(recs[0].declared_length, Some(2));
    assert_eq!(recs[0].recovered_length, 11);
    match &doc.objects[0].1 {
        PdfValue::Stream { dict, content } => {
            assert_eq!(content, b"HELLO WORLD");
            assert_eq!(length_of(dict), Some(11));
        },
        _ => panic!("expected promoted Stream"),
    }
}

#[test]
fn recovers_with_crlf_line_endings() {
    let raw = b"3 0 obj\r\n<</Length 1>>stream\r\nq Q\r\nendstream\r\nendobj\r\n";
    let (mut doc, offsets) = doc_with_misparsed(0, 1);
    let recs = recover_malformed_streams(&mut doc, raw, &offsets);
    assert_eq!(recs.len(), 1);
    match &doc.objects[0].1 {
        PdfValue::Stream { content, .. } => assert_eq!(content, b"q Q"),
        _ => panic!("expected promoted Stream"),
    }
}

#[test]
fn leaves_genuine_dictionary_untouched() {
    let raw = b"3 0 obj\n<</Type /Foo /Length 5>>\nendobj\n";
    let (mut doc, offsets) = doc_with_misparsed(0, 5);
    let recs = recover_malformed_streams(&mut doc, raw, &offsets);
    assert!(recs.is_empty());
    assert!(matches!(doc.objects[0].1, PdfValue::Dictionary(_)));
}

#[test]
fn does_not_capture_next_objects_stream() {
    let raw = b"3 0 obj\n<</Length 5>>\nendobj\n4 0 obj\n<</Length 1>>stream\nXX\nendstream\nendobj\n";
    let (mut doc, offsets) = doc_with_misparsed(0, 5);
    let recs = recover_malformed_streams(&mut doc, raw, &offsets);
    assert!(recs.is_empty(), "must not steal object 4's stream");
    assert!(matches!(doc.objects[0].1, PdfValue::Dictionary(_)));
}

#[test]
fn dictionary_without_length_is_not_a_candidate() {
    let d = vec![(b"Type".to_vec(), PdfValue::Name(b"Foo".to_vec()))];
    let mut doc = PdfDoc { objects: vec![(ObjRef { num: 3, gen: 0 }, PdfValue::Dictionary(d))], trailer: vec![] };
    assert!(!has_candidates(&doc));
    let recs = recover_malformed_streams(&mut doc, b"", &vec![]);
    assert!(recs.is_empty());
}

#[test]
fn skips_candidate_without_xref_offset() {
    let raw = b"3 0 obj\n<</Length 2>>stream\nHI\nendstream\nendobj\n";
    let (mut doc, _) = doc_with_misparsed(0, 2);
    let recs = recover_malformed_streams(&mut doc, raw, &vec![]);
    assert!(recs.is_empty());
    assert!(matches!(doc.objects[0].1, PdfValue::Dictionary(_)));
}

#[test]
fn has_candidates_detects_dict_with_length() {
    let (doc, _) = doc_with_misparsed(0, 2);
    assert!(has_candidates(&doc));
}

#[test]
fn banner_is_none_when_nothing_recovered() {
    assert!(recovery_banner(&vec![]).is_none());
}

#[test]
fn banner_states_declared_and_actual_length() {
    let recs = vec![StreamRecovery {
        id: ObjRef { num: 10, gen: 0 },
        offset: 808,
        declared_length: Some(54),
        recovered_length: 58,
    }];
    let banner = recovery_banner(&recs).expect("banner");
    assert!(banner.contains("MALFORMED PDF"));
    assert!(banner.contains("object 10 0"));
    assert!(banner.contains("declared /Length 54"));
    assert!(banner.contains("actual body 58 bytes"));
    assert!(banner.contains("file offset 808"));
}

#[test]
fn banner_lists_absent_length_and_frames() {
    let recs = vec![StreamRecovery { id: ObjRef { num: 4, gen: 1 }, offset: 0, declared_length: None, recovered_length: 3 }];
    let banner = recovery_banner(&recs).unwrap();
    assert!(banner.starts_with(&"=".repeat(60)));
    assert!(banner.contains("  1 content stream(s) declared"));
    assert!(banner.contains("    - object 4 1 (file offset 0): declared /Length absent, actual body 3 bytes\n"));
    assert!(banner.ends_with(&format!("{}\n", "=".repeat(60))));
}

#[test]
fn recovery_keeps_other_entries_and_order() {
    let raw = b"3 0 obj\n<</Filter /FlateDecode /Length 2>>stream\nABC\nendstream\nendobj\n";
    let d = vec![
        (b"Filter".to_vec(), PdfValue::Name(b"FlateDecode".to_vec())),
        (b"Length".to_vec(), PdfValue::Integer(2)),
    ];
    let mut doc = PdfDoc { objects: vec![(ObjRef { num: 3, gen: 0 }, PdfValue::Dictionary(d))], trailer: vec![] };
    let recs = recover_malformed_streams(&mut doc, raw, &vec![(3, 0)]);
    assert_eq!(recs.len(), 1);
    match &doc.objects[0].1 {
        PdfValue::Stream { dict, content } => {
            assert_eq!(content, b"ABC");
            assert_eq!(dict[0].0, b"Filter".to_vec());
            assert_eq!(dict[1].0, b"Length".to_vec());
            assert_eq!(length_of(dict), Some(3));
        },
        _ => panic!("expected promoted Stream"),
    }
}
