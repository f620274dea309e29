use pdf_dump::model::{ObjRef, PdfDoc, PdfValue};
use pdf_dump::stats::{collect_stats, print_stats};

fn id(num: u32, gen: u16) -> ObjRef {
    ObjRef { num, gen }
}

/// A stream as a new one is made, with an optional `/Filter`.
fn make_stream(filter: Option<PdfValue>, content: Vec<u8>) -> PdfValue {
    let mut dict: Vec<(Vec<u8>, PdfValue)> = Vec::new();
    if let Some(f) = filter {
        dict.push((b"Filter".to_vec(), f));
    }
    dict.push((b"Length".to_vec(), PdfValue::Integer(content.len() as i64)));
    PdfValue::Stream { dict, content }
}

fn get(t: &[(String, usize)], k: &str) -> Option<usize> {
    t.iter().find(|e| e.0 == k).map(|e| e.1)
}

fn doc_of(objects: Vec<(ObjRef, PdfValue)>) -> PdfDoc {
    PdfDoc { objects, trailer: Vec::new() }
}

#[test]
fn stats_type_counting() {
    let doc = doc_of(vec![
        (id(1, 0), PdfValue::Integer(42)),
        (id(2, 0), PdfValue::Integer(99)),
        (id(3, 0), PdfValue::Boolean(true)),
    ]);
    let stats = collect_stats(&doc, 0);
    assert_eq!(stats.object_count, 3);
    assert_eq!(get(&stats.type_counts, "Integer").unwrap(), 2);
    assert_eq!(get(&stats.type_counts, "Boolean").unwrap(), 1);
}

#[test]
fn stats_filter_histogram() {
    let doc = doc_of(vec![
        (id(1, 0), make_stream(Some(PdfValue::Name(b"FlateDecode".to_vec())), vec![0; 10])),
        (id(2, 0), make_stream(Some(PdfValue::Name(b"FlateDecode".to_vec())), vec![0; 20])),
        (id(3, 0), make_stream(Some(PdfValue::Name(b"LZWDecode".to_vec())), vec![0; 5])),
    ]);
    let stats = collect_stats(&doc, 0);
    assert_eq!(get(&stats.filter_counts, "FlateDecode").unwrap(), 2);
    assert_eq!(get(&stats.filter_counts, "LZWDecode").unwrap(), 1);
}

#[test]
fn stats_largest_streams_sorted() {
    let doc = doc_of(vec![
        (id(1, 0), make_stream(None, vec![0; 100])),
        (id(2, 0), make_stream(None, vec![0; 500])),
        (id(3, 0), make_stream(None, vec![0; 50])),
    ]);
    let stats = collect_stats(&doc, 0);
    assert_eq!(stats.largest_streams[0].0, id(2, 0));
    assert_eq!(stats.largest_streams[0].1, 500);
    assert_eq!(stats.largest_streams[1].0, id(1, 0));
    assert_eq!(stats.largest_streams[2].0, id(3, 0));
}

#[test]
fn stats_empty_doc() {
    let doc = doc_of(vec![]);
    let stats = collect_stats(&doc, 0);
    assert_eq!(stats.object_count, 0);
    assert_eq!(stats.total_stream_bytes, 0);
    assert!(stats.type_counts.is_empty());
    assert!(stats.filter_counts.is_empty());
    assert!(stats.largest_streams.is_empty());
}

#[test]
fn stats_stream_bytes() {
    let doc = doc_of(vec![
        (id(1, 0), make_stream(None, vec![0; 100])),
        (id(2, 0), make_stream(None, vec![0; 200])),
    ]);
    let stats = collect_stats(&doc, 0);
    assert_eq!(stats.total_stream_bytes, 300);
}

#[test]
fn print_stats_output() {
    let doc = doc_of(vec![(id(1, 0), PdfValue::Integer(42)), (id(2, 0), make_stream(None, vec![0; 50]))]);
    let out = print_stats(&collect_stats(&doc, 0)).join("\n");
    assert!(out.contains("Objects by Type"));
    assert!(out.contains("Stream Statistics"));
}

// ── Further cases ────────────────────────────────────────────────────

#[test]
fn stats_kinds_sorted_and_exact_report() {
    let doc = doc_of(vec![
        (id(1, 0), PdfValue::Name(b"A".to_vec())),
        (id(2, 0), make_stream(Some(PdfValue::Name(b"ASCIIHexDecode".to_vec())), b"414243>".to_vec())),
        (id(3, 0), PdfValue::Array(vec![])),
        (id(4, 0), PdfValue::Name(b"B".to_vec())),
    ]);
    let stats = collect_stats(&doc, 1);
    assert_eq!(stats.page_count, 1);
    assert_eq!(
        stats.type_counts,
        vec![("Array".to_string(), 1), ("Name".to_string(), 2), ("Stream".to_string(), 1)]
    );
    assert_eq!(stats.total_stream_bytes, 7);
    assert_eq!(stats.total_decoded_bytes, 3);
    let lines = print_stats(&stats);
    assert_eq!(
        lines,
        vec![
            "--- Objects by Type ---",
            "  Array          1",
            "  Name           2",
            "  Stream         1",
            "",
            "--- Stream Statistics ---",
            "  Streams:        1",
            "  Total raw:      7 bytes",
            "  Total decoded:  3 bytes",
            "  Filters:",
            "    ASCIIHexDecode       1",
            "",
            "--- Largest Streams (top 1) ---",
            "  Object    2  7 bytes",
        ]
    );
}

#[test]
fn stats_largest_keeps_ten_and_ties_in_order() {
    let objects: Vec<(ObjRef, PdfValue)> =
        (1..=12).map(|n| (id(n, 0), make_stream(None, vec![0; if n % 2 == 0 { 5 } else { 3 }]))).collect();
    let stats = collect_stats(&doc_of(objects), 0);
    assert_eq!(stats.largest_streams.len(), 10);
    let nums: Vec<u32> = stats.largest_streams.iter().map(|e| e.0.num).collect();
    assert_eq!(nums, vec![2, 4, 6, 8, 10, 12, 1, 3, 5, 7]);
}
