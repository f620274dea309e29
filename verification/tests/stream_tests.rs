use pdf_dump::stream::{
    decode_ascii85, decode_asciihex, decode_run_length, decode_stream, format_hex_dump,
    get_filter_names, hex_digit, is_binary_stream, FilterEntry, PdfStream,
};
use std::borrow::Cow;
use std::io::Write;

fn make_stream(filter: Option<FilterEntry>, content: Vec<u8>) -> PdfStream {
    PdfStream { filter, content }
}

fn name(n: &[u8]) -> FilterEntry {
    FilterEntry::Name(n.to_vec())
}

fn names(ns: &[Option<&[u8]>]) -> FilterEntry {
    FilterEntry::Array(ns.iter().map(|n| n.map(|b| b.to_vec())).collect())
}

fn zlib_compress(data: &[u8]) -> Vec<u8> {
    let mut e = flate2::write::ZlibEncoder::new(Vec::new(), flate2::Compression::default());
    e.write_all(data).unwrap();
    e.finish().unwrap()
}

fn lzw_compress(data: &[u8]) -> Vec<u8> {
    let mut encoder = weezl::encode::Encoder::with_tiff_size_switch(weezl::BitOrder::Msb, 8);
    encoder.encode(data).unwrap()
}

#[test]
fn is_binary_stream_empty() {
    assert!(!is_binary_stream(b""));
}

#[test]
fn is_binary_stream_pure_ascii() {
    assert!(!is_binary_stream(b"Hello World"));
}

#[test]
fn is_binary_stream_ascii_with_whitespace_and_punctuation() {
    assert!(!is_binary_stream(b"key = value; foo: bar\n\ttab"));
}

#[test]
fn is_binary_stream_control_chars() {
    assert!(is_binary_stream(&[0x00]));
    assert!(is_binary_stream(&[0x01]));
    assert!(is_binary_stream(b"abc\x02def"));
}

#[test]
fn is_binary_stream_high_bit() {
    assert!(is_binary_stream(&[0xFF]));
    assert!(is_binary_stream(&[0x80]));
}

#[test]
fn is_binary_stream_mixed() {
    let mut data = b"Hello world".to_vec();
    data.push(0x80);
    assert!(is_binary_stream(&data));
}

#[test]
fn decode_stream_no_filter() {
    let stream = make_stream(None, b"raw content".to_vec());
    let (result, _warning) = decode_stream(&stream);
    assert!(matches!(result, Cow::Borrowed(_)));
    assert_eq!(&*result, b"raw content");
}

#[test]
fn decode_stream_flatedecode_name() {
    let compressed = zlib_compress(b"hello pdf");
    let stream = make_stream(Some(name(b"FlateDecode")), compressed);
    let (result, _warning) = decode_stream(&stream);
    assert!(matches!(result, Cow::Owned(_)));
    assert_eq!(&*result, b"hello pdf");
}

#[test]
fn decode_stream_flatedecode_in_array() {
    let compressed = zlib_compress(b"array filter");
    let stream = make_stream(Some(names(&[Some(b"FlateDecode")])), compressed);
    let (result, _warning) = decode_stream(&stream);
    assert!(matches!(result, Cow::Owned(_)));
    assert_eq!(&*result, b"array filter");
}

#[test]
fn decode_stream_unknown_filter() {
    let stream = make_stream(Some(name(b"DCTDecode")), b"jpeg data".to_vec());
    let (result, warning) = decode_stream(&stream);
    assert_eq!(&*result, b"jpeg data");
    assert!(warning.is_some(), "Unknown filter should produce a warning");
    assert!(warning.unwrap().contains("unsupported filter: DCTDecode"));
}

#[test]
fn decode_stream_corrupt_flatedecode() {
    let stream = make_stream(Some(name(b"FlateDecode")), b"not valid zlib".to_vec());
    let (result, warning) = decode_stream(&stream);
    // Falls back to original content with warning
    assert_eq!(&*result, b"not valid zlib");
    assert!(warning.is_some(), "Corrupt FlateDecode should produce a warning");
    assert!(warning.unwrap().contains("FlateDecode decompression failed"));
}

#[test]
fn decode_stream_valid_flatedecode_no_warning() {
    let compressed = zlib_compress(b"hello pdf");
    let stream = make_stream(Some(name(b"FlateDecode")), compressed);
    let (result, warning) = decode_stream(&stream);
    assert!(matches!(result, Cow::Owned(_)));
    assert_eq!(&*result, b"hello pdf");
    assert!(warning.is_none(), "Valid FlateDecode should produce no warning");
}

#[test]
fn decode_stream_no_filter_no_warning() {
    let stream = make_stream(None, b"raw content".to_vec());
    let (_result, warning) = decode_stream(&stream);
    assert!(warning.is_none(), "No filter should produce no warning");
}

#[test]
fn decode_ascii85_basic() {
    let result = decode_ascii85(b"87cURDZ~>").unwrap();
    assert_eq!(result, b"Hello");
}

#[test]
fn decode_ascii85_z_shortcut() {
    // 'z' represents four zero bytes
    let result = decode_ascii85(b"z~>").unwrap();
    assert_eq!(result, vec![0, 0, 0, 0]);
}

#[test]
fn decode_ascii85_with_whitespace() {
    let result = decode_ascii85(b"87cUR DZ~>").unwrap();
    assert_eq!(result, b"Hello");
}

#[test]
fn decode_ascii85_no_eod_marker() {
    let result = decode_ascii85(b"87cURDZ").unwrap();
    assert_eq!(result, b"Hello");
}

#[test]
fn decode_ascii85_with_prefix() {
    let result = decode_ascii85(b"<~87cURDZ~>").unwrap();
    assert_eq!(result, b"Hello");
}

#[test]
fn decode_ascii85_invalid_char() {
    let result = decode_ascii85(b"\x01abc");
    assert!(result.is_err());
}

#[test]
fn decode_ascii85_stream() {
    let stream = make_stream(Some(name(b"ASCII85Decode")), b"87cURDZ~>".to_vec());
    let (result, warning) = decode_stream(&stream);
    assert_eq!(&*result, b"Hello");
    assert!(warning.is_none());
}

#[test]
fn decode_asciihex_basic() {
    let result = decode_asciihex(b"48656c6c6f>").unwrap();
    assert_eq!(result, b"Hello");
}

#[test]
fn decode_asciihex_uppercase() {
    let result = decode_asciihex(b"48656C6C6F>").unwrap();
    assert_eq!(result, b"Hello");
}

#[test]
fn decode_asciihex_with_whitespace() {
    let result = decode_asciihex(b"48 65 6c 6c 6f>").unwrap();
    assert_eq!(result, b"Hello");
}

#[test]
fn decode_asciihex_odd_digits() {
    // Trailing single digit padded with 0
    let result = decode_asciihex(b"4>").unwrap();
    assert_eq!(result, vec![0x40]);
}

#[test]
fn decode_asciihex_no_eod_marker() {
    let result = decode_asciihex(b"48656c6c6f").unwrap();
    assert_eq!(result, b"Hello");
}

#[test]
fn decode_asciihex_invalid_char() {
    let result = decode_asciihex(b"4G>");
    assert!(result.is_err());
}

#[test]
fn decode_asciihex_stream() {
    let stream = make_stream(Some(name(b"ASCIIHexDecode")), b"48656c6c6f>".to_vec());
    let (result, warning) = decode_stream(&stream);
    assert_eq!(&*result, b"Hello");
    assert!(warning.is_none());
}

#[test]
fn decode_lzw_stream_via_decode_stream() {
    let original = b"Hello from LZW";
    let compressed = lzw_compress(original);
    let stream = make_stream(Some(name(b"LZWDecode")), compressed);
    let (result, warning) = decode_stream(&stream);
    assert_eq!(&*result, original.as_slice());
    assert!(warning.is_none());
}

#[test]
fn decode_run_length_literal_run() {
    // Length byte 4 → copy next 5 bytes literally
    let data = vec![4, b'H', b'e', b'l', b'l', b'o', 128];
    let result = decode_run_length(&data).unwrap();
    assert_eq!(result, b"Hello");
}

#[test]
fn decode_run_length_repeat_run() {
    // Length byte 254 → repeat next byte (257-254)=3 times
    let data = vec![254, b'A', 128];
    let result = decode_run_length(&data).unwrap();
    assert_eq!(result, b"AAA");
}

#[test]
fn decode_run_length_mixed() {
    // Literal "Hi" (length=1, 2 bytes) then repeat 'X' 4 times (length=253, 257-253=4)
    let data = vec![1, b'H', b'i', 253, b'X', 128];
    let result = decode_run_length(&data).unwrap();
    assert_eq!(result, b"HiXXXX");
}

#[test]
fn decode_run_length_eod_marker() {
    // EOD (128) stops processing
    let data = vec![0, b'A', 128, 0, b'B'];
    let result = decode_run_length(&data).unwrap();
    assert_eq!(result, b"A");
}

#[test]
fn decode_run_length_truncated_literal() {
    // Length byte says 2 bytes but only 1 available
    let data = vec![1, b'A'];
    let result = decode_run_length(&data);
    assert!(result.is_err());
    assert!(result.unwrap_err().contains("truncated literal run"));
}

#[test]
fn decode_run_length_truncated_repeat() {
    // Repeat run with no byte following
    let data = vec![255];
    let result = decode_run_length(&data);
    assert!(result.is_err());
    assert!(result.unwrap_err().contains("truncated repeat run"));
}

#[test]
fn decode_run_length_empty_input() {
    let result = decode_run_length(b"").unwrap();
    assert!(result.is_empty());
}

#[test]
fn decode_run_length_stream_via_decode_stream() {
    let data = vec![4, b'H', b'e', b'l', b'l', b'o', 128];
    let stream = make_stream(Some(name(b"RunLengthDecode")), data);
    let (result, warning) = decode_stream(&stream);
    assert_eq!(&*result, b"Hello");
    assert!(warning.is_none());
}

#[test]
fn decode_stream_pipeline_asciihex_then_flatedecode() {
    // Compress with FlateDecode, then hex-encode
    let compressed = zlib_compress(b"pipeline test");
    let hex_encoded: String = compressed.iter().map(|b| format!("{:02x}", b)).collect();
    let hex_bytes = format!("{}>", hex_encoded);
    // Filter order: ASCIIHexDecode first, then FlateDecode
    let stream = make_stream(
        Some(names(&[Some(b"ASCIIHexDecode"), Some(b"FlateDecode")])),
        hex_bytes.into_bytes(),
    );
    let (result, warning) = decode_stream(&stream);
    assert_eq!(&*result, b"pipeline test");
    assert!(warning.is_none());
}

#[test]
fn decode_stream_pipeline_stops_on_unsupported() {
    // First filter unsupported → stops immediately
    let stream = make_stream(
        Some(names(&[Some(b"JBIG2Decode"), Some(b"FlateDecode")])),
        b"data".to_vec(),
    );
    let (result, warning) = decode_stream(&stream);
    assert_eq!(&*result, b"data");
    assert!(warning.is_some());
    assert!(warning.unwrap().contains("unsupported filter: JBIG2Decode"));
}

#[test]
fn decode_stream_pipeline_stops_on_failure() {
    // FlateDecode with corrupt data → stops with warning
    let stream = make_stream(
        Some(names(&[Some(b"FlateDecode"), Some(b"ASCIIHexDecode")])),
        b"not valid zlib".to_vec(),
    );
    let (result, warning) = decode_stream(&stream);
    assert_eq!(&*result, b"not valid zlib");
    assert!(warning.is_some());
    assert!(warning.unwrap().contains("FlateDecode"));
}

#[test]
fn is_binary_stream_del_char() {
    // DEL (0x7F) is not alphanumeric, not whitespace, not punctuation → binary
    assert!(is_binary_stream(&[0x7F]));
}

#[test]
fn is_binary_stream_punctuation_only() {
    assert!(!is_binary_stream(b"!@#$%^&*(){}[]"));
}

#[test]
fn is_binary_stream_whitespace_only() {
    assert!(!is_binary_stream(b"   \t\n\r"));
}

#[test]
fn is_binary_stream_all_allowed_types_combined() {
    // Alphanumeric + whitespace + punctuation → not binary
    assert!(!is_binary_stream(b"abc 123\n!@#"));
}

#[test]
fn is_binary_stream_single_null_among_ascii() {
    // Even one null byte makes it binary
    assert!(is_binary_stream(b"abc\x00def"));
}

#[test]
fn decode_stream_empty_content_no_filter() {
    let stream = make_stream(None, vec![]);
    let (result, _warning) = decode_stream(&stream);
    assert!(matches!(result, Cow::Borrowed(_)));
    assert_eq!(&*result, b"");
}

#[test]
fn decode_stream_filter_is_integer_ignored() {
    // Filter that's neither Name nor Array → treated as no filter
    let stream = make_stream(Some(FilterEntry::Other), b"raw bytes".to_vec());
    let (result, _warning) = decode_stream(&stream);
    assert!(matches!(result, Cow::Borrowed(_)));
    assert_eq!(&*result, b"raw bytes");
}

#[test]
fn decode_stream_multiple_filters_pipeline() {
    // Pipeline: FlateDecode then ASCIIHexDecode (hex of "Hello" = "48656c6c6f>")
    let compressed = zlib_compress(b"48656c6c6f>");
    let stream = make_stream(
        Some(names(&[Some(b"FlateDecode"), Some(b"ASCIIHexDecode")])),
        compressed,
    );
    let (result, warning) = decode_stream(&stream);
    assert_eq!(&*result, b"Hello");
    assert!(warning.is_none());
}

#[test]
fn decode_stream_array_with_unsupported_filter() {
    // Pipeline with an unsupported filter stops and returns warning
    let stream = make_stream(
        Some(names(&[Some(b"DCTDecode"), Some(b"FlateDecode")])),
        b"pass through".to_vec(),
    );
    let (result, warning) = decode_stream(&stream);
    assert_eq!(&*result, b"pass through");
    assert!(warning.is_some(), "Unsupported filter should produce warning");
    assert!(warning.unwrap().contains("unsupported filter: DCTDecode"));
}

#[test]
fn decode_stream_empty_filter_array() {
    let stream = make_stream(Some(names(&[])), b"no filters".to_vec());
    let (result, _warning) = decode_stream(&stream);
    assert!(matches!(result, Cow::Borrowed(_)));
    assert_eq!(&*result, b"no filters");
}

#[test]
fn decode_stream_flatedecode_empty_payload() {
    // Compressed empty content
    let compressed = zlib_compress(b"");
    let stream = make_stream(Some(name(b"FlateDecode")), compressed);
    let (result, _warning) = decode_stream(&stream);
    assert!(matches!(result, Cow::Owned(_)));
    assert_eq!(&*result, b"");
}

#[test]
fn decode_stream_filter_array_with_non_name_elements() {
    // Array with a non-Name object (e.g., Integer) mixed in → filter_map skips it
    let compressed = zlib_compress(b"mixed types");
    let stream = make_stream(Some(names(&[None, Some(b"FlateDecode")])), compressed);
    let (result, _warning) = decode_stream(&stream);
    assert!(matches!(result, Cow::Owned(_)));
    assert_eq!(&*result, b"mixed types");
}

#[test]
fn decode_stream_filter_array_all_non_name() {
    // Array where no elements are Names → empty filter list → no decode
    let stream = make_stream(Some(names(&[None, None])), b"raw data".to_vec());
    let (result, _warning) = decode_stream(&stream);
    assert!(matches!(result, Cow::Borrowed(_)));
    assert_eq!(&*result, b"raw data");
}

#[test]
fn decode_stream_large_content() {
    // Verify decompression works for larger payloads
    let large: Vec<u8> = (0..10000).map(|i| (i % 256) as u8).collect();
    let compressed = zlib_compress(&large);
    let stream = make_stream(Some(name(b"FlateDecode")), compressed);
    let (result, _warning) = decode_stream(&stream);
    assert!(matches!(result, Cow::Owned(_)));
    assert_eq!(&*result, &large[..]);
}

#[test]
fn is_binary_stream_unit_separator() {
    // 0x1F is a control char, not alphanumeric/whitespace/punctuation → binary
    assert!(is_binary_stream(&[0x1F]));
}

#[test]
fn is_binary_stream_tilde_is_punctuation() {
    // 0x7E (~) is ASCII punctuation → not binary
    assert!(!is_binary_stream(b"~"));
}

#[test]
fn is_binary_stream_tab_only() {
    // Tab (0x09) is ASCII whitespace
    assert!(!is_binary_stream(b"\t"));
}

#[test]
fn is_binary_stream_escape_char() {
    // 0x1B (ESC) is a control char → binary
    assert!(is_binary_stream(&[0x1B]));
}

#[test]
fn format_hex_dump_empty() {
    assert_eq!(format_hex_dump(&[]), "");
}

#[test]
fn format_hex_dump_partial_line() {
    let data = b"Hello";
    let result = format_hex_dump(data);
    assert!(result.starts_with("00000000  "));
    assert!(result.contains("|Hello|"));
}

#[test]
fn format_hex_dump_full_line() {
    let data: Vec<u8> = (0..16).collect();
    let result = format_hex_dump(&data);
    assert!(result.starts_with("00000000  "));
    // First 8 bytes, then space, then next 8 bytes
    assert!(result.contains("00 01 02 03 04 05 06 07  08 09 0a 0b 0c 0d 0e 0f"));
}

#[test]
fn format_hex_dump_multi_line() {
    let data: Vec<u8> = (0..20).collect();
    let result = format_hex_dump(&data);
    let lines: Vec<&str> = result.lines().collect();
    assert_eq!(lines.len(), 2);
    assert!(lines[0].starts_with("00000000  "));
    assert!(lines[1].starts_with("00000010  "));
}

#[test]
fn format_hex_dump_ascii_repr() {
    let data = b"AB\x00\xff";
    let result = format_hex_dump(data);
    assert!(result.contains("|AB..|"));
}

#[test]
fn format_hex_dump_exactly_8_bytes() {
    let data: Vec<u8> = (0..8).collect();
    let result = format_hex_dump(&data);
    // After the 8th byte (index 7), there's an extra space before padding
    assert!(result.contains("00 01 02 03 04 05 06 07 "));
    assert!(result.contains("|........|"));
}

#[test]
fn format_hex_dump_exactly_9_bytes() {
    let data: Vec<u8> = (0..9).collect();
    let result = format_hex_dump(&data);
    // The 9th byte (08) should be after the extra space
    assert!(result.contains("00 01 02 03 04 05 06 07  08"));
}

#[test]
fn format_hex_dump_17_bytes_two_lines() {
    let data: Vec<u8> = (0..17).collect();
    let result = format_hex_dump(&data);
    let lines: Vec<&str> = result.lines().collect();
    assert_eq!(lines.len(), 2);
    // First line is full 16 bytes
    assert!(lines[0].starts_with("00000000  "));
    // Second line has just 1 byte
    assert!(lines[1].starts_with("00000010  "));
    assert!(lines[1].contains("10 "));
}

#[test]
fn format_hex_dump_exactly_32_bytes_two_full_lines() {
    let data: Vec<u8> = (0..32).collect();
    let result = format_hex_dump(&data);
    let lines: Vec<&str> = result.lines().collect();
    assert_eq!(lines.len(), 2);
    assert!(lines[0].starts_with("00000000  "));
    assert!(lines[1].starts_with("00000010  "));
}

#[test]
fn format_hex_dump_space_is_printable() {
    let data = b"A B";
    let result = format_hex_dump(data);
    // Space (0x20) should show as space in ASCII column
    assert!(result.contains("|A B|"));
}

#[test]
fn format_hex_dump_all_non_printable() {
    let data: Vec<u8> = vec![0x00, 0x01, 0x02, 0x7F, 0x80, 0xFF];
    let result = format_hex_dump(&data);
    // All non-printable/non-space bytes → dots
    assert!(result.contains("|......|"));
}

#[test]
fn format_hex_dump_large_offset() {
    // 256+ bytes to verify offset goes beyond 0x0ff
    let data: Vec<u8> = (0..=255).cycle().take(272).collect();
    let result = format_hex_dump(&data);
    let lines: Vec<&str> = result.lines().collect();
    assert_eq!(lines.len(), 17); // 272 / 16 = 17
    assert!(lines[16].starts_with("00000100  ")); // offset 256
}

#[test]
fn decode_stream_jpxdecode_unsupported() {
    let stream = make_stream(Some(name(b"JPXDecode")), b"jpeg2000 data".to_vec());
    let (result, warning) = decode_stream(&stream);
    assert_eq!(&*result, b"jpeg2000 data");
    assert!(warning.is_some());
    assert!(warning.unwrap().contains("unsupported filter: JPXDecode"));
}

#[test]
fn decode_stream_ccittfaxdecode_unsupported() {
    let stream = make_stream(Some(name(b"CCITTFaxDecode")), b"fax data".to_vec());
    let (result, warning) = decode_stream(&stream);
    assert_eq!(&*result, b"fax data");
    assert!(warning.is_some());
    assert!(warning.unwrap().contains("unsupported filter: CCITTFaxDecode"));
}

#[test]
fn decode_stream_triple_pipeline_asciihex_flate_ascii85() {
    // Decode order: ASCIIHexDecode -> FlateDecode -> ASCII85Decode
    let original = b"Hello";
    let ascii85_encoded = b"87cURDZ~>";
    let flate_compressed = zlib_compress(ascii85_encoded);
    let hex_encoded: String = flate_compressed.iter().map(|b| format!("{:02x}", b)).collect();
    let hex_bytes = format!("{}>", hex_encoded);
    let stream = make_stream(
        Some(names(&[
            Some(b"ASCIIHexDecode"),
            Some(b"FlateDecode"),
            Some(b"ASCII85Decode"),
        ])),
        hex_bytes.into_bytes(),
    );
    let (result, warning) = decode_stream(&stream);
    assert_eq!(&*result, original.as_slice(), "3-stage pipeline should decode correctly");
    assert!(warning.is_none(), "No warning expected for supported pipeline");
}

#[test]
fn decode_stream_pipeline_unsupported_in_middle() {
    let compressed = zlib_compress(b"some data");
    let stream = make_stream(
        Some(names(&[Some(b"FlateDecode"), Some(b"DCTDecode"), Some(b"ASCIIHexDecode")])),
        compressed,
    );
    let (result, warning) = decode_stream(&stream);
    assert_eq!(&*result, b"some data", "Should get FlateDecode result before stopping");
    assert!(warning.is_some());
    assert!(warning.unwrap().contains("unsupported filter: DCTDecode"));
}

#[test]
fn decode_stream_pipeline_corrupt_at_second_stage() {
    let stream = make_stream(
        Some(names(&[Some(b"ASCIIHexDecode"), Some(b"FlateDecode")])),
        b"48656c6c6f>".to_vec(), // hex("Hello") -> "Hello" is not valid zlib
    );
    let (result, warning) = decode_stream(&stream);
    assert_eq!(&*result, b"Hello", "Should return intermediate result");
    assert!(warning.is_some());
    assert!(warning.unwrap().contains("FlateDecode decompression failed"));
}

fn ascii85_encode(data: &[u8]) -> Vec<u8> {
    let mut result = Vec::new();
    result.extend_from_slice(b"<~");
    for chunk in data.chunks(4) {
        if chunk.len() == 4 {
            let value = u32::from_be_bytes([chunk[0], chunk[1], chunk[2], chunk[3]]);
            if value == 0 {
                result.push(b'z');
            } else {
                let mut digits = [0u8; 5];
                let mut v = value as u64;
                for d in digits.iter_mut().rev() {
                    *d = (v % 85) as u8 + b'!';
                    v /= 85;
                }
                result.extend_from_slice(&digits);
            }
        } else {
            let mut padded = [0u8; 4];
            padded[..chunk.len()].copy_from_slice(chunk);
            let value = u32::from_be_bytes(padded);
            let mut digits = [0u8; 5];
            let mut v = value as u64;
            for d in digits.iter_mut().rev() {
                *d = (v % 85) as u8 + b'!';
                v /= 85;
            }
            result.extend_from_slice(&digits[..chunk.len() + 1]);
        }
    }
    result.extend_from_slice(b"~>");
    result
}

#[test]
fn decode_stream_pipeline_ascii85_then_lzw() {
    let original = b"Hello LZW";
    let lzw_compressed = lzw_compress(original);
    let ascii85_data = ascii85_encode(&lzw_compressed);
    let stream = make_stream(
        Some(names(&[Some(b"ASCII85Decode"), Some(b"LZWDecode")])),
        ascii85_data,
    );
    let (result, warning) = decode_stream(&stream);
    assert_eq!(&*result, original.as_slice(), "ASCII85+LZW pipeline should decode");
    assert!(warning.is_none());
}

#[test]
fn decode_stream_pipeline_lzw_then_asciihex() {
    let original = b"LZW+hex";
    let hex_encoded: String = original.iter().map(|b| format!("{:02x}", b)).collect();
    let hex_bytes = format!("{}>", hex_encoded);
    let lzw_compressed = lzw_compress(hex_bytes.as_bytes());
    let stream = make_stream(
        Some(names(&[Some(b"LZWDecode"), Some(b"ASCIIHexDecode")])),
        lzw_compressed,
    );
    let (result, warning) = decode_stream(&stream);
    assert_eq!(&*result, original.as_slice(), "LZW+ASCIIHex pipeline should decode");
    assert!(warning.is_none());
}

#[test]
fn decode_ascii85_empty_input() {
    let result = decode_ascii85(b"~>").unwrap();
    assert!(result.is_empty(), "Empty ASCII85 should produce empty output");
}

#[test]
fn decode_ascii85_empty_with_prefix() {
    let result = decode_ascii85(b"<~~>").unwrap();
    assert!(result.is_empty());
}

#[test]
fn decode_ascii85_multiple_z() {
    let result = decode_ascii85(b"zzz~>").unwrap();
    assert_eq!(result, vec![0u8; 12], "Three z's should produce 12 zero bytes");
}

#[test]
fn decode_ascii85_partial_group() {
    // 2-char group: "!!" = value 0 -> pad to "!!uuu" -> output 1 byte
    let result = decode_ascii85(b"!!~>").unwrap();
    assert_eq!(result.len(), 1);
}

#[test]
fn decode_ascii85_three_char_group() {
    let result = decode_ascii85(b"!!!~>").unwrap();
    assert_eq!(result.len(), 2);
}

#[test]
fn decode_ascii85_four_char_group() {
    let result = decode_ascii85(b"!!!!~>").unwrap();
    assert_eq!(result.len(), 3);
}

#[test]
fn decode_asciihex_empty_input() {
    let result = decode_asciihex(b">").unwrap();
    assert!(result.is_empty(), "Empty hex should produce empty output");
}

#[test]
fn decode_asciihex_empty_no_marker() {
    let result = decode_asciihex(b"").unwrap();
    assert!(result.is_empty());
}

#[test]
fn decode_asciihex_single_byte() {
    let result = decode_asciihex(b"FF>").unwrap();
    assert_eq!(result, vec![0xFF]);
}

#[test]
fn decode_asciihex_mixed_case() {
    let result = decode_asciihex(b"aAbBcC>").unwrap();
    assert_eq!(result, vec![0xAA, 0xBB, 0xCC]);
}

#[test]
fn format_hex_dump_high_bytes_show_as_dots() {
    let data: Vec<u8> = (0x80..0x84).collect();
    let result = format_hex_dump(&data);
    assert!(result.contains("80 81 82 83"));
    assert!(result.contains("|....|"), "High bytes should be dots: {}", result);
}

#[test]
fn format_hex_dump_mixed_printable_and_non() {
    let data = b"Hi\x00\x01\x02";
    let result = format_hex_dump(data);
    assert!(result.contains("|Hi...|"), "Mixed content ASCII representation: {}", result);
}

#[test]
fn get_filter_names_no_filter_key() {
    let stream = make_stream(None, vec![]);
    assert!(get_filter_names(&stream).is_empty());
}

#[test]
fn get_filter_names_single_name() {
    let stream = make_stream(Some(name(b"FlateDecode")), vec![]);
    let names = get_filter_names(&stream);
    assert_eq!(names.len(), 1);
    assert_eq!(names[0], b"FlateDecode");
}

#[test]
fn get_filter_names_array_of_names() {
    let stream = make_stream(Some(names(&[Some(b"ASCIIHexDecode"), Some(b"FlateDecode")])), vec![]);
    let names = get_filter_names(&stream);
    assert_eq!(names.len(), 2);
    assert_eq!(names[0], b"ASCIIHexDecode");
    assert_eq!(names[1], b"FlateDecode");
}

#[test]
fn get_filter_names_non_name_filter() {
    let stream = make_stream(Some(FilterEntry::Other), vec![]);
    assert!(get_filter_names(&stream).is_empty());
}

#[test]
fn get_filter_names_mixed_array() {
    let stream = make_stream(
        Some(names(&[Some(b"FlateDecode"), None, Some(b"LZWDecode")])),
        vec![],
    );
    let names = get_filter_names(&stream);
    assert_eq!(names.len(), 2);
    assert_eq!(names[0], b"FlateDecode");
    assert_eq!(names[1], b"LZWDecode");
}

// ── further cases ──────────────────────────────────────────────────

#[test]
fn hex_digit_values() {
    assert_eq!(hex_digit(b'0'), Some(0));
    assert_eq!(hex_digit(b'9'), Some(9));
    assert_eq!(hex_digit(b'a'), Some(10));
    assert_eq!(hex_digit(b'F'), Some(15));
    assert_eq!(hex_digit(b'g'), None);
    assert_eq!(hex_digit(b'/'), None);
}

#[test]
fn decode_error_messages_exact() {
    assert_eq!(decode_ascii85(b"\x01abc").unwrap_err(), "ASCII85Decode: invalid character 0x01");
    assert_eq!(decode_ascii85(b"abz").unwrap_err(), "ASCII85Decode: invalid character 0x7a");
    assert_eq!(decode_asciihex(b"4G>").unwrap_err(), "ASCIIHexDecode: invalid hex character 0x47");
    assert_eq!(decode_asciihex(b"Z").unwrap_err(), "ASCIIHexDecode: invalid hex character 0x5a");
    assert_eq!(decode_run_length(&[1, 0]).unwrap_err(), "RunLengthDecode: truncated literal run");
    assert_eq!(decode_run_length(&[200]).unwrap_err(), "RunLengthDecode: truncated repeat run");
}

#[test]
fn decode_ascii85_overflowing_group_keeps_low_bytes() {
    // "uuuuu" is 85^5 - 1, beyond 32 bits; the low four bytes are kept
    let value: u64 = 85u64.pow(5) - 1;
    let low = (value as u32).to_be_bytes();
    assert_eq!(decode_ascii85(b"uuuuu").unwrap(), low.to_vec());
}

#[test]
fn decode_run_length_repeat_lengths() {
    assert_eq!(decode_run_length(&[129, 7]).unwrap(), vec![7u8; 128]);
    assert_eq!(decode_run_length(&[255, 7]).unwrap(), vec![7u8; 2]);
    assert_eq!(decode_run_length(&[127]).unwrap_err(), "RunLengthDecode: truncated literal run");
}

#[test]
fn format_hex_dump_exact_line() {
    assert_eq!(
        format_hex_dump(b"Hi"),
        "00000000  48 69                                             |Hi|\n"
    );
    let full: Vec<u8> = (0x41..0x51).collect();
    assert_eq!(
        format_hex_dump(&full),
        "00000000  41 42 43 44 45 46 47 48  49 4a 4b 4c 4d 4e 4f 50  |ABCDEFGHIJKLMNOP|\n"
    );
}

#[test]
fn decode_stream_lzw_failure_warns() {
    // a code beyond the table is an LZW error
    let stream = make_stream(Some(name(b"LZWDecode")), vec![0xff, 0xff, 0xff]);
    let (result, warning) = decode_stream(&stream);
    assert_eq!(&*result, &[0xff, 0xff, 0xff]);
    assert!(warning.unwrap().starts_with("LZWDecode: "));
}

#[test]
fn decode_stream_lossy_name_in_warning() {
    let stream = make_stream(Some(name(b"Bad\xffName")), b"x".to_vec());
    let (_result, warning) = decode_stream(&stream);
    assert_eq!(warning.unwrap(), "unsupported filter: Bad\u{FFFD}Name");
}

fn lzw_through_filter(data: &[u8]) -> (Vec<u8>, Option<String>) {
    let stream = make_stream(Some(name(b"LZWDecode")), data.to_vec());
    let (result, warning) = decode_stream(&stream);
    (result.to_vec(), warning)
}

#[test]
fn decode_lzw_stream_unsupported_returns_error_or_data() {
    let original = b"AAABBBCCC";
    let (result, warning) = lzw_through_filter(&lzw_compress(original));
    assert!(warning.is_none());
    assert_eq!(result, original);
}

#[test]
fn decode_lzw_corrupt_data_returns_error() {
    let _ = lzw_through_filter(b"");
}

#[test]
fn decode_lzw_single_byte_input() {
    let original = b"A";
    let (result, warning) = lzw_through_filter(&lzw_compress(original));
    assert!(warning.is_none());
    assert_eq!(result, original.as_slice());
}

#[test]
fn decode_lzw_repeated_data() {
    let original: Vec<u8> = vec![b'X'; 1000];
    let (result, warning) = lzw_through_filter(&lzw_compress(&original));
    assert!(warning.is_none());
    assert_eq!(result, original);
}
