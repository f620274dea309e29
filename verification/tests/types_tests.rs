use pdf_dump::types::{
    parse_object_spec, Args, DetailSub, DocMode, DumpConfig, PageSpec, ResolvedMode,
    StandaloneMode,
};

fn args() -> Args {
    let mut a = Args::default();
    a.file = "test.pdf".to_string();
    a
}

#[test]
fn page_spec_parse_single() {
    let spec = PageSpec::parse("5").unwrap();
    assert!(matches!(spec, PageSpec::Single(5)));
}

#[test]
fn page_spec_parse_range() {
    let spec = PageSpec::parse("1-5").unwrap();
    assert!(matches!(spec, PageSpec::Range(1, 5)));
}

#[test]
fn page_spec_parse_invalid() {
    assert!(PageSpec::parse("abc").is_err());
    assert!(PageSpec::parse("0").is_err());
    assert!(PageSpec::parse("5-3").is_err()); // start > end
    assert!(PageSpec::parse("0-5").is_err()); // zero
    assert!(PageSpec::parse("1-0").is_err()); // zero
}

#[test]
fn page_spec_parse_open_range() {
    let spec = PageSpec::parse("5-").unwrap();
    assert!(matches!(spec, PageSpec::OpenRange(5)));

    let spec = PageSpec::parse(" 2 - ").unwrap();
    assert!(matches!(spec, PageSpec::OpenRange(2)));
}

#[test]
fn page_spec_parse_open_range_invalid() {
    assert!(PageSpec::parse("0-").is_err());
    assert!(PageSpec::parse("-").is_err());
}

#[test]
fn page_spec_open_range_contains() {
    let spec = PageSpec::OpenRange(3);
    assert!(!spec.contains(1));
    assert!(!spec.contains(2));
    assert!(spec.contains(3));
    assert!(spec.contains(100));
}

#[test]
fn page_spec_open_range_pages_empty() {
    // OpenRange::pages() returns empty — callers must use contains() with doc context.
    let spec = PageSpec::OpenRange(5);
    assert!(spec.pages().is_empty());
}

#[test]
fn page_spec_contains() {
    let single = PageSpec::Single(3);
    assert!(single.contains(3));
    assert!(!single.contains(4));

    let range = PageSpec::Range(2, 5);
    assert!(!range.contains(1));
    assert!(range.contains(2));
    assert!(range.contains(3));
    assert!(range.contains(5));
    assert!(!range.contains(6));
}

#[test]
fn page_spec_pages() {
    let single = PageSpec::Single(3);
    assert_eq!(single.pages(), vec![3]);

    let range = PageSpec::Range(2, 5);
    assert_eq!(range.pages(), vec![2, 3, 4, 5]);
}

#[test]
fn parse_object_spec_single() {
    let result = parse_object_spec("5").unwrap();
    assert_eq!(result, vec![5]);
}

#[test]
fn parse_object_spec_multiple() {
    let result = parse_object_spec("1,5,12").unwrap();
    assert_eq!(result, vec![1, 5, 12]);
}

#[test]
fn parse_object_spec_range() {
    let result = parse_object_spec("3-7").unwrap();
    assert_eq!(result, vec![3, 4, 5, 6, 7]);
}

#[test]
fn parse_object_spec_mixed() {
    let result = parse_object_spec("1,5,10-12").unwrap();
    assert_eq!(result, vec![1, 5, 10, 11, 12]);
}

#[test]
fn parse_object_spec_invalid() {
    assert!(parse_object_spec("abc").is_err());
    assert!(parse_object_spec("").is_err());
    assert!(parse_object_spec("5-3").is_err());
}

#[test]
fn page_spec_parse_whitespace() {
    let spec = PageSpec::parse("  5  ").unwrap();
    assert!(matches!(spec, PageSpec::Single(5)));

    let spec = PageSpec::parse(" 1 - 3 ").unwrap();
    assert!(matches!(spec, PageSpec::Range(1, 3)));
}

#[test]
fn page_spec_parse_single_page_boundary() {
    // Minimum valid page
    let spec = PageSpec::parse("1").unwrap();
    assert!(matches!(spec, PageSpec::Single(1)));

    // Large page number
    let spec = PageSpec::parse("999999").unwrap();
    assert!(matches!(spec, PageSpec::Single(999999)));
}

#[test]
fn page_spec_parse_same_start_end_range() {
    // Range where start == end is valid (equivalent to single)
    let spec = PageSpec::parse("5-5").unwrap();
    assert!(matches!(spec, PageSpec::Range(5, 5)));
    assert_eq!(spec.pages(), vec![5]);
}

#[test]
fn page_spec_error_messages() {
    let err = PageSpec::parse("abc").unwrap_err();
    assert!(err.contains("Invalid page number"), "got: {}", err);

    let err = PageSpec::parse("0").unwrap_err();
    assert!(err.contains(">= 1"), "got: {}", err);

    let err = PageSpec::parse("5-3").unwrap_err();
    assert!(err.contains("5 > 3"), "got: {}", err);

    let err = PageSpec::parse("a-5").unwrap_err();
    assert!(err.contains("Invalid page range start"), "got: {}", err);

    let err = PageSpec::parse("1-b").unwrap_err();
    assert!(err.contains("Invalid page range end"), "got: {}", err);
}

#[test]
fn page_spec_contains_boundary() {
    let range = PageSpec::Range(1, 1);
    assert!(range.contains(1));
    assert!(!range.contains(0));
    assert!(!range.contains(2));
}

#[test]
fn parse_object_spec_deduplicates() {
    let result = parse_object_spec("1,1,5,5").unwrap();
    assert_eq!(result, vec![1, 5]);
}

#[test]
fn parse_object_spec_sorts() {
    let result = parse_object_spec("10,5,1").unwrap();
    assert_eq!(result, vec![1, 5, 10]);
}

#[test]
fn parse_object_spec_trailing_comma() {
    // Empty parts from trailing comma should be skipped
    let result = parse_object_spec("1,5,").unwrap();
    assert_eq!(result, vec![1, 5]);
}

#[test]
fn parse_object_spec_whitespace() {
    let result = parse_object_spec(" 1 , 5 , 10 - 12 ").unwrap();
    assert_eq!(result, vec![1, 5, 10, 11, 12]);
}

#[test]
fn parse_object_spec_overlap_deduped() {
    // Ranges that overlap should be deduped
    let result = parse_object_spec("1-3,2-4").unwrap();
    assert_eq!(result, vec![1, 2, 3, 4]);
}

#[test]
fn parse_object_spec_single_element_range() {
    let result = parse_object_spec("5-5").unwrap();
    assert_eq!(result, vec![5]);
}

#[test]
fn parse_object_spec_reversed_range_error() {
    let err = parse_object_spec("10-5").unwrap_err();
    assert!(err.contains("10 > 5"), "got: {}", err);
}

#[test]
fn parse_object_spec_non_numeric_in_range() {
    let err = parse_object_spec("a-5").unwrap_err();
    assert!(err.contains("Invalid object number"), "got: {}", err);
}

#[test]
fn doc_mode_label_all_variants() {
    assert_eq!(DocMode::List.label(), "List");
    assert_eq!(DocMode::Validate.label(), "Validate");
    assert_eq!(DocMode::Fonts.label(), "Fonts");
    assert_eq!(DocMode::Images.label(), "Images");
    assert_eq!(DocMode::Forms.label(), "Forms");
    assert_eq!(DocMode::Bookmarks.label(), "Bookmarks");
    assert_eq!(DocMode::Annotations.label(), "Annotations");
    assert_eq!(DocMode::Text.label(), "Text");
    assert_eq!(DocMode::Operators.label(), "Operators");
    assert_eq!(DocMode::Tags.label(), "Tags");
    assert_eq!(DocMode::Tree.label(), "Tree");
    assert_eq!(DocMode::FindText.label(), "Find Text");
    assert_eq!(DocMode::Detail(DetailSub::Security).label(), "Security");
    assert_eq!(DocMode::Detail(DetailSub::Embedded).label(), "Embedded Files");
    assert_eq!(DocMode::Detail(DetailSub::Labels).label(), "Page Labels");
    assert_eq!(DocMode::Detail(DetailSub::Layers).label(), "Layers");
}

#[test]
fn doc_mode_json_key_all_variants() {
    assert_eq!(DocMode::List.json_key(), "list");
    assert_eq!(DocMode::Validate.json_key(), "validate");
    assert_eq!(DocMode::Fonts.json_key(), "fonts");
    assert_eq!(DocMode::Images.json_key(), "images");
    assert_eq!(DocMode::Forms.json_key(), "forms");
    assert_eq!(DocMode::Bookmarks.json_key(), "bookmarks");
    assert_eq!(DocMode::Annotations.json_key(), "annotations");
    assert_eq!(DocMode::Text.json_key(), "text");
    assert_eq!(DocMode::Operators.json_key(), "operators");
    assert_eq!(DocMode::Tags.json_key(), "tags");
    assert_eq!(DocMode::Tree.json_key(), "tree");
    assert_eq!(DocMode::FindText.json_key(), "find_text");
    assert_eq!(DocMode::Detail(DetailSub::Security).json_key(), "security");
    assert_eq!(DocMode::Detail(DetailSub::Embedded).json_key(), "embedded_files");
    assert_eq!(DocMode::Detail(DetailSub::Labels).json_key(), "page_labels");
    assert_eq!(DocMode::Detail(DetailSub::Layers).json_key(), "layers");
}

#[test]
fn resolve_mode_no_flags_returns_default() {
    let args = args();
    let mode = args.resolve_mode().unwrap();
    assert!(matches!(mode, ResolvedMode::Default));
}

#[test]
fn resolve_mode_single_doc_mode() {
    let mut args = args();
    args.fonts = true;
    let mode = args.resolve_mode().unwrap();
    match mode {
        ResolvedMode::Combined(modes) => {
            assert_eq!(modes.len(), 1);
            assert_eq!(modes[0], DocMode::Fonts);
        }
        other => panic!("Expected Combined, got {:?}", std::mem::discriminant(&other)),
    }
}

#[test]
fn resolve_mode_multiple_doc_modes() {
    let mut args = args();
    args.fonts = true;
    args.images = true;
    let mode = args.resolve_mode().unwrap();
    match mode {
        ResolvedMode::Combined(modes) => {
            assert_eq!(modes.len(), 2);
            assert!(modes.contains(&DocMode::Fonts));
            assert!(modes.contains(&DocMode::Images));
        }
        other => panic!("Expected Combined, got {:?}", std::mem::discriminant(&other)),
    }
}

#[test]
fn resolve_mode_standalone_object() {
    let mut args = args();
    args.object = Some("5".to_string());
    let mode = args.resolve_mode().unwrap();
    match mode {
        ResolvedMode::Standalone(StandaloneMode::Object { nums }) => {
            assert_eq!(nums, vec![5]);
        }
        _ => panic!("Expected Standalone(Object)"),
    }
}

#[test]
fn resolve_mode_standalone_inspect() {
    let mut args = args();
    args.inspect = Some(7);
    let mode = args.resolve_mode().unwrap();
    match mode {
        ResolvedMode::Standalone(StandaloneMode::Inspect { obj_num }) => {
            assert_eq!(obj_num, 7);
        }
        _ => panic!("Expected Standalone(Inspect)"),
    }
}

#[test]
fn resolve_mode_standalone_search() {
    let mut args = args();
    args.search = Some("Type=Font".to_string());
    let mode = args.resolve_mode().unwrap();
    match mode {
        ResolvedMode::Standalone(StandaloneMode::Search { expr, list_modifier }) => {
            assert_eq!(expr, "Type=Font");
            assert!(!list_modifier);
        }
        _ => panic!("Expected Standalone(Search)"),
    }
}

#[test]
fn resolve_mode_standalone_plus_doc_mode_error() {
    let mut args = args();
    args.object = Some("5".to_string());
    args.fonts = true;
    match args.resolve_mode() {
        Err(err) => assert!(err.contains("Cannot combine standalone mode"), "got: {}", err),
        Ok(_) => panic!("Expected error for standalone + doc mode"),
    }
}

#[test]
fn resolve_mode_multiple_standalone_error() {
    let mut args = args();
    args.object = Some("5".to_string());
    args.inspect = Some(3);
    match args.resolve_mode() {
        Err(err) => assert!(err.contains("Only one standalone mode"), "got: {}", err),
        Ok(_) => panic!("Expected error for multiple standalone modes"),
    }
}

#[test]
fn resolve_mode_search_with_list_modifier() {
    // When --search is active, --list should be consumed as search modifier, not DocMode
    let mut args = args();
    args.search = Some("Type=Font".to_string());
    args.list = true;
    let mode = args.resolve_mode().unwrap();
    match mode {
        ResolvedMode::Standalone(StandaloneMode::Search { expr, list_modifier }) => {
            assert_eq!(expr, "Type=Font");
            assert!(list_modifier);
        }
        _ => panic!("Expected Standalone(Search) with list_modifier=true"),
    }
}

#[test]
fn resolve_mode_list_without_search_is_doc_mode() {
    let mut args = args();
    args.list = true;
    let mode = args.resolve_mode().unwrap();
    match mode {
        ResolvedMode::Combined(modes) => {
            assert_eq!(modes.len(), 1);
            assert_eq!(modes[0], DocMode::List);
        }
        other => panic!("Expected Combined([List]), got {:?}", std::mem::discriminant(&other)),
    }
}

#[test]
fn resolve_mode_single_detail() {
    let mut args = args();
    args.detail = vec![DetailSub::Security];
    let mode = args.resolve_mode().unwrap();
    match mode {
        ResolvedMode::Combined(modes) => {
            assert_eq!(modes.len(), 1);
            assert_eq!(modes[0], DocMode::Detail(DetailSub::Security));
        }
        other => panic!(
            "Expected Combined([Detail(Security)]), got {:?}",
            std::mem::discriminant(&other)
        ),
    }
}

#[test]
fn resolve_mode_multiple_details() {
    let mut args = args();
    args.detail = vec![DetailSub::Security, DetailSub::Embedded, DetailSub::Layers];
    let mode = args.resolve_mode().unwrap();
    match mode {
        ResolvedMode::Combined(modes) => {
            assert_eq!(modes.len(), 3);
            assert!(modes.contains(&DocMode::Detail(DetailSub::Security)));
            assert!(modes.contains(&DocMode::Detail(DetailSub::Embedded)));
            assert!(modes.contains(&DocMode::Detail(DetailSub::Layers)));
        }
        other => panic!("Expected Combined with 3 details, got {:?}", std::mem::discriminant(&other)),
    }
}

#[test]
fn resolve_mode_detail_mixed_with_doc_modes() {
    let mut args = args();
    args.fonts = true;
    args.detail = vec![DetailSub::Labels];
    let mode = args.resolve_mode().unwrap();
    match mode {
        ResolvedMode::Combined(modes) => {
            assert_eq!(modes.len(), 2);
            assert!(modes.contains(&DocMode::Fonts));
            assert!(modes.contains(&DocMode::Detail(DetailSub::Labels)));
        }
        other => panic!(
            "Expected Combined with Fonts + Detail, got {:?}",
            std::mem::discriminant(&other)
        ),
    }
}

#[test]
fn resolve_mode_all_doc_modes_at_once() {
    let mut args = args();
    args.list = true;
    args.validate = true;
    args.fonts = true;
    args.images = true;
    args.forms = true;
    args.bookmarks = true;
    args.annotations = true;
    args.text = true;
    args.operators = true;
    args.tags = true;
    args.tree = true;
    args.find_text = Some("hello".to_string());
    args.detail = vec![
        DetailSub::Security,
        DetailSub::Embedded,
        DetailSub::Labels,
        DetailSub::Layers,
    ];
    let mode = args.resolve_mode().unwrap();
    match mode {
        ResolvedMode::Combined(modes) => {
            // 12 base doc modes + 4 detail modes = 16
            assert_eq!(modes.len(), 16);
        }
        other => panic!("Expected Combined with 16 modes, got {:?}", std::mem::discriminant(&other)),
    }
}

#[test]
fn resolve_mode_standalone_extract_stream() {
    let mut args = args();
    args.extract_stream = Some(12);
    args.output = Some("out.bin".to_string());
    let mode = args.resolve_mode().unwrap();
    match mode {
        ResolvedMode::Standalone(StandaloneMode::ExtractStream { obj_num, output }) => {
            assert_eq!(obj_num, 12);
            assert_eq!(output, "out.bin");
        }
        _ => panic!("Expected Standalone(ExtractStream)"),
    }
}

#[test]
fn resolve_mode_object_with_multi_spec() {
    let mut args = args();
    args.object = Some("1,5,10-12".to_string());
    let mode = args.resolve_mode().unwrap();
    match mode {
        ResolvedMode::Standalone(StandaloneMode::Object { nums }) => {
            assert_eq!(nums, vec![1, 5, 10, 11, 12]);
        }
        _ => panic!("Expected Standalone(Object) with multiple nums"),
    }
}

#[test]
fn resolve_mode_object_invalid_spec_error() {
    let mut args = args();
    args.object = Some("abc".to_string());
    match args.resolve_mode() {
        Err(err) => assert!(err.contains("Invalid object number"), "got: {}", err),
        Ok(_) => panic!("Expected error for invalid object spec"),
    }
}

#[test]
fn dump_config_construction() {
    let config = DumpConfig {
        decode: true,
        truncate: Some(1024),
        json: true,
        hex: false,
        depth: Some(3),
        deref: true,
        raw: false,
    };
    assert!(config.decode);
    assert_eq!(config.truncate, Some(1024));
    assert!(config.json);
    assert!(!config.hex);
    assert_eq!(config.depth, Some(3));
    assert!(config.deref);
    assert!(!config.raw);
}

#[test]
fn dump_config_defaults_style() {
    let config = DumpConfig {
        decode: false,
        truncate: None,
        json: false,
        hex: false,
        depth: None,
        deref: false,
        raw: false,
    };
    assert!(!config.decode);
    assert_eq!(config.truncate, None);
    assert!(!config.json);
    assert!(!config.hex);
    assert_eq!(config.depth, None);
    assert!(!config.deref);
    assert!(!config.raw);
}

#[test]
fn dump_config_is_copy() {
    let config = DumpConfig {
        decode: true,
        truncate: None,
        json: false,
        hex: true,
        depth: Some(5),
        deref: false,
        raw: true,
    };
    let copy = config; // Copy
    // Both should still be usable (Copy semantics)
    assert_eq!(config.decode, copy.decode);
    assert_eq!(config.hex, copy.hex);
    assert_eq!(config.raw, copy.raw);
}

#[test]
fn doc_mode_ordering() {
    assert!(DocMode::List < DocMode::Validate);
    assert!(DocMode::Validate < DocMode::Fonts);
    assert!(DocMode::Fonts < DocMode::Images);
    assert!(DocMode::Images < DocMode::Forms);
    assert!(DocMode::Forms < DocMode::Bookmarks);
    assert!(DocMode::Bookmarks < DocMode::Annotations);
    assert!(DocMode::Annotations < DocMode::Text);
    assert!(DocMode::Text < DocMode::Operators);
    assert!(DocMode::Operators < DocMode::Tags);
    assert!(DocMode::Tags < DocMode::Tree);
    assert!(DocMode::Tree < DocMode::FindText);
    assert!(DocMode::FindText < DocMode::Detail(DetailSub::Security));
}

#[test]
fn doc_mode_detail_sub_ordering_within_detail() {
    assert!(DocMode::Detail(DetailSub::Security) < DocMode::Detail(DetailSub::Embedded));
    assert!(DocMode::Detail(DetailSub::Embedded) < DocMode::Detail(DetailSub::Labels));
    assert!(DocMode::Detail(DetailSub::Labels) < DocMode::Detail(DetailSub::Layers));
}

#[test]
fn doc_mode_sorting() {
    let mut modes = vec![
        DocMode::Tree,
        DocMode::Fonts,
        DocMode::List,
        DocMode::Detail(DetailSub::Layers),
        DocMode::Detail(DetailSub::Security),
    ];
    modes.sort();
    assert_eq!(
        modes,
        vec![
            DocMode::List,
            DocMode::Fonts,
            DocMode::Tree,
            DocMode::Detail(DetailSub::Security),
            DocMode::Detail(DetailSub::Layers),
        ]
    );
}

#[test]
fn detail_sub_ordering() {
    assert!(DetailSub::Security < DetailSub::Embedded);
    assert!(DetailSub::Embedded < DetailSub::Labels);
    assert!(DetailSub::Labels < DetailSub::Layers);
}

#[test]
fn detail_sub_sorting() {
    let mut subs = vec![
        DetailSub::Layers,
        DetailSub::Security,
        DetailSub::Labels,
        DetailSub::Embedded,
    ];
    subs.sort();
    assert_eq!(
        subs,
        vec![
            DetailSub::Security,
            DetailSub::Embedded,
            DetailSub::Labels,
            DetailSub::Layers,
        ]
    );
}

#[test]
fn detail_sub_equality() {
    assert_eq!(DetailSub::Security, DetailSub::Security);
    assert_ne!(DetailSub::Security, DetailSub::Embedded);
}

#[test]
fn parse_object_spec_large_range() {
    let result = parse_object_spec("1-100").unwrap();
    assert_eq!(result.len(), 100);
    assert_eq!(result[0], 1);
    assert_eq!(result[99], 100);
}

#[test]
fn parse_object_spec_only_commas() {
    let err = parse_object_spec(",,,").unwrap_err();
    assert!(err.contains("Empty object specification"), "got: {}", err);
}

#[test]
fn parse_object_spec_zero() {
    // Zero is technically valid for parse_object_spec (unlike PageSpec)
    let result = parse_object_spec("0").unwrap();
    assert_eq!(result, vec![0]);
}

#[test]
fn parse_object_spec_large_numbers() {
    let result = parse_object_spec("999999").unwrap();
    assert_eq!(result, vec![999999]);
}

#[test]
fn parse_object_spec_leading_comma() {
    let result = parse_object_spec(",1,5").unwrap();
    assert_eq!(result, vec![1, 5]);
}

#[test]
fn page_spec_range_pages_large() {
    let spec = PageSpec::Range(1, 10);
    let pages = spec.pages();
    assert_eq!(pages.len(), 10);
    assert_eq!(pages, vec![1, 2, 3, 4, 5, 6, 7, 8, 9, 10]);
}

#[test]
fn page_spec_single_pages_returns_one_element() {
    let spec = PageSpec::Single(42);
    let pages = spec.pages();
    assert_eq!(pages, vec![42]);
}

#[test]
fn page_spec_single_contains_only_self() {
    let spec = PageSpec::Single(1);
    assert!(spec.contains(1));
    assert!(!spec.contains(0));
    assert!(!spec.contains(2));
    assert!(!spec.contains(u32::MAX));
}

#[test]
fn page_spec_parse_negative_like_string() {
    // Something like "-5" would be parsed as a range with empty start
    let err = PageSpec::parse("-5").unwrap_err();
    assert!(err.contains("Invalid page range start"), "got: {}", err);
}

#[test]
fn page_spec_parse_double_dash() {
    // "1-2-3" — split_once on '-' gives "1" and "2-3", "2-3" is not a valid u32
    let err = PageSpec::parse("1-2-3").unwrap_err();
    assert!(err.contains("Invalid page range end"), "got: {}", err);
}

#[test]
fn args_page_modifier_alone_is_default() {
    // --page alone (no mode flags) should resolve to Default
    let mut args = args();
    args.page = Some("3".to_string());
    let mode = args.resolve_mode().unwrap();
    assert!(matches!(mode, ResolvedMode::Default));
    assert_eq!(args.page, Some("3".to_string()));
}

#[test]
fn args_json_modifier_alone_is_default() {
    // --json alone (no mode flags) should resolve to Default
    let mut args = args();
    args.json = true;
    let mode = args.resolve_mode().unwrap();
    assert!(matches!(mode, ResolvedMode::Default));
    assert!(args.json);
}

#[test]
fn args_find_text_is_doc_mode() {
    let mut args = args();
    args.find_text = Some("hello".to_string());
    let mode = args.resolve_mode().unwrap();
    match mode {
        ResolvedMode::Combined(modes) => {
            assert_eq!(modes.len(), 1);
            assert_eq!(modes[0], DocMode::FindText);
        }
        other => panic!("Expected Combined([FindText]), got {:?}", std::mem::discriminant(&other)),
    }
    assert_eq!(args.find_text, Some("hello".to_string()));
}

// ── further cases ──────────────────────────────────────────────────

#[test]
fn parse_object_spec_plus_sign_accepted() {
    // `str::parse::<u32>` accepts a leading `+`
    assert_eq!(parse_object_spec("+7").unwrap(), vec![7]);
}

#[test]
fn parse_object_spec_overflow_is_invalid() {
    let err = parse_object_spec("4294967296").unwrap_err();
    assert_eq!(err, "Invalid object number: '4294967296'");
    assert_eq!(parse_object_spec("4294967295").unwrap(), vec![4294967295]);
}

#[test]
fn parse_object_spec_exact_messages() {
    assert_eq!(parse_object_spec("1, x ,2").unwrap_err(), "Invalid object number: 'x'");
    assert_eq!(parse_object_spec("1-b").unwrap_err(), "Invalid object number: 'b'");
    assert_eq!(parse_object_spec("9-2").unwrap_err(), "Invalid object range: 9 > 2");
    // the first bad piece decides the error
    assert_eq!(parse_object_spec("q,9-2").unwrap_err(), "Invalid object number: 'q'");
}

#[test]
fn page_spec_exact_messages() {
    assert_eq!(PageSpec::parse(" x ").unwrap_err(), "Invalid page number: 'x'");
    assert_eq!(PageSpec::parse("0").unwrap_err(), "Page numbers must be >= 1");
    assert_eq!(PageSpec::parse("12-3").unwrap_err(), "Invalid page range: 12 > 3");
    assert_eq!(PageSpec::parse(" a -3").unwrap_err(), "Invalid page range start: 'a'");
    assert_eq!(PageSpec::parse("3- b").unwrap_err(), "Invalid page range end: 'b'");
    assert_eq!(PageSpec::parse("3-0").unwrap_err(), "Page numbers must be >= 1");
}

#[test]
fn page_spec_range_at_u32_max() {
    let spec = PageSpec::Range(4294967294, 4294967295);
    assert_eq!(spec.pages(), vec![4294967294, 4294967295]);
    assert!(PageSpec::Range(5, 3).pages().is_empty());
}

#[test]
fn resolve_mode_object_error_wins_over_mixing() {
    let mut args = args();
    args.object = Some("zz".to_string());
    args.fonts = true;
    assert_eq!(args.resolve_mode().unwrap_err(), "Invalid object number: 'zz'");
}

#[test]
fn resolve_mode_extract_without_output_is_ignored() {
    let mut args = args();
    args.extract_stream = Some(4);
    assert!(matches!(args.resolve_mode().unwrap(), ResolvedMode::Default));
}

#[test]
fn resolve_mode_keeps_fixed_order() {
    let mut args = args();
    args.tree = true;
    args.list = true;
    args.detail = vec![DetailSub::Layers, DetailSub::Security];
    args.text = true;
    match args.resolve_mode().unwrap() {
        ResolvedMode::Combined(modes) => assert_eq!(
            modes,
            vec![
                DocMode::List,
                DocMode::Text,
                DocMode::Tree,
                DocMode::Detail(DetailSub::Layers),
                DocMode::Detail(DetailSub::Security),
            ]
        ),
        _ => panic!("Expected Combined"),
    }
}
