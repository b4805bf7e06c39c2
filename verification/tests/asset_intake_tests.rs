use tenuki::file_translate::asset_intake::{
    candidate_from_bytes, check_source_size, decode_utf8_text, load_delimited_table_from_text,
    max_source_bytes, parse_delimited_records, preview_from_bytes, sniff_delimited_shape,
    sniff_source_kind, DecodedSource,
};
use tenuki::file_translate::header_guess::{
    float_syntax_check, infer_header_row, is_cjk, is_numericish, is_textish,
    looks_like_header_token, normalize_token,
};
use tenuki::file_translate::json_table::{
    json_value_to_cell, normalize_json_table, parse_json_value, JsonValue,
};
use tenuki::file_translate::types::{
    HeaderMode, IntakeError, JsonTableShape, SourceEncoding, SourceKind, SourcePreview,
};

/// What reading a source of these bytes previews, with the size check first.
fn preview_bytes(bytes: &[u8], mode: HeaderMode) -> Result<SourcePreview, IntakeError> {
    check_source_size(bytes.len() as u64)?;
    preview_from_bytes("source".to_string(), bytes.len() as u64, bytes, mode)
}

#[test]
fn detects_extensionless_delimited_text() {
    let candidate = candidate_from_bytes("AchievementData".to_string(), 19, b"\xEF\xBB\xBFID,Name\n1,one\n");
    assert_eq!(candidate.kind.badge(), "DELIM");
    assert_eq!(candidate.encoding, SourceEncoding::Utf8Bom);
    assert_eq!(candidate.diagnostic, "delimiter: ',' / columns: 2");
}

#[test]
fn detects_headerless_delimited_preview() {
    let preview = preview_bytes(b"-3,-3,-1,-1,-1\n-2,-2,-1,-1,-1\n", HeaderMode::Unknown).unwrap();
    match preview {
        SourcePreview::Table(preview) => {
            assert!(preview.header_row.is_none());
            assert_eq!(preview.header_mode, HeaderMode::Unknown);
            assert_eq!(preview.column_labels[0], "col 1");
            assert_eq!(preview.total_rows, 2);
            assert!(!preview.suggested_header);
        }
        other => panic!("expected table preview, got {:?}", other.kind()),
    }
}

#[test]
fn keeps_delimited_preview_shape_unmodified_until_header_is_confirmed() {
    let preview = preview_bytes(b"ID,Name\n1,one\n2,two\n", HeaderMode::Unknown).unwrap();
    match preview {
        SourcePreview::Table(preview) => {
            assert_eq!(preview.header_mode, HeaderMode::Unknown);
            assert!(preview.suggested_header);
            assert!(preview.header_row.is_none());
            assert_eq!(preview.column_labels, vec!["col 1", "col 2"]);
            assert_eq!(preview.total_rows, 3);
            assert_eq!(preview.rows[0], vec!["ID", "Name"]);
        }
        other => panic!("expected table preview, got {:?}", other.kind()),
    }
}

#[test]
fn normalizes_json_array_of_objects_as_table() {
    let preview = preview_bytes(
        br#"[{"text":"hello","id":1},{"text":"world","meta":{"x":1}}]"#,
        HeaderMode::Unknown,
    )
    .unwrap();
    match preview {
        SourcePreview::Table(preview) => {
            assert_eq!(preview.source_kind, SourceKind::JsonText);
            assert_eq!(preview.json_shape, Some(JsonTableShape::ArrayOfObjects));
            assert_eq!(preview.column_labels, vec!["id", "text", "meta"]);
            assert_eq!(preview.rows[0][1], "hello");
            assert_eq!(preview.rows[1][2], r#"{"x":1}"#);
            assert_eq!(preview.rows[1][0], "");
            assert_eq!(preview.rows[0][0], "1");
        }
        other => panic!("expected json table, got {:?}", other.kind()),
    }
}

#[test]
fn normalizes_json_array_of_arrays_as_table() {
    let preview = preview_bytes(br#"[["hello",1],["world",{"x":1}]]"#, HeaderMode::Unknown).unwrap();
    match preview {
        SourcePreview::Table(preview) => {
            assert_eq!(preview.json_shape, Some(JsonTableShape::ArrayOfArrays));
            assert_eq!(preview.column_labels, vec!["col 1", "col 2"]);
            assert_eq!(preview.rows[1][1], r#"{"x":1}"#);
            assert_eq!(preview.header_mode, HeaderMode::Absent);
        }
        other => panic!("expected json table, got {:?}", other.kind()),
    }
}

#[test]
fn keeps_non_table_json_as_text_preview() {
    let preview = preview_bytes(br#"{"text":"hello"}"#, HeaderMode::Unknown).unwrap();
    match preview {
        SourcePreview::Text(preview) => {
            assert!(preview.diagnostic.contains("preview-only"));
            assert_eq!(
                preview.diagnostic,
                "JSON preview-only: root must be array<object> or array<array>"
            );
            assert_eq!(preview.line_count, 1);
        }
        other => panic!("expected text preview, got {:?}", other.kind()),
    }
}

#[test]
fn rejects_irregular_json_arrays_for_run_preview() {
    let preview = preview_bytes(br#"[["one"],["two",2]]"#, HeaderMode::Unknown).unwrap();
    match preview {
        SourcePreview::Text(preview) => {
            assert!(preview.diagnostic.contains("preview-only"));
            assert!(preview.diagnostic.ends_with("array<array> column counts are irregular"));
        }
        other => panic!("expected text preview, got {:?}", other.kind()),
    }
}

#[test]
fn detects_binary_source() {
    let preview = preview_bytes(&[0_u8, 159, 146, 150], HeaderMode::Unknown).unwrap();
    match preview {
        SourcePreview::Binary(b) => assert_eq!(b.diagnostic, "contains NUL bytes"),
        other => panic!("expected binary preview, got {:?}", other.kind()),
    }
    let preview = preview_bytes(&[159, 146, 150], HeaderMode::Unknown).unwrap();
    match preview {
        SourcePreview::Binary(b) => assert_eq!(b.diagnostic, "contains non UTF-8 bytes"),
        other => panic!("expected binary preview, got {:?}", other.kind()),
    }
}

#[test]
fn header_mode_absent_keeps_all_rows_as_data() {
    let preview = preview_bytes(b"ID,Name\n1,hello\n2,world\n", HeaderMode::Absent).unwrap();
    match preview {
        SourcePreview::Table(preview) => {
            assert_eq!(preview.header_mode, HeaderMode::Absent);
            assert!(preview.header_row.is_none());
            assert_eq!(preview.column_labels, vec!["col 1", "col 2"]);
            assert_eq!(preview.total_rows, 3);
            assert_eq!(preview.rows[0], vec!["ID", "Name"]);
        }
        other => panic!("expected table preview, got {:?}", other.kind()),
    }
}

#[test]
fn json_table_always_has_header_mode_present_or_absent_never_unknown() {
    let preview = preview_bytes(br#"[{"key":"hello"}]"#, HeaderMode::Unknown).unwrap();
    match preview {
        SourcePreview::Table(preview) => {
            assert_ne!(preview.header_mode, HeaderMode::Unknown);
            assert!(preview.suggested_header);
        }
        other => panic!("expected json table, got {:?}", other.kind()),
    }
}

#[test]
fn rejects_oversized_source() {
    let err = check_source_size(max_source_bytes() + 1).unwrap_err();
    assert!(err.message().contains("file too large"));
    assert!(check_source_size(max_source_bytes()).is_ok());
}

#[test]
fn header_present_takes_the_first_record() {
    let table = load_delimited_table_from_text(
        "t.csv".to_string(),
        30,
        SourceEncoding::Utf8,
        "id;name\n1;one\n\n2;two\n",
        HeaderMode::Present,
    )
    .unwrap();
    assert_eq!(table.delimiter, Some(';'));
    assert_eq!(table.header_row, Some(vec!["id".to_string(), "name".to_string()]));
    assert_eq!(table.column_labels, vec!["id", "name"]);
    assert_eq!(table.total_rows, 2);
    assert_eq!(table.rows[1], vec!["2", "two"]);
}

#[test]
fn delimited_loading_errors() {
    match load_delimited_table_from_text(
        "t".to_string(),
        1,
        SourceEncoding::Utf8,
        "just one line",
        HeaderMode::Unknown,
    ) {
        Err(IntakeError::Delimited(reason)) => assert_eq!(reason, "delimiter stability not detected"),
        other => panic!("expected a delimited error, got {:?}", other.map(|t| t.total_rows)),
    }
}

#[test]
fn sniffing_prefers_the_delimiter_covering_most_cells() {
    let sniff = sniff_delimited_shape("a\tb\tc\n1\t2\t3\n").unwrap();
    assert_eq!(sniff.delimiter, '\t');
    assert_eq!(sniff.column_count, 3);
    assert_eq!(sniff.row_count, 2);
    // Three columns under ',' against two under ';'.
    let sniff = sniff_delimited_shape("a,b;c,d\ne,f;g,h\n").unwrap();
    assert_eq!(sniff.delimiter, ',');
    assert_eq!(sniff.column_count, 3);
    assert!(sniff_delimited_shape("a,b").is_none());
    // Any delimiter absent from two lines reads them as one column.
    let sniff = sniff_delimited_shape("a,b\nc\n").unwrap();
    assert_eq!((sniff.delimiter, sniff.column_count, sniff.row_count), ('\t', 1, 2));
    let records = parse_delimited_records("a|b\n  |  \nc|\"d|e\"\n", b'|').unwrap();
    assert_eq!(records, vec![vec!["a", "b"], vec!["c", "d|e"]]);
}

#[test]
fn source_kinds_by_first_characters() {
    assert_eq!(sniff_source_kind("  [1,2]"), SourceKind::JsonText);
    assert_eq!(sniff_source_kind("<xml/>"), SourceKind::MarkupText);
    assert_eq!(sniff_source_kind("---\nk: v\n"), SourceKind::MarkupText);
    assert_eq!(sniff_source_kind("%YAML 1.2\n"), SourceKind::MarkupText);
    assert_eq!(sniff_source_kind("hello\nworld\n"), SourceKind::DelimitedText);
    assert_eq!(sniff_source_kind("a,b\tc;d|e\nf\n"), SourceKind::PlainLines);
    assert_eq!(sniff_source_kind("hello"), SourceKind::UnknownText);
    assert_eq!(sniff_source_kind(" \n\t"), SourceKind::UnknownText);
    let candidate = candidate_from_bytes("notes".to_string(), 12, b"a,b\tc;d|e\nf\n");
    assert_eq!(candidate.kind, SourceKind::PlainLines);
    assert_eq!(candidate.diagnostic, "2 lines");
}

#[test]
fn decoding_strips_the_byte_order_mark() {
    match decode_utf8_text(b"\xEF\xBB\xBFabc") {
        DecodedSource::Text { encoding, text } => {
            assert_eq!(encoding, SourceEncoding::Utf8Bom);
            assert_eq!(text, "abc");
        }
        DecodedSource::Binary(reason) => panic!("unexpected binary: {reason}"),
    }
}

#[test]
fn header_guess_scores_words_names_and_numbers() {
    let rows = |v: &[&[&str]]| -> Vec<Vec<String>> {
        v.iter().map(|r| r.iter().map(|c| c.to_string()).collect()).collect()
    };
    assert!(infer_header_row(&rows(&[&["ID", "Name"], &["1", "one"]])));
    assert!(infer_header_row(&rows(&[&["alpha", "beta"], &["1", "2"]])));
    assert!(!infer_header_row(&rows(&[&["1", "2"], &["3", "4"]])));
    assert!(!infer_header_row(&rows(&[&["x", "x"], &["y", "y"]])));
    assert!(!infer_header_row(&rows(&[&["ID"], &["1"]])));
    assert!(looks_like_header_token(" Eng-lish "));
    assert!(!looks_like_header_token("identifier"));
    assert_eq!(normalize_token(" Item_Name "), "itemname");
}

#[test]
fn numbers_follow_the_float_grammar() {
    for ok in ["1", "-1.5", "+.5", "1.", "1e5", "1E-5", "inf", "-Infinity", "NaN", "  7  "] {
        assert!(is_numericish(ok), "{ok}");
    }
    for bad in ["", "e5", ".", "1e", "1.2.3", "0x10", "1_000", "infinit", "--1"] {
        assert!(!is_numericish(bad), "{bad}");
    }
    let cs: Vec<char> = "12.5e+3".chars().collect();
    assert!(float_syntax_check(&cs));
    assert!(is_textish("a1") && is_textish("漢") && !is_textish("12-3"));
    assert!(is_cjk('か') && is_cjk('한') && !is_cjk('a'));
}

#[test]
fn json_cells_and_table_errors() {
    assert_eq!(json_value_to_cell(&JsonValue::Null), "null");
    assert_eq!(json_value_to_cell(&JsonValue::Bool(false)), "false");
    assert_eq!(json_value_to_cell(&JsonValue::Number("2.5".to_string())), "2.5");
    let err = normalize_json_table(
        "f".to_string(),
        1,
        SourceEncoding::Utf8,
        Err("expected value at line 1 column 1".to_string()),
    )
    .unwrap_err();
    assert_eq!(err, "parse failed: expected value at line 1 column 1");
    let empty = normalize_json_table("f".to_string(), 2, SourceEncoding::Utf8, Ok(JsonValue::Array(vec![], "[]".to_string())));
    assert_eq!(empty.unwrap_err(), "root array is empty");
    let mixed = JsonValue::Array(
        vec![JsonValue::Array(vec![], "[]".to_string()), JsonValue::Object(vec![], "{}".to_string())],
        "[[],{}]".to_string(),
    );
    assert_eq!(
        normalize_json_table("f".to_string(), 7, SourceEncoding::Utf8, Ok(mixed)).unwrap_err(),
        "root array is heterogeneous and stays preview-only"
    );
    let no_keys = JsonValue::Array(vec![JsonValue::Object(vec![], "{}".to_string())], "[{}]".to_string());
    assert_eq!(
        normalize_json_table("f".to_string(), 4, SourceEncoding::Utf8, Ok(no_keys)).unwrap_err(),
        "array<object> has no keys"
    );
}

#[test]
fn parse_json_value_keeps_numbers_and_compact_texts() {
    match parse_json_value(r#"[1, {"b": 2.5, "a": [true, null]}, "x"]"#).unwrap() {
        JsonValue::Array(items, text) => {
            assert_eq!(text, r#"[1,{"a":[true,null],"b":2.5},"x"]"#);
            assert_eq!(items.len(), 3);
            assert_eq!(json_value_to_cell(&items[0]), "1");
            assert_eq!(json_value_to_cell(&items[1]), r#"{"a":[true,null],"b":2.5}"#);
            assert_eq!(json_value_to_cell(&items[2]), "x");
        }
        _ => panic!("expected an array"),
    }
    assert!(parse_json_value("[1,").is_err());
}
