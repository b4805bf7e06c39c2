use tenuki::file_translate::asset_intake::{
    apply_delimited_header_mode_from_unknown, build_column_labels, max_source_bytes,
};
use tenuki::file_translate::runner::{
    check_response_count, chunk_ranges, dict_txt_line, labels_from_selected_columns, output_txt_name,
    run_outcome, run_report, select_run_entries, selected_columns, write_order, SelectedMode,
    FILE_TRANSLATE_STOPPED,
};
use tenuki::file_translate::state::{evaluate_run_readiness, DictSlotAction, FileTranslateState, RunBlocker};
use tenuki::file_translate::types::{
    AssetSourceCandidate, ColumnMode, HeaderMode, IntakeError, JsonTableShape, PreviewState,
    SourceEncoding, SourceKind, SourcePreview, TableSourceData,
};

fn sample_table(file: &str) -> TableSourceData {
    TableSourceData {
        file: file.to_string(),
        file_size: 16,
        source_kind: SourceKind::DelimitedText,
        encoding: SourceEncoding::Utf8,
        header_mode: HeaderMode::Present,
        suggested_header: true,
        header_row: Some(vec!["id".to_string(), "text".to_string()]),
        column_labels: vec!["id".to_string(), "text".to_string()],
        rows: vec![vec!["1".to_string(), "hello".to_string()]],
        total_rows: 1,
        delimiter: Some(','),
        json_shape: None,
        json_diagnostic: None,
    }
}

fn ready_state(path: &str) -> FileTranslateState {
    let mut state = FileTranslateState::default();
    state.selected_source = Some(path.to_string());
    state.preview = PreviewState::Ready(SourcePreview::Table(sample_table(path)));
    state.column_modes.insert(1, ColumnMode::Translate);
    state
}

#[test]
fn apply_unknown_header_suggestion_present_removes_first_row() {
    let table = TableSourceData {
        file: "test.csv".to_string(),
        file_size: 16,
        source_kind: SourceKind::DelimitedText,
        encoding: SourceEncoding::Utf8,
        header_mode: HeaderMode::Unknown,
        suggested_header: true,
        header_row: None,
        column_labels: vec!["col 1".to_string(), "col 2".to_string()],
        rows: vec![
            vec!["ID".to_string(), "Name".to_string()],
            vec!["1".to_string(), "hello".to_string()],
        ],
        total_rows: 2,
        delimiter: Some(','),
        json_shape: None,
        json_diagnostic: None,
    };

    let resolved = apply_delimited_header_mode_from_unknown(table, HeaderMode::Present);

    assert_eq!(resolved.header_mode, HeaderMode::Present);
    assert_eq!(resolved.header_row, Some(vec!["ID".to_string(), "Name".to_string()]));
    assert_eq!(resolved.column_labels, vec!["ID", "Name"]);
    assert_eq!(resolved.total_rows, 1);
    assert_eq!(resolved.rows, vec![vec!["1".to_string(), "hello".to_string()]]);
}

#[test]
fn apply_unknown_header_suggestion_absent_keeps_first_row() {
    let table = TableSourceData {
        file: "test.csv".to_string(),
        file_size: 16,
        source_kind: SourceKind::DelimitedText,
        encoding: SourceEncoding::Utf8,
        header_mode: HeaderMode::Unknown,
        suggested_header: false,
        header_row: None,
        column_labels: vec!["col 1".to_string(), "col 2".to_string()],
        rows: vec![
            vec!["ID".to_string(), "Name".to_string()],
            vec!["1".to_string(), "hello".to_string()],
        ],
        total_rows: 2,
        delimiter: Some(','),
        json_shape: None,
        json_diagnostic: None,
    };

    let resolved = apply_delimited_header_mode_from_unknown(table, HeaderMode::Absent);

    assert_eq!(resolved.header_mode, HeaderMode::Absent);
    assert!(resolved.header_row.is_none());
    assert_eq!(resolved.column_labels, vec!["col 1", "col 2"]);
    assert_eq!(resolved.total_rows, 2);
    assert_eq!(resolved.rows[0], vec!["ID".to_string(), "Name".to_string()]);
}

#[test]
fn apply_unknown_header_ignores_json_table() {
    let table = TableSourceData {
        file: "test.json".to_string(),
        file_size: 16,
        source_kind: SourceKind::JsonText,
        encoding: SourceEncoding::Utf8,
        header_mode: HeaderMode::Unknown,
        suggested_header: true,
        header_row: None,
        column_labels: vec!["key".to_string()],
        rows: vec![vec!["value".to_string()]],
        total_rows: 1,
        delimiter: None,
        json_shape: Some(JsonTableShape::ArrayOfObjects),
        json_diagnostic: None,
    };

    let resolved = apply_delimited_header_mode_from_unknown(table, HeaderMode::Present);

    assert_eq!(resolved.header_mode, HeaderMode::Unknown);
    assert!(resolved.header_row.is_none());
}

#[test]
fn header_present_uses_widest_row_and_blank_cells_get_default_labels() {
    let labels = build_column_labels(Some(&vec![" a ".to_string(), "  ".to_string()]), 3);
    assert_eq!(labels, vec!["a", "col 2", "col 3"]);
}

#[test]
fn source_limit_is_fifty_mebibytes() {
    assert_eq!(max_source_bytes(), 50 * 1024 * 1024);
}

#[test]
fn intake_error_messages() {
    assert_eq!(
        IntakeError::TooLarge { bytes: 60, limit: 50 }.message(),
        "file too large: 60 bytes > 50 bytes"
    );
    assert_eq!(IntakeError::EmptyFile.message(), "source is empty");
    assert_eq!(
        IntakeError::Delimited("x".to_string()).message(),
        "DelimitedText preview unavailable: x"
    );
}

#[test]
fn column_mode_cycles_and_labels() {
    assert_eq!(ColumnMode::Translate.next(), ColumnMode::Original);
    assert_eq!(ColumnMode::Original.next(), ColumnMode::Skip);
    assert_eq!(ColumnMode::Skip.next(), ColumnMode::Translate);
    assert_eq!(ColumnMode::Translate.short_label(), "T");
    assert_eq!(SourceKind::JsonText.badge(), "JSON");
}

#[test]
fn list_mode_can_enter_before_scan_initialization() {
    let mut state = FileTranslateState::default();

    state.enter_list_mode();

    assert!(state.is_list_mode());
    assert!(!state.initialized);
    assert!(state.root.is_none());
    assert!(state.sources.is_empty());
}

#[test]
fn list_mode_active_is_mode_not_scanned_context() {
    let root = r"C:\assets".to_string();
    let source_path = r"C:\assets\table.csv".to_string();
    let mut state = FileTranslateState::default();
    state.reset_for_root(
        Some(root.clone()),
        vec![AssetSourceCandidate {
            path: source_path.clone(),
            kind: SourceKind::DelimitedText,
            encoding: SourceEncoding::Utf8,
            file_size: 16,
            diagnostic: "ok".to_string(),
        }],
    );
    state.selected_source = Some(source_path.clone());

    state.enter_list_mode();
    assert!(state.is_list_mode());

    state.leave_list_mode();
    assert!(!state.is_list_mode());
    assert_eq!(state.root, Some(root));
    assert_eq!(state.sources.len(), 1);
    assert_eq!(state.selected_source, Some(source_path));
}

#[test]
fn readiness_allows_existing_slot_when_table_and_columns_are_ready() {
    let state = ready_state("ready.csv");
    let readiness = evaluate_run_readiness(&state, Some(r"C:\dicts\ja\text\ja_001"), "ja", r"C:\base", true);

    assert!(readiness.is_ready());
    assert_eq!(
        readiness.dict_slot_action,
        Some(DictSlotAction::UseCommitted(r"C:\dicts\ja\text\ja_001".to_string()))
    );
}

#[test]
fn readiness_plans_create_for_run_slot_when_none_is_committed() {
    let state = ready_state("new_slot.csv");
    let readiness = evaluate_run_readiness(&state, None, "ja", r"C:\base", true);

    assert!(readiness.is_ready());
    assert_eq!(
        readiness.dict_slot_action,
        Some(DictSlotAction::CreateForRun {
            parent: r"C:\base\dicts\ja\text".to_string(),
            target_lang: "ja".to_string(),
        })
    );
}

#[test]
fn readiness_uses_list_output_directory_when_committed_slot_target_mismatches() {
    let state = ready_state("mismatch_slot.csv");
    let readiness = evaluate_run_readiness(&state, Some(r"C:\dicts\ja\text\ja_001"), "en", r"C:\base", true);

    assert!(readiness.is_ready());
    assert_eq!(
        readiness.dict_slot_action,
        Some(DictSlotAction::CreateForRun {
            parent: r"C:\base\dicts\en\text".to_string(),
            target_lang: "en".to_string(),
        })
    );
}

#[test]
fn readiness_keeps_legacy_slot_when_it_belongs_to_current_target() {
    let state = ready_state("legacy_slot.csv");
    let readiness = evaluate_run_readiness(&state, Some(r"C:\dicts\ja\text\S_0001"), "ja", r"C:\base", true);

    assert_eq!(
        readiness.dict_slot_action,
        Some(DictSlotAction::UseCommitted(r"C:\dicts\ja\text\S_0001".to_string()))
    );
}

#[test]
fn readiness_does_not_create_run_slot_without_target_language() {
    let state = ready_state("missing_target.csv");
    let readiness = evaluate_run_readiness(&state, None, " ", r"C:\base", true);

    assert!(!readiness.is_ready());
    assert_eq!(readiness.dict_slot_action, None);
    assert!(matches!(readiness.blockers.as_slice(), [RunBlocker::DictSlotUnavailable(_)]));
}

#[test]
fn readiness_blocks_while_preview_is_loading() {
    let mut state = FileTranslateState::default();
    state.selected_source = Some("loading.csv".to_string());
    state.preview_loading = true;
    state.preview_target = Some("loading.csv".to_string());
    state.preview_header_mode = HeaderMode::Present;

    let readiness = evaluate_run_readiness(&state, Some(r"C:\dicts\ja\text\ja_001"), "ja", r"C:\base", true);

    assert!(!readiness.is_ready());
    assert!(readiness.blockers.contains(&RunBlocker::PreviewLoading));
}

#[test]
fn readiness_blocks_when_header_confirmation_is_missing() {
    let mut table = sample_table("header.csv");
    table.header_mode = HeaderMode::Unknown;
    let mut state = FileTranslateState::default();
    state.selected_source = Some("header.csv".to_string());
    state.preview = PreviewState::Ready(SourcePreview::Table(table));
    state.column_modes.insert(1, ColumnMode::Translate);

    let readiness = evaluate_run_readiness(&state, Some(r"C:\dicts\ja\text\ja_001"), "ja", r"C:\base", true);

    assert!(!readiness.is_ready());
    assert!(readiness.blockers.contains(&RunBlocker::HeaderConfirmationRequired));
}

#[test]
fn json_table_never_requires_header_confirmation() {
    let mut table = sample_table("json_shape.csv");
    table.source_kind = SourceKind::JsonText;
    table.header_mode = HeaderMode::Present;
    table.json_shape = Some(JsonTableShape::ArrayOfObjects);
    let mut state = FileTranslateState::default();
    state.selected_source = Some("json_shape.csv".to_string());
    state.preview = PreviewState::Ready(SourcePreview::Table(table));
    state.column_modes.insert(0, ColumnMode::Translate);

    let readiness = evaluate_run_readiness(&state, Some(r"C:\dicts\ja\text\ja_001"), "ja", r"C:\base", true);

    assert!(!readiness.blockers.contains(&RunBlocker::HeaderConfirmationRequired));
}

#[test]
fn delimited_unknown_requires_header_confirmation() {
    let mut table = sample_table("header_unknown.csv");
    table.source_kind = SourceKind::DelimitedText;
    table.header_mode = HeaderMode::Unknown;
    assert!(table.requires_header_confirmation());
    let mut state = FileTranslateState::default();
    state.selected_source = Some("header_unknown.csv".to_string());
    state.preview = PreviewState::Ready(SourcePreview::Table(table));
    state.column_modes.insert(0, ColumnMode::Translate);

    let readiness = evaluate_run_readiness(&state, Some(r"C:\dicts\ja\text\ja_001"), "ja", r"C:\base", true);

    assert!(!readiness.is_ready());
    assert!(readiness.blockers.contains(&RunBlocker::HeaderConfirmationRequired));
}

#[test]
fn json_table_does_not_support_header_toggle() {
    let mut table = sample_table("json_notoggle.csv");
    table.source_kind = SourceKind::JsonText;
    table.json_shape = Some(JsonTableShape::ArrayOfObjects);
    assert!(!table.supports_header_toggle());
    assert!(!table.requires_header_confirmation());
    let mut table2 = sample_table("json_notoggle.csv");
    table2.source_kind = SourceKind::JsonText;
    table2.json_shape = Some(JsonTableShape::ArrayOfArrays);
    assert!(!table2.supports_header_toggle());
}

#[test]
fn readiness_blocks_when_all_columns_are_none() {
    let mut state = ready_state("all_none.csv");
    state.column_modes.clear();
    let readiness = evaluate_run_readiness(&state, Some(r"C:\dicts\ja\text\ja_001"), "ja", r"C:\base", true);

    assert!(!readiness.is_ready());
    assert!(readiness.blockers.contains(&RunBlocker::NoColumnsSelected));
}

#[test]
fn readiness_ignores_stale_out_of_range_column_modes() {
    let mut state = ready_state("stale_columns.csv");
    state.column_modes.insert(99, ColumnMode::Translate);
    let readiness = evaluate_run_readiness(&state, Some(r"C:\dicts\ja\text\ja_001"), "ja", r"C:\base", true);

    assert!(readiness.is_ready());
}

#[test]
fn readiness_blocks_when_only_out_of_range_columns_are_selected() {
    let mut state = ready_state("only_stale_columns.csv");
    state.column_modes.clear();
    state.column_modes.insert(99, ColumnMode::Translate);
    let readiness = evaluate_run_readiness(&state, Some(r"C:\dicts\ja\text\ja_001"), "ja", r"C:\base", true);

    assert!(!readiness.is_ready());
    assert!(readiness.blockers.contains(&RunBlocker::NoColumnsSelected));
}

#[test]
fn readiness_reports_missing_source_and_unselected_source() {
    let state = ready_state("gone.csv");
    let readiness = evaluate_run_readiness(&state, None, "ja", r"C:\base", false);
    assert_eq!(readiness.blockers, vec![RunBlocker::SourceMissing("gone.csv".to_string())]);

    let empty = FileTranslateState::default();
    let readiness = evaluate_run_readiness(&empty, None, "ja", r"C:\base", true);
    assert_eq!(readiness.blockers, vec![RunBlocker::NoSourceSelected]);
    assert!(readiness.table_source.is_none());
}

#[test]
fn run_entries_go_column_by_column_and_skip_blank_cells() {
    let mut table = sample_table("t.csv");
    table.column_labels = vec!["a".to_string(), "b".to_string()];
    table.rows = vec![
        vec!["x1".to_string(), "y1".to_string()],
        vec!["  ".to_string(), "y2".to_string()],
        vec!["x3".to_string()],
    ];
    let mut modes = std::collections::BTreeMap::new();
    modes.insert(1, ColumnMode::Original);
    modes.insert(0, ColumnMode::Translate);
    modes.insert(7, ColumnMode::Translate);
    let (entries, translated, original) = select_run_entries(&table, &modes).unwrap();
    let cells: Vec<(usize, usize, &str, SelectedMode)> = entries
        .iter()
        .map(|e| (e.column_index, e.row_index, e.source.as_str(), e.mode))
        .collect();
    assert_eq!(
        cells,
        vec![
            (0, 0, "x1", SelectedMode::Translate),
            (0, 2, "x3", SelectedMode::Translate),
            (1, 0, "y1", SelectedMode::Original),
            (1, 1, "y2", SelectedMode::Original),
        ]
    );
    assert_eq!((translated, original), (2, 2));
}

#[test]
fn runner_errors_when_only_out_of_range_columns_are_selected() {
    let table = sample_table("t.csv");
    let mut modes = std::collections::BTreeMap::new();
    modes.insert(9, ColumnMode::Translate);
    let err = select_run_entries(&table, &modes).err().unwrap();
    assert_eq!(err, "no Translate or Original columns selected within column range");
}

#[test]
fn run_errors_when_selected_columns_have_no_non_empty_cells() {
    let mut table = sample_table("t.csv");
    table.rows = vec![vec!["1".to_string(), " ".to_string()]];
    let mut modes = std::collections::BTreeMap::new();
    modes.insert(1, ColumnMode::Translate);
    let err = select_run_entries(&table, &modes).err().unwrap();
    assert_eq!(err, "selected columns contain no runnable cells");
}

#[test]
fn output_name_avoids_existing_files() {
    assert_eq!(output_txt_name("table", &[]), Ok("table.txt".to_string()));
    let existing = vec!["table.txt".to_string(), "table_001.txt".to_string()];
    assert_eq!(output_txt_name("table", &existing), Ok("table_002.txt".to_string()));
    assert_eq!(dict_txt_line("a", "b"), "a=b\n");
}

#[test]
fn stopped_run_reports_partial_output() {
    let outcome = run_outcome(
        "t".to_string(),
        "out",
        "src.csv",
        Err(FILE_TRANSLATE_STOPPED.to_string()),
    );
    assert!(!outcome.is_error);
    assert_eq!(outcome.text, "Stopped\npartial file may remain\noutput directory: out\nsource file: src.csv");
    let failed = run_outcome("t".to_string(), "out", "src.csv", Err("boom".to_string()));
    assert!(failed.is_error);
    assert_eq!(check_response_count(2, 3), Err("response count mismatch: sent 2, got 3".to_string()));
    assert_eq!(check_response_count(2, 2), Ok(()));
}

#[test]
fn preview_results_apply_only_to_the_current_request() {
    let mut state = FileTranslateState::default();
    state.begin_preview_load("a.csv".to_string(), HeaderMode::Unknown, true);
    assert!(state.preview_loading);
    let mut table = sample_table("a.csv");
    table.header_mode = HeaderMode::Unknown;
    table.header_row = None;
    table.suggested_header = true;
    table.rows = vec![
        vec!["id".to_string(), "text".to_string()],
        vec!["1".to_string(), "hello".to_string()],
    ];
    assert!(!state.apply_preview_result("b.csv", HeaderMode::Unknown, Ok(SourcePreview::Table(table.clone()))));
    assert!(state.preview_loading);
    assert!(state.apply_preview_result("a.csv", HeaderMode::Unknown, Ok(SourcePreview::Table(table))));
    assert!(!state.preview_loading);
    assert_eq!(state.preview_header_mode, HeaderMode::Present);
    match &state.preview {
        PreviewState::Ready(SourcePreview::Table(t)) => {
            assert_eq!(t.column_labels, vec!["id", "text"]);
            assert_eq!(t.total_rows, 1);
        }
        _ => panic!("table preview expected"),
    }
    assert!(state.set_column_mode("a.csv", 1, ColumnMode::Translate));
    assert!(!state.set_column_mode("b.csv", 0, ColumnMode::Translate));
    assert!(state.set_column_mode("a.csv", 1, ColumnMode::Skip));
    assert!(state.column_modes.is_empty());
    assert!(!state.preview_worker_lost());
}

#[test]
fn scan_selects_its_first_source() {
    let mut state = FileTranslateState::default();
    state.begin_scan("root".to_string());
    assert!(state.scan_in_progress && state.is_list_mode());
    let first = state.finish_scan(
        "root".to_string(),
        vec![AssetSourceCandidate {
            path: "root\\a.csv".to_string(),
            kind: SourceKind::DelimitedText,
            encoding: SourceEncoding::Utf8,
            file_size: 3,
            diagnostic: String::new(),
        }],
    );
    assert_eq!(first, Some("root\\a.csv".to_string()));
    assert!(!state.scan_in_progress);
}

#[test]
fn run_writes_copied_cells_first_and_reports_them() {
    let mut table = sample_table("C:\\assets\\t.csv");
    table.column_labels = vec!["a".to_string(), "b".to_string()];
    table.rows = vec![
        vec!["x1".to_string(), "y1".to_string()],
        vec!["x2".to_string(), "y2".to_string()],
    ];
    let mut modes = std::collections::BTreeMap::new();
    modes.insert(0, ColumnMode::Translate);
    modes.insert(1, ColumnMode::Original);
    let (entries, translated, original) = select_run_entries(&table, &modes).unwrap();
    let (copied, translate) = write_order(&entries);
    assert_eq!(copied, vec![2, 3]);
    assert_eq!(translate, vec![0, 1]);
    let columns = selected_columns(table.column_labels.len(), &modes);
    assert_eq!(labels_from_selected_columns(&table.column_labels, &columns), "1: a [translate], 2: b [original]");
    assert_eq!(labels_from_selected_columns(&table.column_labels, &vec![]), "-");
    assert_eq!(labels_from_selected_columns(&vec![], &vec![(4, SelectedMode::Original)]), "5: ? [original]");
    let report = run_report("t.csv", "out", "out\\t.txt", &table.column_labels, &columns, &entries, translated, original);
    assert_eq!(
        report,
        [
            "file: t.csv",
            "output directory: out",
            "output: out\\t.txt",
            "selected columns: 1: a [translate], 2: b [original]",
            "written entries: 4",
            "duplicate sources: preserved",
            "translated count: 2",
            "original count: 2",
            "",
            "result preview:",
            "col 1 row 1 [translate] x1 => \u{2026}",
            "col 1 row 2 [translate] x2 => \u{2026}",
            "col 2 row 1 [original] y1 => y1",
            "col 2 row 2 [original] y2 => y2",
        ]
        .join("\n")
    );
}

#[test]
fn chunks_cover_the_texts_in_order() {
    assert_eq!(chunk_ranges(5, 2), vec![(0, 2), (2, 4), (4, 5)]);
    assert_eq!(chunk_ranges(4, 2), vec![(0, 2), (2, 4)]);
    assert_eq!(chunk_ranges(3, 0), vec![(0, 1), (1, 2), (2, 3)]);
    assert_eq!(chunk_ranges(0, 8), vec![]);
    assert_eq!(chunk_ranges(3, 10), vec![(0, 3)]);
}
