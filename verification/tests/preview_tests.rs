use std::collections::BTreeMap;

use tenuki::file_translate::preview::{build_run_log_seed, RunLogTexts};
use tenuki::file_translate::state::{DictSlotAction, FileTranslateRunReadiness, RunBlocker};
use tenuki::file_translate::types::{
    ColumnMode, HeaderMode, PreviewState, SourceEncoding, SourceKind, SourcePreview, TableSourceData,
};

fn texts(blockers: Vec<&str>) -> RunLogTexts {
    let s = |x: &str| x.to_string();
    RunLogTexts {
        select_source_to_preview: s("Select a source to preview"),
        preview_unavailable: s("Preview unavailable"),
        source: s("Source"),
        kind: s("Kind"),
        rows: s("rows"),
        cols: s("cols"),
        header: s("Header"),
        selected_columns: s("Selected columns"),
        output_directory: s("Output directory"),
        json_diagnostic: s("JSON diagnostic"),
        run: s("Run"),
        ready_to_run: s("Ready to run"),
        need: s("Need"),
        preview: s("Preview"),
        unsupported_binary: s("Unsupported binary"),
        use_committed_output_directory: s("Use committed output directory"),
        list_output_directory_will_be_used: s("List output directory will be used"),
        root: s("root"),
        kind_label: s("Delimited text"),
        header_mode_label: s("Present"),
        header_suggestion_label: s("header suggested"),
        translate_label: s("translate"),
        original_label: s("original"),
        skip_label: s("skip"),
        readiness_label: s("ready"),
        blocker_labels: blockers.into_iter().map(s).collect(),
    }
}

fn fixture() -> (PreviewState, BTreeMap<usize, ColumnMode>, FileTranslateRunReadiness) {
    let table = TableSourceData {
        file: r"C:\assets\table.csv".to_string(),
        file_size: 16,
        source_kind: SourceKind::DelimitedText,
        encoding: SourceEncoding::Utf8,
        header_mode: HeaderMode::Present,
        suggested_header: true,
        header_row: Some(vec!["id".to_string(), "text".to_string()]),
        column_labels: vec!["id".to_string(), "text".to_string()],
        rows: vec![vec!["1".to_string(), "hello".to_string()]],
        total_rows: 1,
        delimiter: Some(','),
        json_shape: None,
        json_diagnostic: None,
    };
    let mut column_modes = BTreeMap::new();
    column_modes.insert(1, ColumnMode::Translate);
    let readiness = FileTranslateRunReadiness {
        selected_file: Some(table.file.clone()),
        table_source: Some(table.clone()),
        dict_slot_action: Some(DictSlotAction::CreateForRun {
            parent: r"C:\base\dicts\ja\text".to_string(),
            target_lang: "ja".to_string(),
        }),
        blockers: Vec::new(),
    };
    (PreviewState::Ready(SourcePreview::Table(table)), column_modes, readiness)
}

#[test]
fn run_log_seed_names_the_list_output_directory() {
    let (preview, modes, readiness) = fixture();
    let log = build_run_log_seed(&texts(vec![]), &preview, &modes, &readiness);
    assert_eq!(
        log,
        vec![
            r"[Source] C:\assets\table.csv".to_string(),
            "[Kind] Delimited text / 1 rows / 2 cols".to_string(),
            "[Header] Present".to_string(),
            "[Selected columns] 2: text [translate]".to_string(),
            r"[Output directory] List output directory will be used: ja root C:\base\dicts\ja\text".to_string(),
            "[Run] Ready to run".to_string(),
        ]
    );
    assert!(log.join("\n").contains("List output directory will be used"));
}

#[test]
fn run_log_seed_lists_what_a_run_needs() {
    let (preview, _modes, mut readiness) = fixture();
    readiness.blockers = vec![RunBlocker::NoColumnsSelected];
    let log = build_run_log_seed(&texts(vec!["select a column"]), &preview, &BTreeMap::new(), &readiness);
    assert_eq!(log[3], "[Selected columns] -");
    assert_eq!(log[5], "[Need] select a column");
    assert_eq!(log.len(), 6);
    let empty = build_run_log_seed(&texts(vec![]), &PreviewState::Empty, &BTreeMap::new(), &readiness);
    assert_eq!(empty, vec!["[list] Select a source to preview".to_string()]);
    let error = build_run_log_seed(&texts(vec![]), &PreviewState::Error("bad".to_string()), &BTreeMap::new(), &readiness);
    assert_eq!(error, vec!["[error] Preview unavailable: bad".to_string()]);
}
