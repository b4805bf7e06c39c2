use tenuki::analysis::{
    normalize_input, rebuild_latest_snapshot, record_completed_translation,
    CompletedAnalysisPayload, CompletedTranslationRecord, InputReplayState,
};

#[test]
fn completed_translation_builds_snapshot_from_authority_payload() {
    let mut replay = InputReplayState::default();

    let snapshot = record_completed_translation(
        &mut replay,
        CompletedTranslationRecord {
            authority_payload: CompletedAnalysisPayload {
                raw_text: "authority raw".to_string(),
                extracted_text: "authority extracted".to_string(),
                visible_text: "authority visible".to_string(),
                model_inputs: vec!["authority model input".to_string()],
                final_output: "authority output".to_string(),
                dict_hits: 3,
                model_calls: 4,
            },
        },
    );

    assert_eq!(snapshot.raw_text, "authority raw");
    assert_eq!(snapshot.extracted_text, "authority extracted");
    assert_eq!(snapshot.visible_text, "authority visible");
    assert_eq!(
        snapshot.model_inputs,
        vec!["authority model input".to_string()]
    );
    assert_eq!(snapshot.final_output.as_deref(), Some("authority output"));
    assert_eq!(snapshot.dict_hits, 3);
    assert_eq!(snapshot.model_calls, 4);

    let state = &replay;
    let saved = state.latest_snapshot.as_ref().unwrap();
    assert_eq!(saved.raw_text, "authority raw");
    assert_eq!(saved.extracted_text, "authority extracted");
    assert_eq!(saved.visible_text, "authority visible");
    assert_eq!(
        saved.model_inputs,
        vec!["authority model input".to_string()]
    );
    assert_eq!(saved.final_output.as_deref(), Some("authority output"));
    assert_eq!(saved.dict_hits, 3);
    assert_eq!(saved.model_calls, 4);
}

#[test]
fn rebuild_latest_snapshot_replays_saved_snapshot_as_stale() {
    let mut replay = InputReplayState::default();
    let snapshot = record_completed_translation(
        &mut replay,
        CompletedTranslationRecord {
            authority_payload: CompletedAnalysisPayload {
                raw_text: "raw=source".to_string(),
                extracted_text: "payload extracted".to_string(),
                visible_text: "payload visible".to_string(),
                model_inputs: vec!["payload model input".to_string()],
                final_output: "payload output".to_string(),
                dict_hits: 5,
                model_calls: 6,
            },
        },
    );
    assert!(!snapshot.result_stale);

    let replayed = rebuild_latest_snapshot(&mut replay, true).unwrap();
    assert_eq!(replayed.raw_text, "raw=source");
    assert_eq!(replayed.extracted_text, "payload extracted");
    assert_eq!(replayed.visible_text, "payload visible");
    assert_eq!(
        replayed.model_inputs,
        vec!["payload model input".to_string()]
    );
    assert_eq!(replayed.final_output.as_deref(), Some("payload output"));
    assert!(replayed.result_stale);
    assert_eq!(replayed.dict_hits, 5);
    assert_eq!(replayed.model_calls, 6);

    let saved = replay.latest_snapshot.clone().unwrap();
    assert!(saved.result_stale);
}

#[test]
fn normalize_input_turns_crlf_into_lf() {
    assert_eq!(normalize_input("a\r\nb\rc\n"), "a\nb\rc\n");
}

#[test]
fn rebuild_without_snapshot_is_none() {
    let mut replay = InputReplayState::default();
    assert!(rebuild_latest_snapshot(&mut replay, true).is_none());
}

#[test]
fn snapshot_texts_use_lf_line_ends() {
    let mut replay = InputReplayState::default();
    let snapshot = record_completed_translation(
        &mut replay,
        CompletedTranslationRecord {
            authority_payload: CompletedAnalysisPayload {
                raw_text: "a\r\nb".to_string(),
                extracted_text: "c\r\nd".to_string(),
                visible_text: "e".to_string(),
                model_inputs: vec![],
                final_output: "f\r\ng".to_string(),
                dict_hits: 0,
                model_calls: 0,
            },
        },
    );
    assert_eq!(snapshot.raw_text, "a\nb");
    assert_eq!(snapshot.extracted_text, "c\nd");
    assert_eq!(snapshot.final_output.as_deref(), Some("f\r\ng"));
}
