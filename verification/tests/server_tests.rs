use tenuki::server::{
    batch_diagnostic_lines, build_completed_analysis_payload, check_list_request, check_translate_body, check_translate_text,
    commit_new_entries, extract_translate_post_text, lookup_decision, parse_form_text, preview_text,
    total_list_request_bytes, BatchTranslationOutput, ItemDiagnostics, LookupSource, PipelineBehavior,
    Rejection, TranslateRequest, MAX_LIST_ITEMS,
};
use tenuki::translator::cache::{NewEntriesCache, TranslationCache};
use tenuki::translator::types::{NewTranslationEntry, PersistEntry, TranslationStats};

fn json_request(body: &[u8]) -> Option<TranslateRequest> {
    let text = std::str::from_utf8(body).ok()?.trim().to_string();
    let value: serde_json::Value = serde_json::from_str(&text).ok()?;
    let object = value.as_object()?;
    let field = |name: &str| -> Result<Option<String>, ()> {
        match object.get(name) {
            None | Some(serde_json::Value::Null) => Ok(None),
            Some(serde_json::Value::String(s)) => Ok(Some(s.clone())),
            Some(_) => Err(()),
        }
    };
    Some(TranslateRequest { text: field("text").ok()?, content: field("content").ok()? })
}

fn extract(content_type: Option<&str>, body: &[u8]) -> Option<String> {
    extract_translate_post_text(content_type, body, json_request(body))
}

#[test]
fn extracts_text_from_form_body() {
    let body = b"text=%E3%83%86%E3%82%B9%E3%83%88";
    assert_eq!(
        extract(Some("application/x-www-form-urlencoded"), body),
        Some("テスト".to_string())
    );
}

#[test]
fn extracts_content_from_json_body() {
    let body = br#"{"content":"hello"}"#;
    assert_eq!(extract(Some("application/json"), body), Some("hello".to_string()));
}

#[test]
fn falls_back_to_plain_text_body() {
    let body = b"plain text body";
    assert_eq!(extract(Some("text/plain"), body), Some("plain text body".to_string()));
}

#[test]
fn plain_text_fallback_preserves_raw_body_edges() {
    let body = b"  plain text body\r\n";
    assert_eq!(extract(Some("text/plain"), body), Some("  plain text body\r\n".to_string()));
}

#[test]
fn empty_blank_and_invalid_bodies_have_no_text() {
    assert_eq!(extract(None, b""), None);
    assert_eq!(extract(None, b"   \n"), None);
    assert_eq!(extract(None, &[0xff, 0xfe]), None);
}

#[test]
fn json_text_wins_over_content_and_form_falls_back() {
    assert_eq!(extract(None, br#"{"text":"a","content":"b"}"#), Some("a".to_string()));
    assert_eq!(parse_form_text("x=1&content=hi%20there"), Some("hi there".to_string()));
    assert_eq!(parse_form_text("x=1&y=2"), None);
}

#[test]
fn completed_analysis_payload_uses_item_diagnostics() {
    let mut batch = BatchTranslationOutput::default();
    batch.stats = TranslationStats { dict_hits: 1, model_calls: 2 };
    batch.item_diagnostics = vec![ItemDiagnostics {
        raw_text: "raw".to_string(),
        extracted_text: "extracted".to_string(),
        visible_text: "visible".to_string(),
        input_preview: "raw".to_string(),
        dict_hits: 1,
        model_calls: 2,
        model_inputs: vec!["model A".to_string(), "model B".to_string()],
    }];

    let payload = build_completed_analysis_payload(&batch, "final").unwrap();

    assert_eq!(payload.raw_text, "raw");
    assert_eq!(payload.extracted_text, "extracted");
    assert_eq!(payload.visible_text, "visible");
    assert_eq!(payload.model_inputs, vec!["model A".to_string(), "model B".to_string()]);
    assert_eq!(payload.final_output, "final");
    assert_eq!(payload.dict_hits, 1);
    assert_eq!(payload.model_calls, 2);
}

#[test]
fn empty_batch_has_no_analysis_payload() {
    let batch = BatchTranslationOutput::default();
    assert!(build_completed_analysis_payload(&batch, "x").is_none());
}

#[test]
fn preview_replaces_newlines_and_truncates() {
    assert_eq!(preview_text("a\r\nb"), "a [nl] b");
    let long = "x".repeat(81);
    assert_eq!(preview_text(&long), format!("{}...", "x".repeat(80)));
    assert_eq!(preview_text(&"y".repeat(80)), "y".repeat(80));
}

#[test]
fn list_limits_refuse_empty_crowded_and_heavy_requests() {
    assert_eq!(check_list_request(&[]), Some(Rejection::NoTexts));
    let many = vec!["a".to_string(); MAX_LIST_ITEMS + 1];
    assert_eq!(check_list_request(&many), Some(Rejection::TooManyTexts));
    let heavy = vec!["あ".repeat(100_000), "b".repeat(300_000)];
    assert_eq!(total_list_request_bytes(&heavy), 600_000);
    assert_eq!(check_list_request(&heavy), Some(Rejection::ListTooLarge));
    assert_eq!(check_list_request(&["ok".to_string()]), None);
    assert_eq!(Rejection::TooManyTexts.status(), 400);
    assert_eq!(Rejection::TooManyTexts.message(), "too many texts for /list");
}

#[test]
fn translate_limits_refuse_large_bodies_and_texts() {
    assert_eq!(check_translate_body(96 * 1024 + 1), Some(Rejection::BodyTooLarge));
    assert_eq!(check_translate_body(96 * 1024), None);
    assert_eq!(check_translate_text(""), Some(Rejection::NoText));
    assert_eq!(check_translate_text(&"z".repeat(64 * 1024 + 1)), Some(Rejection::TextTooLarge));
    assert_eq!(Rejection::TextTooLarge.status(), 413);
    assert_eq!(check_translate_text("hello"), None);
}

#[test]
fn list_mode_skips_dictionary_and_commit() {
    let list = PipelineBehavior::list_mode();
    assert!(!list.use_dictionary_lookup && !list.commit_new_entries && list.emit_word_logs);
    let normal = PipelineBehavior::normal_translate();
    assert!(normal.use_dictionary_lookup && normal.commit_new_entries && normal.emit_observations);
}

#[test]
fn source_hit_precedes_value_observation_hit() {
    let (value, source, cache) = lookup_decision(
        true,
        None,
        Some("dict".to_string()),
        Some("cached value".to_string()),
        None,
    );
    assert_eq!(value, Some("dict".to_string()));
    assert_eq!(source, LookupSource::DictionarySource);
    assert!(cache);
    let (value, source, _) = lookup_decision(false, Some("x".to_string()), None, None, None);
    assert_eq!(value, None);
    assert_eq!(source, LookupSource::Disabled);
    let (value, source, _) = lookup_decision(true, None, None, None, None);
    assert_eq!(value, None);
    assert_eq!(source, LookupSource::Miss);
}

#[test]
fn commit_keeps_exact_entry_in_both_caches_and_regex_only_when_registered() {
    let mut t_cache = TranslationCache::new();
    let mut n_cache = NewEntriesCache::new();
    let entries = vec![
        NewTranslationEntry {
            source: "攻撃".to_string(),
            translated: "Attack".to_string(),
            persist: PersistEntry::Exact { key: "攻撃".to_string(), value: "Attack".to_string() },
        },
        NewTranslationEntry {
            source: "体力-ZMDZ".to_string(),
            translated: "HP -ZMDZ".to_string(),
            persist: PersistEntry::Regex { pattern: "^体力$".to_string(), replacement: "HP".to_string() },
        },
        NewTranslationEntry {
            source: "x".to_string(),
            translated: "y".to_string(),
            persist: PersistEntry::Regex { pattern: "(".to_string(), replacement: "y".to_string() },
        },
    ];
    let register = |pattern: String, _replacement: String| pattern != "(";
    let summary = commit_new_entries(&register, &mut t_cache, &mut n_cache, &entries);

    assert_eq!(summary.exact_committed, 1);
    assert_eq!(summary.regex_registered, 1);
    assert_eq!(summary.regex_skipped, 1);
    assert_eq!(t_cache.lookup_source("攻撃"), Some("Attack".to_string()));
    assert_eq!(t_cache.lookup_source("体力-ZMDZ"), None);
    assert_eq!(
        n_cache.drain(),
        vec![
            ("攻撃".to_string(), "Attack".to_string()),
            ("r:\"^体力$\"".to_string(), "HP".to_string()),
        ]
    );
}

#[test]
fn commit_keeps_exact_entry_in_both_caches() {
    let mut t_cache = TranslationCache::new();
    let mut n_cache = NewEntriesCache::new();
    let entries = vec![NewTranslationEntry {
        source: "hello".to_string(),
        translated: "bonjour".to_string(),
        persist: PersistEntry::Exact { key: "hello".to_string(), value: "bonjour".to_string() },
    }];
    let register = |_pattern: String, _replacement: String| true;
    commit_new_entries(&register, &mut t_cache, &mut n_cache, &entries);
    assert_eq!(t_cache.lookup_source("hello"), Some("bonjour".to_string()));
    assert_eq!(n_cache.drain(), vec![("hello".to_string(), "bonjour".to_string())]);
}

#[test]
fn commit_regex_duplicate_live_register_does_not_fallback_to_exact_save() {
    let registered = std::cell::RefCell::new(Vec::<String>::new());
    // A live dictionary registers a pattern once.
    let register = |pattern: String, _replacement: String| {
        let mut seen = registered.borrow_mut();
        if seen.contains(&pattern) {
            false
        } else {
            seen.push(pattern);
            true
        }
    };
    let mut t_cache = TranslationCache::new();
    let mut n_cache = NewEntriesCache::new();
    let entry = || NewTranslationEntry {
        source: "ATK+ZMCZ%".to_string(),
        translated: "Attack+ZMCZ%".to_string(),
        persist: PersistEntry::Regex {
            pattern: "^ATK([+]Z[A-Z]+Z[%])$".to_string(),
            replacement: "Attack$1".to_string(),
        },
    };
    commit_new_entries(&register, &mut t_cache, &mut n_cache, &[entry()]);
    let _ = n_cache.drain();
    let summary = commit_new_entries(&register, &mut t_cache, &mut n_cache, &[entry()]);
    assert_eq!(summary.regex_skipped, 1);
    assert!(t_cache.lookup_source("ATK+ZMCZ%").is_none());
    assert!(n_cache.drain().is_empty());
}

#[test]
fn batch_diagnostics_report_items_split_into_several_calls() {
    let mut batch = BatchTranslationOutput::default();
    assert!(batch_diagnostic_lines("translate", &batch).is_empty());
    let item = |calls: usize, hits: usize, preview: &str| ItemDiagnostics {
        raw_text: String::new(),
        extracted_text: String::new(),
        visible_text: String::new(),
        input_preview: preview.to_string(),
        dict_hits: hits,
        model_calls: calls,
        model_inputs: Vec::new(),
    };
    batch.item_diagnostics = vec![item(1, 0, "a"), item(3, 1, "b [nl] c")];
    batch.stats = TranslationStats { dict_hits: 1, model_calls: 4 };
    assert_eq!(
        batch_diagnostic_lines("list", &batch),
        vec![
            "list request: items=2, model_calls=4, dict_hits=1, segmented_items=1".to_string(),
            "list item#2 split into 3 model calls (dict_hits=1): b [nl] c".to_string(),
        ]
    );
}
