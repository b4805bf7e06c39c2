use std::sync::Mutex;

use regex::Regex;
use tenuki::dictionary::split::SplitResult;
use tenuki::translator::client::LlmClient;
use tenuki::translator::resolve::{dedupe_entries, has_echo_back};
use tenuki::translator::translate_chunk as translate_chunk_with_split;
use tenuki::translator::types::{
    LogEvent, NewTranslationEntry, PersistEntry, TranslationResult, TranslationSettings,
};

fn no_split(_key: &str) -> Option<SplitResult> {
    None
}

fn translate_chunk<F>(
    chunk: &str,
    lookup: F,
    prefix: &str,
    tgt_lang: &str,
    llm_client: &dyn LlmClient,
    settings: TranslationSettings,
) -> TranslationResult
where
    F: Fn(&str) -> Option<String>,
{
    translate_chunk_with_split(chunk, lookup, no_split, prefix, tgt_lang, llm_client, settings)
}

#[derive(Default)]
struct MockLlmClient {
    calls: Mutex<Vec<String>>,
    responses: Mutex<Vec<String>>,
}

impl MockLlmClient {
    fn with_responses(values: &[&str]) -> Self {
        Self {
            calls: Mutex::new(Vec::new()),
            responses: Mutex::new(values.iter().map(|value| value.to_string()).collect()),
        }
    }

    fn calls(&self) -> Vec<String> {
        self.calls.lock().unwrap().clone()
    }
}

impl LlmClient for MockLlmClient {
    fn translate_sync(&self, text: &str, _prefix: &str) -> Option<String> {
        self.calls.lock().unwrap().push(text.to_string());
        let mut responses = self.responses.lock().unwrap();
        if responses.is_empty() {
            None
        } else {
            Some(responses.remove(0))
        }
    }
}

fn test_settings() -> TranslationSettings {
    TranslationSettings {
        enable_model_wrap: true,
        model_wrap_min_chars: 80,
        model_wrap_space_fallback_min_chars: 100,
        enable_model_symbol_cleanup: true,
    }
}

fn legacy_settings() -> TranslationSettings {
    TranslationSettings {
        enable_model_wrap: true,
        model_wrap_min_chars: 60,
        model_wrap_space_fallback_min_chars: 100,
        enable_model_symbol_cleanup: true,
    }
}

fn entry(key: &str, value: &str) -> NewTranslationEntry {
    NewTranslationEntry {
        source: key.to_string(),
        translated: value.to_string(),
        persist: PersistEntry::Exact { key: key.to_string(), value: value.to_string() },
    }
}

fn pairs(result: &TranslationResult) -> Vec<(String, String)> {
    result.new_entries.iter().map(|e| (e.source.clone(), e.translated.clone())).collect()
}

#[test]
fn mod_split_fragments_are_sent_as_is() {
    let llm = MockLlmClient::with_responses(&["Later", "Cycle"]);
    let result = translate_chunk("Next;Turn", |_| None, "prefix", "en", &llm, test_settings());

    assert_eq!(llm.calls(), vec!["Next", "Turn"]);
    assert_eq!(result.text, "Later;Cycle");
    assert_eq!(result.new_entries, vec![entry("Next", "Later"), entry("Turn", "Cycle")]);
}

#[test]
fn mod_bracket_only_reprocesses_inner_text() {
    let llm = MockLlmClient::with_responses(&["Quest"]);
    let result = translate_chunk(
        "(Start;Next)",
        |key| (key == "Start").then(|| "Begin".to_string()),
        "prefix",
        "en",
        &llm,
        test_settings(),
    );

    assert_eq!(llm.calls(), vec!["Next"]);
    assert_eq!(result.text, "(Begin;Quest)");
    assert_eq!(result.new_entries, vec![entry("Next", "Quest")]);
}

#[test]
fn translator_split_fragments_are_sent_as_is() {
    let llm = MockLlmClient::with_responses(&["Later", "Cycle"]);
    let result = translate_chunk("Next;Turn", |_| None, "prefix", "en", &llm, legacy_settings());

    assert_eq!(llm.calls(), vec!["Next", "Turn"]);
    assert_eq!(result.text, "Later;Cycle");
    assert_eq!(
        pairs(&result),
        vec![
            ("Next".to_string(), "Later".to_string()),
            ("Turn".to_string(), "Cycle".to_string()),
        ]
    );
}

#[test]
fn translator_bracket_only_reprocesses_inner_text() {
    let llm = MockLlmClient::with_responses(&["Quest"]);
    let result = translate_chunk(
        "(Start;Next)",
        |key| (key == "Start").then(|| "Begin".to_string()),
        "prefix",
        "en",
        &llm,
        legacy_settings(),
    );

    assert_eq!(llm.calls(), vec!["Next"]);
    assert_eq!(result.text, "(Begin;Quest)");
    assert_eq!(pairs(&result), vec![("Next".to_string(), "Quest".to_string())]);
}

#[test]
fn mixed_bracket_segment_reprocesses_inner_text() {
    let llm = MockLlmClient::with_responses(&["Quest"]);
    let result = translate_chunk(
        "foo(Start;Next)bar",
        |key| match key {
            "foo" => Some("Foo".to_string()),
            "Start" => Some("Begin".to_string()),
            "bar" => Some("Bar".to_string()),
            _ => None,
        },
        "prefix",
        "en",
        &llm,
        legacy_settings(),
    );

    assert_eq!(llm.calls(), vec!["Next"]);
    assert_eq!(result.text, "Foo(Begin;Quest)Bar");
    assert_eq!(pairs(&result), vec![("Next".to_string(), "Quest".to_string())]);
}

#[test]
fn one_sided_text_outside_bracket_is_fragment_not_whole() {
    let result = translate_chunk(
        "中立(ZMCZ)",
        |key| match key {
            "中立" => Some("平常".to_string()),
            "ZMCZ" => Some("ZMCZ".to_string()),
            _ => None,
        },
        "prefix",
        "ja",
        &MockLlmClient::with_responses(&[]),
        test_settings(),
    );

    assert_eq!(result.text, "平常(ZMCZ)");
    assert!(result.new_entries.is_empty());
}

#[test]
fn multi_bracket_mixed_sentence_with_outer_text_is_not_whole_fragment() {
    let llm = MockLlmClient::with_responses(&["Foo", "InnerA", "Sentence", "InnerB", "Bar"]);
    let result = translate_chunk(
        "foo[内伤ZMDZ]造成了伤害ZMCZ点。[真伤ZMEZ]bar",
        |_| None,
        "prefix",
        "en",
        &llm,
        test_settings(),
    );

    assert_eq!(llm.calls(), vec!["foo", "内伤2", "造成了伤害2点。", "真伤2", "bar"]);
    assert!(result
        .new_entries
        .iter()
        .all(|entry| entry.source != "foo[内伤ZMDZ]造成了伤害ZMCZ点。[真伤ZMEZ]bar"));
}

#[test]
fn protected_angles_are_not_sent_to_model() {
    let llm = MockLlmClient::with_responses(&["Attack"]);
    let result = translate_chunk(
        "<color=red>攻撃</color>",
        |_| None,
        "prefix",
        "en",
        &llm,
        test_settings(),
    );

    assert_eq!(llm.calls(), vec!["攻撃"]);
    assert_eq!(result.text, "<color=red>Attack</color>");
    assert!(result.new_entries.iter().all(|entry| !entry.source.contains("<color=red>")));
}

#[test]
fn dict_hit_is_terminal_no_model_nor_registration() {
    let llm = MockLlmClient::with_responses(&[]);
    let result = translate_chunk(
        "吸内ZMDZ",
        |key| (key == "吸内ZMDZ").then(|| "吸い込むZMDZ".to_string()),
        "prefix",
        "en",
        &llm,
        test_settings(),
    );

    assert!(llm.calls().is_empty());
    assert_eq!(result.text, "吸い込むZMDZ");
    assert!(result.new_entries.is_empty());
}

#[test]
fn translate_fragment_register_key_is_fragment_itself() {
    let llm = MockLlmClient::with_responses(&["吸い込む2"]);
    let result = translate_chunk("吸内ZMDZ", |_| None, "prefix", "en", &llm, test_settings());

    assert_eq!(result.new_entries.len(), 1);
    let entry = &result.new_entries[0];
    assert_eq!(entry.source, "吸内ZMDZ");
    assert_eq!(entry.translated, "吸い込むZMDZ");
    assert!(matches!(entry.persist, PersistEntry::Regex { .. }));
}

#[test]
fn test_register_key_is_fragment_whole_with_signed_zm() {
    let llm = MockLlmClient::with_responses(&["Current HP -2"]);
    let result = translate_chunk("体力-ZMDZ", |_| None, "prefix", "en", &llm, test_settings());

    assert_eq!(result.new_entries.len(), 1);
    let entry = &result.new_entries[0];
    assert_eq!(entry.source, "体力-ZMDZ");
    assert_eq!(entry.translated, "Current HP -ZMDZ");
    match &entry.persist {
        PersistEntry::Regex { pattern, replacement } => {
            let regex = Regex::new(pattern).unwrap();
            assert_eq!(regex.replace("体力-ZMEZ", replacement.as_str()), "Current HP -ZMEZ");
        }
        other => panic!("expected Regex persist, got {other:?}"),
    }
}

#[test]
fn duplicate_zm_source_span_uses_occurrence_order_for_regex_persist() {
    let llm = MockLlmClient::with_responses(&["2ラウンド内、内力を3%回復"]);
    let result = translate_chunk("ZMCZ回合内恢复ZMCZ%内力", |_| None, "prefix", "ja", &llm, test_settings());

    assert_eq!(llm.calls(), vec!["2回合内恢复3%内力"]);

    let entry = result
        .new_entries
        .iter()
        .find(|entry| matches!(entry.persist, PersistEntry::Regex { .. }))
        .expect("regex persist should be created");

    match &entry.persist {
        PersistEntry::Regex { pattern, replacement } => {
            assert!(pattern.matches("([+＋\\-－−]?Z[A-Z]+Z[%％]?)").count() >= 2);
            assert!(replacement.contains("$1"));
            assert!(replacement.contains("$2"));
        }
        _ => unreachable!(),
    }
}

#[test]
fn duplicate_existing_numbers_are_counted_as_source_slots_for_regex_persist() {
    let llm = MockLlmClient::with_responses(&["stage１ stage1 recovers ２％ power"]);
    let result = translate_chunk("stage１ stage1 recover ZMCZ% power", |_| None, "prefix", "en", &llm, test_settings());

    assert_eq!(llm.calls(), vec!["stage１ stage1 recover 2% power"]);

    let entry = result
        .new_entries
        .iter()
        .find(|entry| matches!(entry.persist, PersistEntry::Regex { .. }))
        .expect("regex persist should be created");

    match &entry.persist {
        PersistEntry::Regex { pattern, replacement } => {
            assert!(pattern.contains("stage１ stage1"));
            assert!(pattern.contains("([+＋\\-－−]?Z[A-Z]+Z[%％]?)"));
            assert_eq!(replacement, "stage１ stage1 recovers $1 power");
        }
        _ => unreachable!(),
    }
}

#[test]
fn fullwidth_transport_numbers_use_numeric_slot_order_for_regex_persist() {
    let llm = MockLlmClient::with_responses(&["２ turns recover ３％ power"]);
    let result = translate_chunk("ZMCZ turns recover ZMCZ% power", |_| None, "prefix", "en", &llm, test_settings());

    assert_eq!(llm.calls(), vec!["「2」 turns recover 3% power"]);

    let entry = result
        .new_entries
        .iter()
        .find(|entry| matches!(entry.persist, PersistEntry::Regex { .. }))
        .expect("regex persist should be created");

    match &entry.persist {
        PersistEntry::Regex { pattern, replacement } => {
            let regex = Regex::new(pattern).unwrap();
            assert_eq!(
                regex.replace("ZMDZ turns recover ZMEZ% power", replacement.as_str()),
                "ZMDZ turns recover ZMEZ% power"
            );
            assert_eq!(replacement, "$1 turns recover $2 power");
        }
        _ => unreachable!(),
    }
}

#[test]
fn numeric_slot_count_mismatch_skips_zm_regex_without_exact_fallback() {
    let llm = MockLlmClient::with_responses(&["some turns recover ３％ power"]);
    let result = translate_chunk("ZMCZ turns recover ZMCZ% power", |_| None, "prefix", "en", &llm, test_settings());

    assert_eq!(llm.calls(), vec!["「2」 turns recover 3% power"]);
    assert!(result.new_entries.is_empty());
}

#[test]
fn space_separated_zm_uses_model_transport_without_exact_fallback() {
    let llm = MockLlmClient::with_responses(&["Translated"]);
    let result = translate_chunk("ATK + ZMCZ %", |_| None, "prefix", "en", &llm, test_settings());

    assert_eq!(llm.calls(), vec!["ATK + 2 %"]);
    assert_eq!(result.text, "Translated");
    assert!(result.new_entries.is_empty());
}

#[test]
fn adjacent_sign_zm_with_right_text_uses_model_transport_without_exact_fallback() {
    let llm = MockLlmClient::with_responses(&["Translated"]);
    let result = translate_chunk("ATK+ZMCZ% up", |_| None, "prefix", "en", &llm, test_settings());

    assert_eq!(llm.calls(), vec!["ATK+2% up"]);
    assert_eq!(result.text, "Translated");
    assert!(result.new_entries.is_empty());
}

#[test]
fn zm_lookup_miss_keeps_regex_entry_on_restored_surface_match() {
    let llm = MockLlmClient::with_responses(&["*2  #3"]);
    let result = translate_chunk("*ZMCZ  #ZMDZ", |_| None, "prefix", "en", &llm, test_settings());

    assert_eq!(llm.calls(), vec!["*2  #3"]);
    assert_eq!(result.text, "*ZMCZ  #ZMDZ");
    assert_eq!(result.new_entries.len(), 1);
    assert_eq!(result.new_entries[0].source, "*ZMCZ  #ZMDZ");
    assert!(matches!(result.new_entries[0].persist, PersistEntry::Regex { .. }));
    assert!(result.logs.iter().any(|event| matches!(
        event,
        LogEvent::ModelResult {
            source,
            original,
            translated,
            ..
        } if source == "*ZMCZ  #ZMDZ"
            && original == "*2  #3"
            && translated == "*ZMCZ  #ZMDZ"
    )));
}

#[test]
fn zm_persist_number_disappears_skips_registration() {
    let llm = MockLlmClient::with_responses(&["A"]);
    let result = translate_chunk("A+ZMCZ", |_| None, "prefix", "en", &llm, test_settings());

    assert_eq!(result.text, "A");
    assert!(result.new_entries.is_empty());
}

fn anchored_split(key: &str) -> Option<SplitResult> {
    let re = Regex::new("对你的$").unwrap();
    re.captures(key).map(|caps| {
        let m = caps.get(0).unwrap();
        SplitResult {
            full_match_start: m.start(),
            full_match_end: m.end(),
            inner_groups: Vec::new(),
            replacement: "$Lがあなたに".to_string(),
        }
    })
}

#[test]
fn split_end_anchor_matches_separator_leaves_left() {
    let llm = MockLlmClient::with_responses(&["顧游年"]);
    let result = translate_chunk_with_split(
        "顧游年对你的",
        |_| None,
        anchored_split,
        "prefix",
        "ja",
        &llm,
        test_settings(),
    );

    assert_eq!(result.text, "顧游年があなたに");
    assert_eq!(llm.calls(), vec!["顧游年"]);
}

#[test]
fn split_left_dict_hit_preserves_translation() {
    let llm = MockLlmClient::with_responses(&[]);
    let result = translate_chunk_with_split(
        "顧游年对你的",
        |key| (key == "顧游年").then(|| "顧游年".to_string()),
        anchored_split,
        "prefix",
        "ja",
        &llm,
        test_settings(),
    );

    assert_eq!(result.text, "顧游年があなたに");
    assert!(llm.calls().is_empty());
}

#[test]
fn blank_chunk_is_returned_unchanged() {
    let llm = MockLlmClient::with_responses(&["x"]);
    let result = translate_chunk("  \n ", |_| None, "prefix", "en", &llm, test_settings());
    assert_eq!(result.text, "  \n ");
    assert!(llm.calls().is_empty());
    assert!(result.new_entries.is_empty());
    assert_eq!(result.stats.model_calls, 0);
}

#[test]
fn failed_model_call_keeps_source_text() {
    let llm = MockLlmClient::with_responses(&[]);
    let result = translate_chunk("Hello", |_| None, "prefix", "en", &llm, test_settings());
    assert_eq!(result.text, "Hello");
    assert!(result.new_entries.is_empty());
    assert_eq!(result.stats.model_calls, 1);
    assert!(result
        .logs
        .iter()
        .any(|e| matches!(e, LogEvent::Error { message } if message == "LLM call failed for: Hello")));
}

#[test]
fn echoed_prompt_is_retried_with_plain_prompt() {
    let llm = MockLlmClient::with_responses(&["[Translation] Hi", "Hi"]);
    let result = translate_chunk("Hallo", |_| None, "prefix", "en", &llm, test_settings());
    assert_eq!(llm.calls(), vec!["Hallo", "Hallo"]);
    assert_eq!(result.text, "Hi");
}

#[test]
fn echo_back_markers_are_detected() {
    assert!(has_echo_back("【译文】你好"));
    assert!(has_echo_back("x [Übersetzung] y"));
    assert!(!has_echo_back("plain reply"));
}

#[test]
fn split_groups_and_separator_fill_the_template() {
    let split = |key: &str| -> Option<SplitResult> {
        let re = Regex::new("(甲)和(乙)").unwrap();
        re.captures(key).map(|caps| {
            let m = caps.get(0).unwrap();
            SplitResult {
                full_match_start: m.start(),
                full_match_end: m.end(),
                inner_groups: (1..caps.len())
                    .map(|i| caps.get(i).map(|g| (g.start(), g.end())))
                    .collect(),
                replacement: "$L[$S2$S$S1]$R".to_string(),
            }
        })
    };
    let llm = MockLlmClient::with_responses(&[]);
    let result = translate_chunk_with_split(
        "前甲和乙后",
        |key| match key {
            "前" => Some("B".to_string()),
            "甲" => Some("X".to_string()),
            "乙" => Some("Y".to_string()),
            "和" => Some("&".to_string()),
            "后" => Some("A".to_string()),
            _ => None,
        },
        split,
        "prefix",
        "en",
        &llm,
        test_settings(),
    );
    assert_eq!(result.text, "B[Y&X]A");
    assert_eq!(result.stats.dict_hits, 4);
    assert!(llm.calls().is_empty());
}

#[test]
fn split_covering_the_whole_fragment_goes_to_the_model() {
    let split = |key: &str| -> Option<SplitResult> {
        Some(SplitResult {
            full_match_start: 0,
            full_match_end: key.len(),
            inner_groups: vec![Some((0, key.len()))],
            replacement: "$S1".to_string(),
        })
    };
    let llm = MockLlmClient::with_responses(&["Done"]);
    let result = translate_chunk_with_split("完了", |_| None, split, "prefix", "en", &llm, test_settings());
    assert_eq!(llm.calls(), vec!["完了"]);
    assert_eq!(result.text, "Done");
}

#[test]
fn dedupe_keeps_first_entry_per_source() {
    let out = dedupe_entries(vec![entry("a", "1"), entry("b", "2"), entry("a", "3")]);
    assert_eq!(out, vec![entry("a", "1"), entry("b", "2")]);
}

#[test]
fn translation_cache_source_lookup_uses_raw_key() {
    let mut cache = tenuki::translator::cache::TranslationCache::default();
    cache.insert("ATK ".to_string(), " Value ".to_string());

    assert_eq!(cache.lookup_source("ATK "), Some(" Value ".to_string()));
    assert_eq!(cache.lookup_source("ATK"), None);
    assert_eq!(cache.lookup_source("atk "), None);
}

#[test]
fn translation_cache_value_lookup_uses_raw_value() {
    let mut cache = tenuki::translator::cache::TranslationCache::default();
    cache.insert("source".to_string(), " Value ".to_string());

    assert_eq!(cache.lookup_value(" Value "), Some(" Value ".to_string()));
    assert_eq!(cache.lookup_value("Value"), None);
    assert_eq!(cache.lookup_value(" value "), None);
}

#[test]
fn translation_cache_keeps_first_value_observation_and_clears() {
    let mut cache = tenuki::translator::cache::TranslationCache::new();
    cache.insert("a".to_string(), "X".to_string());
    cache.insert("b".to_string(), "X".to_string());
    cache.insert("c".to_string(), String::new());
    assert_eq!(cache.lookup_source("b"), Some("X".to_string()));
    assert_eq!(cache.lookup_value("X"), Some("X".to_string()));
    assert_eq!(cache.lookup_value(""), None);
    cache.clear();
    assert_eq!(cache.lookup_source("a"), None);
    assert_eq!(cache.lookup_value("X"), None);
}

#[test]
fn identity_dictionary_keeps_each_fragment() {
    let llm = MockLlmClient::with_responses(&[]);
    let result = translate_chunk("Attack up; Defense down", |k| Some(k.to_string()), "prefix", "en", &llm, test_settings());
    assert_eq!(result.text, "Attack up; Defense down");
    assert!(result.new_entries.is_empty());
    assert_eq!(result.stats.model_calls, 0);
}

#[test]
fn identity_dictionary_renders_the_chunk_back() {
    let llm = MockLlmClient::with_responses(&[]);
    let mut settings = test_settings();
    settings.enable_model_wrap = false;
    for chunk in ["<b>Atk</b> +15%; [Fire]x (y)\nnext line: done", "「名前」：説明\r\n（補足）", "a  b ;  c"] {
        let result = translate_chunk(chunk, |k| Some(k.to_string()), "prefix", "en", &llm, settings);
        assert_eq!(result.text, chunk);
        assert!(result.new_entries.is_empty());
        assert_eq!(result.stats.model_calls, 0);
    }
    let dropped = translate_chunk("a\n  \nb", |k| Some(k.to_string()), "prefix", "en", &llm, settings);
    assert_eq!(dropped.text, "a\n\nb");
    let between = translate_chunk("[Fire] (x)", |k| Some(k.to_string()), "prefix", "en", &llm, settings);
    assert_eq!(between.text, "[Fire](x)");
}
