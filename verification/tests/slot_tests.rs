use tenuki::engine::EngineWaitKind;
use tenuki::slot::{
    create_new_slot, dict_slot_matches_target, find_or_create_slot_under, is_slot_dir,
    is_slot_dir_name_for_lang, max_existing_slot_num, resolve_lang_pair_dict_slot,
    resolve_slot_dir, text_dir_for_lang,
};
use tenuki::config::Config;
use std::time::Duration;

#[test]
fn normal_startup_wait_policy_is_shorter_than_setup_verify_window() {
    let policy = EngineWaitKind::NormalStartup.policy();
    assert_eq!(policy.max_attempts, 24);
    assert_eq!(policy.log_interval_attempts, 2);
    assert_eq!(Duration::from_millis(policy.initial_backoff_ms), Duration::from_millis(500));
    assert_eq!(Duration::from_millis(policy.max_backoff_ms), Duration::from_secs(3));
}

#[test]
fn model_switch_wait_policy_is_shorter_than_normal_startup() {
    let normal = EngineWaitKind::NormalStartup.policy();
    let model_switch = EngineWaitKind::ModelSwitch.policy();
    assert!(model_switch.max_attempts < normal.max_attempts);
    assert_eq!(model_switch.max_attempts, 12);
    assert_eq!(model_switch.log_interval_attempts, 1);
    assert_eq!(Duration::from_millis(model_switch.initial_backoff_ms), Duration::from_millis(500));
    assert_eq!(Duration::from_millis(model_switch.max_backoff_ms), Duration::from_secs(3));
}

#[test]
fn detects_real_slot_only_under_text_dir() {
    assert!(is_slot_dir(r"C:\dicts\ja\text\ja_001"));
    assert!(!is_slot_dir(r"C:\dicts\ja\text\ja_001\s_0001"));
}

#[test]
fn recognizes_current_and_legacy_slot_names() {
    assert!(is_slot_dir_name_for_lang("ja_001", "ja"));
    assert!(is_slot_dir_name_for_lang("S_0001", "ja"));
    assert!(!is_slot_dir_name_for_lang("foo_001", "ja"));
}

#[test]
fn slot_match_accepts_current_target_root() {
    assert!(dict_slot_matches_target(r"C:\dicts\ja\text\ja_001", "ja"));
}

#[test]
fn slot_match_accepts_legacy_slot_under_current_target() {
    assert!(dict_slot_matches_target(r"C:\dicts\ja\text\S_0001", "ja"));
}

#[test]
fn slot_match_rejects_other_target_slot() {
    assert!(!dict_slot_matches_target(r"C:\dicts\ja\text\ja_001", "en"));
}

#[test]
fn slot_match_rejects_non_authority_shape() {
    assert!(!dict_slot_matches_target(r"C:\custom\dict\ja_001", "ja"));
}

#[test]
fn reuses_language_slot_instead_of_creating_under_legacy_subdir() {
    let slot = find_or_create_slot_under(r"C:\dicts\ja\text\ja_001\s_0001", "ja", &[]);
    assert_eq!(slot, r"C:\dicts\ja\text\ja_001");
}

#[test]
fn next_slot_number_follows_current_names_only() {
    let names = vec!["S_0001".to_string(), "ja_002".to_string(), "en_007".to_string()];
    assert_eq!(max_existing_slot_num(&names, "ja"), Some(2));
    let slot = find_or_create_slot_under(r"C:\base\dicts\ja\text", "ja", &names);
    assert_eq!(slot, r"C:\base\dicts\ja\text\ja_003");
    let legacy_only = vec!["S_0001".to_string()];
    let slot = find_or_create_slot_under(r"C:\base\dicts\ja\text", "ja", &legacy_only);
    assert_eq!(slot, r"C:\base\dicts\ja\text\ja_001");
}

#[test]
fn slot_numbers_are_zero_padded_to_three_digits() {
    let names = vec!["en_099".to_string()];
    assert_eq!(create_new_slot("en", r"C:\base", &names), r"C:\base\dicts\en\text\en_100");
    let names = vec!["en_1000".to_string()];
    assert_eq!(create_new_slot("en", r"C:\base", &names), r"C:\base\dicts\en\text\en_1001");
    assert_eq!(text_dir_for_lang(r"C:\base\", "zh-CN"), r"C:\base\dicts\zh-CN\text");
}

#[test]
fn language_pair_keeps_matching_committed_slot() {
    let slot = resolve_lang_pair_dict_slot(Some(r"  C:\dicts\ja\text\ja_001  "), "ja", r"C:\base", &[]);
    assert_eq!(slot, r"C:\dicts\ja\text\ja_001");
    let slot = resolve_lang_pair_dict_slot(Some(r"C:\dicts\ja\text\ja_001"), "en", r"C:\base", &[]);
    assert_eq!(slot, r"C:\base\dicts\en\text\en_001");
    let slot = resolve_lang_pair_dict_slot(None, "zh-CN", r"C:\base", &[]);
    assert_eq!(slot, r"C:\base\dicts\zh-CN\text\zh-CN_001");
}

#[test]
fn slot_names_reject_overflowing_numbers() {
    assert!(!is_slot_dir_name_for_lang("ja_99999999999", "ja"));
    assert!(is_slot_dir_name_for_lang("ja_4294967295", "ja"));
    assert!(!is_slot_dir_name_for_lang("ja_", "ja"));
    assert!(!is_slot_dir_name_for_lang("S_001", "ja"));
    assert!(is_slot_dir_name_for_lang("S_0001", ""));
    assert!(!is_slot_dir_name_for_lang("a b_001", ""));
    assert!(is_slot_dir_name_for_lang("pt-BR_001", ""));
}

#[test]
fn picks_next_number_after_legacy_slots() {
    let text_dir = r"C:\tmp\base\dicts\ja\text";
    let slot = find_or_create_slot_under(text_dir, "ja", &["S_0001".to_string()]);
    assert_eq!(slot, r"C:\tmp\base\dicts\ja\text\ja_001");
}

#[test]
fn preserves_explicit_selected_folder_as_dict_root() {
    let mut config = Config::new();
    config.tgt_lang = "ja".to_string();
    config.dict_slot = Some(r"C:\tmp\base\custom_dict_dir".to_string());
    let resolved = resolve_slot_dir(&config, r"C:\tmp\base", &[]);
    assert_eq!(resolved, r"C:\tmp\base\custom_dict_dir");
}

#[test]
fn create_new_slot_picks_next_number_for_language() {
    let slot = create_new_slot("en", r"C:\tmp\base", &["en_001".to_string()]);
    assert_eq!(slot, r"C:\tmp\base\dicts\en\text\en_002");
}

#[test]
fn resolve_slot_dir_creates_slot_under_current_target_language() {
    let mut config = Config::new();
    config.tgt_lang = "ar".to_string();
    config.dict_slot = None;
    let resolved = resolve_slot_dir(&config, r"C:\tmp\base", &[]);
    assert_eq!(resolved, r"C:\tmp\base\dicts\ar\text\ar_001");
}

#[test]
fn resolve_reuses_committed_slot_when_target_matches() {
    let committed = r"C:\tmp\base\dicts\ja\text\ja_001";
    let resolved = resolve_lang_pair_dict_slot(Some(committed), "ja", r"C:\tmp\base", &["ja_001".to_string()]);
    assert_eq!(resolved, committed);
}

#[test]
fn resolve_creates_new_slot_when_target_differs_from_committed() {
    let resolved = resolve_lang_pair_dict_slot(Some(r"C:\dicts\ja\text\ja_001"), "en", r"C:\tmp\base", &[]);
    assert_eq!(resolved, r"C:\tmp\base\dicts\en\text\en_001");
}

#[test]
fn resolve_creates_new_slot_when_none_is_committed() {
    let resolved = resolve_lang_pair_dict_slot(None, "zh-CN", r"C:\tmp\base", &[]);
    assert_eq!(resolved, r"C:\tmp\base\dicts\zh-CN\text\zh-CN_001");
}
