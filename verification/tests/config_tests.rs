use tenuki::config::{
    config_for_save, is_target_language_preset, normalize_mode_value, normalize_profile_name,
    normalize_ui_lang, sanitize_profile_name, settle_loaded_config, Config, ConfigError,
    GameTextOptions, ListConfig, ProfileGameTextOptions, TranslationProfile,
};

#[test]
fn profile_roundtrip_keeps_game_mode() {
    let profile = TranslationProfile::game_default();
    assert_eq!(profile.mode, "game");
    assert!(profile.game_text.protect_tags);
    assert!(profile.model_processing.enable_model_wrap);
}

#[test]
fn normalize_mode_maps_legacy_values_to_new_names() {
    assert_eq!(normalize_mode_value("structural"), "game");
    assert_eq!(normalize_mode_value("passthrough"), "normal");
    assert_eq!(normalize_mode_value("game"), "game");
    assert_eq!(normalize_mode_value("normal"), "normal");
}

#[test]
fn normalizes_missing_values() {
    let mut config = Config::new();
    config.src_lang = String::new();
    config.tgt_lang = String::new();
    config.dict_slot = Some(String::new());
    config.server_port = 0;
    config.ui_lang = "de".to_string();
    config.custom_lang_name = "Brazilian Portuguese".to_string();
    config.normalize();
    assert_eq!(config.src_lang, "en");
    assert_eq!(config.tgt_lang, "en");
    assert_eq!(config.dict_slot, None);
    assert_eq!(config.game_text, GameTextOptions::default());
    assert_eq!(config.server_port, 14371);
    assert_eq!(config.ui_lang, "en");
    assert_eq!(config.custom_lang_name, "");
    assert_eq!(config.wrap_override, None);
}

#[test]
fn non_ui_target_keeps_custom_lang_name() {
    let mut config = Config::new();
    config.tgt_lang = "pt-BR".to_string();
    config.custom_lang_name = "Brazilian Portuguese".to_string();
    config.normalize();
    assert_eq!(config.tgt_lang, "pt-BR");
    assert_eq!(config.custom_lang_name, "Brazilian Portuguese");
}

#[test]
fn profile_names_are_normalised() {
    assert_eq!(normalize_profile_name("  "), "game");
    assert_eq!(normalize_profile_name("Unity_JA"), "game");
    assert_eq!(normalize_profile_name(" Normal "), "normal");
    assert_eq!(normalize_profile_name("my profile!"), "myprofile");
    assert_eq!(sanitize_profile_name("!!"), "game");
    assert_eq!(normalize_ui_lang(" zh-CN "), "zh-CN");
    assert_eq!(normalize_ui_lang("fr"), "en");
    assert!(is_target_language_preset("zh-TW"));
    assert!(!is_target_language_preset("pt-BR"));
}

#[test]
fn profile_normalize_fixes_wrap_widths() {
    let mut profile = TranslationProfile::normal_default();
    profile.mode = "Passthrough".to_string();
    profile.prompt_template = "   ".to_string();
    profile.model_processing.model_wrap_min_chars = 0;
    profile.model_processing.model_wrap_space_fallback_min_chars = 10;
    profile.normalize();
    assert_eq!(profile.mode, "normal");
    assert_eq!(
        profile.prompt_template,
        "Translate the following segment into {target}, without additional explanation."
    );
    assert_eq!(profile.model_processing.model_wrap_min_chars, 80);
    assert_eq!(profile.model_processing.model_wrap_space_fallback_min_chars, 100);
    assert_eq!(TranslationProfile::default_for_name("normal").mode, "normal");
    assert_eq!(TranslationProfile::default_for_name("other").mode, "game");
}

#[test]
fn loading_applies_profile_and_validates() {
    let mut config = Config::new();
    config.profile = "normal".to_string();
    config.wrap_override = Some(false);
    let profile = TranslationProfile::normal_default();
    let loaded = settle_loaded_config(config, &profile).unwrap();
    assert_eq!(loaded.mode, "normal");
    assert_eq!(loaded.wrap_override, None);
    assert!(!loaded.game_text.protect_tags);
    assert!(loaded.effective_model_wrap());
    let saved = config_for_save(&loaded).unwrap();
    assert_eq!(saved.profile, "normal");
}

#[test]
fn validation_errors() {
    let mut config = Config::new();
    config.server_port = 0;
    assert_eq!(config.validate(), Err(ConfigError::ZeroServerPort));
    config.server_port = 1;
    config.profile = " ".to_string();
    assert_eq!(config.validate(), Err(ConfigError::EmptyProfile));
    assert_eq!(ConfigError::EmptyProfile.message(), "profile must not be empty");
    config.profile = "game".to_string();
    assert!(config.validate().is_ok());
}

#[test]
fn list_settings_fall_back_to_defaults() {
    let list = ListConfig::default();
    assert!(list.is_default());
    assert_eq!(list.effective_chunk_size(2), 4);
    assert_eq!(list.effective_chunk_size(8), 8);
    assert_eq!(list.effective_timeout_secs(), 60);
    let custom = ListConfig { request_timeout: 0, chunk_size: 3, ..ListConfig::default() };
    assert_eq!(custom.effective_chunk_size(8), 3);
    assert_eq!(custom.effective_timeout_secs(), 60);
}

#[test]
fn game_text_options_convert_both_ways() {
    let g = GameTextOptions::default();
    let p: ProfileGameTextOptions = g.into();
    assert!(p.protect_brackets);
    let back: GameTextOptions = p.into();
    assert_eq!(back, g);
}
