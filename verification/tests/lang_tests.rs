use tenuki::translator::lang::build_lang_prefix;


#[test]
fn uses_official_template_for_japanese() {
    assert_eq!(
        build_lang_prefix(
            "zh-CN",
            "ja",
            "",
            "Translate the following segment into {target}, without additional explanation.",
            "",
        ),
        "Translate the following segment into Japanese, without additional explanation.",
    );
}

#[test]
fn uses_official_template_for_english() {
    assert_eq!(
        build_lang_prefix(
            "ja",
            "en",
            "",
            "Translate the following segment into {target}, without additional explanation.",
            "",
        ),
        "Translate the following segment into English, without additional explanation.",
    );
}

#[test]
fn uses_custom_target_name_when_selected() {
    assert_eq!(
        build_lang_prefix(
            "ja",
            "pt-BR",
            "Brazilian Portuguese",
            "Translate the following segment into {target}, without additional explanation.",
            "",
        ),
        "Translate the following segment into Brazilian Portuguese, without additional explanation.",
    );
}

#[test]
fn uses_custom_template_placeholders() {
    assert_eq!(
        build_lang_prefix("ja", "en", "", "Only output {language}.", ""),
        "Only output English.",
    );
}

#[test]
fn replaces_background_text_placeholder() {
    assert_eq!(
        build_lang_prefix(
            "ja",
            "en",
            "",
            "Context: {background_text}\nTranslate into {target}.",
            "This is a fantasy game.",
        ),
        "Context: This is a fantasy game.\nTranslate into English.",
    );
}

