use tenuki::translator::helpers::{clean_model_output, normalize_apostrophes};


#[test]
fn trims_only_edges_for_english_target() {
    assert_eq!(
        clean_model_output("Level 10", "  Level 10  ", "en", true),
        "Level 10"
    );
}

#[test]
fn removes_extra_internal_spaces_for_japanese_target() {
    assert_eq!(
        clean_model_output("攻撃力10", "攻撃 力 10", "ja", true),
        "攻撃力10"
    );
}

#[test]
fn preserves_internal_spaces_for_vietnamese_target() {
    assert_eq!(
        clean_model_output("Kinh nghiem", "  Kinh  nghiem  ", "vi", true),
        "Kinh  nghiem"
    );
}

#[test]
fn clean_model_output_normalizes_fullwidth_plus_minus_spacing() {
    assert_eq!(
        clean_model_output("bonus", "\u{FF0B} ZAZ", "en", true),
        "+ZAZ"
    );
    assert_eq!(
        clean_model_output("bonus", "\u{FF0D} ZAZ", "en", true),
        "-ZAZ"
    );
}

#[test]
fn clean_model_output_can_skip_symbol_cleanup() {
    assert_eq!(
        clean_model_output("bonus", "\u{FF0B} ZAZ", "en", false),
        "+ ZAZ"
    );
}

#[test]
fn clean_model_output_leaves_regular_plus_minus_spacing_unchanged() {
    assert_eq!(clean_model_output("+ 10", "+ 10", "en", true), "+ 10");
    assert_eq!(
        clean_model_output("HP + 10", "HP + 10", "en", true),
        "HP + 10"
    );
    assert_eq!(clean_model_output("A - B", "A - B", "en", true), "A - B");
    assert_eq!(clean_model_output("- foo", "- foo", "en", true), "- foo");
}

#[test]
fn clean_model_output_fixes_apostrophe_spacing_for_english_target() {
    assert_eq!(
        clean_model_output("one's", "one\u{2019} s", "en", true),
        "one's"
    );
}

#[test]
fn clean_model_output_fixes_apostrophe_spacing_for_vietnamese_target() {
    assert_eq!(
        clean_model_output("d'accord", "d\u{2019} accord", "vi", true),
        "d'accord"
    );
}

#[test]
fn clean_model_output_fixes_apostrophe_spacing_for_non_ascii_letters() {
    assert_eq!(
        clean_model_output("l'ami", "l\u{2019} ami", "fr", true),
        "l'ami"
    );
}

#[test]
fn clean_model_output_keeps_regular_internal_spaces_for_vietnamese() {
    assert_eq!(
        clean_model_output("Kinh nghiem", "  Kinh  nghiem  ", "vi", true),
        "Kinh  nghiem"
    );
}

#[test]
fn clean_model_output_removes_cjk_internal_spaces_without_punctuation() {
    assert_eq!(
        clean_model_output("攻撃力10", "攻撃 力 10", "ja", true),
        "攻撃力10"
    );
}

#[test]
fn clean_model_output_keeps_single_terminal_period_even_if_source_has_none() {
    assert_eq!(
        clean_model_output("Hello", "こんにちは。", "ja", true),
        "こんにちは。"
    );
}

#[test]
fn clean_model_output_keeps_single_terminal_period_when_source_has_ascii_period() {
    assert_eq!(
        clean_model_output("Hello.", "こんにちは。", "ja", true),
        "こんにちは。"
    );
}

#[test]
fn clean_model_output_collapses_duplicate_terminal_period() {
    assert_eq!(
        clean_model_output("Hello", "こんにちは。。", "ja", true),
        "こんにちは。"
    );
}

#[test]
fn clean_model_output_keeps_three_terminal_periods() {
    assert_eq!(
        clean_model_output("Hello", "こんにちは。。。", "ja", true),
        "こんにちは。。。"
    );
}

#[test]
fn clean_model_output_collapses_duplicate_terminal_japanese_comma() {
    assert_eq!(
        clean_model_output("Hello", "こんにちは、、", "ja", true),
        "こんにちは、"
    );
}

#[test]
fn clean_model_output_keeps_single_terminal_japanese_comma() {
    assert_eq!(
        clean_model_output("Hello", "こんにちは、", "ja", true),
        "こんにちは、"
    );
}

#[test]
fn clean_model_output_keeps_three_terminal_japanese_commas() {
    assert_eq!(
        clean_model_output("Hello", "こんにちは、、、", "ja", true),
        "こんにちは、、、"
    );
}

#[test]
fn clean_model_output_leaves_fullwidth_comma_pair_unchanged() {
    assert_eq!(
        clean_model_output("Hello", "你好，，", "zh-CN", true),
        "你好，，"
    );
}



#[test]
fn apostrophe_gaps_close_between_letters_only() {
    assert_eq!(normalize_apostrophes("don' t"), "don't");
    assert_eq!(normalize_apostrophes("é'  à"), "é'à");
    // Letter numbers and combining marks are not letters.
    assert_eq!(normalize_apostrophes("Ⅻ' s"), "Ⅻ' s");
    assert_eq!(normalize_apostrophes("a' \u{0902}"), "a' \u{0902}");
    assert_eq!(normalize_apostrophes("9' s"), "9' s");
}
