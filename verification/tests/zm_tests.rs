use tenuki::translator::zm::{apply_cjk_digit_fallback, ascii_digit_to_cjk, build_zm_number_mapping, cjk_digit_to_ascii};


#[test]
fn test_ascii_digit_to_cjk() {
    assert_eq!(ascii_digit_to_cjk('0'), Some('〇'));
    assert_eq!(ascii_digit_to_cjk('1'), Some('一'));
    assert_eq!(ascii_digit_to_cjk('2'), Some('二'));
    assert_eq!(ascii_digit_to_cjk('9'), Some('九'));
    assert_eq!(ascii_digit_to_cjk('a'), None);
    assert_eq!(ascii_digit_to_cjk('２'), None);
}

#[test]
fn test_cjk_digit_to_ascii() {
    assert_eq!(cjk_digit_to_ascii('〇'), Some('0'));
    assert_eq!(cjk_digit_to_ascii('一'), Some('1'));
    assert_eq!(cjk_digit_to_ascii('二'), Some('2'));
    assert_eq!(cjk_digit_to_ascii('九'), Some('9'));
    assert_eq!(cjk_digit_to_ascii('a'), None);
    assert_eq!(cjk_digit_to_ascii('2'), None);
}

#[test]
fn test_apply_cjk_digit_fallback_fullwidth() {
    assert_eq!(
        apply_cjk_digit_fallback("「二」です", &["2"]),
        "「2」です"
    );
}

#[test]
fn test_apply_cjk_digit_fallback_no_bracket() {
    // ブラケットがなくても置換されるようになった
    assert_eq!(
        apply_cjk_digit_fallback("二です", &["2"]),
        "2です"
    );
}

#[test]
fn test_apply_cjk_digit_fallback_halfwidth() {
    assert_eq!(
        apply_cjk_digit_fallback("｢二｣です", &["2"]),
        "｢2｣です"
    );
}

#[test]
fn test_apply_cjk_digit_fallback_skip_non_ascii_digit() {
    assert_eq!(
        apply_cjk_digit_fallback("「十」です", &["10"]),
        "「十」です"
    );
}

#[test]
fn test_apply_cjk_digit_fallback_all_occurrences() {
    // ブラケットの内外問わず、すべての該当文字が置換される
    assert_eq!(
        apply_cjk_digit_fallback("「二」と二です", &["2"]),
        "「2」と2です"
    );
}

#[test]
fn test_apply_cjk_digit_fallback_empty_missing() {
    assert_eq!(
        apply_cjk_digit_fallback("「二」です", &[]),
        "「二」です"
    );
}


#[test]
fn bare_zm_with_spaces_uses_wrapped_transport_number() {
    let mapping = build_zm_number_mapping("foo ZMCZ bar").unwrap();
    assert_eq!(mapping.sent_text, "foo 「2」 bar");
    assert!(mapping.replacements[0].transport_wrapped);
    assert!(mapping.replacements[0].transport_left_space);
    assert!(mapping.replacements[0].transport_right_space);
    assert_eq!(mapping.replacements[0].source_span, "ZMCZ");
}

#[test]
fn bare_zm_at_start_uses_wrapped_transport_number() {
    let mapping = build_zm_number_mapping("ZMCZ bar").unwrap();
    assert_eq!(mapping.sent_text, "「2」 bar");
    assert!(mapping.replacements[0].transport_wrapped);
    assert!(!mapping.replacements[0].transport_left_space);
    assert!(mapping.replacements[0].transport_right_space);
    assert_eq!(mapping.replacements[0].source_span, "ZMCZ");
}

#[test]
fn bare_zm_at_end_uses_wrapped_transport_number() {
    let mapping = build_zm_number_mapping("foo ZMCZ").unwrap();
    assert_eq!(mapping.sent_text, "foo 「2」");
    assert!(mapping.replacements[0].transport_wrapped);
    assert!(mapping.replacements[0].transport_left_space);
    assert!(!mapping.replacements[0].transport_right_space);
    assert_eq!(mapping.replacements[0].source_span, "ZMCZ");
}

#[test]
fn adjacent_text_zm_stays_unwrapped() {
    let mapping = build_zm_number_mapping("fooZMCZbar").unwrap();
    assert_eq!(mapping.sent_text, "foo2bar");
    assert!(!mapping.replacements[0].transport_wrapped);
}

#[test]
fn signed_percent_zm_stays_unwrapped() {
    let mapping = build_zm_number_mapping("ATK+ZMCZ%").unwrap();
    assert_eq!(mapping.sent_text, "ATK+2%");
    assert!(!mapping.replacements[0].transport_wrapped);
}

#[test]
fn hp_signed_percent_zm_stays_unwrapped() {
    let mapping = build_zm_number_mapping("HP-ZMDZ%").unwrap();
    assert_eq!(mapping.sent_text, "HP-2%");
    assert!(!mapping.replacements[0].transport_wrapped);
}

#[test]
fn space_separated_sign_and_percent_zm_stays_unwrapped() {
    let mapping = build_zm_number_mapping("ATK + ZMCZ %").unwrap();
    assert_eq!(mapping.sent_text, "ATK + 2 %");
    assert!(!mapping.replacements[0].transport_wrapped);
}

#[test]
fn transport_numbers_skip_numbers_the_text_holds() {
    let mapping = build_zm_number_mapping("ZMAZ 2 三 ZMBZ ３ ZMCZ").unwrap();
    let numbers: Vec<&str> = mapping.replacements.iter().map(|r| r.number.as_str()).collect();
    assert_eq!(numbers, vec!["4", "5", "6"]);
}

#[test]
fn one_replacement_per_marker_and_none_without_markers() {
    let mapping = build_zm_number_mapping("ZMAZZMBZ then ZMZ and Z1Z").unwrap();
    assert_eq!(mapping.replacements.len(), 3);
    assert!(build_zm_number_mapping("no markers ZZ Z-Z zmaz").is_none());
}
