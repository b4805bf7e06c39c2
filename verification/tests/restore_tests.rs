use regex::Regex;
use tenuki::translator::persist::build_zm_persist_entry;
use tenuki::translator::restore::restore_zm_number_tokens;
use tenuki::translator::types::PersistEntry;
use tenuki::translator::zm::{build_zm_number_mapping, ZmNumberMapping, ZmReplacement};

fn mapping(pairs: &[(&str, &str)]) -> ZmNumberMapping {
    ZmNumberMapping {
        sent_text: String::new(),
        replacements: pairs
            .iter()
            .map(|(number, marker)| ZmReplacement {
                number: number.to_string(),
                marker: marker.to_string(),
                trim_trailing_minus: false,
                transport_wrapped: false,
                transport_left_space: false,
                transport_right_space: false,
                source_span: marker.to_string(),
            })
            .collect(),
    }
}

#[test]
fn mod_restore_does_not_match_digit_prefix() {
    let mapping = mapping(&[("1", "ZAZ"), ("10", "ZBZ")]);
    assert_eq!(restore_zm_number_tokens("1 10", &mapping), "ZAZ ZBZ");
}

#[test]
fn mod_restore_preserves_spaces_as_is() {
    let mapping = mapping(&[("1", "ZAZ")]);
    assert_eq!(restore_zm_number_tokens("foo 1 bar", &mapping), "foo ZAZ bar");
    assert_eq!(restore_zm_number_tokens("foo  1  bar", &mapping), "foo  ZAZ  bar");
    assert_eq!(restore_zm_number_tokens("foo1bar", &mapping), "fooZAZbar");
}

#[test]
fn translator_restore_does_not_match_digit_prefix() {
    let m = mapping(&[("1", "ZAZ"), ("10", "ZBZ")]);
    assert_eq!(restore_zm_number_tokens("1 10", &m), "ZAZ ZBZ");
}

#[test]
fn translator_restore_preserves_spaces_as_is() {
    let m = mapping(&[("1", "ZAZ")]);
    assert_eq!(restore_zm_number_tokens("foo 1 bar", &m), "foo ZAZ bar");
    assert_eq!(restore_zm_number_tokens("foo  1  bar", &m), "foo  ZAZ  bar");
    assert_eq!(restore_zm_number_tokens("foo1bar", &m), "fooZAZbar");
}

#[test]
fn restore_passes_through_unmatched_token() {
    let m = mapping(&[("1", "ZAZ")]);
    assert_eq!(restore_zm_number_tokens("no numbers here", &m), "no numbers here");
    assert_eq!(restore_zm_number_tokens("value is 99", &m), "value is 99");
}

#[test]
fn restore_consumes_slot_at_most_once() {
    let m = mapping(&[("1", "ZAZ")]);
    assert_eq!(restore_zm_number_tokens("chapter 1 1", &m), "chapter ZAZ 1");
}

#[test]
fn restore_adjacent_tokens_preserve_spaces() {
    let m = mapping(&[("1", "ZAZ"), ("10", "ZBZ")]);
    assert_eq!(restore_zm_number_tokens("1 10", &m), "ZAZ ZBZ");
    assert_eq!(restore_zm_number_tokens("1  10", &m), "ZAZ  ZBZ");
    assert_eq!(restore_zm_number_tokens("1  10  1", &m), "ZAZ  ZBZ  1");
}

#[test]
fn restore_preserves_cjk_spaces() {
    let m = mapping(&[("1", "ZAZ"), ("10", "ZBZ")]);
    assert_eq!(
        restore_zm_number_tokens("1\u{3000}10\u{3000}1", &m),
        "ZAZ\u{3000}ZBZ\u{3000}1"
    );
}

#[test]
fn restore_does_not_split_concatenated_digits() {
    let m = mapping(&[("1", "ZAZ"), ("10", "ZBZ")]);
    assert_eq!(restore_zm_number_tokens("110", &m), "110");
}

#[test]
fn restore_removes_transport_wrapper_for_middle_bare_zm() {
    let mapping = build_zm_number_mapping("foo ZMCZ bar").unwrap();
    assert_eq!(restore_zm_number_tokens("foo 2 bar", &mapping), "foo ZMCZ bar");
}

#[test]
fn restore_removes_exact_transport_wrapper_for_middle_bare_zm() {
    let mapping = build_zm_number_mapping("foo ZMCZ bar").unwrap();
    assert_eq!(restore_zm_number_tokens("foo 「2」 bar", &mapping), "foo ZMCZ bar");
}

#[test]
fn restore_replaces_variant_wrapper_for_middle_bare_zm() {
    let mapping = build_zm_number_mapping("foo ZMCZ bar").unwrap();
    assert_eq!(restore_zm_number_tokens("foo （2） bar", &mapping), "foo ZMCZ bar");
    assert_eq!(restore_zm_number_tokens("foo ”2” bar", &mapping), "foo ZMCZ bar");
}

#[test]
fn restore_keeps_inner_space_wrapper_and_only_replaces_number() {
    let mapping = build_zm_number_mapping("foo ZMCZ bar").unwrap();
    assert_eq!(restore_zm_number_tokens("foo 「 2 」 bar", &mapping), "foo 「 ZMCZ 」 bar");
    assert_eq!(
        restore_zm_number_tokens("foo 「　2　」 bar", &mapping),
        "foo 「　ZMCZ　」 bar"
    );
}

#[test]
fn restore_removes_transport_wrapper_for_start_bare_zm() {
    let mapping = build_zm_number_mapping("ZMCZ bar").unwrap();
    assert_eq!(restore_zm_number_tokens("2 bar", &mapping), "ZMCZ bar");
}

#[test]
fn restore_removes_variant_wrapper_for_start_bare_zm() {
    let mapping = build_zm_number_mapping("ZMCZ bar").unwrap();
    assert_eq!(restore_zm_number_tokens("（2）bar", &mapping), "ZMCZ bar");
}

#[test]
fn restore_removes_transport_wrapper_for_end_bare_zm() {
    let mapping = build_zm_number_mapping("foo ZMCZ").unwrap();
    assert_eq!(restore_zm_number_tokens("foo 2", &mapping), "foo ZMCZ");
}

#[test]
fn restore_removes_variant_wrapper_for_end_bare_zm() {
    let mapping = build_zm_number_mapping("foo ZMCZ").unwrap();
    assert_eq!(restore_zm_number_tokens("foo（2）", &mapping), "foo ZMCZ");
}

#[test]
fn restore_does_not_touch_number_not_in_mapping() {
    let mapping = build_zm_number_mapping("foo ZMCZ bar").unwrap();
    assert_eq!(restore_zm_number_tokens("foo 99 bar", &mapping), "foo 99 bar");
}

#[test]
fn restore_only_consumes_first_matching_number() {
    let mapping = build_zm_number_mapping("foo ZMCZ bar").unwrap();
    assert_eq!(
        restore_zm_number_tokens("foo 2 and 2 bar", &mapping),
        "foo ZMCZ and 2 bar"
    );
}

#[test]
fn restore_does_not_eat_text_adjacent_to_transport_number() {
    let mapping = build_zm_number_mapping("foo ZMCZ bar").unwrap();
    assert_eq!(
        restore_zm_number_tokens("foo は2のダメージ bar", &mapping),
        "foo はZMCZのダメージ bar"
    );
}

#[test]
fn restore_does_not_treat_signed_percent_adjacent_text_as_wrapper() {
    let mapping = build_zm_number_mapping("ZMCZ +ZMDZ%").unwrap();
    assert_eq!(restore_zm_number_tokens("2+3%", &mapping), "ZMCZ +ZMDZ%");
}

#[test]
fn transport_wrapped_persist_span_absorbs_model_wrappers() {
    let source = "foo ZMCZ bar";
    let mapping = build_zm_number_mapping(source).unwrap();
    let restored = restore_zm_number_tokens(&mapping.sent_text, &mapping);

    let persist = build_zm_persist_entry(source, &mapping, &mapping.sent_text, &restored)
        .expect("regex persist should be created");

    match persist {
        PersistEntry::Regex { pattern, replacement } => {
            assert_eq!(replacement, "foo $1 bar");
            assert!(!replacement.contains('「'));
            assert!(!replacement.contains('」'));

            let regex = Regex::new(&pattern).unwrap();
            assert_eq!(regex.replace("foo ZMDZ bar", replacement.as_str()), "foo ZMDZ bar");
        }
        other => panic!("expected Regex persist, got {other:?}"),
    }
}

#[test]
fn transport_wrapped_persist_span_absorbs_variant_wrappers() {
    let source = "foo ZMCZ bar";
    let mapping = build_zm_number_mapping(source).unwrap();

    for model_output in ["foo （2） bar", "foo ”2” bar"] {
        let restored = restore_zm_number_tokens(model_output, &mapping);
        let persist = build_zm_persist_entry(source, &mapping, model_output, &restored)
            .expect("regex persist should be created");

        match persist {
            PersistEntry::Regex { replacement, .. } => {
                assert_eq!(replacement, "foo $1 bar");
            }
            other => panic!("expected Regex persist, got {other:?}"),
        }
    }
}

#[test]
fn transport_wrapped_persist_span_does_not_absorb_inner_space_wrapper() {
    let source = "foo ZMCZ bar";
    let mapping = build_zm_number_mapping(source).unwrap();
    let model_output = "foo 「 2 」 bar";
    let restored = restore_zm_number_tokens(model_output, &mapping);

    let persist = build_zm_persist_entry(source, &mapping, model_output, &restored)
        .expect("regex persist should be created");

    match persist {
        PersistEntry::Regex { replacement, .. } => {
            assert_eq!(replacement, "foo 「 $1 」 bar");
        }
        other => panic!("expected Regex persist, got {other:?}"),
    }
}

#[test]
fn non_transport_wrapper_is_not_absorbed_by_persist_span() {
    let mapping = mapping(&[("2", "ZMCZ")]);
    let persist = build_zm_persist_entry("foo ZMCZ bar", &mapping, "foo （2） bar", "foo （ZMCZ） bar")
        .expect("regex persist should be created");

    match persist {
        PersistEntry::Regex { replacement, .. } => {
            assert_eq!(replacement, "foo （$1） bar");
        }
        other => panic!("expected Regex persist, got {other:?}"),
    }
}

#[test]
fn persist_pattern_escapes_source_and_captures_signed_markers() {
    let source = "HP-ZMDZ% (max)";
    let mapping = build_zm_number_mapping(source).unwrap();
    let restored = restore_zm_number_tokens("PV-2% (max)", &mapping);
    match build_zm_persist_entry(source, &mapping, "PV-2% (max)", &restored) {
        Some(PersistEntry::Regex { pattern, replacement }) => {
            assert_eq!(pattern, "^HP([+＋\\-－−]?Z[A-Z]+Z[%％]?) \\(max\\)$");
            assert_eq!(replacement, "PV$1 (max)");
        }
        other => panic!("expected Regex persist, got {other:?}"),
    }
    assert!(build_zm_persist_entry(source, &mapping, "PV", "  ").is_none());
    assert!(build_zm_persist_entry(source, &mapping, "PV 2 3", "PV").is_none());
}

#[test]
fn restoring_a_text_without_digits_keeps_it() {
    let m = build_zm_number_mapping("攻撃ZMAZ上昇").unwrap();
    assert_eq!(restore_zm_number_tokens("Attack up", &m), "Attack up");
    let m2 = mapping(&[("2", "ZMAZ")]);
    assert_eq!(restore_zm_number_tokens("no numbers here", &m2), "no numbers here");
}
