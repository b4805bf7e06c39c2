use tenuki::translator::render::{
    is_wrap_candidate, render_atoms, wrap_candidate_score, wrap_render_atoms, RenderAtom,
};
use tenuki::translator::types::TranslationSettings;

fn test_settings() -> TranslationSettings {
    TranslationSettings {
        enable_model_wrap: true,
        model_wrap_min_chars: 80,
        model_wrap_space_fallback_min_chars: 100,
        enable_model_symbol_cleanup: true,
    }
}

fn short_settings() -> TranslationSettings {
    TranslationSettings {
        enable_model_wrap: true,
        model_wrap_min_chars: 1,
        model_wrap_space_fallback_min_chars: 100,
        enable_model_symbol_cleanup: true,
    }
}

#[test]
fn render_atom_wrap_preserves_thai_nai_candidate() {
    let input = "aaaaaaaaaaaaaaaaaaaaaaaaaaaaaaaaaaaaaaaaaaaaaaaaaaaaaaaaaaaa ใน bbb";
    let atoms = vec![RenderAtom::Text(input.to_string())];
    let wrapped = wrap_render_atoms(atoms, short_settings());
    let rendered = render_atoms(&wrapped);
    assert_eq!(
        rendered,
        "aaaaaaaaaaaaaaaaaaaaaaaaaaaaaaaaaaaaaaaaaaaaaaaaaaaaaaaaaaaa\nใน bbb"
    );
}

#[test]
fn render_atom_wrap_does_not_split_on_fullwidth_period() {
    let input = format!("{} ver．1 {}", "a".repeat(40), "b".repeat(46));
    let atoms = vec![RenderAtom::Text(input.clone())];
    let wrapped = wrap_render_atoms(atoms, test_settings());
    assert_eq!(render_atoms(&wrapped), input);
}

#[test]
fn render_atom_wrap_preserves_japanese_comma_candidate() {
    let input =
        "だから今最優先すべきことは、まず太祖長拳の練習に専念しそれを完璧にマスターすることだ";
    let atoms = vec![RenderAtom::Text(input.to_string())];
    let wrapped = wrap_render_atoms(atoms, short_settings());
    assert_eq!(
        render_atoms(&wrapped),
        "だから今最優先すべきことは、\nまず太祖長拳の練習に専念しそれを完璧にマスターすることだ"
    );
}

#[test]
fn render_atom_wrap_preserves_simplified_chinese_fullwidth_comma_candidate() {
    let input = "这是一个很长的简体字句子，后续内容继续保持足够长度";
    let atoms = vec![RenderAtom::Text(input.to_string())];
    let wrapped = wrap_render_atoms(atoms, short_settings());
    assert_eq!(
        render_atoms(&wrapped),
        "这是一个很长的简体字句子，\n后续内容继续保持足够长度"
    );
}

#[test]
fn render_atom_wrap_splits_long_english_at_dot_space() {
    let atoms = vec![RenderAtom::Text(
        "The hero defeated the ancient dragon in a fierce battle. The kingdom was saved at last."
            .to_string(),
    )];
    let wrapped = wrap_render_atoms(atoms, test_settings());
    assert_eq!(
        render_atoms(&wrapped),
        "The hero defeated the ancient dragon in a fierce battle.\nThe kingdom was saved at last."
    );
}

#[test]
fn render_atom_wrap_splits_long_english_at_comma_space() {
    let atoms = vec![RenderAtom::Text(
        "Alpha beta gamma, next section continues for long enough.".to_string(),
    )];
    let wrapped = wrap_render_atoms(atoms, short_settings());
    assert_eq!(
        render_atoms(&wrapped),
        "Alpha beta gamma,\nnext section continues for long enough."
    );
}

#[test]
fn render_atom_wrap_space_fallback_does_not_run_below_100_chars() {
    let input =
        "aaaaaaaaaaaaaaaaaaaaaaaaaaaaaaaaaaaaaaaaaaaaaaaaa bbbbbbbbbbbbbbbbbbbbbbbbbbbbbbbbbbbbbbbbbbbbbbbbb";
    assert_eq!(input.chars().count(), 99);
    let wrapped = wrap_render_atoms(vec![RenderAtom::Text(input.to_string())], test_settings());
    assert_eq!(render_atoms(&wrapped), input);
}

#[test]
fn render_atom_wrap_space_fallback_runs_at_100_chars() {
    let input =
        "aaaaaaaaaaaaaaaaaaaaaaaaaaaaaaaaaaaaaaaaaaaaaaaaa bbbbbbbbbbbbbbbbbbbbbbbbbbbbbbbbbbbbbbbbbbbbbbbbbb";
    assert_eq!(input.chars().count(), 100);
    let wrapped = wrap_render_atoms(vec![RenderAtom::Text(input.to_string())], test_settings());
    assert_eq!(
        render_atoms(&wrapped),
        "aaaaaaaaaaaaaaaaaaaaaaaaaaaaaaaaaaaaaaaaaaaaaaaaa\nbbbbbbbbbbbbbbbbbbbbbbbbbbbbbbbbbbbbbbbbbbbbbbbbbb"
    );
}

#[test]
fn newline_is_boundary_not_width() {
    let atoms = vec![
        RenderAtom::Text("aa".to_string()),
        RenderAtom::Newline("\n".to_string()),
        RenderAtom::Text("bb".to_string()),
    ];
    let wrapped = wrap_render_atoms(atoms, short_settings());
    assert_eq!(render_atoms(&wrapped), "aa\nbb");
}

#[test]
fn fullwidth_comma_is_weak_wrap_candidate() {
    let chars: Vec<char> = "很长的简体字文，后续文".chars().collect();
    let index = chars
        .iter()
        .position(|&ch| ch == '\u{FF0C}')
        .expect("test text should contain fullwidth comma");
    assert_eq!(is_wrap_candidate(&chars, index), Some(1));
    assert_eq!(wrap_candidate_score(&chars, index, 1), 8);
}

#[test]
fn protected_angles_do_not_count_toward_wrap_width() {
    let atoms = vec![
        RenderAtom::ProtectedAngle("<color=red>".to_string()),
        RenderAtom::Text("Alpha beta gamma, next".to_string()),
        RenderAtom::ProtectedAngle("</color>".to_string()),
    ];
    let wrapped = wrap_render_atoms(atoms, short_settings());
    assert_eq!(
        render_atoms(&wrapped),
        "<color=red>Alpha beta gamma,\nnext</color>"
    );
}

#[test]
fn disabled_wrap_leaves_atoms_unchanged() {
    let mut settings = short_settings();
    settings.enable_model_wrap = false;
    let input = "Alpha beta gamma, next section continues for long enough.";
    let wrapped = wrap_render_atoms(vec![RenderAtom::Text(input.to_string())], settings);
    assert_eq!(render_atoms(&wrapped), input);
}
