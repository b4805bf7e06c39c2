use tenuki::config::GameTextOptions;
use tenuki::processor::{
    PassthroughProcessor, Processor, ProcessorData, ProcessorFactory, StructuralProcessor, TextProcessor,
    TranslationContext, TranslationMode,
};

#[test]
fn numbers_stay_in_visible_text() {
    let processor = StructuralProcessor::new();
    let ctx = processor.preprocess("Attack+15%");
    assert_eq!(ctx.parts_to_translate, vec!["Attack15".to_string()]);
}

#[test]
fn reassembles_boundary_symbols() {
    let processor = StructuralProcessor::new();
    let ctx = processor.preprocess("<b>Attack+150%</b>");
    let rebuilt = processor.postprocess(&["Damage150".to_string()], &ctx);
    assert_eq!(rebuilt, "<b>Damage+150%</b>");
}

#[test]
fn keeps_hyphenated_ascii_words_whole() {
    let processor = StructuralProcessor::new();
    let ctx = processor.preprocess("Half-Elf");
    assert_eq!(ctx.parts_to_translate, vec!["Half-Elf".to_string()]);
}

#[test]
fn protected_kinds_become_tokens() {
    let processor = StructuralProcessor::new();
    let ctx = processor.preprocess(r"{{name}} got [item]\nZMCZ x");
    match &ctx.processor_data {
        ProcessorData::Structured { tokens, flags, visible_text, text_tokens } => {
            assert_eq!(
                tokens,
                &vec![
                    "{{name}}".to_string(),
                    " got ".to_string(),
                    "[item]".to_string(),
                    r"\n".to_string(),
                    "ZMCZ".to_string(),
                    " x".to_string()
                ]
            );
            assert_eq!(flags, &vec![true, false, true, true, true, false]);
            assert_eq!(visible_text, " got  x");
            assert_eq!(text_tokens, &vec![" got  x".to_string()]);
        }
        ProcessorData::Passthrough => panic!("expected structured data"),
    }
}

#[test]
fn disabled_protection_leaves_text_visible() {
    let options = GameTextOptions {
        protect_tags: false,
        protect_brackets: true,
        protect_escaped_sequences: true,
        protect_placeholders: true,
        split_symbolic_segments: true,
    };
    let processor = StructuralProcessor::with_options(options);
    let ctx = processor.preprocess("<a+b>c");
    assert_eq!(ctx.parts_to_translate, vec!["<a+b>c".to_string()]);
}

#[test]
fn boundary_symbols_split_segments() {
    let processor = StructuralProcessor::new();
    let ctx = processor.preprocess("HP:10 / MP:5");
    assert_eq!(ctx.structural_text_tokens().unwrap().len(), 4);
    let rebuilt = processor.postprocess(
        &["PV".to_string(), "10 ".to_string(), " PM".to_string(), "5".to_string()],
        &ctx,
    );
    assert_eq!(rebuilt, "PV:10 / PM:5");
}

#[test]
fn passthrough_joins_parts() {
    let processor = PassthroughProcessor::new();
    let ctx = processor.preprocess("  ");
    assert!(ctx.parts_to_translate.is_empty());
    assert_eq!(processor.postprocess(&["a".to_string(), "b".to_string()], &ctx), "ab");
    let ctx = TranslationContext::new_passthrough("hi".to_string());
    assert_eq!(ctx.preview_text("hi"), "hi");
}

#[test]
fn mode_names_and_factory() {
    assert_eq!(TranslationMode::from_str("passthrough"), TranslationMode::Passthrough);
    assert_eq!(TranslationMode::from_str("game"), TranslationMode::Structured);
    assert_eq!(TranslationMode::default(), TranslationMode::Structured);
    let p = ProcessorFactory::create(TranslationMode::Structured, GameTextOptions::default());
    let ctx = p.preprocess("<b>Hi</b>");
    assert_eq!(ctx.preview_text("<b>Hi</b>"), "Hi");
    assert_eq!(p.postprocess(&["Salut".to_string()], &ctx), "<b>Salut</b>");
    let q = ProcessorFactory::create(TranslationMode::Passthrough, GameTextOptions::default());
    assert!(matches!(q, Processor::Passthrough(_)));
    let ctx = q.preprocess("<b>Hi</b>");
    assert_eq!(ctx.preview_text("<b>Hi</b>"), "<b>Hi</b>");
}

#[test]
fn unchanged_visible_text_rebuilds_the_input() {
    let processor = StructuralProcessor::new();
    for text in [r"<b>Attack+150%</b> {0} [item]\nZMCZ x", "plain words only", "<i></i>", ""] {
        let ctx = processor.preprocess(text);
        let visible = match &ctx.processor_data {
            ProcessorData::Structured { visible_text, .. } => visible_text.clone(),
            ProcessorData::Passthrough => panic!("expected structured data"),
        };
        assert_eq!(processor.postprocess(&[visible], &ctx), text);
        assert_eq!(processor.postprocess(&[], &ctx), text);
    }
}
