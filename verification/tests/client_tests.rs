use tenuki::translator::client::build_translation_message;


#[test]
fn builds_single_translation_message() {
    assert_eq!(
        build_translation_message(
            "Translate the following segment into Japanese, without additional explanation.",
            "Hello world"
        ),
        "Translate the following segment into Japanese, without additional explanation.\n\nHello world",
    );
}

#[test]
fn builds_message_with_source_text_placeholder() {
    assert_eq!(
        build_translation_message(
            "Translate: {source_text}",
            "Hello world"
        ),
        "Translate: Hello world",
    );
}

