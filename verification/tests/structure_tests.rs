use tenuki::translator::structure::{split_protected_angles_and_newlines, RawKind};

#[test]
fn split_parts_have_their_shapes() {
    let input: Vec<char> = "a<b>c\r\nd<e\nf\r<g>".chars().collect();
    let parts = split_protected_angles_and_newlines(&input);
    let view: Vec<(RawKind, &str)> = parts.iter().map(|p| (p.kind, p.text.as_str())).collect();
    assert_eq!(
        view,
        vec![
            (RawKind::Text, "a"),
            (RawKind::ProtectedAngle, "<b>"),
            (RawKind::Text, "c"),
            (RawKind::Newline, "\r\n"),
            (RawKind::Text, "d<e"),
            (RawKind::Newline, "\n"),
            (RawKind::Text, "f"),
            (RawKind::Newline, "\r"),
            (RawKind::ProtectedAngle, "<g>"),
        ]
    );
    let joined: String = parts.iter().map(|p| p.text.as_str()).collect();
    assert_eq!(joined, "a<b>c\r\nd<e\nf\r<g>");
}
