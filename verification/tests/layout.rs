use content::{layout_plain, ContentId, Cursor, PlainPiece, Selection};

fn show(pieces: Vec<PlainPiece>) -> Vec<String> {
    pieces
        .into_iter()
        .map(|p| match p {
            PlainPiece::Text(t) => format!("text {t:?}"),
            PlainPiece::Caret => "caret".to_string(),
            PlainPiece::Plain { offset, text } => format!("plain@{offset} {text:?}"),
            PlainPiece::Selected { offset, head, caret, tail } => {
                format!("selected@{offset} {head:?} {caret} {tail:?}")
            }
        })
        .collect()
}

fn caret(id: u64, offset: usize) -> Cursor {
    Cursor { content_id: ContentId::from_raw(id), offset }
}

#[test]
fn caret_without_selection() {
    let id = ContentId::from_raw(1);
    assert_eq!(show(layout_plain("hello", id, caret(1, 2), Selection::Nothing)), vec!["text \"he\"", "caret", "text \"llo\""]);
    assert_eq!(show(layout_plain("hello", id, caret(2, 2), Selection::Nothing)), vec!["text \"hello\""]);
    assert_eq!(show(layout_plain("hello", id, caret(1, 9), Selection::Nothing)), vec!["text \"hello\"", "caret", "text \"\""]);
}

#[test]
fn selection_without_caret() {
    let id = ContentId::from_raw(1);
    assert_eq!(
        show(layout_plain("héllo", id, caret(2, 0), Selection::Span(2, 4))),
        vec!["plain@0 \"hé\"", "selected@3 \"ll\" false \"\"", "plain@5 \"o\""]
    );
}

#[test]
fn caret_inside_the_selection() {
    let id = ContentId::from_raw(1);
    assert_eq!(
        show(layout_plain("hello", id, caret(1, 2), Selection::Span(1, 4))),
        vec!["plain@0 \"h\"", "selected@1 \"e\" true \"ll\"", "plain@4 \"o\""]
    );
}

#[test]
fn caret_before_the_selection() {
    let id = ContentId::from_raw(1);
    assert_eq!(
        show(layout_plain("hello", id, caret(1, 0), Selection::Span(1, 4))),
        vec!["plain@0 \"\"", "caret", "plain@0 \"h\"", "selected@1 \"ell\" false \"\"", "plain@4 \"o\""]
    );
}

#[test]
fn caret_past_the_selection_length() {
    let id = ContentId::from_raw(1);
    // The caret is compared with the selection's length (3), not its end (4).
    assert_eq!(
        show(layout_plain("hello", id, caret(1, 3), Selection::Span(1, 4))),
        vec!["plain@0 \"h\"", "selected@1 \"ell\" false \"\"", "plain@4 \"\"", "caret", "plain@4 \"o\""]
    );
}
