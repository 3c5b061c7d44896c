use content::{byte_index_of, ContentLeafs, Cursor, DirectContent, EditorSelection, EditorSelectionState, Selection};
use std::cmp::Ordering;

fn two_paragraphs() -> (DirectContent, content::ContentId, content::ContentId) {
    let mut body = DirectContent::new();
    let first = body.append_content(body.root(), "ab").unwrap();
    let second = body.append_content(body.root(), "cde").unwrap();
    (body, first, second)
}

#[test]
fn cursor_byte_offset_counts_characters() {
    let cursor = Cursor { content_id: content::ContentId::from_raw(1), offset: 2 };
    assert_eq!(cursor.into_byte_offset("héllo"), Some(3));
    assert_eq!(cursor.into_byte_offset("hé"), None);
    assert_eq!(Cursor { offset: 0, ..cursor }.into_byte_offset(""), None);
}

#[test]
fn cursor_split_clone() {
    let cursor = Cursor { content_id: content::ContentId::from_raw(1), offset: 2 };
    assert_eq!(cursor.split_clone("héllo"), ("hé".to_string(), "llo".to_string()));
    assert_eq!(cursor.split_clone("hé"), ("hé".to_string(), String::new()));
    assert_eq!(Cursor { offset: 0, ..cursor }.split_clone("ab"), (String::new(), "ab".to_string()));
}

#[test]
fn cursor_moves_across_leaves() {
    let (body, first, second) = two_paragraphs();
    let mut cursor = Cursor { content_id: first, offset: 2 };
    cursor.right(&body);
    assert_eq!(cursor, Cursor { content_id: second, offset: 0 });
    cursor.right(&body);
    assert_eq!(cursor, Cursor { content_id: second, offset: 1 });
    cursor.left(&body);
    cursor.left(&body);
    assert_eq!(cursor, Cursor { content_id: first, offset: 2 });

    let mut start = Cursor { content_id: first, offset: 0 };
    start.left(&body);
    assert_eq!(start, Cursor { content_id: first, offset: 0 });
    let mut end = Cursor { content_id: second, offset: 3 };
    end.right(&body);
    assert_eq!(end, Cursor { content_id: second, offset: 3 });
}

#[test]
fn cursor_order() {
    let (body, first, second) = two_paragraphs();
    let a = Cursor { content_id: first, offset: 1 };
    let b = Cursor { content_id: second, offset: 0 };
    assert_eq!(a.partial_cmp(&b, &body), Some(Ordering::Less));
    assert_eq!(b.partial_cmp(&a, &body), Some(Ordering::Greater));
    assert_eq!(a.partial_cmp(&Cursor { offset: 2, ..a }, &body), Some(Ordering::Less));
    assert_eq!(a.partial_cmp(&a, &body), Some(Ordering::Equal));
    assert!(a.is_content_within(first));
    assert!(!a.is_content_within(second));
}

#[test]
fn selection_is_corrected_and_covers_leaves() {
    let (body, first, second) = two_paragraphs();
    let mut selection = EditorSelection {
        state: EditorSelectionState::Dragging,
        anchor: Some(Cursor { content_id: second, offset: 2 }),
        focus: Some(Cursor { content_id: first, offset: 1 }),
    };
    selection.correct(&body);
    assert_eq!(selection.anchor, Some(Cursor { content_id: first, offset: 1 }));
    assert_eq!(selection.focus, Some(Cursor { content_id: second, offset: 2 }));

    assert_eq!(selection.is_plain_selected(first, &body), Selection::Span(1, 2));
    assert_eq!(selection.is_plain_selected(second, &body), Selection::Span(0, 2));

    let single = EditorSelection {
        state: EditorSelectionState::Idle,
        anchor: Some(Cursor { content_id: second, offset: 1 }),
        focus: Some(Cursor { content_id: second, offset: 3 }),
    };
    assert_eq!(single.is_plain_selected(first, &body), Selection::Nothing);
    assert_eq!(single.is_plain_selected(second, &body), Selection::Span(1, 3));
    assert_eq!(EditorSelection::default().is_plain_selected(first, &body), Selection::Nothing);
    assert_eq!(EditorSelectionState::default().as_str(), "Idle");
}

#[test]
fn leaves_are_walked_in_document_order() {
    let (body, first, second) = two_paragraphs();
    let mut walk = ContentLeafs::new(&body);
    assert_eq!(walk.next(), Some(first));
    assert_eq!(walk.next(), Some(second));
    assert_eq!(walk.next(), None);
    assert_eq!(walk.next(), None);
    assert_eq!(body.leafs(), vec![first, second]);
}

#[test]
fn byte_index_of_counts_multibyte_characters() {
    assert_eq!(byte_index_of("héllo", 0), 0);
    assert_eq!(byte_index_of("héllo", 2), 3);
    assert_eq!(byte_index_of("héllo", 5), 6);
    assert_eq!(byte_index_of("héllo", 9), 6);
    assert_eq!(byte_index_of("", 0), 0);
}

#[test]
fn selection_follows_the_pointer() {
    let (body, first, second) = two_paragraphs();
    let mut sel = EditorSelection::default();
    let a = Cursor { content_id: second, offset: 1 };
    let b = Cursor { content_id: first, offset: 1 };

    assert_eq!(sel.drag(Some(b), &body), None);
    assert_eq!(sel, EditorSelection::default());

    assert_eq!(sel.press(None), None);
    assert_eq!(sel.state, EditorSelectionState::Idle);
    assert_eq!(sel.press(Some(a)), Some(a));
    assert_eq!(sel.state, EditorSelectionState::Dragging);
    assert_eq!(sel.anchor, Some(a));
    assert_eq!(sel.focus, None);

    // A second press while dragging changes nothing.
    assert_eq!(sel.press(Some(b)), None);
    assert_eq!(sel.anchor, Some(a));

    // Dragging back before the anchor puts anchor and focus in order.
    assert_eq!(sel.drag(Some(b), &body), Some(a));
    assert_eq!(sel.anchor, Some(b));
    assert_eq!(sel.focus, Some(a));
    assert_eq!(sel.drag(None, &body), None);

    sel.release();
    assert_eq!(sel.state, EditorSelectionState::Idle);
    assert_eq!(sel.anchor, Some(b));
    assert_eq!(sel.focus, Some(a));
}

#[test]
fn right_then_left_returns_across_a_leaf_boundary() {
    let (body, first, second) = two_paragraphs();
    for offset in 0..=2 {
        let start = Cursor { content_id: first, offset };
        let mut cursor = start;
        cursor.right(&body);
        cursor.left(&body);
        assert_eq!(cursor, start);
    }
    let mut cursor = Cursor { content_id: first, offset: 2 };
    cursor.right(&body);
    assert_eq!(cursor, Cursor { content_id: second, offset: 0 });
}

#[test]
fn walk_meets_each_leaf_once_then_ends() {
    let (body, first, second) = two_paragraphs();
    let mut walk = ContentLeafs::new(&body);
    assert_eq!(walk.next(), Some(first));
    assert_eq!(walk.next(), Some(second));
    assert_eq!(walk.next(), None);
    assert_eq!(walk.next(), None);
    assert_eq!(body.leafs(), vec![first, second]);
}

#[test]
fn leaf_steps_invert_in_a_detached_tree() {
    let mut body = DirectContent::new();
    let paragraph = body.create_node(content::Paragraph);
    let a = body.create_node("a");
    let b = body.create_node("b");
    body.insert_child_at(paragraph, 0, a).unwrap();
    body.insert_child_at(paragraph, 1, b).unwrap();
    assert_eq!(body.parent_of(paragraph), None);
    assert_eq!(body.next_leaf_of(a), Some(b));
    assert_eq!(body.prev_leaf_of(b), Some(a));
    assert_eq!(body.prev_leaf_of(a), None);
    assert_eq!(body.next_leaf_of(b), None);
}
