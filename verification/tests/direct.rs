use content::{
    Cell, ContentKind as Kind, DirectContent, List, ListItem, NodeSpec, Paragraph, Row, Span, Table,
};

#[test]
fn direct_test_create_compatible_node() {
    // Plain > Paragraph > Root
    let mut body = DirectContent::new();
    let id = body.append_content(body.root(), "").unwrap();
    let got = body.ancestors_of(id).into_iter().map(|id| body.kind_of(id)).collect::<Vec<_>>();
    assert_eq!(got.as_slice(), &[Kind::Paragraph, Kind::Root]);

    // Span > Paragraph > Root
    let mut body = DirectContent::new();
    let id = body.append_content(body.root(), Span::default()).unwrap();
    let got = body.ancestors_of(id).into_iter().map(|id| body.kind_of(id)).collect::<Vec<_>>();
    assert_eq!(got.as_slice(), &[Kind::Paragraph, Kind::Root]);

    // ListItem > List > Root
    let mut body = DirectContent::new();
    let id = body.append_content(body.root(), ListItem::default()).unwrap();
    let got = body.ancestors_of(id).into_iter().map(|id| body.kind_of(id)).collect::<Vec<_>>();
    assert_eq!(got.as_slice(), &[Kind::List, Kind::Root]);

    // Cell > Row > Table > Root
    let mut body = DirectContent::new();
    let id = body.append_content(body.root(), Cell).unwrap();
    let got = body.ancestors_of(id).into_iter().map(|id| body.kind_of(id)).collect::<Vec<_>>();
    assert_eq!(got.as_slice(), &[Kind::Row, Kind::Table, Kind::Root]);

    // List > Root, Row > Table > Root, Table > Root: already compatible
    let mut body = DirectContent::new();
    let id = body.append_content(body.root(), List::default()).unwrap();
    let got = body.ancestors_of(id).into_iter().map(|id| body.kind_of(id)).collect::<Vec<_>>();
    assert_eq!(got.as_slice(), &[Kind::Root]);

    let mut body = DirectContent::new();
    let id = body.append_content(body.root(), Row).unwrap();
    let got = body.ancestors_of(id).into_iter().map(|id| body.kind_of(id)).collect::<Vec<_>>();
    assert_eq!(got.as_slice(), &[Kind::Table, Kind::Root]);

    let mut body = DirectContent::new();
    let id = body.append_content(body.root(), Table).unwrap();
    let got = body.ancestors_of(id).into_iter().map(|id| body.kind_of(id)).collect::<Vec<_>>();
    assert_eq!(got.as_slice(), &[Kind::Root]);
}

#[test]
fn direct_test_only_plain_leafs() {
    // Plain > Span > Paragraph > Root
    let mut body = DirectContent::new();
    body.append_content(body.root(), Span::default()).unwrap();
    let id = body.first_leaf_of(body.root());
    let got = body.ancestors_of(id).into_iter().map(|id| body.kind_of(id)).collect::<Vec<_>>();

    assert_eq!(body.kind_of(id), Kind::Plain);
    assert_eq!(got.as_slice(), &[Kind::Span, Kind::Paragraph, Kind::Root]);

    // Plain > ListItem > List > Root
    let mut body = DirectContent::new();
    body.append_content(body.root(), List::default()).unwrap();
    let id = body.first_leaf_of(body.root());
    let got = body.ancestors_of(id).into_iter().map(|id| body.kind_of(id)).collect::<Vec<_>>();

    assert_eq!(body.kind_of(id), Kind::Plain);
    assert_eq!(got.as_slice(), &[Kind::ListItem, Kind::List, Kind::Root]);

    // Plain > Cell > Row > Table > Root
    let mut body = DirectContent::new();
    body.append_content(body.root(), Table).unwrap();
    let id = body.first_leaf_of(body.root());
    let got = body.ancestors_of(id).into_iter().map(|id| body.kind_of(id)).collect::<Vec<_>>();

    assert_eq!(body.kind_of(id), Kind::Plain);
    assert_eq!(got.as_slice(), &[Kind::Cell, Kind::Row, Kind::Table, Kind::Root]);
}

#[test]
fn direct_test_text_editing() {
    let mut body = DirectContent::new();
    let id = body.append_content(body.root(), "hello").unwrap();

    body.insert_text(id, 5, " world");
    assert_eq!(body.text_of(id), "hello world");

    body.remove_text(id, 0, 6);
    assert_eq!(body.text_of(id), "world");
}

#[test]
fn direct_test_leaf_navigation() {
    let mut body = DirectContent::new();
    let first = body.append_content(body.root(), "a").unwrap();
    let second = body.append_content(body.root(), "b").unwrap();

    assert_eq!(body.next_leaf_of(first), Some(second));
    assert_eq!(body.prev_leaf_of(second), Some(first));
    assert_eq!(body.leaf_order_of(first, second), Some(std::cmp::Ordering::Less));
}

#[test]
fn direct_test_spec_of_and_set_spec() {
    let mut body = DirectContent::new();
    let id = body.create_node(Span { bold: true, ..Span::default() });

    let NodeSpec::Span(span) = body.spec_of(id) else { panic!("attendu un Span") };
    assert!(span.bold);
    assert!(!span.italic);

    body.set_spec(id, NodeSpec::Span(Span { italic: true, ..Span::default() })).unwrap();
    let NodeSpec::Span(span) = body.spec_of(id) else { panic!("attendu un Span") };
    assert!(!span.bold);
    assert!(span.italic);

    let err = body.set_spec(id, NodeSpec::Plain("x".into())).unwrap_err();
    assert!(err.message().contains("genres diffèrent"));
}

#[test]
fn direct_test_merge_with_prev_text() {
    let mut body = DirectContent::new();
    let paragraph = body.create_node(Paragraph);
    body.insert_child_at(body.root(), 0, paragraph).unwrap();

    let first = body.create_node("hello ");
    let second = body.create_node("world");
    body.insert_child_at(paragraph, 0, first).unwrap();
    body.insert_child_at(paragraph, 1, second).unwrap();

    let merged = body.merge_with_prev(second).unwrap();
    assert_eq!(merged, first);
    assert_eq!(body.text_of(first), "hello world");
    assert_eq!(body.children_of(paragraph), vec![first]);
}

#[test]
fn direct_test_merge_with_prev_kind_mismatch() {
    let mut body = DirectContent::new();
    let paragraph = body.create_node(Paragraph);
    body.insert_child_at(body.root(), 0, paragraph).unwrap();

    let plain = body.create_node("x");
    let span = body.create_node(Span::default());
    body.insert_child_at(paragraph, 0, plain).unwrap();
    body.insert_child_at(paragraph, 1, span).unwrap();

    let err = body.merge_with_prev(span).unwrap_err();
    assert!(err.message().contains("structures incompatibles"));
}

#[test]
fn direct_test_merge_into_paragraph_and_list_item() {
    let mut body = DirectContent::new();
    let paragraph = body.create_node(Paragraph);
    let list_item = body.create_node(ListItem::default());
    body.insert_child_at(body.root(), 0, paragraph).unwrap();
    body.insert_child_at(body.root(), 1, list_item).unwrap();

    let plain = body.create_node("hello");
    let span = body.create_node(Span::default());
    body.insert_child_at(list_item, 0, plain).unwrap();
    body.insert_child_at(list_item, 1, span).unwrap();

    body.merge_into(paragraph, list_item).unwrap();

    assert_eq!(body.kind_of(paragraph), Kind::Paragraph);
    assert_eq!(body.children_of(paragraph), vec![plain, span]);
    assert_eq!(body.children_of(body.root()), vec![paragraph]);
}

#[test]
fn direct_test_split_node_text() {
    let mut body = DirectContent::new();
    let id = body.append_content(body.root(), "hello world").unwrap();
    let paragraph = body.parent_of(id).unwrap();

    let tail = body.split_node(id, 5).unwrap();
    assert_eq!(body.text_of(id), "hello");
    assert_eq!(body.text_of(tail), " world");
    assert_eq!(body.children_of(paragraph), vec![id, tail]);
}

#[test]
fn direct_test_split_node_container() {
    let mut body = DirectContent::new();
    let paragraph = body.create_node(Paragraph);
    body.insert_child_at(body.root(), 0, paragraph).unwrap();

    let a = body.create_node("a");
    let b = body.create_node("b");
    let c = body.create_node("c");
    body.insert_child_at(paragraph, 0, a).unwrap();
    body.insert_child_at(paragraph, 1, b).unwrap();
    body.insert_child_at(paragraph, 2, c).unwrap();

    let new_paragraph = body.split_node(paragraph, 1).unwrap();
    assert_eq!(body.children_of(paragraph), vec![a]);
    assert_eq!(body.children_of(new_paragraph), vec![b, c]);
    assert_eq!(body.children_of(body.root()), vec![paragraph, new_paragraph]);
    assert_eq!(body.kind_of(new_paragraph), Kind::Paragraph);
}
