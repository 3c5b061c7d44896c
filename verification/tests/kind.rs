use content::{Cell, ContentKind, List, ListItem, ListMarker, NodeSpec, Paragraph, Row, Span, Table};

#[test]
fn test_correction_path() {
    let got = ContentKind::Plain.correction_path(ContentKind::Root).unwrap();
    assert_eq!(got.as_slice(), &[ContentKind::Paragraph]);

    let got = ContentKind::Span.correction_path(ContentKind::Root).unwrap();
    assert_eq!(got.as_slice(), &[ContentKind::Paragraph]);

    let got = ContentKind::Paragraph.correction_path(ContentKind::Root).unwrap();
    assert_eq!(got.as_slice(), &[]);

    let got = ContentKind::Cell.correction_path(ContentKind::Root).unwrap();
    assert_eq!(got.as_slice(), &[ContentKind::Table, ContentKind::Row]);

    let got = ContentKind::Row.correction_path(ContentKind::Root).unwrap();
    assert_eq!(got.as_slice(), &[ContentKind::Table]);

    let got = ContentKind::Table.correction_path(ContentKind::Root).unwrap();
    assert_eq!(got.as_slice(), &[]);
}

#[test]
fn correction_path_is_none_without_an_ascending_chain() {
    assert!(ContentKind::Root.correction_path(ContentKind::Paragraph).is_none());
    assert!(ContentKind::Paragraph.correction_path(ContentKind::Plain).is_none());
    assert!(ContentKind::Table.correction_path(ContentKind::Span).is_none());
}

#[test]
fn correction_path_into_list_and_table() {
    assert_eq!(ContentKind::Plain.correction_path(ContentKind::List).unwrap(), vec![ContentKind::ListItem]);
    assert_eq!(
        ContentKind::Plain.correction_path(ContentKind::Table).unwrap(),
        vec![ContentKind::Row, ContentKind::Cell]
    );
    assert_eq!(ContentKind::Span.correction_path(ContentKind::Span).unwrap(), vec![]);
}

#[test]
fn grammar_tables() {
    assert_eq!(
        ContentKind::Root.allowed_children(),
        vec![ContentKind::Paragraph, ContentKind::List, ContentKind::Table]
    );
    assert_eq!(ContentKind::Plain.allowed_children(), vec![]);
    assert_eq!(
        ContentKind::Plain.parents(),
        vec![ContentKind::Paragraph, ContentKind::Span, ContentKind::ListItem, ContentKind::Cell]
    );
    assert_eq!(ContentKind::Root.parents(), vec![]);
    assert!(ContentKind::Row.can_accept_child(ContentKind::Cell));
    assert!(!ContentKind::Row.can_accept_child(ContentKind::Plain));
}

#[test]
fn allowed_children_match_ignores_order() {
    assert!(ContentKind::Paragraph.allowed_children_match(ContentKind::ListItem));
    assert!(ContentKind::Cell.allowed_children_match(ContentKind::Span));
    assert!(!ContentKind::Paragraph.allowed_children_match(ContentKind::List));
    assert!(!ContentKind::Root.allowed_children_match(ContentKind::Table));
}

#[test]
fn default_nodes_have_their_kind() {
    for kind in [
        ContentKind::Root,
        ContentKind::Paragraph,
        ContentKind::Plain,
        ContentKind::Span,
        ContentKind::List,
        ContentKind::ListItem,
        ContentKind::Table,
        ContentKind::Row,
        ContentKind::Cell,
    ] {
        assert_eq!(kind.new_default_node().kind(), kind);
    }
    let NodeSpec::Span(span) = ContentKind::Span.new_default_node() else { panic!("expected a Span") };
    assert!(!span.bold && !span.italic && !span.underline && !span.strikeout);
    let NodeSpec::List(list) = ContentKind::List.new_default_node() else { panic!("expected a List") };
    assert_eq!(list.marker, ListMarker::Disc);
    assert_eq!(list.start, None);
    assert!(ContentKind::Plain.new_default_node().is_empty());
}

#[test]
fn node_spec_from_values() {
    let plain = NodeSpec::from("héllo");
    assert_eq!(plain.kind(), ContentKind::Plain);
    assert_eq!(plain.len(), 5);
    assert_eq!(plain.as_str(), "héllo");
    assert_eq!(NodeSpec::from(String::from("ab")).len(), 2);
    assert_eq!(NodeSpec::from(Paragraph).kind(), ContentKind::Paragraph);
    assert_eq!(NodeSpec::from(Span::default()).kind(), ContentKind::Span);
    assert_eq!(NodeSpec::from(List::default()).kind(), ContentKind::List);
    assert_eq!(NodeSpec::from(ListItem::default()).kind(), ContentKind::ListItem);
    assert_eq!(NodeSpec::from(Table).kind(), ContentKind::Table);
    assert_eq!(NodeSpec::from(Row).kind(), ContentKind::Row);
    assert_eq!(NodeSpec::from(Cell).kind(), ContentKind::Cell);
    assert_eq!(NodeSpec::from(Cell).len(), 0);
    assert_eq!(ContentKind::ListItem.name(), "ListItem");
}

#[test]
fn ascending_path_avoiding_a_kind_takes_the_next_shortest_way() {
    let got = ContentKind::Plain.find_ascending_path(ContentKind::Root, vec![ContentKind::Paragraph]).unwrap();
    assert_eq!(got, vec![ContentKind::List, ContentKind::ListItem, ContentKind::Plain]);
    let got = ContentKind::Plain
        .find_ascending_path(ContentKind::Root, vec![ContentKind::Paragraph, ContentKind::ListItem])
        .unwrap();
    assert_eq!(got, vec![ContentKind::Table, ContentKind::Row, ContentKind::Cell, ContentKind::Plain]);
    assert_eq!(ContentKind::Root.find_ascending_path(ContentKind::Plain, vec![]), None);
}
