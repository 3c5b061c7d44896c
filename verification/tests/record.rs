use content::{
    check_same_kind, child_ids, child_position, node_fields, record_kind_of, removed_byte_range, same_text,
    spec_fields, spec_from_fields, subtree_ids, ContentError, ContentId, ContentKind, FieldValue, List, ListItem,
    ListMarker, NodeSpec, Span,
};

fn entries(fields: Vec<(&'static str, FieldValue)>) -> Vec<(String, FieldValue)> {
    fields.into_iter().map(|(k, v)| (k.to_string(), v)).collect()
}

#[test]
fn kind_names_read_back() {
    let kinds = [
        ContentKind::Root,
        ContentKind::Paragraph,
        ContentKind::Plain,
        ContentKind::Span,
        ContentKind::List,
        ContentKind::ListItem,
        ContentKind::Table,
        ContentKind::Row,
        ContentKind::Cell,
    ];
    for kind in kinds {
        assert_eq!(ContentKind::from_name(kind.name()), Some(kind));
    }
    assert_eq!(ContentKind::from_name("ListItem"), Some(ContentKind::ListItem));
    assert_eq!(ContentKind::from_name("listitem"), None);
    assert_eq!(ContentKind::from_name(""), None);
}

#[test]
fn marker_names_read_back() {
    assert_eq!(ListMarker::LowerRoman.name(), "LowerRoman");
    assert_eq!(ListMarker::from_name("UpperAlpha"), Some(ListMarker::UpperAlpha));
    assert_eq!(ListMarker::from_name("Dots"), None);
}

#[test]
fn identifiers_are_written_in_decimal() {
    assert_eq!(ContentId::from_raw(0).to_decimal(), "0");
    assert_eq!(ContentId::from_raw(1234567890123).to_decimal(), "1234567890123");
    assert_eq!(ContentId::from_raw(u64::MAX).to_decimal(), "18446744073709551615");
    assert_eq!(ContentId::from_decimal("42"), Some(ContentId::from_raw(42)));
    assert_eq!(ContentId::from_decimal("18446744073709551615"), Some(ContentId::from_raw(u64::MAX)));
    assert_eq!(ContentId::from_decimal("18446744073709551616"), None);
    assert_eq!(ContentId::from_decimal("042"), None);
    assert_eq!(ContentId::from_decimal("4a"), None);
    assert_eq!(ContentId::from_decimal(""), None);
    assert_eq!(ContentId::from_decimal("0"), Some(ContentId::from_raw(0)));
}

#[test]
fn same_text_compares_characters() {
    assert!(same_text("héllo", "héllo"));
    assert!(!same_text("héllo", "hello"));
    assert!(!same_text("ab", "abc"));
}

#[test]
fn new_node_fields_for_a_span() {
    let spec = NodeSpec::Span(Span { bold: true, italic: false, underline: true, strikeout: false });
    let fields = node_fields(&spec, Some(ContentId::from_raw(7)));
    let keys: Vec<&str> = fields.iter().map(|(k, _)| *k).collect();
    assert_eq!(keys, vec!["kind", "parent", "children", "bold", "italic", "underline", "strikeout"]);
    assert!(matches!(&fields[0].1, FieldValue::Str(s) if s == "Span"));
    assert!(matches!(&fields[1].1, FieldValue::Str(s) if s == "7"));
    assert!(matches!(fields[2].1, FieldValue::List));
    assert!(matches!(fields[3].1, FieldValue::Bool(true)));
    assert!(matches!(fields[4].1, FieldValue::Bool(false)));
}

#[test]
fn new_node_fields_read_back() {
    let specs = vec![
        NodeSpec::Root,
        NodeSpec::Plain("héllo".to_string()),
        NodeSpec::Span(Span { bold: false, italic: true, underline: false, strikeout: true }),
        NodeSpec::List(List { marker: ListMarker::Decimal, start: Some(3) }),
        NodeSpec::List(List { marker: ListMarker::Square, start: None }),
        NodeSpec::ListItem(ListItem { marker: ListMarker::LowerAlpha }),
    ];
    for spec in specs {
        let record = entries(node_fields(&spec, None));
        let back = spec_from_fields(&record).unwrap();
        assert_eq!(format!("{:?}", back), format!("{:?}", spec));
        assert_eq!(record_kind_of(&record), Some(spec.kind()));
    }
}

#[test]
fn rewritten_attributes_read_back() {
    let old = NodeSpec::List(List { marker: ListMarker::Decimal, start: Some(3) });
    let new = NodeSpec::List(List { marker: ListMarker::Circle, start: None });
    let mut record = entries(spec_fields(&new));
    record.extend(entries(node_fields(&old, None)));
    let back = spec_from_fields(&record).unwrap();
    assert_eq!(format!("{:?}", back), format!("{:?}", new));
}

#[test]
fn plain_fields_hold_the_text() {
    let fields = spec_fields(&NodeSpec::Plain("abc".to_string()));
    assert_eq!(fields.len(), 1);
    assert_eq!(fields[0].0, "text");
    assert!(matches!(&fields[0].1, FieldValue::Text(t) if t == "abc"));
    assert!(spec_fields(&NodeSpec::Root).is_empty());
}

#[test]
fn unreadable_records_give_no_node() {
    assert!(spec_from_fields(&Vec::new()).is_none());
    let record = vec![("kind".to_string(), FieldValue::Str("Nope".to_string()))];
    assert!(spec_from_fields(&record).is_none());
    let record = vec![("kind".to_string(), FieldValue::Bool(true))];
    assert_eq!(record_kind_of(&record), None);
}

#[test]
fn missing_attributes_take_their_defaults() {
    let record = vec![
        ("kind".to_string(), FieldValue::Str("List".to_string())),
        ("marker".to_string(), FieldValue::Str("Unknown".to_string())),
        ("start".to_string(), FieldValue::Number(-4)),
    ];
    let spec = spec_from_fields(&record).unwrap();
    assert_eq!(format!("{:?}", spec), format!("{:?}", NodeSpec::List(List { marker: ListMarker::Disc, start: Some(0) })));

    let record = vec![
        ("kind".to_string(), FieldValue::Str("List".to_string())),
        ("start".to_string(), FieldValue::Number(1 << 40)),
    ];
    let spec = spec_from_fields(&record).unwrap();
    assert_eq!(format!("{:?}", spec), format!("{:?}", NodeSpec::List(List { marker: ListMarker::Disc, start: Some(u32::MAX) })));

    let record = vec![("kind".to_string(), FieldValue::Str("Plain".to_string()))];
    let spec = spec_from_fields(&record).unwrap();
    assert_eq!(spec.as_str(), "");
}

#[test]
fn children_lists_skip_unreadable_items() {
    let items = vec![Some("3".to_string()), None, Some("x".to_string()), Some("12".to_string())];
    assert_eq!(child_ids(&items), vec![ContentId::from_raw(3), ContentId::from_raw(12)]);
    assert_eq!(child_position(&items, ContentId::from_raw(12)), Some(3));
    assert_eq!(child_position(&items, ContentId::from_raw(3)), Some(0));
    assert_eq!(child_position(&items, ContentId::from_raw(5)), None);
}

#[test]
fn removed_bytes_follow_characters() {
    assert_eq!(removed_byte_range("hello world", 0, 6), Some((0, 6)));
    assert_eq!(removed_byte_range("héllo", 1, 2), Some((1, 4)));
    assert_eq!(removed_byte_range("héllo", 3, 10), Some((4, 6)));
    assert_eq!(removed_byte_range("héllo", 1, 0), None);
    assert_eq!(removed_byte_range("héllo", 5, 1), None);
}

#[test]
fn a_new_specification_keeps_the_kind() {
    assert_eq!(check_same_kind(ContentKind::Span, &NodeSpec::Span(Span::default())), Ok(()));
    let err = check_same_kind(ContentKind::Span, &NodeSpec::Plain("x".to_string())).unwrap_err();
    assert_eq!(err, ContentError::KindMismatch { current: ContentKind::Span, new: ContentKind::Plain });
    assert!(err.message().contains("genres diffèrent"));
}

#[test]
fn subtrees_are_listed_in_pre_order() {
    let id = ContentId::from_raw;
    let links = vec![
        (id(1), vec![id(2), id(3)]),
        (id(2), vec![id(4)]),
        (id(3), vec![]),
        (id(4), vec![]),
    ];
    assert_eq!(subtree_ids(&links, id(1)), vec![id(1), id(2), id(4), id(3)]);
    assert_eq!(subtree_ids(&links, id(2)), vec![id(2), id(4)]);
    assert_eq!(subtree_ids(&links, id(9)), vec![id(9)]);
    assert_eq!(subtree_ids(&Vec::new(), id(5)), vec![id(5)]);
}

#[test]
fn subtree_of_a_loop_stops() {
    let id = ContentId::from_raw;
    let links = vec![(id(1), vec![id(2)]), (id(2), vec![id(1)])];
    assert_eq!(subtree_ids(&links, id(1)), vec![id(1), id(2), id(1)]);
}
