use content::{ContentError, ContentKind, DirectContent, List, NodeSpec, Paragraph, Span};

#[test]
fn new_document_is_a_lone_root() {
    let body = DirectContent::new();
    assert_eq!(body.kind_of(body.root()), ContentKind::Root);
    assert_eq!(body.children_of(body.root()), vec![]);
    assert_eq!(body.parent_of(body.root()), None);
    assert_eq!(body.leafs(), vec![body.root()]);
}

#[test]
fn remove_text_with_zero_count_removes_nothing() {
    let mut body = DirectContent::new();
    let id = body.append_content(body.root(), "abc").unwrap();
    body.remove_text(id, 1, 0);
    assert_eq!(body.text_of(id), "abc");
    body.remove_text(id, 1, 1);
    assert_eq!(body.text_of(id), "ac");
    body.remove_text(id, 5, 1);
    assert_eq!(body.text_of(id), "ac");
    body.remove_text(id, 0, 10);
    assert_eq!(body.text_of(id), "");
    assert_eq!(body.len_of(id), 0);
}

#[test]
fn insert_text_past_the_end_appends() {
    let mut body = DirectContent::new();
    let id = body.append_content(body.root(), "hé").unwrap();
    body.insert_text(id, 99, "!");
    assert_eq!(body.text_of(id), "hé!");
    body.insert_text(id, 1, "ô");
    assert_eq!(body.text_of(id), "hôé!");
    assert_eq!(body.len_of(id), 4);
    let paragraph = body.parent_of(id).unwrap();
    body.insert_text(paragraph, 0, "ignored");
    assert_eq!(body.text_of(paragraph), "");
}

#[test]
fn set_spec_refuses_another_kind() {
    let mut body = DirectContent::new();
    let id = body.create_node(Paragraph);
    let err = body.set_spec(id, NodeSpec::from("x")).unwrap_err();
    assert_eq!(err, ContentError::KindMismatch { current: ContentKind::Paragraph, new: ContentKind::Plain });
    assert_eq!(
        err.message(),
        "impossible de remplacer un noeud Paragraph par un noeud Plain : les genres diffèrent"
    );
}

#[test]
fn error_messages_name_the_node() {
    assert_eq!(
        ContentError::NoParent(content::ContentId::from_raw(1207)).message(),
        "le noeud 1207 n'a pas de parent"
    );
    assert_eq!(
        ContentError::NoPreviousSibling(content::ContentId::from_raw(0)).message(),
        "le noeud 0 n'a pas de frère précédent"
    );
    assert_eq!(
        ContentError::IncompatibleChild { child: ContentKind::Root, parent: ContentKind::Span }.message(),
        "noeud de contenu enfant incompatible avec le parent Root vs. Span"
    );
    assert_eq!(
        ContentError::IncompatibleMerge { target: ContentKind::Plain, source: ContentKind::Span }.message(),
        "impossible de fusionner un noeud Span dans un noeud Plain : structures incompatibles"
    );
}

#[test]
fn merge_with_prev_needs_a_previous_sibling() {
    let mut body = DirectContent::new();
    let id = body.append_content(body.root(), "a").unwrap();
    assert_eq!(body.merge_with_prev(id), Err(ContentError::NoPreviousSibling(id)));
    assert_eq!(body.text_of(id), "a");
}

#[test]
fn split_without_parent_still_cuts_the_text() {
    let mut body = DirectContent::new();
    let id = body.create_node("hello");
    assert_eq!(body.split_node(id, 2), Err(ContentError::NoParent(id)));
    assert_eq!(body.text_of(id), "he");
}

#[test]
fn split_past_the_end_gives_an_empty_sibling() {
    let mut body = DirectContent::new();
    let id = body.append_content(body.root(), "ab").unwrap();
    let tail = body.split_node(id, 10).unwrap();
    assert_eq!(body.text_of(id), "ab");
    assert_eq!(body.text_of(tail), "");
    assert_eq!(body.next_sibling_of(id), Some(tail));
    assert_eq!(body.prev_sibling_of(tail), Some(id));
}

#[test]
fn split_then_merge_gives_back_the_text() {
    let mut body = DirectContent::new();
    let id = body.append_content(body.root(), "hello world").unwrap();
    let paragraph = body.parent_of(id).unwrap();
    let tail = body.split_node(id, 4).unwrap();
    assert_eq!(body.merge_with_prev(tail), Ok(id));
    assert_eq!(body.text_of(id), "hello world");
    assert_eq!(body.children_of(paragraph), vec![id]);
}

#[test]
fn insert_sibling_after_places_the_node_next() {
    let mut body = DirectContent::new();
    let a = body.append_content(body.root(), "a").unwrap();
    let paragraph = body.parent_of(a).unwrap();
    let b = body.create_node("b");
    let c = body.create_node("c");
    assert_eq!(body.insert_sibling_after(a, c), Ok(c));
    assert_eq!(body.insert_sibling_after(a, b), Ok(b));
    assert_eq!(body.children_of(paragraph), vec![a, b, c]);
    let lone = body.create_node("x");
    assert_eq!(body.insert_sibling_after(lone, b), Err(ContentError::NoParent(lone)));
}

#[test]
fn remove_node_deletes_the_subtree() {
    let mut body = DirectContent::new();
    let a = body.append_content(body.root(), "a").unwrap();
    let paragraph = body.parent_of(a).unwrap();
    body.remove_node(paragraph).unwrap();
    assert_eq!(body.children_of(body.root()), vec![]);
    let again = body.append_content(body.root(), "b").unwrap();
    assert_ne!(again, a);
}

#[test]
fn detach_keeps_the_node() {
    let mut body = DirectContent::new();
    let a = body.append_content(body.root(), "a").unwrap();
    let paragraph = body.parent_of(a).unwrap();
    body.detach_unchecked(a).unwrap();
    assert_eq!(body.parent_of(a), None);
    assert_eq!(body.children_of(paragraph), vec![]);
    assert_eq!(body.text_of(a), "a");
    body.append_child_unchecked(paragraph, a).unwrap();
    assert_eq!(body.children_of(paragraph), vec![a]);
}

#[test]
fn append_content_refuses_a_root_under_a_paragraph() {
    let mut body = DirectContent::new();
    let a = body.append_content(body.root(), "a").unwrap();
    let paragraph = body.parent_of(a).unwrap();
    let err = body.append_content(paragraph, NodeSpec::Root).unwrap_err();
    assert_eq!(err, ContentError::IncompatibleChild { child: ContentKind::Root, parent: ContentKind::Paragraph });
}

#[test]
fn ensure_compatible_node_for_builds_the_missing_chain() {
    let mut body = DirectContent::new();
    let cell = body.create_node(content::Cell);
    let top = body.ensure_compatible_node_for(body.root(), cell).unwrap();
    assert_eq!(body.kind_of(top), ContentKind::Table);
    let row = body.children_of(top)[0];
    assert_eq!(body.kind_of(row), ContentKind::Row);
    assert_eq!(body.children_of(row), vec![cell]);
    assert_eq!(body.parent_of(top), None);
}

#[test]
fn append_child_fills_empty_leaves_with_text() {
    let mut body = DirectContent::new();
    let list = body.create_node(List::default());
    body.append_child(body.root(), list).unwrap();
    let leaf = body.first_leaf_of(body.root());
    assert_eq!(body.kind_of(leaf), ContentKind::Plain);
    assert_eq!(body.text_of(leaf), "");
    let span = body.append_content(leaf, Span::default());
    assert!(span.is_err());
}

#[test]
fn merge_of_containers_moves_children_to_the_end() {
    let mut body = DirectContent::new();
    let a = body.append_content(body.root(), "a").unwrap();
    let b = body.append_content(body.root(), "b").unwrap();
    let pa = body.parent_of(a).unwrap();
    let pb = body.parent_of(b).unwrap();
    body.merge_into(pa, pb).unwrap();
    assert_eq!(body.children_of(pa), vec![a, b]);
    assert_eq!(body.children_of(body.root()), vec![pa]);
    assert_eq!(body.merge_into(pa, a), Err(ContentError::IncompatibleMerge { target: ContentKind::Paragraph, source: ContentKind::Plain }));
}

#[test]
fn merging_back_a_split_restores_the_leaf() {
    for at in [0usize, 2, 5, 11, 40] {
        let mut body = DirectContent::new();
        let id = body.append_content(body.root(), "héllo wörld").unwrap();
        let paragraph = body.parent_of(id).unwrap();
        let before = body.children_of(paragraph);

        let tail = body.split_node(id, at).unwrap();
        assert_eq!(body.children_of(paragraph), vec![id, tail]);
        assert_eq!(body.merge_with_prev(tail), Ok(id));

        assert_eq!(body.text_of(id), "héllo wörld");
        assert_eq!(body.children_of(paragraph), before);
        assert_eq!(body.leafs(), vec![id]);
    }
}

#[test]
fn merging_back_a_split_restores_the_paragraph() {
    for at in [0usize, 1, 2, 3, 9] {
        let mut body = DirectContent::new();
        let paragraph = body.create_node(Paragraph);
        body.insert_child_at(body.root(), 0, paragraph).unwrap();
        let a = body.create_node("a");
        let b = body.create_node("b");
        let c = body.create_node("c");
        body.insert_child_at(paragraph, 0, a).unwrap();
        body.insert_child_at(paragraph, 1, b).unwrap();
        body.insert_child_at(paragraph, 2, c).unwrap();

        let second = body.split_node(paragraph, at).unwrap();
        assert_eq!(body.children_of(body.root()), vec![paragraph, second]);
        assert_eq!(body.merge_with_prev(second), Ok(paragraph));

        assert_eq!(body.children_of(body.root()), vec![paragraph]);
        assert_eq!(body.children_of(paragraph), vec![a, b, c]);
        for leaf in [a, b, c] {
            assert_eq!(body.parent_of(leaf), Some(paragraph));
        }
    }
}

#[test]
fn default_document_is_a_lone_root() {
    let body = DirectContent::default();
    assert_eq!(body.kind_of(body.root()), ContentKind::Root);
    assert!(body.children_of(body.root()).is_empty());
}

#[test]
fn merging_a_split_straight_into_its_node_restores_it() {
    for at in [0usize, 3, 11, 40] {
        let mut body = DirectContent::new();
        let id = body.append_content(body.root(), "héllo wörld").unwrap();
        let paragraph = body.parent_of(id).unwrap();
        let before = body.children_of(paragraph);

        let tail = body.split_node(id, at).unwrap();
        assert_eq!(body.merge_into(id, tail), Ok(()));

        assert_eq!(body.text_of(id), "héllo wörld");
        assert_eq!(body.children_of(paragraph), before);
        assert_eq!(body.leafs(), vec![id]);
    }
}
