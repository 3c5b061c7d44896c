use content::{
    ensure_compatible_node_for_edits, ensure_only_plain_leafs_edits, merge_into_edits, split_node_edits,
    append_content_edits, ContentError, ContentId, ContentKind, DirectContent, Edit, NodeSpec, Paragraph,
};

/// A root holding one paragraph with the texts "ab" and "cd".
fn two_texts() -> (DirectContent, ContentId, ContentId, ContentId) {
    let mut body = DirectContent::new();
    let a = body.append_content(body.root(), "ab").unwrap();
    let paragraph = body.parent_of(a).unwrap();
    let b = body.create_node("cd");
    body.insert_child_at(paragraph, 1, b).unwrap();
    (body, paragraph, a, b)
}

fn put_of(edits: &[Edit], id: ContentId) -> Option<(&NodeSpec, Option<ContentId>, &Vec<ContentId>)> {
    edits.iter().find_map(|e| match e {
        Edit::Put { id: i, spec, parent, children } if *i == id => Some((spec, *parent, children)),
        _ => None,
    })
}

#[test]
fn merging_texts_rewrites_the_target_and_deletes_the_source() {
    let (body, paragraph, a, b) = two_texts();
    let edits = merge_into_edits(body, a, b).unwrap();
    let (spec, parent, _) = put_of(&edits, a).unwrap();
    assert!(matches!(spec, NodeSpec::Plain(t) if t == "abcd"));
    assert_eq!(parent, Some(paragraph));
    let (_, _, children) = put_of(&edits, paragraph).unwrap();
    assert_eq!(children, &vec![a]);
    assert!(edits.iter().any(|e| matches!(e, Edit::Delete(i) if *i == b)));
    // The root did not change and is not written.
    assert!(put_of(&edits, ContentId::from_raw(0)).is_none());
}

#[test]
fn refused_merge_gives_its_error() {
    let (body, paragraph, a, _) = two_texts();
    assert_eq!(
        merge_into_edits(body, paragraph, a).unwrap_err(),
        ContentError::IncompatibleMerge { target: ContentKind::Paragraph, source: ContentKind::Plain }
    );
}

#[test]
fn splitting_writes_both_halves() {
    let (body, paragraph, a, b) = two_texts();
    let (r, edits) = split_node_edits(body, a, 1);
    let fresh = r.unwrap();
    let (spec, _, _) = put_of(&edits, a).unwrap();
    assert!(matches!(spec, NodeSpec::Plain(t) if t == "a"));
    let (spec, parent, _) = put_of(&edits, fresh).unwrap();
    assert!(matches!(spec, NodeSpec::Plain(t) if t == "b"));
    assert_eq!(parent, Some(paragraph));
    let (_, _, children) = put_of(&edits, paragraph).unwrap();
    assert_eq!(children, &vec![a, fresh, b]);
    assert!(!edits.iter().any(|e| matches!(e, Edit::Delete(_))));
}

#[test]
fn compatible_chain_is_written_as_new_nodes() {
    let mut body = DirectContent::new();
    let text = body.create_node("x");
    let root = body.root();
    let (r, edits) = ensure_compatible_node_for_edits(body, root, text);
    let top = r.unwrap();
    let (spec, parent, children) = put_of(&edits, top).unwrap();
    assert!(matches!(spec, NodeSpec::Paragraph(Paragraph)));
    assert_eq!(parent, None);
    assert_eq!(children, &vec![text]);
    assert_eq!(put_of(&edits, text).unwrap().1, Some(top));
}

#[test]
fn plain_leafs_are_added_under_empty_containers() {
    let mut body = DirectContent::new();
    let paragraph = body.create_node(Paragraph);
    let root = body.root();
    body.insert_child_at(root, 0, paragraph).unwrap();
    let edits = ensure_only_plain_leafs_edits(body);
    let (_, _, children) = put_of(&edits, paragraph).unwrap();
    assert_eq!(children.len(), 1);
    let (spec, parent, _) = put_of(&edits, children[0]).unwrap();
    assert!(matches!(spec, NodeSpec::Plain(t) if t.is_empty()));
    assert_eq!(parent, Some(paragraph));
}

#[test]
fn appended_text_is_wrapped_in_a_paragraph() {
    let body = DirectContent::new();
    let root = body.root();
    let (r, edits) = append_content_edits(body, root, "hello");
    let text = r.unwrap();
    let (spec, parent, _) = put_of(&edits, text).unwrap();
    assert!(matches!(spec, NodeSpec::Plain(t) if t == "hello"));
    let paragraph = parent.unwrap();
    assert_eq!(put_of(&edits, paragraph).unwrap().1, Some(root));
    assert_eq!(put_of(&edits, root).unwrap().2, &vec![paragraph]);
}
