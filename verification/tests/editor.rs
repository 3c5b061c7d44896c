use content::{
    backspace, cursor_at, delete, enter, key_command, move_right_by, parse_usize, write_str, ContentId, Cursor,
    DirectContent, EditorEffect, KeyCommand,
};

#[test]
fn backspace_removes_the_previous_character() {
    let mut body = DirectContent::new();
    let id = body.append_content(body.root(), "abc").unwrap();
    let effect = backspace(&mut body, Cursor { content_id: id, offset: 2 });
    assert_eq!(effect, Some(EditorEffect::CharRemoved));
    assert_eq!(body.text_of(id), "ac");
}

#[test]
fn backspace_at_the_start_of_a_block_merges_it_into_the_previous_one() {
    let mut body = DirectContent::new();
    let first = body.append_content(body.root(), "ab").unwrap();
    let second = body.append_content(body.root(), "cd").unwrap();
    let effect = backspace(&mut body, Cursor { content_id: second, offset: 0 });
    assert_eq!(effect, Some(EditorEffect::CursorMoved(Cursor { content_id: first, offset: 2 })));
    assert_eq!(body.text_of(first), "abcd");
    assert_eq!(body.children_of(body.root()).len(), 1);

    let none = backspace(&mut body, Cursor { content_id: first, offset: 0 });
    assert_eq!(none, None);
    assert_eq!(body.text_of(first), "abcd");
}

#[test]
fn delete_removes_the_next_character_or_merges_the_next_block() {
    let mut body = DirectContent::new();
    let first = body.append_content(body.root(), "ab").unwrap();
    let _second = body.append_content(body.root(), "cd").unwrap();
    delete(&mut body, Cursor { content_id: first, offset: 0 });
    assert_eq!(body.text_of(first), "b");
    delete(&mut body, Cursor { content_id: first, offset: 1 });
    assert_eq!(body.text_of(first), "bcd");
    assert_eq!(body.children_of(body.root()).len(), 1);
    delete(&mut body, Cursor { content_id: first, offset: 3 });
    assert_eq!(body.text_of(first), "bcd");
}

#[test]
fn enter_cuts_the_leaf_and_its_block() {
    let mut body = DirectContent::new();
    let id = body.append_content(body.root(), "hello world").unwrap();
    let paragraph = body.parent_of(id).unwrap();
    let effect = enter(&mut body, Cursor { content_id: id, offset: 5 });
    let Some(EditorEffect::CursorMoved(caret)) = effect else { panic!("expected the caret to move") };
    assert_eq!(caret.offset, 0);
    assert_eq!(body.text_of(id), "hello");
    assert_eq!(body.text_of(caret.content_id), " world");
    let blocks = body.children_of(body.root());
    assert_eq!(blocks.len(), 2);
    assert_eq!(blocks[0], paragraph);
    assert_eq!(body.children_of(blocks[1]), vec![caret.content_id]);
}

#[test]
fn writing_moves_the_caret_by_characters() {
    let mut body = DirectContent::new();
    let first = body.append_content(body.root(), "ab").unwrap();
    let second = body.append_content(body.root(), "cde").unwrap();
    assert_eq!(write_str(&mut body, Cursor { content_id: first, offset: 1 }, "é"), EditorEffect::StringWritten(1));
    assert_eq!(body.text_of(first), "aéb");
    let mut caret = Cursor { content_id: first, offset: 0 };
    move_right_by(&mut caret, &body, 4);
    assert_eq!(caret, Cursor { content_id: second, offset: 0 });
    move_right_by(&mut caret, &body, 10);
    assert_eq!(caret, Cursor { content_id: second, offset: 3 });
}

#[test]
fn keys_map_to_commands() {
    assert_eq!(key_command("ArrowLeft"), KeyCommand::MoveLeft);
    assert_eq!(key_command("ArrowRight"), KeyCommand::MoveRight);
    assert_eq!(key_command("Backspace"), KeyCommand::Backspace);
    assert_eq!(key_command("Delete"), KeyCommand::Delete);
    assert_eq!(key_command("Enter"), KeyCommand::Enter);
    assert_eq!(key_command("ArrowUp"), KeyCommand::Ignore);
    assert_eq!(key_command("a"), KeyCommand::Ignore);
}

#[test]
fn cursor_under_the_pointer_from_attributes() {
    let id = ContentId::from_raw(12);
    assert_eq!(cursor_at("12", Some("5"), 2), Some(Cursor { content_id: id, offset: 7 }));
    assert_eq!(cursor_at("12", None, 3), Some(Cursor { content_id: id, offset: 6 }));
    assert_eq!(cursor_at("12", Some("x"), 3), Some(Cursor { content_id: id, offset: 6 }));
    assert_eq!(cursor_at("abc", Some("1"), 0), None);
}

#[test]
fn numbers_read_like_from_str() {
    for s in ["0", "007", "+42", "18446744073709551615", "18446744073709551616", "", "+", "-1", "4 2", "١٢"] {
        assert_eq!(parse_usize(s), s.parse::<usize>().ok(), "{s:?}");
    }
}
