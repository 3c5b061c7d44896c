//! The editor's decisions on the document for each editing key: what to
//! change in the tree, and which event the editor sends itself next (the
//! page around it performs that event and reads the keys and the mouse).
use vstd::prelude::*;

use crate::cursor::{moved_right, Cursor};
use crate::direct::{cut_text, is_text_edit, spliced_text, DirectContent};
use crate::id::{parse_usize, usize_value, ContentId};
use crate::record::{decimal_id, lemma_decimal_id, same_text};
use crate::kind::{kind_of_spec, text_len, text_of_spec, ContentKind};
use crate::merge::{merge_leaves, merge_leaves_run, merge_leaves_safe};
use crate::nav::{is_next_leaf, is_prev_leaf, Tree};
use crate::write::split_outcome;

verus! {

/// The event the editor sends itself after an edit.
#[derive(Clone, Copy, Debug, PartialEq, Eq, Structural)]
pub enum EditorEffect {
    /// A character before the caret was removed: the caret moves left.
    CharRemoved,
    /// The caret moves to this position.
    CursorMoved(Cursor),
    /// So many characters were written at the caret: it moves right as many
    /// times.
    StringWritten(usize),
}

/// What remains of Enter once the caret's leaf was cut in two and the new
/// leaf `leaf` placed after it, in `mid`: the block holding the caret is
/// cut in two just before `leaf`, the new block numbered `second`; the
/// caret then moves to the start of `leaf`. Nothing more happens when a
/// step is not possible.
pub open spec fn enter_rest(
    mid: Tree,
    id: ContentId,
    leaf: ContentId,
    second: ContentId,
    after: Tree,
    r: Option<EditorEffect>,
) -> bool {
    match mid[id].parent {
        None => r is None && after == mid,
        Some(p) => if mid[p].children.contains(leaf) {
            &&& split_outcome(mid, p, mid[p].children.index_of(leaf), second, after, mid[p].parent is Some)
            &&& r == (if mid[p].parent is Some {
                Some(EditorEffect::CursorMoved(Cursor { content_id: leaf, offset: 0 }))
            } else {
                None
            })
        } else {
            r is None && after == mid
        },
    }
}

/// Backspace: removes the character before the caret; at the start of a
/// leaf, merges that leaf into the previous one (see [`merge_leaves`]) and
/// moves the caret to where the previous leaf's text ended.
pub fn backspace(body: &mut DirectContent, caret: Cursor) -> (r: Option<EditorEffect>)
    requires
        old(body).wf(),
        old(body)@.contains_key(caret.content_id),
        caret.offset == 0 ==> forall|p: ContentId|
            #[trigger] is_prev_leaf(old(body)@, caret.content_id, Some(p)) ==> merge_leaves_safe(
                old(body)@,
                p,
                caret.content_id,
            ),
    ensures
        final(body).wf(),
        final(body).root_id() == old(body).root_id(),
        final(body).next_id() == old(body).next_id(),
        caret.offset > 0 ==> r == Some(EditorEffect::CharRemoved) && is_text_edit(
            old(body)@,
            caret.content_id,
            final(body)@,
            cut_text(text_of_spec(old(body)@[caret.content_id].spec), caret.offset - 1, 1),
        ),
        caret.offset == 0 ==> exists|p: Option<ContentId>|
            #[trigger] is_prev_leaf(old(body)@, caret.content_id, p) && match p {
                None => r is None && final(body)@ == old(body)@,
                Some(prev) => {
                    &&& r == Some(
                        EditorEffect::CursorMoved(
                            Cursor { content_id: prev, offset: text_len(old(body)@[prev].spec) },
                        ),
                    )
                    &&& exists|ts: Seq<Tree>|
                        #[trigger] merge_leaves_run(old(body)@, prev, caret.content_id, ts) && ts.last()
                            == final(body)@
                },
            },
{
    if caret.offset > 0 {
        body.remove_text(caret.content_id, caret.offset - 1, 1);
        return Some(EditorEffect::CharRemoved);
    }
    match body.prev_leaf_of(caret.content_id) {
        Some(prev) => {
            let offset = body.len_of(prev);
            merge_leaves(body, prev, caret.content_id);
            Some(EditorEffect::CursorMoved(Cursor { content_id: prev, offset }))
        },
        None => None,
    }
}

/// Delete: removes the character after the caret; at the end of a leaf,
/// merges the next leaf into it (see [`merge_leaves`]).
pub fn delete(body: &mut DirectContent, caret: Cursor)
    requires
        old(body).wf(),
        old(body)@.contains_key(caret.content_id),
        caret.offset >= text_of_spec(old(body)@[caret.content_id].spec).len() ==> forall|n: ContentId|
            #[trigger] is_next_leaf(old(body)@, caret.content_id, Some(n)) ==> merge_leaves_safe(
                old(body)@,
                caret.content_id,
                n,
            ),
    ensures
        final(body).wf(),
        final(body).root_id() == old(body).root_id(),
        final(body).next_id() == old(body).next_id(),
        caret.offset < text_of_spec(old(body)@[caret.content_id].spec).len() ==> is_text_edit(
            old(body)@,
            caret.content_id,
            final(body)@,
            cut_text(text_of_spec(old(body)@[caret.content_id].spec), caret.offset as int, 1),
        ),
        caret.offset >= text_of_spec(old(body)@[caret.content_id].spec).len() ==> exists|n: Option<ContentId>|
            #[trigger] is_next_leaf(old(body)@, caret.content_id, n) && match n {
                None => final(body)@ == old(body)@,
                Some(next) => exists|ts: Seq<Tree>|
                    #[trigger] merge_leaves_run(old(body)@, caret.content_id, next, ts) && ts.last() == final(body)@,
            },
{
    if caret.offset < body.len_of(caret.content_id) {
        body.remove_text(caret.content_id, caret.offset, 1);
        return;
    }
    match body.next_leaf_of(caret.content_id) {
        Some(next) => {
            merge_leaves(body, caret.content_id, next);
        },
        None => {},
    }
}

/// Enter cuts the block at the caret's leaf: when the caret's node `id`
/// has a parent `p` (a block, not a text leaf) that itself has a parent,
/// `p` keeps exactly its children up to `id`, and the new block `second`,
/// placed under the same parent, holds the new leaf `leaf` followed by every
/// child of `p` that came after `id`, in order; the caret moves to the
/// start of `leaf`. A text leaf keeps its text before the caret and `leaf`
/// holds the rest. `mid` is the document once `id` was cut in two.
pub proof fn lemma_enter_cuts_block(
    before: DirectContent,
    mid: DirectContent,
    after: Tree,
    id: ContentId,
    at: usize,
    leaf: ContentId,
    second: ContentId,
    r: Option<EditorEffect>,
)
    requires
        before.wf(),
        mid.wf(),
        before@.contains_key(id),
        before@[id].parent matches Some(p) && before@.contains_key(p) && before@[p].parent is Some
            && kind_of_spec(before@[p].spec) != ContentKind::Plain,
        !before@.contains_key(leaf),
        !mid@.contains_key(second),
        split_outcome(before@, id, at as int, leaf, mid@, true),
        enter_rest(mid@, id, leaf, second, after, r),
    ensures
        ({
            let p = before@[id].parent.unwrap();
            let cs = before@[p].children;
            let k = cs.index_of(id);
            &&& r == Some(EditorEffect::CursorMoved(Cursor { content_id: leaf, offset: 0 }))
            &&& after[p].children == cs.take(k + 1)
            &&& after[second].children == seq![leaf] + cs.skip(k + 1)
            &&& after[second].parent == before@[p].parent
            &&& kind_of_spec(before@[id].spec) == ContentKind::Plain ==> {
                let text = text_of_spec(before@[id].spec);
                let cut = if at < text.len() { at as int } else { text.len() as int };
                &&& text_of_spec(after[id].spec) == text.take(cut)
                &&& text_of_spec(after[leaf].spec) == text.skip(cut)
            }
        }),
{
    let t = before@;
    let p = t[id].parent.unwrap();
    let cs = t[p].children;
    let k = cs.index_of(id);
    crate::rejoin::lemma_split_shape(before, mid@, id, at as int, leaf);
    let m = mid@;
    let ch = m[p].children;
    assert(ch == cs.insert(k + 1, leaf));
    assert(ch[k + 1] == leaf);
    mid.lemma_view_wf();
    assert(ch.no_duplicates());
    assert(ch.contains(leaf));
    crate::forest::lemma_index_of_unique(ch, leaf, k + 1);
    assert(m[p].parent is Some);
    crate::rejoin::lemma_split_shape(mid, after, p, k + 1, second);
    assert(kind_of_spec(m[p].spec) != ContentKind::Plain);
    assert(k + 1 < ch.len());
    assert(ch.take(k + 1) =~= cs.take(k + 1));
    assert(ch.skip(k + 1) =~= seq![leaf] + cs.skip(k + 1));
}

/// Enter: cuts the caret's leaf in two at the caret, then the block that
/// holds it just before the new leaf, and moves the caret to the start of
/// the new leaf.
pub fn enter(body: &mut DirectContent, caret: Cursor) -> (r: Option<EditorEffect>)
    requires
        old(body).wf(),
        old(body)@.contains_key(caret.content_id),
        old(body).next_id() + 2 <= u64::MAX,
    ensures
        final(body).wf(),
        final(body).root_id() == old(body).root_id(),
        exists|mid: Tree|
            #[trigger] split_outcome(
                old(body)@,
                caret.content_id,
                caret.offset as int,
                ContentId(old(body).next_id() as u64),
                mid,
                old(body)@[caret.content_id].parent is Some,
            ) && if old(body)@[caret.content_id].parent is Some {
                enter_rest(
                    mid,
                    caret.content_id,
                    ContentId(old(body).next_id() as u64),
                    ContentId((old(body).next_id() + 1) as u64),
                    final(body)@,
                    r,
                )
            } else {
                r is None && final(body)@ == mid
            },
        old(body)@[caret.content_id].parent matches Some(p) ==> (old(body)@.contains_key(p)
            && old(body)@[p].parent is Some && kind_of_spec(old(body)@[p].spec) != ContentKind::Plain ==> {
            let cs = old(body)@[p].children;
            let k = cs.index_of(caret.content_id);
            let leaf = ContentId(old(body).next_id() as u64);
            let second = ContentId((old(body).next_id() + 1) as u64);
            &&& r == Some(EditorEffect::CursorMoved(Cursor { content_id: leaf, offset: 0 }))
            &&& final(body)@[p].children == cs.take(k + 1)
            &&& final(body)@[second].children == seq![leaf] + cs.skip(k + 1)
            &&& final(body)@[second].parent == old(body)@[p].parent
            &&& kind_of_spec(old(body)@[caret.content_id].spec) == ContentKind::Plain ==> {
                let text = text_of_spec(old(body)@[caret.content_id].spec);
                let cut = if caret.offset < text.len() { caret.offset as int } else { text.len() as int };
                &&& text_of_spec(final(body)@[caret.content_id].spec) == text.take(cut)
                &&& text_of_spec(final(body)@[leaf].spec) == text.skip(cut)
            }
        }),
{
    let ghost t0 = body@;
    let ghost b0 = *body;
    let ghost n0 = body.next_id();
    let ghost cut_law = t0[caret.content_id].parent matches Some(p) && t0.contains_key(p) && t0[p].parent is Some
        && kind_of_spec(t0[p].spec) != ContentKind::Plain;
    let id = caret.content_id;
    let first = body.split_node(id, caret.offset);
    let ghost mid = body@;
    let ghost m0 = *body;
    proof {
        if cut_law {
            crate::rejoin::lemma_split_shape(b0, mid, id, caret.offset as int, ContentId(n0 as u64));
        }
    }
    let new_leaf = match first {
        Ok(leaf) => leaf,
        Err(_) => {
            return None;
        },
    };
    proof {
        body.lemma_view_wf();
    }
    let paragraph = match body.parent_of(id) {
        Some(p) => p,
        None => {
            return None;
        },
    };
    let children = body.children_of(paragraph);
    let mut index: usize = 0;
    while index < children.len()
        invariant
            children@ == mid[paragraph].children,
            index <= children.len(),
            forall|j: int| 0 <= j < index ==> children@[j] != new_leaf,
        ensures
            index <= children.len(),
            index < children.len() ==> children@[index as int] == new_leaf,
            forall|j: int| 0 <= j < index ==> children@[j] != new_leaf,
        decreases children.len() - index,
    {
        if children[index] == new_leaf {
            break;
        }
        index = index + 1;
    }
    if index >= children.len() {
        proof {
            assert(!children@.contains(new_leaf));
        }
        return None;
    }
    proof {
        assert(children@.contains(new_leaf));
        crate::forest::lemma_index_of_unique(children@, new_leaf, index as int);
    }
    let second = body.split_node(paragraph, index);
    let r = match second {
        Ok(_) => Some(EditorEffect::CursorMoved(Cursor { content_id: new_leaf, offset: 0 })),
        Err(_) => None,
    };
    proof {
        if cut_law {
            m0.lemma_view_wf();
            assert(enter_rest(mid, id, new_leaf, ContentId((n0 + 1) as u64), body@, r));
            lemma_enter_cuts_block(b0, m0, body@, id, caret.offset, new_leaf, ContentId((n0 + 1) as u64), r);
        }
    }
    r
}

/// Writes `value` at the caret; the caret then moves right once per
/// character written.
pub fn write_str(body: &mut DirectContent, caret: Cursor, value: &str) -> (r: EditorEffect)
    requires
        old(body).wf(),
        old(body)@.contains_key(caret.content_id),
    ensures
        final(body).wf(),
        final(body).root_id() == old(body).root_id(),
        final(body).next_id() == old(body).next_id(),
        is_text_edit(
            old(body)@,
            caret.content_id,
            final(body)@,
            spliced_text(text_of_spec(old(body)@[caret.content_id].spec), caret.offset as int, value@),
        ),
        r == EditorEffect::StringWritten(value@.len() as usize),
{
    body.insert_text(caret.content_id, caret.offset, value);
    EditorEffect::StringWritten(value.unicode_len())
}

/// Moves the caret right `count` times (after a string was written).
pub fn move_right_by(caret: &mut Cursor, body: &DirectContent, count: usize)
    requires
        body.wf(),
        body@.contains_key(old(caret).content_id),
    ensures
        body@.contains_key(final(caret).content_id),
        exists|cs: Seq<Cursor>|
            cs.len() == count + 1 && cs[0] == *old(caret) && cs.last() == *final(caret) && forall|i: int|
                0 <= i < count ==> #[trigger] moved_right(body@, cs[i], cs[i + 1]),
{
    let ghost mut cs: Seq<Cursor> = seq![*caret];
    let mut i: usize = 0;
    while i < count
        invariant
            body.wf(),
            body@.contains_key(caret.content_id),
            i <= count,
            cs.len() == i + 1,
            cs[0] == *old(caret),
            cs.last() == *caret,
            forall|j: int| 0 <= j < i ==> #[trigger] moved_right(body@, cs[j], cs[j + 1]),
        decreases count - i,
    {
        caret.right(body);
        proof {
            let prev = cs;
            cs = cs.push(*caret);
            assert forall|j: int| 0 <= j < i + 1 implies #[trigger] moved_right(body@, cs[j], cs[j + 1]) by {
                if j < i {
                    assert(cs[j] == prev[j]);
                    assert(cs[j + 1] == prev[j + 1]);
                }
            }
        }
        i = i + 1;
    }
}

/// What a key pressed in the editor asks for.
#[derive(Clone, Copy, Debug, PartialEq, Eq, Structural)]
pub enum KeyCommand {
    MoveLeft,
    MoveRight,
    Backspace,
    Delete,
    Enter,
    /// Any other key, the vertical arrows among them: the editor leaves it
    /// alone.
    Ignore,
}

/// The command of a key, by the key's name.
pub open spec fn key_command_of(key: Seq<char>) -> KeyCommand {
    if key == "ArrowLeft"@ {
        KeyCommand::MoveLeft
    } else if key == "ArrowRight"@ {
        KeyCommand::MoveRight
    } else if key == "Backspace"@ {
        KeyCommand::Backspace
    } else if key == "Delete"@ {
        KeyCommand::Delete
    } else if key == "Enter"@ {
        KeyCommand::Enter
    } else {
        KeyCommand::Ignore
    }
}

/// The command of a key: see [`key_command_of`].
pub fn key_command(key: &str) -> (c: KeyCommand)
    ensures
        c == key_command_of(key@),
{
    if same_text(key, "ArrowLeft") {
        KeyCommand::MoveLeft
    } else if same_text(key, "ArrowRight") {
        KeyCommand::MoveRight
    } else if same_text(key, "Backspace") {
        KeyCommand::Backspace
    } else if same_text(key, "Delete") {
        KeyCommand::Delete
    } else if same_text(key, "Enter") {
        KeyCommand::Enter
    } else {
        KeyCommand::Ignore
    }
}

/// The offset that an element of the page states for the start of its
/// text: the number its offset attribute holds, or, without a readable
/// one, the offset found in the text under the pointer.
pub open spec fn base_offset(offset_attr: Option<Seq<char>>, text_offset: usize) -> nat {
    match offset_attr {
        Some(a) => match usize_value(a) {
            Some(v) => v as nat,
            None => text_offset as nat,
        },
        None => text_offset as nat,
    }
}

/// The position under the pointer, from the attributes of the nearest
/// element that names a node (the node's identifier, and the offset at
/// which the element's text starts) and the offset found in the text under
/// the pointer: the element's offset plus that offset. `None` when the
/// identifier cannot be read.
pub fn cursor_at(content_id: &str, offset_attr: Option<&str>, text_offset: usize) -> (r: Option<Cursor>)
    requires
        base_offset(
            match offset_attr {
                Some(a) => Some(a@),
                None => None,
            },
            text_offset,
        ) + text_offset <= usize::MAX,
    ensures
        r == (match decimal_id(content_id@) {
            Some(id) => Some(
                Cursor {
                    content_id: id,
                    offset: (base_offset(
                        match offset_attr {
                            Some(a) => Some(a@),
                            None => None,
                        },
                        text_offset,
                    ) + text_offset) as usize,
                },
            ),
            None => None,
        }),
{
    let base = match offset_attr {
        Some(a) => match parse_usize(a) {
            Some(v) => v,
            None => text_offset,
        },
        None => text_offset,
    };
    let offset = base + text_offset;
    match ContentId::from_decimal(content_id) {
        Some(id) => {
            proof {
                lemma_decimal_id(id);
            }
            Some(Cursor { content_id: id, offset })
        },
        None => None,
    }
}

} // verus!
