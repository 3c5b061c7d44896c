//! A position in the document: a text leaf and a character offset in it.
use vstd::prelude::*;
use vstd::string::*;
use vstd::utf8::*;

use std::cmp::Ordering;

use crate::direct::DirectContent;
use crate::id::ContentId;
use crate::kind::text_of_spec;
use crate::nav::{is_next_leaf, is_prev_leaf, leaves_under, Tree};
use crate::navigate::leaf_order;

verus! {

/// Position in the document: a terminal (`Plain`) node and an offset counted
/// in characters (not bytes) from the start of its text.
#[derive(Clone, Copy, Debug, PartialEq, Eq, Structural)]
pub struct Cursor {
    pub content_id: ContentId,
    pub offset: usize,
}

/// How two offsets compare.
pub open spec fn offset_order(a: usize, b: usize) -> Ordering {
    if a < b {
        Ordering::Less
    } else if a == b {
        Ordering::Equal
    } else {
        Ordering::Greater
    }
}

/// `d` is `c` moved one character to the left in `t`: one offset down, or,
/// from the start of a leaf, to the end of the previous leaf if there is
/// one.
pub open spec fn moved_left(t: Tree, c: Cursor, d: Cursor) -> bool {
    if c.offset > 0 {
        d == Cursor { content_id: c.content_id, offset: (c.offset - 1) as usize }
    } else {
        ||| is_prev_leaf(t, c.content_id, None) && d == c
        ||| is_prev_leaf(t, c.content_id, Some(d.content_id)) && d.offset == text_of_spec(t[d.content_id].spec).len()
    }
}

/// `d` is `c` moved one character to the right in `t`: one offset up, or,
/// from the end of a leaf, to the start of the next leaf if there is one.
pub open spec fn moved_right(t: Tree, c: Cursor, d: Cursor) -> bool {
    if c.offset < text_of_spec(t[c.content_id].spec).len() {
        d == Cursor { content_id: c.content_id, offset: (c.offset + 1) as usize }
    } else {
        ||| is_next_leaf(t, c.content_id, None) && d == c
        ||| is_next_leaf(t, c.content_id, Some(d.content_id)) && d.offset == 0
    }
}

/// Byte index, in `text`, of the character at `char_index`; the byte length
/// of the whole text when `char_index` lies at or past its end.
pub fn byte_index_of(text: &str, char_index: usize) -> (r: usize)
    ensures
        char_index < text@.len() ==> r == encode_utf8(text@.take(char_index as int)).len() as usize,
        char_index >= text@.len() ==> r == encode_utf8(text@).len() as usize,
{
    let len = text.unicode_len();
    if char_index < len {
        text.substring_char(0, char_index).len()
    } else {
        text.len()
    }
}

impl Cursor {
    /// Byte index, in `value`, of the character at the cursor's offset;
    /// `None` when the offset lies at or past the end of the text.
    pub fn into_byte_offset(self, value: &str) -> (r: Option<usize>)
        ensures
            self.offset < value@.len() ==> r == Some(encode_utf8(value@.take(self.offset as int)).len() as usize),
            self.offset >= value@.len() ==> r is None,
    {
        let len = value.unicode_len();
        if self.offset < len {
            let head = value.substring_char(0, self.offset);
            Some(head.len())
        } else {
            None
        }
    }

    /// The text before the cursor and the text from the cursor on; the
    /// whole text and an empty one when the offset lies at or past the end.
    pub fn split_clone(self, value: &str) -> (r: (String, String))
        ensures
            self.offset < value@.len() ==> r.0@ == value@.take(self.offset as int) && r.1@ == value@.skip(
                self.offset as int,
            ),
            self.offset >= value@.len() ==> r.0@ == value@ && r.1@ == Seq::<char>::empty(),
    {
        let len = value.unicode_len();
        if self.offset < len {
            let lhs = String::from_str(value.substring_char(0, self.offset));
            let rhs = String::from_str(value.substring_char(self.offset, len));
            (lhs, rhs)
        } else {
            (String::from_str(value), String::new())
        }
    }

    pub fn is_content_within(&self, content_id: ContentId) -> (b: bool)
        ensures
            b == (self.content_id == content_id),
    {
        self.content_id == content_id
    }

    /// Compares two positions: by offset within the same leaf, otherwise by
    /// the order of their leaves in the document.
    pub fn partial_cmp(&self, rhs: &Cursor, body: &DirectContent) -> (r: Option<Ordering>)
        requires
            body.wf(),
            body@.contains_key(body.root_id()),
        ensures
            self.content_id == rhs.content_id ==> r == Some(offset_order(self.offset, rhs.offset)),
            self.content_id != rhs.content_id ==> r == leaf_order(
                leaves_under(body@, body.root_id()),
                self.content_id,
                rhs.content_id,
            ),
    {
        if self.content_id == rhs.content_id {
            if self.offset < rhs.offset {
                return Some(Ordering::Less);
            } else if self.offset == rhs.offset {
                return Some(Ordering::Equal);
            } else {
                return Some(Ordering::Greater);
            }
        }
        body.leaf_order_of(self.content_id, rhs.content_id)
    }

    /// Moves one character to the left; from the start of a leaf, to the end
    /// of the previous leaf, if any.
    pub fn left(&mut self, body: &DirectContent)
        requires
            body.wf(),
            body@.contains_key(old(self).content_id),
        ensures
            moved_left(body@, *old(self), *final(self)),
            body@.contains_key(final(self).content_id),
    {
        if self.offset == 0 {
            match body.prev_leaf_of(self.content_id) {
                Some(content_id) => {
                    self.content_id = content_id;
                    self.offset = body.len_of(content_id);
                },
                None => {},
            }
        } else {
            self.offset = self.offset - 1;
        }
    }

    /// Moves one character to the right; from the end of a leaf, to the start
    /// of the next leaf, if any.
    pub fn right(&mut self, body: &DirectContent)
        requires
            body.wf(),
            body@.contains_key(old(self).content_id),
        ensures
            moved_right(body@, *old(self), *final(self)),
            body@.contains_key(final(self).content_id),
    {
        let len = body.len_of(self.content_id);
        if self.offset >= len {
            match body.next_leaf_of(self.content_id) {
                Some(content_id) => {
                    self.content_id = content_id;
                    self.offset = 0;
                },
                None => {},
            }
        } else {
            self.offset = self.offset + 1;
        }
    }
}

/// Moving a cursor right, then left, brings it back where it was, across
/// the end of a leaf too: `c1` is where `right` took the cursor from `c0`,
/// `c2` where `left` then took it. `c0` sits on a leaf, before the end of
/// its text or at that end with a leaf after it (and its offset leaves room
/// for one more, as any offset into a text held in memory does).
pub proof fn lemma_right_then_left(content: DirectContent, c0: Cursor, c1: Cursor, c2: Cursor)
    requires
        content.wf(),
        content@.contains_key(c0.content_id),
        content@[c0.content_id].children.len() == 0,
        c0.offset < text_of_spec(content@[c0.content_id].spec).len() || (c0.offset
            == text_of_spec(content@[c0.content_id].spec).len() && !is_next_leaf(content@, c0.content_id, None)),
        c0.offset < usize::MAX,
        moved_right(content@, c0, c1),
        content@.contains_key(c1.content_id),
        moved_left(content@, c1, c2),
    ensures
        c2 == c0,
{
    let t = content@;
    if c0.offset >= text_of_spec(t[c0.content_id].spec).len() {
        crate::walk::lemma_leaf_steps_invert(content, c0.content_id, c1.content_id);
        if is_prev_leaf(t, c1.content_id, None) {
            crate::walk::lemma_prev_leaf_unique(t, c1.content_id, None, Some(c0.content_id));
        } else {
            crate::walk::lemma_prev_leaf_unique(t, c1.content_id, Some(c2.content_id), Some(c0.content_id));
        }
    }
}

} // verus!
