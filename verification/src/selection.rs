//! The editor's selection: an anchor and a focus, and which part of each
//! text leaf lies between them.
use vstd::prelude::*;

use std::cmp::Ordering;

use crate::cursor::{offset_order, Cursor};
use crate::direct::DirectContent;
use crate::id::ContentId;
use crate::kind::text_len;
use crate::nav::leaves_under;
use crate::navigate::leaf_order;

verus! {

/// Whether the user is dragging out a selection.
#[derive(Clone, Copy, Debug, PartialEq, Eq, Structural)]
pub enum EditorSelectionState {
    Idle,
    Dragging,
}

impl Default for EditorSelectionState {
    fn default() -> (r: Self)
        ensures
            r == EditorSelectionState::Idle,
    {
        EditorSelectionState::Idle
    }
}

impl EditorSelectionState {
    /// Name of the state.
    pub fn as_str(&self) -> (s: &'static str)
        ensures
            s@ == (match self {
                EditorSelectionState::Idle => "Idle"@,
                EditorSelectionState::Dragging => "Dragging"@,
            }),
    {
        match self {
            EditorSelectionState::Idle => "Idle",
            EditorSelectionState::Dragging => "Dragging",
        }
    }
}

/// The part of a text leaf that a selection covers.
#[derive(Clone, Copy, Debug, PartialEq, Eq, Structural)]
pub enum Selection {
    /// From the first character offset to the second.
    Span(usize, usize),
    Nothing,
}

/// The selection: where it started (anchor) and where it ends (focus).
#[derive(Clone, Copy, Debug, PartialEq, Eq, Structural)]
pub struct EditorSelection {
    pub state: EditorSelectionState,
    pub anchor: Option<Cursor>,
    pub focus: Option<Cursor>,
}

impl Default for EditorSelection {
    fn default() -> (r: Self)
        ensures
            r == (EditorSelection { state: EditorSelectionState::Idle, anchor: None, focus: None }),
    {
        EditorSelection { state: EditorSelectionState::Idle, anchor: None, focus: None }
    }
}

/// How two positions of the document compare (see [`Cursor::partial_cmp`]).
pub open spec fn position_order(body: DirectContent, a: Cursor, b: Cursor) -> Option<Ordering> {
    if a.content_id == b.content_id {
        Some(offset_order(a.offset, b.offset))
    } else {
        leaf_order(leaves_under(body@, body.root_id()), a.content_id, b.content_id)
    }
}

/// The part of leaf `id` that the selection from `anchor` to `focus`
/// covers, `len` being the length of its text.
pub open spec fn covered_part(
    s: Seq<ContentId>,
    id: ContentId,
    len: usize,
    anchor: Option<Cursor>,
    focus: Option<Cursor>,
) -> Selection {
    match (anchor, focus) {
        (Some(a), Some(f)) => if leaf_order(s, id, a.content_id) == Some(Ordering::Less) || leaf_order(
            s,
            id,
            f.content_id,
        ) == Some(Ordering::Greater) {
            Selection::Nothing
        } else if id == a.content_id && id == f.content_id {
            Selection::Span(a.offset, f.offset)
        } else if id == a.content_id {
            Selection::Span(a.offset, len)
        } else if id == f.content_id {
            Selection::Span(0, f.offset)
        } else {
            Selection::Span(0, len)
        },
        _ => Selection::Nothing,
    }
}

/// `sel` with anchor and focus swapped when the focus comes first in the
/// document.
pub open spec fn corrected(body: DirectContent, sel: EditorSelection) -> EditorSelection {
    let swap = match (sel.focus, sel.anchor) {
        (Some(f), Some(a)) => position_order(body, f, a) == Some(Ordering::Less),
        _ => false,
    };
    if swap {
        EditorSelection { state: sel.state, anchor: sel.focus, focus: sel.anchor }
    } else {
        sel
    }
}

impl EditorSelection {
    /// The mouse button goes down over `found` (the position under the
    /// pointer, if it is over text): when idle, a new selection starts,
    /// anchored there. Returns the new anchor, which the editor announces.
    pub fn press(&mut self, found: Option<Cursor>) -> (anchored: Option<Cursor>)
        ensures
            (old(self).state, found) matches (EditorSelectionState::Idle, Some(c)) ==> *final(self) == (
            EditorSelection { state: EditorSelectionState::Dragging, anchor: Some(c), focus: None })
                && anchored == Some(c),
            !((old(self).state, found) matches (EditorSelectionState::Idle, Some(_))) ==> *final(self)
                == *old(self) && anchored is None,
    {
        match (self.state, found) {
            (EditorSelectionState::Idle, Some(c)) => {
                self.state = EditorSelectionState::Dragging;
                self.anchor = Some(c);
                self.focus = None;
                Some(c)
            },
            _ => None,
        }
    }

    /// The mouse button goes up: the drag, if any, ends; anchor and focus
    /// stay.
    pub fn release(&mut self)
        ensures
            *final(self) == (EditorSelection {
                state: EditorSelectionState::Idle,
                anchor: old(self).anchor,
                focus: old(self).focus,
            }),
    {
        self.state = EditorSelectionState::Idle;
    }

    /// The pointer moves over `found` (if it is over text): while dragging,
    /// the focus follows it, then anchor and focus are put in document order
    /// (see [`EditorSelection::correct`]). Returns the focus after that,
    /// which the editor announces.
    pub fn drag(&mut self, found: Option<Cursor>, body: &DirectContent) -> (focus: Option<Cursor>)
        requires
            body.wf(),
            body@.contains_key(body.root_id()),
        ensures
            (old(self).state, found) matches (EditorSelectionState::Dragging, Some(c)) ==> *final(self)
                == corrected(
                *body,
                EditorSelection { state: old(self).state, anchor: old(self).anchor, focus: Some(c) },
            ) && focus == final(self).focus,
            !((old(self).state, found) matches (EditorSelectionState::Dragging, Some(_))) ==> *final(self)
                == *old(self) && focus is None,
    {
        match (self.state, found) {
            (EditorSelectionState::Dragging, Some(c)) => {
                self.focus = Some(c);
                self.correct(body);
                self.focus
            },
            _ => None,
        }
    }

    /// Puts the anchor before the focus: swaps them when the focus comes
    /// first in the document.
    pub fn correct(&mut self, body: &DirectContent)
        requires
            body.wf(),
            body@.contains_key(body.root_id()),
        ensures
            *final(self) == corrected(*body, *old(self)),
            (final(self).anchor, final(self).focus) matches (Some(a), Some(f)) ==> position_order(*body, a, f)
                != Some(Ordering::Greater),
    {
        match (self.focus, self.anchor) {
            (Some(focus), Some(anchor)) => {
                proof {
                    crate::navigate::lemma_leaf_order_flip(
                        leaves_under(body@, body.root_id()),
                        focus.content_id,
                        anchor.content_id,
                    );
                }
                match focus.partial_cmp(&anchor, body) {
                    Some(Ordering::Less) => {
                        let a = self.anchor;
                        self.anchor = self.focus;
                        self.focus = a;
                    },
                    _ => {},
                }
            },
            _ => {},
        }
    }

    /// The part of leaf `content_id` that the selection covers.
    pub fn is_plain_selected(&self, content_id: ContentId, body: &DirectContent) -> (r: Selection)
        requires
            body.wf(),
            body@.contains_key(body.root_id()),
            body@.contains_key(content_id),
        ensures
            r == covered_part(
                leaves_under(body@, body.root_id()),
                content_id,
                text_len(body@[content_id].spec),
                self.anchor,
                self.focus,
            ),
    {
        let anchor = match self.anchor {
            Some(a) => a,
            None => return Selection::Nothing,
        };
        let focus = match self.focus {
            Some(f) => f,
            None => return Selection::Nothing,
        };
        match body.leaf_order_of(content_id, anchor.content_id) {
            Some(Ordering::Less) => return Selection::Nothing,
            _ => {},
        }
        match body.leaf_order_of(content_id, focus.content_id) {
            Some(Ordering::Greater) => return Selection::Nothing,
            _ => {},
        }
        if content_id == anchor.content_id && focus.content_id == content_id {
            return Selection::Span(anchor.offset, focus.offset);
        }
        if content_id == anchor.content_id {
            return Selection::Span(anchor.offset, body.len_of(content_id));
        }
        if content_id == focus.content_id {
            return Selection::Span(0, focus.offset);
        }
        Selection::Span(0, body.len_of(content_id))
    }
}

/// Putting a selection in order twice changes nothing more than doing it
/// once: once anchor and focus are in document order, they stay.
pub proof fn lemma_corrected_twice(body: DirectContent, sel: EditorSelection)
    ensures
        corrected(body, corrected(body, sel)) == corrected(body, sel),
{
    match (sel.focus, sel.anchor) {
        (Some(f), Some(a)) => {
            crate::navigate::lemma_leaf_order_flip(leaves_under(body@, body.root_id()), f.content_id, a.content_id);
        },
        _ => {},
    }
}

/// In a list without repeats, one element comes before another exactly
/// when its place is smaller.
proof fn lemma_comes_first_places(s: Seq<ContentId>, p: int, q: int)
    requires
        s.no_duplicates(),
        0 <= p < s.len(),
        0 <= q < s.len(),
        p != q,
    ensures
        crate::navigate::comes_first(s, s[p], s[q]) <==> p < q,
{
    if p < q {
        assert forall|j: int| 0 <= j < p implies s[j] != s[q] by {}
    }
    if crate::navigate::comes_first(s, s[p], s[q]) {
        let i = choose|i: int| 0 <= i < s.len() && s[i] == s[p] && forall|j: int| 0 <= j < i ==> s[j] != s[q];
        assert(i == p);
        if q < p {
            assert(s[q] != s[q]);
        }
    }
}

/// Which part of a leaf a selection covers, by the places of the anchor's
/// leaf (`i`), of the leaf itself (`j`) and of the focus's leaf (`k`) among
/// the leaves in document order: nothing before the anchor's leaf or after
/// the focus's; from the anchor to the focus in a leaf holding both; from
/// the anchor to the end in the anchor's leaf; from the start to the focus
/// in the focus's leaf; the whole text in a leaf strictly between.
pub proof fn lemma_covered_by_places(
    s: Seq<ContentId>,
    len: usize,
    anchor: Cursor,
    focus: Cursor,
    i: int,
    j: int,
    k: int,
)
    requires
        s.no_duplicates(),
        0 <= i < s.len(),
        0 <= j < s.len(),
        0 <= k < s.len(),
        s[i] == anchor.content_id,
        s[k] == focus.content_id,
    ensures
        (j < i || k < j) ==> covered_part(s, s[j], len, Some(anchor), Some(focus)) == Selection::Nothing,
        (i == j && j == k) ==> covered_part(s, s[j], len, Some(anchor), Some(focus)) == Selection::Span(
            anchor.offset,
            focus.offset,
        ),
        (i == j && j < k) ==> covered_part(s, s[j], len, Some(anchor), Some(focus)) == Selection::Span(
            anchor.offset,
            len,
        ),
        (i < j && j == k) ==> covered_part(s, s[j], len, Some(anchor), Some(focus)) == Selection::Span(0, focus.offset),
        (i < j && j < k) ==> covered_part(s, s[j], len, Some(anchor), Some(focus)) == Selection::Span(0, len),
{
    let id = s[j];
    if j != i {
        lemma_comes_first_places(s, j, i);
        lemma_comes_first_places(s, i, j);
    }
    if j != k {
        lemma_comes_first_places(s, j, k);
        lemma_comes_first_places(s, k, j);
    }
    assert(s[i] == s[j] <==> i == j);
    assert(s[k] == s[j] <==> k == j);
}

} // verus!
