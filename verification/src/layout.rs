//! How the editor lays out a text leaf for display: the runs of plain and
//! selected text, each with the byte offset at which it starts in the
//! leaf's text, and where the caret stands among them.
use vstd::prelude::*;
use vstd::string::*;
use vstd::utf8::*;

use crate::cursor::Cursor;
use crate::id::ContentId;
use crate::selection::Selection;

verus! {

/// One piece of a laid-out text leaf.
#[derive(Debug)]
pub enum PlainPiece {
    /// Text written directly in the leaf's element.
    Text(String),
    /// The caret.
    Caret,
    /// A run of text that is not selected, starting at byte `offset`.
    Plain { offset: usize, text: String },
    /// A run of selected text, starting at byte `offset`; when `caret` is
    /// set, the caret stands in it between `head` and `tail`.
    Selected { offset: usize, head: String, caret: bool, tail: String },
}

/// What a piece shows.
pub enum PieceView {
    Text(Seq<char>),
    Caret,
    Plain { offset: nat, text: Seq<char> },
    Selected { offset: nat, head: Seq<char>, caret: bool, tail: Seq<char> },
}

impl View for PlainPiece {
    type V = PieceView;

    open spec fn view(&self) -> PieceView {
        match self {
            PlainPiece::Text(t) => PieceView::Text(t@),
            PlainPiece::Caret => PieceView::Caret,
            PlainPiece::Plain { offset, text } => PieceView::Plain { offset: *offset as nat, text: text@ },
            PlainPiece::Selected { offset, head, caret, tail } => PieceView::Selected {
                offset: *offset as nat,
                head: head@,
                caret: *caret,
                tail: tail@,
            },
        }
    }
}

/// The text before index `k` and the text from `k` on; the whole text and
/// nothing when `k` lies at or past the end.
pub open spec fn cut(s: Seq<char>, k: int) -> (Seq<char>, Seq<char>) {
    if k < s.len() {
        (s.take(k), s.skip(k))
    } else {
        (s, Seq::empty())
    }
}

/// The number of bytes that the UTF-8 writing of `s` takes.
pub open spec fn bytes(s: Seq<char>) -> nat {
    encode_utf8(s).len()
}

/// The pieces that show text `text` of a leaf, `in_leaf` telling whether
/// the caret stands in this leaf, at offset `c`, and `sel` being the part of
/// the leaf that the selection covers. The comparison of the caret with the
/// selection is made against the selection's length, not its end.
pub open spec fn plain_layout(text: Seq<char>, in_leaf: bool, c: int, sel: Selection) -> Seq<PieceView> {
    match sel {
        Selection::Nothing => if in_leaf {
            seq![PieceView::Text(cut(text, c).0), PieceView::Caret, PieceView::Text(cut(text, c).1)]
        } else {
            seq![PieceView::Text(text)]
        },
        Selection::Span(a, f) => {
            let bs = cut(text, a as int).0;
            let ins = cut(cut(text, a as int).1, f - a).0;
            let rest = cut(cut(text, a as int).1, f - a).1;
            if !in_leaf {
                seq![
                    PieceView::Plain { offset: 0, text: bs },
                    PieceView::Selected { offset: bytes(bs), head: ins, caret: false, tail: Seq::empty() },
                    PieceView::Plain { offset: bytes(bs) + bytes(ins), text: rest },
                ]
            } else if a <= c && c < f - a {
                let bc = cut(ins, c - a).0;
                let ac = cut(ins, c - a).1;
                seq![
                    PieceView::Plain { offset: 0, text: bs },
                    PieceView::Selected { offset: bytes(bs), head: bc, caret: true, tail: ac },
                    PieceView::Plain { offset: bytes(bs) + bytes(bc) + bytes(ac), text: rest },
                ]
            } else if c <= a {
                let bc = cut(bs, c).0;
                let ac = cut(bs, c).1;
                seq![
                    PieceView::Plain { offset: 0, text: bc },
                    PieceView::Caret,
                    PieceView::Plain { offset: bytes(bc), text: ac },
                    PieceView::Selected { offset: bytes(bc) + bytes(ac), head: ins, caret: false, tail: Seq::empty() },
                    PieceView::Plain { offset: bytes(bc) + bytes(ac) + bytes(ins), text: rest },
                ]
            } else {
                let bc = cut(rest, c - (f - a)).0;
                let ac = cut(rest, c - (f - a)).1;
                seq![
                    PieceView::Plain { offset: 0, text: bs },
                    PieceView::Selected { offset: bytes(bs), head: ins, caret: false, tail: Seq::empty() },
                    PieceView::Plain { offset: bytes(bs) + bytes(ins), text: bc },
                    PieceView::Caret,
                    PieceView::Plain { offset: bytes(bs) + bytes(ins) + bytes(bc), text: ac },
                ]
            }
        },
    }
}

/// The bytes of two texts put end to end are the bytes of each, end to end.
pub proof fn lemma_bytes_concat(a: Seq<char>, b: Seq<char>)
    ensures
        encode_utf8(a + b) == encode_utf8(a) + encode_utf8(b),
    decreases a.len(),
{
    if a.len() == 0 {
        assert(a + b =~= b);
        assert(encode_utf8(a) =~= Seq::<u8>::empty());
        assert(encode_utf8(a) + encode_utf8(b) =~= encode_utf8(b));
    } else {
        assert((a + b)[0] == a[0]);
        assert((a + b).drop_first() =~= a.drop_first() + b);
        lemma_bytes_concat(a.drop_first(), b);
        assert(encode_utf8(a + b) =~= encode_utf8(a) + encode_utf8(b));
    }
}

/// Cutting a text in two splits its bytes in two.
proof fn lemma_cut_bytes(s: Seq<char>, k: int)
    requires
        0 <= k,
    ensures
        cut(s, k).0 + cut(s, k).1 == s,
        bytes(s) == bytes(cut(s, k).0) + bytes(cut(s, k).1),
{
    if k < s.len() {
        assert(s.take(k) + s.skip(k) =~= s);
    } else {
        assert(s + Seq::<char>::empty() =~= s);
    }
    lemma_bytes_concat(cut(s, k).0, cut(s, k).1);
}

/// Splits `s` at character `k`: see [`cut`].
fn cut_text(s: &str, k: usize) -> (r: (String, String))
    ensures
        r.0@ == cut(s@, k as int).0,
        r.1@ == cut(s@, k as int).1,
{
    Cursor { content_id: ContentId(0), offset: k }.split_clone(s)
}

/// The number of bytes of a text already known to fit in a `usize`.
fn byte_len(s: &String) -> (n: usize)
    requires
        bytes(s@) <= usize::MAX,
    ensures
        n == bytes(s@),
{
    s.as_str().len()
}

/// The pieces that show the text `content` of leaf `content_id`, with the
/// caret `caret` and `selected`, the part of the leaf that the selection
/// covers: see [`plain_layout`].
pub fn layout_plain(content: &str, content_id: ContentId, caret: Cursor, selected: Selection) -> (r: Vec<PlainPiece>)
    requires
        bytes(content@) <= usize::MAX,
        selected matches Selection::Span(a, f) ==> a <= f,
    ensures
        r@.len() == plain_layout(content@, caret.content_id == content_id, caret.offset as int, selected).len(),
        forall|i: int|
            0 <= i < r@.len() ==> #[trigger] r@[i]@ == plain_layout(
                content@,
                caret.content_id == content_id,
                caret.offset as int,
                selected,
            )[i],
{
    let in_leaf = caret.is_content_within(content_id);
    let c = caret.offset;
    let r = match selected {
        Selection::Nothing => if in_leaf {
            let (before, after) = cut_text(content, c);
            vec![PlainPiece::Text(before), PlainPiece::Caret, PlainPiece::Text(after)]
        } else {
            vec![PlainPiece::Text(String::from_str(content))]
        },
        Selection::Span(a, f) => {
            let (bs, mid) = cut_text(content, a);
            let (ins, rest) = cut_text(mid.as_str(), f - a);
            proof {
                lemma_cut_bytes(content@, a as int);
                lemma_cut_bytes(mid@, (f - a) as int);
            }
            let bs_len = byte_len(&bs);
            let ins_len = byte_len(&ins);
            if !in_leaf {
                vec![
                    PlainPiece::Plain { offset: 0, text: bs },
                    PlainPiece::Selected { offset: bs_len, head: ins, caret: false, tail: String::new() },
                    PlainPiece::Plain { offset: bs_len + ins_len, text: rest },
                ]
            } else if a <= c && c < f - a {
                let (bc, ac) = cut_text(ins.as_str(), c - a);
                proof {
                    lemma_cut_bytes(ins@, (c - a) as int);
                }
                let after_offset = bs_len + byte_len(&bc) + byte_len(&ac);
                vec![
                    PlainPiece::Plain { offset: 0, text: bs },
                    PlainPiece::Selected { offset: bs_len, head: bc, caret: true, tail: ac },
                    PlainPiece::Plain { offset: after_offset, text: rest },
                ]
            } else if c <= a {
                let (bc, ac) = cut_text(bs.as_str(), c);
                proof {
                    lemma_cut_bytes(bs@, c as int);
                }
                let bc_len = byte_len(&bc);
                let ac_len = byte_len(&ac);
                vec![
                    PlainPiece::Plain { offset: 0, text: bc },
                    PlainPiece::Caret,
                    PlainPiece::Plain { offset: bc_len, text: ac },
                    PlainPiece::Selected { offset: bc_len + ac_len, head: ins, caret: false, tail: String::new() },
                    PlainPiece::Plain { offset: bc_len + ac_len + ins_len, text: rest },
                ]
            } else {
                let (bc, ac) = cut_text(rest.as_str(), c - (f - a));
                proof {
                    lemma_cut_bytes(rest@, (c - (f - a)) as int);
                }
                let bc_len = byte_len(&bc);
                vec![
                    PlainPiece::Plain { offset: 0, text: bs },
                    PlainPiece::Selected { offset: bs_len, head: ins, caret: false, tail: String::new() },
                    PlainPiece::Plain { offset: bs_len + ins_len, text: bc },
                    PlainPiece::Caret,
                    PlainPiece::Plain { offset: bs_len + ins_len + bc_len, text: ac },
                ]
            }
        },
    };
    proof {
        assert(r@.len() == plain_layout(content@, in_leaf, c as int, selected).len());
    }
    r
}

/// The text that a piece shows.
pub open spec fn piece_text(p: PieceView) -> Seq<char> {
    match p {
        PieceView::Text(t) => t,
        PieceView::Caret => Seq::empty(),
        PieceView::Plain { text, .. } => text,
        PieceView::Selected { head, tail, .. } => head + tail,
    }
}

/// The text shown by the pieces before the first caret (all of them when
/// there is no caret piece).
pub open spec fn text_before_caret(ps: Seq<PieceView>) -> Seq<char>
    decreases ps.len(),
{
    if ps.len() == 0 || ps[0] is Caret {
        Seq::empty()
    } else {
        piece_text(ps[0]) + text_before_caret(ps.drop_first())
    }
}

/// The text shown by all the pieces, in order.
pub open spec fn shown_text(ps: Seq<PieceView>) -> Seq<char>
    decreases ps.len(),
{
    if ps.len() == 0 {
        Seq::empty()
    } else {
        piece_text(ps[0]) + shown_text(ps.drop_first())
    }
}

/// Laid out, a leaf shows its whole text, in order, whatever the caret and
/// the selection; and when the caret stands in the leaf outside a
/// selection that starts at the leaf's start (or with no selection), the
/// pieces before the caret show exactly the first `c` characters, `c` being
/// the caret's offset (the whole text when the caret lies past its end).
pub proof fn lemma_layout_shows_text(text: Seq<char>, in_leaf: bool, c: usize, sel: Selection)
    requires
        sel matches Selection::Span(a, f) ==> a <= f,
    ensures
        shown_text(plain_layout(text, in_leaf, c as int, sel)) == text,
        in_leaf && sel is Nothing ==> text_before_caret(plain_layout(text, in_leaf, c as int, sel)) == cut(
            text,
            c as int,
        ).0,
        in_leaf && (sel matches Selection::Span(a, f) && a == 0 && f <= c) ==> text_before_caret(
            plain_layout(text, in_leaf, c as int, sel),
        ) == cut(text, c as int).0,
{
    reveal_with_fuel(shown_text, 6);
    reveal_with_fuel(text_before_caret, 6);
    let ps = plain_layout(text, in_leaf, c as int, sel);
    match sel {
        Selection::Nothing => {
            if in_leaf {
                lemma_cut_pieces(text, c as int);
                assert(shown_text(ps) =~= cut(text, c as int).0 + cut(text, c as int).1);
                assert(text_before_caret(ps) =~= cut(text, c as int).0);
            } else {
                assert(shown_text(ps) =~= text);
            }
        },
        Selection::Span(a, f) => {
            let bs = cut(text, a as int).0;
            let mid = cut(text, a as int).1;
            let ins = cut(mid, f - a).0;
            let rest = cut(mid, f - a).1;
            lemma_cut_pieces(text, a as int);
            lemma_cut_pieces(mid, f - a);
            assert(bs + mid == text);
            assert(ins + rest == mid);
            if !in_leaf {
                assert(shown_text(ps) =~= bs + ins + rest);
            } else if a <= c && c < f - a {
                let bc = cut(ins, c - a).0;
                let ac = cut(ins, c - a).1;
                lemma_cut_pieces(ins, c - a);
                assert(shown_text(ps) =~= bs + (bc + ac) + rest);
            } else if c <= a {
                let bc = cut(bs, c as int).0;
                let ac = cut(bs, c as int).1;
                lemma_cut_pieces(bs, c as int);
                assert(shown_text(ps) =~= bc + ac + ins + rest);
                if a == 0 {
                    assert(c == 0);
                    assert(bc =~= Seq::<char>::empty());
                    assert(text_before_caret(ps) =~= bc);
                    assert(cut(text, c as int).0 =~= Seq::<char>::empty()) by {
                        if text.len() > 0 {
                            assert(text.take(0) =~= Seq::<char>::empty());
                        }
                    }
                }
            } else {
                let bc = cut(rest, c - (f - a)).0;
                let ac = cut(rest, c - (f - a)).1;
                lemma_cut_pieces(rest, c - (f - a));
                assert(shown_text(ps) =~= bs + (ins + Seq::<char>::empty()) + bc + ac);
                if a == 0 {
                    assert(text_before_caret(ps) =~= bs + (ins + Seq::<char>::empty()) + bc);
                    lemma_cut_prefix(text, f as int, c as int);
                }
            }
        },
    }
}

/// The two parts of a cut, put back together, give the text.
proof fn lemma_cut_pieces(s: Seq<char>, k: int)
    requires
        0 <= k,
    ensures
        cut(s, k).0 + cut(s, k).1 == s,
{
    if k < s.len() {
        assert(s.take(k) + s.skip(k) =~= s);
    } else {
        assert(s + Seq::<char>::empty() =~= s);
    }
}

/// Cutting at `f`, then cutting what follows at `c - f`: what comes before
/// the second cut is what comes before a cut at `c`.
proof fn lemma_cut_prefix(s: Seq<char>, f: int, c: int)
    requires
        0 <= f <= c,
    ensures
        cut(s, 0).0 + cut(cut(s, 0).1, f).0 + cut(cut(cut(s, 0).1, f).1, c - f).0 == cut(s, c).0,
{
    assert(cut(s, 0).0 =~= Seq::<char>::empty()) by {
        if s.len() > 0 {
            assert(s.take(0) =~= Seq::<char>::empty());
        }
    }
    assert(cut(s, 0).1 =~= s) by {
        if s.len() > 0 {
            assert(s.skip(0) =~= s);
        }
    }
    if f < s.len() {
        let rest = s.skip(f);
        if c - f < rest.len() {
            assert(s.take(f) + rest.take(c - f) =~= s.take(c));
        } else {
            assert(s.take(f) + rest =~= s);
        }
    }
}

/// Each run starts at the byte where the text shown before it ends.
pub open spec fn offsets_follow_text(ps: Seq<PieceView>) -> bool {
    forall|i: int|
        0 <= i < ps.len() ==> match #[trigger] ps[i] {
            PieceView::Plain { offset, .. } => offset == bytes(shown_text(ps.take(i))),
            PieceView::Selected { offset, .. } => offset == bytes(shown_text(ps.take(i))),
            _ => true,
        }
}

proof fn lemma_shown_push(s: Seq<PieceView>, x: PieceView)
    ensures
        shown_text(s.push(x)) == shown_text(s) + piece_text(x),
    decreases s.len(),
{
    let sx = s.push(x);
    assert(sx.len() > 0);
    assert(shown_text(sx) == piece_text(sx[0]) + shown_text(sx.drop_first()));
    if s.len() == 0 {
        assert(sx.drop_first() =~= Seq::<PieceView>::empty());
        assert(shown_text(sx.drop_first()) == Seq::<char>::empty());
        assert(shown_text(s) == Seq::<char>::empty());
        assert(piece_text(x) + Seq::<char>::empty() =~= piece_text(x));
        assert(Seq::<char>::empty() + piece_text(x) =~= piece_text(x));
    } else {
        assert(sx.drop_first() =~= s.drop_first().push(x));
        assert(sx[0] == s[0]);
        lemma_shown_push(s.drop_first(), x);
        assert(piece_text(s[0]) + (shown_text(s.drop_first()) + piece_text(x)) =~= piece_text(s[0]) + shown_text(
            s.drop_first(),
        ) + piece_text(x));
    }
}

/// The bytes shown before piece `i + 1` are those shown before piece `i`
/// and those of piece `i`.
proof fn lemma_prefix_bytes(ps: Seq<PieceView>, i: int)
    requires
        0 <= i < ps.len(),
    ensures
        bytes(shown_text(ps.take(i + 1))) == bytes(shown_text(ps.take(i))) + bytes(piece_text(ps[i])),
{
    assert(ps.take(i + 1) =~= ps.take(i).push(ps[i]));
    lemma_shown_push(ps.take(i), ps[i]);
    lemma_bytes_concat(shown_text(ps.take(i)), piece_text(ps[i]));
}

/// Every laid-out run of a leaf carries, as its offset, the byte at which
/// it starts in the leaf's text: the bytes of all that is shown before it.
pub proof fn lemma_layout_offsets(text: Seq<char>, in_leaf: bool, c: usize, sel: Selection)
    requires
        sel matches Selection::Span(a, f) ==> a <= f,
    ensures
        offsets_follow_text(plain_layout(text, in_leaf, c as int, sel)),
{
    let ps = plain_layout(text, in_leaf, c as int, sel);
    assert(ps.take(0) =~= Seq::<PieceView>::empty());
    assert(bytes(shown_text(ps.take(0))) == 0) by {
        assert(encode_utf8(Seq::<char>::empty()) =~= Seq::<u8>::empty());
    }
    assert forall|i: int| 0 <= i < ps.len() implies match #[trigger] ps[i] {
        PieceView::Plain { offset, .. } => offset == bytes(shown_text(ps.take(i))),
        PieceView::Selected { offset, .. } => offset == bytes(shown_text(ps.take(i))),
        _ => true,
    } by {
        if i >= 1 {
            lemma_prefix_bytes(ps, 0);
        }
        if i >= 2 {
            lemma_prefix_bytes(ps, 1);
        }
        if i >= 3 {
            lemma_prefix_bytes(ps, 2);
        }
        if i >= 4 {
            lemma_prefix_bytes(ps, 3);
        }
        match sel {
            Selection::Nothing => {},
            Selection::Span(a, f) => {
                let bs = cut(text, a as int).0;
                let mid = cut(text, a as int).1;
                let ins = cut(mid, f - a).0;
                if in_leaf && a <= c && c < f - a {
                    lemma_bytes_concat(cut(ins, c - a).0, cut(ins, c - a).1);
                }
                lemma_bytes_concat(ins, Seq::<char>::empty());
                assert(ins + Seq::<char>::empty() =~= ins);
            },
        }
    }
}

} // verus!
