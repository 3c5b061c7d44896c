//! Settings of the external identity providers.
use vstd::prelude::*;
use vstd::string::*;

verus! {

/// `c` has the Unicode `White_Space` property, the whitespace that `trim`
/// removes.
pub open spec fn is_white_space(c: char) -> bool {
    ||| c == ' '
    ||| '\t' <= c <= '\r'
    ||| c == '\u{85}'
    ||| c == '\u{a0}'
    ||| c == '\u{1680}'
    ||| '\u{2000}' <= c <= '\u{200a}'
    ||| c == '\u{2028}'
    ||| c == '\u{2029}'
    ||| c == '\u{202f}'
    ||| c == '\u{205f}'
    ||| c == '\u{3000}'
}

/// `s` without its leading whitespace.
pub open spec fn trim_start(s: Seq<char>) -> Seq<char>
    decreases s.len(),
{
    if s.len() > 0 && is_white_space(s[0]) {
        trim_start(s.drop_first())
    } else {
        s
    }
}

/// `s` without its trailing whitespace.
pub open spec fn trim_end(s: Seq<char>) -> Seq<char>
    decreases s.len(),
{
    if s.len() > 0 && is_white_space(s.last()) {
        trim_end(s.drop_last())
    } else {
        s
    }
}

/// `s` without its leading and trailing whitespace.
pub open spec fn trimmed(s: Seq<char>) -> Seq<char> {
    trim_end(trim_start(s))
}

/// The pieces of `s` between its commas, in order; one empty piece for an
/// empty text.
pub open spec fn split_commas(s: Seq<char>) -> Seq<Seq<char>>
    decreases s.len(),
{
    if s.len() == 0 {
        seq![Seq::empty()]
    } else {
        let p = split_commas(s.drop_last());
        if s.last() == ',' {
            p.push(Seq::empty())
        } else {
            p.drop_last().push(p.last().push(s.last()))
        }
    }
}

/// The pieces, trimmed, without those left empty.
pub open spec fn kept_scopes(pieces: Seq<Seq<char>>) -> Seq<Seq<char>>
    decreases pieces.len(),
{
    if pieces.len() == 0 {
        Seq::empty()
    } else {
        let rest = kept_scopes(pieces.drop_last());
        let t = trimmed(pieces.last());
        if t.len() > 0 {
            rest.push(t)
        } else {
            rest
        }
    }
}

/// The scopes written in a comma-separated list.
pub open spec fn scopes_of(raw: Seq<char>) -> Seq<Seq<char>> {
    kept_scopes(split_commas(raw))
}

/// Whether `c` has the Unicode `White_Space` property.
pub(crate) fn white_space(c: char) -> (b: bool)
    ensures
        b == is_white_space(c),
{
    c == ' ' || ('\t' <= c && c <= '\r') || c == '\u{85}' || c == '\u{a0}' || c == '\u{1680}' || (
    '\u{2000}' <= c && c <= '\u{200a}') || c == '\u{2028}' || c == '\u{2029}' || c == '\u{202f}' || c
        == '\u{205f}' || c == '\u{3000}'
}

/// A copy of `s` without its leading and trailing whitespace.
pub(crate) fn trimmed_copy(s: &str) -> (r: String)
    ensures
        r@ == trimmed(s@),
{
    let n = s.unicode_len();
    let mut a: usize = 0;
    assert(s@.skip(0) =~= s@);
    while a < n && white_space(s.get_char(a))
        invariant
            n == s@.len(),
            a <= n,
            trim_start(s@) == trim_start(s@.skip(a as int)),
        decreases n - a,
    {
        assert(s@.skip(a as int).drop_first() =~= s@.skip(a as int + 1));
        a = a + 1;
    }
    let ghost head = s@.skip(a as int);
    assert(trim_start(head) == head);
    let mut b: usize = n;
    assert(head =~= s@.subrange(a as int, n as int));
    while b > a && white_space(s.get_char(b - 1))
        invariant
            n == s@.len(),
            a <= b <= n,
            trim_start(s@) == s@.subrange(a as int, n as int),
            trim_end(s@.subrange(a as int, n as int)) == trim_end(s@.subrange(a as int, b as int)),
        decreases b - a,
    {
        assert(s@.subrange(a as int, b as int).drop_last() =~= s@.subrange(a as int, b as int - 1));
        b = b - 1;
    }
    let kept = s.substring_char(a, b);
    String::from_str(kept)
}

/// Parses a comma-separated list of scopes: each piece trimmed, the empty
/// ones left out.
pub fn parse_scopes(raw: &str) -> (scopes: Vec<String>)
    ensures
        scopes@.len() == scopes_of(raw@).len(),
        forall|i: int| 0 <= i < scopes@.len() ==> #[trigger] scopes@[i]@ == scopes_of(raw@)[i],
{
    let n = raw.unicode_len();
    let mut scopes: Vec<String> = Vec::new();
    let mut start: usize = 0;
    let mut i: usize = 0;
    let ghost mut done: Seq<Seq<char>> = Seq::empty();
    assert(raw@.take(0).len() == 0);
    assert(raw@.subrange(0, 0) =~= Seq::<char>::empty());
    assert(done.push(raw@.subrange(0, 0)) =~= seq![Seq::<char>::empty()]);
    while i < n
        invariant
            n == raw@.len(),
            start <= i <= n,
            split_commas(raw@.take(i as int)) == done.push(raw@.subrange(start as int, i as int)),
            scopes@.len() == kept_scopes(done).len(),
            forall|j: int| 0 <= j < scopes@.len() ==> #[trigger] scopes@[j]@ == kept_scopes(done)[j],
        decreases n - i,
    {
        let c = raw.get_char(i);
        proof {
            assert(raw@.take(i as int + 1).drop_last() =~= raw@.take(i as int));
            assert(raw@.take(i as int + 1).last() == c);
        }
        if c == ',' {
            let piece = trimmed_copy(raw.substring_char(start, i));
            proof {
                assert(kept_scopes(done.push(raw@.subrange(start as int, i as int))) == if trimmed(
                    raw@.subrange(start as int, i as int),
                ).len() > 0 {
                    kept_scopes(done).push(trimmed(raw@.subrange(start as int, i as int)))
                } else {
                    kept_scopes(done)
                }) by {
                    assert(done.push(raw@.subrange(start as int, i as int)).drop_last() =~= done);
                }
            }
            if piece.unicode_len() > 0 {
                scopes.push(piece);
            }
            proof {
                done = done.push(raw@.subrange(start as int, i as int));
                assert(raw@.subrange(i as int + 1, i as int + 1) =~= Seq::<char>::empty());
            }
            start = i + 1;
        } else {
            proof {
                let p = done.push(raw@.subrange(start as int, i as int));
                assert(p.drop_last() =~= done);
                assert(raw@.subrange(start as int, i as int + 1) =~= raw@.subrange(start as int, i as int).push(c));
            }
        }
        i = i + 1;
    }
    let piece = trimmed_copy(raw.substring_char(start, n));
    proof {
        assert(raw@.take(n as int) =~= raw@);
        assert(done.push(raw@.subrange(start as int, n as int)).drop_last() =~= done);
    }
    if piece.unicode_len() > 0 {
        scopes.push(piece);
    }
    scopes
}

} // verus!
