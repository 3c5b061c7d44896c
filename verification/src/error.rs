use vstd::prelude::*;
use vstd::string::*;

use crate::id::ContentId;
use crate::kind::{kind_name, ContentKind};

verus! {

/// Why an operation on a content tree was refused.
#[derive(Clone, Copy, Debug, PartialEq, Eq, Structural)]
pub enum ContentError {
    /// The new specification is of another kind than the node.
    KindMismatch { current: ContentKind, new: ContentKind },
    /// Two nodes whose contents cannot be merged.
    IncompatibleMerge { target: ContentKind, source: ContentKind },
    /// The node has no parent.
    NoParent(ContentId),
    /// The node has no previous sibling.
    NoPreviousSibling(ContentId),
    /// No chain of nodes can make the child a descendant of the parent.
    IncompatibleChild { child: ContentKind, parent: ContentKind },
}

/// The character of a decimal digit.
pub open spec fn digit_char(d: nat) -> char {
    (48 + d) as char
}

/// The decimal writing of `n`, without leading zeros.
pub open spec fn decimal(n: nat) -> Seq<char>
    decreases n,
{
    if n < 10 {
        seq![digit_char(n)]
    } else {
        decimal(n / 10).push(digit_char(n % 10))
    }
}

/// The message that describes an error to a person.
pub open spec fn error_message(e: ContentError) -> Seq<char> {
    match e {
        ContentError::KindMismatch { current, new } => "impossible de remplacer un noeud "@ + kind_name(
            current,
        ) + " par un noeud "@ + kind_name(new) + " : les genres diffèrent"@,
        ContentError::IncompatibleMerge { target, source } => "impossible de fusionner un noeud "@
            + kind_name(source) + " dans un noeud "@ + kind_name(target)
            + " : structures incompatibles"@,
        ContentError::NoParent(id) => "le noeud "@ + decimal(id.0 as nat) + " n'a pas de parent"@,
        ContentError::NoPreviousSibling(id) => "le noeud "@ + decimal(id.0 as nat)
            + " n'a pas de frère précédent"@,
        ContentError::IncompatibleChild { child, parent } =>
            "noeud de contenu enfant incompatible avec le parent "@ + kind_name(child) + " vs. "@
                + kind_name(parent),
    }
}

/// The one-character string of a decimal digit.
fn digit_str(d: u64) -> (s: &'static str)
    requires
        d < 10,
    ensures
        s@ == seq![digit_char(d as nat)],
{
    proof {
        reveal_strlit("0");
        reveal_strlit("1");
        reveal_strlit("2");
        reveal_strlit("3");
        reveal_strlit("4");
        reveal_strlit("5");
        reveal_strlit("6");
        reveal_strlit("7");
        reveal_strlit("8");
        reveal_strlit("9");
    }
    if d == 0 {
        "0"
    } else if d == 1 {
        "1"
    } else if d == 2 {
        "2"
    } else if d == 3 {
        "3"
    } else if d == 4 {
        "4"
    } else if d == 5 {
        "5"
    } else if d == 6 {
        "6"
    } else if d == 7 {
        "7"
    } else if d == 8 {
        "8"
    } else {
        "9"
    }
}

/// Appends the decimal writing of `n` to `out`.
pub(crate) fn push_decimal(out: &mut String, n: u64)
    ensures
        final(out)@ == old(out)@ + decimal(n as nat),
    decreases n,
{
    if n < 10 {
        out.append(digit_str(n));
    } else {
        push_decimal(out, n / 10);
        out.append(digit_str(n % 10));
        proof {
            assert(decimal(n as nat) == decimal((n / 10) as nat).push(digit_char((n % 10) as nat)));
        }
    }
}

impl ContentError {
    /// The message that describes the error to a person.
    pub fn message(&self) -> (s: String)
        ensures
            s@ == error_message(*self),
    {
        match *self {
            ContentError::KindMismatch { current, new } => {
                let mut s = String::from_str("impossible de remplacer un noeud ");
                s.append(current.name());
                s.append(" par un noeud ");
                s.append(new.name());
                s.append(" : les genres diffèrent");
                s
            },
            ContentError::IncompatibleMerge { target, source } => {
                let mut s = String::from_str("impossible de fusionner un noeud ");
                s.append(source.name());
                s.append(" dans un noeud ");
                s.append(target.name());
                s.append(" : structures incompatibles");
                s
            },
            ContentError::NoParent(id) => {
                let mut s = String::from_str("le noeud ");
                push_decimal(&mut s, id.0);
                s.append(" n'a pas de parent");
                s
            },
            ContentError::NoPreviousSibling(id) => {
                let mut s = String::from_str("le noeud ");
                push_decimal(&mut s, id.0);
                s.append(" n'a pas de frère précédent");
                s
            },
            ContentError::IncompatibleChild { child, parent } => {
                let mut s = String::from_str("noeud de contenu enfant incompatible avec le parent ");
                s.append(child.name());
                s.append(" vs. ");
                s.append(parent.name());
                s
            },
        }
    }
}

} // verus!
