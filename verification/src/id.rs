use vstd::prelude::*;
use vstd::string::*;

use crate::error::{decimal, digit_char, push_decimal};

verus! {

/// Identifier of a content node. Identifiers are handed out by the backend
/// that creates the node and are never reused for another node.
#[derive(Clone, Copy, Debug, PartialEq, Eq, Structural, Hash)]
pub struct ContentId(pub u64);

/// `c` is a decimal digit.
pub open spec fn is_digit(c: char) -> bool {
    '0' <= c && c <= '9'
}

/// The value of a decimal digit.
pub open spec fn digit_value(c: char) -> nat {
    (c as int - 48) as nat
}

/// Every character of `s` is a decimal digit.
pub open spec fn all_digits(s: Seq<char>) -> bool {
    forall|i: int| 0 <= i < s.len() ==> is_digit(#[trigger] s[i])
}

/// The number that the digits of `s` write in decimal.
pub open spec fn digits_value(s: Seq<char>) -> nat
    decreases s.len(),
{
    if s.len() == 0 {
        0
    } else {
        digits_value(s.drop_last()) * 10 + digit_value(s.last())
    }
}

/// `s` writes a number in decimal without leading zeros.
pub open spec fn is_canonical_decimal(s: Seq<char>) -> bool {
    &&& s.len() > 0
    &&& all_digits(s)
    &&& s.len() > 1 ==> s[0] != '0'
}

/// A digit's character is a digit, reads back as the digit, and is `'0'`
/// for zero only.
pub proof fn lemma_digit_char(d: nat)
    requires
        d < 10,
    ensures
        is_digit(digit_char(d)),
        digit_value(digit_char(d)) == d,
        (digit_char(d) == '0') == (d == 0),
{
    assert((48 + d) as char as int == 48 + d);
}

/// The decimal writing of a number is canonical and reads back as that
/// number.
pub proof fn lemma_decimal_canonical(n: nat)
    ensures
        is_canonical_decimal(decimal(n)),
        digits_value(decimal(n)) == n,
    decreases n,
{
    if n < 10 {
        lemma_digit_char(n);
        assert(decimal(n).drop_last().len() == 0);
        assert(digits_value(decimal(n).drop_last()) == 0);
    } else {
        lemma_digit_char(n % 10);
        lemma_decimal_canonical(n / 10);
        let p = decimal(n / 10);
        let s = decimal(n);
        assert(s == p.push(digit_char(n % 10)));
        assert(s.drop_last() =~= p);
        assert(s[0] == p[0]);
        assert forall|i: int| 0 <= i < s.len() implies is_digit(#[trigger] s[i]) by {
            if i < p.len() {
                assert(s[i] == p[i]);
            }
        }
        if p.len() == 1 {
            assert(digits_value(p) == digit_value(p[0])) by {
                assert(digits_value(p.drop_last()) == 0);
            }
            assert(p[0] != '0');
        }
    }
}

/// A longer prefix of digits never writes a smaller number.
pub proof fn lemma_digits_value_prefix(s: Seq<char>, k: int)
    requires
        0 <= k <= s.len(),
    ensures
        digits_value(s.take(k)) <= digits_value(s),
    decreases s.len() - k,
{
    if k < s.len() {
        lemma_digits_value_prefix(s, k + 1);
        assert(s.take(k + 1).drop_last() =~= s.take(k));
    } else {
        assert(s.take(k) =~= s);
    }
}

/// A canonical decimal writing is the writing of the number it reads as.
pub proof fn lemma_canonical_is_decimal(s: Seq<char>)
    requires
        is_canonical_decimal(s),
    ensures
        decimal(digits_value(s)) == s,
    decreases s.len(),
{
    let v = digits_value(s);
    if s.len() == 1 {
        assert(s.drop_last().len() == 0);
        assert(v == digit_value(s[0]));
        assert(decimal(v) =~= s);
    } else {
        let p = s.drop_last();
        assert(p[0] == s[0]);
        assert forall|i: int| 0 <= i < p.len() implies is_digit(#[trigger] p[i]) by {
            assert(p[i] == s[i]);
        }
        lemma_canonical_is_decimal(p);
        lemma_digits_value_prefix(p, 1);
        assert(digits_value(p.take(1).drop_last()) == 0);
        assert(digits_value(p.take(1)) == digit_value(p[0]));
        assert(v == digits_value(p) * 10 + digit_value(s.last()));
        assert(v / 10 == digits_value(p));
        assert(v % 10 == digit_value(s.last()));
        assert(decimal(v) =~= s);
    }
}

impl ContentId {
    pub fn from_raw(value: u64) -> (id: Self)
        ensures
            id.0 == value,
    {
        ContentId(value)
    }

    pub fn as_u64(self) -> (v: u64)
        ensures
            v == self.0,
    {
        self.0
    }

    /// The identifier written in decimal, as it is stored and shown.
    pub fn to_decimal(&self) -> (s: String)
        ensures
            s@ == decimal(self.0 as nat),
    {
        let mut s = String::new();
        push_decimal(&mut s, self.0);
        s
    }

    /// The identifier whose decimal writing (without leading zeros) is `s`,
    /// if any.
    pub fn from_decimal(s: &str) -> (r: Option<ContentId>)
        ensures
            r matches Some(id) ==> decimal(id.0 as nat) == s@,
            r is None ==> forall|id: ContentId| decimal(id.0 as nat) != s@,
    {
        let n = s.unicode_len();
        if n == 0 || (n > 1 && s.get_char(0) == '0') {
            proof {
                assert forall|id: ContentId| decimal(id.0 as nat) != s@ by {
                    lemma_decimal_canonical(id.0 as nat);
                }
            }
            return None;
        }
        let mut v: u64 = 0;
        let mut i: usize = 0;
        while i < n
            invariant
                n == s@.len(),
                n > 0,
                n > 1 ==> s@[0] != '0',
                i <= n,
                all_digits(s@.take(i as int)),
                v == digits_value(s@.take(i as int)),
            decreases n - i,
        {
            let c = s.get_char(i);
            proof {
                assert(s@.take(i as int + 1).drop_last() =~= s@.take(i as int));
                assert(s@.take(i as int + 1).last() == c);
            }
            if c < '0' || c > '9' {
                proof {
                    assert forall|id: ContentId| decimal(id.0 as nat) != s@ by {
                        lemma_decimal_canonical(id.0 as nat);
                        if decimal(id.0 as nat) == s@ {
                            assert(is_digit(s@[i as int]));
                        }
                    }
                }
                return None;
            }
            let d = (c as u32 - 48) as u64;
            let next = match v.checked_mul(10) {
                Some(t) => t.checked_add(d),
                None => None,
            };
            match next {
                Some(w) => {
                    v = w;
                },
                None => {
                    proof {
                        assert(digits_value(s@.take(i as int + 1)) > u64::MAX);
                        assert forall|id: ContentId| decimal(id.0 as nat) != s@ by {
                            lemma_decimal_canonical(id.0 as nat);
                            if decimal(id.0 as nat) == s@ {
                                lemma_digits_value_prefix(s@, i as int + 1);
                            }
                        }
                    }
                    return None;
                },
            }
            proof {
                assert forall|j: int| 0 <= j < i + 1 implies is_digit(#[trigger] s@.take(i as int + 1)[j]) by {
                    if j < i {
                        assert(s@.take(i as int + 1)[j] == s@.take(i as int)[j]);
                    }
                }
            }
            i = i + 1;
        }
        proof {
            assert(s@.take(n as int) =~= s@);
            lemma_canonical_is_decimal(s@);
        }
        Some(ContentId(v))
    }
}

/// The number that `s` writes in decimal, with an optional leading `+`
/// and leading zeros allowed, if it is one and fits in a `usize`: how
/// `usize::from_str` reads a number.
pub open spec fn usize_value(s: Seq<char>) -> Option<usize> {
    let digits = if s.len() > 0 && s[0] == '+' { s.drop_first() } else { s };
    if digits.len() > 0 && all_digits(digits) && digits_value(digits) <= usize::MAX {
        Some(digits_value(digits) as usize)
    } else {
        None
    }
}

/// Reads a number as `usize::from_str` does: see [`usize_value`].
pub fn parse_usize(s: &str) -> (r: Option<usize>)
    ensures
        r == usize_value(s@),
{
    let n = s.unicode_len();
    let first: usize = if n > 0 && s.get_char(0) == '+' { 1 } else { 0 };
    let ghost digits = if s@.len() > 0 && s@[0] == '+' { s@.drop_first() } else { s@ };
    proof {
        assert(digits =~= s@.skip(first as int));
    }
    if first >= n {
        return None;
    }
    let mut v: usize = 0;
    let mut i: usize = first;
    assert(digits.take(0).len() == 0);
    while i < n
        invariant
            n == s@.len(),
            first <= i <= n,
            digits == s@.skip(first as int),
            digits == (if s@.len() > 0 && s@[0] == '+' { s@.drop_first() } else { s@ }),
            all_digits(digits.take(i - first)),
            v == digits_value(digits.take(i - first)),
        decreases n - i,
    {
        let c = s.get_char(i);
        let ghost k = (i - first) as int;
        proof {
            assert(digits.take(k + 1).drop_last() =~= digits.take(k));
            assert(digits.take(k + 1).last() == c);
        }
        if c < '0' || c > '9' {
            proof {
                assert(!is_digit(digits[k]));
            }
            return None;
        }
        let d = (c as u32 - 48) as usize;
        let next = match v.checked_mul(10) {
            Some(t) => t.checked_add(d),
            None => None,
        };
        match next {
            Some(w) => {
                v = w;
            },
            None => {
                proof {
                    assert(digits_value(digits.take(k + 1)) > usize::MAX);
                    if all_digits(digits) {
                        lemma_digits_value_prefix(digits, k + 1);
                    }
                }
                return None;
            },
        }
        proof {
            assert forall|j: int| 0 <= j < k + 1 implies is_digit(#[trigger] digits.take(k + 1)[j]) by {
                if j < k {
                    assert(digits.take(k + 1)[j] == digits.take(k)[j]);
                }
            }
        }
        i = i + 1;
    }
    proof {
        assert(digits.take(n - first) =~= digits);
    }
    Some(v)
}

} // verus!
