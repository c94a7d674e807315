use vstd::prelude::*;

use crate::text::chars_of;

verus! {

pub open spec fn is_digit(c: char) -> bool {
    '0' <= c && c <= '9'
}

/// A non-empty run of decimal digits.
pub open spec fn all_digits(s: Seq<char>) -> bool {
    s.len() > 0 && forall|k: int| 0 <= k < s.len() ==> #[trigger] is_digit(s[k])
}

/// Digits, optionally followed by one decimal point and more digits: `12`, `1.5`.
pub open spec fn unsigned_number(s: Seq<char>) -> bool {
    all_digits(s) || exists|k: int|
        0 < k < s.len() && s[k] == '.' && all_digits(#[trigger] s.take(k)) && all_digits(
            s.skip(k + 1),
        )
}

/// An unsigned number, optionally preceded by one minus sign: `-12`, `-1.5`.
pub open spec fn signed_number(s: Seq<char>) -> bool {
    unsigned_number(s) || (s.len() > 0 && s[0] == '-' && unsigned_number(s.skip(1)))
}

/// One of the operator symbols `+`, `-`, `*`, `/` and `**`.
pub open spec fn operator_lexeme(s: Seq<char>) -> bool {
    s == seq!['+'] || s == seq!['-'] || s == seq!['*'] || s == seq!['/'] || s == seq!['*', '*']
}

/// The characters an expression may be written with.
pub open spec fn allowed_char(c: char) -> bool {
    is_digit(c) || c == '.' || c == '+' || c == '-' || c == '*' || c == '/' || c == '(' || c
        == ')'
}

pub open spec fn only_allowed_chars(s: Seq<char>) -> bool {
    forall|k: int| 0 <= k < s.len() ==> #[trigger] allowed_char(s[k])
}

/// The fixed text shapes that the evaluator recognises.
#[derive(Clone, Copy, Debug, PartialEq, Eq, Structural)]
pub enum Pattern {
    /// A number with an optional leading minus sign.
    SignedNumber,
    /// A number without a sign.
    UnsignedNumber,
    /// A single operator symbol.
    Operator,
    /// A non-empty text made of the allowed characters only.
    Expression,
}

impl Pattern {
    pub open spec fn matches(self, s: Seq<char>) -> bool {
        match self {
            Pattern::SignedNumber => signed_number(s),
            Pattern::UnsignedNumber => unsigned_number(s),
            Pattern::Operator => operator_lexeme(s),
            Pattern::Expression => s.len() > 0 && only_allowed_chars(s),
        }
    }

    /// Whether the whole of `s` has this shape.
    pub fn is_match(&self, s: &str) -> (r: bool)
        ensures
            r == self.matches(s@),
    {
        let v = chars_of(s);
        assert(v@.skip(0) =~= v@);
        match self {
            Pattern::SignedNumber => is_signed_number(&v),
            Pattern::UnsignedNumber => is_unsigned_number(&v, 0),
            Pattern::Operator => is_operator_lexeme(&v),
            Pattern::Expression => v.len() > 0 && has_only_allowed_chars(&v),
        }
    }
}

/// Numbers, signed or not.
pub fn float_re() -> (r: Pattern)
    ensures
        r == Pattern::SignedNumber,
{
    Pattern::SignedNumber
}

/// Operator symbols.
pub fn operation_re() -> (r: Pattern)
    ensures
        r == Pattern::Operator,
{
    Pattern::Operator
}

/// Texts made of the allowed characters.
pub fn validation_re() -> (r: Pattern)
    ensures
        r == Pattern::Expression,
{
    Pattern::Expression
}

pub fn is_digit_char(c: char) -> (r: bool)
    ensures
        r == is_digit(c),
{
    '0' <= c && c <= '9'
}

pub fn is_allowed_char(c: char) -> (r: bool)
    ensures
        r == allowed_char(c),
{
    is_digit_char(c) || c == '.' || c == '+' || c == '-' || c == '*' || c == '/' || c == '('
        || c == ')'
}

pub fn has_only_allowed_chars(v: &Vec<char>) -> (r: bool)
    ensures
        r == only_allowed_chars(v@),
{
    let mut i: usize = 0;
    while i < v.len()
        invariant
            i <= v.len(),
            forall|k: int| 0 <= k < i ==> #[trigger] allowed_char(v@[k]),
        decreases v.len() - i,
    {
        if !is_allowed_char(v[i]) {
            return false;
        }
        i = i + 1;
    }
    true
}

/// Whether `v[from..]` is an unsigned number.
pub fn is_unsigned_number(v: &Vec<char>, from: usize) -> (r: bool)
    requires
        from <= v.len(),
    ensures
        r == unsigned_number(v@.skip(from as int)),
{
    let ghost t = v@.skip(from as int);
    let mut k: usize = from;
    while k < v.len() && is_digit_char(v[k])
        invariant
            from <= k <= v.len(),
            forall|j: int| from <= j < k ==> #[trigger] is_digit(v@[j]),
        decreases v.len() - k,
    {
        k = k + 1;
    }
    if k == v.len() {
        proof {
            if k > from {
                assert(all_digits(t));
            } else {
                assert(t.len() == 0);
            }
        }
        return k > from;
    }
    if v[k] != '.' || k == from || k + 1 == v.len() {
        proof {
            assert(!is_digit(t[k - from]));
            if exists|m: int|
                0 < m < t.len() && t[m] == '.' && all_digits(#[trigger] t.take(m)) && all_digits(
                    t.skip(m + 1),
                ) {
                let m = choose|m: int|
                    0 < m < t.len() && t[m] == '.' && all_digits(#[trigger] t.take(m))
                        && all_digits(t.skip(m + 1));
                if m < k - from {
                    assert(is_digit(v@[from + m]));
                } else if m > k - from {
                    assert(is_digit(t.take(m)[k - from]));
                } else {
                    assert(t.skip(m + 1).len() > 0);
                }
            }
        }
        return false;
    }
    let mut j: usize = k + 1;
    while j < v.len()
        invariant
            k + 1 <= j <= v.len(),
            from < k < v.len(),
            v@[k as int] == '.',
            t == v@.skip(from as int),
            forall|m: int| from <= m < k ==> #[trigger] is_digit(v@[m]),
            forall|m: int| k + 1 <= m < j ==> #[trigger] is_digit(v@[m]),
        decreases v.len() - j,
    {
        if !is_digit_char(v[j]) {
            proof {
                assert(!is_digit(t[k - from]));
                assert(!all_digits(t));
                if exists|m: int|
                    0 < m < t.len() && t[m] == '.' && all_digits(#[trigger] t.take(m))
                        && all_digits(t.skip(m + 1)) {
                    let m = choose|m: int|
                        0 < m < t.len() && t[m] == '.' && all_digits(#[trigger] t.take(m))
                            && all_digits(t.skip(m + 1));
                    if m < k - from {
                        assert(is_digit(v@[from + m]));
                    } else if m > k - from {
                        assert(is_digit(t.take(m)[k - from]));
                    } else {
                        assert(is_digit(t.skip(m + 1)[j - k - 1]));
                    }
                }
            }
            return false;
        }
        j = j + 1;
    }
    proof {
        let m = k - from;
        assert(all_digits(t.take(m)));
        assert(all_digits(t.skip(m + 1)));
    }
    true
}

pub fn is_signed_number(v: &Vec<char>) -> (r: bool)
    ensures
        r == signed_number(v@),
{
    assert(v@.skip(0) =~= v@);
    if is_unsigned_number(v, 0) {
        true
    } else if v.len() > 0 && v[0] == '-' {
        is_unsigned_number(v, 1)
    } else {
        false
    }
}

pub fn is_operator_lexeme(v: &Vec<char>) -> (r: bool)
    ensures
        r == operator_lexeme(v@),
{
    if v.len() == 1 {
        let c = v[0];
        proof {
            assert(v@ =~= seq![c]);
        }
        c == '+' || c == '-' || c == '*' || c == '/'
    } else if v.len() == 2 {
        proof {
            assert(v@ =~= seq![v@[0], v@[1]]);
        }
        v[0] == '*' && v[1] == '*'
    } else {
        false
    }
}

} // verus!
