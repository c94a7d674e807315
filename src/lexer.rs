use vstd::prelude::*;

use crate::regex::{is_digit, is_digit_char, is_signed_number, signed_number};
use crate::text::segment;

verus! {

/// A character that can stand inside a number.
pub open spec fn numeric_char(c: char) -> bool {
    is_digit(c) || c == '.'
}

/// A lexeme after which a minus sign is a subtraction: a number or a closing parenthesis.
pub open spec fn is_value_lexeme(l: Seq<char>) -> bool {
    signed_number(l) || l == seq![')']
}

/// Whether the lexeme that began at `start` goes on past position `i`: the characters at
/// `i` and `i + 1` both belong to a number, or are both `*`; or, where a minus sign is
/// folded into numbers, `i` holds a minus sign that begins the lexeme, is not followed by
/// `(`, and does not come after a value.
pub open spec fn stays_open(
    s: Seq<char>,
    start: int,
    i: int,
    fold_minus: bool,
    after_value: bool,
) -> bool {
    &&& i + 1 < s.len()
    &&& {
        ||| numeric_char(s[i]) && numeric_char(s[i + 1])
        ||| s[i] == '*' && s[i + 1] == '*'
        ||| fold_minus && s[i] == '-' && i == start && s[i + 1] != '(' && !after_value
    }
}

/// The lexemes of `s` from the one that began at `start`, scanning on from `i`.
pub open spec fn lexemes_from(
    s: Seq<char>,
    start: int,
    i: int,
    fold_minus: bool,
    after_value: bool,
) -> Seq<Seq<char>>
    decreases s.len() - i,
{
    if start < 0 || i < start || i >= s.len() {
        seq![]
    } else if stays_open(s, start, i, fold_minus, after_value) {
        lexemes_from(s, start, i + 1, fold_minus, after_value)
    } else {
        let l = s.subrange(start, i + 1);
        seq![l] + lexemes_from(s, i + 1, i + 1, fold_minus, is_value_lexeme(l))
    }
}

/// The lexemes of `s`, left to right.
pub open spec fn lexemes(s: Seq<char>, fold_minus: bool) -> Seq<Seq<char>> {
    lexemes_from(s, 0, 0, fold_minus, false)
}

pub fn is_numeric_char(c: char) -> (r: bool)
    ensures
        r == numeric_char(c),
{
    is_digit_char(c) || c == '.'
}

/// Cuts `v` into its lexemes.
pub fn split_lexemes(v: &Vec<char>, fold_minus: bool) -> (r: Vec<Vec<char>>)
    ensures
        r.len() == lexemes(v@, fold_minus).len(),
        forall|k: int| 0 <= k < r.len() ==> #[trigger] r@[k]@ == lexemes(v@, fold_minus)[k],
{
    let mut r: Vec<Vec<char>> = Vec::new();
    let ghost done: Seq<Seq<char>> = seq![];
    let mut start: usize = 0;
    let mut after_value = false;
    let mut i: usize = 0;
    while i < v.len()
        invariant
            start <= i <= v.len(),
            r.len() == done.len(),
            forall|k: int| 0 <= k < r.len() ==> #[trigger] r@[k]@ == done[k],
            lexemes(v@, fold_minus) == done + lexemes_from(
                v@,
                start as int,
                i as int,
                fold_minus,
                after_value,
            ),
        decreases v.len() - i,
    {
        let stay = i + 1 < v.len() && ((is_numeric_char(v[i]) && is_numeric_char(v[i + 1])) || (
        v[i] == '*' && v[i + 1] == '*') || (fold_minus && v[i] == '-' && i == start && v[i + 1]
            != '(' && !after_value));
        if !stay {
            let l = segment(v, start, i + 1);
            let closing = l.len() == 1 && l[0] == ')';
            assert(closing == (l@ == seq![')'])) by {
                if l@ == seq![')'] {
                    assert(l@[0] == ')');
                }
                if closing {
                    assert(l@ =~= seq![')']);
                }
            }
            let value = is_signed_number(&l) || closing;
            let ghost rest = lexemes_from(v@, i + 1, i + 1, fold_minus, value);
            assert(done + (seq![l@] + rest) =~= done.push(l@) + rest);
            proof {
                done = done.push(l@);
            }
            r.push(l);
            after_value = value;
            start = i + 1;
        }
        i = i + 1;
    }
    assert(done + Seq::<Seq<char>>::empty() =~= done);
    r
}

} // verus!
