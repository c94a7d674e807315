use vstd::prelude::*;

use crate::error::Error;
use crate::token::{perform_operation, Expr, Op, Token};

verus! {

/// Whether the operator after `cur` binds tighter, so that `cur` has to wait for it.
pub open spec fn defers(cur: Op, next: Op) -> bool {
    match cur {
        Op::Add | Op::Sub => next is Mul || next is Div || next is Pow,
        Op::Mul | Op::Div => next is Pow,
        Op::Pow => false,
    }
}

/// The operator at `i` may be applied now: its right operand is followed by nothing,
/// by a closing parenthesis, or by an operator that does not take precedence over it.
pub open spec fn eligible(s: Seq<Token>, i: int) -> bool {
    &&& 0 <= i < s.len()
    &&& s[i] is Operation
    &&& (i + 2 >= s.len() || s[i + 2] is Close || (s[i + 2] is Operation && !defers(
        s[i]->Operation_0,
        s[i + 2]->Operation_0,
    )))
}

/// The first eligible operator at or after `k`.
pub open spec fn next_operation_from(s: Seq<Token>, k: int) -> Option<int>
    decreases s.len() - k,
{
    if k < 0 || k >= s.len() {
        None
    } else if eligible(s, k) {
        Some(k)
    } else {
        next_operation_from(s, k + 1)
    }
}

pub open spec fn next_operation(s: Seq<Token>) -> Option<int> {
    next_operation_from(s, 0)
}

/// A number, an operator and a number stand at `i - 1`, `i` and `i + 1`.
pub open spec fn operands_at(s: Seq<Token>, i: int) -> bool {
    &&& 1 <= i
    &&& i + 1 < s.len()
    &&& s[i - 1] is Number
    &&& s[i] is Operation
    &&& s[i + 1] is Number
}

/// `s` with the three tokens around `i` collapsed into the number they denote.
pub open spec fn apply_at(s: Seq<Token>, i: int) -> Seq<Token> {
    s.take(i - 1).push(
        Token::Number(
            Expr::Binary(
                s[i]->Operation_0,
                Box::new(s[i - 1]->Number_0),
                Box::new(s[i + 1]->Number_0),
            ),
        ),
    ) + s.skip(i + 2)
}

/// A pair of parentheses at `i` and `i + 2` encloses the single token at `i + 1`.
pub open spec fn redundant_at(s: Seq<Token>, i: int) -> bool {
    0 <= i && i + 2 < s.len() && s[i] is Open && s[i + 2] is Close
}

/// The highest position below `n` where a redundant pair opens.
pub open spec fn last_redundant_below(s: Seq<Token>, n: int) -> Option<int>
    decreases n,
{
    if n <= 0 {
        None
    } else if redundant_at(s, n - 1) {
        Some(n - 1)
    } else {
        last_redundant_below(s, n - 1)
    }
}

/// `s` without the parentheses of the redundant pair at `i`.
pub open spec fn without_pair(s: Seq<Token>, i: int) -> Seq<Token> {
    s.remove(i + 2).remove(i)
}

/// `s` after removing redundant pairs, the highest first, until none is left.
pub open spec fn stripped(s: Seq<Token>) -> Seq<Token>
    decreases s.len(),
{
    match last_redundant_below(s, s.len() as int) {
        Some(i) => if redundant_at(s, i) {
            stripped(without_pair(s, i))
        } else {
            s
        },
        None => s,
    }
}

/// What is left once no operator is eligible, applying each eligible operator in turn
/// and stripping redundant parentheses after it; `None` where an eligible operator
/// lacks its two operands.
pub open spec fn reduced(s: Seq<Token>) -> Option<Seq<Token>>
    decreases s.len(),
    via reduced_decreases
{
    match next_operation(s) {
        None => Some(s),
        Some(i) => if operands_at(s, i) {
            reduced(stripped(apply_at(s, i)))
        } else {
            None
        },
    }
}

/// The expression a token sequence reduces to, if it reduces to a single number.
pub open spec fn evaluation(s: Seq<Token>) -> Option<Expr> {
    match reduced(stripped(s)) {
        Some(r) => if r.len() == 1 && r[0] is Number {
            Some(r[0]->Number_0)
        } else {
            None
        },
        None => None,
    }
}

pub proof fn lemma_stripped_len(s: Seq<Token>)
    ensures
        stripped(s).len() <= s.len(),
    decreases s.len(),
{
    if let Some(i) = last_redundant_below(s, s.len() as int) {
        if redundant_at(s, i) {
            lemma_stripped_len(without_pair(s, i));
        }
    }
}

#[via_fn]
proof fn reduced_decreases(s: Seq<Token>) {
    if let Some(i) = next_operation(s) {
        if operands_at(s, i) {
            assert(apply_at(s, i).len() == s.len() - 2);
            lemma_stripped_len(apply_at(s, i));
        }
    }
}

pub proof fn lemma_last_redundant_below(s: Seq<Token>, n: int)
    ensures
        match last_redundant_below(s, n) {
            Some(i) => i < n && redundant_at(s, i),
            None => true,
        },
    decreases n,
{
    if n > 0 && !redundant_at(s, n - 1) {
        lemma_last_redundant_below(s, n - 1);
    }
}

/// Whether `next` takes precedence over `cur`, which then has to wait.
pub fn prioritize_next_operation(cur: &Op, next: &Op) -> (r: bool)
    ensures
        r == defers(*cur, *next),
{
    match cur {
        Op::Add | Op::Sub => match next {
            Op::Add | Op::Sub => false,
            Op::Mul | Op::Div | Op::Pow => true,
        },
        Op::Mul | Op::Div => match next {
            Op::Add | Op::Sub | Op::Mul | Op::Div => false,
            Op::Pow => true,
        },
        Op::Pow => false,
    }
}

/// The highest position where a redundant pair of parentheses opens.
pub fn find_redundant_parentheses(tokens: &Vec<Token>) -> (r: Option<usize>)
    ensures
        match r {
            Some(i) => last_redundant_below(tokens@, tokens@.len() as int) == Some(i as int),
            None => last_redundant_below(tokens@, tokens@.len() as int) is None,
        },
{
    let mut n: usize = tokens.len();
    while n > 0
        invariant
            n <= tokens.len(),
            last_redundant_below(tokens@, tokens@.len() as int) == last_redundant_below(
                tokens@,
                n as int,
            ),
        decreases n,
    {
        let i = n - 1;
        if tokens.len() - i > 2 && matches!(tokens[i], Token::Open) && matches!(
            tokens[i + 2],
            Token::Close
        ) {
            return Some(i);
        }
        n = i;
    }
    None
}

/// A token sequence under reduction.
pub struct Tokens(pub Vec<Token>);

impl Tokens {
    /// Reduces the sequence to the single expression it stands for.
    pub fn evaluate(self) -> (r: Result<Expr, Error>)
        ensures
            match evaluation(self.0@) {
                Some(e) => r == Ok::<Expr, Error>(e),
                None => r == Err::<Expr, Error>(Error::Internal),
            },
    {
        let ghost start = stripped(self.0@);
        let mut t = self;
        t.remove_redundant_parentheses();
        loop
            invariant
                start == stripped(self.0@),
                reduced(t.0@) == reduced(start),
            ensures
                reduced(start) == Some(t.0@),
            decreases t.0.len(),
        {
            match t.find_next_operation() {
                None => {
                    assert(reduced(t.0@) == Some(t.0@));
                    break;
                },
                Some(i) => {
                    let ghost before = t.0@;
                    if !t.perform_operation_at(i) {
                        assert(reduced(before) is None);
                        return Err(Error::Internal);
                    }
                    assert(reduced(before) == reduced(stripped(apply_at(before, i as int))));
                    t.remove_redundant_parentheses();
                    proof {
                        lemma_stripped_len(apply_at(before, i as int));
                    }
                },
            }
        }
        assert(reduced(start) == Some(t.0@));
        if t.0.len() != 1 {
            return Err(Error::Internal);
        }
        match t.0.pop() {
            Some(Token::Number(e)) => Ok(e),
            _ => Err(Error::Internal),
        }
    }

    /// The position of the first operator that may be applied now.
    pub fn find_next_operation(&self) -> (r: Option<usize>)
        ensures
            match r {
                Some(i) => next_operation(self.0@) == Some(i as int),
                None => next_operation(self.0@) is None,
            },
            match r {
                Some(i) => eligible(self.0@, i as int) && forall|j: int|
                    0 <= j < i ==> !#[trigger] eligible(self.0@, j),
                None => forall|j: int| !#[trigger] eligible(self.0@, j),
            },
    {
        let s = &self.0;
        let mut i: usize = 0;
        while i < s.len()
            invariant
                i <= s.len(),
                s@ == self.0@,
                forall|j: int| 0 <= j < i ==> !#[trigger] eligible(s@, j),
                next_operation(s@) == next_operation_from(s@, i as int),
            decreases s.len() - i,
        {
            if let Token::Operation(cur_op) = &s[i] {
                if s.len() - i <= 2 {
                    assert(eligible(s@, i as int));
                    assert(next_operation_from(s@, i as int) == Some(i as int));
                    return Some(i);
                }
                match &s[i + 2] {
                    Token::Close => {
                        return Some(i);
                    },
                    Token::Operation(next_op) => {
                        if !prioritize_next_operation(cur_op, next_op) {
                            return Some(i);
                        }
                    },
                    _ => {},
                }
            }
            i = i + 1;
        }
        None
    }

    /// Collapses the number, operator and number around `i` into one number; leaves the
    /// sequence as it is, and returns false, where they are not there.
    pub fn perform_operation_at(&mut self, i: usize) -> (r: bool)
        ensures
            r == operands_at(old(self).0@, i as int),
            r ==> final(self).0@ == apply_at(old(self).0@, i as int),
            !r ==> final(self).0@ == old(self).0@,
    {
        if i == 0 || i >= self.0.len() || self.0.len() - i < 2 {
            return false;
        }
        if !(matches!(self.0[i - 1], Token::Number(_)) && matches!(self.0[i], Token::Operation(_))
            && matches!(self.0[i + 1], Token::Number(_))) {
            return false;
        }
        let ghost s = self.0@;
        let right = self.0.remove(i + 1);
        let operation = self.0.remove(i);
        let left = self.0.remove(i - 1);
        match (left, operation, right) {
            (Token::Number(l), Token::Operation(op), Token::Number(r)) => {
                self.0.insert(i - 1, Token::Number(perform_operation(l, op, r)));
                assert(self.0@ =~= apply_at(s, i as int));
                true
            },
            _ => false,
        }
    }

    /// Removes every pair of parentheses that encloses a single token, until none is left.
    pub fn remove_redundant_parentheses(&mut self)
        ensures
            final(self).0@ == stripped(old(self).0@),
            final(self).0@.len() <= old(self).0@.len(),
    {
        proof {
            lemma_stripped_len(self.0@);
        }
        loop
            invariant
                stripped(self.0@) == stripped(old(self).0@),
                self.0@.len() <= old(self).0@.len(),
            ensures
                stripped(self.0@) == self.0@,
                stripped(self.0@) == stripped(old(self).0@),
                self.0@.len() <= old(self).0@.len(),
            decreases self.0.len(),
        {
            match find_redundant_parentheses(&self.0) {
                None => {
                    assert(stripped(self.0@) == self.0@);
                    break;
                },
                Some(i) => {
                    proof {
                        lemma_last_redundant_below(self.0@, self.0@.len() as int);
                    }
                    let ghost before = self.0@;
                    self.0.remove(i + 2);
                    self.0.remove(i);
                    assert(self.0@ == without_pair(before, i as int));
                    assert(stripped(before) == stripped(self.0@));
                },
            }
        }
    }
}

} // verus!
