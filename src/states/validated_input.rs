use vstd::prelude::*;

use crate::error::{Adjacency, Error};
use crate::lexer::{lexemes, split_lexemes};
use crate::regex::{
    is_operator_lexeme,
    is_signed_number,
    is_unsigned_number,
    operator_lexeme,
    signed_number,
    unsigned_number,
};
use crate::states::tokens::Tokens;
use crate::text::{chars_of, string_of};
use crate::token::{kind_of, op_symbol, Expr, Op, Token};

verus! {

/// A number lexeme: with an optional minus sign where `signed`, else without.
pub open spec fn number_lexeme(l: Seq<char>, signed: bool) -> bool {
    if signed {
        signed_number(l)
    } else {
        unsigned_number(l)
    }
}

/// A lexeme that names a token.
pub open spec fn classifies(l: Seq<char>, signed: bool) -> bool {
    number_lexeme(l, signed) || operator_lexeme(l) || l == seq!['('] || l == seq![')']
}

/// `t` is the token that the lexeme `l` names.
pub open spec fn denotes(t: Token, l: Seq<char>, signed: bool) -> bool {
    match t {
        Token::Number(e) => number_lexeme(l, signed) && match e {
            Expr::Literal(x) => x@ == l,
            _ => false,
        },
        Token::Operation(op) => op_symbol(op) == l,
        Token::Open => l == seq!['('],
        Token::Close => l == seq![')'],
    }
}

pub open spec fn denotes_all(ts: Seq<Token>, ls: Seq<Seq<char>>, signed: bool) -> bool {
    ts.len() == ls.len() && forall|k: int|
        0 <= k < ts.len() ==> #[trigger] denotes(ts[k], ls[k], signed)
}

/// The lexeme at `k` is the first one that names no token.
pub open spec fn first_invalid_at(ls: Seq<Seq<char>>, k: int, signed: bool) -> bool {
    &&& 0 <= k < ls.len()
    &&& !classifies(ls[k], signed)
    &&& forall|j: int| 0 <= j < k ==> #[trigger] classifies(ls[j], signed)
}

/// What stands wrong between two neighbouring tokens, if anything.
pub open spec fn adjacency(cur: Token, next: Token) -> Option<Adjacency> {
    match (cur, next) {
        (Token::Number(_), Token::Number(_)) => Some(Adjacency::NumberFollowedByNumber),
        (Token::Operation(_), Token::Operation(_)) => Some(Adjacency::OperatorFollowedByOperator),
        (Token::Operation(_), Token::Close) => Some(Adjacency::OperatorFollowedByClose),
        (Token::Open, Token::Operation(_)) => Some(Adjacency::OpenFollowedByOperator),
        (Token::Open, Token::Close) => Some(Adjacency::OpenFollowedByClose),
        (Token::Close, Token::Number(_)) => Some(Adjacency::CloseFollowedByNumber),
        (Token::Close, Token::Open) => Some(Adjacency::CloseFollowedByOpen),
        _ => None,
    }
}

/// The first illegal neighbouring pair at or after position `k`.
pub open spec fn first_adjacency_from(s: Seq<Token>, k: int) -> Option<Adjacency>
    decreases s.len() - k,
{
    if k < 0 || k + 1 >= s.len() {
        None
    } else if adjacency(s[k], s[k + 1]) is Some {
        adjacency(s[k], s[k + 1])
    } else {
        first_adjacency_from(s, k + 1)
    }
}

/// The verdict on a token sequence: not empty, a legal first and last token, and no
/// illegal neighbours.
pub open spec fn token_check(s: Seq<Token>) -> Result<(), Error> {
    if s.len() == 0 {
        Err(Error::EmptyExpression)
    } else if s[0] is Close || s[0] is Operation {
        Err(Error::CannotStartWith(kind_of(s[0])))
    } else if s.last() is Open || s.last() is Operation {
        Err(Error::CannotEndWith(kind_of(s.last())))
    } else {
        match first_adjacency_from(s, 0) {
            Some(a) => Err(Error::IllegalAdjacency(a)),
            None => Ok(()),
        }
    }
}

/// The illegal pair formed by two neighbouring tokens, if they form one.
pub fn check_adjacency(cur: &Token, next: &Token) -> (r: Option<Adjacency>)
    ensures
        r == adjacency(*cur, *next),
{
    match (cur, next) {
        (Token::Number(_), Token::Number(_)) => Some(Adjacency::NumberFollowedByNumber),
        (Token::Operation(_), Token::Operation(_)) => Some(Adjacency::OperatorFollowedByOperator),
        (Token::Operation(_), Token::Close) => Some(Adjacency::OperatorFollowedByClose),
        (Token::Open, Token::Operation(_)) => Some(Adjacency::OpenFollowedByOperator),
        (Token::Open, Token::Close) => Some(Adjacency::OpenFollowedByClose),
        (Token::Close, Token::Number(_)) => Some(Adjacency::CloseFollowedByNumber),
        (Token::Close, Token::Open) => Some(Adjacency::CloseFollowedByOpen),
        _ => None,
    }
}

/// The token that a lexeme names.
pub fn classify_lexeme(l: &Vec<char>, signed: bool) -> (r: Result<Token, Error>)
    ensures
        match r {
            Ok(t) => denotes(t, l@, signed),
            Err(e) => !classifies(l@, signed) && (e matches Error::InvalidToken(x) && x@ == l@),
        },
{
    let number = if signed {
        is_signed_number(l)
    } else {
        is_unsigned_number(l, 0)
    };
    assert(l@.skip(0) =~= l@);
    if number {
        Ok(Token::Number(Expr::Literal(string_of(l))))
    } else if is_operator_lexeme(l) {
        match Op::parse(string_of(l)) {
            Ok(op) => Ok(Token::Operation(op)),
            Err(e) => {
                proof {
                    if l@ == seq!['+'] {
                        assert(op_symbol(Op::Add) == l@);
                    } else if l@ == seq!['-'] {
                        assert(op_symbol(Op::Sub) == l@);
                    } else if l@ == seq!['*'] {
                        assert(op_symbol(Op::Mul) == l@);
                    } else if l@ == seq!['/'] {
                        assert(op_symbol(Op::Div) == l@);
                    } else {
                        assert(op_symbol(Op::Pow) == l@);
                    }
                }
                Err(e)
            },
        }
    } else if l.len() == 1 && l[0] == '(' {
        assert(l@ =~= seq!['(']);
        Ok(Token::Open)
    } else if l.len() == 1 && l[0] == ')' {
        assert(l@ =~= seq![')']);
        Ok(Token::Close)
    } else {
        proof {
            if l@ == seq!['('] || l@ == seq![')'] {
                assert(l@[0] == l[0]);
            }
        }
        Err(Error::InvalidToken(string_of(l)))
    }
}

/// Text whose characters and parentheses have been checked.
pub struct ValidatedInput(pub String);

impl ValidatedInput {
    /// The tokens of the text, checked for their order.
    pub fn tokenize(self) -> (r: Result<Tokens, Error>)
        ensures
            ({
                let ls = lexemes(self.0@, true);
                match r {
                    Ok(t) => denotes_all(t.0@, ls, true) && token_check(t.0@) is Ok,
                    Err(e) => (exists|k: int|
                        first_invalid_at(ls, k, true) && (e matches Error::InvalidToken(x) && x@
                            == ls[k])) || (exists|ts: Seq<Token>|
                        denotes_all(ts, ls, true) && token_check(ts) == Err::<(), Error>(e)),
                }
            }),
    {
        let tokens = match self.tokenize_string() {
            Ok(tokens) => tokens,
            Err(e) => {
                return Err(e);
            },
        };
        match ValidatedInput::validate_tokens(&tokens) {
            Ok(()) => Ok(Tokens(tokens)),
            Err(e) => {
                assert(denotes_all(tokens@, lexemes(self.0@, true), true));
                Err(e)
            },
        }
    }

    /// The tokens that the lexemes of the text name.
    pub fn tokenize_string(&self) -> (r: Result<Vec<Token>, Error>)
        ensures
            ({
                let ls = lexemes(self.0@, true);
                match r {
                    Ok(ts) => denotes_all(ts@, ls, true),
                    Err(e) => exists|k: int|
                        first_invalid_at(ls, k, true) && (e matches Error::InvalidToken(x) && x@
                            == ls[k]),
                }
            }),
    {
        let v = chars_of(self.0.as_str());
        let ls = split_lexemes(&v, true);
        let ghost spec_ls = lexemes(self.0@, true);
        let mut tokens: Vec<Token> = Vec::new();
        let mut k: usize = 0;
        while k < ls.len()
            invariant
                k <= ls.len(),
                spec_ls == lexemes(self.0@, true),
                ls.len() == spec_ls.len(),
                forall|j: int| 0 <= j < ls.len() ==> #[trigger] ls@[j]@ == spec_ls[j],
                tokens.len() == k,
                forall|j: int| 0 <= j < k ==> #[trigger] denotes(tokens@[j], spec_ls[j], true),
            decreases ls.len() - k,
        {
            let l = &ls[k];
            assert(l@ == spec_ls[k as int]);
            match classify_lexeme(l, true) {
                Ok(t) => tokens.push(t),
                Err(e) => {
                    proof {
                        assert forall|j: int| 0 <= j < k implies #[trigger] classifies(
                            spec_ls[j],
                            true,
                        ) by {
                            assert(denotes(tokens@[j], spec_ls[j], true));
                        }
                        assert(first_invalid_at(spec_ls, k as int, true));
                    }
                    return Err(e);
                },
            }
            k = k + 1;
        }
        Ok(tokens)
    }

    /// Checks a token sequence for emptiness, its first and last token, and illegal
    /// neighbours.
    pub fn validate_tokens(tokens: &Vec<Token>) -> (r: Result<(), Error>)
        ensures
            r == token_check(tokens@),
    {
        if tokens.len() == 0 {
            return Err(Error::EmptyExpression);
        }
        let first = &tokens[0];
        if matches!(first, Token::Close) || matches!(first, Token::Operation(_)) {
            return Err(Error::CannotStartWith(first.kind()));
        }
        let last = &tokens[tokens.len() - 1];
        if matches!(last, Token::Open) || matches!(last, Token::Operation(_)) {
            return Err(Error::CannotEndWith(last.kind()));
        }
        let mut i: usize = 0;
        while i + 1 < tokens.len()
            invariant
                0 < tokens.len(),
                i < tokens.len(),
                !(tokens@[0] is Close || tokens@[0] is Operation),
                !(tokens@.last() is Open || tokens@.last() is Operation),
                first_adjacency_from(tokens@, 0) == first_adjacency_from(tokens@, i as int),
            decreases tokens.len() - i,
        {
            if let Some(a) = check_adjacency(&tokens[i], &tokens[i + 1]) {
                return Err(Error::IllegalAdjacency(a));
            }
            i = i + 1;
        }
        Ok(())
    }
}

} // verus!
