use vstd::prelude::*;

use crate::error::{Error, Kind};
use crate::text::chars_of;

verus! {

/// A binary operator.
#[derive(Clone, Copy, Debug, PartialEq, Eq, Structural)]
pub enum Op {
    Add,
    Sub,
    Mul,
    Div,
    Pow,
}

/// The symbol an operator is written with.
pub open spec fn op_symbol(op: Op) -> Seq<char> {
    match op {
        Op::Add => seq!['+'],
        Op::Sub => seq!['-'],
        Op::Mul => seq!['*'],
        Op::Div => seq!['/'],
        Op::Pow => seq!['*', '*'],
    }
}

/// What a reduction produces: a literal as written, or an operator applied to two operands.
#[derive(Debug, PartialEq)]
pub enum Expr {
    Literal(String),
    Binary(Op, Box<Expr>, Box<Expr>),
}

#[derive(Debug, PartialEq)]
pub enum Token {
    Number(Expr),
    Operation(Op),
    Open,
    Close,
}

pub open spec fn kind_of(t: Token) -> Kind {
    match t {
        Token::Number(_) => Kind::Number,
        Token::Operation(op) => Kind::Operator(op),
        Token::Open => Kind::Open,
        Token::Close => Kind::Close,
    }
}

impl Token {
    pub fn kind(&self) -> (r: Kind)
        ensures
            r == kind_of(*self),
    {
        match self {
            Token::Number(_) => Kind::Number,
            Token::Operation(op) => Kind::Operator(*op),
            Token::Open => Kind::Open,
            Token::Close => Kind::Close,
        }
    }
}

impl Op {
    /// The operator written as `op`.
    pub fn parse(op: String) -> (r: Result<Op, Error>)
        ensures
            match r {
                Ok(o) => op_symbol(o) == op@,
                Err(e) => e == Error::UnknownOperator(op) && forall|o: Op|
                    op_symbol(o) != op@,
            },
    {
        let v = chars_of(op.as_str());
        if v.len() == 1 {
            let c = v[0];
            assert(v@ =~= seq![c]);
            if c == '+' {
                return Ok(Op::Add);
            } else if c == '-' {
                return Ok(Op::Sub);
            } else if c == '*' {
                return Ok(Op::Mul);
            } else if c == '/' {
                return Ok(Op::Div);
            }
        } else if v.len() == 2 && v[0] == '*' && v[1] == '*' {
            assert(v@ =~= seq!['*', '*']);
            return Ok(Op::Pow);
        }
        proof {
            assert forall|o: Op| op_symbol(o) != op@ by {
                if op_symbol(o) == op@ {
                    assert(op_symbol(o)[0] == v@[0]);
                }
            }
        }
        Err(Error::UnknownOperator(op))
    }
}

/// The node that applies `operation` to `left` and `right`.
pub fn perform_operation(left: Expr, operation: Op, right: Expr) -> (r: Expr)
    ensures
        r == Expr::Binary(operation, Box::new(left), Box::new(right)),
{
    Expr::Binary(operation, Box::new(left), Box::new(right))
}

} // verus!
