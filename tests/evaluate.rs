use calc::error::{Adjacency, Error, Imbalance};
use calc::eval as eval_tree;
use calc::token::{Expr, Op};

fn value(e: &Expr) -> f32 {
    match e {
        Expr::Literal(s) => s.parse::<f32>().unwrap(),
        Expr::Binary(op, l, r) => {
            let (l, r) = (value(l), value(r));
            match op {
                Op::Add => l + r,
                Op::Sub => l - r,
                Op::Mul => l * r,
                Op::Div => l / r,
                Op::Pow => l.powf(r),
            }
        }
    }
}

fn eval(input: &str) -> Result<f32, Error> {
    eval_tree(input).map(|e| value(&e))
}

#[test]
fn test_eval_positive() {
    assert_eq!(eval("12+3"), Ok(15_f32));
    assert_eq!(eval("12-3"), Ok(9_f32));
    assert_eq!(eval("12*3"), Ok(36_f32));
    assert_eq!(eval("12/3"), Ok(4_f32));
    assert_eq!(eval("12**3"), Ok(1728_f32));
}

#[test]
fn test_eval_negative() {
    assert_eq!(eval("-12+3"), Ok(-9_f32));
    assert_eq!(eval("-12-3"), Ok(-15_f32));
    assert_eq!(eval("-12*3"), Ok(-36_f32));
    assert_eq!(eval("-12/3"), Ok(-4_f32));
    assert_eq!(eval("-12**3"), Ok(-1728_f32));
}

#[test]
fn test_eval() {
    assert_eq!(eval("2*(-12+3)"), Ok(-18_f32));
    assert_eq!(eval("0.1**-2"), Ok(100_f32));
    assert_eq!(eval("-0.1*2"), Ok(-0.2_f32));
}

#[test]
fn it_tests_eval() {
    assert_eq!(eval("(3+3)*3").unwrap(), (3f32 + 3f32) * 3f32);
    assert_eq!(eval("((((3+3)*3)))").unwrap(), (3f32 + 3f32) * 3f32);
    assert_eq!(eval("(3+3)**3").unwrap(), (3f32 + 3f32).powf(3f32));
    assert_eq!(eval("(3+3)**3").unwrap(), (3f32 + 3f32).powf(3f32));
    assert_eq!(eval("(18*3)-6").unwrap(), (18f32 * 3f32) - 6f32);
    assert_eq!(
        eval("(3+3)**3**(1/3)").unwrap(),
        (3f32 + 3f32).powf(3f32).powf(1f32 / 3f32)
    );
    assert_eq!(
        eval("(3+3)**3**(1/3)").unwrap(),
        (3f32 + 3f32).powf(3f32).powf(1f32 / 3f32)
    );
}

#[test]
fn extra_parentheses_change_nothing() {
    assert_eq!(eval("((((3+3)*3)))"), eval("(3+3)*3"));
    assert_eq!(eval("((2))+(3)"), eval("2+3"));
    assert_eq!(eval("2*((3+4))"), eval("2*(3+4)"));
    assert_eq!(eval_tree("(1+2*3-4)"), eval_tree("1+2*3-4"));
    assert_eq!(
        eval("(((3+3)*3)))"),
        Err(Error::UnbalancedParenthesis(Imbalance::ClosingAt(11)))
    );
}

#[test]
fn precedence_and_association() {
    assert_eq!(eval("2+3*4"), Ok(14_f32));
    assert_eq!(eval("2*3+4"), Ok(10_f32));
    assert_eq!(eval("10-4-3"), Ok(3_f32));
    assert_eq!(eval("64/4/2"), Ok(8_f32));
    assert_eq!(eval("2*3**2"), Ok(18_f32));
    assert_eq!(eval("(2+3)*4"), Ok(20_f32));
    assert_eq!(eval("(18*3)-6"), Ok(48_f32));
}

#[test]
fn chained_powers_group_from_the_left() {
    assert_eq!(eval("2**3**2"), Ok(64_f32));
    assert_eq!(
        eval("(3+3)**3**(1/3)"),
        Ok(6f32.powf(3f32).powf(1f32 / 3f32))
    );
}

#[test]
fn tree_of_a_small_expression() {
    let e = eval_tree("1+2*3").unwrap();
    let lit = |s: &str| Box::new(Expr::Literal(String::from(s)));
    let expected = Expr::Binary(
        Op::Add,
        lit("1"),
        Box::new(Expr::Binary(Op::Mul, lit("2"), lit("3"))),
    );
    assert_eq!(e, expected);
}

#[test]
fn literals_keep_their_text() {
    assert_eq!(eval_tree(" 0.50 "), Ok(Expr::Literal(String::from("0.50"))));
    assert_eq!(eval_tree("-7"), Ok(Expr::Literal(String::from("-7"))));
}

#[test]
fn boundary_errors() {
    assert_eq!(eval("2+2p"), Err(Error::InvalidCharacter));
    assert_eq!(
        eval("((2+2)"),
        Err(Error::UnbalancedParenthesis(Imbalance::Unclosed(1)))
    );
    assert_eq!(
        eval("(2+2))"),
        Err(Error::UnbalancedParenthesis(Imbalance::ClosingAt(5)))
    );
    assert_eq!(
        eval(")(2+2)"),
        Err(Error::UnbalancedParenthesis(Imbalance::ClosingAt(0)))
    );
}

#[test]
fn adjacency_errors() {
    assert_eq!(
        eval("2++2"),
        Err(Error::IllegalAdjacency(Adjacency::OperatorFollowedByOperator))
    );
    assert_eq!(
        eval("2*/2"),
        Err(Error::IllegalAdjacency(Adjacency::OperatorFollowedByOperator))
    );
    assert_eq!(eval("()"), Err(Error::EmptyExpression));
    assert_eq!(eval(""), Err(Error::EmptyExpression));
}

#[test]
fn sign_pairs_are_normalised() {
    assert_eq!(eval("5+-2"), Ok(3_f32));
    assert_eq!(eval("5--2"), Ok(7_f32));
    assert_eq!(eval("5 - - 2"), Ok(7_f32));
}

#[test]
fn division_by_zero_is_not_an_error() {
    assert_eq!(eval("1/0"), Ok(f32::INFINITY));
}

#[test]
fn value_after_parenthesis_is_an_internal_fault() {
    assert_eq!(eval("2*3(4)"), Err(Error::Internal));
}

#[test]
fn long_flat_expression_reduces_fully() {
    assert_eq!(eval("1+2*3-4/2**2*8+9"), Ok(8_f32));
    assert!(eval_tree("1-2-3-4-5-6-7-8-9").is_ok());
}

#[test]
fn parentheses_override_precedence() {
    assert_eq!(eval("(1+2)*3"), Ok(9_f32));
    assert_eq!(eval("2*(3+4)"), Ok(14_f32));
    assert_eq!(eval("2**(1+2)"), Ok(8_f32));
}
