use calc::components::eval::{pre_tokenize, sanitize, tokenize, validate};
use calc::error::{Error, Imbalance};
use calc::token::{Expr, Op, Token};

#[test]
fn it_tests_validate() {
    assert!(validate(&String::from("2+2")).is_ok());
    assert!(validate(&String::from("2-2")).is_ok());
    assert!(validate(&String::from("2*2")).is_ok());
    assert!(validate(&String::from("2/2")).is_ok());
    assert!(validate(&String::from("2**2")).is_ok());
    assert!(validate(&String::from("((2+2)+(2+2))")).is_ok());
    assert!(validate(&String::from("2+2p")).is_err());
    assert!(validate(&String::from("((2+2)")).is_err());
    assert!(validate(&String::from("(2+2))")).is_err());
    assert!(validate(&String::from(")(2+2)")).is_err());
}

#[test]
fn it_tests_sanitize() {
    assert_eq!("2+2", sanitize(&String::from("2 + 2\n")));
}

#[test]
fn it_tests_tokenize() {
    assert_eq!(pre_tokenize(&String::from("2+2")), vec!["2", "+", "2"]);
    assert_eq!(
        pre_tokenize(&String::from("2+2**2")),
        vec!["2", "+", "2", "**", "2"]
    );
    assert_eq!(
        pre_tokenize(&String::from("(2.2+2.2)**2")),
        vec!["(", "2.2", "+", "2.2", ")", "**", "2"]
    );
    // pre_tokenize() does not check for valid tokens
    assert_eq!(
        pre_tokenize(&String::from("22..88..88******2")),
        vec!["22..88..88", "******", "2"]
    );
}

#[test]
fn legacy_sanitize_keeps_signs() {
    assert_eq!("2+-2", sanitize(&String::from("\t2 +-( ) 2")));
}

#[test]
fn legacy_pre_tokenize_never_folds_minus() {
    assert_eq!(pre_tokenize(&String::from("-2*-3")), vec!["-", "2", "*", "-", "3"]);
    assert!(pre_tokenize(&String::new()).is_empty());
}

#[test]
fn legacy_validate_reports_each_kind() {
    assert_eq!(validate(&String::from("2+2p")), Err(Error::InvalidCharacter));
    assert_eq!(
        validate(&String::from("((2+2)")),
        Err(Error::UnbalancedParenthesis(Imbalance::Unclosed(1)))
    );
    assert_eq!(
        validate(&String::from("(2+2))")),
        Err(Error::UnbalancedParenthesis(Imbalance::ClosingAt(5)))
    );
}

#[test]
fn it_tests_validate_tokens() {
    assert!(tokenize(&vec![
        String::from("2"),
        String::from("+"),
        String::from("2"),
    ])
    .is_ok());
    assert!(tokenize(&vec![
        String::from("("),
        String::from("2"),
        String::from("+"),
        String::from("2"),
        String::from(")"),
    ])
    .is_ok());
}

#[test]
fn legacy_tokenize_names_each_lexeme() {
    assert_eq!(
        tokenize(&vec![String::from("2.5"), String::from("**"), String::from(")")]),
        Ok(vec![
            Token::Number(Expr::Literal(String::from("2.5"))),
            Token::Operation(Op::Pow),
            Token::Close
        ])
    );
    assert_eq!(
        tokenize(&vec![String::from("1"), String::from("-2")]),
        Err(Error::InvalidToken(String::from("-2")))
    );
    assert_eq!(
        tokenize(&vec![String::from("******"), String::from("x")]),
        Err(Error::InvalidToken(String::from("******")))
    );
}
