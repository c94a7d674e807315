use calc::error::{Adjacency, Error, Imbalance, Kind};
use calc::states::input::Input;
use calc::states::sanitized_input::SanitizedInput;
use calc::states::tokens::{prioritize_next_operation, Tokens};
use calc::states::validated_input::ValidatedInput;
use calc::token::{perform_operation, Expr, Op, Token};

fn num(s: &str) -> Token {
    Token::Number(Expr::Literal(String::from(s)))
}

fn tokens_of(s: &str) -> Result<Vec<Token>, Error> {
    ValidatedInput(String::from(s)).tokenize_string()
}

#[test]
fn sanitize_removes_blanks_and_normalises_signs() {
    let s = Input(String::from(" 1 +\t-2\n--( )3")).sanitize();
    assert_eq!(s.0, "1-2+3");
}

#[test]
fn sanitize_is_a_single_pass() {
    assert_eq!(Input(String::from("(())")).sanitize().0, "()");
    assert_eq!(Input(String::from("+--+5")).sanitize().0, "++5");
}

#[test]
fn validate_keeps_the_text() {
    let v = SanitizedInput(String::from("(1+2)")).validate().unwrap();
    assert_eq!(v.0, "(1+2)");
    assert!(matches!(
        SanitizedInput(String::from("1+2)")).validate(),
        Err(Error::UnbalancedParenthesis(Imbalance::ClosingAt(3)))
    ));
    assert!(matches!(
        SanitizedInput(String::from("1 + 2")).validate(),
        Err(Error::InvalidCharacter)
    ));
}

#[test]
fn tokenizer_folds_minus_only_where_no_value_precedes() {
    assert_eq!(
        tokens_of("-1-2").unwrap(),
        vec![num("-1"), Token::Operation(Op::Sub), num("2")]
    );
    assert_eq!(
        tokens_of("(-1)-(2)").unwrap(),
        vec![
            Token::Open,
            num("-1"),
            Token::Close,
            Token::Operation(Op::Sub),
            Token::Open,
            num("2"),
            Token::Close
        ]
    );
    assert_eq!(
        tokens_of("2*-(1)").unwrap(),
        vec![
            num("2"),
            Token::Operation(Op::Mul),
            Token::Operation(Op::Sub),
            Token::Open,
            num("1"),
            Token::Close
        ]
    );
    assert_eq!(
        tokens_of("2**12.5").unwrap(),
        vec![num("2"), Token::Operation(Op::Pow), num("12.5")]
    );
}

#[test]
fn tokenizer_rejects_bad_lexemes() {
    assert_eq!(
        tokens_of("1.2.3+4"),
        Err(Error::InvalidToken(String::from("1.2.3")))
    );
    assert_eq!(tokens_of("2***2"), Err(Error::InvalidToken(String::from("***"))));
    assert_eq!(tokens_of("5."), Err(Error::InvalidToken(String::from("5."))));
    assert_eq!(tokens_of(""), Ok(vec![]));
}

#[test]
fn token_order_errors() {
    assert_eq!(ValidatedInput::validate_tokens(&vec![]), Err(Error::EmptyExpression));
    assert_eq!(
        ValidatedInput::validate_tokens(&vec![Token::Close, num("1")]),
        Err(Error::CannotStartWith(Kind::Close))
    );
    assert_eq!(
        ValidatedInput::validate_tokens(&vec![Token::Operation(Op::Mul), num("1")]),
        Err(Error::CannotStartWith(Kind::Operator(Op::Mul)))
    );
    assert_eq!(
        ValidatedInput::validate_tokens(&vec![num("1"), Token::Open]),
        Err(Error::CannotEndWith(Kind::Open))
    );
    assert_eq!(
        ValidatedInput::validate_tokens(&vec![num("1"), Token::Operation(Op::Div)]),
        Err(Error::CannotEndWith(Kind::Operator(Op::Div)))
    );
    let cases = vec![
        (vec![num("1"), num("2")], Adjacency::NumberFollowedByNumber),
        (
            vec![num("1"), Token::Operation(Op::Add), Token::Close, num("2")],
            Adjacency::OperatorFollowedByClose,
        ),
        (
            vec![Token::Open, Token::Operation(Op::Add), num("2")],
            Adjacency::OpenFollowedByOperator,
        ),
        (
            vec![num("1"), Token::Open, Token::Close, num("2")],
            Adjacency::OpenFollowedByClose,
        ),
        (
            vec![Token::Open, num("1"), Token::Close, num("2")],
            Adjacency::CloseFollowedByNumber,
        ),
        (
            vec![num("1"), Token::Close, Token::Open, num("2")],
            Adjacency::CloseFollowedByOpen,
        ),
    ];
    for (ts, a) in cases {
        assert_eq!(ValidatedInput::validate_tokens(&ts), Err(Error::IllegalAdjacency(a)));
    }
    assert_eq!(
        ValidatedInput::validate_tokens(&vec![num("1"), Token::Operation(Op::Add), Token::Open, num("2"), Token::Close]),
        Ok(())
    );
}

#[test]
fn tokenize_checks_order() {
    assert!(matches!(
        ValidatedInput(String::from("*2")).tokenize(),
        Err(Error::CannotStartWith(Kind::Operator(Op::Mul)))
    ));
    let t = ValidatedInput(String::from("(2)")).tokenize().unwrap();
    assert_eq!(t.0, vec![Token::Open, num("2"), Token::Close]);
}

#[test]
fn operator_parsing() {
    assert_eq!(Op::parse(String::from("**")), Ok(Op::Pow));
    assert_eq!(Op::parse(String::from("/")), Ok(Op::Div));
    assert_eq!(
        Op::parse(String::from("%")),
        Err(Error::UnknownOperator(String::from("%")))
    );
}

#[test]
fn precedence_table() {
    assert!(prioritize_next_operation(&Op::Add, &Op::Mul));
    assert!(prioritize_next_operation(&Op::Sub, &Op::Pow));
    assert!(!prioritize_next_operation(&Op::Sub, &Op::Add));
    assert!(prioritize_next_operation(&Op::Div, &Op::Pow));
    assert!(!prioritize_next_operation(&Op::Mul, &Op::Div));
    assert!(!prioritize_next_operation(&Op::Pow, &Op::Pow));
}

#[test]
fn reducer_steps() {
    let mut t = Tokens(vec![
        num("1"),
        Token::Operation(Op::Add),
        num("2"),
        Token::Operation(Op::Mul),
        num("3"),
    ]);
    assert_eq!(t.find_next_operation(), Some(3));
    assert!(!t.perform_operation_at(1 + 1));
    assert!(t.perform_operation_at(3));
    assert_eq!(t.0.len(), 3);
    assert_eq!(t.find_next_operation(), Some(1));

    let mut p = Tokens(vec![
        Token::Open,
        Token::Open,
        num("1"),
        Token::Close,
        Token::Close,
        Token::Operation(Op::Add),
        Token::Open,
        num("2"),
        Token::Close,
    ]);
    p.remove_redundant_parentheses();
    assert_eq!(p.0, vec![num("1"), Token::Operation(Op::Add), num("2")]);
}

#[test]
fn perform_operation_builds_a_node() {
    let e = perform_operation(
        Expr::Literal(String::from("4")),
        Op::Sub,
        Expr::Literal(String::from("1")),
    );
    assert_eq!(
        e,
        Expr::Binary(
            Op::Sub,
            Box::new(Expr::Literal(String::from("4"))),
            Box::new(Expr::Literal(String::from("1")))
        )
    );
}

#[test]
fn evaluate_reports_unreduced_sequences() {
    assert!(matches!(
        Tokens(vec![num("1"), num("2")]).evaluate(),
        Err(Error::Internal)
    ));
    assert!(matches!(
        Tokens(vec![Token::Open, Token::Operation(Op::Add), Token::Close]).evaluate(),
        Err(Error::Internal)
    ));
}
