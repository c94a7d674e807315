use calc::regex::{float_re, operation_re, validation_re};

#[test]
fn regex_it_tests_float_re() {
    // Legal
    assert!(float_re().is_match("5"));
    assert!(float_re().is_match("5.5"));

    assert!(float_re().is_match("-5"));
    assert!(float_re().is_match("-5.5"));

    // Illegal
    assert!(!float_re().is_match("5."));
    assert!(!float_re().is_match(".5"));
    assert!(!float_re().is_match("5,5"));
    assert!(!float_re().is_match("5p"));
    assert!(!float_re().is_match("5.5f32"));
    assert!(!float_re().is_match("five"));

    assert!(!float_re().is_match("-5."));
    assert!(!float_re().is_match("-.5"));
    assert!(!float_re().is_match("-5,5"));
    assert!(!float_re().is_match("-5p"));
    assert!(!float_re().is_match("-5.5f32"));
    assert!(!float_re().is_match("-five"));
}

#[test]
fn regex_it_tests_operation_re() {
    // Legal
    assert!(operation_re().is_match("+"));
    assert!(operation_re().is_match("-"));
    assert!(operation_re().is_match("*"));
    assert!(operation_re().is_match("/"));
    assert!(operation_re().is_match("**"));

    // Illegal
    assert!(!operation_re().is_match("++"));
    assert!(!operation_re().is_match("/+"));
    assert!(!operation_re().is_match("+/"));
    assert!(!operation_re().is_match("*+"));
    assert!(!operation_re().is_match("+*"));
    assert!(!operation_re().is_match("-+"));
    assert!(!operation_re().is_match("*/"));
    assert!(!operation_re().is_match("//"));
    assert!(!operation_re().is_match("/*"));
    assert!(!operation_re().is_match("***"));
}

#[test]
fn regex_it_tests_validation_re() {
    // Legal
    assert!(validation_re().is_match("5+5-5*(5/5.5)"));
    assert!(validation_re().is_match("5+-5"));
    assert!(validation_re().is_match("5--5"));
    assert!(validation_re().is_match("5*-5"));
    assert!(validation_re().is_match("5/-5"));
    assert!(validation_re().is_match("5**-5"));
    assert!(validation_re().is_match("(5+5)-5"));
    assert!(validation_re().is_match("5+(-5+5)"));

    // Illegal
    assert!(!validation_re().is_match("5+5-5* (5/5.5)"));
    assert!(!validation_re().is_match("5+5-5*(5/5,5)"));
    assert!(!validation_re().is_match("5+5-5*(5/5.5);"));
}

#[test]
fn validation_pattern_rejects_empty_text() {
    assert!(!validation_re().is_match(""));
}

#[test]
fn number_pattern_rejects_two_points_and_double_sign() {
    assert!(!float_re().is_match("1.2.3"));
    assert!(!float_re().is_match("--5"));
    assert!(!float_re().is_match("-"));
    assert!(!float_re().is_match(""));
    assert!(float_re().is_match("007.250"));
}
