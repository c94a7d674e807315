use calc::components::regexs::{float_re, operation_re, validation_re};

#[test]
fn regexs_it_tests_float_re() {
    assert!(float_re().is_match("5"));
    assert!(float_re().is_match("5.5"));
    assert!(!float_re().is_match("5."));
    assert!(!float_re().is_match(".5"));
    assert!(!float_re().is_match("5,5"));
    assert!(!float_re().is_match("5p"));
    assert!(!float_re().is_match("5.5f32"));
    assert!(!float_re().is_match("five"));
}

#[test]
fn regexs_it_tests_operation_re() {
    assert!(operation_re().is_match("+"));
    assert!(operation_re().is_match("-"));
    assert!(operation_re().is_match("*"));
    assert!(operation_re().is_match("/"));
    assert!(operation_re().is_match("**"));
    assert!(!operation_re().is_match("++"));
    assert!(!operation_re().is_match("/+"));
    assert!(!operation_re().is_match("+/"));
    assert!(!operation_re().is_match("*+"));
    assert!(!operation_re().is_match("+*"));
    assert!(!operation_re().is_match("-+"));
    assert!(!operation_re().is_match("*/"));
    assert!(!operation_re().is_match("//"));
    assert!(!operation_re().is_match("/*"));
    assert!(!operation_re().is_match("***"));
}

#[test]
fn regexs_it_tests_validation_re() {
    assert!(validation_re().is_match("5+5-5*(5/5.5)"));
    assert!(!validation_re().is_match("5+5-5* (5/5.5)"));
    assert!(!validation_re().is_match("5+5-5*(5/5,5)"));
    assert!(!validation_re().is_match("5+5-5*(5/5.5);"));
}

#[test]
fn unsigned_number_pattern_rejects_sign() {
    assert!(!float_re().is_match("-5"));
    assert!(!float_re().is_match("-5.5"));
}
