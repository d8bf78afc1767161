use krusti::{EvalError, Interpreter};

#[test]
fn fresh_session_has_no_names() {
    let s = Interpreter::new();
    assert!(s.names().is_empty());
}

#[test]
fn evaluate_accepts_a_literal_line() {
    let mut s = Interpreter::new();
    assert!(s.evaluate("1 2 3").is_ok());
    assert!(s.evaluate("(`a;0N)").is_ok());
    assert!(s.names().is_empty());
}

#[test]
fn evaluate_reports_parse_errors() {
    let mut s = Interpreter::new();
    match s.evaluate("`a 2 3") {
        Err(EvalError::Parse(e)) => {
            assert_eq!(e.span(), 3);
        },
        _ => panic!("expected a parse error"),
    }
}
