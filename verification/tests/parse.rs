use krusti::parser::{ParseError, ParseErrorKind, parse};
use krusti::value::{FloatLit, Item, Primitive, Ty};

#[test]
fn null_integer_unit() {
    let it = parse("0N").unwrap();
    assert_eq!(it, Item::Unit(Primitive::Int(None)));
}

#[test]
fn nan_and_infinity_units() {
    assert_eq!(parse("0n").unwrap(), Item::Unit(Primitive::Float(FloatLit::Nan)));
    assert_eq!(parse("0w").unwrap(), Item::Unit(Primitive::Float(FloatLit::Inf)));
}

#[test]
fn empty_symbol() {
    assert_eq!(parse("`").unwrap(), Item::Unit(Primitive::Symbol(Vec::new())));
}

#[test]
fn dotted_symbol() {
    assert_eq!(
        parse("`www2.crates.io").unwrap(),
        Item::Unit(Primitive::Symbol(b"www2.crates.io".to_vec()))
    );
}

#[test]
fn single_primitive_is_unit_not_vector() {
    assert_eq!(parse("42").unwrap(), Item::Unit(Primitive::Int(Some(42))));
    assert_eq!(parse("`a").unwrap(), Item::Unit(Primitive::Symbol(b"a".to_vec())));
    assert!(!matches!(parse("7").unwrap(), Item::Vector(_, _)));
}

#[test]
fn int_vector() {
    assert_eq!(
        parse("1 2 3").unwrap(),
        Item::Vector(
            Ty::Int,
            vec![
                Primitive::Int(Some(1)),
                Primitive::Int(Some(2)),
                Primitive::Int(Some(3)),
            ]
        )
    );
}

#[test]
fn null_sentinel_inside_vector() {
    assert_eq!(
        parse("0N 5").unwrap(),
        Item::Vector(Ty::Int, vec![Primitive::Int(None), Primitive::Int(Some(5))])
    );
}

#[test]
fn negative_integers() {
    assert_eq!(parse("-5").unwrap(), Item::Unit(Primitive::Int(Some(-5))));
    assert_eq!(
        parse("9223372036854775807").unwrap(),
        Item::Unit(Primitive::Int(Some(i64::MAX)))
    );
    assert_eq!(
        parse("-9223372036854775808").unwrap(),
        Item::Unit(Primitive::Int(Some(i64::MIN)))
    );
}

#[test]
fn integer_overflow_is_a_parse_failure() {
    let e = parse("9223372036854775808").unwrap_err();
    assert_eq!(e, ParseError::new(0, ParseErrorKind::UnknownChar));
    let e = parse("-9223372036854775809").unwrap_err();
    assert_eq!(e.kind(), ParseErrorKind::UnknownChar);
}

#[test]
fn float_literals() {
    assert_eq!(
        parse("1.5").unwrap(),
        Item::Unit(Primitive::Float(FloatLit::Finite {
            neg: false,
            int_digits: b"1".to_vec(),
            frac_digits: b"5".to_vec(),
        }))
    );
    assert_eq!(
        parse("-.25").unwrap(),
        Item::Unit(Primitive::Float(FloatLit::Finite {
            neg: true,
            int_digits: b"0".to_vec(),
            frac_digits: b"25".to_vec(),
        }))
    );
    assert_eq!(
        parse("007.250").unwrap(),
        Item::Unit(Primitive::Float(FloatLit::Finite {
            neg: false,
            int_digits: b"7".to_vec(),
            frac_digits: b"25".to_vec(),
        }))
    );
}

#[test]
fn float_takes_precedence_over_integer() {
    let it = parse("2.5 3.5").unwrap();
    assert_eq!(
        it,
        Item::Vector(
            Ty::Float,
            vec![
                Primitive::Float(FloatLit::Finite {
                    neg: false,
                    int_digits: b"2".to_vec(),
                    frac_digits: b"5".to_vec(),
                }),
                Primitive::Float(FloatLit::Finite {
                    neg: false,
                    int_digits: b"3".to_vec(),
                    frac_digits: b"5".to_vec(),
                }),
            ]
        )
    );
}

#[test]
fn mixed_vector_fails_with_expected_and_found() {
    let e = parse("`a 2 3").unwrap_err();
    assert_eq!(e, ParseError::new(3, ParseErrorKind::Ty(Ty::Symbol, Ty::Int)));
}

#[test]
fn mixed_vector_reports_first_divergent_type() {
    let e = parse("1 2 `x 3.5").unwrap_err();
    assert_eq!(e.kind(), ParseErrorKind::Ty(Ty::Int, Ty::Symbol));
    assert_eq!(e.span(), 4);
}

#[test]
fn mixed_vector_inside_list_fails() {
    let e = parse("(1 2;`a 3)").unwrap_err();
    assert_eq!(e.kind(), ParseErrorKind::Ty(Ty::Symbol, Ty::Int));
}

#[test]
fn empty_parens_are_nil() {
    assert_eq!(parse("()").unwrap(), Item::Nil);
    assert_eq!(parse("(  )").unwrap(), Item::Nil);
}

#[test]
fn one_entry_list_is_a_list() {
    assert_eq!(
        parse("(1)").unwrap(),
        Item::List(vec![Item::Unit(Primitive::Int(Some(1)))])
    );
}

#[test]
fn separators_make_nil_entries() {
    assert_eq!(parse("(;)").unwrap(), Item::List(vec![Item::Nil, Item::Nil]));
    assert_eq!(
        parse("(1;;2)").unwrap(),
        Item::List(vec![
            Item::Unit(Primitive::Int(Some(1))),
            Item::Nil,
            Item::Unit(Primitive::Int(Some(2))),
        ])
    );
    assert_eq!(
        parse("(1 2;)").unwrap(),
        Item::List(vec![
            Item::Vector(Ty::Int, vec![Primitive::Int(Some(1)), Primitive::Int(Some(2))]),
            Item::Nil,
        ])
    );
}

#[test]
fn trailing_suffix_is_unknown_char() {
    assert_eq!(parse("1 2 3%").unwrap_err(), ParseError::new(5, ParseErrorKind::UnknownChar));
    assert_eq!(parse("42x").unwrap_err(), ParseError::new(2, ParseErrorKind::UnknownChar));
    assert_eq!(parse("(1;2) x").unwrap_err(), ParseError::new(6, ParseErrorKind::UnknownChar));
}

#[test]
fn unmatched_delimiter_is_unknown_char() {
    assert_eq!(parse("(1;2").unwrap_err().kind(), ParseErrorKind::UnknownChar);
    assert_eq!(parse("1 2)").unwrap_err().kind(), ParseErrorKind::UnknownChar);
}

#[test]
fn empty_input_is_unknown_char() {
    assert_eq!(parse("").unwrap_err().kind(), ParseErrorKind::UnknownChar);
    assert_eq!(parse("   ").unwrap_err().kind(), ParseErrorKind::UnknownChar);
}

#[test]
fn lone_sign_is_unknown_char() {
    assert_eq!(parse("-").unwrap_err(), ParseError::new(0, ParseErrorKind::UnknownChar));
}

#[test]
fn surrounding_whitespace_is_trimmed() {
    assert_eq!(parse("  42\t\n").unwrap(), Item::Unit(Primitive::Int(Some(42))));
}

#[test]
fn error_messages() {
    let e = parse("`a 2 3").unwrap_err();
    assert_eq!(e.message(), "invalid type: expected 'Symbol', found 'Int'");
    let e = parse("%").unwrap_err();
    assert_eq!(e.message(), "unknown input character");
}
