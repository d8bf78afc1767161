use krusti::parser::parse;
use krusti::printer::{render, render_bytes};
use krusti::value::{FloatLit, Item, Primitive, Ty};

#[test]
fn null_round_trip() {
    let it = parse("0N").unwrap();
    assert_eq!(render(&it), "0N");
}

#[test]
fn sentinel_round_trips() {
    assert_eq!(render(&parse("0n").unwrap()), "0n");
    assert_eq!(render(&parse("0w").unwrap()), "0w");
}

#[test]
fn symbol_rendering() {
    assert_eq!(render(&parse("`").unwrap()), "`");
    assert_eq!(render(&parse("`abc.d2").unwrap()), "`abc.d2");
    assert_eq!(render(&parse("`a `b `c").unwrap()), "`a`b`c");
}

#[test]
fn integer_rendering() {
    assert_eq!(render(&parse("42").unwrap()), "42");
    assert_eq!(render(&parse("-42").unwrap()), "-42");
    assert_eq!(render(&parse("0").unwrap()), "0");
    assert_eq!(render(&parse("-9223372036854775808").unwrap()), "-9223372036854775808");
    assert_eq!(render(&parse("1 2 3").unwrap()), "1 2 3");
}

#[test]
fn float_rendering() {
    assert_eq!(render(&parse("1.5").unwrap()), "1.5");
    assert_eq!(render(&parse("1.50").unwrap()), "1.5");
    assert_eq!(render(&parse(".5").unwrap()), "0.5");
    assert_eq!(render(&parse("-2.0").unwrap()), "-2.0");
    assert_eq!(render(&parse("0N 5").unwrap()), "0N 5");
}

#[test]
fn bool_vector_rendering() {
    let it = Item::Vector(
        Ty::Bool,
        vec![Primitive::Bool(true), Primitive::Bool(false), Primitive::Bool(true)],
    );
    assert_eq!(render(&it), "101b");
    assert_eq!(render(&Item::Unit(Primitive::Bool(true))), "1");
    assert_eq!(render(&Item::Unit(Primitive::Bool(false))), "0");
}

#[test]
fn char_vector_renders_as_string_literal() {
    let it = Item::Vector(Ty::Char, vec![Primitive::Char(b'h'), Primitive::Char(b'i')]);
    assert_eq!(render(&it), "\"hi\"");
    assert_eq!(render(&Item::Unit(Primitive::Char(b'x'))), "\"x\"");
}

#[test]
fn list_rendering() {
    assert_eq!(render(&parse("(1 2;`a)").unwrap()), "(1 2\n`a)");
    assert_eq!(render(&parse("(;)").unwrap()), "(\n)");
    assert_eq!(render(&Item::List(Vec::new())), "()");
}

#[test]
fn nil_renders_as_nothing() {
    assert_eq!(render(&Item::Nil), "");
}

#[test]
fn render_bytes_matches_render() {
    let it = parse("(1 2;`a)").unwrap();
    assert_eq!(render_bytes(&it), render(&it).into_bytes());
}

#[test]
fn rendered_output_reparses() {
    // atoms and vectors round-trip; list notation (newline separators)
    // and nil (empty output) have no re-parseable rendering
    for src in ["0N", "0n", "0w", "`a`b`c", "1 2 3", "-7", "1.5"] {
        let it = parse(src).unwrap();
        let out = render(&it);
        let back = parse(&out).unwrap();
        assert_eq!(back, it);
    }
}

#[test]
fn finite_float_parts_render_in_order() {
    let it = Item::Unit(Primitive::Float(FloatLit::Finite {
        neg: true,
        int_digits: b"12".to_vec(),
        frac_digits: b"034".to_vec(),
    }));
    assert_eq!(render(&it), "-12.034");
}
