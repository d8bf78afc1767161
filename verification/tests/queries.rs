use krusti::parser::parse;
use krusti::value::{FloatLit, Item, Primitive, Ty};

#[test]
fn it_works() {
}

#[test]
fn nil_has_len_and_depth_zero() {
    let it = parse("()").unwrap();
    assert_eq!(it, Item::Nil);
    assert_eq!(it.len(), 0);
    assert_eq!(it.depth(), 0);
}

#[test]
fn unit_has_len_one_and_depth_zero() {
    let it = parse("42").unwrap();
    assert_eq!(it.len(), 1);
    assert_eq!(it.depth(), 0);
}

#[test]
fn vector_len_is_element_count() {
    assert_eq!(parse("1 2 3").unwrap().len(), 3);
    assert_eq!(parse("`a `b `c").unwrap().len(), 3);
    assert_eq!(parse("1 2 3").unwrap().depth(), 1);
}

#[test]
fn list_len_is_entry_count() {
    let it = parse("(1 2;`a;)").unwrap();
    assert_eq!(it.len(), 3);
    assert_eq!(parse("(;)").unwrap().len(), 2);
}

#[test]
fn list_depth_is_one_past_deepest_entry() {
    // entries: a vector (depth 1) and a unit (depth 0)
    assert_eq!(parse("(1 2;3)").unwrap().depth(), 2);
    // entries: nil and nil, both depth 0
    assert_eq!(parse("(;)").unwrap().depth(), 1);
    // hand-built nesting: a list inside a list
    let inner = Item::List(vec![Item::Unit(Primitive::Int(Some(1)))]);
    let outer = Item::List(vec![inner, Item::Nil]);
    assert_eq!(outer.depth(), 2);
}

#[test]
fn empty_vector_and_list_depths() {
    // only constructible by hand; the parser never produces them
    assert_eq!(Item::Vector(Ty::Int, Vec::new()).depth(), 0);
    assert_eq!(Item::Vector(Ty::Int, Vec::new()).len(), 0);
    assert_eq!(Item::List(Vec::new()).depth(), 0);
    assert_eq!(Item::List(Vec::new()).len(), 0);
}

// The semantically consistent type mapping: a boolean reports Bool and a
// character reports Char.
#[test]
fn ty_mapping_is_consistent() {
    assert_eq!(Primitive::Bool(true).ty(), Ty::Bool);
    assert_eq!(Primitive::Char(b'x').ty(), Ty::Char);
    assert_eq!(Primitive::Symbol(Vec::new()).ty(), Ty::Symbol);
    assert_eq!(Primitive::Int(None).ty(), Ty::Int);
    assert_eq!(Primitive::Float(FloatLit::Nan).ty(), Ty::Float);
}
