//! The canonical printer: renders an [`Item`](crate::value::Item) back to
//! the language's literal notation.
//!
//! `render_item` specifies the exact byte sequence for every item: scalars
//! print their primitive's own representation; char vectors print as one
//! double-quoted run; symbol vectors concatenate their symbols; bool
//! vectors concatenate their bits and end with a `b` marker; other vectors
//! separate their elements with spaces; lists wrap their newline-joined
//! entries in parentheses; nil prints nothing.

use vstd::prelude::*;

use crate::value::{FloatLit, FloatLitV, Item, ItemV, Primitive, PrimitiveV, Ty};

verus! {

broadcast use vstd::seq::group_seq_axioms;

/// The decimal digit run of a nonnegative number, most significant first.
pub open spec fn dec_digits(n: nat) -> Seq<u8>
    decreases n,
{
    if n < 10 {
        seq![(48 + n) as u8]
    } else {
        dec_digits(n / 10).push((48 + n % 10) as u8)
    }
}

/// The decimal notation of an integer, with a leading `-` when negative.
pub open spec fn int_dec(v: int) -> Seq<u8> {
    if v < 0 {
        seq![45u8] + dec_digits((-v) as nat)
    } else {
        dec_digits(v as nat)
    }
}

/// The representation of one primitive on its own: a backtick and the name
/// for a symbol, decimal notation or the `0N` sentinel for an integer, the
/// `0n`/`0w` sentinels or the decimal parts for a float, a bare bit for a
/// boolean, and a double-quoted character for a char.
pub open spec fn render_prim(p: PrimitiveV) -> Seq<u8> {
    match p {
        PrimitiveV::Symbol(name) => seq![96u8] + name,
        PrimitiveV::Int(None) => seq![48u8, 78u8],
        PrimitiveV::Int(Some(v)) => int_dec(v as int),
        PrimitiveV::Float(FloatLitV::Nan) => seq![48u8, 110u8],
        PrimitiveV::Float(FloatLitV::Inf) => seq![48u8, 119u8],
        PrimitiveV::Float(FloatLitV::Finite { neg, int_digits, frac_digits }) => (if neg {
            seq![45u8]
        } else {
            Seq::<u8>::empty()
        }) + int_digits + seq![46u8] + frac_digits,
        PrimitiveV::Bool(b) => if b {
            seq![49u8]
        } else {
            seq![48u8]
        },
        PrimitiveV::Char(c) => seq![34u8, c, 34u8],
    }
}

/// The raw character of a char-vector element.
pub open spec fn char_elem(p: PrimitiveV) -> Seq<u8> {
    match p {
        PrimitiveV::Char(c) => seq![c],
        _ => render_prim(p),
    }
}

/// The first `n` elements' own representations, concatenated with no
/// separators.
pub open spec fn concat_prims(ps: Seq<PrimitiveV>, n: int) -> Seq<u8>
    decreases n,
{
    if n <= 0 {
        Seq::empty()
    } else {
        concat_prims(ps, n - 1) + render_prim(ps[n - 1])
    }
}

/// The first `n` elements' raw characters, concatenated with no
/// separators.
pub open spec fn concat_chars(ps: Seq<PrimitiveV>, n: int) -> Seq<u8>
    decreases n,
{
    if n <= 0 {
        Seq::empty()
    } else {
        concat_chars(ps, n - 1) + char_elem(ps[n - 1])
    }
}

/// The first `n` elements' own representations, separated by spaces.
pub open spec fn sep_elems(ps: Seq<PrimitiveV>, n: int) -> Seq<u8>
    decreases n,
{
    if n <= 0 {
        Seq::empty()
    } else if n == 1 {
        render_prim(ps[0])
    } else {
        sep_elems(ps, n - 1) + seq![32u8] + render_prim(ps[n - 1])
    }
}

/// The first `n` entries of a list body, joined by newlines.
pub open spec fn join_items(es: Seq<ItemV>, n: int) -> Seq<u8>
    decreases es, n,
{
    if n <= 0 {
        Seq::empty()
    } else {
        let tail = if 0 < n <= es.len() {
            render_item(es[n - 1])
        } else {
            Seq::empty()
        };
        if n == 1 {
            tail
        } else {
            join_items(es, n - 1) + seq![10u8] + tail
        }
    }
}

/// The canonical notation of an item, as bytes.
pub open spec fn render_item(it: ItemV) -> Seq<u8>
    decreases it,
{
    match it {
        ItemV::Unit(p) => render_prim(p),
        ItemV::Vector(t, ps) => match t {
            Ty::Char => seq![34u8] + concat_chars(ps, ps.len() as int) + seq![34u8],
            Ty::Symbol => concat_prims(ps, ps.len() as int),
            Ty::Bool => concat_prims(ps, ps.len() as int) + seq![98u8],
            _ => sep_elems(ps, ps.len() as int),
        },
        ItemV::List(es) => seq![40u8] + join_items(es, es.len() as int) + seq![41u8],
        ItemV::Nil => Seq::empty(),
    }
}

/// Appends the decimal digits of `n`.
fn push_u64_dec(out: &mut Vec<u8>, n: u64)
    ensures
        final(out)@ == old(out)@ + dec_digits(n as nat),
    decreases n,
{
    if n < 10 {
        out.push(48 + (n as u8));
        proof {
            assert(out@ =~= old(out)@ + dec_digits(n as nat));
        }
    } else {
        push_u64_dec(out, n / 10);
        let d: u8 = (n % 10) as u8;
        out.push(48 + d);
        proof {
            assert(out@ =~= old(out)@ + dec_digits(n as nat));
        }
    }
}

/// Appends the decimal notation of `v`.
fn push_i64_dec(out: &mut Vec<u8>, v: i64)
    ensures
        final(out)@ == old(out)@ + int_dec(v as int),
{
    if v < 0 {
        out.push(45);
        let mag: u64 = if v == i64::MIN {
            9223372036854775808u64
        } else {
            (-v) as u64
        };
        push_u64_dec(out, mag);
        proof {
            assert(mag as nat == (-(v as int)) as nat);
            assert(out@ =~= old(out)@ + int_dec(v as int));
        }
    } else {
        push_u64_dec(out, v as u64);
    }
}

/// Appends every byte of `src`.
#[verifier::loop_isolation(false)]
fn push_all(out: &mut Vec<u8>, src: &Vec<u8>)
    ensures
        final(out)@ == old(out)@ + src@,
{
    let mut idx: usize = 0;
    while idx < src.len()
        invariant
            idx <= src@.len(),
            out@ == old(out)@ + src@.subrange(0, idx as int),
        decreases src@.len() - idx,
    {
        out.push(src[idx]);
        proof {
            assert(out@ =~= old(out)@ + src@.subrange(0, idx + 1));
        }
        idx = idx + 1;
    }
    proof {
        assert(src@.subrange(0, src@.len() as int) =~= src@);
    }
}

/// Appends one primitive's own representation.
fn push_prim(out: &mut Vec<u8>, p: &Primitive)
    ensures
        final(out)@ == old(out)@ + render_prim(p@),
{
    match p {
        Primitive::Symbol(name) => {
            out.push(96);
            push_all(out, name);
            proof {
                assert(out@ =~= old(out)@ + render_prim(p@));
            }
        },
        Primitive::Int(v) => {
            match v {
                None => {
                    out.push(48);
                    out.push(78);
                    proof {
                        assert(out@ =~= old(out)@ + render_prim(p@));
                    }
                },
                Some(x) => {
                    push_i64_dec(out, *x);
                },
            }
        },
        Primitive::Float(f) => {
            match f {
                FloatLit::Nan => {
                    out.push(48);
                    out.push(110);
                    proof {
                        assert(out@ =~= old(out)@ + render_prim(p@));
                    }
                },
                FloatLit::Inf => {
                    out.push(48);
                    out.push(119);
                    proof {
                        assert(out@ =~= old(out)@ + render_prim(p@));
                    }
                },
                FloatLit::Finite { neg, int_digits, frac_digits } => {
                    if *neg {
                        out.push(45);
                    }
                    push_all(out, int_digits);
                    out.push(46);
                    push_all(out, frac_digits);
                    proof {
                        assert(out@ =~= old(out)@ + render_prim(p@));
                    }
                },
            }
        },
        Primitive::Bool(bl) => {
            if *bl {
                out.push(49);
            } else {
                out.push(48);
            }
            proof {
                assert(out@ =~= old(out)@ + render_prim(p@));
            }
        },
        Primitive::Char(c) => {
            out.push(34);
            out.push(*c);
            out.push(34);
            proof {
                assert(out@ =~= old(out)@ + render_prim(p@));
            }
        },
    }
}

/// Appends the canonical notation of `item`.
#[verifier::loop_isolation(false)]
fn push_item(out: &mut Vec<u8>, item: &Item)
    ensures
        final(out)@ == old(out)@ + render_item(item@),
    decreases item,
{
    match item {
        Item::Unit(p) => {
            push_prim(out, p);
        },
        Item::Vector(t, ps) => {
            let ghost vs = crate::value::prims_view_upto(*ps, ps@.len() as int);
            proof {
                crate::value::lemma_prims_view(*ps, ps@.len() as int);
            }
            match t {
                Ty::Char => {
                    out.push(34);
                    let mut idx: usize = 0;
                    while idx < ps.len()
                        invariant
                            idx <= ps@.len(),
                            out@ == old(out)@ + seq![34u8] + concat_chars(vs, idx as int),
                        decreases ps@.len() - idx,
                    {
                        match &ps[idx] {
                            Primitive::Char(c) => {
                                out.push(*c);
                                proof {
                                    assert(char_elem(vs[idx as int]) =~= seq![ps@[idx as int]@->Char_0]);
                                    assert(out@ =~= old(out)@ + seq![34u8] + concat_chars(
                                        vs,
                                        idx + 1,
                                    ));
                                }
                            },
                            _ => {
                                push_prim(out, &ps[idx]);
                                proof {
                                    assert(out@ =~= old(out)@ + seq![34u8] + concat_chars(
                                        vs,
                                        idx + 1,
                                    ));
                                }
                            },
                        }
                        idx = idx + 1;
                    }
                    out.push(34);
                    proof {
                        assert(out@ =~= old(out)@ + render_item(item@));
                    }
                },
                Ty::Symbol => {
                    let mut idx: usize = 0;
                    while idx < ps.len()
                        invariant
                            idx <= ps@.len(),
                            out@ == old(out)@ + concat_prims(vs, idx as int),
                        decreases ps@.len() - idx,
                    {
                        push_prim(out, &ps[idx]);
                        proof {
                            assert(out@ =~= old(out)@ + concat_prims(vs, idx + 1));
                        }
                        idx = idx + 1;
                    }
                    proof {
                        assert(out@ =~= old(out)@ + render_item(item@));
                    }
                },
                Ty::Bool => {
                    let mut idx: usize = 0;
                    while idx < ps.len()
                        invariant
                            idx <= ps@.len(),
                            out@ == old(out)@ + concat_prims(vs, idx as int),
                        decreases ps@.len() - idx,
                    {
                        push_prim(out, &ps[idx]);
                        proof {
                            assert(out@ =~= old(out)@ + concat_prims(vs, idx + 1));
                        }
                        idx = idx + 1;
                    }
                    out.push(98);
                    proof {
                        assert(out@ =~= old(out)@ + render_item(item@));
                    }
                },
                _ => {
                    let mut idx: usize = 0;
                    while idx < ps.len()
                        invariant
                            idx <= ps@.len(),
                            out@ == old(out)@ + sep_elems(vs, idx as int),
                        decreases ps@.len() - idx,
                    {
                        if idx > 0 {
                            out.push(32);
                        }
                        push_prim(out, &ps[idx]);
                        proof {
                            assert(out@ =~= old(out)@ + sep_elems(vs, idx + 1));
                        }
                        idx = idx + 1;
                    }
                    proof {
                        assert(out@ =~= old(out)@ + render_item(item@));
                    }
                },
            }
        },
        Item::List(es) => {
            let ghost esv = crate::value::items_view_upto(*es, es@.len() as int);
            proof {
                crate::value::lemma_items_view(*es, es@.len() as int);
            }
            out.push(40);
            let mut idx: usize = 0;
            while idx < es.len()
                invariant
                    idx <= es@.len(),
                    out@ == old(out)@ + seq![40u8] + join_items(esv, idx as int),
                decreases es@.len() - idx,
            {
                if idx > 0 {
                    out.push(10);
                }
                proof {
                    assert(decreases_to!(*item => (*item)->List_0));
                    assert(decreases_to!((*item)->List_0 => (*item)->List_0@));
                    assert(decreases_to!((*item)->List_0@ => (*item)->List_0@[idx as int]));
                    assert(decreases_to!(*item => es@[idx as int]));
                }
                push_item(out, &es[idx]);
                proof {
                    assert(out@ =~= old(out)@ + seq![40u8] + join_items(esv, idx + 1));
                }
                idx = idx + 1;
            }
            out.push(41);
            proof {
                assert(out@ =~= old(out)@ + render_item(item@));
            }
        },
        Item::Nil => {
            proof {
                assert(out@ =~= old(out)@ + render_item(item@));
            }
        },
    }
}

/// The characters of a byte sequence, one character per byte.
pub open spec fn chars_of_bytes(bs: Seq<u8>) -> Seq<char>
    decreases bs.len(),
{
    if bs.len() == 0 {
        Seq::empty()
    } else {
        chars_of_bytes(bs.drop_last()).push(bs[bs.len() - 1] as char)
    }
}

/// A byte sequence's characters, read off byte by byte.
pub proof fn lemma_chars_of_bytes(bs: Seq<u8>)
    ensures
        chars_of_bytes(bs).len() == bs.len(),
        forall|i: int| 0 <= i < bs.len() ==> chars_of_bytes(bs)[i] == #[trigger] bs[i] as char,
    decreases bs.len(),
{
    if bs.len() > 0 {
        lemma_chars_of_bytes(bs.drop_last());
        assert forall|i: int| 0 <= i < bs.len() implies chars_of_bytes(bs)[i] == #[trigger] bs[i]
            as char by {
            if i < bs.len() - 1 {
                assert(bs.drop_last()[i] == bs[i]);
                assert(chars_of_bytes(bs.drop_last())[i] == bs.drop_last()[i] as char);
            }
        }
    }
}

/// Relies on std `String::push`: appends the given character to the end of
/// the string.
#[verifier::external_body]
fn push_char(s: &mut String, c: char)
    ensures
        final(s)@ == old(s)@ + seq![c],
{
    s.push(c);
}

/// Renders an item to its canonical notation, as bytes.
pub fn render_bytes(item: &Item) -> (r: Vec<u8>)
    ensures
        r@ == render_item(item@),
{
    let mut out: Vec<u8> = Vec::new();
    push_item(&mut out, item);
    proof {
        assert(out@ =~= render_item(item@));
    }
    out
}

/// Renders an item to its canonical notation.
#[verifier::loop_isolation(false)]
pub fn render(item: &Item) -> (r: String)
    ensures
        r@ == chars_of_bytes(render_item(item@)),
{
    let bytes = render_bytes(item);
    let mut r = String::new();
    let mut idx: usize = 0;
    while idx < bytes.len()
        invariant
            idx <= bytes@.len(),
            r@ == chars_of_bytes(bytes@.subrange(0, idx as int)),
        decreases bytes@.len() - idx,
    {
        push_char(&mut r, bytes[idx] as char);
        proof {
            assert(bytes@.subrange(0, idx + 1).drop_last() =~= bytes@.subrange(0, idx as int));
            assert(r@ =~= chars_of_bytes(bytes@.subrange(0, idx + 1)));
        }
        idx = idx + 1;
    }
    proof {
        assert(bytes@.subrange(0, bytes@.len() as int) =~= bytes@);
    }
    r
}

} // verus!
