//! The value model: semantic type tags, atomic primitives, and composite
//! items (scalar units, homogeneous vectors, lists, and the nil value),
//! together with their length and depth queries.

use vstd::prelude::*;

verus! {

broadcast use vstd::seq::group_seq_axioms, vstd::std_specs::vec::axiom_vec_index_decreases;

/// Semantic kind of a value, used to tag vectors, to check vector
/// homogeneity, and to name types in error messages.
#[derive(Clone, Copy, Debug, PartialEq, Eq, Structural)]
pub enum Ty {
    Symbol,
    Int,
    Float,
    Bool,
    Char,
    List,
    Unknown,
}

/// A finite float literal, kept as its decimal parts: sign, integer digits,
/// and fraction digits (ASCII digit bytes, normalized).
#[derive(Clone, Debug, PartialEq, Eq)]
pub enum FloatLit {
    /// The not-a-number sentinel, written `0n`.
    Nan,
    /// The infinity sentinel, written `0w` (sign is not tracked).
    Inf,
    /// An ordinary decimal value.
    Finite { neg: bool, int_digits: Vec<u8>, frac_digits: Vec<u8> },
}

/// An atomic scalar value.
#[derive(Clone, Debug, PartialEq, Eq)]
pub enum Primitive {
    /// A symbol, written with a leading backtick; the name may be empty.
    Symbol(Vec<u8>),
    /// A 64-bit integer, or `None` for the integer null sentinel `0N`.
    Int(Option<i64>),
    /// A float literal.
    Float(FloatLit),
    /// A boolean.
    Bool(bool),
    /// A character (an ASCII code point).
    Char(u8),
}

/// A composite value: a scalar, a homogeneous vector, a list, or nil.
#[derive(Debug, PartialEq, Eq)]
pub enum Item {
    /// A scalar.
    Unit(Primitive),
    /// A type-homogeneous run of primitives, tagged with their shared type.
    Vector(Ty, Vec<Primitive>),
    /// An ordered, possibly heterogeneous sequence of items.
    List(Vec<Item>),
    /// The explicit absence value, distinct from an empty list.
    Nil,
}

/// Mathematical model of a [`FloatLit`].
pub enum FloatLitV {
    Nan,
    Inf,
    Finite { neg: bool, int_digits: Seq<u8>, frac_digits: Seq<u8> },
}

/// Mathematical model of a [`Primitive`].
pub enum PrimitiveV {
    Symbol(Seq<u8>),
    Int(Option<i64>),
    Float(FloatLitV),
    Bool(bool),
    Char(u8),
}

/// Mathematical model of an [`Item`].
pub enum ItemV {
    Unit(PrimitiveV),
    Vector(Ty, Seq<PrimitiveV>),
    List(Seq<ItemV>),
    Nil,
}

/// The semantic type of a primitive value.
pub open spec fn ty_of(p: PrimitiveV) -> Ty {
    match p {
        PrimitiveV::Symbol(_) => Ty::Symbol,
        PrimitiveV::Int(_) => Ty::Int,
        PrimitiveV::Float(_) => Ty::Float,
        PrimitiveV::Bool(_) => Ty::Bool,
        PrimitiveV::Char(_) => Ty::Char,
    }
}

/// A well-formed run of decimal digits: nonempty, ASCII `'0'..='9'`.
pub open spec fn digits_wf(ds: Seq<u8>) -> bool {
    &&& ds.len() >= 1
    &&& forall|i: int| 0 <= i < ds.len() ==> 48 <= #[trigger] ds[i] <= 57
}

/// Well-formedness of a float literal: its digit runs are normalized decimal
/// digits (no redundant leading zero in the integer part, no redundant
/// trailing zero in the fraction).
pub open spec fn float_wf(f: FloatLitV) -> bool {
    match f {
        FloatLitV::Nan => true,
        FloatLitV::Inf => true,
        FloatLitV::Finite { neg, int_digits, frac_digits } => {
            &&& digits_wf(int_digits)
            &&& digits_wf(frac_digits)
            &&& (int_digits.len() > 1 ==> int_digits[0] != 48)
            &&& (frac_digits.len() > 1 ==> frac_digits[frac_digits.len() - 1] != 48)
        },
    }
}

/// Well-formedness of a primitive: symbol names and characters are ASCII,
/// float literals are normalized.
pub open spec fn prim_wf(p: PrimitiveV) -> bool {
    match p {
        PrimitiveV::Symbol(name) => forall|i: int| 0 <= i < name.len() ==> #[trigger] name[i] < 128,
        PrimitiveV::Int(_) => true,
        PrimitiveV::Float(f) => float_wf(f),
        PrimitiveV::Bool(_) => true,
        PrimitiveV::Char(c) => c < 128,
    }
}

/// Well-formedness of the first `n` entries of a list body.
pub open spec fn list_wf_upto(es: Seq<ItemV>, n: int) -> bool
    decreases es, n,
{
    n <= 0 || {
        let ok = if 0 < n <= es.len() {
            item_wf(es[n - 1])
        } else {
            true
        };
        ok && list_wf_upto(es, n - 1)
    }
}

/// Well-formedness of an item: every primitive in it is well formed, and a
/// vector's elements all carry the vector's type tag.
pub open spec fn item_wf(it: ItemV) -> bool
    decreases it,
{
    match it {
        ItemV::Unit(p) => prim_wf(p),
        ItemV::Vector(t, ps) => forall|i: int|
            0 <= i < ps.len() ==> prim_wf(#[trigger] ps[i]) && ty_of(ps[i]) == t,
        ItemV::List(es) => list_wf_upto(es, es.len() as int),
        ItemV::Nil => true,
    }
}

/// Collapsed-ness of the first `n` entries of a list body.
pub open spec fn list_collapsed_upto(es: Seq<ItemV>, n: int) -> bool
    decreases es, n,
{
    n <= 0 || {
        let ok = if 0 < n <= es.len() {
            collapsed(es[n - 1])
        } else {
            true
        };
        ok && list_collapsed_upto(es, n - 1)
    }
}

/// No vector anywhere in the item holds fewer than two elements: a
/// single-element run always stands as a scalar unit instead.
pub open spec fn collapsed(it: ItemV) -> bool
    decreases it,
{
    match it {
        ItemV::Unit(_) => true,
        ItemV::Vector(_, ps) => ps.len() >= 2,
        ItemV::List(es) => list_collapsed_upto(es, es.len() as int),
        ItemV::Nil => true,
    }
}

/// A list body is collapsed exactly when each of its entries is.
pub proof fn lemma_list_collapsed_pointwise(es: Seq<ItemV>, n: int)
    requires
        n <= es.len(),
    ensures
        list_collapsed_upto(es, n) <==> (forall|i: int| 0 <= i < n ==> collapsed(#[trigger] es[i])),
    decreases n,
{
    if n > 0 {
        lemma_list_collapsed_pointwise(es, n - 1);
    }
}

/// A list body is well formed exactly when each of its entries is.
pub proof fn lemma_list_wf_pointwise(es: Seq<ItemV>, n: int)
    requires
        n <= es.len(),
    ensures
        list_wf_upto(es, n) <==> (forall|i: int| 0 <= i < n ==> item_wf(#[trigger] es[i])),
    decreases n,
{
    if n > 0 {
        lemma_list_wf_pointwise(es, n - 1);
    }
}

/// The number of elements an item directly holds: 1 for a scalar, the
/// element count for a vector or list, 0 for nil.
pub open spec fn len_of(it: ItemV) -> nat {
    match it {
        ItemV::Unit(_) => 1,
        ItemV::Vector(_, ps) => ps.len(),
        ItemV::List(es) => es.len(),
        ItemV::Nil => 0,
    }
}

/// The greatest depth among the first `n` entries of a list body.
pub open spec fn max_depth_upto(es: Seq<ItemV>, n: int) -> nat
    decreases es, n,
{
    if n <= 0 {
        0
    } else {
        let d = if 0 < n <= es.len() {
            depth_of(es[n - 1])
        } else {
            0
        };
        let rest = max_depth_upto(es, n - 1);
        if d > rest {
            d
        } else {
            rest
        }
    }
}

/// Nesting depth: scalars and nil are flat, a nonempty vector has depth 1,
/// and a nonempty list is one deeper than its deepest entry.
pub open spec fn depth_of(it: ItemV) -> nat
    decreases it,
{
    match it {
        ItemV::Unit(_) => 0,
        ItemV::Vector(_, ps) => if ps.len() == 0 {
            0
        } else {
            1
        },
        ItemV::List(es) => if es.len() == 0 {
            0
        } else {
            1 + max_depth_upto(es, es.len() as int)
        },
        ItemV::Nil => 0,
    }
}

/// A bound that holds of each entry of a prefix bounds the prefix's
/// maximum depth.
pub proof fn lemma_max_depth_bounded(es: Seq<ItemV>, n: int, d: nat)
    requires
        n <= es.len(),
        forall|i: int| 0 <= i < n ==> depth_of(#[trigger] es[i]) <= d,
    ensures
        max_depth_upto(es, n) <= d,
    decreases n,
{
    if n > 0 {
        lemma_max_depth_bounded(es, n - 1, d);
    }
}

/// The maximum over a prefix of a list body dominates each entry of the
/// prefix.
pub proof fn lemma_max_depth_ge(es: Seq<ItemV>, n: int, i: int)
    requires
        0 <= i < n <= es.len(),
    ensures
        max_depth_upto(es, n) >= depth_of(es[i]),
    decreases n,
{
    if i < n - 1 {
        lemma_max_depth_ge(es, n - 1, i);
    }
}

/// Among a nonempty prefix of a list body, the maximum depth is attained by
/// some entry.
pub proof fn lemma_max_depth_attained(es: Seq<ItemV>, n: int)
    requires
        0 < n <= es.len(),
    ensures
        exists|i: int| 0 <= i < n && max_depth_upto(es, n) == depth_of(#[trigger] es[i]),
    decreases n,
{
    if n == 1 {
        assert(max_depth_upto(es, 1) == depth_of(es[0])) by {
            reveal_with_fuel(max_depth_upto, 2);
        }
    } else {
        lemma_max_depth_attained(es, n - 1);
        if depth_of(es[n - 1]) > max_depth_upto(es, n - 1) {
            assert(max_depth_upto(es, n) == depth_of(es[n - 1]));
        } else {
            let j = choose|i: int| 0 <= i < n - 1 && max_depth_upto(es, n - 1) == depth_of(
                #[trigger] es[i],
            );
            assert(max_depth_upto(es, n) == depth_of(es[j]));
        }
    }
}

/// The length and depth laws: a scalar has length 1 and depth 0; nil has
/// length 0 and depth 0; a vector's or list's length is its element count; a
/// nonempty vector has depth 1; and a nonempty list is exactly one deeper
/// than its deepest entry.
pub proof fn lemma_len_depth_laws(it: ItemV)
    ensures
        it is Unit ==> len_of(it) == 1 && depth_of(it) == 0,
        it is Nil ==> len_of(it) == 0 && depth_of(it) == 0,
        (it matches ItemV::Vector(t, ps) ==> len_of(it) == ps.len()),
        (it matches ItemV::Vector(t, ps) ==> depth_of(it) == if ps.len() == 0 {
            0int
        } else {
            1int
        }),
        (it matches ItemV::List(es) ==> len_of(it) == es.len()),
        (it matches ItemV::List(es) ==> (es.len() == 0 ==> depth_of(it) == 0)),
        (it matches ItemV::List(es) ==> (es.len() > 0 ==> forall|i: int|
            0 <= i < es.len() ==> depth_of(it) >= 1 + depth_of(#[trigger] es[i]))),
        (it matches ItemV::List(es) ==> (es.len() > 0 ==> exists|i: int|
            0 <= i < es.len() && depth_of(it) == 1 + depth_of(#[trigger] es[i]))),
{
    match it {
        ItemV::List(es) => {
            if es.len() > 0 {
                assert forall|i: int| 0 <= i < es.len() implies depth_of(it) >= 1 + depth_of(
                    #[trigger] es[i],
                ) by {
                    lemma_max_depth_ge(es, es.len() as int, i);
                }
                lemma_max_depth_attained(es, es.len() as int);
            }
        },
        _ => {},
    }
}

impl View for FloatLit {
    type V = FloatLitV;

    open spec fn view(&self) -> FloatLitV {
        match self {
            FloatLit::Nan => FloatLitV::Nan,
            FloatLit::Inf => FloatLitV::Inf,
            FloatLit::Finite { neg, int_digits, frac_digits } => FloatLitV::Finite {
                neg: *neg,
                int_digits: int_digits@,
                frac_digits: frac_digits@,
            },
        }
    }
}

impl View for Primitive {
    type V = PrimitiveV;

    open spec fn view(&self) -> PrimitiveV {
        match self {
            Primitive::Symbol(name) => PrimitiveV::Symbol(name@),
            Primitive::Int(v) => PrimitiveV::Int(*v),
            Primitive::Float(f) => PrimitiveV::Float(f@),
            Primitive::Bool(b) => PrimitiveV::Bool(*b),
            Primitive::Char(c) => PrimitiveV::Char(*c),
        }
    }
}

/// The models of the first `n` elements of a vector of primitives.
pub open spec fn prims_view_upto(ps: Vec<Primitive>, n: int) -> Seq<PrimitiveV>
    decreases n,
{
    if n <= 0 {
        Seq::empty()
    } else {
        let p = if 0 < n <= ps.len() {
            ps[n - 1]@
        } else {
            PrimitiveV::Bool(false)
        };
        prims_view_upto(ps, n - 1).push(p)
    }
}

/// The models of the first `n` entries of a vector of items.
pub open spec fn items_view_upto(es: Vec<Item>, n: int) -> Seq<ItemV>
    decreases es, n,
{
    if n <= 0 {
        Seq::empty()
    } else {
        let it = if 0 < n <= es.len() {
            item_view(es[n - 1])
        } else {
            ItemV::Nil
        };
        items_view_upto(es, n - 1).push(it)
    }
}

/// The mathematical model of an item.
pub open spec fn item_view(it: Item) -> ItemV
    decreases it,
{
    match it {
        Item::Unit(p) => ItemV::Unit(p@),
        Item::Vector(t, ps) => ItemV::Vector(t, prims_view_upto(ps, ps.len() as int)),
        Item::List(es) => ItemV::List(items_view_upto(es, es.len() as int)),
        Item::Nil => ItemV::Nil,
    }
}

impl View for Item {
    type V = ItemV;

    open spec fn view(&self) -> ItemV {
        item_view(*self)
    }
}

/// The model of a primitive vector has the vector's length, and its entries
/// are the models of the vector's elements.
pub proof fn lemma_prims_view(ps: Vec<Primitive>, n: int)
    requires
        0 <= n <= ps.len(),
    ensures
        prims_view_upto(ps, n).len() == n,
        forall|i: int| 0 <= i < n ==> prims_view_upto(ps, n)[i] == ps[i]@,
    decreases n,
{
    if n > 0 {
        lemma_prims_view(ps, n - 1);
    }
}

/// The model of an item vector has the vector's length, and its entries are
/// the models of the vector's elements.
pub proof fn lemma_items_view(es: Vec<Item>, n: int)
    requires
        0 <= n <= es.len(),
    ensures
        items_view_upto(es, n).len() == n,
        forall|i: int| 0 <= i < n ==> items_view_upto(es, n)[i] == item_view(es[i]),
    decreases n,
{
    if n > 0 {
        lemma_items_view(es, n - 1);
    }
}

impl Primitive {
    /// The semantic type of this primitive.
    pub fn ty(&self) -> (t: Ty)
        ensures
            t == ty_of(self@),
    {
        match self {
            Primitive::Symbol(_) => Ty::Symbol,
            Primitive::Int(_) => Ty::Int,
            Primitive::Float(_) => Ty::Float,
            Primitive::Bool(_) => Ty::Bool,
            Primitive::Char(_) => Ty::Char,
        }
    }
}

impl Item {
    /// Whether this item is well formed.
    pub open spec fn wf(&self) -> bool {
        item_wf(self@)
    }

    /// The number of elements this item directly holds.
    pub fn len(&self) -> (n: usize)
        ensures
            n == len_of(self@),
    {
        match self {
            Item::Unit(_) => 1,
            Item::Vector(_, ps) => {
                proof {
                    lemma_prims_view(*ps, ps@.len() as int);
                }
                ps.len()
            },
            Item::List(es) => {
                proof {
                    lemma_items_view(*es, es@.len() as int);
                }
                es.len()
            },
            Item::Nil => 0,
        }
    }

    /// The nesting depth of this item.
    pub fn depth(&self) -> (n: usize)
        requires
            depth_of(self@) <= usize::MAX,
        ensures
            n == depth_of(self@),
        decreases self,
    {
        match self {
            Item::Unit(_) => 0,
            Item::Vector(_, ps) => if ps.len() == 0 {
                0
            } else {
                1
            },
            Item::List(es) => {
                if es.len() == 0 {
                    0
                } else {
                    let ghost vs = items_view_upto(*es, es@.len() as int);
                    proof {
                        lemma_items_view(*es, es@.len() as int);
                    }
                    assert(self@ == ItemV::List(vs));
                    let mut m: usize = 0;
                    let mut i: usize = 0;
                    while i < es.len()
                        invariant
                            *self == Item::List(*es),
                            i <= es.len(),
                            vs == items_view_upto(*es, es@.len() as int),
                            vs.len() == es@.len(),
                            forall|k: int| 0 <= k < es@.len() ==> vs[k] == item_view(es@[k]),
                            depth_of(ItemV::List(vs)) <= usize::MAX,
                            es@.len() > 0,
                            m == max_depth_upto(vs, i as int),
                        decreases es.len() - i,
                    {
                        proof {
                            lemma_max_depth_ge(vs, vs.len() as int, i as int);
                            assert(decreases_to!(*self => (*self)->List_0));
                            assert(decreases_to!((*self)->List_0 => (*self)->List_0@));
                            assert(decreases_to!((*self)->List_0@ => (*self)->List_0@[i as int]));
                            assert(decreases_to!(*self => es@[i as int]));
                        }
                        let d = es[i].depth();
                        if d > m {
                            m = d;
                        }
                        i = i + 1;
                    }
                    1 + m
                }
            },
            Item::Nil => 0,
        }
    }
}

} // verus!
