//! The literal parser: builds an [`Item`](crate::value::Item) from source
//! text, enforcing the language's homogeneity and null/sentinel rules.
//!
//! The grammar is specified by `parse_spec` and the spec functions under it,
//! which read a byte sequence position by position: a literal is either a
//! parenthesized list of `;`-separated entries or a bare vector of
//! primitives, and a primitive is tried as a symbol, then a float, then an
//! integer. The executable parser is proved to return exactly what
//! `parse_spec` says for every input.

use vstd::prelude::*;
use vstd::string::StrSliceExecFns;
use vstd::string::StringExecFns;
use vstd::string::StringSliceAdditionalSpecFns;

use crate::value::{
    FloatLit, FloatLitV, Item, ItemV, Primitive, PrimitiveV, Ty, collapsed, digits_wf, item_wf,
    lemma_list_collapsed_pointwise, lemma_list_wf_pointwise, prim_wf, ty_of,
};

verus! {

broadcast use vstd::seq::group_seq_axioms;

/// Why a parse failed.
#[derive(Clone, Copy, Debug, PartialEq, Eq, Structural)]
pub enum ParseErrorKind {
    /// A vector literal mixed two types: the expected tag and the type of
    /// the first divergent element.
    Ty(Ty, Ty),
    /// An unparseable token, an unmatched delimiter, or trailing input.
    UnknownChar,
}

/// A parse error: its kind, and the byte offset where parsing stopped.
#[derive(Clone, Copy, Debug, PartialEq, Eq, Structural)]
pub struct ParseError {
    pub span: usize,
    pub kind: ParseErrorKind,
}

/// Mathematical model of a [`ParseError`].
pub struct ParseErrorV {
    pub span: int,
    pub kind: ParseErrorKind,
}

impl View for ParseError {
    type V = ParseErrorV;

    open spec fn view(&self) -> ParseErrorV {
        ParseErrorV { span: self.span as int, kind: self.kind }
    }
}

impl ParseError {
    /// Builds a parse error from its byte offset and kind.
    pub fn new(span: usize, kind: ParseErrorKind) -> (e: ParseError)
        ensures
            e@ == (ParseErrorV { span: span as int, kind }),
    {
        ParseError { span, kind }
    }

    /// The byte offset at which parsing stopped.
    pub fn span(&self) -> (s: usize)
        ensures
            s == self@.span,
    {
        self.span
    }

    /// The kind of failure.
    pub fn kind(&self) -> (k: ParseErrorKind)
        ensures
            k == self@.kind,
    {
        self.kind
    }
}

/// An unknown-character error at byte offset `i`.
pub open spec fn unknown_at(i: int) -> ParseErrorV {
    ParseErrorV { span: i, kind: ParseErrorKind::UnknownChar }
}

/// A type-mismatch error at byte offset `i`.
pub open spec fn ty_err_at(i: int, expected: Ty, found: Ty) -> ParseErrorV {
    ParseErrorV { span: i, kind: ParseErrorKind::Ty(expected, found) }
}

/// Whitespace: space, tab, line feed, carriage return.
pub open spec fn is_ws(b: u8) -> bool {
    b == 32 || b == 9 || b == 10 || b == 13
}

/// An ASCII decimal digit.
pub open spec fn is_digit(b: u8) -> bool {
    48 <= b <= 57
}

/// An ASCII letter.
pub open spec fn is_alpha(b: u8) -> bool {
    (65 <= b <= 90) || (97 <= b <= 122)
}

/// A byte that may begin a symbol's name: a letter or `.`.
pub open spec fn is_name_start(b: u8) -> bool {
    is_alpha(b) || b == 46
}

/// A byte that may continue a symbol's name: a letter, a digit, or `.`.
pub open spec fn is_name_char(b: u8) -> bool {
    is_alpha(b) || is_digit(b) || b == 46
}

/// The first position at or after `i` that does not hold whitespace.
pub open spec fn skip_ws(s: Seq<u8>, i: int) -> int
    decreases s.len() - i,
{
    if i < s.len() && is_ws(s[i]) {
        skip_ws(s, i + 1)
    } else {
        i
    }
}

/// The first position at or after `i` that does not hold a name byte.
pub open spec fn scan_name(s: Seq<u8>, i: int) -> int
    decreases s.len() - i,
{
    if i < s.len() && is_name_char(s[i]) {
        scan_name(s, i + 1)
    } else {
        i
    }
}

/// The first position at or after `i` that does not hold a digit.
pub open spec fn scan_digits(s: Seq<u8>, i: int) -> int
    decreases s.len() - i,
{
    if i < s.len() && is_digit(s[i]) {
        scan_digits(s, i + 1)
    } else {
        i
    }
}

/// The digit run `ds` with redundant leading `'0'` bytes removed.
pub open spec fn strip_leading_zeros(ds: Seq<u8>) -> Seq<u8>
    decreases ds.len(),
{
    if ds.len() > 0 && ds[0] == 48 {
        strip_leading_zeros(ds.drop_first())
    } else {
        ds
    }
}

/// The digit run `ds` with redundant trailing `'0'` bytes removed.
pub open spec fn strip_trailing_zeros(ds: Seq<u8>) -> Seq<u8>
    decreases ds.len(),
{
    if ds.len() > 0 && ds[ds.len() - 1] == 48 {
        strip_trailing_zeros(ds.drop_last())
    } else {
        ds
    }
}

/// A normalized integer part: leading zeros dropped, `"0"` if none remain.
pub open spec fn norm_int_digits(ds: Seq<u8>) -> Seq<u8> {
    let t = strip_leading_zeros(ds);
    if t.len() == 0 {
        seq![48u8]
    } else {
        t
    }
}

/// A normalized fraction part: trailing zeros dropped, `"0"` if none remain.
pub open spec fn norm_frac_digits(ds: Seq<u8>) -> Seq<u8> {
    let t = strip_trailing_zeros(ds);
    if t.len() == 0 {
        seq![48u8]
    } else {
        t
    }
}

/// The value of the digit run `s[j..k)` read as a decimal number.
pub open spec fn dec_val(s: Seq<u8>, j: int, k: int) -> int
    decreases k - j,
{
    if k <= j {
        0
    } else {
        dec_val(s, j, k - 1) * 10 + (s[k - 1] - 48)
    }
}

/// A symbol token at position `i`: a backtick, optionally followed by a
/// name whose first byte is a letter or `.`.
pub open spec fn sym_token(s: Seq<u8>, i: int) -> Option<(PrimitiveV, int)> {
    if 0 <= i < s.len() && s[i] == 96 {
        if i + 1 < s.len() && is_name_start(s[i + 1]) {
            let j = scan_name(s, i + 1);
            Some((PrimitiveV::Symbol(s.subrange(i + 1, j)), j))
        } else {
            Some((PrimitiveV::Symbol(Seq::empty()), i + 1))
        }
    } else {
        None
    }
}

/// A float token at position `i`: the NaN sentinel `0n`, the infinity
/// sentinel `0w`, or a decimal with a literal point and at least one
/// fraction digit.
pub open spec fn float_token(s: Seq<u8>, i: int) -> Option<(PrimitiveV, int)> {
    if !(0 <= i < s.len()) {
        None
    } else if s[i] == 48 && i + 1 < s.len() && s[i + 1] == 110 {
        Some((PrimitiveV::Float(FloatLitV::Nan), i + 2))
    } else if s[i] == 48 && i + 1 < s.len() && s[i + 1] == 119 {
        Some((PrimitiveV::Float(FloatLitV::Inf), i + 2))
    } else {
        let neg = s[i] == 45;
        let j = if neg {
            i + 1
        } else {
            i
        };
        let k = scan_digits(s, j);
        if k < s.len() && s[k] == 46 && k + 1 < s.len() && is_digit(s[k + 1]) {
            let m = scan_digits(s, k + 1);
            Some(
                (
                    PrimitiveV::Float(
                        FloatLitV::Finite {
                            neg,
                            int_digits: norm_int_digits(s.subrange(j, k)),
                            frac_digits: norm_frac_digits(s.subrange(k + 1, m)),
                        },
                    ),
                    m,
                ),
            )
        } else {
            None
        }
    }
}

/// An integer token at position `i`: the null sentinel `0N`, or an optional
/// minus sign and a digit run whose value fits a 64-bit signed integer.
pub open spec fn int_token(s: Seq<u8>, i: int) -> Option<(PrimitiveV, int)> {
    if !(0 <= i < s.len()) {
        None
    } else if s[i] == 48 && i + 1 < s.len() && s[i + 1] == 78 {
        Some((PrimitiveV::Int(None), i + 2))
    } else {
        let neg = s[i] == 45;
        let j = if neg {
            i + 1
        } else {
            i
        };
        let k = scan_digits(s, j);
        if k == j {
            None
        } else {
            let v = if neg {
                -dec_val(s, j, k)
            } else {
                dec_val(s, j, k)
            };
            if i64::MIN <= v <= i64::MAX {
                Some((PrimitiveV::Int(Some(v as i64)), k))
            } else {
                None
            }
        }
    }
}

/// A primitive token at position `i`, tried as a symbol, then a float, then
/// an integer.
pub open spec fn prim_token(s: Seq<u8>, i: int) -> Option<(PrimitiveV, int)> {
    if sym_token(s, i) is Some {
        sym_token(s, i)
    } else if float_token(s, i) is Some {
        float_token(s, i)
    } else {
        int_token(s, i)
    }
}

/// Bounds of the whitespace scan: it stays within the input, stops at a
/// non-whitespace byte, and skips only whitespace.
pub proof fn lemma_skip_ws(s: Seq<u8>, i: int)
    requires
        0 <= i <= s.len(),
    ensures
        i <= skip_ws(s, i) <= s.len(),
        skip_ws(s, i) < s.len() ==> !is_ws(s[skip_ws(s, i)]),
        forall|m: int| i <= m < skip_ws(s, i) ==> is_ws(#[trigger] s[m]),
    decreases s.len() - i,
{
    if i < s.len() && is_ws(s[i]) {
        lemma_skip_ws(s, i + 1);
    }
}

/// Bounds of the name scan: it stays within the input, stops at a non-name
/// byte, and passes only name bytes.
pub proof fn lemma_scan_name(s: Seq<u8>, i: int)
    requires
        0 <= i <= s.len(),
    ensures
        i <= scan_name(s, i) <= s.len(),
        scan_name(s, i) < s.len() ==> !is_name_char(s[scan_name(s, i)]),
        forall|m: int| i <= m < scan_name(s, i) ==> is_name_char(#[trigger] s[m]),
    decreases s.len() - i,
{
    if i < s.len() && is_name_char(s[i]) {
        lemma_scan_name(s, i + 1);
    }
}

/// Bounds of the digit scan: it stays within the input, stops at a
/// non-digit byte, and passes only digits.
pub proof fn lemma_scan_digits(s: Seq<u8>, i: int)
    requires
        0 <= i <= s.len(),
    ensures
        i <= scan_digits(s, i) <= s.len(),
        scan_digits(s, i) < s.len() ==> !is_digit(s[scan_digits(s, i)]),
        forall|m: int| i <= m < scan_digits(s, i) ==> is_digit(#[trigger] s[m]),
    decreases s.len() - i,
{
    if i < s.len() && is_digit(s[i]) {
        lemma_scan_digits(s, i + 1);
    }
}

/// A primitive token consumes at least one byte and stays within the input.
pub proof fn lemma_prim_token_bounds(s: Seq<u8>, i: int)
    requires
        0 <= i <= s.len(),
    ensures
        prim_token(s, i) matches Some(pk) ==> i < pk.1 <= s.len(),
        sym_token(s, i) matches Some(pk) ==> i < pk.1 <= s.len(),
        float_token(s, i) matches Some(pk) ==> i < pk.1 <= s.len(),
        int_token(s, i) matches Some(pk) ==> i < pk.1 <= s.len(),
{
    if i < s.len() {
        if i + 1 < s.len() && is_name_start(s[i + 1]) {
            lemma_scan_name(s, i + 1);
        }
        let neg = s[i] == 45;
        let j = if neg {
            i + 1
        } else {
            i
        };
        if j <= s.len() {
            lemma_scan_digits(s, j);
            let k = scan_digits(s, j);
            if k + 1 <= s.len() {
                lemma_scan_digits(s, k + 1);
            }
        }
    }
}

/// Tokens of a bare vector from position `i`: each primitive paired with
/// the position where its token started, and the position where scanning
/// stopped (the first non-whitespace position that starts no token, or the
/// end of the input).
pub open spec fn prims_from(s: Seq<u8>, i: int) -> (Seq<(PrimitiveV, int)>, int)
    decreases s.len() - i,
    when 0 <= i <= s.len()
    via prims_from_decreases
{
    let j = skip_ws(s, i);
    match prim_token(s, j) {
        None => (Seq::empty(), j),
        Some((p, k)) => {
            let (rest, e) = prims_from(s, k);
            (seq![(p, j)] + rest, e)
        },
    }
}

#[via_fn]
proof fn prims_from_decreases(s: Seq<u8>, i: int) {
    lemma_skip_ws(s, i);
    lemma_prim_token_bounds(s, skip_ws(s, i));
}

/// The token scan stays within the input and advances when it finds at
/// least one token.
pub proof fn lemma_prims_from_bounds(s: Seq<u8>, i: int)
    requires
        0 <= i <= s.len(),
    ensures
        i <= prims_from(s, i).1 <= s.len(),
        prims_from(s, i).0.len() > 0 ==> i < prims_from(s, i).1,
    decreases s.len() - i,
{
    lemma_skip_ws(s, i);
    let j = skip_ws(s, i);
    lemma_prim_token_bounds(s, j);
    match prim_token(s, j) {
        None => {},
        Some((p, k)) => {
            lemma_prims_from_bounds(s, k);
        },
    }
}

/// The index of the first entry at or after `i` whose primitive's type
/// differs from `t`, or the sequence's length if none does.
pub open spec fn first_divergent(ps: Seq<(PrimitiveV, int)>, t: Ty, i: int) -> int
    decreases ps.len() - i,
{
    if i >= ps.len() {
        ps.len() as int
    } else if ty_of(ps[i].0) != t {
        i
    } else {
        first_divergent(ps, t, i + 1)
    }
}

/// Bounds and meaning of `first_divergent`: entries before it match `t`,
/// and the entry at it (if within bounds) does not.
pub proof fn lemma_first_divergent(ps: Seq<(PrimitiveV, int)>, t: Ty, i: int)
    requires
        0 <= i <= ps.len(),
    ensures
        i <= first_divergent(ps, t, i) <= ps.len(),
        forall|m: int| i <= m < first_divergent(ps, t, i) ==> ty_of(#[trigger] ps[m].0) == t,
        first_divergent(ps, t, i) < ps.len() ==> ty_of(ps[first_divergent(ps, t, i)].0) != t,
    decreases ps.len() - i,
{
    if i < ps.len() && ty_of(ps[i].0) == t {
        lemma_first_divergent(ps, t, i + 1);
    }
}

/// A bare vector literal from position `i`: at least one primitive,
/// separated by optional whitespace; a single primitive collapses to a
/// scalar unit; a divergent type fails with a type-mismatch error carrying
/// the expected tag and the divergent primitive's type.
pub open spec fn parse_vector(s: Seq<u8>, i: int) -> Result<(ItemV, int), ParseErrorV> {
    let (tps, e) = prims_from(s, i);
    if tps.len() == 0 {
        Err(unknown_at(e))
    } else if tps.len() == 1 {
        Ok((ItemV::Unit(tps[0].0), e))
    } else {
        let t = ty_of(tps[0].0);
        let d = first_divergent(tps, t, 1);
        if d < tps.len() {
            Err(ty_err_at(tps[d].1, t, ty_of(tps[d].0)))
        } else {
            Ok((ItemV::Vector(t, tps.map_values(|tp: (PrimitiveV, int)| tp.0)), e))
        }
    }
}

/// A successful bare vector consumes at least one byte and stays within
/// the input.
pub proof fn lemma_parse_vector_bounds(s: Seq<u8>, i: int)
    requires
        0 <= i <= s.len(),
    ensures
        parse_vector(s, i) matches Ok(ik) ==> i < ik.1 <= s.len(),
{
    lemma_prims_from_bounds(s, i);
}

/// The entries of a list body from position `i` (just after `(` or `;`) to
/// the closing `)`: an empty region contributes a nil entry, any other
/// region is a bare vector.
pub open spec fn list_rest(s: Seq<u8>, i: int) -> Result<(Seq<ItemV>, int), ParseErrorV>
    decreases s.len() - i,
    when 0 <= i <= s.len()
    via list_rest_decreases
{
    let j = skip_ws(s, i);
    if j == s.len() {
        Err(unknown_at(j))
    } else if s[j] == 41 {
        Ok((seq![ItemV::Nil], j + 1))
    } else if s[j] == 59 {
        match list_rest(s, j + 1) {
            Ok((rest, e)) => Ok((seq![ItemV::Nil] + rest, e)),
            Err(e) => Err(e),
        }
    } else {
        match parse_vector(s, j) {
            Err(e) => Err(e),
            Ok((it, k)) => {
                let j2 = skip_ws(s, k);
                if j2 == s.len() {
                    Err(unknown_at(j2))
                } else if s[j2] == 41 {
                    Ok((seq![it], j2 + 1))
                } else if s[j2] == 59 {
                    match list_rest(s, j2 + 1) {
                        Ok((rest, e)) => Ok((seq![it] + rest, e)),
                        Err(e) => Err(e),
                    }
                } else {
                    Err(unknown_at(j2))
                }
            },
        }
    }
}

#[via_fn]
proof fn list_rest_decreases(s: Seq<u8>, i: int) {
    lemma_skip_ws(s, i);
    let j = skip_ws(s, i);
    if j < s.len() && s[j] != 41 && s[j] != 59 {
        lemma_parse_vector_bounds(s, j);
        match parse_vector(s, j) {
            Ok((it, k)) => {
                lemma_skip_ws(s, k);
            },
            Err(_) => {},
        }
    }
}

/// A successful list body ends within the input, past its start.
pub proof fn lemma_list_rest_bounds(s: Seq<u8>, i: int)
    requires
        0 <= i <= s.len(),
    ensures
        list_rest(s, i) matches Ok(ee) ==> i < ee.1 <= s.len(),
    decreases s.len() - i,
{
    lemma_skip_ws(s, i);
    let j = skip_ws(s, i);
    if j == s.len() {
    } else if s[j] == 41 {
    } else if s[j] == 59 {
        lemma_list_rest_bounds(s, j + 1);
    } else {
        lemma_parse_vector_bounds(s, j);
        match parse_vector(s, j) {
            Err(_) => {},
            Ok((it, k)) => {
                lemma_skip_ws(s, k);
                let j2 = skip_ws(s, k);
                if j2 < s.len() && s[j2] == 59 {
                    lemma_list_rest_bounds(s, j2 + 1);
                }
            },
        }
    }
}

/// A parenthesized list at position `i` (which holds `(`): immediately
/// `()` denotes nil; any separator-containing or nonempty body denotes a
/// list of entries.
pub open spec fn parse_list(s: Seq<u8>, i: int) -> Result<(ItemV, int), ParseErrorV> {
    let j = skip_ws(s, i + 1);
    if j < s.len() && s[j] == 41 {
        Ok((ItemV::Nil, j + 1))
    } else {
        match list_rest(s, i + 1) {
            Ok((entries, e)) => Ok((ItemV::List(entries), e)),
            Err(e) => Err(e),
        }
    }
}

/// The whole grammar: skip surrounding whitespace, parse a parenthesized
/// list if the input starts with `(` and a bare vector otherwise, and
/// require that the entire input is consumed.
pub open spec fn parse_spec(s: Seq<u8>) -> Result<ItemV, ParseErrorV> {
    let start = skip_ws(s, 0);
    if start == s.len() {
        Err(unknown_at(start))
    } else if s[start] == 40 {
        match parse_list(s, start) {
            Ok((it, k)) => {
                let e = skip_ws(s, k);
                if e == s.len() {
                    Ok(it)
                } else {
                    Err(unknown_at(e))
                }
            },
            Err(e) => Err(e),
        }
    } else {
        match parse_vector(s, start) {
            Ok((it, e)) => if e == s.len() {
                Ok(it)
            } else {
                Err(unknown_at(e))
            },
            Err(e) => Err(e),
        }
    }
}

/// Whether `b` is whitespace.
fn is_ws_e(b: u8) -> (r: bool)
    ensures
        r == is_ws(b),
{
    b == 32 || b == 9 || b == 10 || b == 13
}

/// Whether `b` is an ASCII digit.
fn is_digit_e(b: u8) -> (r: bool)
    ensures
        r == is_digit(b),
{
    48 <= b && b <= 57
}

/// Whether `b` may begin a symbol's name.
fn is_name_start_e(b: u8) -> (r: bool)
    ensures
        r == is_name_start(b),
{
    (65 <= b && b <= 90) || (97 <= b && b <= 122) || b == 46
}

/// Whether `b` may continue a symbol's name.
fn is_name_char_e(b: u8) -> (r: bool)
    ensures
        r == is_name_char(b),
{
    (65 <= b && b <= 90) || (97 <= b && b <= 122) || (48 <= b && b <= 57) || b == 46
}

/// Advances past whitespace.
#[verifier::loop_isolation(false)]
fn skip_ws_e(b: &Vec<u8>, i: usize) -> (j: usize)
    requires
        i <= b@.len(),
    ensures
        j == skip_ws(b@, i as int),
        i <= j <= b@.len(),
{
    let mut j = i;
    while j < b.len() && is_ws_e(b[j])
        invariant
            i <= j <= b@.len(),
            skip_ws(b@, i as int) == skip_ws(b@, j as int),
        decreases b@.len() - j,
    {
        j = j + 1;
    }
    j
}

/// Advances past name bytes.
#[verifier::loop_isolation(false)]
fn scan_name_e(b: &Vec<u8>, i: usize) -> (j: usize)
    requires
        i <= b@.len(),
    ensures
        j == scan_name(b@, i as int),
        i <= j <= b@.len(),
{
    let mut j = i;
    while j < b.len() && is_name_char_e(b[j])
        invariant
            i <= j <= b@.len(),
            scan_name(b@, i as int) == scan_name(b@, j as int),
        decreases b@.len() - j,
    {
        j = j + 1;
    }
    j
}

/// Advances past digits.
#[verifier::loop_isolation(false)]
fn scan_digits_e(b: &Vec<u8>, i: usize) -> (j: usize)
    requires
        i <= b@.len(),
    ensures
        j == scan_digits(b@, i as int),
        i <= j <= b@.len(),
{
    let mut j = i;
    while j < b.len() && is_digit_e(b[j])
        invariant
            i <= j <= b@.len(),
            scan_digits(b@, i as int) == scan_digits(b@, j as int),
        decreases b@.len() - j,
    {
        j = j + 1;
    }
    j
}

/// Copies the byte range `[from, to)` out of the input.
#[verifier::loop_isolation(false)]
fn copy_range(b: &Vec<u8>, from: usize, to: usize) -> (v: Vec<u8>)
    requires
        from <= to <= b@.len(),
    ensures
        v@ == b@.subrange(from as int, to as int),
{
    let mut v: Vec<u8> = Vec::new();
    let mut idx = from;
    while idx < to
        invariant
            from <= idx <= to,
            v@ == b@.subrange(from as int, idx as int),
        decreases to - idx,
    {
        v.push(b[idx]);
        proof {
            assert(v@ =~= b@.subrange(from as int, idx + 1));
        }
        idx = idx + 1;
    }
    v
}

/// Copies and normalizes the integer digit run `[j, k)`.
#[verifier::loop_isolation(false)]
fn norm_int_e(b: &Vec<u8>, j: usize, k: usize) -> (v: Vec<u8>)
    requires
        j <= k <= b@.len(),
    ensures
        v@ == norm_int_digits(b@.subrange(j as int, k as int)),
{
    let mut st = j;
    while st < k && b[st] == 48
        invariant
            j <= st <= k,
            strip_leading_zeros(b@.subrange(j as int, k as int)) == strip_leading_zeros(
                b@.subrange(st as int, k as int),
            ),
        decreases k - st,
    {
        proof {
            assert(b@.subrange(st as int, k as int).drop_first() =~= b@.subrange(
                st + 1,
                k as int,
            ));
        }
        st = st + 1;
    }
    if st == k {
        let mut v: Vec<u8> = Vec::new();
        v.push(48);
        proof {
            assert(b@.subrange(k as int, k as int).len() == 0);
            assert(v@ =~= seq![48u8]);
        }
        v
    } else {
        copy_range(b, st, k)
    }
}

/// Copies and normalizes the fraction digit run `[j, k)`.
#[verifier::loop_isolation(false)]
fn norm_frac_e(b: &Vec<u8>, j: usize, k: usize) -> (v: Vec<u8>)
    requires
        j <= k <= b@.len(),
    ensures
        v@ == norm_frac_digits(b@.subrange(j as int, k as int)),
{
    let mut en = k;
    while en > j && b[en - 1] == 48
        invariant
            j <= en <= k,
            strip_trailing_zeros(b@.subrange(j as int, k as int)) == strip_trailing_zeros(
                b@.subrange(j as int, en as int),
            ),
        decreases en,
    {
        proof {
            assert(b@.subrange(j as int, en as int).drop_last() =~= b@.subrange(
                j as int,
                en - 1,
            ));
        }
        en = en - 1;
    }
    if en == j {
        let mut v: Vec<u8> = Vec::new();
        v.push(48);
        proof {
            assert(b@.subrange(j as int, j as int).len() == 0);
            assert(v@ =~= seq![48u8]);
        }
        v
    } else {
        copy_range(b, j, en)
    }
}

/// Reads a symbol token.
fn sym_token_e(b: &Vec<u8>, i: usize) -> (r: Option<(Primitive, usize)>)
    requires
        i <= b@.len(),
    ensures
        (r matches Some(pk) ==> sym_token(b@, i as int) == Some::<(PrimitiveV, int)>(
            (pk.0@, pk.1 as int),
        )),
        (r matches Some(pk) ==> i < pk.1 <= b@.len()),
        r is None ==> sym_token(b@, i as int) is None,
{
    if i < b.len() && b[i] == 96 {
        if i + 1 < b.len() && is_name_start_e(b[i + 1]) {
            let j = scan_name_e(b, i + 1);
            let name = copy_range(b, i + 1, j);
            Some((Primitive::Symbol(name), j))
        } else {
            let name: Vec<u8> = Vec::new();
            proof {
                assert(name@ =~= Seq::<u8>::empty());
            }
            Some((Primitive::Symbol(name), i + 1))
        }
    } else {
        None
    }
}

/// Reads a float token.
fn float_token_e(b: &Vec<u8>, i: usize) -> (r: Option<(Primitive, usize)>)
    requires
        i <= b@.len(),
    ensures
        (r matches Some(pk) ==> float_token(b@, i as int) == Some::<(PrimitiveV, int)>(
            (pk.0@, pk.1 as int),
        )),
        (r matches Some(pk) ==> i < pk.1 <= b@.len()),
        r is None ==> float_token(b@, i as int) is None,
{
    if i >= b.len() {
        return None;
    }
    if b[i] == 48 && i + 1 < b.len() && b[i + 1] == 110 {
        return Some((Primitive::Float(FloatLit::Nan), i + 2));
    }
    if b[i] == 48 && i + 1 < b.len() && b[i + 1] == 119 {
        return Some((Primitive::Float(FloatLit::Inf), i + 2));
    }
    let neg = b[i] == 45;
    let j = if neg {
        i + 1
    } else {
        i
    };
    let k = scan_digits_e(b, j);
    if k < b.len() && b[k] == 46 && k + 1 < b.len() && is_digit_e(b[k + 1]) {
        let m = scan_digits_e(b, k + 1);
        proof {
            lemma_scan_digits(b@, k + 1 as int);
        }
        let ip = norm_int_e(b, j, k);
        let fp = norm_frac_e(b, k + 1, m);
        Some((Primitive::Float(FloatLit::Finite { neg, int_digits: ip, frac_digits: fp }), m))
    } else {
        None
    }
}

/// The decimal value of a digit run is nonnegative and grows (weakly) as
/// digits are appended.
pub proof fn lemma_dec_val_mono(s: Seq<u8>, j: int, a: int, c: int)
    requires
        j <= a <= c,
        forall|m: int| j <= m < c ==> is_digit(#[trigger] s[m]),
    ensures
        0 <= dec_val(s, j, a) <= dec_val(s, j, c),
    decreases c - a,
{
    if a == c {
        lemma_dec_val_nonneg(s, j, a);
    } else {
        lemma_dec_val_mono(s, j, a, c - 1);
    }
}

/// The decimal value of a digit run is nonnegative.
pub proof fn lemma_dec_val_nonneg(s: Seq<u8>, j: int, k: int)
    requires
        forall|m: int| j <= m < k ==> is_digit(#[trigger] s[m]),
    ensures
        dec_val(s, j, k) >= 0,
    decreases k - j,
{
    if k > j {
        lemma_dec_val_nonneg(s, j, k - 1);
    }
}

/// Reads an integer token.
#[verifier::loop_isolation(false)]
fn int_token_e(b: &Vec<u8>, i: usize) -> (r: Option<(Primitive, usize)>)
    requires
        i <= b@.len(),
    ensures
        (r matches Some(pk) ==> int_token(b@, i as int) == Some::<(PrimitiveV, int)>(
            (pk.0@, pk.1 as int),
        )),
        (r matches Some(pk) ==> i < pk.1 <= b@.len()),
        r is None ==> int_token(b@, i as int) is None,
{
    if i >= b.len() {
        return None;
    }
    if b[i] == 48 && i + 1 < b.len() && b[i + 1] == 78 {
        return Some((Primitive::Int(None), i + 2));
    }
    let neg = b[i] == 45;
    let j = if neg {
        i + 1
    } else {
        i
    };
    let k = scan_digits_e(b, j);
    if k == j {
        return None;
    }
    proof {
        lemma_scan_digits(b@, j as int);
    }
    let limit: u64 = if neg {
        9223372036854775808
    } else {
        9223372036854775807
    };
    let mut mag: u64 = 0;
    let mut idx = j;
    while idx < k
        invariant
            j <= idx <= k,
            mag == dec_val(b@, j as int, idx as int),
            mag <= limit,
        decreases k - idx,
    {
        let d = b[idx] - 48;
        if mag > (limit - (d as u64)) / 10 {
            proof {
                assert(10 * ((limit - (d as u64)) / 10) + (limit - (d as u64)) % 10 == limit - (
                d as u64));
                assert(dec_val(b@, j as int, idx + 1) == mag * 10 + d);
                lemma_dec_val_mono(b@, j as int, idx + 1, k as int);
            }
            return None;
        }
        proof {
            assert(10 * ((limit - (d as u64)) / 10) + (limit - (d as u64)) % 10 == limit - (
            d as u64));
        }
        mag = mag * 10 + (d as u64);
        idx = idx + 1;
    }
    let v: i64 = if neg {
        if mag == 9223372036854775808 {
            i64::MIN
        } else {
            let m64: i64 = mag as i64;
            -m64
        }
    } else {
        mag as i64
    };
    Some((Primitive::Int(Some(v)), k))
}

/// Reads a primitive token, trying a symbol, then a float, then an integer.
fn prim_token_e(b: &Vec<u8>, i: usize) -> (r: Option<(Primitive, usize)>)
    requires
        i <= b@.len(),
    ensures
        (r matches Some(pk) ==> prim_token(b@, i as int) == Some::<(PrimitiveV, int)>(
            (pk.0@, pk.1 as int),
        )),
        (r matches Some(pk) ==> i < pk.1 <= b@.len()),
        r is None ==> prim_token(b@, i as int) is None,
{
    let r = sym_token_e(b, i);
    match r {
        Some(pk) => {
            return Some(pk);
        },
        None => {},
    }
    let r = float_token_e(b, i);
    match r {
        Some(pk) => {
            return Some(pk);
        },
        None => {},
    }
    int_token_e(b, i)
}

/// Reads a bare vector literal: at least one primitive, a single one
/// collapsing to a scalar unit, several requiring one shared type.
#[verifier::loop_isolation(false)]
fn parse_vector_e(b: &Vec<u8>, i: usize) -> (r: Result<(Item, usize), ParseError>)
    requires
        i <= b@.len(),
    ensures
        (r matches Ok(ik) ==> parse_vector(b@, i as int) == Ok::<(ItemV, int), ParseErrorV>(
            (ik.0@, ik.1 as int),
        )),
        (r matches Ok(ik) ==> i < ik.1 <= b@.len()),
        (r matches Err(e) ==> parse_vector(b@, i as int) == Err::<(ItemV, int), ParseErrorV>(e@)),
{
    let ghost tps = prims_from(b@, i as int).0;
    let ghost e_spec = prims_from(b@, i as int).1;
    let mut prims: Vec<Primitive> = Vec::new();
    let mut t0: Ty = Ty::Unknown;
    let mut pos: usize = i;
    let ghost mut done: Seq<(PrimitiveV, int)> = Seq::empty();
    let mut finished = false;
    while !finished
        invariant
            i <= pos <= b@.len(),
            done.len() == prims@.len(),
            forall|m: int| 0 <= m < done.len() ==> #[trigger] done[m].0 == prims@[m]@,
            tps == done + prims_from(b@, pos as int).0,
            e_spec == prims_from(b@, pos as int).1,
            prims@.len() > 0 ==> t0 == ty_of(done[0].0),
            forall|m: int| 0 <= m < done.len() ==> ty_of(#[trigger] done[m].0) == t0,
            finished ==> prims_from(b@, pos as int).0.len() == 0,
            finished ==> prims_from(b@, pos as int).1 == pos as int,
        decreases (if finished { 0int } else { 1int }), b@.len() - pos,
    {
        let j = skip_ws_e(b, pos);
        match prim_token_e(b, j) {
            None => {
                proof {
                    lemma_skip_ws(b@, pos as int);
                    assert(skip_ws(b@, j as int) == j as int);
                    assert(prims_from(b@, pos as int).0 =~= Seq::<(PrimitiveV, int)>::empty());
                    assert(prims_from(b@, j as int).0 =~= Seq::<(PrimitiveV, int)>::empty());
                    assert(prims_from(b@, j as int).1 == j as int);
                    assert(prims_from(b@, pos as int).1 == j as int);
                }
                pos = j;
                finished = true;
            },
            Some((p, k)) => {
                let ghost pv = p@;
                let pt = p.ty();
                if prims.len() == 0 {
                    t0 = pt;
                } else if pt != t0 {
                    proof {
                        let n = done.len() as int;
                        assert(prims_from(b@, pos as int).0 == seq![(pv, j as int)] + prims_from(
                            b@,
                            k as int,
                        ).0);
                        assert(tps[n] == (pv, j as int));
                        assert(forall|m: int| 1 <= m < n ==> ty_of(#[trigger] tps[m].0) == t0);
                        assert(ty_of(tps[0].0) == t0);
                        assert(tps.len() >= n + 1);
                        lemma_first_divergent(tps, t0, 1);
                        let d = first_divergent(tps, t0, 1);
                        assert(ty_of(tps[n].0) != t0);
                        assert(d == n);
                    }
                    return Err(ParseError::new(j, ParseErrorKind::Ty(t0, pt)));
                }
                proof {
                    let olddone = done;
                    done = done.push((pv, j as int));
                    assert(done =~= olddone + seq![(pv, j as int)]);
                    assert(tps =~= done + prims_from(b@, k as int).0);
                }
                prims.push(p);
                pos = k;
            },
        }
    }
    proof {
        assert(tps =~= done);
    }
    if prims.len() == 0 {
        Err(ParseError::new(pos, ParseErrorKind::UnknownChar))
    } else if prims.len() == 1 {
        let p = prims.remove(0);
        Ok((Item::Unit(p), pos))
    } else {
        proof {
            lemma_first_divergent(tps, t0, 1);
            let d = first_divergent(tps, t0, 1);
            assert(d == tps.len());
            crate::value::lemma_prims_view(prims, prims@.len() as int);
            assert(crate::value::prims_view_upto(prims, prims@.len() as int) =~= tps.map_values(
                |tp: (PrimitiveV, int)| tp.0,
            ));
        }
        Ok((Item::Vector(t0, prims), pos))
    }
}

/// Reads a parenthesized list whose opening `(` stands at position `i`.
#[verifier::loop_isolation(false)]
fn parse_list_e(b: &Vec<u8>, i: usize) -> (r: Result<(Item, usize), ParseError>)
    requires
        i < b@.len(),
        b@[i as int] == 40,
    ensures
        (r matches Ok(ik) ==> parse_list(b@, i as int) == Ok::<(ItemV, int), ParseErrorV>(
            (ik.0@, ik.1 as int),
        )),
        (r matches Ok(ik) ==> i < ik.1 <= b@.len()),
        (r matches Err(e) ==> parse_list(b@, i as int) == Err::<(ItemV, int), ParseErrorV>(e@)),
{
    let n = b.len();
    let j0 = skip_ws_e(b, i + 1);
    if j0 < n && b[j0] == 41 {
        return Ok((Item::Nil, j0 + 1));
    }
    let mut entries: Vec<Item> = Vec::new();
    let ghost mut entries_v: Seq<ItemV> = Seq::empty();
    let mut pos: usize = i + 1;
    let mut finished = false;
    while !finished
        invariant
            i + 1 <= pos <= b@.len(),
            entries_v.len() == entries@.len(),
            forall|m: int| 0 <= m < entries_v.len() ==> #[trigger] entries_v[m]
                == crate::value::item_view(entries@[m]),
            !finished ==> (match list_rest(b@, pos as int) {
                Ok((rest, e)) => list_rest(b@, i + 1 as int) == Ok::<
                    (Seq<ItemV>, int),
                    ParseErrorV,
                >((entries_v + rest, e)),
                Err(e) => list_rest(b@, i + 1 as int) == Err::<(Seq<ItemV>, int), ParseErrorV>(e),
            }),
            finished ==> list_rest(b@, i + 1 as int) == Ok::<(Seq<ItemV>, int), ParseErrorV>(
                (entries_v, pos as int),
            ),
        decreases (if finished { 0int } else { 1int }), b@.len() - pos,
    {
        let j = skip_ws_e(b, pos);
        if j == b.len() {
            return Err(ParseError::new(j, ParseErrorKind::UnknownChar));
        }
        let c = b[j];
        if c == 41 {
            proof {
                let oldv = entries_v;
                entries_v = entries_v.push(ItemV::Nil);
                assert(entries_v =~= oldv + seq![ItemV::Nil]);
            }
            entries.push(Item::Nil);
            pos = j + 1;
            finished = true;
        } else if c == 59 {
            proof {
                let oldv = entries_v;
                entries_v = entries_v.push(ItemV::Nil);
                assert(entries_v =~= oldv + seq![ItemV::Nil]);
                match list_rest(b@, j + 1 as int) {
                    Ok((rest, e)) => {
                        assert(oldv + (seq![ItemV::Nil] + rest) =~= entries_v + rest);
                    },
                    Err(_) => {},
                }
            }
            entries.push(Item::Nil);
            pos = j + 1;
        } else {
            match parse_vector_e(b, j) {
                Err(e) => {
                    return Err(e);
                },
                Ok((it, k)) => {
                    let ghost itv = it@;
                    let j2 = skip_ws_e(b, k);
                    if j2 == b.len() {
                        return Err(ParseError::new(j2, ParseErrorKind::UnknownChar));
                    }
                    let c2 = b[j2];
                    if c2 == 41 {
                        proof {
                            let oldv = entries_v;
                            entries_v = entries_v.push(itv);
                            assert(entries_v =~= oldv + seq![itv]);
                        }
                        entries.push(it);
                        pos = j2 + 1;
                        finished = true;
                    } else if c2 == 59 {
                        proof {
                            let oldv = entries_v;
                            entries_v = entries_v.push(itv);
                            assert(entries_v =~= oldv + seq![itv]);
                            match list_rest(b@, j2 + 1 as int) {
                                Ok((rest, e)) => {
                                    assert(oldv + (seq![itv] + rest) =~= entries_v + rest);
                                },
                                Err(_) => {},
                            }
                        }
                        entries.push(it);
                        pos = j2 + 1;
                    } else {
                        return Err(ParseError::new(j2, ParseErrorKind::UnknownChar));
                    }
                },
            }
        }
    }
    proof {
        crate::value::lemma_items_view(entries, entries@.len() as int);
        assert(crate::value::items_view_upto(entries, entries@.len() as int) =~= entries_v);
    }
    Ok((Item::List(entries), pos))
}

/// Parses one complete literal from a byte string: a parenthesized list or
/// a bare vector, with nothing but whitespace around it.
pub fn parse_bytes(b: &Vec<u8>) -> (r: Result<Item, ParseError>)
    ensures
        (r matches Ok(it) ==> parse_spec(b@) == Ok::<ItemV, ParseErrorV>(it@)),
        (r matches Err(e) ==> parse_spec(b@) == Err::<ItemV, ParseErrorV>(e@)),
{
    let start = skip_ws_e(b, 0);
    if start == b.len() {
        return Err(ParseError::new(start, ParseErrorKind::UnknownChar));
    }
    if b[start] == 40 {
        match parse_list_e(b, start) {
            Ok((it, k)) => {
                let e2 = skip_ws_e(b, k);
                if e2 == b.len() {
                    Ok(it)
                } else {
                    Err(ParseError::new(e2, ParseErrorKind::UnknownChar))
                }
            },
            Err(e) => Err(e),
        }
    } else {
        match parse_vector_e(b, start) {
            Ok((it, k)) => {
                if k == b.len() {
                    Ok(it)
                } else {
                    Err(ParseError::new(k, ParseErrorKind::UnknownChar))
                }
            },
            Err(e) => Err(e),
        }
    }
}

/// Parses one complete literal from source text.
pub fn parse(text: &str) -> (r: Result<Item, ParseError>)
    ensures
        (r matches Ok(it) ==> parse_spec(text.spec_bytes()) == Ok::<ItemV, ParseErrorV>(it@)),
        (r matches Err(e) ==> parse_spec(text.spec_bytes()) == Err::<ItemV, ParseErrorV>(e@)),
{
    let b = text.as_bytes_vec();
    parse_bytes(&b)
}

/// Stripping leading zeros keeps a digit run a digit run and leaves no
/// leading zero behind.
pub proof fn lemma_strip_leading(ds: Seq<u8>)
    requires
        forall|m: int| 0 <= m < ds.len() ==> is_digit(#[trigger] ds[m]),
    ensures
        strip_leading_zeros(ds).len() <= ds.len(),
        forall|m: int|
            0 <= m < strip_leading_zeros(ds).len() ==> is_digit(
                #[trigger] strip_leading_zeros(ds)[m],
            ),
        strip_leading_zeros(ds).len() > 0 ==> strip_leading_zeros(ds)[0] != 48,
    decreases ds.len(),
{
    if ds.len() > 0 && ds[0] == 48 {
        assert(forall|m: int|
            0 <= m < ds.drop_first().len() ==> is_digit(#[trigger] ds.drop_first()[m]));
        lemma_strip_leading(ds.drop_first());
    }
}

/// Stripping trailing zeros keeps a digit run a digit run and leaves no
/// trailing zero behind.
pub proof fn lemma_strip_trailing(ds: Seq<u8>)
    requires
        forall|m: int| 0 <= m < ds.len() ==> is_digit(#[trigger] ds[m]),
    ensures
        strip_trailing_zeros(ds).len() <= ds.len(),
        forall|m: int|
            0 <= m < strip_trailing_zeros(ds).len() ==> is_digit(
                #[trigger] strip_trailing_zeros(ds)[m],
            ),
        strip_trailing_zeros(ds).len() > 0 ==> strip_trailing_zeros(ds)[strip_trailing_zeros(
            ds,
        ).len() - 1] != 48,
    decreases ds.len(),
{
    if ds.len() > 0 && ds[ds.len() - 1] == 48 {
        assert(forall|m: int|
            0 <= m < ds.drop_last().len() ==> is_digit(#[trigger] ds.drop_last()[m]));
        lemma_strip_trailing(ds.drop_last());
    }
}

/// Every primitive a token yields is well formed: symbol names are ASCII
/// and float digit runs are normalized.
pub proof fn lemma_prim_token_wf(s: Seq<u8>, i: int)
    requires
        0 <= i <= s.len(),
    ensures
        prim_token(s, i) matches Some(pk) ==> prim_wf(pk.0),
{
    if 0 <= i < s.len() {
        if s[i] == 96 {
            if i + 1 < s.len() && is_name_start(s[i + 1]) {
                lemma_scan_name(s, i + 1);
                let j = scan_name(s, i + 1);
                assert(forall|m: int|
                    0 <= m < s.subrange(i + 1, j).len() ==> #[trigger] s.subrange(i + 1, j)[m]
                        < 128);
            }
        } else {
            let neg = s[i] == 45;
            let j = if neg {
                i + 1
            } else {
                i
            };
            if j <= s.len() {
                lemma_scan_digits(s, j);
                let k = scan_digits(s, j);
                if k + 1 <= s.len() {
                    lemma_scan_digits(s, k + 1);
                    let m = scan_digits(s, k + 1);
                    let ip = s.subrange(j, k);
                    assert(forall|q: int| 0 <= q < ip.len() ==> is_digit(#[trigger] ip[q]));
                    lemma_strip_leading(ip);
                    if k < s.len() && s[k] == 46 && k + 1 < s.len() && is_digit(s[k + 1]) {
                        let fp = s.subrange(k + 1, m);
                        assert(forall|q: int| 0 <= q < fp.len() ==> is_digit(#[trigger] fp[q]));
                        lemma_strip_trailing(fp);
                    }
                }
            }
        }
    }
}

/// Every primitive of a bare vector's token run is well formed.
pub proof fn lemma_prims_from_wf(s: Seq<u8>, i: int)
    requires
        0 <= i <= s.len(),
    ensures
        forall|m: int|
            0 <= m < prims_from(s, i).0.len() ==> prim_wf(#[trigger] prims_from(s, i).0[m].0),
    decreases s.len() - i,
{
    lemma_skip_ws(s, i);
    let j = skip_ws(s, i);
    lemma_prim_token_bounds(s, j);
    lemma_prim_token_wf(s, j);
    match prim_token(s, j) {
        None => {},
        Some((p, k)) => {
            lemma_prims_from_wf(s, k);
            assert(forall|m: int|
                1 <= m < prims_from(s, i).0.len() ==> #[trigger] prims_from(s, i).0[m]
                    == prims_from(s, k).0[m - 1]);
        },
    }
}

/// What a successful bare vector yields: a well-formed, collapsed scalar
/// unit or vector, never a list or nil.
pub proof fn lemma_parse_vector_wf(s: Seq<u8>, i: int)
    requires
        0 <= i <= s.len(),
    ensures
        parse_vector(s, i) matches Ok(ik) ==> item_wf(ik.0) && collapsed(ik.0) && (ik.0 is Unit
            || ik.0 is Vector),
{
    lemma_prims_from_wf(s, i);
    let (tps, e) = prims_from(s, i);
    if tps.len() >= 2 {
        let t = ty_of(tps[0].0);
        lemma_first_divergent(tps, t, 1);
    }
}

/// Every entry of a parsed list body is well formed and collapsed, and is
/// a scalar unit, a vector, or nil: the grammar nests no list in a list.
pub proof fn lemma_list_rest_wf(s: Seq<u8>, i: int)
    requires
        0 <= i <= s.len(),
    ensures
        list_rest(s, i) matches Ok(ee) ==> forall|m: int|
            0 <= m < ee.0.len() ==> item_wf(#[trigger] ee.0[m]) && collapsed(ee.0[m]) && (
            ee.0[m] is Unit || ee.0[m] is Vector || ee.0[m] is Nil),
    decreases s.len() - i,
{
    lemma_skip_ws(s, i);
    let j = skip_ws(s, i);
    if j == s.len() {
    } else if s[j] == 41 {
    } else if s[j] == 59 {
        lemma_list_rest_wf(s, j + 1);
    } else {
        lemma_parse_vector_wf(s, j);
        lemma_parse_vector_bounds(s, j);
        match parse_vector(s, j) {
            Err(_) => {},
            Ok((it, k)) => {
                lemma_skip_ws(s, k);
                let j2 = skip_ws(s, k);
                if j2 < s.len() && s[j2] == 59 {
                    lemma_list_rest_wf(s, j2 + 1);
                }
            },
        }
    }
}

/// Everything the parser returns is well formed, and every vector in it
/// holds at least two primitives, all of the vector's tagged type: a
/// single primitive always comes back as a scalar unit.
pub proof fn lemma_parse_spec_wf(s: Seq<u8>)
    ensures
        parse_spec(s) matches Ok(it) ==> item_wf(it) && collapsed(it),
{
    lemma_skip_ws(s, 0);
    let start = skip_ws(s, 0);
    if start < s.len() {
        if s[start] == 40 {
            lemma_list_rest_wf(s, start + 1);
            match list_rest(s, start + 1) {
                Ok((entries, e)) => {
                    lemma_list_wf_pointwise(entries, entries.len() as int);
                    lemma_list_collapsed_pointwise(entries, entries.len() as int);
                },
                Err(_) => {},
            }
        } else {
            lemma_parse_vector_wf(s, start);
        }
    }
}

/// Homogeneity is enforced: when a bare vector literal's token run mixes a
/// second type in, parsing fails with a type-mismatch error that carries
/// the first token's type and the type of the first divergent token, at
/// that token's byte offset.
pub proof fn lemma_mixed_vector_fails(s: Seq<u8>)
    requires
        skip_ws(s, 0) < s.len(),
        s[skip_ws(s, 0)] != 40,
    ensures
        ({
            let tps = prims_from(s, skip_ws(s, 0)).0;
            (exists|m: int| 0 < m < tps.len() && ty_of(#[trigger] tps[m].0) != ty_of(tps[0].0))
                ==> {
                let t0 = ty_of(tps[0].0);
                let d = first_divergent(tps, t0, 1);
                parse_spec(s) == Err::<ItemV, ParseErrorV>(ty_err_at(tps[d].1, t0, ty_of(tps[d].0)))
            }
        }),
{
    lemma_skip_ws(s, 0);
    let start = skip_ws(s, 0);
    let tps = prims_from(s, start).0;
    let t0 = ty_of(tps[0].0);
    if exists|m: int| 0 < m < tps.len() && ty_of(#[trigger] tps[m].0) != t0 {
        let w = choose|m: int| 0 < m < tps.len() && ty_of(#[trigger] tps[m].0) != t0;
        lemma_first_divergent(tps, t0, 1);
        let d = first_divergent(tps, t0, 1);
        assert(d <= w);
        assert(d < tps.len());
    }
}

/// Total consumption: parsing is all or nothing. A parse succeeds only
/// when the literal's tokens, with surrounding whitespace, reach the end
/// of the input; a literal followed by anything unparseable yields an
/// unknown-character error at the offset where parsing stopped, never a
/// truncated success.
pub proof fn lemma_total_consumption(s: Seq<u8>)
    ensures
        ({
            let start = skip_ws(s, 0);
            &&& (start < s.len() && s[start] != 40 ==> (match parse_vector(s, start) {
                Ok((it, e)) => e < s.len() ==> parse_spec(s) == Err::<ItemV, ParseErrorV>(
                    unknown_at(e),
                ),
                Err(_) => true,
            }))
            &&& (start < s.len() && s[start] == 40 ==> (match parse_list(s, start) {
                Ok((it, k)) => skip_ws(s, k) < s.len() ==> parse_spec(s) == Err::<
                    ItemV,
                    ParseErrorV,
                >(unknown_at(skip_ws(s, k))),
                Err(_) => true,
            }))
            &&& (parse_spec(s) is Ok ==> start < s.len())
            &&& (parse_spec(s) is Ok && s[start] != 40 ==> prims_from(s, start).1 == s.len())
            &&& (parse_spec(s) is Ok && s[start] == 40 ==> (parse_list(s, start) matches Ok(ik)
                && skip_ws(s, ik.1) == s.len()))
        }),
{
    lemma_skip_ws(s, 0);
    let start = skip_ws(s, 0);
    if start < s.len() && s[start] == 40 {
        lemma_skip_ws(s, start + 1);
        lemma_list_rest_bounds(s, start + 1);
        match parse_list(s, start) {
            Ok((it, k)) => {
                lemma_skip_ws(s, k);
            },
            Err(_) => {},
        }
    }
}

/// What the parser returns is flat: a scalar or nil is of depth 0, a
/// vector of depth at most 1, and a list, whose entries the grammar keeps
/// flat, of depth at most 2. In particular the depth query applies to
/// every parsed item.
pub proof fn lemma_parse_spec_depth(s: Seq<u8>)
    ensures
        parse_spec(s) matches Ok(it) ==> crate::value::depth_of(it) <= 2,
{
    lemma_skip_ws(s, 0);
    let start = skip_ws(s, 0);
    if start < s.len() {
        if s[start] == 40 {
            lemma_list_rest_wf(s, start + 1);
            match list_rest(s, start + 1) {
                Ok((entries, e)) => {
                    assert(forall|m: int|
                        0 <= m < entries.len() ==> crate::value::depth_of(#[trigger] entries[m])
                            <= 1);
                    crate::value::lemma_max_depth_bounded(entries, entries.len() as int, 1);
                },
                Err(_) => {},
            }
        } else {
            lemma_parse_vector_wf(s, start);
        }
    }
}

/// A byte that can stand in no literal: not whitespace, no name byte or
/// digit, and none of the grammar's marks.
pub open spec fn dead_byte(b: u8) -> bool {
    &&& !is_ws(b)
    &&& !is_name_char(b)
    &&& b != 96
    &&& b != 45
    &&& b != 40
    &&& b != 41
    &&& b != 59
}

/// Appending input after a byte that stops the whitespace scan does not
/// move where it stops.
proof fn lemma_skip_ws_ext(s: Seq<u8>, u: Seq<u8>, i: int)
    requires
        0 <= i <= s.len(),
        u.len() > 0,
        !is_ws(u[0]),
    ensures
        skip_ws(s + u, i) == skip_ws(s, i),
    decreases s.len() - i,
{
    if i < s.len() {
        assert((s + u)[i] == s[i]);
        if is_ws(s[i]) {
            lemma_skip_ws_ext(s, u, i + 1);
        }
    } else {
        assert((s + u)[i] == u[0]);
    }
}

/// Appending input after a byte that stops the name scan does not move
/// where it stops.
proof fn lemma_scan_name_ext(s: Seq<u8>, u: Seq<u8>, i: int)
    requires
        0 <= i <= s.len(),
        u.len() > 0,
        !is_name_char(u[0]),
    ensures
        scan_name(s + u, i) == scan_name(s, i),
    decreases s.len() - i,
{
    if i < s.len() {
        assert((s + u)[i] == s[i]);
        if is_name_char(s[i]) {
            lemma_scan_name_ext(s, u, i + 1);
        }
    } else {
        assert((s + u)[i] == u[0]);
    }
}

/// Appending input after a byte that stops the digit scan does not move
/// where it stops.
proof fn lemma_scan_digits_ext(s: Seq<u8>, u: Seq<u8>, i: int)
    requires
        0 <= i <= s.len(),
        u.len() > 0,
        !is_digit(u[0]),
    ensures
        scan_digits(s + u, i) == scan_digits(s, i),
    decreases s.len() - i,
{
    if i < s.len() {
        assert((s + u)[i] == s[i]);
        if is_digit(s[i]) {
            lemma_scan_digits_ext(s, u, i + 1);
        }
    } else {
        assert((s + u)[i] == u[0]);
    }
}

/// A digit run's value does not depend on appended input.
proof fn lemma_dec_val_ext(s: Seq<u8>, u: Seq<u8>, j: int, k: int)
    requires
        0 <= j,
        k <= s.len(),
    ensures
        dec_val(s + u, j, k) == dec_val(s, j, k),
    decreases k - j,
{
    if k > j {
        lemma_dec_val_ext(s, u, j, k - 1);
        if 0 <= k - 1 < s.len() {
            assert((s + u)[k - 1] == s[k - 1]);
        }
    }
}

/// Appending input that starts with a dead byte changes no token read
/// within the original input.
proof fn lemma_prim_token_ext(s: Seq<u8>, u: Seq<u8>, i: int)
    requires
        0 <= i <= s.len(),
        u.len() > 0,
        dead_byte(u[0]),
    ensures
        sym_token(s + u, i) == sym_token(s, i),
        float_token(s + u, i) == float_token(s, i),
        int_token(s + u, i) == int_token(s, i),
        prim_token(s + u, i) == prim_token(s, i),
{
    let su = s + u;
    if i < s.len() {
        assert(su[i] == s[i]);
        if i + 1 < s.len() {
            assert(su[i + 1] == s[i + 1]);
        } else if i + 1 < su.len() {
            assert(su[i + 1] == u[0]);
        }
        // symbol
        if s[i] == 96 {
            if i + 1 < s.len() && is_name_start(s[i + 1]) {
                lemma_scan_name_ext(s, u, i + 1);
                let j = scan_name(s, i + 1);
                lemma_scan_name(s, i + 1);
                assert(su.subrange(i + 1, j) =~= s.subrange(i + 1, j));
            }
        }
        // float and integer
        let neg = s[i] == 45;
        let j = if neg {
            i + 1
        } else {
            i
        };
        lemma_scan_digits_ext(s, u, j);
        lemma_scan_digits(s, j);
        let k = scan_digits(s, j);
        if k < s.len() {
            assert(su[k] == s[k]);
        } else if k < su.len() {
            assert(su[k] == u[0]);
        }
        if k < s.len() && s[k] == 46 {
            if k + 1 < s.len() {
                assert(su[k + 1] == s[k + 1]);
            } else if k + 1 < su.len() {
                assert(su[k + 1] == u[0]);
            }
            if k + 1 < s.len() && is_digit(s[k + 1]) {
                lemma_scan_digits_ext(s, u, k + 1);
                lemma_scan_digits(s, k + 1);
                let m = scan_digits(s, k + 1);
                assert(su.subrange(j, k) =~= s.subrange(j, k));
                assert(su.subrange(k + 1, m) =~= s.subrange(k + 1, m));
            }
        }
        lemma_dec_val_ext(s, u, j, k);
    } else {
        assert(su[i] == u[0]);
    }
}

/// Appending input that starts with a dead byte changes no bare vector
/// read within the original input.
proof fn lemma_prims_from_ext(s: Seq<u8>, u: Seq<u8>, i: int)
    requires
        0 <= i <= s.len(),
        u.len() > 0,
        dead_byte(u[0]),
    ensures
        prims_from(s + u, i) == prims_from(s, i),
        parse_vector(s + u, i) == parse_vector(s, i),
    decreases s.len() - i,
{
    lemma_skip_ws(s, i);
    lemma_skip_ws_ext(s, u, i);
    let j = skip_ws(s, i);
    lemma_prim_token_ext(s, u, j);
    lemma_prim_token_bounds(s, j);
    match prim_token(s, j) {
        None => {},
        Some((p, k)) => {
            lemma_prims_from_ext(s, u, k);
        },
    }
}

/// Appending input that starts with a dead byte changes no list body read
/// within the original input.
proof fn lemma_list_rest_ext(s: Seq<u8>, u: Seq<u8>, i: int)
    requires
        0 <= i <= s.len(),
        u.len() > 0,
        dead_byte(u[0]),
    ensures
        list_rest(s + u, i) == list_rest(s, i),
    decreases s.len() - i,
{
    let su = s + u;
    lemma_skip_ws(s, i);
    lemma_skip_ws_ext(s, u, i);
    let j = skip_ws(s, i);
    if j == s.len() {
        // the original ran out; the suffix's dead byte starts no entry
        assert(su[j] == u[0]);
        lemma_prims_from_ext(s, u, j);
    } else {
        assert(su[j] == s[j]);
        if s[j] == 41 {
        } else if s[j] == 59 {
            lemma_list_rest_ext(s, u, j + 1);
        } else {
            lemma_prims_from_ext(s, u, j);
            lemma_parse_vector_bounds(s, j);
            match parse_vector(s, j) {
                Err(_) => {},
                Ok((it, k)) => {
                    lemma_skip_ws(s, k);
                    lemma_skip_ws_ext(s, u, k);
                    let j2 = skip_ws(s, k);
                    if j2 == s.len() {
                        assert(su[j2] == u[0]);
                    } else {
                        assert(su[j2] == s[j2]);
                        if s[j2] == 59 {
                            lemma_list_rest_ext(s, u, j2 + 1);
                        }
                    }
                },
            }
        }
    }
}

/// Total consumption, suffix form: a literal that parses, followed by a
/// byte that can stand in no literal, fails as a whole with an
/// unknown-character error at that byte's offset, never a truncated
/// success.
pub proof fn lemma_trailing_suffix_fails(s: Seq<u8>, u: Seq<u8>)
    requires
        parse_spec(s) is Ok,
        u.len() > 0,
        dead_byte(u[0]),
    ensures
        parse_spec(s + u) == Err::<ItemV, ParseErrorV>(unknown_at(s.len() as int)),
{
    let su = s + u;
    lemma_total_consumption(s);
    lemma_skip_ws(s, 0);
    lemma_skip_ws_ext(s, u, 0);
    let start = skip_ws(s, 0);
    assert(su[start] == s[start]);
    if s[start] == 40 {
        lemma_skip_ws(s, start + 1);
        lemma_skip_ws_ext(s, u, start + 1);
        let j0 = skip_ws(s, start + 1);
        if j0 == s.len() {
            assert(su[j0] == u[0]);
        } else {
            assert(su[j0] == s[j0]);
        }
        lemma_list_rest_ext(s, u, start + 1);
        lemma_list_rest_bounds(s, start + 1);
        match parse_list(s, start) {
            Ok((it, k)) => {
                lemma_skip_ws_ext(s, u, k);
                assert(skip_ws(su, k) == s.len());
                assert(su[s.len() as int] == u[0]);
            },
            Err(_) => {},
        }
    } else {
        lemma_prims_from_ext(s, u, start);
    }
}

/// The display name of a semantic type.
pub open spec fn ty_name(t: Ty) -> Seq<char> {
    match t {
        Ty::Symbol => "Symbol"@,
        Ty::Int => "Int"@,
        Ty::Float => "Float"@,
        Ty::Bool => "Bool"@,
        Ty::Char => "Char"@,
        Ty::List => "List"@,
        Ty::Unknown => "Unknown"@,
    }
}

/// The human-readable message of a parse error kind.
pub open spec fn message_spec(k: ParseErrorKind) -> Seq<char> {
    match k {
        ParseErrorKind::Ty(a, b) => "invalid type: expected '"@ + ty_name(a) + "', found '"@
            + ty_name(b) + "'"@,
        ParseErrorKind::UnknownChar => "unknown input character"@,
    }
}

/// The display name of a semantic type.
fn ty_name_e(t: Ty) -> (r: &'static str)
    ensures
        r@ == ty_name(t),
{
    match t {
        Ty::Symbol => "Symbol",
        Ty::Int => "Int",
        Ty::Float => "Float",
        Ty::Bool => "Bool",
        Ty::Char => "Char",
        Ty::List => "List",
        Ty::Unknown => "Unknown",
    }
}

impl ParseError {
    /// The human-readable message for this error.
    pub fn message(&self) -> (r: String)
        ensures
            r@ == message_spec(self@.kind),
    {
        match self.kind {
            ParseErrorKind::Ty(a, b) => {
                let mut r = String::from_str("invalid type: expected '");
                r.append(ty_name_e(a));
                r.append("', found '");
                r.append(ty_name_e(b));
                r.append("'");
                proof {
                    assert(r@ =~= message_spec(self@.kind));
                }
                r
            },
            ParseErrorKind::UnknownChar => String::from_str("unknown input character"),
        }
    }
}

} // verus!
