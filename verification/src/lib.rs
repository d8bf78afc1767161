//! Literal-value front end for a small k-style array language: a typed
//! value model (atoms, homogeneous vectors, nested lists), a literal
//! parser, and a canonical printer.
//!
//! The parser turns source text into an [`value::Item`] or a typed
//! [`parser::ParseError`]; the printer renders an item back to the
//! language's notation. An [`Interpreter`] session wraps the parser for an
//! interactive front end; the evaluator proper (operators, application,
//! name binding) is not part of this core, so a session binds no names
//! yet.

use vstd::prelude::*;

pub mod parser;
pub mod printer;
pub mod value;

use parser::{ParseError, parse_spec};
use vstd::string::StringSliceAdditionalSpecFns;

verus! {

broadcast use vstd::seq::group_seq_axioms;

/// A session of the language: evaluates one line at a time and keeps the
/// session's bound names.
pub struct Interpreter {
    names: Vec<String>,
}

/// What evaluating a line can report.
#[derive(Debug)]
pub enum EvalError {
    /// The line did not parse.
    Parse(ParseError),
    /// The line referred to an unbound name.
    Name,
}

/// The result of evaluating one line.
pub type EvalResult = Result<(), EvalError>;

impl Interpreter {
    /// The names bound in this session.
    pub closed spec fn bound_names(&self) -> Seq<Seq<char>> {
        self.names.deep_view()
    }

    /// A fresh session with no names bound.
    pub fn new() -> (r: Interpreter)
        ensures
            r.bound_names() == Seq::<Seq<char>>::empty(),
    {
        let r = Interpreter { names: Vec::new() };
        proof {
            assert(r.bound_names() =~= Seq::<Seq<char>>::empty());
        }
        r
    }

    /// Evaluates one line: parses it, reporting a parse failure as an
    /// evaluation error. The evaluator proper is outside this core, so a
    /// well-formed line binds nothing and the session is left unchanged.
    pub fn evaluate(&mut self, input: &str) -> (r: EvalResult)
        ensures
            *final(self) == *old(self),
            r is Ok <==> parse_spec(input.spec_bytes()) is Ok,
            (r matches Err(e) ==> (e matches EvalError::Parse(pe) && parse_spec(
                input.spec_bytes(),
            ) == Err::<value::ItemV, parser::ParseErrorV>(pe@))),
    {
        match parser::parse(input) {
            Ok(_) => Ok(()),
            Err(e) => Err(EvalError::Parse(e)),
        }
    }

    /// The names bound in this session.
    pub fn names(&self) -> (r: Vec<String>)
        ensures
            r.deep_view() == self.bound_names(),
    {
        let mut r: Vec<String> = Vec::new();
        let mut i: usize = 0;
        while i < self.names.len()
            invariant
                i <= self.names@.len(),
                r@.len() == i as int,
                r.deep_view() == self.names.deep_view().subrange(0, i as int),
            decreases self.names@.len() - i,
        {
            let cl = self.names[i].clone();
            let ghost prev = r@;
            let ghost prevdv = r.deep_view();
            r.push(cl);
            proof {
                assert forall|m: int| 0 <= m < i + 1 implies #[trigger] r.deep_view()[m]
                    == self.names.deep_view()[m] by {
                    assert(r.deep_view()[m] == r@[m].deep_view());
                    if m < i {
                        assert(r@[m] == prev[m]);
                        assert(prevdv[m] == prev[m].deep_view());
                        assert(prevdv[m] == self.names.deep_view().subrange(0, i as int)[m]);
                    } else {
                        assert(r@[m] == self.names@[m]);
                        assert(self.names.deep_view()[m] == self.names@[m].deep_view());
                    }
                }
                assert(r.deep_view() =~= self.names.deep_view().subrange(0, i + 1));
            }
            i = i + 1;
        }
        proof {
            assert(self.names.deep_view().subrange(0, self.names@.len() as int)
                =~= self.names.deep_view());
        }
        r
    }
}

} // verus!
