//! The expression tree: a strict precedence hierarchy of exponent chains,
//! `*`/`/` terms and `+`/`-` equations, together with the spec functions that
//! say what text a tree stands for and when a tree is well formed.

use vstd::prelude::*;

use crate::literal::is_literal;
use crate::literal::CH_CARET;
use crate::literal::CH_MINUS;
use crate::literal::CH_PLUS;
use crate::literal::CH_SLASH;
use crate::literal::CH_STAR;

verus! {

/// How a parse attempt fails: `NoMatch` applies no alternative and consumes
/// nothing, so a caller may try something else; `Malformed` committed input
/// and then could not complete, and carries the failing position.
#[derive(Debug, PartialEq, Eq, Structural)]
pub enum ParseError {
    NoMatch,
    Malformed(usize),
}

/// A right-associative exponentiation: a numeric-literal base and a `Degree`
/// power, so that `2^3^4` nests as `2^(3^4)`. `base` holds the literal's
/// text.
#[derive(Debug)]
pub struct Exponent {
    pub base: Vec<u8>,
    pub power: Box<Degree>,
}

/// The operand one level below a term: an exponent chain or a bare numeric
/// literal, which holds the literal's text.
#[derive(Debug)]
pub enum Degree {
    Exponent(Exponent),
    Number(Vec<u8>),
}

/// A multiplicative operator.
#[derive(Debug, PartialEq, Eq, Structural)]
pub enum TermOperator {
    Times,
    Divide,
}

/// One element of a term's alternating operand/operator sequence.
#[derive(Debug)]
pub enum TermPart {
    Operator(TermOperator),
    Degree(Degree),
}

/// A `*`/`/`-chained sequence of degrees, alternating
/// `Degree, TermOperator, Degree, ...`.
pub type Term = Vec<TermPart>;

/// An additive operator.
#[derive(Debug, PartialEq, Eq, Structural)]
pub enum EquationOperator {
    Plus,
    Minus,
}

/// One element of an equation's alternating operand/operator sequence.
#[derive(Debug)]
pub enum EquationPart {
    Operator(EquationOperator),
    Term(Term),
}

/// A `+`/`-`-chained sequence of terms, alternating
/// `Term, EquationOperator, Term, ...`; the parse root.
pub type Equation = Vec<EquationPart>;

/// The character of a multiplicative operator.
pub open spec fn term_op_char(op: TermOperator) -> u8 {
    match op {
        TermOperator::Times => CH_STAR,
        TermOperator::Divide => CH_SLASH,
    }
}

/// The character of an additive operator.
pub open spec fn equation_op_char(op: EquationOperator) -> u8 {
    match op {
        EquationOperator::Plus => CH_PLUS,
        EquationOperator::Minus => CH_MINUS,
    }
}

/// The text a degree stands for: the literal itself, or the base, a caret and
/// the power's text.
pub open spec fn degree_text(d: Degree) -> Seq<u8>
    decreases d,
{
    match d {
        Degree::Number(n) => n@,
        Degree::Exponent(e) => e.base@ + seq![CH_CARET] + degree_text(*e.power),
    }
}

/// The text one term element stands for.
pub open spec fn term_part_text(p: TermPart) -> Seq<u8> {
    match p {
        TermPart::Operator(op) => seq![term_op_char(op)],
        TermPart::Degree(d) => degree_text(d),
    }
}

/// The text a term stands for: its elements' texts, in order.
pub open spec fn term_text(ps: Seq<TermPart>) -> Seq<u8>
    decreases ps.len(),
{
    if ps.len() == 0 {
        Seq::empty()
    } else {
        term_text(ps.drop_last()) + term_part_text(ps.last())
    }
}

/// The text one equation element stands for.
pub open spec fn equation_part_text(p: EquationPart) -> Seq<u8> {
    match p {
        EquationPart::Operator(op) => seq![equation_op_char(op)],
        EquationPart::Term(t) => term_text(t@),
    }
}

/// The text an equation stands for: its elements' texts, in order.
pub open spec fn equation_text(ps: Seq<EquationPart>) -> Seq<u8>
    decreases ps.len(),
{
    if ps.len() == 0 {
        Seq::empty()
    } else {
        equation_text(ps.drop_last()) + equation_part_text(ps.last())
    }
}

/// A well-formed degree: every literal text in it really is one numeric
/// literal.
pub open spec fn wf_degree(d: Degree) -> bool
    decreases d,
{
    match d {
        Degree::Number(n) => is_literal(n@),
        Degree::Exponent(e) => is_literal(e.base@) && wf_degree(*e.power),
    }
}

/// The alternating shape of a term: operands on even positions, operators on
/// odd ones.
pub open spec fn term_shape(ps: Seq<TermPart>) -> bool {
    forall|i: int|
        0 <= i < ps.len() ==> (if i % 2 == 0 {
            ps[i] is Degree
        } else {
            ps[i] is Operator
        })
}

/// A well-formed term sequence: empty or of odd length, alternating, and with
/// every degree in it well formed.
pub open spec fn wf_term(ps: Seq<TermPart>) -> bool {
    &&& ps.len() % 2 == 1 || ps.len() == 0
    &&& term_shape(ps)
    &&& forall|i: int| 0 <= i < ps.len() && i % 2 == 0 ==> wf_degree(ps[i]->Degree_0)
}

/// The alternating shape of an equation: terms on even positions, operators
/// on odd ones.
pub open spec fn equation_shape(ps: Seq<EquationPart>) -> bool {
    forall|i: int|
        0 <= i < ps.len() ==> (if i % 2 == 0 {
            ps[i] is Term
        } else {
            ps[i] is Operator
        })
}

/// A well-formed equation sequence: empty or of odd length, alternating, and
/// with every inner term well formed and non-empty.
pub open spec fn wf_equation(ps: Seq<EquationPart>) -> bool {
    &&& ps.len() % 2 == 1 || ps.len() == 0
    &&& equation_shape(ps)
    &&& forall|i: int|
        0 <= i < ps.len() && i % 2 == 0 ==> wf_term(ps[i]->Term_0@) && ps[i]->Term_0@.len() > 0
}

impl TermPart {
    /// The degree this element holds. The original aborts on an operator
    /// element; that input is excluded here.
    pub fn degree(&self) -> (d: &Degree)
        requires
            self is Degree,
        ensures
            d == self->Degree_0,
    {
        match self {
            TermPart::Degree(d) => d,
            TermPart::Operator(_) => vstd::pervasive::unreached(),
        }
    }
}

impl EquationPart {
    /// The term this element holds. The original aborts on an operator
    /// element; that input is excluded here.
    pub fn term(&self) -> (t: &Term)
        requires
            self is Term,
        ensures
            t == self->Term_0,
    {
        match self {
            EquationPart::Term(t) => t,
            EquationPart::Operator(_) => vstd::pervasive::unreached(),
        }
    }
}

/// Whether `t` may be handed to the term evaluator: non-empty, of odd length
/// and alternating. An evaluator must abort on any other sequence.
pub fn term_evaluable(t: &Term) -> (b: bool)
    ensures
        b == (t@.len() > 0 && t@.len() % 2 == 1 && term_shape(t@)),
{
    if t.len() == 0 || t.len() % 2 == 0 {
        return false;
    }
    let mut i: usize = 0;
    while i < t.len()
        invariant
            0 <= i <= t@.len(),
            forall|k: int|
                0 <= k < i ==> (if k % 2 == 0 {
                    t@[k] is Degree
                } else {
                    t@[k] is Operator
                }),
        decreases t@.len() - i,
    {
        let ok = if i % 2 == 0 {
            matches!(&t[i], TermPart::Degree(_))
        } else {
            matches!(&t[i], TermPart::Operator(_))
        };
        if !ok {
            return false;
        }
        i = i + 1;
    }
    true
}

/// Whether `e` may be handed to the equation evaluator: non-empty, of odd
/// length and alternating. An evaluator must abort on any other sequence.
pub fn equation_evaluable(e: &Equation) -> (b: bool)
    ensures
        b == (e@.len() > 0 && e@.len() % 2 == 1 && equation_shape(e@)),
{
    if e.len() == 0 || e.len() % 2 == 0 {
        return false;
    }
    let mut i: usize = 0;
    while i < e.len()
        invariant
            0 <= i <= e@.len(),
            forall|k: int|
                0 <= k < i ==> (if k % 2 == 0 {
                    e@[k] is Term
                } else {
                    e@[k] is Operator
                }),
        decreases e@.len() - i,
    {
        let ok = if i % 2 == 0 {
            matches!(&e[i], EquationPart::Term(_))
        } else {
            matches!(&e[i], EquationPart::Operator(_))
        };
        if !ok {
            return false;
        }
        i = i + 1;
    }
    true
}

} // verus!
