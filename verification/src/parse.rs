//! The recursive-descent parser: a three-level grammar (equation over terms
//! over degrees, with right-recursive exponent chains) whose exec functions
//! are proved to follow the spec parser exactly and to return trees that
//! print back to the text they consumed.
//!
//! Both `*`/`/` terms and `+`/`-` equations are the same alternating-list
//! loop: parse an operand, then repeat separator-then-operand, rolling back a
//! matched separator whose operand then fails without consuming, so that a
//! trailing operator is left unconsumed instead of failing the parse.

use vstd::prelude::*;

use crate::ast::degree_text;
use crate::ast::equation_op_char;
use crate::ast::equation_part_text;
use crate::ast::equation_text;
use crate::ast::term_op_char;
use crate::ast::term_part_text;
use crate::ast::term_text;
use crate::ast::wf_degree;
use crate::ast::wf_equation;
use crate::ast::wf_term;
use crate::ast::Degree;
use crate::ast::Equation;
use crate::ast::EquationOperator;
use crate::ast::EquationPart;
use crate::ast::Exponent;
use crate::ast::ParseError;
use crate::ast::Term;
use crate::ast::TermOperator;
use crate::ast::TermPart;
use crate::literal::is_literal;
use crate::literal::lemma_lit_end_gt;
use crate::literal::lemma_lit_extract;
use crate::literal::lit_end;
use crate::literal::scan_number;
use crate::literal::CH_CARET;
use crate::literal::CH_MINUS;
use crate::literal::CH_PLUS;
use crate::literal::CH_SLASH;
use crate::literal::CH_STAR;

verus! {

/// What a parse attempt does at a given position: succeeds up to `end`,
/// applies not at all (`Missed`, nothing consumed), or commits input and then
/// fails at `at` (`Fatal`).
pub enum ParseOutcome {
    Done { end: int },
    Missed,
    Fatal { at: int },
}

/// A multiplicative operator character.
pub open spec fn is_term_op_char(c: u8) -> bool {
    c == CH_STAR || c == CH_SLASH
}

/// An additive operator character.
pub open spec fn is_equation_op_char(c: u8) -> bool {
    c == CH_PLUS || c == CH_MINUS
}

/// Where an exponent starting at `pos` ends: a numeric literal, a caret and a
/// degree. Missing base or caret is no match; a matched base and caret whose
/// degree then fails without consuming is a fatal failure at the position
/// after the caret.
pub open spec fn spec_exponent(s: Seq<u8>, pos: int) -> ParseOutcome
    decreases s.len() - pos, 0int,
{
    match lit_end(s, pos) {
        Option::None => ParseOutcome::Missed,
        Option::Some(b) => if pos <= b && b < s.len() && s[b] == CH_CARET {
            match spec_degree(s, b + 1) {
                ParseOutcome::Done { end } => ParseOutcome::Done { end },
                ParseOutcome::Missed => ParseOutcome::Fatal { at: b + 1 },
                ParseOutcome::Fatal { at } => ParseOutcome::Fatal { at },
            }
        } else {
            ParseOutcome::Missed
        },
    }
}

/// Where a degree starting at `pos` ends: an exponent if one starts there,
/// else a bare numeric literal. The exponent must come first — every exponent
/// begins with a literal, so the bare literal would otherwise always win —
/// and its no-match must leave `pos` unconsumed so the fallback can run.
pub open spec fn spec_degree(s: Seq<u8>, pos: int) -> ParseOutcome
    decreases s.len() - pos, 1int,
{
    match spec_exponent(s, pos) {
        ParseOutcome::Missed => match lit_end(s, pos) {
            Option::Some(e) => ParseOutcome::Done { end: e },
            Option::None => ParseOutcome::Missed,
        },
        r => r,
    }
}

/// Where the `*`/`/` tail of a term continues from `pos`: zero or more
/// operator-then-degree steps. A degree that fails without consuming rolls
/// the matched operator back, so the tail ends before it; a fatal degree
/// failure is passed up.
pub open spec fn spec_term_rest(s: Seq<u8>, pos: int) -> ParseOutcome
    decreases s.len() - pos,
{
    if pos < s.len() && is_term_op_char(s[pos]) {
        match spec_degree(s, pos + 1) {
            ParseOutcome::Missed => ParseOutcome::Done { end: pos },
            ParseOutcome::Fatal { at } => ParseOutcome::Fatal { at },
            ParseOutcome::Done { end } => if pos + 1 <= end && end <= s.len() {
                spec_term_rest(s, end)
            } else {
                ParseOutcome::Done { end: pos }
            },
        }
    } else {
        ParseOutcome::Done { end: pos }
    }
}

/// Where a term starting at `pos` ends. A term whose first degree fails
/// without consuming is empty and succeeds at `pos` itself; the at-least-one-
/// operand requirement is the evaluator's, not the parser's.
pub open spec fn spec_term(s: Seq<u8>, pos: int) -> ParseOutcome {
    match spec_degree(s, pos) {
        ParseOutcome::Missed => ParseOutcome::Done { end: pos },
        ParseOutcome::Fatal { at } => ParseOutcome::Fatal { at },
        ParseOutcome::Done { end } => spec_term_rest(s, end),
    }
}

/// Where the `+`/`-` tail of an equation continues from `pos`. A term after
/// a matched operator that comes back empty — it consumed nothing — rolls the
/// operator back, so a trailing operator stays unconsumed.
pub open spec fn spec_equation_rest(s: Seq<u8>, pos: int) -> ParseOutcome
    decreases s.len() - pos,
{
    if pos < s.len() && is_equation_op_char(s[pos]) {
        match spec_term(s, pos + 1) {
            ParseOutcome::Missed => ParseOutcome::Done { end: pos },
            ParseOutcome::Fatal { at } => ParseOutcome::Fatal { at },
            ParseOutcome::Done { end } => if end == pos + 1 {
                ParseOutcome::Done { end: pos }
            } else if pos + 1 <= end && end <= s.len() {
                spec_equation_rest(s, end)
            } else {
                ParseOutcome::Done { end: pos }
            },
        }
    } else {
        ParseOutcome::Done { end: pos }
    }
}

/// Where an equation starting at `pos` ends: the parse root. An equation
/// whose first term is empty is itself empty and succeeds at `pos`.
pub open spec fn spec_equation(s: Seq<u8>, pos: int) -> ParseOutcome {
    match spec_term(s, pos) {
        ParseOutcome::Missed => ParseOutcome::Done { end: pos },
        ParseOutcome::Fatal { at } => ParseOutcome::Fatal { at },
        ParseOutcome::Done { end } => if end == pos {
            ParseOutcome::Done { end: pos }
        } else if pos <= end && end <= s.len() {
            spec_equation_rest(s, end)
        } else {
            ParseOutcome::Done { end: pos }
        },
    }
}

/// Copies `s[lo..hi]` into a fresh vector.
fn copy_range(s: &Vec<u8>, lo: usize, hi: usize) -> (v: Vec<u8>)
    requires
        lo <= hi <= s.len(),
    ensures
        v@ == s@.subrange(lo as int, hi as int),
{
    let mut v: Vec<u8> = Vec::new();
    let mut i: usize = lo;
    proof {
        assert(v@ =~= s@.subrange(lo as int, lo as int));
    }
    while i < hi
        invariant
            lo <= i <= hi <= s.len(),
            v@ == s@.subrange(lo as int, i as int),
        decreases hi - i,
    {
        v.push(s[i]);
        i = i + 1;
        proof {
            assert(v@ =~= s@.subrange(lo as int, i as int));
        }
    }
    v
}

/// Parses an exponent at `pos`: literal base, caret, degree power.
fn parse_exponent_at(s: &Vec<u8>, pos: usize) -> (r: Result<(Exponent, usize), ParseError>)
    requires
        pos <= s.len(),
    ensures
        (match r {
            Ok((node, end)) => {
                &&& pos < end <= s.len()
                &&& spec_exponent(s@, pos as int) == (ParseOutcome::Done { end: end as int })
                &&& is_literal(node.base@) && wf_degree(*node.power)
                &&& node.base@ + seq![CH_CARET] + degree_text(*node.power) == s@.subrange(
                    pos as int,
                    end as int,
                )
            },
            Err(ParseError::NoMatch) => spec_exponent(s@, pos as int) is Missed,
            Err(ParseError::Malformed(at)) => spec_exponent(s@, pos as int) == (ParseOutcome::Fatal {
                at: at as int,
            }),
        }),
    decreases s.len() - pos, 0int,
{
    match scan_number(s, pos) {
        Option::None => Err(ParseError::NoMatch),
        Option::Some(b) => {
            if b < s.len() && s[b] == CH_CARET {
                match parse_degree_at(s, b + 1) {
                    Ok((power, end)) => {
                        let base = copy_range(s, pos, b);
                        proof {
                            lemma_lit_extract(s@, pos as int, b as int);
                            assert(s@.subrange(pos as int, b as int) + seq![CH_CARET]
                                + s@.subrange(b as int + 1, end as int) =~= s@.subrange(
                                pos as int,
                                end as int,
                            ));
                        }
                        Ok((Exponent { base, power: Box::new(power) }, end))
                    },
                    Err(ParseError::NoMatch) => Err(ParseError::Malformed(b + 1)),
                    Err(ParseError::Malformed(at)) => Err(ParseError::Malformed(at)),
                }
            } else {
                Err(ParseError::NoMatch)
            }
        },
    }
}

/// Parses a degree at `pos`: an exponent, else a bare literal.
fn parse_degree_at(s: &Vec<u8>, pos: usize) -> (r: Result<(Degree, usize), ParseError>)
    requires
        pos <= s.len(),
    ensures
        (match r {
            Ok((node, end)) => {
                &&& pos < end <= s.len()
                &&& spec_degree(s@, pos as int) == (ParseOutcome::Done { end: end as int })
                &&& wf_degree(node)
                &&& degree_text(node) == s@.subrange(pos as int, end as int)
            },
            Err(ParseError::NoMatch) => spec_degree(s@, pos as int) is Missed,
            Err(ParseError::Malformed(at)) => spec_degree(s@, pos as int) == (ParseOutcome::Fatal {
                at: at as int,
            }),
        }),
    decreases s.len() - pos, 1int,
{
    match parse_exponent_at(s, pos) {
        Ok((e, end)) => Ok((Degree::Exponent(e), end)),
        Err(ParseError::Malformed(at)) => Err(ParseError::Malformed(at)),
        Err(ParseError::NoMatch) => {
            match scan_number(s, pos) {
                Option::Some(e) => {
                    let text = copy_range(s, pos, e);
                    proof {
                        lemma_lit_extract(s@, pos as int, e as int);
                        lemma_lit_end_gt(s@, pos as int, e as int);
                    }
                    Ok((Degree::Number(text), e))
                },
                Option::None => Err(ParseError::NoMatch),
            }
        },
    }
}

/// Parses a term at `pos`: `degree (term-operator degree)*`, possibly empty.
fn parse_term_at(s: &Vec<u8>, pos: usize) -> (r: Result<(Term, usize), ParseError>)
    requires
        pos <= s.len(),
    ensures
        (match r {
            Ok((node, end)) => {
                &&& pos <= end <= s.len()
                &&& spec_term(s@, pos as int) == (ParseOutcome::Done { end: end as int })
                &&& wf_term(node@)
                &&& (node@.len() == 0 <==> end == pos)
                &&& term_text(node@) == s@.subrange(pos as int, end as int)
            },
            Err(ParseError::NoMatch) => spec_term(s@, pos as int) is Missed,
            Err(ParseError::Malformed(at)) => spec_term(s@, pos as int) == (ParseOutcome::Fatal {
                at: at as int,
            }),
        }),
{
    let mut parts: Vec<TermPart> = Vec::new();
    let mut cur: usize;
    match parse_degree_at(s, pos) {
        Err(ParseError::NoMatch) => {
            proof {
                assert(term_text(parts@) =~= s@.subrange(pos as int, pos as int));
            }
            return Ok((parts, pos));
        },
        Err(ParseError::Malformed(at)) => {
            return Err(ParseError::Malformed(at));
        },
        Ok((d, e)) => {
            let ghost d_spec = d;
            parts.push(TermPart::Degree(d));
            cur = e;
            proof {
                assert(parts@.last() == TermPart::Degree(d_spec));
                assert(parts@.drop_last() =~= Seq::<TermPart>::empty());
                assert(term_text(parts@) == term_text(parts@.drop_last()) + term_part_text(
                    parts@.last(),
                ));
                assert(term_text(Seq::<TermPart>::empty()) == Seq::<u8>::empty());
                assert(term_text(parts@) =~= degree_text(d_spec));
            }
        },
    }
    while cur < s.len() && (s[cur] == CH_STAR || s[cur] == CH_SLASH)
        invariant
            pos < cur <= s.len(),
            spec_term(s@, pos as int) == spec_term_rest(s@, cur as int),
            wf_term(parts@),
            parts@.len() % 2 == 1,
            term_text(parts@) == s@.subrange(pos as int, cur as int),
        decreases s.len() - cur,
    {
        let op = if s[cur] == CH_STAR {
            TermOperator::Times
        } else {
            TermOperator::Divide
        };
        match parse_degree_at(s, cur + 1) {
            Err(ParseError::NoMatch) => {
                return Ok((parts, cur));
            },
            Err(ParseError::Malformed(at)) => {
                return Err(ParseError::Malformed(at));
            },
            Ok((d, e)) => {
                let ghost d_spec = d;
                let ghost old_parts = parts@;
                let ghost old_cur = cur as int;
                parts.push(TermPart::Operator(op));
                parts.push(TermPart::Degree(d));
                cur = e;
                proof {
                    let mid = old_parts.push(TermPart::Operator(op));
                    assert(mid.drop_last() =~= old_parts);
                    assert(parts@.drop_last() =~= mid);
                    assert(term_text(mid) == term_text(old_parts) + seq![term_op_char(op)]);
                    assert(term_text(parts@) == term_text(mid) + degree_text(d_spec));
                    assert(s@.subrange(pos as int, old_cur) + seq![term_op_char(op)]
                        + s@.subrange(old_cur + 1, cur as int) =~= s@.subrange(
                        pos as int,
                        cur as int,
                    ));
                    assert forall|i: int| 0 <= i < parts@.len() implies (if i % 2 == 0 {
                        parts@[i] is Degree
                    } else {
                        parts@[i] is Operator
                    }) by {
                        if i < old_parts.len() {
                            assert(parts@[i] == old_parts[i]);
                        }
                    }
                }
            },
        }
    }
    Ok((parts, cur))
}

/// Parses an equation at `pos`: `term (equation-operator term)*`, possibly
/// empty, with an empty term after a matched operator rolling the operator
/// back.
fn parse_equation_at(s: &Vec<u8>, pos: usize) -> (r: Result<(Equation, usize), ParseError>)
    requires
        pos <= s.len(),
    ensures
        (match r {
            Ok((node, end)) => {
                &&& pos <= end <= s.len()
                &&& spec_equation(s@, pos as int) == (ParseOutcome::Done { end: end as int })
                &&& wf_equation(node@)
                &&& (node@.len() == 0 <==> end == pos)
                &&& equation_text(node@) == s@.subrange(pos as int, end as int)
            },
            Err(ParseError::NoMatch) => spec_equation(s@, pos as int) is Missed,
            Err(ParseError::Malformed(at)) => spec_equation(s@, pos as int) == (ParseOutcome::Fatal {
                at: at as int,
            }),
        }),
{
    let mut parts: Vec<EquationPart> = Vec::new();
    let mut cur: usize;
    match parse_term_at(s, pos) {
        Err(ParseError::NoMatch) => {
            proof {
                assert(equation_text(parts@) =~= s@.subrange(pos as int, pos as int));
            }
            return Ok((parts, pos));
        },
        Err(ParseError::Malformed(at)) => {
            return Err(ParseError::Malformed(at));
        },
        Ok((t, e)) => {
            if t.len() == 0 {
                proof {
                    assert(equation_text(parts@) =~= s@.subrange(pos as int, pos as int));
                }
                return Ok((parts, pos));
            }
            let ghost t_spec = t@;
            let ghost t_spec_vec = t;
            parts.push(EquationPart::Term(t));
            cur = e;
            proof {
                assert(parts@.last() == EquationPart::Term(t_spec_vec));
                assert(parts@.drop_last() =~= Seq::<EquationPart>::empty());
                assert(equation_text(parts@) == equation_text(parts@.drop_last())
                    + equation_part_text(parts@.last()));
                assert(equation_text(Seq::<EquationPart>::empty()) == Seq::<u8>::empty());
                assert(equation_text(parts@) =~= term_text(t_spec));
            }
        },
    }
    while cur < s.len() && (s[cur] == CH_PLUS || s[cur] == CH_MINUS)
        invariant
            pos < cur <= s.len(),
            spec_equation(s@, pos as int) == spec_equation_rest(s@, cur as int),
            wf_equation(parts@),
            parts@.len() % 2 == 1,
            equation_text(parts@) == s@.subrange(pos as int, cur as int),
        decreases s.len() - cur,
    {
        let op = if s[cur] == CH_PLUS {
            EquationOperator::Plus
        } else {
            EquationOperator::Minus
        };
        match parse_term_at(s, cur + 1) {
            Err(ParseError::NoMatch) => {
                return Ok((parts, cur));
            },
            Err(ParseError::Malformed(at)) => {
                return Err(ParseError::Malformed(at));
            },
            Ok((t, e)) => {
                if t.len() == 0 {
                    return Ok((parts, cur));
                }
                let ghost t_spec = t@;
                let ghost old_parts = parts@;
                let ghost old_cur = cur as int;
                parts.push(EquationPart::Operator(op));
                parts.push(EquationPart::Term(t));
                cur = e;
                proof {
                    let mid = old_parts.push(EquationPart::Operator(op));
                    assert(mid.drop_last() =~= old_parts);
                    assert(parts@.drop_last() =~= mid);
                    assert(equation_text(mid) == equation_text(old_parts) + seq![equation_op_char(
                        op,
                    )]);
                    assert(equation_text(parts@) == equation_text(mid) + term_text(t_spec));
                    assert(s@.subrange(pos as int, old_cur) + seq![equation_op_char(op)]
                        + s@.subrange(old_cur + 1, cur as int) =~= s@.subrange(
                        pos as int,
                        cur as int,
                    ));
                    assert forall|i: int| 0 <= i < parts@.len() implies (if i % 2 == 0 {
                        parts@[i] is Term
                    } else {
                        parts@[i] is Operator
                    }) by {
                        if i < old_parts.len() {
                            assert(parts@[i] == old_parts[i]);
                        }
                    }
                }
            },
        }
    }
    Ok((parts, cur))
}

/// A grammar node that can be parsed from a position in the input. The
/// contract of `parse` is one statement for every node type: the result
/// follows the node's spec parser exactly, the returned tree is well formed,
/// and it prints back to precisely the text that was consumed.
pub trait Parsable: Sized {
    /// The node's spec parser.
    spec fn spec_parse(s: Seq<u8>, pos: int) -> ParseOutcome;

    /// When a returned node is well formed.
    spec fn wf(&self) -> bool;

    /// The text a node stands for.
    spec fn text(&self) -> Seq<u8>;

    /// Parses one node of this type at `pos`.
    fn parse(s: &Vec<u8>, pos: usize) -> (r: Result<(Self, usize), ParseError>)
        requires
            pos <= s.len(),
        ensures
            (match r {
                Ok((node, end)) => {
                    &&& pos <= end <= s.len()
                    &&& Self::spec_parse(s@, pos as int) == (ParseOutcome::Done { end: end as int })
                    &&& node.wf()
                    &&& node.text() == s@.subrange(pos as int, end as int)
                },
                Err(ParseError::NoMatch) => Self::spec_parse(s@, pos as int) is Missed,
                Err(ParseError::Malformed(at)) => Self::spec_parse(s@, pos as int)
                    == (ParseOutcome::Fatal { at: at as int }),
            }),
    ;
}

impl Parsable for Exponent {
    open spec fn spec_parse(s: Seq<u8>, pos: int) -> ParseOutcome {
        spec_exponent(s, pos)
    }

    open spec fn wf(&self) -> bool {
        is_literal(self.base@) && wf_degree(*self.power)
    }

    open spec fn text(&self) -> Seq<u8> {
        self.base@ + seq![CH_CARET] + degree_text(*self.power)
    }

    fn parse(s: &Vec<u8>, pos: usize) -> (r: Result<(Self, usize), ParseError>) {
        parse_exponent_at(s, pos)
    }
}

impl Parsable for Degree {
    open spec fn spec_parse(s: Seq<u8>, pos: int) -> ParseOutcome {
        spec_degree(s, pos)
    }

    open spec fn wf(&self) -> bool {
        wf_degree(*self)
    }

    open spec fn text(&self) -> Seq<u8> {
        degree_text(*self)
    }

    fn parse(s: &Vec<u8>, pos: usize) -> (r: Result<(Self, usize), ParseError>) {
        parse_degree_at(s, pos)
    }
}

impl Parsable for TermOperator {
    open spec fn spec_parse(s: Seq<u8>, pos: int) -> ParseOutcome {
        if pos < s.len() && is_term_op_char(s[pos]) {
            ParseOutcome::Done { end: pos + 1 }
        } else {
            ParseOutcome::Missed
        }
    }

    open spec fn wf(&self) -> bool {
        true
    }

    open spec fn text(&self) -> Seq<u8> {
        seq![term_op_char(*self)]
    }

    fn parse(s: &Vec<u8>, pos: usize) -> (r: Result<(Self, usize), ParseError>) {
        if pos < s.len() && s[pos] == CH_STAR {
            proof {
                assert(seq![term_op_char(TermOperator::Times)] =~= s@.subrange(
                    pos as int,
                    pos as int + 1,
                ));
            }
            Ok((TermOperator::Times, pos + 1))
        } else if pos < s.len() && s[pos] == CH_SLASH {
            proof {
                assert(seq![term_op_char(TermOperator::Divide)] =~= s@.subrange(
                    pos as int,
                    pos as int + 1,
                ));
            }
            Ok((TermOperator::Divide, pos + 1))
        } else {
            Err(ParseError::NoMatch)
        }
    }
}

impl Parsable for EquationOperator {
    open spec fn spec_parse(s: Seq<u8>, pos: int) -> ParseOutcome {
        if pos < s.len() && is_equation_op_char(s[pos]) {
            ParseOutcome::Done { end: pos + 1 }
        } else {
            ParseOutcome::Missed
        }
    }

    open spec fn wf(&self) -> bool {
        true
    }

    open spec fn text(&self) -> Seq<u8> {
        seq![equation_op_char(*self)]
    }

    fn parse(s: &Vec<u8>, pos: usize) -> (r: Result<(Self, usize), ParseError>) {
        if pos < s.len() && s[pos] == CH_PLUS {
            proof {
                assert(seq![equation_op_char(EquationOperator::Plus)] =~= s@.subrange(
                    pos as int,
                    pos as int + 1,
                ));
            }
            Ok((EquationOperator::Plus, pos + 1))
        } else if pos < s.len() && s[pos] == CH_MINUS {
            proof {
                assert(seq![equation_op_char(EquationOperator::Minus)] =~= s@.subrange(
                    pos as int,
                    pos as int + 1,
                ));
            }
            Ok((EquationOperator::Minus, pos + 1))
        } else {
            Err(ParseError::NoMatch)
        }
    }
}

impl Parsable for Term {
    open spec fn spec_parse(s: Seq<u8>, pos: int) -> ParseOutcome {
        spec_term(s, pos)
    }

    open spec fn wf(&self) -> bool {
        wf_term(self@)
    }

    open spec fn text(&self) -> Seq<u8> {
        term_text(self@)
    }

    fn parse(s: &Vec<u8>, pos: usize) -> (r: Result<(Self, usize), ParseError>) {
        parse_term_at(s, pos)
    }
}

impl Parsable for Equation {
    open spec fn spec_parse(s: Seq<u8>, pos: int) -> ParseOutcome {
        spec_equation(s, pos)
    }

    open spec fn wf(&self) -> bool {
        wf_equation(self@)
    }

    open spec fn text(&self) -> Seq<u8> {
        equation_text(self@)
    }

    fn parse(s: &Vec<u8>, pos: usize) -> (r: Result<(Self, usize), ParseError>) {
        parse_equation_at(s, pos)
    }
}

/// Parses a whole input as an equation and returns the tree and the position
/// of the first unconsumed character. The input is expected to hold no
/// whitespace; the caller strips it beforehand.
pub fn parse_equation(s: &Vec<u8>) -> (r: Result<(Equation, usize), ParseError>)
    ensures
        (match r {
            Ok((node, end)) => {
                &&& end <= s.len()
                &&& spec_equation(s@, 0) == (ParseOutcome::Done { end: end as int })
                &&& wf_equation(node@)
                &&& (node@.len() == 0 <==> end == 0)
                &&& equation_text(node@) == s@.subrange(0, end as int)
            },
            Err(ParseError::NoMatch) => spec_equation(s@, 0) is Missed,
            Err(ParseError::Malformed(at)) => spec_equation(s@, 0) == (ParseOutcome::Fatal {
                at: at as int,
            }),
        }),
{
    parse_equation_at(s, 0)
}

} // verus!
