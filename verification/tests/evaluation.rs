//! Evaluation of parsed trees with a reference evaluator: precedence,
//! right-associativity, division edge cases and the structural guards.

use eqparse::equation_evaluable;
use eqparse::parse_equation;
use eqparse::term_evaluable;
use eqparse::Degree;
use eqparse::Equation;
use eqparse::EquationOperator;
use eqparse::EquationPart;
use eqparse::Term;
use eqparse::TermOperator;
use eqparse::TermPart;

fn bytes(text: &str) -> Vec<u8> {
    text.as_bytes().to_vec()
}

fn number_value(text: &[u8]) -> f64 {
    std::str::from_utf8(text).unwrap().parse().unwrap()
}

fn eval_degree(degree: &Degree) -> f64 {
    match degree {
        Degree::Number(n) => number_value(n),
        Degree::Exponent(e) => number_value(&e.base).powf(eval_degree(&e.power)),
    }
}

fn eval_term(term: &Term) -> f64 {
    assert!(term_evaluable(term), "malformed equation");
    let mut acc: f64 = match &term[0] {
        TermPart::Degree(d) => eval_degree(d),
        _ => panic!("malformed expression"),
    };
    let mut i: usize = 1;
    while i < term.len() {
        let op = match &term[i] {
            TermPart::Operator(op) => op,
            _ => panic!("malformed expression"),
        };
        let operand = match &term[i + 1] {
            TermPart::Degree(d) => eval_degree(d),
            _ => panic!("malformed expression"),
        };
        acc = match op {
            TermOperator::Times => acc * operand,
            TermOperator::Divide => acc / operand,
        };
        i += 2;
    }
    acc
}

fn eval_equation(equation: &Equation) -> f64 {
    assert!(equation_evaluable(equation), "malformed equation");
    let mut acc: f64 = match &equation[0] {
        EquationPart::Term(t) => eval_term(t),
        _ => panic!("malformed expression"),
    };
    let mut i: usize = 1;
    while i < equation.len() {
        let op = match &equation[i] {
            EquationPart::Operator(op) => op,
            _ => panic!("malformed expression"),
        };
        let operand = match &equation[i + 1] {
            EquationPart::Term(t) => eval_term(t),
            _ => panic!("malformed expression"),
        };
        acc = match op {
            EquationOperator::Plus => acc + operand,
            EquationOperator::Minus => acc - operand,
        };
        i += 2;
    }
    acc
}

fn eval_str(text: &str) -> f64 {
    let input = bytes(text);
    let (equation, end) = parse_equation(&input).unwrap();
    assert_eq!(end, input.len());
    eval_equation(&equation)
}

#[test]
fn precedence_value() {
    assert_eq!(eval_str("2+3*4"), 14.0);
}

#[test]
fn exponent_right_associative_value() {
    assert_eq!(eval_str("2^3^2"), 512.0);
}

#[test]
fn division_by_zero_semantics() {
    assert_eq!(eval_str("1/0"), f64::INFINITY);
    assert_eq!(eval_str("-1/0"), f64::NEG_INFINITY);
    assert!(eval_str("0/0").is_nan());
}

#[test]
fn empty_sequences_are_not_evaluable() {
    let no_parts: Equation = Vec::new();
    assert!(!equation_evaluable(&no_parts));
    let no_term_parts: Term = Vec::new();
    assert!(!term_evaluable(&no_term_parts));
}

#[test]
fn parsed_sequences_are_evaluable() {
    let input = bytes("1*2-3");
    let (equation, _) = parse_equation(&input).unwrap();
    assert!(equation_evaluable(&equation));
    match &equation[0] {
        EquationPart::Term(t) => assert!(term_evaluable(t)),
        _ => panic!("malformed expression"),
    }
}

#[test]
fn left_fold_values() {
    assert_eq!(eval_str("1+2-3"), 0.0);
    assert_eq!(eval_str("8/2/2"), 2.0);
    assert_eq!(eval_str("2^3*4"), 32.0);
    assert_eq!(eval_str("2*3^2"), 18.0);
    assert_eq!(eval_str("10-4+1"), 7.0);
}

#[test]
fn fractional_and_negative_exponents() {
    assert_eq!(eval_str("9^0.5"), 3.0);
    assert_eq!(eval_str("2^-1"), 0.5);
    assert!(eval_str("-8^0.5").is_nan());
}
