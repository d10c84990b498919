//! Parsing behaviour: grammar shape, precedence grouping, rollback and the
//! fatal/non-fatal distinction.

use eqparse::inside_parens;
use eqparse::parse_equation;
use eqparse::Degree;
use eqparse::EquationOperator;
use eqparse::EquationPart;
use eqparse::Exponent;
use eqparse::ParseError;
use eqparse::Parsable;
use eqparse::Term;
use eqparse::TermOperator;
use eqparse::TermPart;
use rand::rngs::StdRng;
use rand::Rng;
use rand::SeedableRng;

fn bytes(text: &str) -> Vec<u8> {
    text.as_bytes().to_vec()
}

fn build_string(parts: usize) -> String {
    let mut rng = StdRng::seed_from_u64(0);
    let mut text = String::with_capacity(12 * parts - 1);

    text.push_str(&rng.gen::<i32>().to_string());

    for _ in 1..parts {
        text.push(match rng.gen_range(0..5) {
            0 => '+',
            1 => '-',
            2 => '*',
            3 => '/',
            _ => '^',
        });
        text.push_str(&rng.gen::<i32>().to_string());
    }

    text
}

#[test]
fn test_parse() {
    let text = build_string(100_000);
    let input = text.into_bytes();

    let (_, end) = parse_equation(&input).unwrap();
    assert!(input.len() - end == 0);
}

#[test]
fn test_inside_parens() {
    let data = bytes("((1 + 1))))()())((()");

    let close = inside_parens(&data, 0).unwrap();

    assert_eq!(&data[1..close], "(1 + 1)".as_bytes());
    assert_eq!(&data[close + 1..], "))()())((()".as_bytes());
}

#[test]
fn inside_parens_rejects_other_starts() {
    assert_eq!(inside_parens(&bytes("1+(2)"), 0), None);
    assert_eq!(inside_parens(&bytes("((1)"), 0), None);
    assert_eq!(inside_parens(&bytes(""), 0), None);
}

#[test]
fn degree_fallback_bare_number() {
    let input = bytes("5");
    let (equation, end) = parse_equation(&input).unwrap();

    assert_eq!(end, 1);
    assert_eq!(equation.len(), 1);
    let term = match &equation[0] {
        EquationPart::Term(t) => t,
        _ => panic!("expected a term"),
    };
    assert_eq!(term.len(), 1);
    assert!(matches!(&term[0], TermPart::Degree(Degree::Number(n)) if n == &bytes("5")));
}

#[test]
fn trailing_operator_rolls_back() {
    let input = bytes("1+2+");
    let (equation, end) = parse_equation(&input).unwrap();

    assert_eq!(end, 3);
    assert_eq!(equation.len(), 3);
    assert!(matches!(&equation[1], EquationPart::Operator(EquationOperator::Plus)));
}

#[test]
fn trailing_term_operator_rolls_back() {
    let input = bytes("2*3/");
    let (equation, end) = parse_equation(&input).unwrap();

    assert_eq!(end, 3);
    assert_eq!(equation.len(), 1);
    let term = match &equation[0] {
        EquationPart::Term(t) => t,
        _ => panic!("expected a term"),
    };
    assert_eq!(term.len(), 3);
}

#[test]
fn malformed_exponent_is_fatal() {
    assert!(matches!(parse_equation(&bytes("2^")), Err(ParseError::Malformed(2))));
    assert!(matches!(parse_equation(&bytes("1+2^*3")), Err(ParseError::Malformed(4))));
    assert!(matches!(parse_equation(&bytes("4*2^")), Err(ParseError::Malformed(4))));
}

#[test]
fn precedence_groups_times_before_plus() {
    let input = bytes("2+3*4");
    let (equation, end) = parse_equation(&input).unwrap();

    assert_eq!(end, 5);
    assert_eq!(equation.len(), 3);
    let first = match &equation[0] {
        EquationPart::Term(t) => t,
        _ => panic!("expected a term"),
    };
    let second = match &equation[2] {
        EquationPart::Term(t) => t,
        _ => panic!("expected a term"),
    };
    assert_eq!(first.len(), 1);
    assert_eq!(second.len(), 3);
    assert!(matches!(&second[1], TermPart::Operator(TermOperator::Times)));
}

#[test]
fn exponent_chain_nests_to_the_right() {
    let input = bytes("2^3^2");
    let (equation, _) = parse_equation(&input).unwrap();

    let term = match &equation[0] {
        EquationPart::Term(t) => t,
        _ => panic!("expected a term"),
    };
    let outer = match &term[0] {
        TermPart::Degree(Degree::Exponent(e)) => e,
        _ => panic!("expected an exponent"),
    };
    assert_eq!(outer.base, bytes("2"));
    let inner = match outer.power.as_ref() {
        Degree::Exponent(e) => e,
        _ => panic!("expected a nested exponent"),
    };
    assert_eq!(inner.base, bytes("3"));
    assert!(matches!(inner.power.as_ref(), Degree::Number(n) if n == &bytes("2")));
}

#[test]
fn empty_input_parses_empty() {
    let (equation, end) = parse_equation(&bytes("")).unwrap();
    assert_eq!(end, 0);
    assert_eq!(equation.len(), 0);
}

#[test]
fn leading_operator_parses_empty() {
    let (equation, end) = parse_equation(&bytes("*3")).unwrap();
    assert_eq!(end, 0);
    assert_eq!(equation.len(), 0);
}

#[test]
fn exponent_without_caret_is_no_match() {
    assert!(matches!(Exponent::parse(&bytes("7"), 0), Err(ParseError::NoMatch)));
    let (node, end) = Exponent::parse(&bytes("7^2"), 0).unwrap();
    assert_eq!(end, 3);
    assert_eq!(node.base, bytes("7"));
}

#[test]
fn operator_tokens_parse() {
    assert_eq!(TermOperator::parse(&bytes("*"), 0), Ok((TermOperator::Times, 1)));
    assert_eq!(TermOperator::parse(&bytes("/"), 0), Ok((TermOperator::Divide, 1)));
    assert_eq!(TermOperator::parse(&bytes("+"), 0), Err(ParseError::NoMatch));
    assert_eq!(EquationOperator::parse(&bytes("+"), 0), Ok((EquationOperator::Plus, 1)));
    assert_eq!(EquationOperator::parse(&bytes("-"), 0), Ok((EquationOperator::Minus, 1)));
    assert_eq!(EquationOperator::parse(&bytes("*"), 0), Err(ParseError::NoMatch));
}

#[test]
fn literal_forms_consumed_whole() {
    for text in ["1.5e-3", "+5", "-5", ".5", "1.", "2E4", "-2e+7", "10.25"] {
        let input = bytes(text);
        let (equation, end) = parse_equation(&input).unwrap();
        assert_eq!(end, input.len(), "expected {} to be consumed whole", text);
        assert_eq!(equation.len(), 1);
    }
}

#[test]
fn dangling_exponent_marker_stays() {
    let input = bytes("1e");
    let (equation, end) = parse_equation(&input).unwrap();

    assert_eq!(end, 1);
    assert_eq!(equation.len(), 1);
}

#[test]
fn signed_operands_after_operators() {
    let input = bytes("1--2");
    let (equation, end) = parse_equation(&input).unwrap();

    assert_eq!(end, 4);
    assert_eq!(equation.len(), 3);
    let second = match &equation[2] {
        EquationPart::Term(t) => t,
        _ => panic!("expected a term"),
    };
    assert!(matches!(&second[0], TermPart::Degree(Degree::Number(n)) if n == &bytes("-2")));
}

#[test]
fn term_parse_direct() {
    let input = bytes("3*4+5");
    let (term, end) = Term::parse(&input, 0).unwrap();

    assert_eq!(end, 3);
    assert_eq!(term.len(), 3);
}

#[test]
fn degree_parse_direct() {
    let input = bytes("2^3+1");
    let (degree, end) = Degree::parse(&input, 0).unwrap();

    assert_eq!(end, 3);
    assert!(matches!(degree, Degree::Exponent(_)));
    assert!(matches!(Degree::parse(&bytes("x"), 0), Err(ParseError::NoMatch)));
}

#[test]
fn part_accessors_return_the_operand() {
    let input = bytes("3*4");
    let (equation, _) = parse_equation(&input).unwrap();

    let term = equation[0].term();
    assert_eq!(term.len(), 3);
    let degree = term[0].degree();
    assert!(matches!(degree, Degree::Number(n) if n == &bytes("3")));
}
