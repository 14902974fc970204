use computor::format::{format_discriminant, format_polynomial};
use computor::parse::{parse_polynomial, split_equation, ParseError};
use computor::poly::{polynomial_degree, Term, UNIT};
use computor::reduce::reduce_polynomial;
use computor::solve::{solve_equation, solve_polynomial, Outcome};

fn term(coefficient: i64, exponent: i32) -> Term {
    Term { coefficient, exponent }
}

#[test]
fn zero_parses_to_nothing_and_formats_as_identity() {
    let p = parse_polynomial("0").unwrap();
    assert!(p.is_empty());
    let reduced = reduce_polynomial(p, Vec::new());
    assert!(reduced.is_empty());
    assert_eq!(format_polynomial(&reduced), "0 = 0");
    assert_eq!(format_polynomial(&[]), "0 = 0");
}

#[test]
fn like_terms_accumulate() {
    let a = parse_polynomial("3X + 2X").unwrap();
    let b = parse_polynomial("5X").unwrap();
    assert_eq!(a, vec![term(5 * UNIT, 1)]);
    assert_eq!(a, b);
}

#[test]
fn parse_orders_by_descending_exponent() {
    let p = parse_polynomial("1 * X^0 + 2 * X^2 + 3 * X^1 + 4 * X^2").unwrap();
    assert_eq!(p, vec![term(6 * UNIT, 2), term(3 * UNIT, 1), term(UNIT, 0)]);
}

#[test]
fn parse_reads_decimals_signs_and_lowercase_marker() {
    assert_eq!(parse_polynomial("-.5 * x^2").unwrap(), vec![term(-UNIT / 2, 2)]);
    assert_eq!(parse_polynomial("+2.25x").unwrap(), vec![term(2_250_000, 1)]);
    assert_eq!(parse_polynomial("7.").unwrap(), vec![term(7 * UNIT, 0)]);
    assert_eq!(parse_polynomial("0.1000000").unwrap(), vec![term(100_000, 0)]);
}

#[test]
fn parse_skips_unrecognised_text() {
    assert_eq!(parse_polynomial("").unwrap(), Vec::<Term>::new());
    assert_eq!(parse_polynomial("3X -3X").unwrap(), Vec::<Term>::new());
    assert_eq!(parse_polynomial("abc X ^").unwrap(), Vec::<Term>::new());
    // a sign separated from its digits by a space is not part of the term
    assert_eq!(parse_polynomial("- 3").unwrap(), vec![term(3 * UNIT, 0)]);
}

#[test]
fn parse_errors() {
    assert_eq!(parse_polynomial("0.0000001"), Err(ParseError::InvalidCoefficient));
    assert_eq!(parse_polynomial("2000000000000"), Err(ParseError::InvalidCoefficient));
    assert_eq!(parse_polynomial("2 * X^3000000000"), Err(ParseError::InvalidExponent));
    assert_eq!(
        parse_polynomial("1000000000000 1000000000000"),
        Err(ParseError::CoefficientOutOfRange)
    );
}

#[test]
fn split_needs_exactly_one_equals() {
    assert!(split_equation(b"1 = 2 = 3").is_err());
    assert_eq!(split_equation(b"1 + 2").unwrap_err(), ParseError::InvalidFormat);
    let (l, r) = split_equation(b"1=2").unwrap();
    assert_eq!(l, b"1".to_vec());
    assert_eq!(r, b"2".to_vec());
    assert_eq!(solve_equation("X").unwrap_err(), ParseError::InvalidFormat);
}

#[test]
fn reduce_against_itself_cancels() {
    let p = parse_polynomial("5 * X^2 + 3 * X + 1.5").unwrap();
    assert!(reduce_polynomial(p.clone(), p).is_empty());
}

#[test]
fn reduce_swapped_sides_negates() {
    let a = parse_polynomial("5 * X^2 + 3 * X").unwrap();
    let b = parse_polynomial("2 * X^2 + 7").unwrap();
    let ab = reduce_polynomial(a.clone(), b.clone());
    let ba = reduce_polynomial(b, a);
    assert_eq!(ab, vec![term(3 * UNIT, 2), term(3 * UNIT, 1), term(-7 * UNIT, 0)]);
    let negated: Vec<Term> = ab.iter().map(|t| term(-t.coefficient, t.exponent)).collect();
    assert_eq!(ba, negated);
}

#[test]
fn degree_follows_leading_surviving_term() {
    let a = parse_polynomial("4 * X^3 + 2 * X").unwrap();
    let b = parse_polynomial("4 * X^3").unwrap();
    let r = reduce_polynomial(a, b);
    assert_eq!(polynomial_degree(&r), 1);
    assert_eq!(polynomial_degree(&[]), 0);
}

#[test]
fn linear_end_to_end() {
    let rep = solve_equation("5 * X^0 + 4 * X^1 = 4 * X^0").unwrap();
    assert_eq!(format_polynomial(&rep.reduced), "4X + 1 = 0");
    assert_eq!(rep.degree, 1);
    match rep.outcome {
        Outcome::OneSolution { numerator, denominator } => {
            assert_eq!(numerator as f64 / denominator as f64, -0.25);
        }
        other => panic!("unexpected {:?}", other),
    }
}

#[test]
fn complex_end_to_end() {
    let rep = solve_equation("5 * X^2 + 4 * X + 1 = 0").unwrap();
    assert_eq!(rep.degree, 2);
    match rep.outcome {
        Outcome::ComplexRoots { a, b, discriminant } => {
            assert_eq!(format_discriminant(discriminant), "-4");
            let re = -(b as f64) / (2.0 * a as f64);
            let im = ((-discriminant) as f64).sqrt() / (2.0 * a as f64);
            assert!((re + 0.4).abs() < 1e-12);
            assert!((im - 0.2).abs() < 1e-12);
        }
        other => panic!("unexpected {:?}", other),
    }
}

#[test]
fn identity_end_to_end() {
    let rep = solve_equation("X^2 = X^2").unwrap();
    assert_eq!(format_polynomial(&rep.reduced), "0 = 0");
    assert_eq!(rep.degree, 0);
    assert_eq!(rep.outcome, Outcome::AllReals);
}

#[test]
fn constant_equations_end_to_end() {
    let same = solve_equation("1 = 1").unwrap();
    assert_eq!(format_polynomial(&same.reduced), "0 = 0");
    assert_eq!(same.outcome, Outcome::AllReals);
    let differ = solve_equation("1 = 2").unwrap();
    assert_eq!(format_polynomial(&differ.reduced), "-1 = 0");
    assert_eq!(differ.degree, 0);
    assert_eq!(differ.outcome, Outcome::NoSolution);
}

#[test]
fn leading_minus_has_no_space() {
    let text = format_polynomial(&[term(-2 * UNIT, 2), term(3 * UNIT, 1), term(-UNIT / 2, 0)]);
    assert_eq!(text, "-2X^2 + 3X - 0.5 = 0");
}

#[test]
fn formatter_suppresses_unit_magnitude_only_with_variable() {
    assert_eq!(format_polynomial(&[term(UNIT, 2), term(-UNIT, 1), term(UNIT, 0)]), "X^2 - X + 1 = 0");
    assert_eq!(format_polynomial(&[term(1_250_000, 12)]), "1.25X^12 = 0");
}

#[test]
fn quadratic_outcomes() {
    let two = solve_polynomial(&[term(UNIT, 2), term(-UNIT, 0)]);
    assert_eq!(two, Outcome::TwoRealRoots { a: UNIT, b: 0, discriminant: 4_000_000_000_000 });
    let one = solve_polynomial(&[term(UNIT, 2), term(2 * UNIT, 1), term(UNIT, 0)]);
    assert_eq!(one, Outcome::OneRealRoot { numerator: -2 * UNIT, denominator: 2 * UNIT });
    let rep = solve_equation("1 * X^3 = 0").unwrap();
    assert_eq!(format_polynomial(&rep.reduced), "X^3 = 0");
    assert_eq!(rep.degree, 3);
    assert_eq!(rep.outcome, Outcome::Unsolvable);
}

#[test]
fn discriminant_text() {
    assert_eq!(format_discriminant(0), "0");
    assert_eq!(format_discriminant(2_500_000_000_000), "2.5");
    assert_eq!(format_discriminant(-500_000_000_000), "-0.5");
}
