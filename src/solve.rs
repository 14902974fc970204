use vstd::prelude::*;
use vstd::string::StringSliceAdditionalSpecFns;
use crate::poly::{
    Term, LIMIT, coeff_of, strictly_descending, bounded, natural_exponents, is_normal, degree_of,
    polynomial_degree, lemma_coeff_at, lemma_coeff_absent,
};
use crate::parse::{
    ParseError, parse_spec, parse_from, match_at, lemma_match_bounds, exponent_value, accumulate,
    coefficient_value, yields, count_equals, parse_bytes, split_equation};
use crate::reduce::{is_reduction, reduce_polynomial};

verus! {

/// The solution set of a reduced equation `p = 0`. Coefficients are in
/// units of one millionth, the discriminant in units of 10^-12; the roots
/// that need a square root are left to the caller.
#[derive(Clone, Copy, Debug, PartialEq, Eq, Structural)]
pub enum Outcome {
    /// The degree is above two.
    Unsolvable,
    /// The equation is `0 = 0`.
    AllReals,
    /// The equation is `c = 0` with `c` nonzero.
    NoSolution,
    /// The one root of `bX + c = 0`: `numerator / denominator`, i.e. `-c / b`.
    OneSolution { numerator: i64, denominator: i64 },
    /// Discriminant above zero: the roots are `(-b ± √discriminant) / (2a)`.
    TwoRealRoots { a: i64, b: i64, discriminant: i128 },
    /// Discriminant zero: the root `numerator / denominator`, i.e. `-b / (2a)`.
    OneRealRoot { numerator: i64, denominator: i64 },
    /// Discriminant below zero: the roots are `-b/(2a) ± i·√(-discriminant)/(2a)`.
    ComplexRoots { a: i64, b: i64, discriminant: i128 },
}

/// `b² - 4ac`, in units of 10^-12.
pub open spec fn discriminant_of(p: Seq<Term>) -> int {
    coeff_of(p, 1) * coeff_of(p, 1) - 4 * coeff_of(p, 2) * coeff_of(p, 0)
}

/// What the equation `p = 0` admits, by degree and, for degree two, by the
/// sign of the discriminant.
pub open spec fn solve_spec(p: Seq<Term>) -> Outcome {
    let d = degree_of(p);
    let a = coeff_of(p, 2);
    let b = coeff_of(p, 1);
    let c = coeff_of(p, 0);
    let disc = discriminant_of(p);
    if d > 2 {
        Outcome::Unsolvable
    } else if d <= 0 {
        if c == 0 {
            Outcome::AllReals
        } else {
            Outcome::NoSolution
        }
    } else if d == 1 {
        Outcome::OneSolution { numerator: (-c) as i64, denominator: b as i64 }
    } else if disc > 0 {
        Outcome::TwoRealRoots { a: a as i64, b: b as i64, discriminant: disc as i128 }
    } else if disc == 0 {
        Outcome::OneRealRoot { numerator: (-b) as i64, denominator: (2 * a) as i64 }
    } else {
        Outcome::ComplexRoots { a: a as i64, b: b as i64, discriminant: disc as i128 }
    }
}

/// The coefficient of exponent `e` in a list without repeated exponents.
pub fn coefficient_at(terms: &[Term], e: i32) -> (r: i64)
    requires
        strictly_descending(terms@),
    ensures
        r == coeff_of(terms@, e as int),
{
    let mut i: usize = 0;
    while i < terms.len()
        invariant
            strictly_descending(terms@),
            i <= terms@.len(),
            forall|j: int| 0 <= j < i ==> #[trigger] terms@[j].exponent != e,
        decreases terms@.len() - i,
    {
        if terms[i].exponent == e {
            proof {
                lemma_coeff_at(terms@, i as int);
            }
            return terms[i].coefficient;
        }
        i = i + 1;
    }
    proof {
        lemma_coeff_absent(terms@, e as int);
    }
    0
}

proof fn lemma_coeff_bounded(p: Seq<Term>, e: int)
    requires
        strictly_descending(p),
        bounded(p, 2 * LIMIT),
    ensures
        -2 * LIMIT <= coeff_of(p, e) <= 2 * LIMIT,
{
    if coeff_of(p, e) != 0 {
        crate::poly::lemma_coeff_present(p, e);
        let k = choose|k: int| 0 <= k < p.len() && #[trigger] p[k].exponent == e;
        lemma_coeff_at(p, k);
    }
}

proof fn lemma_parse_never_format(b: Seq<u8>, i: int, m: Map<int, int>)
    ensures
        parse_from(b, i, m) != Err::<Map<int, int>, ParseError>(ParseError::InvalidFormat),
    decreases b.len() - i,
{
    if 0 <= i < b.len() {
        match match_at(b, i) {
            None => lemma_parse_never_format(b, i + 1, m),
            Some(sp) => {
                lemma_match_bounds(b, i);
                let e = exponent_value(b, sp);
                lemma_parse_never_format(b, sp.end, accumulate(m, e, coefficient_value(b, sp)));
            },
        }
    }
}

/// Solves `terms = 0` for a reduced equation.
pub fn solve_polynomial(terms: &[Term]) -> (r: Outcome)
    requires
        is_normal(terms@),
        natural_exponents(terms@),
        bounded(terms@, 2 * LIMIT),
    ensures
        r == solve_spec(terms@),
{
    let d = polynomial_degree(terms);
    let a = coefficient_at(terms, 2);
    let b = coefficient_at(terms, 1);
    let c = coefficient_at(terms, 0);
    proof {
        lemma_coeff_bounded(terms@, 0);
        lemma_coeff_bounded(terms@, 1);
        lemma_coeff_bounded(terms@, 2);
    }
    if d > 2 {
        Outcome::Unsolvable
    } else if d <= 0 {
        if c == 0 {
            Outcome::AllReals
        } else {
            Outcome::NoSolution
        }
    } else if d == 1 {
        Outcome::OneSolution { numerator: -c, denominator: b }
    } else {
        let a2 = a as i128;
        let b2 = b as i128;
        let c2 = c as i128;
        assert(-4_000_000_000_000_000_000_000_000_000_000_000_000 <= b2 * b2
            <= 4_000_000_000_000_000_000_000_000_000_000_000_000) by (nonlinear_arith)
            requires
                -2_000_000_000_000_000_000 <= b2 <= 2_000_000_000_000_000_000,
        ;
        assert(-4_000_000_000_000_000_000_000_000_000_000_000_000 <= a2 * c2
            <= 4_000_000_000_000_000_000_000_000_000_000_000_000) by (nonlinear_arith)
            requires
                -2_000_000_000_000_000_000 <= a2 <= 2_000_000_000_000_000_000,
                -2_000_000_000_000_000_000 <= c2 <= 2_000_000_000_000_000_000,
        ;
        let disc = b2 * b2 - 4 * (a2 * c2);
        assert(disc == discriminant_of(terms@)) by (nonlinear_arith)
            requires
                disc == b2 * b2 - 4 * (a2 * c2),
                a2 == coeff_of(terms@, 2),
                b2 == coeff_of(terms@, 1),
                c2 == coeff_of(terms@, 0),
        ;
        if disc > 0 {
            Outcome::TwoRealRoots { a, b, discriminant: disc }
        } else if disc == 0 {
            Outcome::OneRealRoot { numerator: -b, denominator: 2 * a }
        } else {
            Outcome::ComplexRoots { a, b, discriminant: disc }
        }
    }
}

/// An equation read, reduced and solved.
#[derive(Debug)]
pub struct Report {
    /// The normal form of `left - right`.
    pub reduced: Vec<Term>,
    pub degree: i32,
    pub outcome: Outcome,
}

/// The two sides of the text `b` split at its `=` at `k` parse, and `r` is
/// the normal form of the left minus the right.
pub open spec fn reduces_at(b: Seq<u8>, k: int, r: Seq<Term>) -> bool {
    &&& 0 <= k < b.len()
    &&& b[k] == 61
    &&& parse_spec(b.subrange(0, k)) is Ok
    &&& parse_spec(b.subrange(k + 1, b.len() as int)) is Ok
    &&& exists|lp: Seq<Term>, rp: Seq<Term>|
        yields(lp, parse_spec(b.subrange(0, k))->Ok_0) && yields(
            rp,
            parse_spec(b.subrange(k + 1, b.len() as int))->Ok_0,
        ) && is_reduction(r, lp, rp)
}

/// The error of the first side, left then right, that does not parse.
pub open spec fn side_error(b: Seq<u8>, k: int) -> Option<ParseError> {
    match parse_spec(b.subrange(0, k)) {
        Err(e) => Some(e),
        Ok(_) => match parse_spec(b.subrange(k + 1, b.len() as int)) {
            Err(e) => Some(e),
            Ok(_) => None,
        },
    }
}

/// Reads an equation with one `=`, moves every term to the left side,
/// combines terms of equal exponent and solves the result.
pub fn solve_equation(input: &str) -> (r: Result<Report, ParseError>)
    ensures
        count_equals(input.spec_bytes()) != 1 <==> r == Err::<Report, ParseError>(
            ParseError::InvalidFormat,
        ),
        r is Ok ==> ({
            let rep = r->Ok_0;
            &&& exists|k: int| reduces_at(input.spec_bytes(), k, rep.reduced@)
            &&& rep.degree == degree_of(rep.reduced@)
            &&& rep.outcome == solve_spec(rep.reduced@)
        }),
        count_equals(input.spec_bytes()) == 1 ==> exists|k: int|
            0 <= k < input.spec_bytes().len() && input.spec_bytes()[k] == 61 && match r {
                Ok(_) => side_error(input.spec_bytes(), k) is None,
                Err(e) => side_error(input.spec_bytes(), k) == Some(e),
            },
{
    let bytes = input.as_bytes();
    let (left_bytes, right_bytes) = match split_equation(bytes) {
        Ok(sides) => sides,
        Err(e) => {
            return Err(e);
        },
    };
    let ghost k = choose|k: int|
        0 <= k < bytes@.len() && bytes@[k] == 61 && left_bytes@ == bytes@.subrange(0, k)
            && right_bytes@ == bytes@.subrange(k + 1, bytes@.len() as int);
    let left = match parse_bytes(left_bytes.as_slice()) {
        Ok(p) => p,
        Err(e) => {
            proof {
                lemma_parse_never_format(left_bytes@, 0, Map::empty());
                lemma_parse_never_format(right_bytes@, 0, Map::empty());
            }
            assert(side_error(bytes@, k) == Some(e));
            return Err(e);
        },
    };
    let right = match parse_bytes(right_bytes.as_slice()) {
        Ok(p) => p,
        Err(e) => {
            proof {
                lemma_parse_never_format(left_bytes@, 0, Map::empty());
                lemma_parse_never_format(right_bytes@, 0, Map::empty());
            }
            assert(side_error(bytes@, k) == Some(e));
            return Err(e);
        },
    };
    let ghost lp = left@;
    let ghost rp = right@;
    let reduced = reduce_polynomial(left, right);
    assert(reduces_at(bytes@, k, reduced@));
    let degree = polynomial_degree(reduced.as_slice());
    let outcome = solve_polynomial(reduced.as_slice());
    Ok(Report { reduced, degree, outcome })
}

} // verus!
