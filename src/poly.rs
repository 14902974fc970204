use vstd::prelude::*;

verus! {

/// The number of units in one: a coefficient is held as whole millionths.
pub const UNIT: i64 = 1_000_000;

/// The largest magnitude, in units, of a coefficient that parsing yields.
pub const LIMIT: i64 = 1_000_000_000_000_000_000;

/// One monomial `coefficient * X^exponent`, the coefficient in units of
/// one millionth.
#[derive(Clone, Copy, Debug, PartialEq, Eq, Structural)]
pub struct Term {
    pub coefficient: i64,
    pub exponent: i32,
}

/// Sum of the coefficients of the terms of `p` whose exponent is `e`.
pub open spec fn coeff_of(p: Seq<Term>, e: int) -> int
    decreases p.len(),
{
    if p.len() == 0 {
        0
    } else {
        coeff_of(p.drop_last(), e) + if p.last().exponent == e {
            p.last().coefficient as int
        } else {
            0
        }
    }
}

/// Exponents strictly descending, hence each at most once.
pub open spec fn strictly_descending(p: Seq<Term>) -> bool {
    forall|i: int, j: int| 0 <= i < j < p.len() ==> p[i].exponent > p[j].exponent
}

/// Every coefficient has a magnitude of at most `bound` units.
pub open spec fn bounded(p: Seq<Term>, bound: int) -> bool {
    forall|i: int| 0 <= i < p.len() ==> -bound <= #[trigger] p[i].coefficient <= bound
}

/// Every exponent is non-negative.
pub open spec fn natural_exponents(p: Seq<Term>) -> bool {
    forall|i: int| 0 <= i < p.len() ==> #[trigger] p[i].exponent >= 0
}

/// What parsing yields: descending exponents, each at most once, non-negative,
/// with coefficients of at most `LIMIT` units.
pub open spec fn is_parsed(p: Seq<Term>) -> bool {
    strictly_descending(p) && bounded(p, LIMIT as int) && natural_exponents(p)
}

/// The normal form: descending exponents and no zero coefficient.
pub open spec fn is_normal(p: Seq<Term>) -> bool {
    strictly_descending(p) && forall|i: int| 0 <= i < p.len() ==> #[trigger] p[i].coefficient != 0
}

/// The greatest exponent of `p`, or 0 when `p` is empty.
pub open spec fn degree_of(p: Seq<Term>) -> int
    decreases p.len(),
{
    if p.len() == 0 {
        0
    } else if p.len() == 1 {
        p[0].exponent as int
    } else {
        let d = degree_of(p.drop_last());
        if p.last().exponent > d { p.last().exponent as int } else { d }
    }
}

/// `p` with every coefficient negated.
pub open spec fn negated(p: Seq<Term>) -> Seq<Term> {
    p.map_values(|t: Term| Term { coefficient: (-t.coefficient) as i64, exponent: t.exponent })
}

/// A term whose exponent no term of `p` has contributes nothing.
pub proof fn lemma_coeff_absent(p: Seq<Term>, e: int)
    requires
        forall|i: int| 0 <= i < p.len() ==> #[trigger] p[i].exponent != e,
    ensures
        coeff_of(p, e) == 0,
    decreases p.len(),
{
    if p.len() > 0 {
        lemma_coeff_absent(p.drop_last(), e);
    }
}

/// In a list without repeated exponents, the coefficient of an exponent is
/// that of the one term that has it.
pub proof fn lemma_coeff_at(p: Seq<Term>, k: int)
    requires
        strictly_descending(p),
        0 <= k < p.len(),
    ensures
        coeff_of(p, p[k].exponent as int) == p[k].coefficient,
    decreases p.len(),
{
    let e = p[k].exponent as int;
    if k == p.len() - 1 {
        lemma_coeff_absent(p.drop_last(), e);
    } else {
        lemma_coeff_at(p.drop_last(), k);
    }
}

/// A nonzero coefficient comes from a term with that exponent.
pub proof fn lemma_coeff_present(p: Seq<Term>, e: int)
    requires
        coeff_of(p, e) != 0,
    ensures
        exists|i: int| 0 <= i < p.len() && #[trigger] p[i].exponent == e,
    decreases p.len(),
{
    if p.last().exponent != e {
        lemma_coeff_present(p.drop_last(), e);
        let i = choose|i: int| 0 <= i < p.drop_last().len() && #[trigger] p.drop_last()[i].exponent == e;
        assert(p[i].exponent == e);
    } else {
        assert(p[p.len() - 1].exponent == e);
    }
}

pub proof fn lemma_coeff_negated(p: Seq<Term>, e: int)
    requires
        bounded(p, 2 * LIMIT),
    ensures
        coeff_of(negated(p), e) == -coeff_of(p, e),
    decreases p.len(),
{
    if p.len() > 0 {
        assert(negated(p).drop_last() =~= negated(p.drop_last()));
        lemma_coeff_negated(p.drop_last(), e);
    }
}

/// Two normal forms with the same coefficient for every exponent are equal.
pub proof fn lemma_normal_unique(p: Seq<Term>, q: Seq<Term>)
    requires
        is_normal(p),
        is_normal(q),
        forall|e: int| coeff_of(p, e) == coeff_of(q, e),
    ensures
        p == q,
    decreases p.len() + q.len(),
{
    if p.len() == 0 && q.len() == 0 {
        assert(p =~= q);
    } else if p.len() == 0 {
        lemma_coeff_at(q, q.len() - 1);
        lemma_coeff_absent(p, q.last().exponent as int);
    } else if q.len() == 0 {
        lemma_coeff_at(p, p.len() - 1);
        lemma_coeff_absent(q, p.last().exponent as int);
    } else {
        let ep = p.last().exponent as int;
        let eq = q.last().exponent as int;
        lemma_coeff_at(p, p.len() - 1);
        lemma_coeff_at(q, q.len() - 1);
        if ep < eq {
            assert forall|i: int| 0 <= i < q.len() implies #[trigger] q[i].exponent != ep by {
                if i < q.len() - 1 {
                    assert(q[i].exponent > q[q.len() - 1].exponent);
                }
            }
            lemma_coeff_absent(q, ep);
        } else if eq < ep {
            assert forall|i: int| 0 <= i < p.len() implies #[trigger] p[i].exponent != eq by {
                if i < p.len() - 1 {
                    assert(p[i].exponent > p[p.len() - 1].exponent);
                }
            }
            lemma_coeff_absent(p, eq);
        } else {
            assert(p.last() == q.last());
            assert forall|x: int| coeff_of(p.drop_last(), x) == coeff_of(q.drop_last(), x) by {
                assert(coeff_of(p, x) == coeff_of(q, x));
            }
            lemma_normal_unique(p.drop_last(), q.drop_last());
            assert(p =~= p.drop_last().push(p.last()));
            assert(q =~= q.drop_last().push(q.last()));
        }
    }
}

/// Taking one more term adds its contribution to its exponent.
pub proof fn lemma_take_step(p: Seq<Term>, i: int, e: int)
    requires
        0 <= i < p.len(),
    ensures
        coeff_of(p.take(i + 1), e) == coeff_of(p.take(i), e) + if p[i].exponent == e {
            p[i].coefficient as int
        } else {
            0
        },
{
    assert(p.take(i + 1).drop_last() =~= p.take(i));
}

/// Replacing a term by one of the same exponent changes only that
/// exponent's coefficient.
pub proof fn lemma_coeff_update(p: Seq<Term>, k: int, t: Term, x: int)
    requires
        0 <= k < p.len(),
        t.exponent == p[k].exponent,
    ensures
        coeff_of(p.update(k, t), x) == coeff_of(p, x) + if x == t.exponent {
            t.coefficient - p[k].coefficient
        } else {
            0
        },
    decreases p.len(),
{
    if k < p.len() - 1 {
        assert(p.update(k, t).drop_last() =~= p.drop_last().update(k, t));
        lemma_coeff_update(p.drop_last(), k, t, x);
    } else {
        assert(p.update(k, t).drop_last() =~= p.drop_last());
    }
}

/// Inserting a term adds its coefficient to its exponent.
pub proof fn lemma_coeff_insert(p: Seq<Term>, k: int, t: Term, x: int)
    requires
        0 <= k <= p.len(),
    ensures
        coeff_of(p.insert(k, t), x) == coeff_of(p, x) + if x == t.exponent {
            t.coefficient as int
        } else {
            0
        },
    decreases p.len(),
{
    if k < p.len() {
        assert(p.insert(k, t).drop_last() =~= p.drop_last().insert(k, t));
        lemma_coeff_insert(p.drop_last(), k, t, x);
    } else {
        assert(p.insert(k, t).drop_last() =~= p);
    }
}

/// The greatest exponent of `terms`, or 0 when there is none.
pub fn polynomial_degree(terms: &[Term]) -> (r: i32)
    ensures
        r == degree_of(terms@),
{
    let mut r: i32 = 0;
    let mut i: usize = 0;
    while i < terms.len()
        invariant
            0 <= i <= terms@.len(),
            r == degree_of(terms@.subrange(0, i as int)),
        decreases terms@.len() - i,
    {
        assert(terms@.subrange(0, i + 1).drop_last() =~= terms@.subrange(0, i as int));
        if i == 0 || terms[i].exponent > r {
            r = terms[i].exponent;
        }
        i = i + 1;
    }
    assert(terms@.subrange(0, i as int) =~= terms@);
    r
}

} // verus!
