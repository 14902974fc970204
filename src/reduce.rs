use vstd::prelude::*;
use crate::poly::{
    Term, LIMIT, coeff_of, strictly_descending, bounded, natural_exponents, is_parsed, is_normal,
    degree_of, negated, lemma_coeff_at, lemma_take_step, lemma_coeff_absent, lemma_coeff_negated,
    lemma_normal_unique,
};

verus! {

/// `r` is the normal form of `left - right`: for every exponent its
/// coefficient is the left one minus the right one, and zero terms are gone.
pub open spec fn is_reduction(r: Seq<Term>, left: Seq<Term>, right: Seq<Term>) -> bool {
    &&& is_normal(r)
    &&& bounded(r, 2 * LIMIT)
    &&& forall|e: int| #[trigger] coeff_of(r, e) == coeff_of(left, e) - coeff_of(right, e)
}

/// Moves every term of `right_terms` to the left side with its sign flipped
/// and combines terms of equal exponent; terms that cancel are dropped and
/// the result is ordered by descending exponent.
pub fn reduce_polynomial(left_terms: Vec<Term>, right_terms: Vec<Term>) -> (r: Vec<Term>)
    requires
        is_parsed(left_terms@),
        is_parsed(right_terms@),
    ensures
        is_reduction(r@, left_terms@, right_terms@),
        natural_exponents(r@),
{
    let l = &left_terms;
    let rt = &right_terms;
    let mut out: Vec<Term> = Vec::new();
    let mut i: usize = 0;
    let mut j: usize = 0;
    while i < l.len() || j < rt.len()
        invariant
            is_parsed(l@),
            is_parsed(rt@),
            0 <= i <= l@.len(),
            0 <= j <= rt@.len(),
            is_normal(out@),
            bounded(out@, 2 * LIMIT),
            natural_exponents(out@),
            forall|e: int|
                #[trigger] coeff_of(out@, e) == coeff_of(l@.take(i as int), e) - coeff_of(
                    rt@.take(j as int),
                    e,
                ),
            out@.len() > 0 && i < l@.len() ==> out@.last().exponent > l@[i as int].exponent,
            out@.len() > 0 && j < rt@.len() ==> out@.last().exponent > rt@[j as int].exponent,
        decreases l@.len() + rt@.len() - i - j,
    {
        let ghost prev = out@;
        let ghost pi = i as int;
        let ghost pj = j as int;
        if i < l.len() && (j == rt.len() || l[i].exponent > rt[j].exponent) {
            let t = l[i];
            if t.coefficient != 0 {
                out.push(t);
            }
            i = i + 1;
            proof {
                assert forall|e: int|
                    #[trigger] coeff_of(out@, e) == coeff_of(l@.take(i as int), e) - coeff_of(
                        rt@.take(j as int),
                        e,
                    ) by {
                    lemma_take_step(l@, pi, e);
                    assert(t == l@[pi]);
                    assert(coeff_of(prev, e) == coeff_of(l@.take(pi), e) - coeff_of(rt@.take(pj), e));
                    if t.coefficient != 0 {
                        assert(out@.last() == t);
                        assert(out@.drop_last() =~= prev);
                    }
                }
            }
        } else if j < rt.len() && (i == l.len() || rt[j].exponent > l[i].exponent) {
            let t = Term { coefficient: -rt[j].coefficient, exponent: rt[j].exponent };
            if t.coefficient != 0 {
                out.push(t);
            }
            j = j + 1;
            proof {
                assert forall|e: int|
                    #[trigger] coeff_of(out@, e) == coeff_of(l@.take(i as int), e) - coeff_of(
                        rt@.take(j as int),
                        e,
                    ) by {
                    lemma_take_step(rt@, pj, e);
                    assert(coeff_of(prev, e) == coeff_of(l@.take(pi), e) - coeff_of(rt@.take(pj), e));
                    if t.coefficient != 0 {
                        assert(out@.last() == t);
                        assert(out@.drop_last() =~= prev);
                    }
                }
            }
        } else {
            let t = Term {
                coefficient: l[i].coefficient - rt[j].coefficient,
                exponent: l[i].exponent,
            };
            if t.coefficient != 0 {
                out.push(t);
            }
            i = i + 1;
            j = j + 1;
            proof {
                assert forall|e: int|
                    #[trigger] coeff_of(out@, e) == coeff_of(l@.take(i as int), e) - coeff_of(
                        rt@.take(j as int),
                        e,
                    ) by {
                    lemma_take_step(l@, pi, e);
                    lemma_take_step(rt@, pj, e);
                    assert(coeff_of(prev, e) == coeff_of(l@.take(pi), e) - coeff_of(rt@.take(pj), e));
                    if t.coefficient != 0 {
                        assert(out@.last() == t);
                        assert(out@.drop_last() =~= prev);
                    }
                }
            }
        }
    }
    assert(l@.take(i as int) =~= l@);
    assert(rt@.take(j as int) =~= rt@);
    out
}

/// Cancellation: reducing a polynomial against itself leaves nothing.
pub proof fn lemma_reduce_self_cancels(p: Seq<Term>, r: Seq<Term>)
    requires
        is_parsed(p),
        is_reduction(r, p, p),
    ensures
        r.len() == 0,
{
    if r.len() > 0 {
        lemma_coeff_at(r, 0);
        assert(coeff_of(r, r[0].exponent as int) == 0);
    }
}

/// Swapping the two sides negates every coefficient of the reduced form.
pub proof fn lemma_reduce_swap_negates(a: Seq<Term>, b: Seq<Term>, r: Seq<Term>, s: Seq<Term>)
    requires
        is_parsed(a),
        is_parsed(b),
        is_reduction(r, a, b),
        is_reduction(s, b, a),
    ensures
        s == negated(r),
{
    assert forall|e: int| coeff_of(s, e) == coeff_of(negated(r), e) by {
        lemma_coeff_negated(r, e);
    }
    assert forall|i: int| 0 <= i < r.len() implies #[trigger] negated(r)[i].coefficient
        == -r[i].coefficient by {}
    assert(is_normal(negated(r)));
    lemma_normal_unique(s, negated(r));
}

proof fn lemma_degree_descending(p: Seq<Term>)
    requires
        strictly_descending(p),
        p.len() > 0,
    ensures
        degree_of(p) == p[0].exponent,
    decreases p.len(),
{
    if p.len() > 1 {
        lemma_degree_descending(p.drop_last());
    }
}

/// The degree of a reduced form is the greatest exponent whose coefficients
/// on the two sides differ, or 0 when they agree on every exponent.
pub proof fn lemma_reduced_degree(a: Seq<Term>, b: Seq<Term>, r: Seq<Term>)
    requires
        is_parsed(a),
        is_parsed(b),
        is_reduction(r, a, b),
    ensures
        r.len() == 0 ==> degree_of(r) == 0 && forall|e: int|
            coeff_of(a, e) == coeff_of(b, e),
        r.len() > 0 ==> coeff_of(a, degree_of(r)) != coeff_of(b, degree_of(r)) && forall|e: int|
            e > degree_of(r) ==> coeff_of(a, e) == coeff_of(b, e),
{
    if r.len() == 0 {
        assert forall|e: int| coeff_of(a, e) == coeff_of(b, e) by {
            assert(coeff_of(r, e) == 0);
        }
    } else {
        lemma_degree_descending(r);
        lemma_coeff_at(r, 0);
        assert forall|e: int| e > degree_of(r) implies coeff_of(a, e) == coeff_of(b, e) by {
            assert forall|i: int| 0 <= i < r.len() implies #[trigger] r[i].exponent != e by {
                if i > 0 {
                    assert(r[0].exponent > r[i].exponent);
                }
            }
            lemma_coeff_absent(r, e);
        }
    }
}

} // verus!
