use vstd::prelude::*;
use crate::poly::Term;
use crate::parse::pow10;

verus! {

pub open spec fn digit_byte(d: nat) -> u8 {
    (48 + d) as u8
}

/// Decimal digits of `n`, without leading zeros.
pub open spec fn nat_text(n: nat) -> Seq<u8>
    decreases n,
{
    if n < 10 {
        seq![digit_byte(n)]
    } else {
        nat_text(n / 10).push(digit_byte(n % 10))
    }
}

/// The last `w` decimal digits of `f`, with leading zeros.
pub open spec fn padded_text(f: nat, w: nat) -> Seq<u8>
    decreases w,
{
    if w == 0 {
        Seq::empty()
    } else {
        padded_text(f / 10, (w - 1) as nat).push(digit_byte(f % 10))
    }
}

/// `padded_text(f, w)` without its trailing zeros.
pub open spec fn trimmed_text(f: nat, w: nat) -> Seq<u8>
    decreases w,
{
    if w > 0 && f % 10 == 0 {
        trimmed_text(f / 10, (w - 1) as nat)
    } else {
        padded_text(f, w)
    }
}

/// `n / 10^places`, written with no trailing zero after the point and no
/// point for a whole number.
pub open spec fn decimal_text(n: nat, places: nat) -> Seq<u8> {
    let whole = n / pow10(places);
    let frac = n % pow10(places);
    if frac == 0 {
        nat_text(whole)
    } else {
        nat_text(whole) + seq![46u8] + trimmed_text(frac, places)
    }
}

pub open spec fn abs(c: int) -> nat {
    if c < 0 { (-c) as nat } else { c as nat }
}

pub open spec fn sign_text(c: int, first: bool) -> Seq<u8> {
    if first {
        if c < 0 { seq![45u8] } else { Seq::empty() }
    } else if c >= 0 {
        seq![32u8, 43u8, 32u8]
    } else {
        seq![32u8, 45u8, 32u8]
    }
}

/// The magnitude, left out when it is one and the exponent nonzero.
pub open spec fn magnitude_text(c: int, e: int) -> Seq<u8> {
    if abs(c) != 1_000_000 || e == 0 {
        decimal_text(abs(c), 6)
    } else {
        Seq::empty()
    }
}

/// `X^e` above one, `X` at one, nothing below.
pub open spec fn variable_text(e: int) -> Seq<u8> {
    if e > 1 {
        seq![88u8, 94u8] + nat_text(e as nat)
    } else if e == 1 {
        seq![88u8]
    } else {
        Seq::empty()
    }
}

/// One term: its sign (a bare `-` for the first term, else ` + ` or ` - `),
/// its magnitude and its variable.
pub open spec fn term_text(t: Term, first: bool) -> Seq<u8> {
    sign_text(t.coefficient as int, first) + magnitude_text(t.coefficient as int, t.exponent as int)
        + variable_text(t.exponent as int)
}

pub open spec fn terms_text(p: Seq<Term>) -> Seq<u8>
    decreases p.len(),
{
    if p.len() == 0 {
        Seq::empty()
    } else {
        terms_text(p.drop_last()) + term_text(p.last(), p.len() == 1)
    }
}

/// The equation `p = 0` as text; `0 = 0` when `p` has no term.
pub open spec fn polynomial_text(p: Seq<Term>) -> Seq<u8> {
    if p.len() == 0 {
        seq![48u8, 32u8, 61u8, 32u8, 48u8]
    } else {
        terms_text(p) + seq![32u8, 61u8, 32u8, 48u8]
    }
}

pub open spec fn is_ascii_text(s: Seq<u8>) -> bool {
    forall|i: int| 0 <= i < s.len() ==> #[trigger] s[i] < 128
}

/// The characters of ASCII bytes.
pub open spec fn ascii_chars(s: Seq<u8>) -> Seq<char> {
    s.map_values(|b: u8| b as char)
}

fn push_nat(out: &mut Vec<u8>, n: u128)
    ensures
        final(out)@ == old(out)@ + nat_text(n as nat),
        is_ascii_text(old(out)@) ==> is_ascii_text(final(out)@),
    decreases n,
{
    if n >= 10 {
        push_nat(out, n / 10);
    }
    out.push((48 + n % 10) as u8);
}

fn push_padded(out: &mut Vec<u8>, f: u128, w: u32)
    ensures
        final(out)@ == old(out)@ + padded_text(f as nat, w as nat),
        is_ascii_text(old(out)@) ==> is_ascii_text(final(out)@),
    decreases w,
{
    if w > 0 {
        push_padded(out, f / 10, w - 1);
        out.push((48 + f % 10) as u8);
    }
}

fn push_decimal(out: &mut Vec<u8>, n: u128, places: u32, unit: u128)
    requires
        unit == pow10(places as nat),
    ensures
        final(out)@ == old(out)@ + decimal_text(n as nat, places as nat),
        is_ascii_text(old(out)@) ==> is_ascii_text(final(out)@),
{
    proof {
        assert(unit > 0) by {
            lemma_pow10_positive(places as nat);
        }
    }
    push_nat(out, n / unit);
    let mut f = n % unit;
    if f != 0 {
        out.push(46);
        let mut w = places;
        while w > 0 && f % 10 == 0
            invariant
                trimmed_text((n % unit) as nat, places as nat) == trimmed_text(f as nat, w as nat),
            decreases w,
        {
            f = f / 10;
            w = w - 1;
        }
        push_padded(out, f, w);
    }
}

proof fn lemma_pow10_positive(n: nat)
    ensures
        pow10(n) > 0,
    decreases n,
{
    if n > 0 {
        lemma_pow10_positive((n - 1) as nat);
    }
}

fn push_sign(out: &mut Vec<u8>, c: i64, first: bool)
    ensures
        final(out)@ == old(out)@ + sign_text(c as int, first),
        is_ascii_text(old(out)@) ==> is_ascii_text(final(out)@),
{
    if first {
        if c < 0 {
            out.push(45);
        }
    } else if c >= 0 {
        out.push(32);
        out.push(43);
        out.push(32);
    } else {
        out.push(32);
        out.push(45);
        out.push(32);
    }
}

fn push_magnitude(out: &mut Vec<u8>, c: i64, e: i32)
    ensures
        final(out)@ == old(out)@ + magnitude_text(c as int, e as int),
        is_ascii_text(old(out)@) ==> is_ascii_text(final(out)@),
{
    let mag: u128 = if c < 0 { (-(c as i128)) as u128 } else { c as u128 };
    if mag != 1_000_000 || e == 0 {
        proof {
            reveal_with_fuel(pow10, 7);
        }
        push_decimal(out, mag, 6, 1_000_000);
    } else {
        assert(old(out)@ + magnitude_text(c as int, e as int) =~= old(out)@);
    }
}

fn push_variable(out: &mut Vec<u8>, e: i32)
    ensures
        final(out)@ == old(out)@ + variable_text(e as int),
        is_ascii_text(old(out)@) ==> is_ascii_text(final(out)@),
{
    if e > 1 {
        out.push(88);
        out.push(94);
        push_nat(out, e as u128);
    } else if e == 1 {
        out.push(88);
    }
}

fn push_term(out: &mut Vec<u8>, t: Term, first: bool)
    ensures
        final(out)@ == old(out)@ + term_text(t, first),
        is_ascii_text(old(out)@) ==> is_ascii_text(final(out)@),
{
    push_sign(out, t.coefficient, first);
    push_magnitude(out, t.coefficient, t.exponent);
    push_variable(out, t.exponent);
}

/// The bytes of `polynomial_text(terms@)`.
pub fn format_bytes(terms: &[Term]) -> (r: Vec<u8>)
    ensures
        r@ == polynomial_text(terms@),
        is_ascii_text(r@),
{
    let mut out: Vec<u8> = Vec::new();
    if terms.len() == 0 {
        out.push(48);
        out.push(32);
        out.push(61);
        out.push(32);
        out.push(48);
        return out;
    }
    let mut i: usize = 0;
    while i < terms.len()
        invariant
            i <= terms@.len(),
            out@ == terms_text(terms@.subrange(0, i as int)),
            is_ascii_text(out@),
        decreases terms@.len() - i,
    {
        assert(terms@.subrange(0, i + 1).drop_last() =~= terms@.subrange(0, i as int));
        push_term(&mut out, terms[i], i == 0);
        i = i + 1;
    }
    assert(terms@.subrange(0, i as int) =~= terms@);
    out.push(32);
    out.push(61);
    out.push(32);
    out.push(48);
    out
}

/// Relies on `String::from_utf8`: ASCII bytes are valid UTF-8, each byte
/// one character.
#[verifier::external_body]
fn ascii_string(bytes: Vec<u8>) -> (r: String)
    requires
        is_ascii_text(bytes@),
    ensures
        r@ == ascii_chars(bytes@),
{
    String::from_utf8(bytes).unwrap()
}

/// Renders `terms` as the equation `terms = 0`.
pub fn format_polynomial(terms: &[Term]) -> (r: String)
    ensures
        r@ == ascii_chars(polynomial_text(terms@)),
{
    ascii_string(format_bytes(terms))
}

/// A value in units of 10^-12 as decimal text, with a leading `-` when
/// negative.
pub open spec fn signed_text(v: int) -> Seq<u8> {
    if v < 0 {
        seq![45u8] + decimal_text(abs(v), 12)
    } else {
        decimal_text(abs(v), 12)
    }
}

/// Renders a discriminant given in units of 10^-12.
pub fn format_discriminant(d: i128) -> (r: String)
    requires
        d > i128::MIN,
    ensures
        r@ == ascii_chars(signed_text(d as int)),
{
    let mut out: Vec<u8> = Vec::new();
    if d < 0 {
        out.push(45);
    }
    let mag: u128 = if d < 0 { (-d) as u128 } else { d as u128 };
    proof {
        reveal_with_fuel(pow10, 13);
    }
    push_decimal(&mut out, mag, 12, 1_000_000_000_000);
    ascii_string(out)
}

proof fn lemma_terms_text_leading_minus(p: Seq<Term>)
    requires
        p.len() > 0,
        p[0].coefficient < 0,
    ensures
        terms_text(p).len() > 0,
        terms_text(p)[0] == 45,
    decreases p.len(),
{
    if p.len() > 1 {
        lemma_terms_text_leading_minus(p.drop_last());
        let a = terms_text(p.drop_last());
        let x = term_text(p.last(), false);
        assert((a + x)[0] == a[0]);
    } else {
        assert(p.drop_last().len() == 0);
        let t = term_text(p[0], true);
        assert(sign_text(p[0].coefficient as int, true) == seq![45u8]);
        assert(t[0] == 45);
        assert(terms_text(p.drop_last()) == Seq::<u8>::empty());
        assert(p.last() == p[0]);
        assert(terms_text(p) == Seq::<u8>::empty() + t);
        assert(Seq::<u8>::empty() + t =~= t);
    }
}

/// A polynomial whose first coefficient is negative is written starting
/// with `-`, with no space before it.
pub proof fn lemma_leading_minus(p: Seq<Term>)
    requires
        p.len() > 0,
        p[0].coefficient < 0,
    ensures
        polynomial_text(p)[0] == 45,
{
    lemma_terms_text_leading_minus(p);
}

} // verus!
