use vstd::prelude::*;
use vstd::string::StringSliceAdditionalSpecFns;
use crate::poly::{
    Term, LIMIT, coeff_of, is_parsed, is_normal, lemma_coeff_at,
    lemma_coeff_absent, lemma_coeff_update, lemma_coeff_insert, lemma_take_step,
};

verus! {

/// Why an equation could not be read.
#[derive(Clone, Copy, Debug, PartialEq, Eq, Structural)]
pub enum ParseError {
    /// The equation does not hold exactly one `=`.
    InvalidFormat,
    /// A numeric literal has more than six nonzero decimals, or exceeds
    /// `LIMIT` units.
    InvalidCoefficient,
    /// An exponent exceeds `i32::MAX`.
    InvalidExponent,
    /// Terms of one exponent sum to more than `LIMIT` units in magnitude.
    CoefficientOutOfRange,
}

pub open spec fn is_digit(c: u8) -> bool {
    48 <= c <= 57
}

/// ASCII whitespace: space, tab, line feed, vertical tab, form feed, return.
pub open spec fn is_space(c: u8) -> bool {
    c == 32 || (9 <= c <= 13)
}

pub open spec fn is_sign(c: u8) -> bool {
    c == 43 || c == 45
}

/// The variable marker, `X` or `x`.
pub open spec fn is_marker(c: u8) -> bool {
    c == 88 || c == 120
}

/// Number of digits in a row from position `i`.
pub open spec fn digit_run(b: Seq<u8>, i: int) -> nat
    decreases b.len() - i,
{
    if 0 <= i < b.len() && is_digit(b[i]) {
        1 + digit_run(b, i + 1)
    } else {
        0
    }
}

/// Number of whitespace bytes in a row from position `i`.
pub open spec fn space_run(b: Seq<u8>, i: int) -> nat
    decreases b.len() - i,
{
    if 0 <= i < b.len() && is_space(b[i]) {
        1 + space_run(b, i + 1)
    } else {
        0
    }
}

/// The parts of one term found in the text, as positions: the digits before
/// and after the decimal point, the exponent digits (an empty range when
/// there are none), and where the term ends.
pub struct Lexeme {
    pub negative: bool,
    pub int_start: int,
    pub int_end: int,
    pub frac_start: int,
    pub frac_end: int,
    pub marker: bool,
    pub exp_start: int,
    pub exp_end: int,
    pub end: int,
}

/// A [`Lexeme`] found by the scanner.
#[derive(Clone, Copy, Debug, PartialEq, Eq)]
pub struct Span {
    pub negative: bool,
    pub int_start: usize,
    pub int_end: usize,
    pub frac_start: usize,
    pub frac_end: usize,
    pub marker: bool,
    pub exp_start: usize,
    pub exp_end: usize,
    pub end: usize,
}

impl View for Span {
    type V = Lexeme;

    open spec fn view(&self) -> Lexeme {
        Lexeme {
            negative: self.negative,
            int_start: self.int_start as int,
            int_end: self.int_end as int,
            frac_start: self.frac_start as int,
            frac_end: self.frac_end as int,
            marker: self.marker,
            exp_start: self.exp_start as int,
            exp_end: self.exp_end as int,
            end: self.end as int,
        }
    }
}

/// What follows a coefficient that ends at `ce`: optional whitespace, an
/// optional `*`, optional whitespace and an optional marker with an optional
/// `^digits`.
pub open spec fn span_tail(b: Seq<u8>, negative: bool, is: int, ie: int, fs: int, fe: int) -> Lexeme {
    let t1 = fe + space_run(b, fe);
    let t2 = if t1 < b.len() && b[t1] == 42 { t1 + 1 } else { t1 };
    let t3 = t2 + space_run(b, t2);
    let marker = t3 < b.len() && is_marker(b[t3]);
    let caret = marker && t3 + 1 < b.len() && b[t3 + 1] == 94 && digit_run(b, t3 + 2) > 0;
    let es = if caret { t3 + 2 } else if marker { t3 + 1 } else { t3 };
    let ee = if caret { t3 + 2 + digit_run(b, t3 + 2) } else { es };
    Lexeme {
        negative,
        int_start: is,
        int_end: ie,
        frac_start: fs,
        frac_end: fe,
        marker,
        exp_start: es,
        exp_end: ee,
        end: ee,
    }
}

/// The term that starts at `i`, if one does: an optional sign directly
/// before either digits with an optional `.` and more digits, or a `.` and
/// at least one digit; then the tail of `span_tail`. Every repetition is
/// greedy.
pub open spec fn match_at(b: Seq<u8>, i: int) -> Option<Lexeme> {
    let signed = 0 <= i < b.len() && is_sign(b[i]);
    let negative = signed && b[i] == 45;
    let p = if signed { i + 1 } else { i };
    let d = digit_run(b, p);
    if d > 0 {
        let q = p + d;
        if q < b.len() && b[q] == 46 {
            Some(span_tail(b, negative, p, q, q + 1, q + 1 + digit_run(b, q + 1)))
        } else {
            Some(span_tail(b, negative, p, q, q, q))
        }
    } else if p < b.len() && b[p] == 46 && digit_run(b, p + 1) > 0 {
        Some(span_tail(b, negative, p, p, p + 1, p + 1 + digit_run(b, p + 1)))
    } else {
        None
    }
}

/// The value of a run of decimal digits.
pub open spec fn nat_of(s: Seq<u8>) -> nat
    decreases s.len(),
{
    if s.len() == 0 {
        0
    } else {
        nat_of(s.drop_last()) * 10 + (s.last() - 48) as nat
    }
}

pub open spec fn pow10(n: nat) -> nat
    decreases n,
{
    if n == 0 {
        1
    } else {
        10 * pow10((n - 1) as nat)
    }
}

/// The first `n` decimals of the digits in `[fs, fe)`, padded with zeros.
pub open spec fn frac_units(b: Seq<u8>, fs: int, fe: int, n: nat) -> nat
    decreases n,
{
    if n == 0 {
        0
    } else {
        let k = fs + n - 1;
        frac_units(b, fs, fe, (n - 1) as nat) * 10 + if k < fe {
            (b[k] - 48) as nat
        } else {
            0
        }
    }
}

/// Every decimal after the sixth is a zero, so the literal is a whole
/// number of units.
pub open spec fn whole_units(b: Seq<u8>, sp: Lexeme) -> bool {
    forall|k: int| sp.frac_start + 6 <= k < sp.frac_end ==> b[k] == 48
}

/// The magnitude of the literal, in units.
pub open spec fn magnitude(b: Seq<u8>, sp: Lexeme) -> int {
    nat_of(b.subrange(sp.int_start, sp.int_end)) * 1_000_000 + frac_units(
        b,
        sp.frac_start,
        sp.frac_end,
        6,
    ) as int
}

pub open spec fn coefficient_ok(b: Seq<u8>, sp: Lexeme) -> bool {
    whole_units(b, sp) && magnitude(b, sp) <= LIMIT
}

pub open spec fn coefficient_value(b: Seq<u8>, sp: Lexeme) -> int {
    if sp.negative { -magnitude(b, sp) } else { magnitude(b, sp) }
}

pub open spec fn exponent_ok(b: Seq<u8>, sp: Lexeme) -> bool {
    sp.exp_start == sp.exp_end || nat_of(b.subrange(sp.exp_start, sp.exp_end))
        <= i32::MAX
}

/// The written exponent; else 1 with a marker and 0 without.
pub open spec fn exponent_value(b: Seq<u8>, sp: Lexeme) -> int {
    if sp.exp_start < sp.exp_end {
        nat_of(b.subrange(sp.exp_start, sp.exp_end)) as int
    } else if sp.marker {
        1
    } else {
        0
    }
}

/// `m` with `c` added to the coefficient of exponent `e`.
pub open spec fn accumulate(m: Map<int, int>, e: int, c: int) -> Map<int, int> {
    m.insert(e, (if m.contains_key(e) { m[e] } else { 0 }) + c)
}

/// Reads the terms from position `i` on, adding each to `m`; the first term
/// that cannot be read decides the error.
pub open spec fn parse_from(b: Seq<u8>, i: int, m: Map<int, int>) -> Result<
    Map<int, int>,
    ParseError,
>
    decreases b.len() - i,
    via parse_from_decreases
{
    if i < 0 || i >= b.len() {
        Ok(m)
    } else {
        match match_at(b, i) {
            None => parse_from(b, i + 1, m),
            Some(sp) => {
                if !coefficient_ok(b, sp) {
                    Err(ParseError::InvalidCoefficient)
                } else if !exponent_ok(b, sp) {
                    Err(ParseError::InvalidExponent)
                } else {
                    let e = exponent_value(b, sp);
                    let m2 = accumulate(m, e, coefficient_value(b, sp));
                    if m2[e] < -LIMIT || m2[e] > LIMIT {
                        Err(ParseError::CoefficientOutOfRange)
                    } else {
                        parse_from(b, sp.end, m2)
                    }
                }
            },
        }
    }
}

pub proof fn lemma_digit_run_bound(b: Seq<u8>, i: int)
    requires
        0 <= i,
    ensures
        i + digit_run(b, i) <= b.len() || digit_run(b, i) == 0,
        forall|k: int| i <= k < i + digit_run(b, i) ==> is_digit(#[trigger] b[k]),
    decreases b.len() - i,
{
    if 0 <= i < b.len() && is_digit(b[i]) {
        lemma_digit_run_bound(b, i + 1);
    }
}

pub proof fn lemma_space_run_bound(b: Seq<u8>, i: int)
    requires
        0 <= i,
    ensures
        i + space_run(b, i) <= b.len() || space_run(b, i) == 0,
    decreases b.len() - i,
{
    if 0 <= i < b.len() && is_space(b[i]) {
        lemma_space_run_bound(b, i + 1);
    }
}

/// A term found at `i` ends after `i` and within the text.
pub proof fn lemma_match_bounds(b: Seq<u8>, i: int)
    requires
        0 <= i < b.len(),
        match_at(b, i) is Some,
    ensures
        ({
            let sp = match_at(b, i)->0;
            &&& i < sp.end <= b.len()
            &&& i <= sp.int_start <= sp.int_end <= sp.frac_start <= sp.frac_end <= sp.exp_start
                <= sp.exp_end == sp.end
            &&& forall|k: int| sp.int_start <= k < sp.int_end ==> is_digit(#[trigger] b[k])
            &&& forall|k: int| sp.frac_start <= k < sp.frac_end ==> is_digit(#[trigger] b[k])
            &&& forall|k: int| sp.exp_start <= k < sp.exp_end ==> is_digit(#[trigger] b[k])
        }),
{
    let signed = is_sign(b[i]);
    let p = if signed { i + 1 } else { i };
    lemma_digit_run_bound(b, p);
    let q = p + digit_run(b, p);
    lemma_digit_run_bound(b, q + 1);
    lemma_digit_run_bound(b, p + 1);
    let sp = match_at(b, i)->0;
    lemma_space_run_bound(b, sp.frac_end);
    let t1 = sp.frac_end + space_run(b, sp.frac_end);
    let t2 = if t1 < b.len() && b[t1] == 42 { t1 + 1 } else { t1 };
    lemma_space_run_bound(b, t2);
    let t3 = t2 + space_run(b, t2);
    lemma_digit_run_bound(b, t3 + 2);
}

#[via_fn]
proof fn parse_from_decreases(b: Seq<u8>, i: int, m: Map<int, int>) {
    if 0 <= i < b.len() && match_at(b, i) is Some {
        lemma_match_bounds(b, i);
    }
}

/// The terms of the text `b`, by exponent.
pub open spec fn parse_spec(b: Seq<u8>) -> Result<Map<int, int>, ParseError> {
    parse_from(b, 0, Map::empty())
}

pub open spec fn has_exponent(p: Seq<Term>, e: int) -> bool {
    exists|i: int| 0 <= i < p.len() && p[i].exponent == e
}

/// The list `p` holds exactly the exponents of `m`, each with its coefficient.
pub open spec fn represents(p: Seq<Term>, m: Map<int, int>) -> bool {
    &&& is_parsed(p)
    &&& forall|e: int| #[trigger] m.contains_key(e) <==> has_exponent(p, e)
    &&& forall|e: int| #[trigger] m.contains_key(e) ==> m[e] == coeff_of(p, e)
}

fn count_digits(b: &[u8], i: usize) -> (n: usize)
    requires
        i <= b@.len(),
    ensures
        n == digit_run(b@, i as int),
        i + n <= b@.len(),
{
    let mut j: usize = i;
    while j < b.len() && b[j] >= 48 && b[j] <= 57
        invariant
            i <= j <= b@.len(),
            digit_run(b@, i as int) == (j - i) + digit_run(b@, j as int),
        decreases b@.len() - j,
    {
        j = j + 1;
    }
    j - i
}

fn count_spaces(b: &[u8], i: usize) -> (n: usize)
    requires
        i <= b@.len(),
    ensures
        n == space_run(b@, i as int),
        i + n <= b@.len(),
{
    let mut j: usize = i;
    while j < b.len() && (b[j] == 32 || (b[j] >= 9 && b[j] <= 13))
        invariant
            i <= j <= b@.len(),
            space_run(b@, i as int) == (j - i) + space_run(b@, j as int),
        decreases b@.len() - j,
    {
        j = j + 1;
    }
    j - i
}

fn scan_tail(b: &[u8], negative: bool, is: usize, ie: usize, fs: usize, fe: usize) -> (r: Span)
    requires
        fe <= b@.len(),
    ensures
        r@ == span_tail(b@, negative, is as int, ie as int, fs as int, fe as int),
{
    let _len = b.len();
    let t1 = fe + count_spaces(b, fe);
    let t2 = if t1 < b.len() && b[t1] == 42 { t1 + 1 } else { t1 };
    let t3 = t2 + count_spaces(b, t2);
    let marker = t3 < b.len() && (b[t3] == 88 || b[t3] == 120);
    let mut caret = false;
    let mut ee: usize = 0;
    if marker && t3 + 1 < b.len() && b[t3 + 1] == 94 {
        let d = count_digits(b, t3 + 2);
        if d > 0 {
            caret = true;
            ee = t3 + 2 + d;
        }
    }
    let es = if caret { t3 + 2 } else if marker { t3 + 1 } else { t3 };
    if !caret {
        ee = es;
    }
    Span {
        negative,
        int_start: is,
        int_end: ie,
        frac_start: fs,
        frac_end: fe,
        marker,
        exp_start: es,
        exp_end: ee,
        end: ee,
    }
}

/// Finds the term that starts at `i`, if one does.
pub fn match_term(b: &[u8], i: usize) -> (r: Option<Span>)
    requires
        i < b@.len(),
    ensures
        r is Some <==> match_at(b@, i as int) is Some,
        r is Some ==> r->0@ == match_at(b@, i as int)->0,
{
    let _len = b.len();
    let signed = b[i] == 43 || b[i] == 45;
    let negative = signed && b[i] == 45;
    let p = if signed { i + 1 } else { i };
    let d = count_digits(b, p);
    if d > 0 {
        let q = p + d;
        if q < b.len() && b[q] == 46 {
            let f = count_digits(b, q + 1);
            Some(scan_tail(b, negative, p, q, q + 1, q + 1 + f))
        } else {
            Some(scan_tail(b, negative, p, q, q, q))
        }
    } else if p < b.len() && b[p] == 46 {
        let f = count_digits(b, p + 1);
        if f > 0 {
            Some(scan_tail(b, negative, p, p, p + 1, p + 1 + f))
        } else {
            None
        }
    } else {
        None
    }
}

proof fn lemma_nat_of_grows(b: Seq<u8>, start: int, k: int, end: int)
    requires
        0 <= start <= k <= end <= b.len(),
    ensures
        nat_of(b.subrange(start, k)) <= nat_of(b.subrange(start, end)),
    decreases end - k,
{
    if k < end {
        lemma_nat_of_grows(b, start, k, end - 1);
        assert(b.subrange(start, end).drop_last() =~= b.subrange(start, end - 1));
    }
}

/// The value of the digits in `[start, end)`, when it is at most `bound`.
fn read_number(b: &[u8], start: usize, end: usize, bound: u64) -> (r: Option<u64>)
    requires
        start <= end <= b@.len(),
        forall|k: int| start <= k < end ==> is_digit(#[trigger] b@[k]),
        9 <= bound,
    ensures
        r is Some <==> nat_of(b@.subrange(start as int, end as int)) <= bound,
        r is Some ==> r->0 == nat_of(b@.subrange(start as int, end as int)),
{
    let mut acc: u64 = 0;
    let mut k: usize = start;
    while k < end
        invariant
            start <= k <= end <= b@.len(),
            forall|x: int| start <= x < end ==> is_digit(#[trigger] b@[x]),
            9 <= bound,
            acc == nat_of(b@.subrange(start as int, k as int)),
            acc <= bound,
        decreases end - k,
    {
        assert(b@.subrange(start as int, k + 1).drop_last() =~= b@.subrange(start as int, k as int));
        assert(is_digit(b@[k as int]));
        let d = (b[k] - 48) as u64;
        if acc > (bound - d) / 10 {
            proof {
                assert(acc * 10 + d > bound) by (nonlinear_arith)
                    requires
                        acc > (bound - d) / 10,
                        d <= 9,
                        d <= bound,
                ;
                lemma_nat_of_grows(b@, start as int, k + 1, end as int);
            }
            return None;
        }
        assert(acc * 10 + d <= bound) by (nonlinear_arith)
            requires
                acc <= (bound - d) / 10,
                d <= bound,
        ;
        acc = acc * 10 + d;
        k = k + 1;
    }
    Some(acc)
}

/// The first six decimals in `[fs, fe)`, padded with zeros.
fn read_decimals(b: &[u8], fs: usize, fe: usize) -> (r: u64)
    requires
        fs <= fe <= b@.len(),
        forall|k: int| fs <= k < fe ==> is_digit(#[trigger] b@[k]),
    ensures
        r == frac_units(b@, fs as int, fe as int, 6),
        r < 1_000_000,
{
    let mut acc: u64 = 0;
    let mut n: usize = 0;
    while n < 6
        invariant
            n <= 6,
            fs <= fe <= b@.len(),
            forall|k: int| fs <= k < fe ==> is_digit(#[trigger] b@[k]),
            acc == frac_units(b@, fs as int, fe as int, n as nat),
            acc < pow10(n as nat),
            pow10(n as nat) <= 100_000 * 10,
            n < 6 ==> pow10(n as nat) * 10 <= 1_000_000,
        decreases 6 - n,
    {
        let d: u64 = if n < fe - fs {
            assert(is_digit(b@[fs + n]));
            (b[fs + n] - 48) as u64
        } else {
            0
        };
        proof {
            let p = pow10(n as nat);
            assert(acc * 10 + d < p * 10) by (nonlinear_arith)
                requires
                    acc < p,
                    d <= 9,
            ;
            reveal_with_fuel(pow10, 7);
        }
        acc = acc * 10 + d;
        n = n + 1;
    }
    acc
}

/// The coefficient of the term, in units, when it is a whole number of
/// units of at most `LIMIT`.
fn read_coefficient(b: &[u8], i: usize, sp: Span) -> (r: Option<i64>)
    requires
        i < b@.len(),
        match_at(b@, i as int) == Some(sp@),
    ensures
        r is Some <==> coefficient_ok(b@, sp@),
        r is Some ==> r->0 == coefficient_value(b@, sp@),
{
    proof {
        lemma_match_bounds(b@, i as int);
    }
    let whole = match read_number(b, sp.int_start, sp.int_end, 1_000_000_000_000) {
        Some(w) => w,
        None => {
            return None;
        },
    };
    let f = read_decimals(b, sp.frac_start, sp.frac_end);
    let mut k: usize = sp.frac_start;
    while k < sp.frac_end
        invariant
            sp.frac_start <= k,
            sp.frac_end <= b@.len(),
            forall|x: int| sp.frac_start + 6 <= x < k ==> b@[x] == 48,
        decreases sp.frac_end - k,
    {
        if k - sp.frac_start >= 6 && b[k] != 48 {
            return None;
        }
        k = k + 1;
    }
    let mag: u64 = whole * 1_000_000 + f;
    if mag > 1_000_000_000_000_000_000 {
        return None;
    }
    if sp.negative {
        Some(-(mag as i64))
    } else {
        Some(mag as i64)
    }
}

/// The exponent of the term, when it fits an `i32`.
fn read_exponent(b: &[u8], i: usize, sp: Span) -> (r: Option<i32>)
    requires
        i < b@.len(),
        match_at(b@, i as int) == Some(sp@),
    ensures
        r is Some <==> exponent_ok(b@, sp@),
        r is Some ==> r->0 == exponent_value(b@, sp@),
{
    proof {
        lemma_match_bounds(b@, i as int);
    }
    if sp.exp_start < sp.exp_end {
        match read_number(b, sp.exp_start, sp.exp_end, 2147483647) {
            Some(n) => Some(n as i32),
            None => None,
        }
    } else if sp.marker {
        Some(1)
    } else {
        Some(0)
    }
}

/// Adds `c` to the coefficient of exponent `e`, keeping the exponents
/// descending; refuses, changing nothing, when the sum would exceed `LIMIT`
/// units in magnitude.
fn add_term(acc: &mut Vec<Term>, e: i32, c: i64) -> (ok: bool)
    requires
        is_parsed(old(acc)@),
        0 <= e,
        -LIMIT <= c <= LIMIT,
    ensures
        ok == (-LIMIT <= coeff_of(old(acc)@, e as int) + c <= LIMIT),
        ok ==> is_parsed(final(acc)@),
        ok ==> forall|x: int|
            #[trigger] has_exponent(final(acc)@, x) <==> (x == e || has_exponent(old(acc)@, x)),
        ok ==> forall|x: int|
            #[trigger] coeff_of(final(acc)@, x) == coeff_of(old(acc)@, x) + if x == e {
                c as int
            } else {
                0
            },
        !ok ==> final(acc)@ == old(acc)@,
{
    let ghost p = acc@;
    let mut k: usize = 0;
    while k < acc.len() && acc[k].exponent > e
        invariant
            acc@ == p,
            k <= p.len(),
            forall|j: int| 0 <= j < k ==> p[j].exponent > e,
        decreases p.len() - k,
    {
        k = k + 1;
    }
    if k < acc.len() && acc[k].exponent == e {
        proof {
            lemma_coeff_at(p, k as int);
        }
        let s = acc[k].coefficient + c;
        if s < -LIMIT || s > LIMIT {
            return false;
        }
        let t = Term { coefficient: s, exponent: e };
        acc[k] = t;
        proof {
            assert(acc@ == p.update(k as int, t));
            assert forall|x: int|
                #[trigger] coeff_of(acc@, x) == coeff_of(p, x) + if x == e {
                    c as int
                } else {
                    0
                } by {
                lemma_coeff_update(p, k as int, t, x);
            }
            assert forall|x: int| #[trigger] has_exponent(acc@, x) <==> (x == e || has_exponent(p, x)) by {
                if has_exponent(p, x) {
                    let j = choose|j: int| 0 <= j < p.len() && p[j].exponent == x;
                    assert(acc@[j].exponent == x);
                }
                if has_exponent(acc@, x) {
                    let j = choose|j: int| 0 <= j < acc@.len() && acc@[j].exponent == x;
                    assert(p[j].exponent == x);
                }
                if x == e {
                    assert(acc@[k as int].exponent == x);
                }
            }
        }
        true
    } else {
        proof {
            assert forall|j: int| 0 <= j < p.len() implies #[trigger] p[j].exponent != e by {
                if j >= k {
                    assert(p[k as int].exponent >= p[j].exponent);
                }
            }
            lemma_coeff_absent(p, e as int);
        }
        let t = Term { coefficient: c, exponent: e };
        acc.insert(k, t);
        proof {
            assert(acc@ == p.insert(k as int, t));
            assert forall|j: int| k <= j < p.len() implies #[trigger] p[j].exponent < e by {
                assert(p[k as int].exponent >= p[j].exponent);
            }
            assert forall|x: int|
                #[trigger] coeff_of(acc@, x) == coeff_of(p, x) + if x == e {
                    c as int
                } else {
                    0
                } by {
                lemma_coeff_insert(p, k as int, t, x);
            }
            assert forall|x: int| #[trigger] has_exponent(acc@, x) <==> (x == e || has_exponent(p, x)) by {
                if has_exponent(p, x) {
                    let j = choose|j: int| 0 <= j < p.len() && p[j].exponent == x;
                    if j < k {
                        assert(acc@[j].exponent == x);
                    } else {
                        assert(acc@[j + 1].exponent == x);
                    }
                }
                if has_exponent(acc@, x) {
                    let j = choose|j: int| 0 <= j < acc@.len() && acc@[j].exponent == x;
                    if j < k {
                        assert(p[j].exponent == x);
                    } else if j > k {
                        assert(p[j - 1].exponent == x);
                    }
                }
                if x == e {
                    assert(acc@[k as int].exponent == x);
                }
            }
        }
        true
    }
}

/// The coefficient that `m` gives exponent `e`, zero when it gives none.
pub open spec fn map_coeff(m: Map<int, int>, e: int) -> int {
    if m.contains_key(e) { m[e] } else { 0 }
}

/// `p` is the normal form of the terms `m`: descending, without zero
/// coefficients, and with the coefficient of `m` for every exponent.
pub open spec fn yields(p: Seq<Term>, m: Map<int, int>) -> bool {
    &&& is_parsed(p)
    &&& is_normal(p)
    &&& forall|e: int| #[trigger] coeff_of(p, e) == map_coeff(m, e)
}

/// `terms` without its zero coefficients.
fn drop_zeros(terms: Vec<Term>) -> (r: Vec<Term>)
    requires
        is_parsed(terms@),
    ensures
        is_parsed(r@),
        is_normal(r@),
        forall|e: int| #[trigger] coeff_of(r@, e) == coeff_of(terms@, e),
{
    let mut out: Vec<Term> = Vec::new();
    let mut i: usize = 0;
    while i < terms.len()
        invariant
            is_parsed(terms@),
            i <= terms@.len(),
            is_parsed(out@),
            is_normal(out@),
            forall|e: int| #[trigger] coeff_of(out@, e) == coeff_of(terms@.take(i as int), e),
            out@.len() > 0 && i < terms@.len() ==> out@.last().exponent > terms@[i as int].exponent,
        decreases terms@.len() - i,
    {
        let ghost prev = out@;
        let t = terms[i];
        if t.coefficient != 0 {
            out.push(t);
        }
        proof {
            assert forall|e: int| #[trigger] coeff_of(out@, e) == coeff_of(terms@.take(i + 1), e) by {
                lemma_take_step(terms@, i as int, e);
                assert(coeff_of(prev, e) == coeff_of(terms@.take(i as int), e));
                if t.coefficient != 0 {
                    assert(out@.drop_last() =~= prev);
                    assert(out@.last() == t);
                }
            }
        }
        i = i + 1;
    }
    assert(terms@.take(i as int) =~= terms@);
    out
}

/// Reads the terms of one side of an equation, given as bytes.
pub fn parse_bytes(b: &[u8]) -> (r: Result<Vec<Term>, ParseError>)
    ensures
        match r {
            Ok(p) => parse_spec(b@) is Ok && yields(p@, parse_spec(b@)->Ok_0),
            Err(e) => parse_spec(b@) == Err::<Map<int, int>, ParseError>(e),
        },
{
    let mut acc: Vec<Term> = Vec::new();
    let ghost mut m: Map<int, int> = Map::empty();
    let mut i: usize = 0;
    proof {
        assert forall|e: int| #[trigger] m.contains_key(e) <==> has_exponent(acc@, e) by {}
    }
    while i < b.len()
        invariant
            i <= b@.len(),
            represents(acc@, m),
            parse_spec(b@) == parse_from(b@, i as int, m),
        decreases b@.len() - i,
    {
        match match_term(b, i) {
            None => {
                i = i + 1;
            },
            Some(sp) => {
                proof {
                    lemma_match_bounds(b@, i as int);
                }
                let c = match read_coefficient(b, i, sp) {
                    Some(c) => c,
                    None => {
                        return Err(ParseError::InvalidCoefficient);
                    },
                };
                let e = match read_exponent(b, i, sp) {
                    Some(e) => e,
                    None => {
                        return Err(ParseError::InvalidExponent);
                    },
                };
                let ghost old_acc = acc@;
                proof {
                    if !m.contains_key(e as int) {
                        lemma_coeff_absent(old_acc, e as int);
                    }
                }
                if !add_term(&mut acc, e, c) {
                    return Err(ParseError::CoefficientOutOfRange);
                }
                proof {
                    let m2 = accumulate(m, e as int, c as int);
                    assert forall|x: int| #[trigger] m2.contains_key(x) <==> has_exponent(acc@, x) by {
                        assert(m.contains_key(x) <==> has_exponent(old_acc, x));
                    }
                    assert forall|x: int| #[trigger] m2.contains_key(x) implies m2[x] == coeff_of(
                        acc@,
                        x,
                    ) by {
                        if x != e {
                            assert(m.contains_key(x));
                        }
                    }
                    m = m2;
                }
                i = sp.end;
            },
        }
    }
    proof {
        assert forall|e: int| coeff_of(acc@, e) == map_coeff(m, e) by {
            if !m.contains_key(e) {
                if coeff_of(acc@, e) != 0 {
                    crate::poly::lemma_coeff_present(acc@, e);
                }
            }
        }
    }
    Ok(drop_zeros(acc))
}

/// Reads the terms of one side of an equation: the coefficient of each
/// exponent is the sum of those of the terms written with it.
pub fn parse_polynomial(input: &str) -> (r: Result<Vec<Term>, ParseError>)
    ensures
        match r {
            Ok(p) => parse_spec(input.spec_bytes()) is Ok && yields(
                p@,
                parse_spec(input.spec_bytes())->Ok_0,
            ),
            Err(e) => parse_spec(input.spec_bytes()) == Err::<Map<int, int>, ParseError>(e),
        },
{
    parse_bytes(input.as_bytes())
}

/// Number of `=` bytes in `b`.
pub open spec fn count_equals(b: Seq<u8>) -> nat
    decreases b.len(),
{
    if b.len() == 0 {
        0
    } else {
        count_equals(b.drop_last()) + if b.last() == 61 { 1nat } else { 0 }
    }
}

fn copy_range(b: &[u8], start: usize, end: usize) -> (r: Vec<u8>)
    requires
        start <= end <= b@.len(),
    ensures
        r@ == b@.subrange(start as int, end as int),
{
    let mut r: Vec<u8> = Vec::new();
    let mut k: usize = start;
    while k < end
        invariant
            start <= k <= end <= b@.len(),
            r@ == b@.subrange(start as int, k as int),
        decreases end - k,
    {
        r.push(b[k]);
        k = k + 1;
    }
    r
}

/// Splits an equation at its one `=` into the bytes of its two sides.
pub fn split_equation(b: &[u8]) -> (r: Result<(Vec<u8>, Vec<u8>), ParseError>)
    ensures
        r is Err <==> count_equals(b@) != 1,
        r is Err ==> r == Err::<(Vec<u8>, Vec<u8>), ParseError>(ParseError::InvalidFormat),
        r is Ok ==> exists|k: int|
            0 <= k < b@.len() && b@[k] == 61 && r->Ok_0.0@ == b@.subrange(0, k) && r->Ok_0.1@
                == b@.subrange(k + 1, b@.len() as int),
{
    let mut count: usize = 0;
    let mut at: usize = 0;
    let mut k: usize = 0;
    while k < b.len()
        invariant
            k <= b@.len(),
            count == count_equals(b@.subrange(0, k as int)),
            count <= k,
            count >= 1 ==> at < k && b@[at as int] == 61,
        decreases b@.len() - k,
    {
        assert(b@.subrange(0, k + 1).drop_last() =~= b@.subrange(0, k as int));
        if b[k] == 61 {
            count = count + 1;
            at = k;
        }
        k = k + 1;
    }
    assert(b@.subrange(0, k as int) =~= b@);
    if count != 1 {
        return Err(ParseError::InvalidFormat);
    }
    Ok((copy_range(b, 0, at), copy_range(b, at + 1, b.len())))
}

} // verus!
