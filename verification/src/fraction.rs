//! Exact rational numbers, kept in lowest terms with a positive denominator.
use vstd::prelude::*;
use crate::numtheory::{
    gcd,
    gcd_nat,
    is_lowest_terms,
    lemma_gcd_divides,
    lemma_lowest_terms_canonical,
    lemma_lowest_terms_fixed,
    lemma_lowest_terms_same_value,
    lowest_terms,
    magnitude,
};

use crate::text::{
    find,
    lemma_render_reads_back,
    lemma_run_length_is,
    lemma_trimmed_fixed,
    number,
    parse_integer,
    push_integer,
    render,
    run_length,
    trim,
    trimmed,
    Delimiter,
};
use vstd::slice::slice_subrange;

verus! {

/// Why a fraction could not be produced.
#[derive(Clone, Copy, Debug, PartialEq, Eq, Structural)]
pub enum FractionError {
    /// The text is not a signed integer, or not two of them around a `/`.
    InvalidNumberFormat,
    /// The denominator, or the divisor, is zero.
    DivisionByZero,
    /// The fraction in lowest terms does not fit in 64-bit components.
    Overflow,
}

/// A rational number as a numerator over a denominator, both 64-bit, in
/// lowest terms and with a positive denominator.
#[derive(Clone, Copy, Debug, PartialEq, Eq, Structural)]
pub struct Fraction {
    numerator: i64,
    denominator: i64,
}

impl View for Fraction {
    type V = (int, int);

    /// The numerator and the denominator.
    closed spec fn view(&self) -> (int, int) {
        (self.numerator as int, self.denominator as int)
    }
}

/// Whether a numerator and a denominator fit in a `Fraction`.
pub open spec fn fits(p: int, q: int) -> bool {
    i64::MIN <= p <= i64::MAX && i64::MIN <= q <= i64::MAX
}

/// What constructing `n / d` gives: the lowest terms, unless `d` is zero or
/// the lowest terms do not fit.
pub open spec fn construct(n: int, d: int) -> Result<(int, int), FractionError> {
    if d == 0 {
        Err(FractionError::DivisionByZero)
    } else if fits(lowest_terms(n, d).0, lowest_terms(n, d).1) {
        Ok(lowest_terms(n, d))
    } else {
        Err(FractionError::Overflow)
    }
}

/// A result with the fraction, if there is one, replaced by its view.
pub open spec fn outcome(r: Result<Fraction, FractionError>) -> Result<(int, int), FractionError> {
    match r {
        Ok(f) => Ok(f@),
        Err(e) => Err(e),
    }
}

/// The sum of two fractions, over the product of their denominators.
pub open spec fn sum(a: (int, int), b: (int, int)) -> Result<(int, int), FractionError> {
    construct(a.0 * b.1 + b.0 * a.1, a.1 * b.1)
}

/// The difference of two fractions, over the product of their denominators.
pub open spec fn difference(a: (int, int), b: (int, int)) -> Result<(int, int), FractionError> {
    construct(a.0 * b.1 - b.0 * a.1, a.1 * b.1)
}

/// The product of two fractions.
pub open spec fn product(a: (int, int), b: (int, int)) -> Result<(int, int), FractionError> {
    construct(a.0 * b.0, a.1 * b.1)
}

/// The first fraction times the reciprocal of the second.
pub open spec fn quotient(a: (int, int), b: (int, int)) -> Result<(int, int), FractionError> {
    construct(a.0 * b.1, a.1 * b.0)
}

/// How a fraction is written: the numerator alone where the denominator is
/// 1, and else the numerator, a `/` and the denominator.
pub open spec fn formatted(f: (int, int)) -> Seq<u8> {
    if f.1 == 1 {
        render(f.0)
    } else {
        render(f.0) + seq![47u8] + render(f.1)
    }
}

/// What reading `text` as a fraction gives. White space around the text is
/// dropped. With a `/` in it, what stands before the first one and what
/// stands after it, each without the white space around it, are the
/// numerator and the denominator; without one, the text is the numerator
/// and the denominator is 1.
pub open spec fn parsed(text: Seq<u8>) -> Result<(int, int), FractionError> {
    let t = trimmed(text);
    let k = run_length(t, Delimiter::Byte(47)) as int;
    if k < t.len() {
        match (number(trimmed(t.take(k))), number(trimmed(t.skip(k + 1)))) {
            (Some(n), Some(d)) => construct(n as int, d as int),
            _ => Err(FractionError::InvalidNumberFormat),
        }
    } else {
        match number(t) {
            Some(n) => construct(n as int, 1),
            None => Err(FractionError::InvalidNumberFormat),
        }
    }
}

/// The magnitude of a 128-bit integer other than the least.
fn magnitude_of(x: i128) -> (m: u128)
    requires
        x > i128::MIN,
    ensures
        m == magnitude(x as int),
{
    if x < 0 {
        (-x) as u128
    } else {
        x as u128
    }
}

impl Fraction {
    /// The numerator.
    pub open spec fn num(&self) -> int {
        self@.0
    }

    /// The denominator.
    pub open spec fn den(&self) -> int {
        self@.1
    }

    /// Whether the fraction is in lowest terms with a positive denominator.
    /// Every fraction that this library hands out is.
    #[verifier::type_invariant]
    pub open spec fn wf(&self) -> bool {
        is_lowest_terms(self.num(), self.den())
    }

    /// Both components of a fraction fit in 64 bits.
    pub proof fn lemma_fits(self)
        ensures
            fits(self.num(), self.den()),
    {
    }

    /// Fractions with the same view are the same fraction.
    pub proof fn lemma_same_view(self, other: Fraction)
        requires
            self@ == other@,
        ensures
            self == other,
    {
    }

    /// The fraction `n / d` in lowest terms, from components of any size that
    /// 128 bits hold.
    fn build(n: i128, d: i128) -> (r: Result<Fraction, FractionError>)
        requires
            n > i128::MIN,
            d > i128::MIN,
        ensures
            outcome(r) == construct(n as int, d as int),
            r matches Ok(f) ==> f.wf(),
    {
        if d == 0 {
            return Err(FractionError::DivisionByZero);
        }
        let (p, q) = Self::simplify(magnitude_of(n), magnitude_of(d));
        proof {
            lemma_lowest_terms_canonical(n as int, d as int);
        }
        let negative = (n < 0) != (d < 0);
        if q > 9223372036854775807u128 {
            Err(FractionError::Overflow)
        } else if negative {
            if p > 9223372036854775808u128 {
                Err(FractionError::Overflow)
            } else if p == 9223372036854775808u128 {
                Ok(Fraction { numerator: i64::MIN, denominator: q as i64 })
            } else {
                Ok(Fraction { numerator: -(p as i64), denominator: q as i64 })
            }
        } else {
            if p > 9223372036854775807u128 {
                Err(FractionError::Overflow)
            } else {
                Ok(Fraction { numerator: p as i64, denominator: q as i64 })
            }
        }
    }

    /// Both numbers divided by their greatest common divisor.
    fn simplify(a: u128, b: u128) -> (r: (u128, u128))
        requires
            b > 0,
        ensures
            r.0 == a as nat / gcd_nat(a as nat, b as nat),
            r.1 == b as nat / gcd_nat(a as nat, b as nat),
    {
        let g: u128 = gcd(a, b);
        proof {
            lemma_gcd_divides(a as nat, b as nat);
        }
        (a / g, b / g)
    }

    /// The fraction `numerator / denominator`, reduced to lowest terms and
    /// with the sign moved to the numerator. A zero denominator is refused.
    pub fn new(numerator: i64, denominator: i64) -> (r: Result<Fraction, FractionError>)
        ensures
            outcome(r) == construct(numerator as int, denominator as int),
            r matches Ok(f) ==> f.wf(),
    {
        Self::build(numerator as i128, denominator as i128)
    }

    /// The integer `n` as a fraction.
    pub fn from_int(n: i64) -> (f: Fraction)
        ensures
            f@ == (n as int, 1int),
            f.wf(),
    {
        assert(gcd_nat(magnitude(n as int), 1) == 1) by {
            assert(magnitude(n as int) % 1 == 0);
            assert(gcd_nat(1, 0) == 1);
        }
        Fraction { numerator: n, denominator: 1 }
    }

    /// The numerator.
    pub fn numerator(&self) -> (n: i64)
        ensures
            n == self.num(),
    {
        self.numerator
    }

    /// The denominator.
    pub fn denominator(&self) -> (d: i64)
        ensures
            d == self.den(),
            self.wf(),
    {
        proof {
            use_type_invariant(self);
        }
        self.denominator
    }

    /// Reads a fraction from text: `3`, `-3/4`, ` 6 / 8 `.
    pub fn parse(text: &[u8]) -> (r: Result<Fraction, FractionError>)
        ensures
            outcome(r) == parsed(text@),
            r matches Ok(f) ==> f.wf(),
    {
        let t = trim(text);
        let k: usize = find(t, Delimiter::Byte(47));
        if k < t.len() {
            let left = trim(slice_subrange(t, 0, k));
            let right = trim(slice_subrange(t, k + 1, t.len()));
            assert(t@.subrange(k as int + 1, t@.len() as int) =~= t@.skip(k as int + 1));
            match parse_integer(left) {
                None => Err(FractionError::InvalidNumberFormat),
                Some(n) => match parse_integer(right) {
                    None => Err(FractionError::InvalidNumberFormat),
                    Some(d) => Self::new(n, d),
                },
            }
        } else {
            match parse_integer(t) {
                None => Err(FractionError::InvalidNumberFormat),
                Some(n) => Self::new(n, 1),
            }
        }
    }

    /// Writes the fraction as text.
    pub fn format(&self) -> (r: Vec<u8>)
        ensures
            r@ == formatted(self@),
    {
        let mut out: Vec<u8> = Vec::new();
        push_integer(&mut out, self.numerator);
        if self.denominator != 1 {
            out.push(47);
            push_integer(&mut out, self.denominator);
        }
        assert(out@ =~= formatted(self@));
        out
    }

    /// `self + rhs`.
    pub fn add(self, rhs: Fraction) -> (r: Result<Fraction, FractionError>)
        ensures
            outcome(r) == sum(self@, rhs@),
            r matches Ok(f) ==> f.wf(),
    {
        proof {
            use_type_invariant(self);
            use_type_invariant(rhs);
        }
        let an: i128 = self.numerator as i128;
        let ad: i128 = self.denominator as i128;
        let bn: i128 = rhs.numerator as i128;
        let bd: i128 = rhs.denominator as i128;
        assert(-0x4000_0000_0000_0000_0000_0000_0000_0000 < an * bd
            < 0x4000_0000_0000_0000_0000_0000_0000_0000 && -0x4000_0000_0000_0000_0000_0000_0000_0000
            < bn * ad < 0x4000_0000_0000_0000_0000_0000_0000_0000 && 0 < ad * bd
            < 0x4000_0000_0000_0000_0000_0000_0000_0000) by (nonlinear_arith)
            requires
                -0x8000_0000_0000_0000 <= an < 0x8000_0000_0000_0000,
                -0x8000_0000_0000_0000 <= bn < 0x8000_0000_0000_0000,
                0 < ad < 0x8000_0000_0000_0000,
                0 < bd < 0x8000_0000_0000_0000,
        ;
        Self::build(an * bd + bn * ad, ad * bd)
    }

    /// `self - rhs`.
    pub fn sub(self, rhs: Fraction) -> (r: Result<Fraction, FractionError>)
        ensures
            outcome(r) == difference(self@, rhs@),
            r matches Ok(f) ==> f.wf(),
    {
        proof {
            use_type_invariant(self);
            use_type_invariant(rhs);
        }
        let an: i128 = self.numerator as i128;
        let ad: i128 = self.denominator as i128;
        let bn: i128 = rhs.numerator as i128;
        let bd: i128 = rhs.denominator as i128;
        assert(-0x4000_0000_0000_0000_0000_0000_0000_0000 < an * bd
            < 0x4000_0000_0000_0000_0000_0000_0000_0000 && -0x4000_0000_0000_0000_0000_0000_0000_0000
            < bn * ad < 0x4000_0000_0000_0000_0000_0000_0000_0000 && 0 < ad * bd
            < 0x4000_0000_0000_0000_0000_0000_0000_0000) by (nonlinear_arith)
            requires
                -0x8000_0000_0000_0000 <= an < 0x8000_0000_0000_0000,
                -0x8000_0000_0000_0000 <= bn < 0x8000_0000_0000_0000,
                0 < ad < 0x8000_0000_0000_0000,
                0 < bd < 0x8000_0000_0000_0000,
        ;
        Self::build(an * bd - bn * ad, ad * bd)
    }

    /// `self * rhs`.
    pub fn mul(self, rhs: Fraction) -> (r: Result<Fraction, FractionError>)
        ensures
            outcome(r) == product(self@, rhs@),
            r matches Ok(f) ==> f.wf(),
    {
        proof {
            use_type_invariant(self);
            use_type_invariant(rhs);
        }
        let an: i128 = self.numerator as i128;
        let ad: i128 = self.denominator as i128;
        let bn: i128 = rhs.numerator as i128;
        let bd: i128 = rhs.denominator as i128;
        assert(-0x4000_0000_0000_0000_0000_0000_0000_0000 < an * bn
            <= 0x4000_0000_0000_0000_0000_0000_0000_0000 && 0 < ad * bd
            < 0x4000_0000_0000_0000_0000_0000_0000_0000) by (nonlinear_arith)
            requires
                -0x8000_0000_0000_0000 <= an < 0x8000_0000_0000_0000,
                -0x8000_0000_0000_0000 <= bn < 0x8000_0000_0000_0000,
                0 < ad < 0x8000_0000_0000_0000,
                0 < bd < 0x8000_0000_0000_0000,
        ;
        Self::build(an * bn, ad * bd)
    }

    /// `self / rhs`: `self` times the reciprocal of `rhs`. Division by the
    /// zero fraction is refused.
    pub fn div(self, rhs: Fraction) -> (r: Result<Fraction, FractionError>)
        ensures
            outcome(r) == quotient(self@, rhs@),
            r matches Ok(f) ==> f.wf(),
    {
        proof {
            use_type_invariant(self);
            use_type_invariant(rhs);
        }
        let an: i128 = self.numerator as i128;
        let ad: i128 = self.denominator as i128;
        let bn: i128 = rhs.numerator as i128;
        let bd: i128 = rhs.denominator as i128;
        assert(-0x4000_0000_0000_0000_0000_0000_0000_0000 < an * bd
            < 0x4000_0000_0000_0000_0000_0000_0000_0000 && -0x4000_0000_0000_0000_0000_0000_0000_0000
            < ad * bn < 0x4000_0000_0000_0000_0000_0000_0000_0000) by (nonlinear_arith)
            requires
                -0x8000_0000_0000_0000 <= an < 0x8000_0000_0000_0000,
                -0x8000_0000_0000_0000 <= bn < 0x8000_0000_0000_0000,
                0 < ad < 0x8000_0000_0000_0000,
                0 < bd < 0x8000_0000_0000_0000,
        ;
        Self::build(an * bd, ad * bn)
    }

    /// `self + n`, with `n` taken as `n / 1`.
    pub fn add_int(self, n: i64) -> (r: Result<Fraction, FractionError>)
        ensures
            outcome(r) == sum(self@, (n as int, 1int)),
            r matches Ok(f) ==> f.wf(),
    {
        self.add(Self::from_int(n))
    }

    /// `self - n`, with `n` taken as `n / 1`.
    pub fn sub_int(self, n: i64) -> (r: Result<Fraction, FractionError>)
        ensures
            outcome(r) == difference(self@, (n as int, 1int)),
            r matches Ok(f) ==> f.wf(),
    {
        self.sub(Self::from_int(n))
    }

    /// `self * n`, with `n` taken as `n / 1`.
    pub fn mul_int(self, n: i64) -> (r: Result<Fraction, FractionError>)
        ensures
            outcome(r) == product(self@, (n as int, 1int)),
            r matches Ok(f) ==> f.wf(),
    {
        self.mul(Self::from_int(n))
    }

    /// `self / n`, with `n` taken as `n / 1`. Division by 0 is refused.
    pub fn div_int(self, n: i64) -> (r: Result<Fraction, FractionError>)
        ensures
            outcome(r) == quotient(self@, (n as int, 1int)),
            r matches Ok(f) ==> f.wf(),
    {
        self.div(Self::from_int(n))
    }

    /// `n + rhs`, with `n` taken as `n / 1`.
    pub fn int_add(n: i64, rhs: Fraction) -> (r: Result<Fraction, FractionError>)
        ensures
            outcome(r) == sum((n as int, 1int), rhs@),
            r matches Ok(f) ==> f.wf(),
    {
        Self::from_int(n).add(rhs)
    }

    /// `n - rhs`, with `n` taken as `n / 1`.
    pub fn int_sub(n: i64, rhs: Fraction) -> (r: Result<Fraction, FractionError>)
        ensures
            outcome(r) == difference((n as int, 1int), rhs@),
            r matches Ok(f) ==> f.wf(),
    {
        Self::from_int(n).sub(rhs)
    }

    /// `n * rhs`, with `n` taken as `n / 1`.
    pub fn int_mul(n: i64, rhs: Fraction) -> (r: Result<Fraction, FractionError>)
        ensures
            outcome(r) == product((n as int, 1int), rhs@),
            r matches Ok(f) ==> f.wf(),
    {
        Self::from_int(n).mul(rhs)
    }

    /// `n / rhs`, with `n` taken as `n / 1`. Division by the zero fraction is
    /// refused.
    pub fn int_div(n: i64, rhs: Fraction) -> (r: Result<Fraction, FractionError>)
        ensures
            outcome(r) == quotient((n as int, 1int), rhs@),
            r matches Ok(f) ==> f.wf(),
    {
        Self::from_int(n).div(rhs)
    }
}

/// Whatever `construct` gives is in lowest terms with a positive denominator.
pub proof fn lemma_construct_canonical(n: int, d: int)
    ensures
        construct(n, d) matches Ok(t) ==> is_lowest_terms(t.0, t.1),
{
    if d != 0 {
        lemma_lowest_terms_canonical(n, d);
    }
}

/// `a + b` is `b + a`, with the same outcome where the sum does not fit.
pub proof fn lemma_add_commutes(a: Fraction, b: Fraction)
    ensures
        sum(a@, b@) == sum(b@, a@),
{
    let (an, ad) = a@;
    let (bn, bd) = b@;
    assert(ad * bd == bd * ad) by (nonlinear_arith);
}

/// `a * 1` is `a`.
pub proof fn lemma_mul_one(a: Fraction)
    requires
        a.wf(),
    ensures
        product(a@, (1int, 1int)) == Ok::<(int, int), FractionError>(a@),
{
    a.lemma_fits();
    lemma_product_one(a@);
}

/// A pair in lowest terms that fits, times 1, is that pair.
pub proof fn lemma_product_one(a: (int, int))
    requires
        is_lowest_terms(a.0, a.1),
        fits(a.0, a.1),
    ensures
        product(a, (1int, 1int)) == Ok::<(int, int), FractionError>(a),
{
    lemma_lowest_terms_fixed(a.0, a.1);
    assert(a.0 * 1 == a.0 && a.1 * 1 == a.1);
}

/// `a - a` is `0 / 1`.
pub proof fn lemma_sub_self(a: Fraction)
    requires
        a.wf(),
    ensures
        difference(a@, a@) == Ok::<(int, int), FractionError>((0int, 1int)),
{
    let d = a.den() * a.den();
    assert(d > 0) by (nonlinear_arith)
        requires
            d == a.den() * a.den(),
            a.den() > 0,
    ;
    lemma_lowest_terms_same_value(0, d, 0, 1);
    assert(gcd_nat(magnitude(0), magnitude(1)) == 1) by {
        assert(magnitude(0) % magnitude(1) == 0);
        assert(gcd_nat(1, 0) == 1);
    }
    lemma_lowest_terms_fixed(0, 1);
}

/// `(a / b) * b` is `a`, where `b` is not zero and `a / b` fits.
pub proof fn lemma_div_then_mul(a: Fraction, b: Fraction, q: Fraction)
    requires
        a.wf(),
        b.wf(),
        b.num() != 0,
        quotient(a@, b@) == Ok::<(int, int), FractionError>(q@),
    ensures
        product(q@, b@) == Ok::<(int, int), FractionError>(a@),
{
    let (an, ad) = a@;
    let (bn, bd) = b@;
    let (qn, qd) = q@;
    assert(ad * bn != 0) by (nonlinear_arith)
        requires
            ad > 0,
            bn != 0,
    ;
    lemma_lowest_terms_canonical(an * bd, ad * bn);
    assert(qd * bd != 0) by (nonlinear_arith)
        requires
            qd > 0,
            bd > 0,
    ;
    assert((qn * bn) * ad == an * (qd * bd)) by (nonlinear_arith)
        requires
            qn * (ad * bn) == (an * bd) * qd,
    ;
    lemma_lowest_terms_same_value(qn * bn, qd * bd, an, ad);
    lemma_lowest_terms_fixed(an, ad);
    a.lemma_fits();
}

/// Reading what a fraction is written as gives that fraction.
pub proof fn lemma_parse_format(f: Fraction)
    requires
        f.wf(),
    ensures
        parsed(formatted(f@)) == Ok::<(int, int), FractionError>(f@),
{
    let (n, d) = f@;
    let s = formatted(f@);
    let slash = Delimiter::Byte(47);
    f.lemma_fits();
    lemma_lowest_terms_fixed(n, d);
    lemma_render_reads_back(n);
    lemma_render_reads_back(d);
    let left = render(n);
    let right = render(d);
    lemma_trimmed_fixed(left);
    lemma_trimmed_fixed(right);
    if d == 1 {
        lemma_trimmed_fixed(s);
        lemma_run_length_is(s, slash, s.len() as int);
    } else {
        let k = left.len() as int;
        assert(s[0] == left[0]);
        assert(s.last() == right.last());
        lemma_trimmed_fixed(s);
        assert forall|i: int| 0 <= i < k implies !slash.matches(#[trigger] s[i]) by {
            assert(s[i] == left[i]);
        }
        assert(s[k] == 47);
        lemma_run_length_is(s, slash, k);
        assert(s.take(k) =~= left);
        assert(s.skip(k + 1) =~= right);
    }
}

} // verus!
