//! Exact decimal values, held as a mantissa and a scale, with the arithmetic
//! carried out by `rust_decimal`.
use rust_decimal::Decimal;
use vstd::prelude::*;

verus! {

/// The largest mantissa magnitude a decimal can hold (96 bits).
pub const MAX_MANTISSA: i128 = 79228162514264337593543950335;

/// The largest number of digits after the decimal point.
pub const MAX_SCALE: u32 = 28;

/// `10^n`.
pub open spec fn pow10(n: nat) -> int
    decreases n,
{
    if n == 0 {
        1
    } else {
        10 * pow10((n - 1) as nat)
    }
}

/// Whether the exact value `v` (in units of `10^-28`) can be held at scale `s`
/// without exceeding the mantissa range.
pub open spec fn fits_at(v: int, s: nat) -> bool {
    s <= 28 && -MAX_MANTISSA * pow10((28 - s) as nat) <= v <= MAX_MANTISSA * pow10(
        (28 - s) as nat,
    )
}

/// The larger of two naturals.
pub open spec fn max_nat(a: nat, b: nat) -> nat {
    if a >= b {
        a
    } else {
        b
    }
}

/// An exact decimal number `mantissa * 10^-scale`.
#[derive(Clone, Copy, Debug)]
pub struct Dec {
    pub mantissa: i128,
    pub scale: u32,
}

impl Dec {
    /// The mantissa fits in 96 bits and the scale is at most 28.
    pub open spec fn wf(&self) -> bool {
        -MAX_MANTISSA <= self.mantissa <= MAX_MANTISSA && self.scale <= MAX_SCALE
    }

    /// The exact value, counted in units of `10^-28`.
    pub open spec fn units(&self) -> int {
        self.mantissa * pow10((28 - self.scale) as nat)
    }

    /// `mantissa * 10^-scale`.
    pub fn new(mantissa: i64, scale: u32) -> (r: Dec)
        requires
            scale <= MAX_SCALE,
        ensures
            r.wf(),
            r.mantissa == mantissa,
            r.scale == scale,
    {
        Dec { mantissa: mantissa as i128, scale }
    }

    /// The value zero.
    pub fn zero() -> (r: Dec)
        ensures
            r.wf(),
            r.units() == 0,
            r.scale == 0,
    {
        Dec { mantissa: 0, scale: 0 }
    }

    /// The whole number `n`.
    pub fn from_count(n: usize) -> (r: Dec)
        ensures
            r.wf(),
            r.mantissa == n,
            r.scale == 0,
            r.units() == n * pow10(28),
    {
        proof {
            lemma_pow10_values();
        }
        Dec { mantissa: n as i128, scale: 0 }
    }
}

/// What `Decimal::cmp` returns: `-1`, `0` or `1` as `a` is below, equal to or above `b`.
pub open spec fn compare_units(a: int, b: int) -> int {
    if a < b {
        -1
    } else if a == b {
        0
    } else {
        1
    }
}

/// The (mantissa, scale) pair of `rust_decimal`'s quotient of `am * 10^-as_` by `bm * 10^-bs`.
pub uninterp spec fn decimal_quotient(am: int, as_: int, bm: int, bs: int) -> (int, int);

/// The (mantissa, scale) pair of `rust_decimal`'s saturating product.
pub uninterp spec fn decimal_product(am: int, as_: int, bm: int, bs: int) -> (int, int);

/// The (mantissa, scale) pair of `rust_decimal`'s rounding to a whole number.
pub uninterp spec fn decimal_round(m: int, s: int) -> (int, int);

/// The decimal held as the pair `p`.
pub open spec fn from_parts(p: (int, int)) -> Dec {
    Dec { mantissa: p.0 as i128, scale: p.1 as u32 }
}

/// The value of `a / b` as `rust_decimal` computes it.
pub open spec fn quotient(a: Dec, b: Dec) -> Dec {
    from_parts(decimal_quotient(a.mantissa as int, a.scale as int, b.mantissa as int, b.scale as int))
}

/// The value of `a * b` as `rust_decimal`'s saturating multiplication computes it.
pub open spec fn product(a: Dec, b: Dec) -> Dec {
    from_parts(decimal_product(a.mantissa as int, a.scale as int, b.mantissa as int, b.scale as int))
}

/// `d` rounded to a whole number as `rust_decimal` rounds it.
pub open spec fn rounded(d: Dec) -> Dec {
    from_parts(decimal_round(d.mantissa as int, d.scale as int))
}

/// `r` is what `rust_decimal` divides to, for some well-formed holders of the values
/// `n` and `d` (counted in units of `10^-28`).
pub open spec fn is_quotient(r: Dec, n: int, d: int) -> bool {
    exists|x: Dec, y: Dec|
        #![trigger quotient(x, y)]
        x.wf() && y.wf() && x.units() == n && y.units() == d && r == quotient(x, y)
}

/// Whether `a / b` is defined and its value lies well inside the decimal range (as it does
/// when the divisor is at least one in magnitude).
pub open spec fn quotient_in_range(a: Dec, b: Dec) -> bool {
    &&& a.wf()
    &&& b.wf()
    &&& b.units() != 0
    &&& (2 * abs(a.units()) <= MAX_MANTISSA * abs(b.units()) || abs(b.units()) >= pow10(28))
}

pub open spec fn abs(x: int) -> int {
    if x < 0 {
        -x
    } else {
        x
    }
}

/// Relies on `Ord for rust_decimal::Decimal`: decimals are ordered by their exact values.
#[verifier::external_body]
pub(crate) fn decimal_cmp(a: &Dec, b: &Dec) -> (r: i8)
    requires
        a.wf(),
        b.wf(),
    ensures
        r as int == compare_units(a.units(), b.units()),
{
    let x = Decimal::from_i128_with_scale(a.mantissa, a.scale);
    let y = Decimal::from_i128_with_scale(b.mantissa, b.scale);
    match x.cmp(&y) {
        std::cmp::Ordering::Less => -1,
        std::cmp::Ordering::Equal => 0,
        std::cmp::Ordering::Greater => 1,
    }
}

/// Relies on `Add for rust_decimal::Decimal`: when the exact sum can be held at the larger
/// of the two scales it is returned unrounded, at a scale no larger than that one.
#[verifier::external_body]
pub(crate) fn decimal_add(a: &Dec, b: &Dec) -> (r: Dec)
    requires
        a.wf(),
        b.wf(),
        fits_at(a.units() + b.units(), max_nat(a.scale as nat, b.scale as nat)),
    ensures
        r.wf(),
        r.units() == a.units() + b.units(),
        r.scale <= max_nat(a.scale as nat, b.scale as nat),
{
    let x = Decimal::from_i128_with_scale(a.mantissa, a.scale);
    let y = Decimal::from_i128_with_scale(b.mantissa, b.scale);
    let z = x + y;
    Dec { mantissa: z.mantissa(), scale: z.scale() }
}

/// Relies on `Sub for rust_decimal::Decimal`: when the exact difference can be held at the
/// larger of the two scales it is returned unrounded, at a scale no larger than that one.
#[verifier::external_body]
pub(crate) fn decimal_sub(a: &Dec, b: &Dec) -> (r: Dec)
    requires
        a.wf(),
        b.wf(),
        fits_at(a.units() - b.units(), max_nat(a.scale as nat, b.scale as nat)),
    ensures
        r.wf(),
        r.units() == a.units() - b.units(),
        r.scale <= max_nat(a.scale as nat, b.scale as nat),
{
    let x = Decimal::from_i128_with_scale(a.mantissa, a.scale);
    let y = Decimal::from_i128_with_scale(b.mantissa, b.scale);
    let z = x - y;
    Dec { mantissa: z.mantissa(), scale: z.scale() }
}

/// Relies on `rust_decimal::Decimal::saturating_mul`: a decimal result; when the scales
/// add up to at most 28 and the mantissa product fits in 96 bits, that exact product.
#[verifier::external_body]
pub(crate) fn decimal_saturating_mul(a: &Dec, b: &Dec) -> (r: Dec)
    requires
        a.wf(),
        b.wf(),
    ensures
        r.wf(),
        (r.mantissa as int, r.scale as int) == decimal_product(
            a.mantissa as int,
            a.scale as int,
            b.mantissa as int,
            b.scale as int,
        ),
        r == product(*a, *b),
        a.scale + b.scale <= 28 && abs(a.mantissa * b.mantissa) <= MAX_MANTISSA ==> (r.units()
            == a.mantissa * b.mantissa * pow10((28 - a.scale - b.scale) as nat) && r.scale
            <= a.scale + b.scale),
{
    let x = Decimal::from_i128_with_scale(a.mantissa, a.scale);
    let y = Decimal::from_i128_with_scale(b.mantissa, b.scale);
    let z = x.saturating_mul(y);
    Dec { mantissa: z.mantissa(), scale: z.scale() }
}

/// Relies on `Div for rust_decimal::Decimal`: a decimal result, named `quotient`; zero
/// divided by anything else is zero, and the sign of the result is that of the dividend
/// when the divisor is positive (`div_impl` sets it from the two signs). It panics only on a zero divisor or a quotient
/// beyond the decimal range, which `quotient_in_range` leaves out.
#[verifier::external_body]
pub(crate) fn decimal_div(a: &Dec, b: &Dec) -> (r: Dec)
    requires
        quotient_in_range(*a, *b),
    ensures
        r.wf(),
        (r.mantissa as int, r.scale as int) == decimal_quotient(
            a.mantissa as int,
            a.scale as int,
            b.mantissa as int,
            b.scale as int,
        ),
        r == quotient(*a, *b),
        a.units() == 0 ==> r.units() == 0,
        a.units() >= 0 && b.units() > 0 ==> r.units() >= 0,
        a.units() <= 0 && b.units() > 0 ==> r.units() <= 0,
{
    let x = Decimal::from_i128_with_scale(a.mantissa, a.scale);
    let y = Decimal::from_i128_with_scale(b.mantissa, b.scale);
    let z = x / y;
    Dec { mantissa: z.mantissa(), scale: z.scale() }
}

/// Relies on `rust_decimal::Decimal::round`: a decimal with no fractional digits, named
/// `rounded`.
#[verifier::external_body]
pub(crate) fn decimal_round_whole(a: &Dec) -> (r: Dec)
    requires
        a.wf(),
    ensures
        r.wf(),
        (r.mantissa as int, r.scale as int) == decimal_round(a.mantissa as int, a.scale as int),
        r == rounded(*a),
        r.scale == 0,
{
    let z = Decimal::from_i128_with_scale(a.mantissa, a.scale).round();
    Dec { mantissa: z.mantissa(), scale: z.scale() }
}

impl Dec {
    /// Whether the value is below `o`'s.
    pub fn lt(&self, o: &Dec) -> (r: bool)
        requires
            self.wf(),
            o.wf(),
        ensures
            r == (self.units() < o.units()),
    {
        decimal_cmp(self, o) < 0
    }

    /// Whether the value is at most `o`'s.
    pub fn le(&self, o: &Dec) -> (r: bool)
        requires
            self.wf(),
            o.wf(),
        ensures
            r == (self.units() <= o.units()),
    {
        decimal_cmp(self, o) <= 0
    }

    /// Whether the value is above `o`'s.
    pub fn gt(&self, o: &Dec) -> (r: bool)
        requires
            self.wf(),
            o.wf(),
        ensures
            r == (self.units() > o.units()),
    {
        decimal_cmp(self, o) > 0
    }

    /// Whether the value is at least `o`'s.
    pub fn ge(&self, o: &Dec) -> (r: bool)
        requires
            self.wf(),
            o.wf(),
        ensures
            r == (self.units() >= o.units()),
    {
        decimal_cmp(self, o) >= 0
    }

    /// Whether the mantissa and scale are in range.
    pub fn is_wf(&self) -> (r: bool)
        ensures
            r == self.wf(),
    {
        -MAX_MANTISSA <= self.mantissa && self.mantissa <= MAX_MANTISSA && self.scale <= MAX_SCALE
    }

    /// Whether the value is zero.
    pub fn is_zero(&self) -> (r: bool)
        ensures
            r == (self.units() == 0),
    {
        proof {
            lemma_pow10_pos((28 - self.scale) as nat);
            if self.mantissa != 0 {
                lemma_mul_nonzero(self.mantissa as int, pow10((28 - self.scale) as nat));
            }
        }
        self.mantissa == 0
    }
}

impl PartialEq for Dec {
    /// Equality of values (`1.0 == 1.00`) between well-formed decimals.
    fn eq(&self, o: &Dec) -> (r: bool)
        ensures
            r == (self.wf() && o.wf() && self.units() == o.units()),
    {
        if self.is_wf() && o.is_wf() {
            decimal_cmp(self, o) == 0
        } else {
            false
        }
    }
}

impl vstd::std_specs::cmp::PartialEqSpecImpl for Dec {
    open spec fn obeys_eq_spec() -> bool {
        false
    }

    open spec fn eq_spec(&self, o: &Dec) -> bool {
        self.wf() && o.wf() && self.units() == o.units()
    }
}

pub proof fn lemma_pow10_pos(n: nat)
    ensures
        pow10(n) >= 1,
    decreases n,
{
    if n > 0 {
        lemma_pow10_pos((n - 1) as nat);
    }
}

pub proof fn lemma_pow10_mono(a: nat, b: nat)
    requires
        a <= b,
    ensures
        pow10(a) <= pow10(b),
    decreases b,
{
    if b > a {
        lemma_pow10_mono(a, (b - 1) as nat);
        lemma_pow10_pos((b - 1) as nat);
    }
}

pub proof fn lemma_pow10_add(a: nat, b: nat)
    ensures
        pow10(a + b) == pow10(a) * pow10(b),
    decreases a,
{
    if a > 0 {
        lemma_pow10_add((a - 1) as nat, b);
        assert(pow10(a + b) == 10 * pow10((a - 1 + b) as nat));
        assert(10 * (pow10((a - 1) as nat) * pow10(b)) == (10 * pow10((a - 1) as nat)) * pow10(b))
            by (nonlinear_arith);
    }
}

proof fn lemma_mul_nonzero(a: int, b: int)
    requires
        a != 0,
        b != 0,
    ensures
        a * b != 0,
{
    assert(a * b != 0) by (nonlinear_arith)
        requires
            a != 0,
            b != 0,
    ;
}

/// A value that fits at some scale also fits at any smaller scale.
pub proof fn lemma_fits_smaller_scale(v: int, s: nat, t: nat)
    requires
        fits_at(v, s),
        t <= s,
    ensures
        fits_at(v, t),
{
    lemma_pow10_mono((28 - s) as nat, (28 - t) as nat);
    assert(MAX_MANTISSA * pow10((28 - s) as nat) <= MAX_MANTISSA * pow10((28 - t) as nat))
        by (nonlinear_arith)
        requires
            pow10((28 - s) as nat) <= pow10((28 - t) as nat),
    ;
}

/// The value of a well-formed decimal fits at its own scale.
pub proof fn lemma_wf_fits(d: Dec)
    requires
        d.wf(),
    ensures
        fits_at(d.units(), d.scale as nat),
        abs(d.units()) <= MAX_MANTISSA * pow10(28),
{
    let p = pow10((28 - d.scale) as nat);
    lemma_pow10_pos((28 - d.scale) as nat);
    lemma_pow10_mono((28 - d.scale) as nat, 28);
    let m = d.mantissa as int;
    assert(-MAX_MANTISSA * p <= m * p <= MAX_MANTISSA * p) by (nonlinear_arith)
        requires
            -MAX_MANTISSA <= m <= MAX_MANTISSA,
            p >= 1,
    ;
    assert(MAX_MANTISSA * p <= MAX_MANTISSA * pow10(28)) by (nonlinear_arith)
        requires
            p <= pow10(28),
    ;
}

pub proof fn lemma_pow10_values()
    ensures
        pow10(0) == 1,
        pow10(1) == 10,
        pow10(2) == 100,
        pow10(28) == 10000000000000000000000000000,
{
    reveal_with_fuel(pow10, 29);
}

} // verus!
