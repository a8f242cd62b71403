//! Exact base-10 numbers: a signed 96-bit mantissa and a scale of at most 28
//! fractional digits. The arithmetic itself is done by `rust_decimal`; this
//! module holds the representation, what is decided from it (sign, zero,
//! normal form), and the contracts under which the arithmetic is called.

use crate::ordered_map::Duplicate;
use vstd::prelude::*;
use vstd::std_specs::cmp::PartialEqSpecImpl;

verus! {

/// The largest scale a decimal can carry.
pub const MAX_SCALE: u32 = 28;

/// The largest magnitude of a mantissa: `2^96 - 1`.
pub const MAX_MANTISSA: i128 = 0xFFFF_FFFF_FFFF_FFFF_FFFF_FFFF;

/// `10^n`.
pub open spec fn pow10(n: nat) -> nat
    decreases n,
{
    if n == 0 {
        1
    } else {
        10 * pow10((n - 1) as nat)
    }
}

/// The mathematical content of a decimal: the number `mantissa / 10^scale`.
pub struct Dec {
    pub mantissa: int,
    pub scale: nat,
}

impl Dec {
    /// The value can be held: the mantissa fits in 96 bits and the scale is
    /// at most 28.
    pub open spec fn wf(self) -> bool {
        &&& -MAX_MANTISSA <= self.mantissa <= MAX_MANTISSA
        &&& self.scale <= MAX_SCALE
    }

    /// Zero, with scale 0.
    pub open spec fn zero() -> Dec {
        Dec { mantissa: 0, scale: 0 }
    }

    /// One, with scale 0.
    pub open spec fn one() -> Dec {
        Dec { mantissa: 1, scale: 0 }
    }

    /// The value in units of `10^-28`, an integer for every well-formed
    /// decimal. Two decimals denote the same number iff their units agree.
    pub open spec fn units(self) -> int {
        self.mantissa * pow10((MAX_SCALE - self.scale) as nat)
    }

    /// The number is zero, at whatever scale.
    pub open spec fn is_zero(self) -> bool {
        self.mantissa == 0
    }

    /// -1, 0 or 1.
    pub open spec fn sign(self) -> int {
        if self.mantissa < 0 {
            -1
        } else if self.mantissa == 0 {
            0
        } else {
            1
        }
    }

    /// The negation, at the same scale.
    pub open spec fn neg(self) -> Dec {
        Dec { mantissa: -self.mantissa, scale: self.scale }
    }

    /// The absolute value, at the same scale.
    pub open spec fn abs(self) -> Dec {
        if self.mantissa < 0 {
            self.neg()
        } else {
            self
        }
    }

    /// The representation of the same number with the fewest fractional
    /// digits; zero is `0` with scale 0.
    pub open spec fn normal_form(self) -> Dec
        decreases self.scale,
    {
        if self.mantissa == 0 {
            Dec::zero()
        } else if self.scale > 0 && self.mantissa % 10 == 0 {
            Dec { mantissa: self.mantissa / 10, scale: (self.scale - 1) as nat }.normal_form()
        } else {
            self
        }
    }

    /// Order of two representations, used only to name a product
    /// independently of the order of its factors.
    pub open spec fn precedes(self, other: Dec) -> bool {
        self.mantissa < other.mantissa || (self.mantissa == other.mantissa && self.scale
            <= other.scale)
    }
}

/// The one of two representations that [`Dec::precedes`] puts first.
pub open spec fn lesser(a: Dec, b: Dec) -> Dec {
    if a.precedes(b) {
        a
    } else {
        b
    }
}

/// The one of two representations that [`Dec::precedes`] puts second.
pub open spec fn greater(a: Dec, b: Dec) -> Dec {
    if a.precedes(b) {
        b
    } else {
        a
    }
}

/// The negation of an optional decimal.
pub open spec fn neg_option(r: Option<Dec>) -> Option<Dec> {
    match r {
        Some(d) => Some(d.neg()),
        None => None,
    }
}

/// What `rust_decimal::Decimal::checked_add` returns for two operands that
/// are not zero and do not cancel, the first of them positive; `None` where
/// the sum cannot be held.
pub uninterp spec fn decimal_sum(a: Dec, b: Dec) -> Option<Dec>;

/// What `rust_decimal::Decimal::checked_mul` returns for two positive
/// operands, given in the order of [`Dec::precedes`]; `None` where the
/// product cannot be held.
pub uninterp spec fn decimal_product(a: Dec, b: Dec) -> Option<Dec>;

/// What `rust_decimal::Decimal::checked_div` returns; `None` where the divisor
/// is zero or the quotient cannot be held.
pub uninterp spec fn decimal_quotient(a: Dec, b: Dec) -> Option<Dec>;

/// The text that `rust_decimal`'s `Display` gives for a decimal.
pub uninterp spec fn decimal_text(d: Dec) -> Seq<char>;

/// The sum of two decimals, `None` on overflow.
///
/// Adding zero returns the other operand as it is; a number and its negation
/// give zero at their common scale; negating both operands negates the sum.
/// Everything else is decided by `rust_decimal`, which may round where the
/// exact sum needs more than 96 bits.
pub open spec fn dec_add(a: Dec, b: Dec) -> Option<Dec> {
    if a.mantissa == 0 {
        Some(b)
    } else if b.mantissa == 0 {
        Some(a)
    } else if a.scale == b.scale && a.mantissa + b.mantissa == 0 {
        Some(Dec { mantissa: 0, scale: a.scale })
    } else if a.mantissa > 0 {
        decimal_sum(a, b)
    } else {
        neg_option(decimal_sum(a.neg(), b.neg()))
    }
}

/// The difference of two decimals: the sum of the first and the negated
/// second.
pub open spec fn dec_sub(a: Dec, b: Dec) -> Option<Dec> {
    dec_add(a, b.neg())
}

/// The product of two decimals, `None` on overflow.
///
/// A zero factor gives zero with scale 0. Otherwise the magnitude is the
/// product of the magnitudes, whatever the order of the factors, and the sign
/// is negative exactly when the signs differ.
pub open spec fn dec_mul(a: Dec, b: Dec) -> Option<Dec> {
    if a.mantissa == 0 || b.mantissa == 0 {
        Some(Dec::zero())
    } else if a.sign() == b.sign() {
        decimal_product(lesser(a.abs(), b.abs()), greater(a.abs(), b.abs()))
    } else {
        neg_option(decimal_product(lesser(a.abs(), b.abs()), greater(a.abs(), b.abs())))
    }
}

/// The quotient of two decimals, `None` on a zero divisor or overflow.
pub open spec fn dec_div(a: Dec, b: Dec) -> Option<Dec> {
    decimal_quotient(a, b)
}

/// Negating both operands negates the sum.
pub proof fn lemma_add_negated(a: Dec, b: Dec)
    ensures
        dec_add(a.neg(), b.neg()) == neg_option(dec_add(a, b)),
{
    if a.mantissa < 0 && b.mantissa != 0 && !(a.scale == b.scale && a.mantissa + b.mantissa == 0) {
        let r = decimal_sum(a.neg(), b.neg());
        if r is Some {
            assert(r->0.neg().neg() == r->0);
        }
    }
}

/// Negating the second operand of a difference, and the first, negates it.
pub proof fn lemma_sub_negated(a: Dec, b: Dec)
    ensures
        dec_sub(a.neg(), b.neg()) == neg_option(dec_sub(a, b)),
{
    lemma_add_negated(a, b.neg());
}

/// Negating one factor negates the product.
pub proof fn lemma_mul_negated(a: Dec, b: Dec)
    ensures
        dec_mul(a.neg(), b) == neg_option(dec_mul(a, b)),
        dec_mul(a, b.neg()) == neg_option(dec_mul(a, b)),
{
    assert(a.neg().abs() == a.abs());
    assert(b.neg().abs() == b.abs());
    if a.mantissa != 0 && b.mantissa != 0 {
        let r = decimal_product(lesser(a.abs(), b.abs()), greater(a.abs(), b.abs()));
        if r is Some {
            assert(r->0.neg().neg() == r->0);
        }
    }
}

/// The product does not depend on the order of its factors.
pub proof fn lemma_mul_commutes(a: Dec, b: Dec)
    ensures
        dec_mul(a, b) == dec_mul(b, a),
{
    if a.abs().precedes(b.abs()) && b.abs().precedes(a.abs()) {
        assert(a.abs() == b.abs());
    }
}

/// A number less itself is zero at its own scale.
pub proof fn lemma_sub_self(a: Dec)
    ensures
        dec_sub(a, a) == Some(Dec { mantissa: 0, scale: a.scale }),
{
}

/// Adding a zero of any scale to a number that is not zero changes nothing.
pub proof fn lemma_add_zero(a: Dec, z: Dec)
    requires
        z.is_zero(),
    ensures
        !a.is_zero() ==> dec_add(a, z) == Some(a),
        dec_add(a, z) is Some,
        dec_add(a, z)->0.units() == a.units(),
{
    assert(0 * pow10((MAX_SCALE - z.scale) as nat) == 0);
    assert(0 * pow10((MAX_SCALE - a.scale) as nat) == 0);
}

/// Powers of ten are positive.
pub proof fn lemma_pow10_positive(n: nat)
    ensures
        pow10(n) > 0,
    decreases n,
{
    if n > 0 {
        lemma_pow10_positive((n - 1) as nat);
    }
}

/// The units of a decimal have the sign of its mantissa.
pub proof fn lemma_units_sign(d: Dec)
    ensures
        d.units() > 0 <==> d.mantissa > 0,
        d.units() < 0 <==> d.mantissa < 0,
        d.neg().units() == -d.units(),
        d.abs().units() == if d.units() < 0 {
            -d.units()
        } else {
            d.units()
        },
{
    let p = pow10((MAX_SCALE - d.scale) as nat) as int;
    lemma_pow10_positive((MAX_SCALE - d.scale) as nat);
    assert(d.mantissa > 0 ==> d.mantissa * p > 0) by (nonlinear_arith)
        requires
            p > 0,
    ;
    assert(d.mantissa < 0 ==> d.mantissa * p < 0) by (nonlinear_arith)
        requires
            p > 0,
    ;
    assert(d.mantissa == 0 ==> d.mantissa * p == 0) by (nonlinear_arith);
    assert((-d.mantissa) * p == -(d.mantissa * p)) by (nonlinear_arith);
}

/// The normal form of a decimal denotes the number that the decimal denotes.
pub proof fn lemma_normal_form_keeps_number(d: Dec)
    requires
        d.scale <= MAX_SCALE,
    ensures
        d.normal_form().units() == d.units(),
        d.normal_form().scale <= d.scale,
    decreases d.scale,
{
    if d.mantissa == 0 {
        assert(0 * pow10((MAX_SCALE - d.scale) as nat) == 0);
        assert(0 * pow10(MAX_SCALE as nat) == 0);
    } else if d.scale > 0 && d.mantissa % 10 == 0 {
        let shorter = Dec { mantissa: d.mantissa / 10, scale: (d.scale - 1) as nat };
        lemma_normal_form_keeps_number(shorter);
        let p = pow10((MAX_SCALE - d.scale) as nat) as int;
        assert(pow10((MAX_SCALE - shorter.scale) as nat) == 10 * p);
        assert((d.mantissa / 10) * (10 * p) == d.mantissa * p) by (nonlinear_arith)
            requires
                d.mantissa % 10 == 0,
        ;
    }
}

/// `10^(a + b)` is `10^a * 10^b`.
pub proof fn lemma_pow10_adds(a: nat, b: nat)
    ensures
        pow10(a + b) == pow10(a) * pow10(b),
    decreases a,
{
    if a > 0 {
        lemma_pow10_adds((a - 1) as nat, b);
        assert(pow10(a + b) == 10 * pow10((a - 1 + b) as nat));
        assert(10 * (pow10((a - 1) as nat) * pow10(b)) == (10 * pow10((a - 1) as nat)) * pow10(b))
            by (nonlinear_arith);
    } else {
        assert(1 * pow10(b) == pow10(b));
    }
}

/// A normal form is zero with scale 0, or ends in a digit that is not zero,
/// or has no fractional digit.
pub proof fn lemma_normal_form_is_short(d: Dec)
    ensures
        d.normal_form().mantissa == 0 ==> d.normal_form().scale == 0,
        d.normal_form().scale > 0 ==> d.normal_form().mantissa % 10 != 0,
    decreases d.scale,
{
    if d.mantissa != 0 && d.scale > 0 && d.mantissa % 10 == 0 {
        lemma_normal_form_is_short(Dec { mantissa: d.mantissa / 10, scale: (d.scale - 1) as nat });
    }
}

proof fn lemma_short_forms_agree(x: Dec, y: Dec)
    requires
        x.scale <= y.scale <= MAX_SCALE,
        x.units() == y.units(),
        x.mantissa == 0 ==> x.scale == 0,
        y.mantissa == 0 ==> y.scale == 0,
        y.scale > 0 ==> y.mantissa % 10 != 0,
    ensures
        x == y,
{
    let k = (y.scale - x.scale) as nat;
    let p = pow10((MAX_SCALE - y.scale) as nat) as int;
    let q = pow10(k) as int;
    lemma_pow10_positive((MAX_SCALE - y.scale) as nat);
    lemma_pow10_positive(k);
    lemma_pow10_adds(k, (MAX_SCALE - y.scale) as nat);
    assert(pow10((MAX_SCALE - x.scale) as nat) == q * p);
    assert(x.mantissa * q == y.mantissa) by (nonlinear_arith)
        requires
            x.mantissa * (q * p) == y.mantissa * p,
            p > 0,
    ;
    if k > 0 {
        let r = pow10((k - 1) as nat) as int;
        assert(q == 10 * r);
        assert(y.mantissa == 10 * (x.mantissa * r)) by (nonlinear_arith)
            requires
                x.mantissa * q == y.mantissa,
                q == 10 * r,
        ;
        assert(y.mantissa % 10 == 0);
        assert(y.mantissa == 0);
        assert(x.mantissa == 0) by (nonlinear_arith)
            requires
                x.mantissa * q == 0,
                q > 0,
        ;
    } else {
        assert(x.mantissa * 1 == x.mantissa);
    }
}

/// Two decimals denote the same number exactly where their normal forms are
/// the same: this is what `==` decides.
pub proof fn lemma_same_number_same_normal_form(a: Dec, b: Dec)
    requires
        a.scale <= MAX_SCALE,
        b.scale <= MAX_SCALE,
    ensures
        a.normal_form() == b.normal_form() <==> a.units() == b.units(),
{
    lemma_normal_form_keeps_number(a);
    lemma_normal_form_keeps_number(b);
    lemma_normal_form_is_short(a);
    lemma_normal_form_is_short(b);
    let x = a.normal_form();
    let y = b.normal_form();
    if a.units() == b.units() {
        if x.scale <= y.scale {
            lemma_short_forms_agree(x, y);
        } else {
            lemma_short_forms_agree(y, x);
        }
    }
}

/// `r` is the sum of `a` and `b`, as numbers.
pub open spec fn exact_sum(a: Dec, b: Dec, r: Dec) -> bool {
    r.units() == a.units() + b.units()
}

/// `r` is the product of `a` and `b`, as numbers.
pub open spec fn exact_product(a: Dec, b: Dec, r: Dec) -> bool {
    r.units() * pow10(MAX_SCALE as nat) == a.units() * b.units()
}

/// `r` is the quotient of `a` by `b`, as numbers.
pub open spec fn exact_quotient(a: Dec, b: Dec, r: Dec) -> bool {
    r.units() * b.units() == a.units() * pow10(MAX_SCALE as nat)
}

/// The largest magnitude that the exactness tests work with: `2^125`.
pub const TEST_BOUND: i128 = 0x2000_0000_0000_0000_0000_0000_0000_0000;

/// The largest magnitude of a factor that the exactness tests multiply:
/// `2^62`.
pub const FACTOR_BOUND: i128 = 0x4000_0000_0000_0000;

/// `m * 10^k`, where its magnitude is at most `2^125`.
pub open spec fn lift_model(m: int, k: nat) -> Option<int> {
    if -TEST_BOUND <= m * pow10(k) <= TEST_BOUND {
        Some(m * pow10(k))
    } else {
        None
    }
}

/// The product of two factors of magnitude at most `2^62`.
pub open spec fn small_product(x: int, y: int) -> Option<int> {
    if -FACTOR_BOUND <= x <= FACTOR_BOUND && -FACTOR_BOUND <= y <= FACTOR_BOUND {
        Some(x * y)
    } else {
        None
    }
}

/// The largest of three scales.
pub open spec fn widest(a: Dec, b: Dec, r: Dec) -> nat {
    let s = if a.scale >= b.scale {
        a.scale
    } else {
        b.scale
    };
    if s >= r.scale {
        s
    } else {
        r.scale
    }
}

/// The test that `r` is the sum of `a` and `b`: the three mantissas, written
/// at the largest of the three scales, stay within `2^125` and add up.
pub open spec fn plain_sum(a: Dec, b: Dec, r: Dec) -> bool {
    let s = widest(a, b, r);
    match (
        lift_model(a.mantissa, (s - a.scale) as nat),
        lift_model(b.mantissa, (s - b.scale) as nat),
        lift_model(r.mantissa, (s - r.scale) as nat),
    ) {
        (Some(x), Some(y), Some(z)) => z == x + y,
        _ => false,
    }
}

/// The test that `r` is the product of `a` and `b`: a factor is zero and so
/// is `r`, or the scale of `r` is the sum of the scales and its mantissa the
/// product of the mantissas, each of magnitude at most `2^62`.
pub open spec fn plain_product(a: Dec, b: Dec, r: Dec) -> bool {
    if a.mantissa == 0 || b.mantissa == 0 {
        r.mantissa == 0
    } else {
        r.scale == a.scale + b.scale && small_product(a.mantissa, b.mantissa) == Some(
            r.mantissa,
        )
    }
}

/// The test that `r` is the quotient of `a` by `b`: `b` is not zero, and
/// `r * b` and `a`, written at one scale, are one number within the bounds of
/// the tests.
pub open spec fn plain_quotient(a: Dec, b: Dec, r: Dec) -> bool {
    b.mantissa != 0 && match small_product(r.mantissa, b.mantissa) {
        None => false,
        Some(p) => if r.scale + b.scale >= a.scale {
            lift_model(a.mantissa, (r.scale + b.scale - a.scale) as nat) == Some(p)
        } else {
            lift_model(p, (a.scale - r.scale - b.scale) as nat) == Some(a.mantissa)
        },
    }
}

/// Powers of ten grow with their exponent.
pub proof fn lemma_pow10_grows(a: nat, b: nat)
    requires
        a <= b,
    ensures
        pow10(a) <= pow10(b),
    decreases b - a,
{
    if a < b {
        lemma_pow10_grows(a, (b - 1) as nat);
        lemma_pow10_positive((b - 1) as nat);
    }
}

/// A sum that passes the test is exact.
pub proof fn lemma_plain_sum_is_exact(a: Dec, b: Dec, r: Dec)
    requires
        a.scale <= MAX_SCALE,
        b.scale <= MAX_SCALE,
        r.scale <= MAX_SCALE,
        plain_sum(a, b, r),
    ensures
        exact_sum(a, b, r),
{
    let s = widest(a, b, r);
    let t = pow10((MAX_SCALE - s) as nat) as int;
    lemma_pow10_adds((s - a.scale) as nat, (MAX_SCALE - s) as nat);
    lemma_pow10_adds((s - b.scale) as nat, (MAX_SCALE - s) as nat);
    lemma_pow10_adds((s - r.scale) as nat, (MAX_SCALE - s) as nat);
    let pa = pow10((s - a.scale) as nat) as int;
    let pb = pow10((s - b.scale) as nat) as int;
    let pr = pow10((s - r.scale) as nat) as int;
    assert(r.mantissa * (pr * t) == a.mantissa * (pa * t) + b.mantissa * (pb * t))
        by (nonlinear_arith)
        requires
            r.mantissa * pr == a.mantissa * pa + b.mantissa * pb,
    ;
}

/// A product that passes the test is exact.
pub proof fn lemma_plain_product_is_exact(a: Dec, b: Dec, r: Dec)
    requires
        a.scale <= MAX_SCALE,
        b.scale <= MAX_SCALE,
        r.scale <= MAX_SCALE,
        plain_product(a, b, r),
    ensures
        exact_product(a, b, r),
{
    let t = pow10(MAX_SCALE as nat) as int;
    let pa = pow10((MAX_SCALE - a.scale) as nat) as int;
    let pb = pow10((MAX_SCALE - b.scale) as nat) as int;
    let pr = pow10((MAX_SCALE - r.scale) as nat) as int;
    if a.mantissa == 0 || b.mantissa == 0 {
        assert(r.mantissa * pr * t == (a.mantissa * pa) * (b.mantissa * pb)) by (nonlinear_arith)
            requires
                r.mantissa == 0,
                a.mantissa == 0 || b.mantissa == 0,
        ;
    } else {
        lemma_pow10_adds((MAX_SCALE - r.scale) as nat, MAX_SCALE as nat);
        lemma_pow10_adds((MAX_SCALE - a.scale) as nat, (MAX_SCALE - b.scale) as nat);
        assert(pr * t == pa * pb);
        assert((r.mantissa * pr) * t == (a.mantissa * pa) * (b.mantissa * pb)) by (nonlinear_arith)
            requires
                r.mantissa == a.mantissa * b.mantissa,
                pr * t == pa * pb,
        ;
    }
}

/// A quotient that passes the test is exact.
pub proof fn lemma_plain_quotient_is_exact(a: Dec, b: Dec, r: Dec)
    requires
        a.scale <= MAX_SCALE,
        b.scale <= MAX_SCALE,
        r.scale <= MAX_SCALE,
        plain_quotient(a, b, r),
    ensures
        exact_quotient(a, b, r),
{
    let t = pow10(MAX_SCALE as nat) as int;
    let pa = pow10((MAX_SCALE - a.scale) as nat) as int;
    let pb = pow10((MAX_SCALE - b.scale) as nat) as int;
    let pr = pow10((MAX_SCALE - r.scale) as nat) as int;
    let p = r.mantissa * b.mantissa;
    if r.scale + b.scale >= a.scale {
        let d = (r.scale + b.scale - a.scale) as nat;
        let pd = pow10(d) as int;
        // 10^(28-a) * 10^28 == 10^d * 10^(28-r) * 10^(28-b)
        lemma_pow10_adds((MAX_SCALE - a.scale) as nat, MAX_SCALE as nat);
        lemma_pow10_adds((MAX_SCALE - r.scale) as nat, (MAX_SCALE - b.scale) as nat);
        lemma_pow10_adds(d, (2 * MAX_SCALE - r.scale - b.scale) as nat);
        assert(pa * t == pd * (pr * pb));
        let q = pr * pb;
        assert((r.mantissa * pr) * (b.mantissa * pb) == p * q) by (nonlinear_arith)
            requires
                p == r.mantissa * b.mantissa,
                q == pr * pb,
        ;
        assert((a.mantissa * pd) * q == a.mantissa * (pd * q)) by (nonlinear_arith);
        assert(a.mantissa * (pa * t) == (a.mantissa * pa) * t) by (nonlinear_arith);
    } else {
        let d = (a.scale - r.scale - b.scale) as nat;
        let pd = pow10(d) as int;
        lemma_pow10_adds((MAX_SCALE - a.scale) as nat, MAX_SCALE as nat);
        lemma_pow10_adds((MAX_SCALE - r.scale) as nat, (MAX_SCALE - b.scale) as nat);
        lemma_pow10_adds(d, (2 * MAX_SCALE - a.scale) as nat);
        assert(pr * pb == pd * (pa * t));
        let q = pa * t;
        assert((r.mantissa * pr) * (b.mantissa * pb) == p * (pr * pb)) by (nonlinear_arith)
            requires
                p == r.mantissa * b.mantissa,
        ;
        assert(p * (pd * q) == (p * pd) * q) by (nonlinear_arith);
        assert(a.mantissa * (pa * t) == (a.mantissa * pa) * t) by (nonlinear_arith);
    }
}

/// A number left the range that can be held: a decimal needed more than 96
/// bits, or a sequence counter passed its last value.
#[derive(Clone, Copy, Debug, PartialEq, Eq)]
pub struct Overflow;

/// An exact decimal number. Two decimals are equal under `==` where they
/// denote the same number, whatever their scales: `80.0 == 80`. Contracts
/// speak of the representation, mantissa and scale, which [`Decimal::mantissa`]
/// and [`Decimal::scale`] hand out.
#[derive(Clone, Copy, Debug, Eq)]
pub struct Decimal {
    mantissa: i128,
    scale: u32,
}

impl PartialEq for Decimal {
    fn eq(&self, other: &Decimal) -> (r: bool) {
        let a = self.normalize();
        let b = other.normalize();
        a.mantissa == b.mantissa && a.scale == b.scale
    }
}

impl PartialEqSpecImpl for Decimal {
    open spec fn obeys_eq_spec() -> bool {
        true
    }

    open spec fn eq_spec(&self, other: &Decimal) -> bool {
        self@.normal_form() == other@.normal_form()
    }
}

impl View for Decimal {
    type V = Dec;

    closed spec fn view(&self) -> Dec {
        Dec { mantissa: self.mantissa as int, scale: self.scale as nat }
    }
}

impl Duplicate for Decimal {
    fn duplicate(&self) -> (r: Self) {
        *self
    }
}

/// The views of an optional decimal.
pub open spec fn option_dec(r: Option<Decimal>) -> Option<Dec> {
    match r {
        Some(d) => Some(d@),
        None => None,
    }
}

impl Decimal {
    #[verifier::type_invariant]
    spec fn inv(self) -> bool {
        &&& -MAX_MANTISSA <= self.mantissa <= MAX_MANTISSA
        &&& self.scale <= MAX_SCALE
    }

    /// The decimal `mantissa / 10^scale`, or `None` where the mantissa needs
    /// more than 96 bits or the scale is above 28.
    pub fn from_parts(mantissa: i128, scale: u32) -> (r: Option<Decimal>)
        ensures
            r is Some <==> (Dec { mantissa: mantissa as int, scale: scale as nat }).wf(),
            r matches Some(d) ==> d@ == (Dec { mantissa: mantissa as int, scale: scale as nat }),
    {
        if scale > MAX_SCALE || mantissa > MAX_MANTISSA || mantissa < -MAX_MANTISSA {
            None
        } else {
            Some(Decimal { mantissa, scale })
        }
    }

    /// The decimal `num / 10^scale`, for a scale of at most 28.
    pub fn new(num: i64, scale: u32) -> (r: Decimal)
        requires
            scale <= MAX_SCALE,
        ensures
            r@ == (Dec { mantissa: num as int, scale: scale as nat }),
    {
        Decimal { mantissa: num as i128, scale }
    }

    /// Zero, with scale 0.
    pub fn zero() -> (r: Decimal)
        ensures
            r@ == Dec::zero(),
    {
        Decimal { mantissa: 0, scale: 0 }
    }

    /// One, with scale 0.
    pub fn one() -> (r: Decimal)
        ensures
            r@ == Dec::one(),
    {
        Decimal { mantissa: 1, scale: 0 }
    }

    /// The mantissa. Every decimal in memory is well formed.
    pub fn mantissa(&self) -> (m: i128)
        ensures
            m == self@.mantissa,
            self@.wf(),
    {
        proof {
            use_type_invariant(self);
        }
        self.mantissa
    }

    /// The number of fractional digits. Every decimal in memory is well
    /// formed.
    pub fn scale(&self) -> (s: u32)
        ensures
            s == self@.scale,
            self@.wf(),
    {
        proof {
            use_type_invariant(self);
        }
        self.scale
    }

    /// Whether the number is zero, at whatever scale.
    pub fn is_zero(&self) -> (r: bool)
        ensures
            r == self@.is_zero(),
    {
        self.mantissa == 0
    }

    /// -1, 0 or 1 as the number is negative, zero or positive.
    pub fn sign(&self) -> (r: i8)
        ensures
            r == self@.sign(),
    {
        if self.mantissa < 0 {
            -1
        } else if self.mantissa == 0 {
            0
        } else {
            1
        }
    }

    /// The negation, at the same scale.
    pub fn neg(&self) -> (r: Decimal)
        ensures
            r@ == self@.neg(),
    {
        proof {
            use_type_invariant(self);
        }
        Decimal { mantissa: -self.mantissa, scale: self.scale }
    }

    /// The absolute value, at the same scale.
    pub fn abs(&self) -> (r: Decimal)
        ensures
            r@ == self@.abs(),
    {
        proof {
            use_type_invariant(self);
        }
        if self.mantissa < 0 {
            Decimal { mantissa: -self.mantissa, scale: self.scale }
        } else {
            *self
        }
    }

    /// The same number with the fewest fractional digits.
    pub fn normalize(&self) -> (r: Decimal)
        ensures
            r@ == self@.normal_form(),
    {
        proof {
            use_type_invariant(self);
        }
        if self.mantissa == 0 {
            return Decimal { mantissa: 0, scale: 0 };
        }
        let mut mantissa: i128 = self.mantissa;
        let mut scale: u32 = self.scale;
        while scale > 0 && mantissa % 10 == 0
            invariant
                mantissa != 0,
                -MAX_MANTISSA <= mantissa <= MAX_MANTISSA,
                scale <= MAX_SCALE,
                (Dec { mantissa: mantissa as int, scale: scale as nat }).normal_form()
                    == self@.normal_form(),
            decreases scale,
        {
            mantissa = mantissa / 10;
            scale = scale - 1;
        }
        Decimal { mantissa, scale }
    }
}

/// `m * 10^k`, where its magnitude is at most `2^125`.
fn lift(m: i128, k: u32) -> (r: Option<i128>)
    requires
        k <= 2 * MAX_SCALE,
    ensures
        match r {
            Some(v) => lift_model(m as int, k as nat) == Some(v as int),
            None => lift_model(m as int, k as nat) is None,
        },
{
    if m > TEST_BOUND || m < -TEST_BOUND {
        proof {
            lemma_pow10_positive(k as nat);
            let p = pow10(k as nat) as int;
            assert(m > TEST_BOUND ==> m * p > TEST_BOUND) by (nonlinear_arith)
                requires
                    p >= 1,
            ;
            assert(m < -TEST_BOUND ==> m * p < -TEST_BOUND) by (nonlinear_arith)
                requires
                    p >= 1,
            ;
        }
        return None;
    }
    let mut v: i128 = m;
    let mut i: u32 = 0;
    proof {
        assert(m * 1 == m);
    }
    while i < k
        invariant
            i <= k,
            k <= 2 * MAX_SCALE,
            v == m * pow10(i as nat),
            -TEST_BOUND <= v <= TEST_BOUND,
        decreases k - i,
    {
        if v > TEST_BOUND / 10 || v < -(TEST_BOUND / 10) {
            proof {
                let rest = pow10((k - i) as nat) as int;
                lemma_pow10_adds(i as nat, (k - i) as nat);
                lemma_pow10_grows(1, (k - i) as nat);
                assert(pow10(1) == 10) by {
                    reveal_with_fuel(pow10, 2);
                }
                assert(m * pow10(k as nat) == v * rest) by (nonlinear_arith)
                    requires
                        v == m * pow10(i as nat),
                        pow10(k as nat) == pow10(i as nat) * rest,
                ;
                assert(v > TEST_BOUND / 10 ==> v * rest > TEST_BOUND) by (nonlinear_arith)
                    requires
                        rest >= 10,
                ;
                assert(v < -(TEST_BOUND / 10) ==> v * rest < -TEST_BOUND) by (nonlinear_arith)
                    requires
                        rest >= 10,
                ;
            }
            return None;
        }
        proof {
            assert(pow10((i + 1) as nat) == 10 * pow10(i as nat));
            assert((m * pow10(i as nat)) * 10 == m * (10 * pow10(i as nat))) by (nonlinear_arith);
        }
        v = v * 10;
        i = i + 1;
    }
    Some(v)
}

/// The product of two factors of magnitude at most `2^62`.
fn multiply_small(x: i128, y: i128) -> (r: Option<i128>)
    ensures
        match r {
            Some(v) => small_product(x as int, y as int) == Some(v as int),
            None => small_product(x as int, y as int) is None,
        },
{
    if x > FACTOR_BOUND || x < -FACTOR_BOUND || y > FACTOR_BOUND || y < -FACTOR_BOUND {
        return None;
    }
    proof {
        assert(-TEST_BOUND <= x * y <= TEST_BOUND) by (nonlinear_arith)
            requires
                -FACTOR_BOUND <= x <= FACTOR_BOUND,
                -FACTOR_BOUND <= y <= FACTOR_BOUND,
                FACTOR_BOUND * FACTOR_BOUND <= TEST_BOUND,
                FACTOR_BOUND >= 0,
        ;
    }
    Some(x * y)
}

impl Decimal {
    /// Tests that `sum` is the sum of `self` and `other`, as numbers. A sum
    /// that passes is exact; one that fails may have been rounded, or is
    /// beyond the bounds of the test.
    pub fn sums_to(&self, other: &Decimal, sum: &Decimal) -> (ok: bool)
        ensures
            ok == plain_sum(self@, other@, sum@),
            ok ==> exact_sum(self@, other@, sum@),
    {
        proof {
            use_type_invariant(self);
            use_type_invariant(other);
            use_type_invariant(sum);
            if plain_sum(self@, other@, sum@) {
                lemma_plain_sum_is_exact(self@, other@, sum@);
            }
        }
        let s = if self.scale >= other.scale {
            self.scale
        } else {
            other.scale
        };
        let s = if s >= sum.scale {
            s
        } else {
            sum.scale
        };
        let x = lift(self.mantissa, s - self.scale);
        let y = lift(other.mantissa, s - other.scale);
        let z = lift(sum.mantissa, s - sum.scale);
        match (x, y, z) {
            (Some(x), Some(y), Some(z)) => z == x + y,
            _ => false,
        }
    }

    /// Tests that `product` is the product of `self` and `other`, as
    /// numbers. A product that passes is exact.
    pub fn multiplies_to(&self, other: &Decimal, product: &Decimal) -> (ok: bool)
        ensures
            ok == plain_product(self@, other@, product@),
            ok ==> exact_product(self@, other@, product@),
    {
        proof {
            use_type_invariant(self);
            use_type_invariant(other);
            use_type_invariant(product);
            if plain_product(self@, other@, product@) {
                lemma_plain_product_is_exact(self@, other@, product@);
            }
        }
        if self.mantissa == 0 || other.mantissa == 0 {
            product.mantissa == 0
        } else if product.scale != self.scale + other.scale {
            false
        } else {
            match multiply_small(self.mantissa, other.mantissa) {
                Some(p) => p == product.mantissa,
                None => false,
            }
        }
    }

    /// Tests that `quotient` is the quotient of `self` by `other`, as
    /// numbers. A quotient that passes is exact.
    pub fn divides_to(&self, other: &Decimal, quotient: &Decimal) -> (ok: bool)
        ensures
            ok == plain_quotient(self@, other@, quotient@),
            ok ==> exact_quotient(self@, other@, quotient@),
    {
        proof {
            use_type_invariant(self);
            use_type_invariant(other);
            use_type_invariant(quotient);
            if plain_quotient(self@, other@, quotient@) {
                lemma_plain_quotient_is_exact(self@, other@, quotient@);
            }
        }
        if other.mantissa == 0 {
            return false;
        }
        let p = match multiply_small(quotient.mantissa, other.mantissa) {
            Some(p) => p,
            None => {
                return false;
            },
        };
        if quotient.scale + other.scale >= self.scale {
            match lift(self.mantissa, quotient.scale + other.scale - self.scale) {
                Some(v) => v == p,
                None => false,
            }
        } else {
            match lift(p, self.scale - quotient.scale - other.scale) {
                Some(v) => v == self.mantissa,
                None => false,
            }
        }
    }
}

// The arithmetic of `rust_decimal`. Each function below hands its operands to
// `rust_decimal` as mantissa and scale, which `from_i128_with_scale` takes
// for every well-formed decimal, makes one call, and reads the result back
// as mantissa and scale. The contracts are believed, not proved.

/// `rust_decimal::Decimal::checked_add`. Adding zero returns the other
/// operand as it is; a number and its negation give zero at their common
/// scale; negating both operands negates the sum. Of any other sum only its
/// name is known.
#[verifier::external_body]
pub(crate) fn checked_add(a: &Decimal, b: &Decimal) -> (r: Option<Decimal>)
    ensures
        option_dec(r) == (if a@.is_zero() {
            Some(b@)
        } else if b@.is_zero() {
            Some(a@)
        } else if a@.scale == b@.scale && a@.mantissa + b@.mantissa == 0 {
            Some(Dec { mantissa: 0, scale: a@.scale })
        } else if a@.mantissa > 0 {
            decimal_sum(a@, b@)
        } else {
            neg_option(decimal_sum(a@.neg(), b@.neg()))
        }),
{
    let x = rust_decimal::Decimal::from_i128_with_scale(a.mantissa, a.scale);
    let y = rust_decimal::Decimal::from_i128_with_scale(b.mantissa, b.scale);
    match x.checked_add(y) {
        Some(d) => Some(Decimal { mantissa: d.mantissa(), scale: d.scale() }),
        None => None,
    }
}

/// `rust_decimal::Decimal::checked_sub`: subtraction there is addition with
/// the sign of the second operand flipped, so the result is the sum of the
/// first operand and the negated second.
#[verifier::external_body]
pub(crate) fn checked_sub(a: &Decimal, b: &Decimal) -> (r: Option<Decimal>)
    ensures
        option_dec(r) == dec_sub(a@, b@),
{
    let x = rust_decimal::Decimal::from_i128_with_scale(a.mantissa, a.scale);
    let y = rust_decimal::Decimal::from_i128_with_scale(b.mantissa, b.scale);
    match x.checked_sub(y) {
        Some(d) => Some(Decimal { mantissa: d.mantissa(), scale: d.scale() }),
        None => None,
    }
}

/// `rust_decimal::Decimal::checked_mul`. A zero factor gives zero with scale
/// 0. Otherwise the magnitude is computed from the magnitudes of the factors,
/// in whatever order they come, and the result is negative exactly when the
/// signs differ.
#[verifier::external_body]
pub(crate) fn checked_mul(a: &Decimal, b: &Decimal) -> (r: Option<Decimal>)
    ensures
        option_dec(r) == (if a@.is_zero() || b@.is_zero() {
            Some(Dec::zero())
        } else if a@.sign() == b@.sign() {
            decimal_product(lesser(a@.abs(), b@.abs()), greater(a@.abs(), b@.abs()))
        } else {
            neg_option(decimal_product(lesser(a@.abs(), b@.abs()), greater(a@.abs(), b@.abs())))
        }),
{
    let x = rust_decimal::Decimal::from_i128_with_scale(a.mantissa, a.scale);
    let y = rust_decimal::Decimal::from_i128_with_scale(b.mantissa, b.scale);
    match x.checked_mul(y) {
        Some(d) => Some(Decimal { mantissa: d.mantissa(), scale: d.scale() }),
        None => None,
    }
}

/// `rust_decimal::Decimal::checked_div`: nothing is claimed of the quotient
/// but that it depends on the operands alone.
#[verifier::external_body]
pub(crate) fn checked_div(a: &Decimal, b: &Decimal) -> (r: Option<Decimal>)
    ensures
        option_dec(r) == decimal_quotient(a@, b@),
{
    let x = rust_decimal::Decimal::from_i128_with_scale(a.mantissa, a.scale);
    let y = rust_decimal::Decimal::from_i128_with_scale(b.mantissa, b.scale);
    match x.checked_div(y) {
        Some(d) => Some(Decimal { mantissa: d.mantissa(), scale: d.scale() }),
        None => None,
    }
}

/// `rust_decimal::Decimal`'s `<=`: it orders decimals by the numbers they
/// denote, whatever their scales.
#[verifier::external_body]
pub(crate) fn less_or_equal(a: &Decimal, b: &Decimal) -> (r: bool)
    ensures
        r == (a@.units() <= b@.units()),
{
    let x = rust_decimal::Decimal::from_i128_with_scale(a.mantissa, a.scale);
    let y = rust_decimal::Decimal::from_i128_with_scale(b.mantissa, b.scale);
    x <= y
}

/// `rust_decimal::Decimal`'s `Display`, through `to_string`.
#[verifier::external_body]
pub(crate) fn to_text(d: &Decimal) -> (s: String)
    ensures
        s@ == decimal_text(d@),
{
    rust_decimal::Decimal::from_i128_with_scale(d.mantissa, d.scale).to_string()
}

} // verus!
