//! Decimal amounts.  A `Dec` holds exactly what a `rust_decimal::Decimal` holds
//! as plain values (a signed mantissa of at most 96 bits and a scale of at most 28),
//! and every computation on it is done by `rust_decimal`.
use vstd::prelude::*;
use rust_decimal::Decimal;

verus! {

/// The largest magnitude a 96-bit mantissa can hold.
pub const MAX_MANTISSA: i128 = 79228162514264337593543950335i128;

/// The largest scale a decimal may have.
pub const MAX_SCALE: u32 = 28u32;

pub open spec fn p10(k: nat) -> int
    decreases k,
{
    if k == 0 {
        1
    } else {
        10 * p10((k - 1) as nat)
    }
}

pub open spec fn abs_int(x: int) -> int {
    if x < 0 { -x } else { x }
}

pub open spec fn max_nat(a: nat, b: nat) -> nat {
    if a >= b { a } else { b }
}

/// A decimal number `mantissa * 10^(-scale)`.
#[derive(Clone, Copy, Debug)]
pub struct Dec {
    m: i128,
    s: u32,
}

impl Dec {
    #[verifier::type_invariant]
    spec fn inv(self) -> bool {
        &&& self.s <= MAX_SCALE
        &&& -MAX_MANTISSA <= self.m <= MAX_MANTISSA
    }

    pub closed spec fn mant(self) -> int {
        self.m as int
    }

    pub closed spec fn scl(self) -> nat {
        self.s as nat
    }

    /// The value of the decimal multiplied by `10^28`: an exact integer.
    pub open spec fn val(self) -> int {
        self.mant() * p10((28 - self.scl()) as nat)
    }

    /// The mantissa of the decimal with its scale raised to `s`.
    pub open spec fn aligned(self, s: nat) -> int {
        self.mant() * p10((s - self.scl()) as nat)
    }

    /// The decimal with the given mantissa and scale.
    pub closed spec fn spec_new(m: int, s: nat) -> Dec {
        Dec { m: m as i128, s: s as u32 }
    }

    pub closed spec fn zero_spec() -> Dec {
        Dec { m: 0, s: 0 }
    }

    pub closed spec fn one_spec() -> Dec {
        Dec { m: 1, s: 0 }
    }

    pub proof fn lemma_spec_new(m: int, s: nat)
        requires
            -MAX_MANTISSA <= m <= MAX_MANTISSA,
            s <= 28,
        ensures
            Dec::spec_new(m, s).mant() == m,
            Dec::spec_new(m, s).scl() == s,
    {
    }

    pub proof fn lemma_zero_spec()
        ensures
            Dec::zero_spec().mant() == 0,
            Dec::zero_spec().scl() == 0,
            Dec::zero_spec().val() == 0,
    {
    }

    pub open spec fn valid(self) -> bool {
        &&& self.scl() <= 28
        &&& abs_int(self.mant()) <= MAX_MANTISSA
    }

    /// Makes the representation bounds of an executable value known to the caller.
    pub fn reveal_valid(&self)
        ensures
            self.valid(),
    {
        proof {
            use_type_invariant(self);
        }
    }

    /// Builds `m * 10^(-s)`.
    pub fn new(m: i64, s: u32) -> (r: Dec)
        requires
            s <= 28,
        ensures
            r.mant() == m,
            r.scl() == s,
    {
        Dec { m: m as i128, s }
    }

    /// Builds `m * 10^(-s)` from a full-width mantissa.
    pub fn from_parts(m: i128, s: u32) -> (r: Dec)
        requires
            s <= 28,
            -MAX_MANTISSA <= m <= MAX_MANTISSA,
        ensures
            r.mant() == m,
            r.scl() == s,
    {
        Dec { m, s }
    }

    pub fn zero() -> (r: Dec)
        ensures
            r == Dec::zero_spec(),
            r.valid(),
            r.mant() == 0,
            r.scl() == 0,
            r.val() == 0,
    {
        Dec { m: 0, s: 0 }
    }

    pub fn one() -> (r: Dec)
        ensures
            r == Dec::one_spec(),
            r.mant() == 1,
            r.scl() == 0,
            r.val() == p10(28),
    {
        Dec { m: 1, s: 0 }
    }

    pub fn mantissa(&self) -> (r: i128)
        ensures
            r == self.mant(),
            -MAX_MANTISSA <= r <= MAX_MANTISSA,
    {
        proof {
            use_type_invariant(self);
        }
        self.m
    }

    pub fn scale(&self) -> (r: u32)
        ensures
            r == self.scl(),
            r <= 28,
    {
        proof {
            use_type_invariant(self);
        }
        self.s
    }
}

pub proof fn lemma_p10_pos(k: nat)
    ensures
        p10(k) > 0,
    decreases k,
{
    if k > 0 {
        lemma_p10_pos((k - 1) as nat);
    }
}

pub proof fn lemma_p10_adds(a: nat, b: nat)
    ensures
        p10(a + b) == p10(a) * p10(b),
    decreases b,
{
    if b > 0 {
        lemma_p10_adds(a, (b - 1) as nat);
        assert(p10(a + b) == 10 * p10((a + b - 1) as nat));
        assert(p10(a) * p10(b) == p10(a) * (10 * p10((b - 1) as nat)));
        assert(p10(a) * (10 * p10((b - 1) as nat)) == 10 * (p10(a) * p10((b - 1) as nat)))
            by (nonlinear_arith);
    }
}

pub proof fn lemma_p10_monotone(a: nat, b: nat)
    requires
        a <= b,
    ensures
        p10(a) <= p10(b),
    decreases b,
{
    lemma_p10_pos(b);
    if a < b {
        lemma_p10_monotone(a, (b - 1) as nat);
        lemma_p10_pos((b - 1) as nat);
    }
}

pub proof fn lemma_p10_28()
    ensures
        p10(28) == 10000000000000000000000000000int,
{
    reveal_with_fuel(p10, 29);
}

/// `10^k` as a machine integer.
pub fn pow10_i128(k: u32) -> (r: i128)
    requires
        k <= 28,
    ensures
        r == p10(k as nat),
        r > 0,
        r <= 10000000000000000000000000000i128,
{
    let mut r: i128 = 1;
    let mut i: u32 = 0;
    proof {
        lemma_p10_28();
    }
    while i < k
        invariant
            i <= k <= 28,
            r == p10(i as nat),
            p10(28) == 10000000000000000000000000000int,
        decreases k - i,
    {
        proof {
            lemma_p10_monotone((i + 1) as nat, 28);
            lemma_p10_pos(i as nat);
        }
        r = r * 10;
        i = i + 1;
    }
    proof {
        lemma_p10_pos(k as nat);
        lemma_p10_monotone(k as nat, 28);
    }
    r
}

/// A valid decimal raised to scale `s` keeps fitting when its magnitude is at most
/// `MAX_MANTISSA / 10^(s - scale)`.
proof fn lemma_le_div_iff(x: int, m: int, p: int)
    requires
        x >= 0,
        m >= 0,
        p > 0,
    ensures
        (x <= m / p) <==> (x * p <= m),
{
    vstd::arithmetic::div_mod::lemma_fundamental_div_mod(m, p);
    vstd::arithmetic::div_mod::lemma_mod_pos_bound(m, p);
    let q = m / p;
    let r = m % p;
    assert(m == p * q + r);
    assert(0 <= r < p);
    if x <= q {
        assert(x * p <= q * p) by (nonlinear_arith)
            requires
                x <= q,
                p > 0,
        ;
        assert(q * p == p * q) by (nonlinear_arith);
    } else {
        assert(x * p >= (q + 1) * p) by (nonlinear_arith)
            requires
                x >= q + 1,
                p > 0,
        ;
        assert((q + 1) * p == p * q + p) by (nonlinear_arith);
    }
}

/// The scale of an exact sum or difference, as `rust_decimal` chooses it: an operand
/// that is zero gives back the other operand's scale; otherwise the larger scale.
pub open spec fn sum_scale(a: Dec, b: Dec) -> nat {
    if a.mant() == 0 {
        b.scl()
    } else if b.mant() == 0 {
        a.scl()
    } else {
        max_nat(a.scl(), b.scl())
    }
}

/// The exact sum of two decimals, aligned to their larger scale, fits in 96 bits
/// (and so do both operands at that scale).
pub open spec fn add_fits(a: Dec, b: Dec) -> bool {
    let s = max_nat(a.scl(), b.scl());
    &&& abs_int(a.aligned(s)) <= MAX_MANTISSA
    &&& abs_int(b.aligned(s)) <= MAX_MANTISSA
    &&& abs_int(a.aligned(s) + b.aligned(s)) <= MAX_MANTISSA
}

/// The exact difference of two decimals, aligned to their larger scale, fits in 96 bits.
pub open spec fn sub_fits(a: Dec, b: Dec) -> bool {
    let s = max_nat(a.scl(), b.scl());
    &&& abs_int(a.aligned(s)) <= MAX_MANTISSA
    &&& abs_int(b.aligned(s)) <= MAX_MANTISSA
    &&& abs_int(a.aligned(s) - b.aligned(s)) <= MAX_MANTISSA
}

/// `Decimal + Decimal` (`rust_decimal`): on operands whose exact sum fits at the larger
/// scale, the sum is exact and its scale is `sum_scale`.
#[verifier::external_body]
fn rd_add(a: Dec, b: Dec) -> (r: Dec)
    requires
        add_fits(a, b),
    ensures
        r.val() == a.val() + b.val(),
        r.scl() == sum_scale(a, b),
{
    let x = Decimal::from_i128_with_scale(a.m, a.s) + Decimal::from_i128_with_scale(b.m, b.s);
    Dec { m: x.mantissa(), s: x.scale() }
}

/// `Decimal - Decimal` (`rust_decimal`): on operands whose exact difference fits at the
/// larger scale, the difference is exact and its scale is `sum_scale`.
#[verifier::external_body]
fn rd_sub(a: Dec, b: Dec) -> (r: Dec)
    requires
        sub_fits(a, b),
    ensures
        r.val() == a.val() - b.val(),
        r.scl() == sum_scale(a, b),
{
    let x = Decimal::from_i128_with_scale(a.m, a.s) - Decimal::from_i128_with_scale(b.m, b.s);
    Dec { m: x.mantissa(), s: x.scale() }
}

/// `Decimal < Decimal` (`rust_decimal`), which orders decimals by their values.
#[verifier::external_body]
fn rd_lt(a: Dec, b: Dec) -> (r: bool)
    ensures
        r == (a.val() < b.val()),
{
    Decimal::from_i128_with_scale(a.m, a.s) < Decimal::from_i128_with_scale(b.m, b.s)
}

/// `Decimal == Decimal` (`rust_decimal`), which compares decimals by their values.
#[verifier::external_body]
fn rd_eq(a: Dec, b: Dec) -> (r: bool)
    ensures
        r == (a.val() == b.val()),
{
    Decimal::from_i128_with_scale(a.m, a.s) == Decimal::from_i128_with_scale(b.m, b.s)
}

/// `-Decimal` (`rust_decimal`): flips the sign and keeps the scale.
#[verifier::external_body]
fn rd_neg(a: Dec) -> (r: Dec)
    ensures
        r.mant() == -a.mant(),
        r.scl() == a.scl(),
{
    let x = -Decimal::from_i128_with_scale(a.m, a.s);
    Dec { m: x.mantissa(), s: x.scale() }
}

/// `Decimal::abs` (`rust_decimal`): drops the sign and keeps the scale.
#[verifier::external_body]
fn rd_abs(a: Dec) -> (r: Dec)
    ensures
        r.mant() == abs_int(a.mant()),
        r.scl() == a.scl(),
{
    let x = Decimal::from_i128_with_scale(a.m, a.s).abs();
    Dec { m: x.mantissa(), s: x.scale() }
}

/// Rounding of a magnitude to `k` fewer decimal places, half to even.
pub open spec fn round_half_even(mag: int, k: nat) -> int {
    let p = p10(k);
    let q = mag / p;
    let r = mag % p;
    if 2 * r > p || (2 * r == p && q % 2 == 1) {
        q + 1
    } else {
        q
    }
}

/// Rounding of a signed mantissa to `k` fewer decimal places, half to even, symmetric
/// around zero.
pub open spec fn round_mant(m: int, k: nat) -> int {
    if m >= 0 {
        round_half_even(m, k)
    } else {
        -round_half_even(-m, k)
    }
}

/// `Decimal::round_dp` (`rust_decimal`): a decimal with at most `dp` places is given
/// back unchanged; otherwise the mantissa is rounded half to even to `dp` places.
#[verifier::external_body]
fn rd_round_dp(a: Dec, dp: u32) -> (r: Dec)
    ensures
        a.scl() <= dp ==> r.mant() == a.mant() && r.scl() == a.scl(),
        a.scl() > dp ==> r.mant() == round_mant(a.mant(), (a.scl() - dp) as nat) && r.scl()
            == dp,
{
    let x = Decimal::from_i128_with_scale(a.m, a.s).round_dp(dp);
    Dec { m: x.mantissa(), s: x.scale() }
}

/// The number of trailing decimal zeros that normalizing strips from a nonzero mantissa,
/// at most `s` of them.
pub open spec fn trailing_zeros(m: int, s: nat) -> nat
    decreases s,
{
    if s == 0 || m % 10 != 0 {
        0
    } else {
        1 + trailing_zeros(m / 10, (s - 1) as nat)
    }
}

/// `Decimal::normalize` (`rust_decimal`): zero becomes `0` at scale 0; any other decimal
/// loses its trailing zeros after the decimal point.
#[verifier::external_body]
fn rd_normalize(a: Dec) -> (r: Dec)
    ensures
        a.mant() == 0 ==> r.mant() == 0 && r.scl() == 0,
        a.mant() != 0 ==> r.scl() == a.scl() - trailing_zeros(a.mant(), a.scl()) && r.mant()
            == a.mant() / p10(trailing_zeros(a.mant(), a.scl())),
{
    let x = Decimal::from_i128_with_scale(a.m, a.s).normalize();
    Dec { m: x.mantissa(), s: x.scale() }
}

/// What `Decimal::checked_mul` (`rust_decimal`) gives back for `am * 10^-as` times
/// `bm * 10^-bs`, as (mantissa, scale); `None` when the product overflows.
pub uninterp spec fn decimal_checked_mul(am: int, a_s: int, bm: int, bs: int) -> Option<(int, int)>;

/// `Decimal::checked_mul` (`rust_decimal`).  The result is named; a zero operand gives
/// zero at scale 0, and a product that fits with a scale of at most 28 is exact.
#[verifier::external_body]
fn rd_checked_mul(a: Dec, b: Dec) -> (r: Option<Dec>)
    ensures
        r is Some <==> decimal_checked_mul(a.mant(), a.scl() as int, b.mant(), b.scl() as int) is Some,
        r matches Some(d) ==> decimal_checked_mul(a.mant(), a.scl() as int, b.mant(), b.scl() as int)
            == Some((d.mant(), d.scl() as int)),
        a.mant() == 0 || b.mant() == 0 ==> r == Some(Dec::zero_spec()),
        a.scl() + b.scl() <= 28 && abs_int(a.mant() * b.mant()) <= MAX_MANTISSA ==> r == Some(
            Dec::spec_new(a.mant() * b.mant(), a.scl() + b.scl()),
        ),
{
    match Decimal::from_i128_with_scale(a.m, a.s).checked_mul(Decimal::from_i128_with_scale(b.m, b.s)) {
        Some(x) => Some(Dec { m: x.mantissa(), s: x.scale() }),
        None => None,
    }
}

/// What `Decimal::checked_div` (`rust_decimal`) gives back for `am * 10^-as` divided by
/// `bm * 10^-bs`, as (mantissa, scale); `None` for a zero divisor or an overflow.
pub uninterp spec fn decimal_checked_div(am: int, a_s: int, bm: int, bs: int) -> Option<(int, int)>;

/// `Decimal::checked_div` (`rust_decimal`).  The result is named; a zero divisor gives
/// `None`, and a zero dividend over a nonzero divisor gives zero at scale 0.
#[verifier::external_body]
fn rd_checked_div(a: Dec, b: Dec) -> (r: Option<Dec>)
    ensures
        r is Some <==> decimal_checked_div(a.mant(), a.scl() as int, b.mant(), b.scl() as int) is Some,
        r matches Some(d) ==> decimal_checked_div(a.mant(), a.scl() as int, b.mant(), b.scl() as int)
            == Some((d.mant(), d.scl() as int)),
        b.mant() == 0 ==> r is None,
        a.mant() == 0 && b.mant() != 0 ==> r == Some(Dec::zero_spec()),
{
    match Decimal::from_i128_with_scale(a.m, a.s).checked_div(Decimal::from_i128_with_scale(b.m, b.s)) {
        Some(x) => Some(Dec { m: x.mantissa(), s: x.scale() }),
        None => None,
    }
}

/// What `<Decimal as FromStr>::from_str` (`rust_decimal`) gives back for a string, as
/// (mantissa, scale); `None` when the string does not parse.
pub uninterp spec fn decimal_from_str(s: Seq<char>) -> Option<(int, int)>;

/// `Decimal::from_str` (`rust_decimal`); the result is named.
#[verifier::external_body]
fn rd_from_str(s: &str) -> (r: Option<Dec>)
    ensures
        r is Some <==> decimal_from_str(s@) is Some,
        r matches Some(d) ==> decimal_from_str(s@) == Some((d.mant(), d.scl() as int)),
{
    match <Decimal as std::str::FromStr>::from_str(s) {
        Ok(x) => Some(Dec { m: x.mantissa(), s: x.scale() }),
        Err(_) => None,
    }
}

/// What `<Decimal as Display>` (`rust_decimal`) writes for `m * 10^-s`.
pub uninterp spec fn decimal_to_string(m: int, s: int) -> Seq<char>;

/// `Decimal::to_string` (`rust_decimal`); the result is named.
#[verifier::external_body]
fn rd_to_string(a: Dec) -> (r: String)
    ensures
        r@ == decimal_to_string(a.mant(), a.scl() as int),
{
    Decimal::from_i128_with_scale(a.m, a.s).to_string()
}

/// The mantissa of `d` raised to scale `s`, when it fits in 96 bits.
fn aligned_mantissa(d: &Dec, s: u32) -> (r: Option<i128>)
    requires
        d.scl() <= s <= 28,
    ensures
        r is Some <==> abs_int(d.aligned(s as nat)) <= MAX_MANTISSA,
        r matches Some(x) ==> x == d.aligned(s as nat),
{
    d.reveal_valid();
    let p: i128 = pow10_i128(s - d.s);
    let mag: i128 = if d.m < 0 { -d.m } else { d.m };
    proof {
        lemma_le_div_iff(mag as int, MAX_MANTISSA as int, p as int);
        assert(abs_int(d.aligned(s as nat)) == mag * p) by (nonlinear_arith)
            requires
                d.aligned(s as nat) == d.m * p,
                mag == abs_int(d.m as int),
                p > 0,
        ;
    }
    if mag <= MAX_MANTISSA / p {
        proof {
            assert(abs_int(d.m * p) <= MAX_MANTISSA);
        }
        Some(d.m * p)
    } else {
        None
    }
}

impl Dec {
    /// `self + other`, exact; `None` when the exact sum does not fit.
    pub fn checked_add(&self, other: &Dec) -> (r: Option<Dec>)
        ensures
            r is Some <==> add_fits(*self, *other),
            r matches Some(x) ==> x.val() == self.val() + other.val() && x.scl() == sum_scale(
                *self,
                *other,
            ),
            r matches Some(x) ==> x == spec_add(*self, *other),
            r matches Some(x) ==> x.valid(),
    {
        self.reveal_valid();
        other.reveal_valid();
        let s: u32 = if self.s >= other.s { self.s } else { other.s };
        let xa = aligned_mantissa(self, s);
        let xb = aligned_mantissa(other, s);
        match (xa, xb) {
            (Some(x), Some(y)) => {
                let sum: i128 = x + y;
                if -MAX_MANTISSA <= sum && sum <= MAX_MANTISSA {
                    let r = rd_add(*self, *other);
                    r.reveal_valid();
                    proof {
                        lemma_add_is_spec_add(*self, *other, r);
                    }
                    Some(r)
                } else {
                    None
                }
            },
            _ => None,
        }
    }

    /// `self - other`, exact; `None` when the exact difference does not fit.
    pub fn checked_sub(&self, other: &Dec) -> (r: Option<Dec>)
        ensures
            r is Some <==> sub_fits(*self, *other),
            r matches Some(x) ==> x.val() == self.val() - other.val() && x.scl() == sum_scale(
                *self,
                *other,
            ),
    {
        self.reveal_valid();
        other.reveal_valid();
        let s: u32 = if self.s >= other.s { self.s } else { other.s };
        let xa = aligned_mantissa(self, s);
        let xb = aligned_mantissa(other, s);
        match (xa, xb) {
            (Some(x), Some(y)) => {
                let diff: i128 = x - y;
                if -MAX_MANTISSA <= diff && diff <= MAX_MANTISSA {
                    Some(rd_sub(*self, *other))
                } else {
                    None
                }
            },
            _ => None,
        }
    }

    pub fn lt(&self, other: &Dec) -> (r: bool)
        ensures
            r == (self.val() < other.val()),
    {
        rd_lt(*self, *other)
    }

    pub fn le(&self, other: &Dec) -> (r: bool)
        ensures
            r == (self.val() <= other.val()),
    {
        !rd_lt(*other, *self)
    }

    pub fn gt(&self, other: &Dec) -> (r: bool)
        ensures
            r == (self.val() > other.val()),
    {
        rd_lt(*other, *self)
    }

    pub fn ge(&self, other: &Dec) -> (r: bool)
        ensures
            r == (self.val() >= other.val()),
    {
        !rd_lt(*self, *other)
    }

    /// Equality of values (`1.50 == 1.5`).
    pub fn eq_value(&self, other: &Dec) -> (r: bool)
        ensures
            r == (self.val() == other.val()),
    {
        rd_eq(*self, *other)
    }

    pub fn is_zero(&self) -> (r: bool)
        ensures
            r == (self.val() == 0),
            r == (self.mant() == 0),
    {
        proof {
            lemma_p10_pos((28 - self.scl()) as nat);
            lemma_val_zero(*self);
        }
        rd_eq(*self, Dec::zero())
    }

    pub fn is_positive(&self) -> (r: bool)
        ensures
            r == (self.val() > 0),
            r == (self.mant() > 0),
    {
        proof {
            lemma_val_sign(*self);
        }
        rd_lt(Dec::zero(), *self)
    }

    pub fn is_negative(&self) -> (r: bool)
        ensures
            r == (self.val() < 0),
            r == (self.mant() < 0),
    {
        proof {
            lemma_val_sign(*self);
        }
        rd_lt(*self, Dec::zero())
    }

    pub fn neg(&self) -> (r: Dec)
        ensures
            r == negated(*self),
            r.mant() == -self.mant(),
            r.scl() == self.scl(),
            r.val() == -self.val(),
    {
        let r = rd_neg(*self);
        proof {
            let p = p10((28 - self.scl()) as nat);
            assert(r.mant() * p == -(self.mant() * p)) by (nonlinear_arith)
                requires
                    r.mant() == -self.mant(),
            ;
        }
        r
    }

    pub fn abs(&self) -> (r: Dec)
        ensures
            r == absolute(*self),
            r.mant() == abs_int(self.mant()),
            r.scl() == self.scl(),
            r.val() == abs_int(self.val()),
    {
        let r = rd_abs(*self);
        proof {
            lemma_val_sign(*self);
            lemma_p10_pos((28 - self.scl()) as nat);
            assert(r.val() == abs_int(self.val())) by (nonlinear_arith)
                requires
                    r.val() == r.mant() * p10((28 - self.scl()) as nat),
                    self.val() == self.mant() * p10((28 - self.scl()) as nat),
                    r.mant() == abs_int(self.mant()),
                    p10((28 - self.scl()) as nat) > 0,
            ;
        }
        r
    }

    /// Rounds to `dp` decimal places, half to even.
    pub fn round_dp(&self, dp: u32) -> (r: Dec)
        ensures
            r == rounded(*self, dp as nat),
            self.scl() <= dp ==> r.mant() == self.mant() && r.scl() == self.scl(),
            self.scl() > dp ==> r.mant() == round_mant(self.mant(), (self.scl() - dp) as nat)
                && r.scl() == dp,
    {
        rd_round_dp(*self, dp)
    }

    /// Strips trailing zeros after the decimal point.
    pub fn normalize(&self) -> (r: Dec)
        ensures
            r == normalized(*self),
            r.val() == self.val(),
            self.mant() == 0 ==> r.mant() == 0 && r.scl() == 0,
            self.mant() != 0 ==> r.scl() == self.scl() - trailing_zeros(self.mant(), self.scl())
                && r.mant() == self.mant() / p10(trailing_zeros(self.mant(), self.scl())),
    {
        self.reveal_valid();
        let r = rd_normalize(*self);
        proof {
            if self.mant() == 0 {
                lemma_val_zero(*self);
                lemma_val_zero(r);
            } else {
                lemma_trailing_zeros(self.mant(), self.scl());
                let t = trailing_zeros(self.mant(), self.scl());
                let k = (28 - self.scl()) as nat;
                lemma_p10_adds(t, k);
                assert((28 - r.scl()) as nat == t + k);
                assert(r.val() == r.mant() * (p10(t) * p10(k)));
                assert(self.mant() == r.mant() * p10(t));
                assert(r.mant() * (p10(t) * p10(k)) == (r.mant() * p10(t)) * p10(k))
                    by (nonlinear_arith);
            }
        }
        r
    }

    /// `self * other` as `rust_decimal` computes it; `None` on overflow.
    pub fn checked_mul(&self, other: &Dec) -> (r: Option<Dec>)
        ensures
            r is Some <==> decimal_checked_mul(
                self.mant(),
                self.scl() as int,
                other.mant(),
                other.scl() as int,
            ) is Some,
            r matches Some(d) ==> decimal_checked_mul(
                self.mant(),
                self.scl() as int,
                other.mant(),
                other.scl() as int,
            ) == Some((d.mant(), d.scl() as int)),
            self.mant() == 0 || other.mant() == 0 ==> r == Some(Dec::zero_spec()),
            r == product(*self, *other),
    {
        let r = rd_checked_mul(*self, *other);
        proof {
            if let Some(d) = r {
                lemma_spec_new_self(d);
            }
        }
        r
    }

    /// `self / other` as `rust_decimal` computes it; `None` for a zero divisor or an overflow.
    pub fn checked_div(&self, other: &Dec) -> (r: Option<Dec>)
        ensures
            r is Some <==> decimal_checked_div(
                self.mant(),
                self.scl() as int,
                other.mant(),
                other.scl() as int,
            ) is Some,
            r matches Some(d) ==> decimal_checked_div(
                self.mant(),
                self.scl() as int,
                other.mant(),
                other.scl() as int,
            ) == Some((d.mant(), d.scl() as int)),
            other.mant() == 0 ==> r is None,
            r == quotient(*self, *other),
    {
        let r = rd_checked_div(*self, *other);
        proof {
            if let Some(d) = r {
                lemma_spec_new_self(d);
            }
        }
        r
    }

    /// Parses a decimal written in base ten.
    pub fn parse(s: &str) -> (r: Option<Dec>)
        ensures
            r is Some <==> decimal_from_str(s@) is Some,
            r matches Some(d) ==> decimal_from_str(s@) == Some((d.mant(), d.scl() as int)),
    {
        rd_from_str(s)
    }

    /// The decimal as `rust_decimal` writes it.
    pub fn to_string(&self) -> (r: String)
        ensures
            r@ == decimal_to_string(self.mant(), self.scl() as int),
    {
        rd_to_string(*self)
    }
}

pub proof fn lemma_val_zero(d: Dec)
    ensures
        (d.val() == 0) <==> (d.mant() == 0),
{
    lemma_p10_pos((28 - d.scl()) as nat);
    let p = p10((28 - d.scl()) as nat);
    if d.mant() != 0 {
        assert(d.mant() * p != 0) by (nonlinear_arith)
            requires
                d.mant() != 0,
                p > 0,
        ;
    }
}

pub proof fn lemma_val_sign(d: Dec)
    ensures
        (d.val() > 0) <==> (d.mant() > 0),
        (d.val() < 0) <==> (d.mant() < 0),
{
    lemma_p10_pos((28 - d.scl()) as nat);
    let p = p10((28 - d.scl()) as nat);
    if d.mant() > 0 {
        assert(d.mant() * p > 0) by (nonlinear_arith)
            requires
                d.mant() > 0,
                p > 0,
        ;
    } else if d.mant() < 0 {
        assert(d.mant() * p < 0) by (nonlinear_arith)
            requires
                d.mant() < 0,
                p > 0,
        ;
    } else {
        assert(d.mant() * p == 0) by (nonlinear_arith)
            requires
                d.mant() == 0,
        ;
    }
}

proof fn lemma_trailing_zeros(m: int, s: nat)
    ensures
        trailing_zeros(m, s) <= s,
        m == (m / p10(trailing_zeros(m, s))) * p10(trailing_zeros(m, s)),
    decreases s,
{
    if s == 0 || m % 10 != 0 {
        assert(p10(0) == 1);
    } else {
        lemma_trailing_zeros(m / 10, (s - 1) as nat);
        let t = trailing_zeros(m / 10, (s - 1) as nat);
        let m1 = m / 10;
        lemma_p10_pos(t);
        assert(m == m1 * 10) by {
            vstd::arithmetic::div_mod::lemma_fundamental_div_mod(m, 10);
        }
        assert(m1 == (m1 / p10(t)) * p10(t));
        assert(p10(t + 1) == 10 * p10(t));
        let q = m1 / p10(t);
        assert(m == q * p10(t + 1)) by (nonlinear_arith)
            requires
                m == m1 * 10,
                m1 == q * p10(t),
                p10(t + 1) == 10 * p10(t),
        ;
        assert(m / p10(t + 1) == q) by {
            lemma_p10_pos(t + 1);
            vstd::arithmetic::div_mod::lemma_div_multiples_vanish(q, p10(t + 1));
            assert(q * p10(t + 1) == p10(t + 1) * q) by (nonlinear_arith);
        }
    }
}

/// The exact sum of two decimals at the scale `rust_decimal` gives it (meaningful when
/// `add_fits(a, b)`).
pub open spec fn spec_add(a: Dec, b: Dec) -> Dec {
    if a.mant() == 0 {
        b
    } else if b.mant() == 0 {
        a
    } else {
        let s = max_nat(a.scl(), b.scl());
        Dec::spec_new(a.aligned(s) + b.aligned(s), s)
    }
}

/// Two decimals with the same mantissa and scale are the same value.
pub proof fn lemma_dec_ext(a: Dec, b: Dec)
    requires
        a.mant() == b.mant(),
        a.scl() == b.scl(),
    ensures
        a == b,
{
}

/// What `Dec::checked_add` gives back is `spec_add`.
pub proof fn lemma_add_is_spec_add(a: Dec, b: Dec, r: Dec)
    requires
        add_fits(a, b),
        r.val() == a.val() + b.val(),
        r.scl() == sum_scale(a, b),
        a.valid(),
        b.valid(),
    ensures
        r == spec_add(a, b),
{
    let s = max_nat(a.scl(), b.scl());
    let k = (28 - r.scl()) as nat;
    lemma_p10_pos(k);
    if a.mant() == 0 {
        lemma_val_zero(a);
        assert(r.mant() * p10(k) == b.mant() * p10(k));
        lemma_mul_cancel(r.mant(), b.mant(), p10(k));
        lemma_dec_ext(r, b);
    } else if b.mant() == 0 {
        lemma_val_zero(b);
        assert(r.mant() * p10(k) == a.mant() * p10(k));
        lemma_mul_cancel(r.mant(), a.mant(), p10(k));
        lemma_dec_ext(r, a);
    } else {
        let ka = (s - a.scl()) as nat;
        let kb = (s - b.scl()) as nat;
        lemma_p10_adds(ka, k);
        lemma_p10_adds(kb, k);
        assert(a.val() == a.aligned(s) * p10(k)) by (nonlinear_arith)
            requires
                a.val() == a.mant() * p10((28 - a.scl()) as nat),
                p10((28 - a.scl()) as nat) == p10(ka) * p10(k),
                a.aligned(s) == a.mant() * p10(ka),
        ;
        assert(b.val() == b.aligned(s) * p10(k)) by (nonlinear_arith)
            requires
                b.val() == b.mant() * p10((28 - b.scl()) as nat),
                p10((28 - b.scl()) as nat) == p10(kb) * p10(k),
                b.aligned(s) == b.mant() * p10(kb),
        ;
        assert(r.mant() * p10(k) == (a.aligned(s) + b.aligned(s)) * p10(k)) by (nonlinear_arith)
            requires
                r.val() == r.mant() * p10(k),
                r.val() == a.val() + b.val(),
                a.val() == a.aligned(s) * p10(k),
                b.val() == b.aligned(s) * p10(k),
        ;
        lemma_mul_cancel(r.mant(), a.aligned(s) + b.aligned(s), p10(k));
        assert(abs_int(a.aligned(s) + b.aligned(s)) <= MAX_MANTISSA);
        Dec::lemma_spec_new(a.aligned(s) + b.aligned(s), s);
        lemma_dec_ext(r, Dec::spec_new(a.aligned(s) + b.aligned(s), s));
    }
}

pub proof fn lemma_mul_cancel(x: int, y: int, p: int)
    requires
        p > 0,
        x * p == y * p,
    ensures
        x == y,
{
    if x < y {
        assert(x * p < y * p) by (nonlinear_arith)
            requires
                x < y,
                p > 0,
        ;
    } else if x > y {
        assert(x * p > y * p) by (nonlinear_arith)
            requires
                x > y,
                p > 0,
        ;
    }
}

/// The running total that adding `vals` one by one onto `acc` produces, as long as every
/// step fits; `None` as soon as one does not.
pub open spec fn dec_sum_from(acc: Dec, vals: Seq<Dec>) -> Option<Dec>
    decreases vals.len(),
{
    if vals.len() == 0 {
        Some(acc)
    } else {
        match dec_sum_from(acc, vals.drop_last()) {
            Some(t) => if add_fits(t, vals.last()) {
                Some(spec_add(t, vals.last()))
            } else {
                None
            },
            None => None,
        }
    }
}

/// The sum of the values of a sequence of decimals (each times `10^28`).
pub open spec fn val_sum(vals: Seq<Dec>) -> int
    decreases vals.len(),
{
    if vals.len() == 0 {
        0
    } else {
        val_sum(vals.drop_last()) + vals.last().val()
    }
}

pub proof fn lemma_spec_add_val(a: Dec, b: Dec)
    requires
        add_fits(a, b),
        a.valid(),
        b.valid(),
    ensures
        spec_add(a, b).val() == a.val() + b.val(),
        spec_add(a, b).scl() == sum_scale(a, b),
        spec_add(a, b).valid(),
{
    let s = max_nat(a.scl(), b.scl());
    if a.mant() == 0 {
        lemma_val_zero(a);
    } else if b.mant() == 0 {
        lemma_val_zero(b);
    } else {
        let k = (28 - s) as nat;
        let ka = (s - a.scl()) as nat;
        let kb = (s - b.scl()) as nat;
        lemma_p10_adds(ka, k);
        lemma_p10_adds(kb, k);
        Dec::lemma_spec_new(a.aligned(s) + b.aligned(s), s);
        assert(a.val() == a.aligned(s) * p10(k)) by (nonlinear_arith)
            requires
                a.val() == a.mant() * p10((28 - a.scl()) as nat),
                p10((28 - a.scl()) as nat) == p10(ka) * p10(k),
                a.aligned(s) == a.mant() * p10(ka),
        ;
        assert(b.val() == b.aligned(s) * p10(k)) by (nonlinear_arith)
            requires
                b.val() == b.mant() * p10((28 - b.scl()) as nat),
                p10((28 - b.scl()) as nat) == p10(kb) * p10(k),
                b.aligned(s) == b.mant() * p10(kb),
        ;
        assert((a.aligned(s) + b.aligned(s)) * p10(k) == a.aligned(s) * p10(k) + b.aligned(s)
            * p10(k)) by (nonlinear_arith);
    }
}

/// A running total that stays `Some` adds up the values exactly.
pub proof fn lemma_dec_sum_val(acc: Dec, vals: Seq<Dec>)
    requires
        acc.valid(),
        forall|i: int| 0 <= i < vals.len() ==> (#[trigger] vals[i]).valid(),
        dec_sum_from(acc, vals) is Some,
    ensures
        dec_sum_from(acc, vals)->0.val() == acc.val() + val_sum(vals),
        dec_sum_from(acc, vals)->0.valid(),
    decreases vals.len(),
{
    if vals.len() > 0 {
        let pre = vals.drop_last();
        assert forall|i: int| 0 <= i < pre.len() implies (#[trigger] pre[i]).valid() by {
            assert(pre[i] == vals[i]);
        }
        lemma_dec_sum_val(acc, pre);
        let t = dec_sum_from(acc, pre)->0;
        assert(vals.last() == vals[vals.len() - 1]);
        lemma_spec_add_val(t, vals.last());
    }
}

/// Adding one more decimal onto a running total.
pub proof fn lemma_dec_sum_push(acc: Dec, vals: Seq<Dec>, x: Dec)
    ensures
        dec_sum_from(acc, vals.push(x)) == match dec_sum_from(acc, vals) {
            Some(t) => if add_fits(t, x) {
                Some(spec_add(t, x))
            } else {
                None
            },
            None => None,
        },
{
    assert(vals.push(x).drop_last() =~= vals);
    assert(vals.push(x).last() == x);
}

/// When a running total over a whole sequence stays `Some`, so does the total over any
/// prefix of it.
pub proof fn lemma_dec_sum_prefix(acc: Dec, vals: Seq<Dec>, n: int)
    requires
        0 <= n <= vals.len(),
        dec_sum_from(acc, vals) is Some,
    ensures
        dec_sum_from(acc, vals.take(n)) is Some,
    decreases vals.len() - n,
{
    if n < vals.len() {
        lemma_dec_sum_prefix(acc, vals, n + 1);
        let t = vals.take(n + 1);
        assert(t.drop_last() =~= vals.take(n));
    } else {
        assert(vals.take(n) =~= vals);
    }
}



/// The decimal a (mantissa, scale) pair names.
pub open spec fn from_pair(p: (int, int)) -> Dec {
    Dec::spec_new(p.0, p.1 as nat)
}

/// What `checked_mul` gives back, as a decimal.
pub open spec fn product(a: Dec, b: Dec) -> Option<Dec> {
    match decimal_checked_mul(a.mant(), a.scl() as int, b.mant(), b.scl() as int) {
        Some(p) => Some(from_pair(p)),
        None => None,
    }
}

/// What `checked_div` gives back, as a decimal.
pub open spec fn quotient(a: Dec, b: Dec) -> Option<Dec> {
    match decimal_checked_div(a.mant(), a.scl() as int, b.mant(), b.scl() as int) {
        Some(p) => Some(from_pair(p)),
        None => None,
    }
}

/// `d` rounded half to even to `dp` places, as `round_dp` gives it back.
pub open spec fn rounded(d: Dec, dp: nat) -> Dec {
    if d.scl() <= dp {
        d
    } else {
        Dec::spec_new(round_mant(d.mant(), (d.scl() - dp) as nat), dp)
    }
}

/// `-d`, at the same scale.
pub open spec fn negated(d: Dec) -> Dec {
    Dec::spec_new(-d.mant(), d.scl())
}

/// `d` without trailing zeros after the decimal point, as `normalize` gives it back.
pub open spec fn normalized(d: Dec) -> Dec {
    if d.mant() == 0 {
        Dec::spec_new(0, 0)
    } else {
        Dec::spec_new(
            d.mant() / p10(trailing_zeros(d.mant(), d.scl())),
            (d.scl() - trailing_zeros(d.mant(), d.scl())) as nat,
        )
    }
}

/// `|d|`, at the same scale.
pub open spec fn absolute(d: Dec) -> Dec {
    Dec::spec_new(abs_int(d.mant()), d.scl())
}

/// A valid decimal is the decimal of its own mantissa and scale.
pub proof fn lemma_spec_new_self(d: Dec)
    ensures
        Dec::spec_new(d.mant(), d.scl()) == d,
{
}

/// Negating twice gives the decimal back.
pub proof fn lemma_negated_twice(d: Dec)
    requires
        d.valid(),
    ensures
        negated(negated(d)) == d,
{
    Dec::lemma_spec_new(-d.mant(), d.scl());
    lemma_spec_new_self(d);
}

/// The value has at most 8 decimal places.
pub open spec fn places8(d: Dec) -> bool {
    d.val() % p10(20) == 0
}

/// Multiples of a positive number are closed under sums, differences and negation.
pub proof fn lemma_multiples(x: int, y: int, p: int)
    requires
        p > 0,
        x % p == 0,
        y % p == 0,
    ensures
        (x + y) % p == 0,
        (x - y) % p == 0,
        (-x) % p == 0,
{
    vstd::arithmetic::div_mod::lemma_fundamental_div_mod(x, p);
    vstd::arithmetic::div_mod::lemma_fundamental_div_mod(y, p);
    let a = x / p;
    let b = y / p;
    assert(x + y == (a + b) * p) by (nonlinear_arith)
        requires
            x == p * a,
            y == p * b,
    ;
    assert(x - y == (a - b) * p) by (nonlinear_arith)
        requires
            x == p * a,
            y == p * b,
    ;
    assert(-x == (-a) * p) by (nonlinear_arith)
        requires
            x == p * a,
    ;
    vstd::arithmetic::div_mod::lemma_mod_multiples_basic(a + b, p);
    vstd::arithmetic::div_mod::lemma_mod_multiples_basic(a - b, p);
    vstd::arithmetic::div_mod::lemma_mod_multiples_basic(-a, p);
}

/// A decimal of scale at most 8 has at most 8 places.
pub proof fn lemma_scale8_places8(d: Dec)
    requires
        d.scl() <= 8,
    ensures
        places8(d),
{
    let k = (8 - d.scl()) as nat;
    lemma_p10_adds(k, 20);
    assert(k + 20 == (28 - d.scl()) as nat);
    lemma_p10_pos(20);
    let q = d.mant() * p10(k);
    assert(d.val() == q * p10(20)) by (nonlinear_arith)
        requires
            d.val() == d.mant() * p10((28 - d.scl()) as nat),
            p10((28 - d.scl()) as nat) == p10(k) * p10(20),
            q == d.mant() * p10(k),
    ;
    vstd::arithmetic::div_mod::lemma_mod_multiples_basic(q, p10(20));
}

/// Rounding a decimal of more than 8 places that has at most 8 places of value to 8
/// places keeps its value.
pub proof fn lemma_round8_exact(d: Dec)
    requires
        places8(d),
        d.scl() > 8,
        d.scl() <= 28,
    ensures
        round_mant(d.mant(), (d.scl() - 8) as nat) * p10(20) == d.val(),
{
    let k = (d.scl() - 8) as nat;
    let j = (28 - d.scl()) as nat;
    let pp = p10(k);
    let qq = p10(j);
    let m = d.mant();
    lemma_p10_pos(k);
    lemma_p10_pos(j);
    lemma_p10_adds(k, j);
    assert(k + j == 20);
    assert(p10(20) == pp * qq);
    assert(pp * qq > 0) by (nonlinear_arith)
        requires
            pp > 0,
            qq > 0,
    ;
    vstd::arithmetic::div_mod::lemma_fundamental_div_mod(d.val(), pp * qq);
    let c = d.val() / (pp * qq);
    assert(d.val() == (pp * qq) * c);
    assert(m * qq == (c * pp) * qq) by (nonlinear_arith)
        requires
            d.val() == m * qq,
            d.val() == (pp * qq) * c,
    ;
    lemma_mul_cancel(m, c * pp, qq);
    assert(m == pp * c) by (nonlinear_arith)
        requires
            m == c * pp,
    ;
    if m >= 0 {
        assert(c >= 0) by (nonlinear_arith)
            requires
                m == pp * c,
                m >= 0,
                pp > 0,
        ;
        vstd::arithmetic::div_mod::lemma_div_multiples_vanish(c, pp);
        vstd::arithmetic::div_mod::lemma_mod_multiples_basic(c, pp);
        assert(c * pp == pp * c) by (nonlinear_arith);
        assert(round_half_even(m, k) == c);
    } else {
        let mc = -c;
        assert(-m == pp * mc) by (nonlinear_arith)
            requires
                m == pp * c,
                mc == -c,
        ;
        vstd::arithmetic::div_mod::lemma_div_multiples_vanish(mc, pp);
        vstd::arithmetic::div_mod::lemma_mod_multiples_basic(mc, pp);
        assert(mc * pp == pp * mc) by (nonlinear_arith);
        assert(round_half_even(-m, k) == mc);
    }
    assert(round_mant(m, k) == c);
    assert(c * p10(20) == d.val()) by (nonlinear_arith)
        requires
            p10(20) == pp * qq,
            d.val() == (pp * qq) * c,
    ;
}

impl Dec {
    /// Whether the decimal has at most 8 decimal places: rounding it to 8 places keeps
    /// its value.
    pub fn has_at_most_8_places(&self) -> (r: bool)
        ensures
            r == places8(*self),
    {
        self.reveal_valid();
        let rounded = self.round_dp(8);
        proof {
            lemma_p10_pos(20);
            if self.scl() <= 8 {
                lemma_scale8_places8(*self);
            } else {
                assert(rounded.val() == round_mant(self.mant(), (self.scl() - 8) as nat) * p10(
                    20,
                ));
                if places8(*self) {
                    lemma_round8_exact(*self);
                } else {
                    vstd::arithmetic::div_mod::lemma_mod_multiples_basic(
                        round_mant(self.mant(), (self.scl() - 8) as nat),
                        p10(20),
                    );
                }
            }
        }
        rounded.eq_value(self)
    }
}

/// Rounding to 8 places leaves at most 8 places, and keeps the value of a decimal that
/// had at most 8.
pub proof fn lemma_round8(d: Dec, r: Dec)
    requires
        d.valid(),
        d.scl() <= 8 ==> r.mant() == d.mant() && r.scl() == d.scl(),
        d.scl() > 8 ==> r.mant() == round_mant(d.mant(), (d.scl() - 8) as nat) && r.scl() == 8,
    ensures
        places8(r),
        places8(d) ==> r.val() == d.val(),
{
    lemma_scale8_places8(r);
    if d.scl() > 8 && places8(d) {
        lemma_round8_exact(d);
    }
}

} // verus!
