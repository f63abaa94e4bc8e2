//! Exact decimal amounts of money. The arithmetic is `rust_decimal`'s; the
//! library holds each value as the plain pair (mantissa, scale) that
//! `rust_decimal::Decimal` exposes, so the logic around it can be verified.
use vstd::prelude::*;

use crate::text::{decimal, digit_char};

verus! {

/// The largest mantissa magnitude a `rust_decimal::Decimal` can hold
/// (`2^96 - 1`).
pub const MAX_MANTISSA: i128 = 0xFFFF_FFFF_FFFF_FFFF_FFFF_FFFFi128;

/// The number `mantissa / 10^scale`.
#[derive(Clone, Copy, Debug, PartialEq, Eq, Structural)]
pub struct Amount {
    pub mantissa: i128,
    pub scale: u32,
}

impl Amount {
    /// A value `rust_decimal` can represent: `|mantissa| < 2^96` and
    /// `scale <= 28`.
    pub open spec fn wf(self) -> bool {
        -MAX_MANTISSA <= self.mantissa <= MAX_MANTISSA && self.scale <= 28
    }

    /// The same magnitude with the opposite sign.
    pub open spec fn negated(self) -> Amount {
        Amount { mantissa: (-self.mantissa) as i128, scale: self.scale }
    }

    /// The value is above zero.
    pub open spec fn is_positive(self) -> bool {
        self.mantissa > 0
    }

    /// The value is zero.
    pub open spec fn is_zero(self) -> bool {
        self.mantissa == 0
    }

    /// Zero (`Decimal::ZERO`).
    pub fn zero() -> (r: Amount)
        ensures
            r == spec_zero(),
            r.wf(),
    {
        Amount { mantissa: 0, scale: 0 }
    }

    /// The absolute value (`Decimal::abs`): the sign is dropped, the scale kept.
    pub fn abs(self) -> (r: Amount)
        requires
            self.wf(),
        ensures
            r == spec_abs(self),
            r.wf(),
    {
        if self.mantissa < 0 {
            Amount { mantissa: (-self.mantissa) as i128, scale: self.scale }
        } else {
            self
        }
    }

    /// The whole number `n` (scale 0), as `Decimal::from(n)` makes it.
    pub fn from_count(n: usize) -> (r: Amount)
        ensures
            r == (Amount { mantissa: n as i128, scale: 0 }),
            r.wf(),
    {
        Amount { mantissa: n as i128, scale: 0 }
    }
}

/// Zero with scale 0.
pub open spec fn spec_zero() -> Amount {
    Amount { mantissa: 0, scale: 0 }
}

/// The absolute value of `a`.
pub open spec fn spec_abs(a: Amount) -> Amount {
    if a.mantissa < 0 {
        a.negated()
    } else {
        a
    }
}

/// `10^e`.
pub open spec fn pow10(e: nat) -> int
    decreases e,
{
    if e == 0 {
        1
    } else {
        10 * pow10((e - 1) as nat)
    }
}

/// `a`, which has at most two decimal places, is more than `n` hundredths:
/// `mantissa * 10^(2 - scale) > n`.
pub open spec fn exceeds_hundredths(a: Amount, n: int) -> bool {
    a.mantissa * pow10((2 - a.scale) as nat) > n
}

/// The value of `a`, which has at most two decimal places, in hundredths.
pub open spec fn cents_value(a: Amount) -> int {
    a.mantissa * pow10((2 - a.scale) as nat)
}

/// `m` is a mantissa a `rust_decimal::Decimal` can hold.
pub open spec fn fits_mantissa(m: int) -> bool {
    -MAX_MANTISSA <= m <= MAX_MANTISSA
}

/// The larger of the two amounts' scales.
pub open spec fn common_scale(a: Amount, b: Amount) -> u32 {
    if a.scale >= b.scale {
        a.scale
    } else {
        b.scale
    }
}

/// `a`'s mantissa written at scale `s` (at least `a`'s own scale).
pub open spec fn aligned_mantissa(a: Amount, s: u32) -> int {
    a.mantissa * pow10((s - a.scale) as nat)
}

/// `a` and `b` brought to their common scale both fit, and so does
/// `sign` (1 or -1) applied to the sum.
pub open spec fn aligned_fits(a: Amount, b: Amount, sign: int) -> bool {
    let s = common_scale(a, b);
    &&& fits_mantissa(aligned_mantissa(a, s))
    &&& fits_mantissa(aligned_mantissa(b, s))
    &&& fits_mantissa(aligned_mantissa(a, s) + sign * aligned_mantissa(b, s))
}

/// Negates an optional amount.
pub open spec fn negated_opt(r: Option<Amount>) -> Option<Amount> {
    match r {
        Some(a) => Some(a.negated()),
        None => None,
    }
}

/// What `Decimal::from_str` makes of a text: the value, or the error's
/// message.
pub uninterp spec fn decimal_from_str(s: Seq<char>) -> Result<Amount, Seq<char>>;

/// What `Decimal::checked_add` returns for `a + b`.
pub uninterp spec fn decimal_sum(a: Amount, b: Amount) -> Option<Amount>;

/// What `Decimal::checked_sub` returns for `a - b`.
pub uninterp spec fn decimal_difference(a: Amount, b: Amount) -> Option<Amount>;

/// What `Decimal::checked_div` returns for `a / b`.
pub uninterp spec fn decimal_quotient(a: Amount, b: Amount) -> Option<Amount>;



/// The size of `a`'s mantissa.
pub open spec fn magnitude(a: Amount) -> nat {
    if a.mantissa < 0 {
        (-a.mantissa) as nat
    } else {
        a.mantissa as nat
    }
}

/// `a` rounded to `dp` decimal places, as `Decimal::round_dp` does it: an
/// amount with at most `dp` places is kept as it is; otherwise the
/// magnitude is divided by `10^(scale - dp)`, rounding half to even, the
/// sign is kept and the scale becomes `dp`.
pub open spec fn decimal_rounded(a: Amount, dp: u32) -> Amount {
    if a.scale <= dp {
        a
    } else {
        let k = (a.scale - dp) as nat;
        let n = magnitude(a) as int;
        let q = n / pow10(k);
        let rem = n % pow10(k);
        let half = 5 * pow10((k - 1) as nat);
        let q2 = if rem > half || (rem == half && q % 2 == 1) {
            q + 1
        } else {
            q
        };
        Amount {
            mantissa: (if a.mantissa < 0 {
                -q2
            } else {
                q2
            }) as i128,
            scale: dp,
        }
    }
}

/// The last `k` decimal digits of `n`, leading zeros included.
pub open spec fn padded_digits(n: nat, k: nat) -> Seq<char>
    decreases k,
{
    if k == 0 {
        Seq::empty()
    } else {
        padded_digits(n / 10, (k - 1) as nat).push(digit_char(n % 10))
    }
}

/// The text `Decimal`'s `Display` writes for `a`: a minus sign for a
/// negative amount, the whole part without leading zeros (`0` when there
/// is none), then, when the scale is not zero, a point and exactly `scale`
/// fraction digits.
pub open spec fn decimal_text(a: Amount) -> Seq<char> {
    let n = magnitude(a);
    (if a.mantissa < 0 {
        seq!['-']
    } else {
        Seq::empty()
    }) + decimal((n / (pow10(a.scale as nat) as nat)) as nat) + (if a.scale == 0 {
        Seq::empty()
    } else {
        seq!['.'] + padded_digits(n, a.scale as nat)
    })
}

/// A parse result with the error message taken by its view.
pub open spec fn parse_result_view(r: Result<Amount, String>) -> Result<Amount, Seq<char>> {
    match r {
        Ok(a) => Ok(a),
        Err(e) => Err(e@),
    }
}

/// `Decimal::from_str`: parses a decimal number. The contract names the
/// result, which rust_decimal's grammar and rounding decide; what is stated
/// beyond the name is that every `Decimal` has a mantissa of at most 96
/// bits and a scale of at most 28, as the crate documents.
#[verifier::external_body]
pub(crate) fn parse_decimal(s: &str) -> (r: Result<Amount, String>)
    ensures
        parse_result_view(r) == decimal_from_str(s@),
        r matches Ok(a) ==> a.wf(),
{
    match <rust_decimal::Decimal as core::str::FromStr>::from_str(s) {
        Ok(d) => Ok(Amount { mantissa: d.mantissa(), scale: d.scale() }),
        Err(e) => Err(e.to_string()),
    }
}

/// `Decimal::checked_add`. Besides naming the result, the contract states
/// the sign symmetry of rust_decimal's sign-and-magnitude addition: the
/// magnitude it computes does not depend on the signs, only on whether they
/// agree, and the sign of the result follows the left operand; so
/// `(-a) - b` is exactly `-(a + b)`, overflowing together. It also states
/// that two amounts of the same scale whose sum fits add exactly, keeping
/// that scale (the operands need no rescaling and the sum no rounding), and
/// that adding to zero gives the other operand as it is (zero on the left
/// is checked first); and that two non-zero amounts of different scales
/// add exactly at the larger scale when both, brought to that scale, and
/// their sum fit (the smaller-scale operand is multiplied up by a power of
/// ten, then the two are added).
#[verifier::external_body]
pub(crate) fn checked_add(a: Amount, b: Amount) -> (r: Option<Amount>)
    requires
        a.wf(),
        b.wf(),
    ensures
        r == decimal_sum(a, b),
        r matches Some(c) ==> c.wf(),
        negated_opt(r) == decimal_difference(a.negated(), b),
        a.scale == b.scale && fits_mantissa(a.mantissa + b.mantissa) ==> r == Some(
            Amount { mantissa: (a.mantissa + b.mantissa) as i128, scale: a.scale },
        ),
        a.mantissa == 0 ==> r == Some(b),
        a.mantissa != 0 && b.mantissa == 0 ==> r == Some(a),
        a.mantissa != 0 && b.mantissa != 0 && aligned_fits(a, b, 1) ==> r == Some(
            Amount {
                mantissa: (aligned_mantissa(a, common_scale(a, b)) + aligned_mantissa(
                    b,
                    common_scale(a, b),
                )) as i128,
                scale: common_scale(a, b),
            },
        ),
{
    let x = rust_decimal::Decimal::from_i128_with_scale(a.mantissa, a.scale);
    let y = rust_decimal::Decimal::from_i128_with_scale(b.mantissa, b.scale);
    match x.checked_add(y) {
        Some(d) => Some(Amount { mantissa: d.mantissa(), scale: d.scale() }),
        None => None,
    }
}

/// `Decimal::checked_sub`. Besides naming the result, the contract states
/// the same sign symmetry as for addition: `(-a) + b` is exactly
/// `-(a - b)`, overflowing together; that two amounts of the same scale
/// whose difference fits subtract exactly, keeping that scale; and that
/// zero minus `b` is `b` negated and `a` minus zero is `a`, scales kept;
/// and that non-zero amounts subtract exactly at the larger scale when
/// both, brought to that scale, and their difference fit.
#[verifier::external_body]
pub(crate) fn checked_sub(a: Amount, b: Amount) -> (r: Option<Amount>)
    requires
        a.wf(),
        b.wf(),
    ensures
        r == decimal_difference(a, b),
        r matches Some(c) ==> c.wf(),
        negated_opt(r) == decimal_sum(a.negated(), b),
        a.scale == b.scale && fits_mantissa(a.mantissa - b.mantissa) ==> r == Some(
            Amount { mantissa: (a.mantissa - b.mantissa) as i128, scale: a.scale },
        ),
        a.mantissa == 0 ==> r == Some(b.negated()),
        a.mantissa != 0 && b.mantissa == 0 ==> r == Some(a),
        a.mantissa != 0 && b.mantissa != 0 && aligned_fits(a, b, -1) ==> r == Some(
            Amount {
                mantissa: (aligned_mantissa(a, common_scale(a, b)) - aligned_mantissa(
                    b,
                    common_scale(a, b),
                )) as i128,
                scale: common_scale(a, b),
            },
        ),
{
    let x = rust_decimal::Decimal::from_i128_with_scale(a.mantissa, a.scale);
    let y = rust_decimal::Decimal::from_i128_with_scale(b.mantissa, b.scale);
    match x.checked_sub(y) {
        Some(d) => Some(Amount { mantissa: d.mantissa(), scale: d.scale() }),
        None => None,
    }
}

/// `Decimal::checked_div`; the contract names the result, which
/// rust_decimal's rounding to 28 digits decides. `None` on overflow or
/// division by zero.
#[verifier::external_body]
pub(crate) fn checked_div(a: Amount, b: Amount) -> (r: Option<Amount>)
    requires
        a.wf(),
        b.wf(),
    ensures
        r == decimal_quotient(a, b),
        r matches Some(c) ==> c.wf(),
{
    let x = rust_decimal::Decimal::from_i128_with_scale(a.mantissa, a.scale);
    let y = rust_decimal::Decimal::from_i128_with_scale(b.mantissa, b.scale);
    match x.checked_div(y) {
        Some(d) => Some(Amount { mantissa: d.mantissa(), scale: d.scale() }),
        None => None,
    }
}

/// `Decimal::round_dp`: rounding to `dp` decimal places, half to even
/// ("banker's rounding", as the crate documents it).
#[verifier::external_body]
pub(crate) fn round_dp(a: Amount, dp: u32) -> (r: Amount)
    requires
        a.wf(),
    ensures
        r == decimal_rounded(a, dp),
        r.wf(),
{
    let d = rust_decimal::Decimal::from_i128_with_scale(a.mantissa, a.scale).round_dp(dp);
    Amount { mantissa: d.mantissa(), scale: d.scale() }
}

/// `Decimal`'s `to_string`: the sign, the whole part and `scale` fraction
/// digits.
#[verifier::external_body]
pub(crate) fn decimal_to_string(a: Amount) -> (r: String)
    requires
        a.wf(),
    ensures
        r@ == decimal_text(a),
{
    rust_decimal::Decimal::from_i128_with_scale(a.mantissa, a.scale).to_string()
}

/// The text an amount is stored and shown as: rounded to two places.
pub open spec fn cents_text(a: Amount) -> Seq<char> {
    decimal_text(decimal_rounded(a, 2))
}

/// Rounds to two decimal places and writes the result
/// (`round_dp(2).to_string()`).
pub fn to_cents_string(a: Amount) -> (r: String)
    requires
        a.wf(),
    ensures
        r@ == cents_text(a),
{
    let rounded = round_dp(a, 2);
    decimal_to_string(rounded)
}

/// Whether `a`, which has at most two decimal places, is more than `n`
/// hundredths, compared exactly.
pub fn amount_exceeds_hundredths(a: Amount, n: i64) -> (r: bool)
    requires
        a.wf(),
        a.scale <= 2,
    ensures
        r == exceeds_hundredths(a, n as int),
{
    let p: i128 = if a.scale == 0 {
        100
    } else if a.scale == 1 {
        10
    } else {
        1
    };
    proof {
        reveal_with_fuel(pow10, 3);
        assert(p == pow10((2 - a.scale) as nat));
        assert(-MAX_MANTISSA * 100 <= a.mantissa * p <= MAX_MANTISSA * 100) by (nonlinear_arith)
            requires
                -MAX_MANTISSA <= a.mantissa <= MAX_MANTISSA,
                1 <= p <= 100,
        ;
    }
    a.mantissa * p > (n as i128)
}

/// Brought to the common scale of two amounts of at most two decimal
/// places, an amount's mantissa times the remaining power of ten is its
/// value in hundredths.
proof fn lemma_aligned_cents(a: Amount, s: u32)
    requires
        a.scale <= s <= 2,
    ensures
        aligned_mantissa(a, s) * pow10((2 - s) as nat) == cents_value(a),
        cents_value(a) >= 0 ==> 0 <= aligned_mantissa(a, s) <= cents_value(a),
        cents_value(a) < 0 ==> cents_value(a) <= aligned_mantissa(a, s) < 0,
{
    reveal_with_fuel(pow10, 3);
    assert(pow10(0) == 1 && pow10(1) == 10 && pow10(2) == 100);
    let m = a.mantissa as int;
    if a.scale == 0 {
        if s == 0 {
            assert(aligned_mantissa(a, s) == m);
        } else if s == 1 {
            assert(aligned_mantissa(a, s) == m * 10);
        } else {
            assert(aligned_mantissa(a, s) == m * 100);
        }
        assert(cents_value(a) == m * 100);
    } else if a.scale == 1 {
        if s == 1 {
            assert(aligned_mantissa(a, s) == m);
        } else {
            assert(aligned_mantissa(a, s) == m * 10);
        }
        assert(cents_value(a) == m * 10);
    } else {
        assert(aligned_mantissa(a, s) == m);
        assert(cents_value(a) == m);
    }
}

/// What `checked_add` states gives, for two amounts of at most two decimal
/// places whose values and sum in hundredths fit, an exact sum of at most
/// two decimal places.
pub proof fn lemma_cents_sum(x: Amount, y: Amount, r: Option<Amount>)
    requires
        x.scale <= 2,
        y.scale <= 2,
        fits_mantissa(cents_value(x)),
        fits_mantissa(cents_value(y)),
        fits_mantissa(cents_value(x) + cents_value(y)),
        x.mantissa == 0 ==> r == Some(y),
        x.mantissa != 0 && y.mantissa == 0 ==> r == Some(x),
        x.mantissa != 0 && y.mantissa != 0 && aligned_fits(x, y, 1) ==> r == Some(
            Amount {
                mantissa: (aligned_mantissa(x, common_scale(x, y)) + aligned_mantissa(
                    y,
                    common_scale(x, y),
                )) as i128,
                scale: common_scale(x, y),
            },
        ),
    ensures
        r matches Some(z) && z.scale <= 2 && cents_value(z) == cents_value(x) + cents_value(y),
{
    reveal_with_fuel(pow10, 3);
    let sc = common_scale(x, y);
    lemma_aligned_cents(x, sc);
    lemma_aligned_cents(y, sc);
    let ax = aligned_mantissa(x, sc);
    let ay = aligned_mantissa(y, sc);
    if x.mantissa == 0 {
        assert(cents_value(x) == 0);
    } else if y.mantissa == 0 {
        assert(cents_value(y) == 0);
    } else {
        let p = pow10((2 - sc) as nat);
        assert((ax + ay) * p == ax * p + ay * p) by (nonlinear_arith);
        assert(-MAX_MANTISSA <= ax + ay <= MAX_MANTISSA) by (nonlinear_arith)
            requires
                p >= 1,
                (ax + ay) * p == cents_value(x) + cents_value(y),
                -MAX_MANTISSA <= cents_value(x) + cents_value(y) <= MAX_MANTISSA,
        ;
        assert(aligned_fits(x, y, 1));
        let z = r.unwrap();
        assert(z.mantissa == ax + ay);
        assert(cents_value(z) == (ax + ay) * pow10((2 - sc) as nat));
        assert((ax + ay) * pow10((2 - sc) as nat) == ax * pow10((2 - sc) as nat) + ay * pow10(
            (2 - sc) as nat,
        )) by (nonlinear_arith);
    }
}

/// What `checked_sub` states gives, for two amounts of at most two decimal
/// places whose values and difference in hundredths fit, an exact
/// difference of at most two decimal places.
pub proof fn lemma_cents_difference(x: Amount, y: Amount, r: Option<Amount>)
    requires
        x.scale <= 2,
        y.scale <= 2,
        fits_mantissa(cents_value(x)),
        fits_mantissa(cents_value(y)),
        fits_mantissa(cents_value(x) - cents_value(y)),
        y.wf(),
        x.mantissa == 0 ==> r == Some(y.negated()),
        x.mantissa != 0 && y.mantissa == 0 ==> r == Some(x),
        x.mantissa != 0 && y.mantissa != 0 && aligned_fits(x, y, -1) ==> r == Some(
            Amount {
                mantissa: (aligned_mantissa(x, common_scale(x, y)) - aligned_mantissa(
                    y,
                    common_scale(x, y),
                )) as i128,
                scale: common_scale(x, y),
            },
        ),
    ensures
        r matches Some(z) && z.scale <= 2 && cents_value(z) == cents_value(x) - cents_value(y),
{
    reveal_with_fuel(pow10, 3);
    let sc = common_scale(x, y);
    lemma_aligned_cents(x, sc);
    lemma_aligned_cents(y, sc);
    let ax = aligned_mantissa(x, sc);
    let ay = aligned_mantissa(y, sc);
    if x.mantissa == 0 {
        assert(cents_value(x) == 0);
        assert(cents_value(y.negated()) == -cents_value(y)) by (nonlinear_arith)
            requires
                y.negated().mantissa == -y.mantissa,
                y.negated().scale == y.scale,
        {
        }
    } else if y.mantissa == 0 {
        let p = pow10((2 - y.scale) as nat);
        assert(y.mantissa * p == 0) by (nonlinear_arith)
            requires
                y.mantissa == 0,
        ;
    } else {
        let p = pow10((2 - sc) as nat);
        assert((ax - ay) * p == ax * p - ay * p) by (nonlinear_arith);
        assert(-MAX_MANTISSA <= ax - ay <= MAX_MANTISSA) by (nonlinear_arith)
            requires
                p >= 1,
                (ax - ay) * p == cents_value(x) - cents_value(y),
                -MAX_MANTISSA <= cents_value(x) - cents_value(y) <= MAX_MANTISSA,
        ;
        assert(aligned_fits(x, y, -1));
        let z = r.unwrap();
        assert(z.mantissa == ax - ay);
        assert(cents_value(z) == (ax - ay) * pow10((2 - sc) as nat));
        assert((ax - ay) * pow10((2 - sc) as nat) == ax * pow10((2 - sc) as nat) - ay * pow10(
            (2 - sc) as nat,
        )) by (nonlinear_arith);
    }
}

} // verus!
