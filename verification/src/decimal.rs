//! A fixed-point decimal quantity: an integer mantissa together with a
//! decimal scale (number of fractional digits), mirroring the 96-bit
//! mantissa / scale 0..=28 range of the `rust_decimal` representation
//! that carries these values at run time.
//!
//! The mathematical value of `Dec { m, s }` is `m / 10^s`. Because the
//! scale never exceeds 28, every value is an integer multiple of
//! `10^-28`; specifications therefore speak of a value's `units`: the
//! value scaled by `10^28`, an exact integer independent of the chosen
//! representation.
//!
//! Arithmetic is performed by `rust_decimal` behind trusted wrappers.
//! Each wrapper states, over `units`, what that crate's source shows:
//! the mathematically exact result whenever that result is
//! representable (at any scale), rounding within one ulp at the
//! result's scale otherwise, a guarantee of success away from the
//! 96-bit range limit, and for division a named, deterministic result.

use vstd::arithmetic::div_mod::lemma_mod_multiples_basic;
use vstd::prelude::*;

verus! {

/// Exclusive mantissa magnitude bound: mantissas are 96-bit, so a
/// well-formed mantissa `m` satisfies `-MANTISSA_LIMIT < m < MANTISSA_LIMIT`.
pub const MANTISSA_LIMIT: i128 = 0x1_0000_0000_0000_0000_0000_0000;

/// Largest scale (count of fractional digits) a decimal may carry.
pub const MAX_SCALE: u32 = 28;

/// A decimal number `m / 10^s`.
#[derive(Clone, Copy, Debug, PartialEq, Eq, Structural)]
pub struct Dec {
    /// Signed mantissa; well-formed when its magnitude is below `2^96`.
    pub m: i128,
    /// Scale: the value is `m` shifted right by `s` decimal digits.
    pub s: u32,
}

/// `10^e`.
pub open spec fn pow10(e: nat) -> int
    decreases e,
{
    if e == 0 {
        1
    } else {
        10 * pow10((e - 1) as nat)
    }
}

/// A decimal is well-formed when its scale is at most `MAX_SCALE` and its
/// mantissa fits in 96 bits.
pub open spec fn dec_wf(d: Dec) -> bool {
    d.s <= MAX_SCALE && -MANTISSA_LIMIT < d.m < MANTISSA_LIMIT
}

/// The value of `d` in units of `10^-28`: an exact integer for every
/// well-formed decimal, independent of which (mantissa, scale) pair
/// represents the value.
pub open spec fn units(d: Dec) -> int {
    d.m * pow10((MAX_SCALE - d.s) as nat)
}

/// Magnitude of an integer.
pub open spec fn abs_i(x: int) -> int {
    if x >= 0 {
        x
    } else {
        -x
    }
}

/// The larger of the two scales: the scale at which an addition or
/// subtraction of the two decimals is carried out.
pub open spec fn cscale(a: Dec, b: Dec) -> nat {
    if a.s >= b.s {
        a.s as nat
    } else {
        b.s as nat
    }
}

/// Two values (given in units) and their sum all have mantissas below the
/// 96-bit bound when written at scale `c`: the condition under which
/// `rust_decimal` addition and subtraction are exact.
pub open spec fn fits_at(ua: int, ub: int, c: nat) -> bool {
    c <= MAX_SCALE && abs_i(ua) < MANTISSA_LIMIT * pow10((MAX_SCALE - c) as nat) && abs_i(ub)
        < MANTISSA_LIMIT * pow10((MAX_SCALE - c) as nat) && abs_i(ua + ub) < MANTISSA_LIMIT * pow10(
        (MAX_SCALE - c) as nat,
    )
}

/// The sum `a + b` is carried out exactly: both operands and the sum fit
/// at the common scale.
pub open spec fn sum_fits(a: Dec, b: Dec) -> bool {
    fits_at(units(a), units(b), cscale(a, b))
}

/// The difference `a - b` is carried out exactly.
pub open spec fn diff_fits(a: Dec, b: Dec) -> bool {
    fits_at(units(a), -units(b), cscale(a, b))
}

/// The product `a * b` is exactly representable: the scales sum to at
/// most `MAX_SCALE` and the mantissa product fits in 96 bits.
pub open spec fn prod_fits(a: Dec, b: Dec) -> bool {
    a.s + b.s <= MAX_SCALE && abs_i(a.m * b.m) < MANTISSA_LIMIT
}

/// Mantissa and scale of the quotient that `rust_decimal` division
/// returns for the given operand representations. The quotient is a
/// function of its arguments alone; its full rounding behaviour is not
/// restated here.
pub uninterp spec fn quot_rep(am: int, asc: int, bm: int, bsc: int) -> (int, int);

/// Mantissa and scale of the sum that `rust_decimal` addition returns
/// for the given operand representations: a function of its arguments
/// alone, which lets contracts pass a computed value along
/// deterministically.
pub uninterp spec fn sum_rep(am: int, asc: int, bm: int, bsc: int) -> (int, int);

/// Mantissa and scale of the difference that `rust_decimal`
/// subtraction returns for the given operand representations.
pub uninterp spec fn diff_rep(am: int, asc: int, bm: int, bsc: int) -> (int, int);

/// A value (in units) is representable: some well-formed decimal holds
/// it exactly, at whatever scale. Each operation below returns its
/// mathematically exact result whenever that result is representable.
#[verifier::opaque]
pub open spec fn representable(x: int) -> bool {
    exists|d: Dec| dec_wf(d) && #[trigger] units(d) == x
}

/// `10^e > 0`.
pub proof fn lemma_pow10_pos(e: nat)
    ensures
        pow10(e) >= 1,
    decreases e,
{
    if e > 0 {
        lemma_pow10_pos((e - 1) as nat);
    }
}

/// `10^(a+b) == 10^a * 10^b`.
pub proof fn lemma_pow10_add(a: nat, b: nat)
    ensures
        pow10(a + b) == pow10(a) * pow10(b),
    decreases a,
{
    if a == 0 {
    } else {
        lemma_pow10_add((a - 1) as nat, b);
        assert(pow10(a + b) == 10 * pow10((a + b - 1) as nat));
        assert(10 * (pow10((a - 1) as nat) * pow10(b)) == (10 * pow10((a - 1) as nat)) * pow10(b))
            by (nonlinear_arith);
    }
}

/// `10^e` grows with `e`.
pub proof fn lemma_pow10_mono(a: nat, b: nat)
    requires
        a <= b,
    ensures
        pow10(a) <= pow10(b),
    decreases b,
{
    if a < b {
        lemma_pow10_mono(a, (b - 1) as nat);
        lemma_pow10_pos((b - 1) as nat);
    }
}

/// Numeric values of the small powers of ten that the contracts and
/// proofs compare against.
pub proof fn lemma_pow10_values()
    ensures
        pow10(0) == 1,
        pow10(1) == 10,
        pow10(2) == 100,
        pow10(5) == 0x186a0,
        pow10(9) == 0x3b9aca00,
        pow10(14) == 0x5af3107a4000,
        pow10(16) == 0x2386f26fc10000,
        pow10(22) == 0x21e19e0c9bab2400000,
        pow10(26) == 0x52b7d2dcc80cd2e4000000,
        pow10(28) == 0x204fce5e3e25026110000000,
        pow10(30) == 0xc9f2c9cd04674edea40000000,
{
    reveal_with_fuel(pow10, 31);
}

/// A well-formed decimal is zero-valued exactly when its mantissa is zero,
/// and the sign of its value is the sign of its mantissa.
pub proof fn lemma_units_sign(d: Dec)
    ensures
        units(d) == 0 <==> d.m == 0,
        units(d) > 0 <==> d.m > 0,
        units(d) < 0 <==> d.m < 0,
{
    lemma_pow10_pos((MAX_SCALE - d.s) as nat);
    let p = pow10((MAX_SCALE - d.s) as nat);
    assert(d.m > 0 ==> d.m * p > 0) by (nonlinear_arith)
        requires
            p >= 1,
    ;
    assert(d.m < 0 ==> d.m * p < 0) by (nonlinear_arith)
        requires
            p >= 1,
    ;
    assert(d.m == 0 ==> d.m * p == 0) by (nonlinear_arith);
}

/// The units of a well-formed decimal are bounded by the 96-bit mantissa
/// range widened by the remaining scale, and are a multiple of
/// `10^(MAX_SCALE - s)`.
pub proof fn lemma_units_bound(d: Dec)
    requires
        dec_wf(d),
    ensures
        abs_i(units(d)) < MANTISSA_LIMIT * pow10((MAX_SCALE - d.s) as nat),
        abs_i(units(d)) < MANTISSA_LIMIT * pow10(MAX_SCALE as nat),
{
    let p = pow10((MAX_SCALE - d.s) as nat);
    lemma_pow10_pos((MAX_SCALE - d.s) as nat);
    assert(abs_i(d.m * p) < MANTISSA_LIMIT * p) by (nonlinear_arith)
        requires
            p >= 1,
            -MANTISSA_LIMIT < d.m < MANTISSA_LIMIT,
    ;
    lemma_pow10_mono((MAX_SCALE - d.s) as nat, MAX_SCALE as nat);
    assert(MANTISSA_LIMIT * p <= MANTISSA_LIMIT * pow10(MAX_SCALE as nat)) by (nonlinear_arith)
        requires
            p <= pow10(MAX_SCALE as nat),
    ;
}

/// Any value within the 96-bit mantissa range is representable, at the
/// largest scale.
pub proof fn lemma_representable_small(x: int)
    requires
        -MANTISSA_LIMIT < x < MANTISSA_LIMIT,
    ensures
        representable(x),
{
    reveal(representable);
    let w = Dec { m: x as i128, s: MAX_SCALE };
    assert(units(w) == x);
}

/// A well-formed decimal witnesses that its own value is representable.
pub proof fn lemma_representable(d: Dec)
    requires
        dec_wf(d),
    ensures
        representable(units(d)),
{
    reveal(representable);
    assert(dec_wf(d) && units(d) == units(d));
}

/// Fitting at a coarser (larger) scale implies fitting at any finer
/// common scale: the bound only tightens as the scale grows.
pub proof fn lemma_fits_at_mono(ua: int, ub: int, c1: nat, c2: nat)
    requires
        c1 <= c2,
        fits_at(ua, ub, c2),
    ensures
        fits_at(ua, ub, c1),
{
    lemma_pow10_mono((MAX_SCALE - c2) as nat, (MAX_SCALE - c1) as nat);
    let p2 = pow10((MAX_SCALE - c2) as nat);
    let p1 = pow10((MAX_SCALE - c1) as nat);
    assert(MANTISSA_LIMIT * p2 <= MANTISSA_LIMIT * p1) by (nonlinear_arith)
        requires
            p2 <= p1,
    ;
}

/// The decimal with integer value `n` (scale zero).
pub fn dec_int(n: i64) -> (r: Dec)
    ensures
        dec_wf(r),
        units(r) == n * pow10(MAX_SCALE as nat),
        r.s == 0,
        r.m == n as i128,
{
    Dec { m: n as i128, s: 0 }
}

/// A decimal from a raw mantissa and scale, if the pair is well-formed;
/// the checked entry point for callers outside the library.
pub fn dec_checked(m: i128, s: u32) -> (r: Option<Dec>)
    ensures
        r matches Some(d) ==> dec_wf(d) && d.m == m && d.s == s,
        r is None <==> !dec_wf(Dec { m, s }),
{
    if s <= MAX_SCALE && -MANTISSA_LIMIT < m && m < MANTISSA_LIMIT {
        Some(Dec { m, s })
    } else {
        None
    }
}

/// Relies on `rust_decimal`'s `Decimal::checked_add` (and
/// `from_i128_with_scale` / `mantissa` / `scale` for conversion): the sum
/// is exact, at a scale no larger than the common scale, whenever both
/// operands and the sum fit in 96 bits at the common scale; it succeeds
/// whenever the sum's magnitude stays below the 96-bit range at scale
/// zero; any returned value differs from the exact sum by less than
/// one whole unit (rounding happens at a non-negative scale); and the
/// result is the deterministic representation named by `sum_rep`.
#[verifier::external_body]
pub(crate) fn dec_add(a: &Dec, b: &Dec) -> (r: Option<Dec>)
    requires
        dec_wf(*a),
        dec_wf(*b),
    ensures
        r is Some ==> dec_wf(r->0),
        sum_fits(*a, *b) ==> (r is Some && units(r->0) == units(*a) + units(*b) && (r->0).s
            <= cscale(*a, *b)),
        abs_i(units(*a) + units(*b)) < (MANTISSA_LIMIT - 1) * pow10(MAX_SCALE as nat) ==> r
            is Some,
        representable(units(*a) + units(*b)) ==> (r is Some && units(r->0) == units(*a) + units(
            *b,
        )),
        r is Some ==> abs_i(units(r->0) - (units(*a) + units(*b))) < pow10(
            (MAX_SCALE - (r->0).s) as nat,
        ),
        r is Some ==> abs_i(units(r->0) - (units(*a) + units(*b))) < pow10(MAX_SCALE as nat),
        r is Some ==> ((r->0).m as int, (r->0).s as int) == sum_rep(
            a.m as int,
            a.s as int,
            b.m as int,
            b.s as int,
        ),
{
    let x = rust_decimal::Decimal::from_i128_with_scale(a.m, a.s);
    let y = rust_decimal::Decimal::from_i128_with_scale(b.m, b.s);
    x.checked_add(y).map(|z| Dec { m: z.mantissa(), s: z.scale() })
}

/// Relies on `rust_decimal`'s `Decimal::checked_sub`, with the same
/// exactness, success and error bounds as the addition wrapper.
#[verifier::external_body]
pub(crate) fn dec_sub(a: &Dec, b: &Dec) -> (r: Option<Dec>)
    requires
        dec_wf(*a),
        dec_wf(*b),
    ensures
        r is Some ==> dec_wf(r->0),
        diff_fits(*a, *b) ==> (r is Some && units(r->0) == units(*a) - units(*b) && (r->0).s
            <= cscale(*a, *b)),
        abs_i(units(*a) - units(*b)) < (MANTISSA_LIMIT - 1) * pow10(MAX_SCALE as nat) ==> r
            is Some,
        representable(units(*a) - units(*b)) ==> (r is Some && units(r->0) == units(*a) - units(
            *b,
        )),
        r is Some ==> abs_i(units(r->0) - (units(*a) - units(*b))) < pow10(
            (MAX_SCALE - (r->0).s) as nat,
        ),
        r is Some ==> abs_i(units(r->0) - (units(*a) - units(*b))) < pow10(MAX_SCALE as nat),
        r is Some ==> ((r->0).m as int, (r->0).s as int) == diff_rep(
            a.m as int,
            a.s as int,
            b.m as int,
            b.s as int,
        ),
{
    let x = rust_decimal::Decimal::from_i128_with_scale(a.m, a.s);
    let y = rust_decimal::Decimal::from_i128_with_scale(b.m, b.s);
    x.checked_sub(y).map(|z| Dec { m: z.mantissa(), s: z.scale() })
}

/// Relies on `rust_decimal`'s `Decimal::checked_mul`: a zero factor gives
/// an exact zero; the product is exact when the scales sum to at most
/// `MAX_SCALE` and the mantissa product fits in 96 bits; and it succeeds
/// whenever the product's magnitude stays below the 96-bit range at
/// scale zero.
#[verifier::external_body]
pub(crate) fn dec_mul(a: &Dec, b: &Dec) -> (r: Option<Dec>)
    requires
        dec_wf(*a),
        dec_wf(*b),
    ensures
        r is Some ==> dec_wf(r->0),
        units(*a) == 0 || units(*b) == 0 ==> (r is Some && units(r->0) == 0),
        prod_fits(*a, *b) ==> (r is Some && pow10(MAX_SCALE as nat) * units(r->0) == units(*a)
            * units(*b)),
        abs_i(units(*a)) * abs_i(units(*b)) < (MANTISSA_LIMIT - 1) * pow10(2 * MAX_SCALE as nat)
            ==> r is Some,
        (units(*a) * units(*b)) % pow10(MAX_SCALE as nat) == 0 && representable(
            (units(*a) * units(*b)) / pow10(MAX_SCALE as nat),
        ) ==> (r is Some && units(r->0) * pow10(MAX_SCALE as nat) == units(*a) * units(*b)),
        r is Some ==> abs_i(units(r->0) * pow10(MAX_SCALE as nat) - units(*a) * units(*b)) < pow10(
            (MAX_SCALE - (r->0).s) as nat,
        ) * pow10(MAX_SCALE as nat),
        r is Some ==> abs_i(units(r->0)) * pow10(MAX_SCALE as nat) <= abs_i(units(*a)) * abs_i(
            units(*b),
        ) + pow10(2 * MAX_SCALE as nat),
{
    let x = rust_decimal::Decimal::from_i128_with_scale(a.m, a.s);
    let y = rust_decimal::Decimal::from_i128_with_scale(b.m, b.s);
    x.checked_mul(y).map(|z| Dec { m: z.mantissa(), s: z.scale() })
}

/// Relies on `rust_decimal`'s `Decimal::checked_div`: it fails on a zero
/// divisor; the result is the deterministic quotient named by
/// `quot_rep`; a quotient whose exact units are an integer in the 96-bit
/// range comes out exactly; dividing by a value of magnitude at least
/// one grows the magnitude by less than one whole unit beyond the
/// dividend's; it succeeds whenever the quotient's magnitude stays
/// below the 96-bit range at scale zero; a non-negative value divided
/// by a positive one stays non-negative (the sign is the exclusive-or
/// of the operand signs, over a magnitude division); and a zero
/// dividend gives a zero quotient.
#[verifier::external_body]
pub(crate) fn dec_div(a: &Dec, b: &Dec) -> (r: Option<Dec>)
    requires
        dec_wf(*a),
        dec_wf(*b),
    ensures
        units(*b) == 0 ==> r is None,
        r is Some ==> dec_wf(r->0) && ((r->0).m as int, (r->0).s as int) == quot_rep(
            a.m as int,
            a.s as int,
            b.m as int,
            b.s as int,
        ),
        units(*b) != 0 && (units(*a) * pow10(MAX_SCALE as nat)) % units(*b) == 0 && representable(
            (units(*a) * pow10(MAX_SCALE as nat)) / units(*b),
        ) ==> (r is Some && units(r->0) == (units(*a) * pow10(MAX_SCALE as nat)) / units(*b)),
        r is Some ==> abs_i(units(r->0) * units(*b) - units(*a) * pow10(MAX_SCALE as nat)) < pow10(
            (MAX_SCALE - (r->0).s) as nat,
        ) * abs_i(units(*b)),
        r is Some && abs_i(units(*b)) >= pow10(MAX_SCALE as nat) ==> abs_i(units(r->0))
            < abs_i(units(*a)) + pow10(MAX_SCALE as nat),
        units(*b) != 0 && abs_i(units(*a)) < abs_i(units(*b)) * (MANTISSA_LIMIT - 1) ==> r is Some,
        r is Some && units(*a) >= 0 && units(*b) > 0 ==> units(r->0) >= 0,
        r is Some && units(*a) == 0 ==> units(r->0) == 0,
{
    let x = rust_decimal::Decimal::from_i128_with_scale(a.m, a.s);
    let y = rust_decimal::Decimal::from_i128_with_scale(b.m, b.s);
    x.checked_div(y).map(|z| Dec { m: z.mantissa(), s: z.scale() })
}

/// Relies on `rust_decimal`'s `PartialOrd` for `Decimal`, which compares
/// by numeric value, independent of representation.
#[verifier::external_body]
fn dec_lt_raw(a: &Dec, b: &Dec) -> (r: bool)
    requires
        dec_wf(*a),
        dec_wf(*b),
    ensures
        r == (units(*a) < units(*b)),
{
    let x = rust_decimal::Decimal::from_i128_with_scale(a.m, a.s);
    let y = rust_decimal::Decimal::from_i128_with_scale(b.m, b.s);
    x < y
}

/// Relies on `rust_decimal`'s `PartialEq` for `Decimal`, which compares
/// by numeric value, independent of representation.
#[verifier::external_body]
fn dec_eq_raw(a: &Dec, b: &Dec) -> (r: bool)
    requires
        dec_wf(*a),
        dec_wf(*b),
    ensures
        r == (units(*a) == units(*b)),
{
    let x = rust_decimal::Decimal::from_i128_with_scale(a.m, a.s);
    let y = rust_decimal::Decimal::from_i128_with_scale(b.m, b.s);
    x == y
}

/// Value comparison: `a < b` as numbers, whatever the representations.
pub fn dec_lt(a: &Dec, b: &Dec) -> (r: bool)
    requires
        dec_wf(*a),
        dec_wf(*b),
    ensures
        r == (units(*a) < units(*b)),
{
    dec_lt_raw(a, b)
}

/// Value equality: `a == b` as numbers, whatever the representations.
pub fn dec_eq(a: &Dec, b: &Dec) -> (r: bool)
    requires
        dec_wf(*a),
        dec_wf(*b),
    ensures
        r == (units(*a) == units(*b)),
{
    dec_eq_raw(a, b)
}

/// The magnitude of a well-formed decimal.
pub fn dec_abs(a: &Dec) -> (r: Dec)
    requires
        dec_wf(*a),
    ensures
        dec_wf(r),
        units(r) == abs_i(units(*a)),
{
    proof {
        lemma_units_sign(*a);
    }
    if a.m >= 0 {
        *a
    } else {
        let r = Dec { m: -a.m, s: a.s };
        proof {
            lemma_units_sign(r);
            assert(units(r) == (-a.m) * pow10((MAX_SCALE - a.s) as nat));
            assert((-a.m) * pow10((MAX_SCALE - a.s) as nat) == -(a.m * pow10(
                (MAX_SCALE - a.s) as nat,
            ))) by (nonlinear_arith);
        }
        r
    }
}

/// Division of a value that is a whole multiple of `10^k` (`k >= 2`) by
/// one hundred is exact: the divisibility hypothesis of the division
/// wrapper holds, and the quotient is the units divided by one hundred.
pub proof fn lemma_div_by_hundred(a: Dec, b: Dec)
    requires
        dec_wf(a),
        dec_wf(b),
        a.s + 2 <= MAX_SCALE,
        units(b) == 100 * pow10(MAX_SCALE as nat),
    ensures
        (units(a) * pow10(MAX_SCALE as nat)) % units(b) == 0,
        (units(a) * pow10(MAX_SCALE as nat)) / units(b) == a.m * pow10(
            (MAX_SCALE - a.s - 2) as nat,
        ),
{
    let k = (MAX_SCALE - a.s) as nat;
    let q = a.m * pow10((MAX_SCALE - a.s - 2) as nat);
    let d = 100 * pow10(MAX_SCALE as nat);
    lemma_pow10_pos(MAX_SCALE as nat);
    lemma_pow10_pos((MAX_SCALE - a.s - 2) as nat);
    // units(a) * 10^28 == q * d
    assert(pow10(k) == 100 * pow10((k - 2) as nat)) by {
        lemma_pow10_add(2, (k - 2) as nat);
        assert(pow10(2) == 100) by {
            reveal_with_fuel(pow10, 3);
        }
    }
    assert(units(a) * pow10(MAX_SCALE as nat) == q * d) by (nonlinear_arith)
        requires
            units(a) == a.m * pow10(k),
            pow10(k) == 100 * pow10((k - 2) as nat),
            q == a.m * pow10((k - 2) as nat),
            d == 100 * pow10(MAX_SCALE as nat),
    ;
    assert(d > 0);
    lemma_mod_multiples_basic(q, d);
    vstd::arithmetic::div_mod::lemma_div_multiples_vanish(q, d);
}

} // verus!
