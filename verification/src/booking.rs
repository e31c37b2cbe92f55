//! Per-booking financial figures: gross profit, the VAT breakdown of a
//! VAT-inclusive sale price, commission charged against profit, net
//! profit and the profit margin, all in exact decimal arithmetic.

use crate::decimal::{
    abs_i, cscale, dec_add, dec_div, dec_int, dec_mul, dec_sub, dec_wf, diff_fits, diff_rep,
    lemma_div_by_hundred, lemma_pow10_add, lemma_pow10_mono, lemma_pow10_values, lemma_units_bound,
    lemma_units_sign, pow10, quot_rep, representable, sum_fits, sum_rep, units, Dec,
    MANTISSA_LIMIT, MAX_SCALE,
};
use vstd::prelude::*;

verus! {

/// One travel booking as the caller hands it in: monetary amounts and
/// percentage rates as exact decimals, plus a currency code.
#[derive(Clone, Debug)]
pub struct BookingInput {
    pub cost_amount: Dec,
    pub sale_amount: Dec,
    pub vat_rate: Dec,
    pub commission_rate: Dec,
    pub currency: String,
}

/// The derived figures for one booking.
#[derive(Clone, Copy, Debug, PartialEq, Eq, Structural)]
pub struct BookingFinancials {
    pub gross_profit: Dec,
    pub vat_amount: Dec,
    pub net_before_vat: Dec,
    pub total_with_vat: Dec,
    pub commission_amount: Dec,
    pub net_profit: Dec,
    pub profit_margin_percentage: Dec,
}

/// Why a booking's figures could not be computed.
#[derive(Clone, Copy, Debug, PartialEq, Eq, Structural)]
pub enum CalcError {
    /// The VAT rate is minus one hundred percent, so the VAT divisor
    /// `1 + vat_rate/100` is zero and the net amount is undefined.
    ZeroVatDivisor,
    /// An intermediate value left the representable decimal range.
    OutOfRange,
}

/// All decimal fields of a booking are well-formed.
pub open spec fn booking_wf(b: BookingInput) -> bool {
    dec_wf(b.cost_amount) && dec_wf(b.sale_amount) && dec_wf(b.vat_rate) && dec_wf(
        b.commission_rate,
    )
}

/// All decimal fields of a result are well-formed.
pub open spec fn financials_wf(f: BookingFinancials) -> bool {
    dec_wf(f.gross_profit) && dec_wf(f.vat_amount) && dec_wf(f.net_before_vat) && dec_wf(
        f.total_with_vat,
    ) && dec_wf(f.commission_amount) && dec_wf(f.net_profit) && dec_wf(f.profit_margin_percentage)
}

/// A monetary amount far from the representable range's edges: at most
/// twenty-six fractional digits and magnitude at most `10^14`.
/// Calculation is promised to succeed on such amounts.
pub open spec fn amount_in_range(d: Dec) -> bool {
    dec_wf(d) && d.s <= 26 && abs_i(units(d)) <= pow10(42)
}

/// A sale amount in range that is additionally zero or at least one in
/// magnitude: a tiny positive sale could push the margin quotient out
/// of the representable range, so the success promise asks this of the
/// sale alone.
pub open spec fn sale_in_range(d: Dec) -> bool {
    amount_in_range(d) && (units(d) == 0 || abs_i(units(d)) >= pow10(28))
}

/// A percentage rate in the range the ledger deals in: at most
/// twenty-six fractional digits and between zero and two hundred
/// percent. Calculation is promised to succeed on such rates.
pub open spec fn rate_in_range(d: Dec) -> bool {
    dec_wf(d) && d.s <= 26 && 0 <= units(d) <= 200 * pow10(28)
}

/// A booking whose amounts and rates are in band, without the sale
/// floor: enough to bound every computed figure, though not to promise
/// the margin division succeeds.
pub open spec fn booking_amounts_in_range(b: BookingInput) -> bool {
    amount_in_range(b.cost_amount) && amount_in_range(b.sale_amount) && rate_in_range(b.vat_rate)
        && rate_in_range(b.commission_rate)
}

/// A booking on which calculation is promised to succeed.
pub open spec fn booking_in_range(b: BookingInput) -> bool {
    booking_amounts_in_range(b) && sale_in_range(b.sale_amount)
}

/// The sum `100 + rate` is carried out exactly for any rate with at most
/// twenty-six fractional digits and magnitude at most two hundred.
proof fn lemma_rate_sum_fits(hundred: Dec, rate: Dec)
    requires
        hundred.m == 100,
        hundred.s == 0,
        dec_wf(rate),
        rate.s <= 26,
        -100 * pow10(28) <= units(rate) <= 200 * pow10(28),
    ensures
        sum_fits(hundred, rate),
        units(hundred) == 100 * pow10(28),
{
    lemma_pow10_values();
    let c = cscale(hundred, rate);
    lemma_pow10_mono(2, (MAX_SCALE - c) as nat);
    assert(MANTISSA_LIMIT * 100 <= MANTISSA_LIMIT * pow10((MAX_SCALE - c) as nat))
        by (nonlinear_arith)
        requires
            100 <= pow10((MAX_SCALE - c) as nat),
    ;
}

/// A rate whose value is exactly minus one hundred has at most
/// twenty-six fractional digits: a larger scale cannot hold it.
proof fn lemma_minus_hundred_scale(rate: Dec)
    requires
        dec_wf(rate),
        units(rate) == -100 * pow10(28),
    ensures
        rate.s <= 26,
{
    lemma_pow10_values();
    lemma_units_bound(rate);
    if rate.s >= 27 {
        lemma_pow10_mono((MAX_SCALE - rate.s) as nat, 1);
        assert(MANTISSA_LIMIT * pow10((MAX_SCALE - rate.s) as nat) <= MANTISSA_LIMIT * 10)
            by (nonlinear_arith)
            requires
                pow10((MAX_SCALE - rate.s) as nat) <= 10,
        ;
    }
}

/// Division by one hundred of a value with at most twenty-six
/// fractional digits is exact; restates the division wrapper's
/// divisibility hypothesis and pins the quotient's units.
proof fn lemma_exact_hundredth(a: Dec, hundred: Dec)
    requires
        dec_wf(a),
        a.s + 2 <= MAX_SCALE,
        hundred.m == 100,
        hundred.s == 0,
    ensures
        units(hundred) == 100 * pow10(28),
        (units(a) * pow10(MAX_SCALE as nat)) % units(hundred) == 0,
        100 * ((units(a) * pow10(MAX_SCALE as nat)) / units(hundred)) == units(a),
        100 * abs_i((units(a) * pow10(MAX_SCALE as nat)) / units(hundred)) == abs_i(units(a)),
{
    lemma_pow10_values();
    lemma_div_by_hundred(a, hundred);
    let u = (units(a) * pow10(MAX_SCALE as nat)) / units(hundred);
    vstd::arithmetic::div_mod::lemma_fundamental_div_mod(
        units(a) * pow10(MAX_SCALE as nat),
        units(hundred),
    );
    assert(units(a) * pow10(MAX_SCALE as nat) == u * (100 * pow10(MAX_SCALE as nat)));
    assert(units(a) == 100 * u) by (nonlinear_arith)
        requires
            units(a) * pow10(MAX_SCALE as nat) == (u * (100 * pow10(MAX_SCALE as nat))),
            pow10(MAX_SCALE as nat) > 0,
    ;
}

/// Sums and differences of values bounded by `3 * 10^44` stay strictly
/// inside the range on which addition and subtraction are promised to
/// succeed.
pub proof fn lemma_sum_diff_in_range(x: int, y: int)
    requires
        abs_i(x) <= 3 * pow10(44),
        abs_i(y) <= 3 * pow10(44),
    ensures
        abs_i(x - y) < (MANTISSA_LIMIT - 1) * pow10(MAX_SCALE as nat),
        abs_i(x + y) < (MANTISSA_LIMIT - 1) * pow10(MAX_SCALE as nat),
{
    lemma_pow10_values();
    lemma_pow10_add(16, 28);
    assert(pow10(44) == 0x2386f26fc10000 * 0x204fce5e3e25026110000000) by (nonlinear_arith)
        requires
            pow10(44) == pow10(16) * pow10(28),
            pow10(16) == 0x2386f26fc10000,
            pow10(28) == 0x204fce5e3e25026110000000,
    ;
    assert(6 * pow10(44) < (MANTISSA_LIMIT - 1) * pow10(MAX_SCALE as nat)) by (nonlinear_arith)
        requires
            pow10(44) == 0x2386f26fc10000 * 0x204fce5e3e25026110000000,
            pow10(MAX_SCALE as nat) == 0x204fce5e3e25026110000000,
    ;
}

/// Sums and differences of values bounded by `10^54` still stay
/// strictly inside the range on which addition and subtraction are
/// promised to succeed; the batch aggregator's running totals live
/// here.
pub proof fn lemma_sum_diff_in_wide_range(x: int, y: int)
    requires
        abs_i(x) <= pow10(54),
        abs_i(y) <= pow10(54),
    ensures
        abs_i(x - y) < (MANTISSA_LIMIT - 1) * pow10(MAX_SCALE as nat),
        abs_i(x + y) < (MANTISSA_LIMIT - 1) * pow10(MAX_SCALE as nat),
{
    lemma_pow10_values();
    lemma_pow10_add(26, 28);
    assert(2 * pow10(54) < (MANTISSA_LIMIT - 1) * pow10(MAX_SCALE as nat)) by (nonlinear_arith)
        requires
            pow10(54) == pow10(26) * pow10(28),
            pow10(26) == 0x52b7d2dcc80cd2e4000000,
            pow10(28) == 0x204fce5e3e25026110000000,
            pow10(MAX_SCALE as nat) == pow10(28),
    ;
}

/// A VAT rate in its nominal band: non-negative, strictly below one
/// hundred percent, with at most twenty-six fractional digits. For such
/// rates the VAT split is exact for every well-formed sale amount.
pub open spec fn nominal_rate(d: Dec) -> bool {
    dec_wf(d) && d.s <= 26 && 0 <= units(d) < 100 * pow10(28)
}

/// The representation of `100 + vat_rate`, as the addition wrapper
/// deterministically computes it.
pub open spec fn vat_num_rep(rate: Dec) -> (int, int) {
    sum_rep(100, 0, rate.m as int, rate.s as int)
}

/// The representation of the VAT divisor `(100 + vat_rate) / 100`.
pub open spec fn vat_divisor_rep(rate: Dec) -> (int, int) {
    let n = vat_num_rep(rate);
    quot_rep(n.0, n.1, 100, 0)
}

/// The representation of the net amount `sale / vat_divisor`: the
/// deterministic chain through the named wrapper results, shared by the
/// financial calculator and the journal generator, which therefore
/// always agree on it.
pub open spec fn net_rep(sale: Dec, rate: Dec) -> (int, int) {
    let d = vat_divisor_rep(rate);
    quot_rep(sale.m as int, sale.s as int, d.0, d.1)
}

/// The representation of the VAT amount `sale - net`.
pub open spec fn vat_rep(sale: Dec, rate: Dec) -> (int, int) {
    let n = net_rep(sale, rate);
    diff_rep(sale.m as int, sale.s as int, n.0, n.1)
}

/// The VAT divisor's exact units for a nominal rate: one hundredth of
/// `100 + vat_rate`.
pub open spec fn vat_divisor_units(rate: Dec) -> int {
    (100 * pow10(28) + units(rate)) / 100
}

/// When the divisor lies in `[1, 2)` the difference between the sale
/// and the computed net amount is representable: the net carries enough
/// precision (the division wrapper's one-ulp bound) that the dropped
/// part of the sale fits back into a 96-bit mantissa at the net's own
/// scale. This is why the VAT amount recombines with the net exactly.
proof fn lemma_vat_diff_representable(sale: Dec, net: Dec, udv: int)
    requires
        dec_wf(sale),
        dec_wf(net),
        pow10(28) <= udv,
        udv <= 2 * pow10(28) - 1,
        abs_i(units(net) * udv - units(sale) * pow10(28)) < pow10((MAX_SCALE - net.s) as nat)
            * udv,
    ensures
        representable(units(sale) - units(net)),
{
    lemma_pow10_values();
    let p = pow10(28);
    let us = units(sale);
    let un = units(net);
    if net.s >= sale.s {
        let ein = pow10((MAX_SCALE - net.s) as nat);
        let g = pow10((net.s - sale.s) as nat);
        lemma_pow10_add((net.s - sale.s) as nat, (MAX_SCALE - net.s) as nat);
        assert(pow10((MAX_SCALE - sale.s) as nat) == g * ein);
        let k1 = sale.m * g;
        assert(us == k1 * ein) by (nonlinear_arith)
            requires
                us == sale.m * (g * ein),
                k1 == sale.m * g,
        ;
        let m = k1 - net.m;
        crate::decimal::lemma_pow10_pos((MAX_SCALE - net.s) as nat);
        assert(abs_i(net.m * udv - k1 * p) < udv) by (nonlinear_arith)
            requires
                abs_i((net.m * ein) * udv - (k1 * ein) * p) < ein * udv,
                ein >= 1,
        ;
        assert(abs_i(m * p) < udv + (MANTISSA_LIMIT - 1) * (udv - p)) by (nonlinear_arith)
            requires
                m == k1 - net.m,
                abs_i(net.m * udv - k1 * p) < udv,
                -MANTISSA_LIMIT < net.m < MANTISSA_LIMIT,
                p <= udv,
        ;
        assert(-MANTISSA_LIMIT < m < MANTISSA_LIMIT) by (nonlinear_arith)
            requires
                abs_i(m * p) < udv + (MANTISSA_LIMIT - 1) * (udv - p),
                p <= udv <= 2 * p - 1,
                p == 0x204fce5e3e25026110000000,
                MANTISSA_LIMIT == 0x1_0000_0000_0000_0000_0000_0000,
        ;
        let w = Dec { m: m as i128, s: net.s };
        assert(units(w) == m * ein);
        assert(m * ein == us - un) by (nonlinear_arith)
            requires
                m == k1 - net.m,
                us == k1 * ein,
                un == net.m * ein,
        ;
        reveal(representable);
        assert(dec_wf(w) && units(w) == us - un);
    } else {
        let f = pow10((MAX_SCALE - sale.s) as nat);
        let g = pow10((sale.s - net.s) as nat);
        lemma_pow10_add((sale.s - net.s) as nat, (MAX_SCALE - sale.s) as nat);
        assert(pow10((MAX_SCALE - net.s) as nat) == g * f);
        let k2 = net.m * g;
        assert(un == k2 * f) by (nonlinear_arith)
            requires
                un == net.m * (g * f),
                k2 == net.m * g,
        ;
        let m = sale.m - k2;
        crate::decimal::lemma_pow10_pos((MAX_SCALE - sale.s) as nat);
        crate::decimal::lemma_pow10_pos((sale.s - net.s) as nat);
        lemma_pow10_mono((sale.s - net.s) as nat, MAX_SCALE as nat);
        assert(abs_i(k2 * udv - sale.m * p) < g * udv) by (nonlinear_arith)
            requires
                abs_i((k2 * f) * udv - (sale.m * f) * p) < (g * f) * udv,
                f >= 1,
        ;
        assert(abs_i(m * udv) < (MANTISSA_LIMIT - 1) * (udv - p) + g * udv) by (nonlinear_arith)
            requires
                m == sale.m - k2,
                abs_i(k2 * udv - sale.m * p) < g * udv,
                -MANTISSA_LIMIT < sale.m < MANTISSA_LIMIT,
                p <= udv,
        ;
        assert(-MANTISSA_LIMIT < m < MANTISSA_LIMIT) by (nonlinear_arith)
            requires
                abs_i(m * udv) < (MANTISSA_LIMIT - 1) * (udv - p) + g * udv,
                p <= udv <= 2 * p - 1,
                1 <= g <= p,
                p == 0x204fce5e3e25026110000000,
                MANTISSA_LIMIT == 0x1_0000_0000_0000_0000_0000_0000,
        ;
        let w = Dec { m: m as i128, s: sale.s };
        assert(units(w) == m * f);
        assert(m * f == us - un) by (nonlinear_arith)
            requires
                m == sale.m - k2,
                un == k2 * f,
                us == sale.m * f,
        ;
        reveal(representable);
        assert(dec_wf(w) && units(w) == us - un);
    }
}

/// Splits a VAT-inclusive sale amount into its net and VAT parts:
/// `net = sale / ((100 + vat_rate)/100)` and `vat = sale - net`, the VAT
/// formula shared by the financial calculator and the journal
/// generator. Fails with `ZeroVatDivisor` when `100 + vat_rate` is
/// zero, before anything is divided. For every nominal rate the two
/// parts recombine to the sale exactly, whatever the sale amount.
pub fn vat_parts(sale: &Dec, vat_rate: &Dec) -> (r: Result<(Dec, Dec), CalcError>)
    requires
        dec_wf(*sale),
        dec_wf(*vat_rate),
    ensures
        r matches Ok(p) ==> dec_wf(p.0) && dec_wf(p.1) && (diff_fits(*sale, p.0) ==> units(p.0)
            + units(p.1) == units(*sale)),
        units(*vat_rate) == -100 * pow10(28) ==> (r matches Err(e) && e
            == CalcError::ZeroVatDivisor),
        amount_in_range(*sale) && rate_in_range(*vat_rate) ==> r is Ok,
        r matches Ok(p) ==> (rate_in_range(*vat_rate) ==> abs_i(units(p.0)) < abs_i(units(*sale))
            + pow10(28) && abs_i(units(p.1)) < 2 * abs_i(units(*sale)) + 2 * pow10(28)),
        r matches Ok(p) ==> (nominal_rate(*vat_rate) ==> units(p.0) + units(p.1) == units(*sale)),
        r matches Ok(p) ==> (p.0.m as int, p.0.s as int) == net_rep(*sale, *vat_rate) && (
        p.1.m as int,
        p.1.s as int,
        ) == vat_rep(*sale, *vat_rate),
        r matches Ok(p) ==> (units(*sale) == 0 ==> units(p.0) == 0 && units(p.1) == 0),
        r matches Ok(p) ==> (nominal_rate(*vat_rate) && units(*sale) >= 0 ==> units(p.0) >= 0),
        r matches Ok(p) ==> (nominal_rate(*vat_rate) ==> vat_divisor_units(*vat_rate) >= pow10(28)
            && abs_i(units(p.0) * vat_divisor_units(*vat_rate) - units(*sale) * pow10(28)) < pow10(
            (MAX_SCALE - p.0.s) as nat,
        ) * vat_divisor_units(*vat_rate)),
{
    let hundred = dec_int(100);
    let ghost urate = units(*vat_rate);
    proof {
        lemma_pow10_values();
        if urate == -100 * pow10(28) {
            lemma_minus_hundred_scale(*vat_rate);
        }
        if vat_rate.s <= 26 && -100 * pow10(28) <= urate <= 200 * pow10(28) {
            lemma_rate_sum_fits(hundred, *vat_rate);
        }
    }
    let num = match dec_add(&hundred, vat_rate) {
        Some(n) => n,
        None => {
            return Err(CalcError::OutOfRange);
        },
    };
    proof {
        lemma_units_sign(num);
    }
    if num.m == 0 {
        return Err(CalcError::ZeroVatDivisor);
    }
    proof {
        // From here on a rate worth exactly minus one hundred is ruled
        // out: the sum above would have been exactly zero.
        assert(urate != -100 * pow10(28));
        if rate_in_range(*vat_rate) {
            lemma_exact_hundredth(num, hundred);
            let u = (units(num) * pow10(MAX_SCALE as nat)) / units(hundred);
            assert(100 * pow10(28) <= units(num) <= 300 * pow10(28));
            assert(abs_i(u) <= 3 * pow10(28)) by (nonlinear_arith)
                requires
                    100 * abs_i(u) == abs_i(units(num)),
                    abs_i(units(num)) <= 300 * pow10(28),
            ;
            crate::decimal::lemma_representable_small(u);
        }
    }
    let divisor = match dec_div(&num, &hundred) {
        Some(d) => d,
        None => {
            return Err(CalcError::OutOfRange);
        },
    };
    proof {
        lemma_pow10_add(14, 28);
        if rate_in_range(*vat_rate) {
            let u = (units(num) * pow10(MAX_SCALE as nat)) / units(hundred);
            assert(units(divisor) == u);
            assert(u >= pow10(28)) by (nonlinear_arith)
                requires
                    100 * u == units(num),
                    units(num) >= 100 * pow10(28),
            ;
            assert(abs_i(units(divisor)) == units(divisor));
            if amount_in_range(*sale) {
                assert(abs_i(units(*sale)) < units(divisor) * (MANTISSA_LIMIT - 1))
                    by (nonlinear_arith)
                    requires
                        units(divisor) >= pow10(28),
                        pow10(28) == 0x204fce5e3e25026110000000,
                        abs_i(units(*sale)) <= pow10(42),
                        pow10(42) == pow10(14) * pow10(28),
                        pow10(14) == 0x5af3107a4000,
                        MANTISSA_LIMIT == 0x1_0000_0000_0000_0000_0000_0000,
                ;
            }
        }
    }
    let net = match dec_div(sale, &divisor) {
        Some(n) => n,
        None => {
            return Err(CalcError::OutOfRange);
        },
    };
    proof {
        if rate_in_range(*vat_rate) {
            assert(abs_i(units(net)) < abs_i(units(*sale)) + pow10(28));
            if amount_in_range(*sale) {
                assert(abs_i(units(*sale)) <= 3 * pow10(44) && abs_i(units(net)) <= 3 * pow10(44))
                    by {
                    lemma_pow10_add(16, 28);
                    lemma_pow10_add(14, 28);
                    assert(pow10(14) * pow10(28) + pow10(28) <= 3 * (pow10(16) * pow10(28)))
                        by (nonlinear_arith)
                        requires
                            pow10(16) == 0x2386f26fc10000,
                            pow10(14) == 0x5af3107a4000,
                            pow10(28) == 0x204fce5e3e25026110000000,
                    ;
                }
                lemma_sum_diff_in_range(units(*sale), units(net));
            }
        }
    }
    proof {
        lemma_units_sign(divisor);
        if units(*sale) == 0 {
            // A zero dividend gives a zero quotient: the net amount is
            // zero, and so is the VAT taken out below.
            assert(units(net) == 0);
        }
        if nominal_rate(*vat_rate) {
            // The divisor lies in [1, 2): its hundredfold is the exact
            // sum 100 + rate, which the nominal band keeps below 200.
            let u = (units(num) * pow10(MAX_SCALE as nat)) / units(hundred);
            assert(units(divisor) == u);
            assert(u <= 2 * pow10(28) - 1) by (nonlinear_arith)
                requires
                    100 * u == units(num),
                    units(num) < 200 * pow10(28),
                    pow10(28) == 0x204fce5e3e25026110000000,
            ;
            assert(units(divisor) == vat_divisor_units(*vat_rate)) by {
                vstd::arithmetic::div_mod::lemma_div_multiples_vanish(u, 100);
                assert(units(num) == 100 * pow10(28) + units(*vat_rate));
                assert((100 * u) / 100 == u);
            }
            lemma_vat_diff_representable(*sale, net, units(divisor));
        }
    }
    let vat = match dec_sub(sale, &net) {
        Some(v) => v,
        None => {
            return Err(CalcError::OutOfRange);
        },
    };
    proof {
        if units(*sale) == 0 {
            crate::decimal::lemma_representable_small(0);
            assert(units(vat) == 0);
        }
    }
    Ok((net, vat))
}

/// The exact hundredth of a rate, in units: what `rate / 100` yields
/// when it divides evenly.
pub open spec fn rate_hundredth(rate: Dec) -> int {
    (units(rate) * pow10(28)) / (100 * pow10(28))
}

/// The rate's hundredth divides evenly and is representable, so
/// `rate / 100` is computed exactly.
pub open spec fn rate_divides(rate: Dec) -> bool {
    (units(rate) * pow10(28)) % (100 * pow10(28)) == 0 && representable(rate_hundredth(rate))
}

/// Everything the calculator guarantees of a booking's figures: the
/// sale kept as the VAT-inclusive total; the gross profit exactly
/// `sale - cost` whenever that difference is representable; the net and
/// VAT amounts recombining to the sale exactly for every nominal VAT
/// rate; commission exactly `gross * rate/100` and the margin exactly
/// `100 * net_profit / sale` whenever those quotients divide evenly and
/// stay representable; a zero margin for a non-positive sale; and
/// magnitude bounds for bookings in range.
#[verifier::opaque]
pub open spec fn financials_ok(b: BookingInput, f: BookingFinancials) -> bool {
    &&& financials_wf(f)
    &&& f.total_with_vat == b.sale_amount
    &&& (diff_fits(b.sale_amount, b.cost_amount) ==> units(f.gross_profit) == units(b.sale_amount)
        - units(b.cost_amount))
    &&& (representable(units(b.sale_amount) - units(b.cost_amount)) ==> units(f.gross_profit)
        == units(b.sale_amount) - units(b.cost_amount))
    &&& (diff_fits(b.sale_amount, f.net_before_vat) ==> units(f.net_before_vat) + units(
        f.vat_amount,
    ) == units(b.sale_amount))
    &&& (nominal_rate(b.vat_rate) ==> units(f.net_before_vat) + units(f.vat_amount) == units(
        b.sale_amount,
    ))
    &&& (units(b.sale_amount) <= 0 ==> units(f.profit_margin_percentage) == 0)
    &&& (units(b.commission_rate) == 0 ==> units(f.commission_amount) == 0)
    &&& (representable(units(f.gross_profit) - units(f.commission_amount)) ==> units(f.net_profit)
        == units(f.gross_profit) - units(f.commission_amount))
    &&& (rate_divides(b.commission_rate) && (units(f.gross_profit) * rate_hundredth(
        b.commission_rate,
    )) % pow10(28) == 0 && representable(
        (units(f.gross_profit) * rate_hundredth(b.commission_rate)) / pow10(28),
    ) ==> pow10(28) * units(f.commission_amount) == units(f.gross_profit) * rate_hundredth(
        b.commission_rate,
    ))
    &&& (units(b.sale_amount) > 0 && (units(f.net_profit) * pow10(28)) % units(b.sale_amount) == 0
        && representable((units(f.net_profit) * pow10(28)) / units(b.sale_amount))
        && representable(100 * ((units(f.net_profit) * pow10(28)) / units(b.sale_amount)))
        ==> units(f.profit_margin_percentage) == 100 * ((units(f.net_profit) * pow10(28)) / units(
        b.sale_amount,
    )))
    &&& (booking_amounts_in_range(b) ==> abs_i(units(f.vat_amount)) <= 3 * pow10(44) && abs_i(
        units(f.commission_amount),
    ) <= 3 * pow10(44) && abs_i(units(f.net_profit)) <= 3 * pow10(44))
    &&& units(b.vat_rate) != -100 * pow10(28)
    &&& (units(b.sale_amount) == 0 ==> units(f.net_before_vat) == 0 && units(f.vat_amount) == 0)
    &&& (f.net_before_vat.m as int, f.net_before_vat.s as int) == net_rep(
        b.sale_amount,
        b.vat_rate,
    )
    &&& (f.vat_amount.m as int, f.vat_amount.s as int) == vat_rep(b.sale_amount, b.vat_rate)
    &&& (rate_in_range(b.vat_rate) ==> abs_i(units(f.net_before_vat)) < abs_i(
        units(b.sale_amount),
    ) + pow10(28))
    &&& (nominal_rate(b.vat_rate) && units(b.sale_amount) >= 0 ==> units(f.net_before_vat) >= 0)
    &&& (nominal_rate(b.vat_rate) ==> vat_divisor_units(b.vat_rate) >= pow10(28) && abs_i(
        units(f.net_before_vat) * vat_divisor_units(b.vat_rate) - units(b.sale_amount) * pow10(28),
    ) < pow10((MAX_SCALE - f.net_before_vat.s) as nat) * vat_divisor_units(b.vat_rate))
    &&& (units(b.sale_amount) > 0 && abs_i(units(f.net_profit)) * 100 < abs_i(
        units(b.sale_amount),
    ) * (MANTISSA_LIMIT - 2) ==> abs_i(
        units(f.profit_margin_percentage) * units(b.sale_amount) - 100 * units(f.net_profit)
            * pow10(28),
    ) <= 101 * pow10(28) * units(b.sale_amount))
}

/// The magnitude bounds that `financials_ok` carries for a booking in
/// range, unfolded once for callers that keep the relation opaque.
pub proof fn lemma_financials_bounds(b: BookingInput, f: BookingFinancials)
    requires
        financials_ok(b, f),
        booking_amounts_in_range(b),
    ensures
        financials_wf(f),
        abs_i(units(f.vat_amount)) <= 3 * pow10(44),
        abs_i(units(f.commission_amount)) <= 3 * pow10(44),
        abs_i(units(f.net_profit)) <= 3 * pow10(44),
{
    reveal(financials_ok);
}

/// Products of the wide powers of ten that the range proofs compare
/// against.
proof fn lemma_wide_pows()
    ensures
        pow10(42) == pow10(14) * pow10(28),
        pow10(44) == pow10(16) * pow10(28),
        pow10(56) == pow10(28) * pow10(28),
        pow10(30) == 100 * pow10(28),
{
    lemma_pow10_add(14, 28);
    lemma_pow10_add(16, 28);
    lemma_pow10_add(28, 28);
    lemma_pow10_add(2, 28);
    lemma_pow10_values();
}

/// Computes all derived figures for one booking: gross profit, the VAT
/// breakdown (VAT taken as included in the sale price), commission
/// charged against gross profit, net profit, and the profit margin as a
/// percentage of the sale (zero when the sale is not positive).
///
/// A VAT rate of exactly minus one hundred percent is rejected with
/// `ZeroVatDivisor`; an intermediate value outside the representable
/// decimal range is rejected with `OutOfRange`. On every booking in
/// range the calculation succeeds, and `financials_ok` pins each
/// figure: exactly, wherever the exact value is representable and the
/// quotients divide evenly, and to the VAT-recombination identity for
/// every nominal rate.
pub fn calculate_booking_financials(input: &BookingInput) -> (r: Result<
    BookingFinancials,
    CalcError,
>)
    requires
        booking_wf(*input),
    ensures
        r matches Ok(f) ==> financials_wf(f),
        r matches Ok(f) ==> financials_ok(*input, f),
        units(input.vat_rate) == -100 * pow10(28) ==> (r matches Err(e) && e
            == CalcError::ZeroVatDivisor),
        booking_in_range(*input) ==> r is Ok,
{
    let sale = input.sale_amount;
    let cost = input.cost_amount;
    let ghost us = units(sale);
    let ghost uc = units(cost);
    proof {
        lemma_pow10_values();
        lemma_wide_pows();
    }
    // The VAT split first: a zero VAT divisor is reported whatever else
    // the booking holds.
    let (net, vat) = match vat_parts(&sale, &input.vat_rate) {
        Ok(p) => p,
        Err(e) => {
            return Err(e);
        },
    };
    proof {
        if booking_amounts_in_range(*input) {
            lemma_pow10_mono(42, 44);
            lemma_sum_diff_in_range(us, uc);
        }
    }
    let gross = match dec_sub(&sale, &cost) {
        Some(g) => g,
        None => {
            return Err(CalcError::OutOfRange);
        },
    };
    let ghost ug = units(gross);
    proof {
        if booking_amounts_in_range(*input) {
            assert(abs_i(ug) <= 3 * pow10(42)) by (nonlinear_arith)
                requires
                    abs_i(ug - (us - uc)) < pow10(28),
                    abs_i(us) <= pow10(42),
                    abs_i(uc) <= pow10(42),
                    pow10(42) == pow10(14) * pow10(28),
                    pow10(14) == 0x5af3107a4000,
                    pow10(28) == 0x204fce5e3e25026110000000,
            ;
        }
    }
    let hundred = dec_int(100);
    let crate_rate = input.commission_rate;
    let ghost ucr = units(crate_rate);
    proof {
        lemma_units_sign(crate_rate);
        if ucr == 0 || (crate_rate.s <= 26 && 0 <= ucr <= 200 * pow10(28)) {
            lemma_exact_hundredth_any(crate_rate, hundred);
            let u = (ucr * pow10(MAX_SCALE as nat)) / units(hundred);
            assert(abs_i(u) <= 2 * pow10(28)) by (nonlinear_arith)
                requires
                    100 * abs_i(u) == abs_i(ucr),
                    abs_i(ucr) <= 200 * pow10(28),
            ;
            crate::decimal::lemma_representable_small(u);
        }
    }
    let cq = match dec_div(&crate_rate, &hundred) {
        Some(q) => q,
        None => {
            return Err(CalcError::OutOfRange);
        },
    };
    let ghost ucq = units(cq);
    proof {
        if booking_amounts_in_range(*input) {
            assert(abs_i(ucq) <= 2 * pow10(28));
            assert(abs_i(ug) * abs_i(ucq) < (MANTISSA_LIMIT - 1) * pow10(2 * MAX_SCALE as nat))
                by (nonlinear_arith)
                requires
                    abs_i(ug) <= 3 * pow10(42),
                    abs_i(ucq) <= 2 * pow10(28),
                    0 <= abs_i(ug),
                    0 <= abs_i(ucq),
                    pow10(2 * MAX_SCALE as nat) == pow10(28) * pow10(28),
                    pow10(42) == pow10(14) * pow10(28),
                    pow10(14) == 0x5af3107a4000,
                    pow10(28) == 0x204fce5e3e25026110000000,
                    MANTISSA_LIMIT == 0x1_0000_0000_0000_0000_0000_0000,
            ;
        }
    }
    let commission = match dec_mul(&gross, &cq) {
        Some(c) => c,
        None => {
            return Err(CalcError::OutOfRange);
        },
    };
    let ghost ucm = units(commission);
    proof {
        if rate_divides(crate_rate) {
            // The rate's hundredth divides evenly: the division and the
            // product were both exact.
            assert(units(cq) == rate_hundredth(crate_rate));
        }
        if booking_amounts_in_range(*input) {
            assert(abs_i(ucm) <= pow10(43)) by (nonlinear_arith)
                requires
                    abs_i(ucm) * pow10(MAX_SCALE as nat) <= abs_i(ug) * abs_i(ucq) + pow10(
                        2 * MAX_SCALE as nat,
                    ),
                    abs_i(ug) <= 3 * pow10(42),
                    abs_i(ucq) <= 2 * pow10(28),
                    0 <= abs_i(ug),
                    0 <= abs_i(ucq),
                    pow10(2 * MAX_SCALE as nat) == pow10(28) * pow10(28),
                    pow10(MAX_SCALE as nat) == pow10(28),
                    pow10(43) == 10 * (pow10(14) * pow10(28)),
                    pow10(42) == pow10(14) * pow10(28),
                    pow10(14) == 0x5af3107a4000,
                    pow10(28) == 0x204fce5e3e25026110000000,
            ;
            lemma_pow10_mono(42, 44);
            lemma_pow10_mono(43, 44);
            lemma_sum_diff_in_range(ug, ucm);
        }
    }
    let net_profit = match dec_sub(&gross, &commission) {
        Some(n) => n,
        None => {
            return Err(CalcError::OutOfRange);
        },
    };
    let ghost unp = units(net_profit);
    proof {
        lemma_units_sign(sale);
        if booking_amounts_in_range(*input) {
            assert(abs_i(unp) <= 2 * pow10(44)) by (nonlinear_arith)
                requires
                    abs_i(unp - (ug - ucm)) < pow10(28),
                    abs_i(ug) <= 3 * pow10(42),
                    abs_i(ucm) <= pow10(43),
                    pow10(44) == pow10(16) * pow10(28),
                    pow10(43) == 10 * (pow10(14) * pow10(28)),
                    pow10(42) == pow10(14) * pow10(28),
                    pow10(16) == 0x2386f26fc10000,
                    pow10(14) == 0x5af3107a4000,
                    pow10(28) == 0x204fce5e3e25026110000000,
            ;
        }
    }
    let margin = if sale.m > 0 {
        proof {
            if booking_in_range(*input) {
                assert(abs_i(us) >= pow10(28));
                assert(abs_i(unp) < abs_i(us) * (MANTISSA_LIMIT - 1)) by (nonlinear_arith)
                    requires
                        abs_i(unp) <= 2 * pow10(44),
                        abs_i(us) >= pow10(28),
                        pow10(44) == pow10(16) * pow10(28),
                        pow10(16) == 0x2386f26fc10000,
                        pow10(28) == 0x204fce5e3e25026110000000,
                        MANTISSA_LIMIT == 0x1_0000_0000_0000_0000_0000_0000,
                ;
            }
        }
        let mq = match dec_div(&net_profit, &sale) {
            Some(q) => q,
            None => {
                return Err(CalcError::OutOfRange);
            },
        };
        let ghost umq = units(mq);
        proof {
            if booking_in_range(*input) {
                assert(abs_i(umq) < abs_i(unp) + pow10(28));
                assert(abs_i(umq) * abs_i(units(hundred)) < (MANTISSA_LIMIT - 1) * pow10(
                    2 * MAX_SCALE as nat,
                )) by (nonlinear_arith)
                    requires
                        abs_i(umq) < abs_i(unp) + pow10(28),
                        abs_i(unp) <= 2 * pow10(44),
                        abs_i(units(hundred)) == 100 * pow10(28),
                        pow10(2 * MAX_SCALE as nat) == pow10(28) * pow10(28),
                        pow10(44) == pow10(16) * pow10(28),
                        pow10(16) == 0x2386f26fc10000,
                        pow10(28) == 0x204fce5e3e25026110000000,
                        MANTISSA_LIMIT == 0x1_0000_0000_0000_0000_0000_0000,
                ;
            }
            let q2 = (unp * pow10(MAX_SCALE as nat)) / us;
            if us > 0 && (unp * pow10(MAX_SCALE as nat)) % us == 0 && representable(q2)
                && representable(100 * q2) {
                assert(umq == q2);
                vstd::arithmetic::div_mod::lemma_mod_multiples_basic(
                    q2 * 100,
                    pow10(MAX_SCALE as nat),
                );
                vstd::arithmetic::div_mod::lemma_div_multiples_vanish(
                    q2 * 100,
                    pow10(MAX_SCALE as nat),
                );
                assert(q2 * (100 * pow10(MAX_SCALE as nat)) == (q2 * 100) * pow10(
                    MAX_SCALE as nat,
                )) by (nonlinear_arith);
                assert((umq * units(hundred)) % pow10(MAX_SCALE as nat) == 0 && (umq * units(
                    hundred,
                )) / pow10(MAX_SCALE as nat) == 100 * q2);
            }
        }
        let m = match dec_mul(&mq, &hundred) {
            Some(m) => m,
            None => {
                return Err(CalcError::OutOfRange);
            },
        };
        proof {
            let q2 = (unp * pow10(MAX_SCALE as nat)) / us;
            if us > 0 && (unp * pow10(MAX_SCALE as nat)) % us == 0 && representable(q2)
                && representable(100 * q2) {
                assert(units(m) == 100 * q2) by (nonlinear_arith)
                    requires
                        pow10(MAX_SCALE as nat) * units(m) == umq * units(hundred),
                        umq == q2,
                        units(hundred) == 100 * pow10(MAX_SCALE as nat),
                        pow10(MAX_SCALE as nat) > 0,
                ;
            }
            if us > 0 && abs_i(unp) * 100 < abs_i(us) * (MANTISSA_LIMIT - 2) {
                // Even when the quotient rounds, the margin stays within
                // one-ulp errors of the exact ratio, widened to whole
                // units here.
                lemma_pow10_mono((MAX_SCALE - mq.s) as nat, MAX_SCALE as nat);
                lemma_pow10_mono((MAX_SCALE - m.s) as nat, MAX_SCALE as nat);
                let p = pow10(MAX_SCALE as nat);
                assert(abs_i(umq * us - unp * p) < p * us) by (nonlinear_arith)
                    requires
                        abs_i(umq * us - unp * p) < pow10((MAX_SCALE - mq.s) as nat) * abs_i(us),
                        pow10((MAX_SCALE - mq.s) as nat) <= p,
                        us > 0,
                ;
                assert(abs_i(units(m) * p - umq * units(hundred)) < pow10(
                    (MAX_SCALE - m.s) as nat,
                ) * p);
                assert(abs_i(units(m) - 100 * umq) < p) by (nonlinear_arith)
                    requires
                        abs_i(units(m) * p - umq * (100 * p)) < pow10((MAX_SCALE - m.s) as nat)
                            * p,
                        pow10((MAX_SCALE - m.s) as nat) <= p,
                        p > 0,
                ;
                assert(abs_i(units(m) * us - 100 * unp * p) <= 101 * p * us) by (nonlinear_arith)
                    requires
                        abs_i(units(m) - 100 * umq) < p,
                        abs_i(umq * us - unp * p) < p * us,
                        us > 0,
                        p > 0,
                ;
            }
        }
        m
    } else {
        dec_int(0)
    };
    proof {
        reveal(financials_ok);
        lemma_units_sign(margin);
        if units(input.commission_rate) == 0 {
            assert(units(cq) == 0);
        }
        if booking_amounts_in_range(*input) {
            lemma_pow10_mono(28, 44);
            assert(abs_i(units(vat)) <= 3 * pow10(44));
            assert(abs_i(ucm) <= 3 * pow10(44));
            assert(abs_i(unp) <= 3 * pow10(44));
        }
    }
    Ok(
        BookingFinancials {
            gross_profit: gross,
            vat_amount: vat,
            net_before_vat: net,
            total_with_vat: sale,
            commission_amount: commission,
            net_profit,
            profit_margin_percentage: margin,
        },
    )
}

/// Division by one hundred is exact for a value with at most twenty-six
/// fractional digits, and for a zero value of any scale.
proof fn lemma_exact_hundredth_any(a: Dec, hundred: Dec)
    requires
        dec_wf(a),
        a.s + 2 <= MAX_SCALE || units(a) == 0,
        hundred.m == 100,
        hundred.s == 0,
    ensures
        units(hundred) == 100 * pow10(28),
        (units(a) * pow10(MAX_SCALE as nat)) % units(hundred) == 0,
        100 * ((units(a) * pow10(MAX_SCALE as nat)) / units(hundred)) == units(a),
        100 * abs_i((units(a) * pow10(MAX_SCALE as nat)) / units(hundred)) == abs_i(units(a)),
{
    lemma_pow10_values();
    if a.s + 2 <= MAX_SCALE {
        lemma_exact_hundredth(a, hundred);
    } else {
        assert(units(a) * pow10(MAX_SCALE as nat) == 0) by (nonlinear_arith)
            requires
                units(a) == 0,
        ;
        vstd::arithmetic::div_mod::lemma_mod_multiples_basic(0, units(hundred));
        vstd::arithmetic::div_mod::lemma_div_multiples_vanish(0, units(hundred));
    }
}

} // verus!
