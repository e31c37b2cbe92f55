//! Batch aggregation: the financial calculator run over a sequence of
//! bookings, each independently, with a summary of totals and the
//! revenue-weighted average margin. A booking that fails to calculate
//! or whose sums leave the representable range is skipped; it is
//! excluded from the results and from every total, and never aborts the
//! batch.

use crate::booking::{
    booking_amounts_in_range, booking_in_range, booking_wf, calculate_booking_financials,
    financials_ok, financials_wf, lemma_sum_diff_in_wide_range, BookingFinancials, BookingInput,
};
use crate::decimal::{
    abs_i, dec_add, dec_div, dec_int, dec_mul, dec_wf, lemma_pow10_add, lemma_pow10_mono,
    lemma_pow10_pos, lemma_pow10_values, lemma_units_sign, pow10, representable, units, Dec,
    MANTISSA_LIMIT,
    MAX_SCALE,
};
use vstd::prelude::*;

verus! {

/// A sequence of bookings to aggregate.
#[derive(Clone, Debug)]
pub struct BatchBookingInput {
    pub bookings: Vec<BookingInput>,
}

/// Totals over the bookings that produced a usable result, and the
/// revenue-weighted average margin: `100 * total_profit /
/// total_revenue` when the total revenue is positive, else zero.
#[derive(Clone, Copy, Debug, PartialEq, Eq, Structural)]
pub struct BatchSummary {
    pub total_cost: Dec,
    pub total_revenue: Dec,
    pub total_profit: Dec,
    pub total_vat: Dec,
    pub total_commission: Dec,
    pub average_profit_margin: Dec,
    pub booking_count: usize,
}

/// Per-booking results in input order (failed bookings omitted) plus
/// the aggregate summary.
#[derive(Debug)]
pub struct BatchBookingResult {
    pub results: Vec<BookingFinancials>,
    pub summary: BatchSummary,
}

/// Every booking of the batch is well-formed.
pub open spec fn batch_wf(b: BatchBookingInput) -> bool {
    forall|i: int| 0 <= i < b.bookings@.len() ==> booking_wf(#[trigger] b.bookings@[i])
}

/// Every booking of the batch is one on which calculation is promised
/// to succeed.
pub open spec fn batch_in_range(b: BatchBookingInput) -> bool {
    forall|i: int| 0 <= i < b.bookings@.len() ==> booking_in_range(#[trigger] b.bookings@[i])
}

/// The sum of the first `n` cost amounts of a sequence of bookings, in
/// units.
#[verifier::opaque]
pub open spec fn sum_cost(s: Seq<BookingInput>, n: int) -> int
    decreases n,
{
    if n <= 0 {
        0
    } else {
        sum_cost(s, n - 1) + units(s[n - 1].cost_amount)
    }
}

/// The sum of the first `n` sale amounts, in units.
#[verifier::opaque]
pub open spec fn sum_sale(s: Seq<BookingInput>, n: int) -> int
    decreases n,
{
    if n <= 0 {
        0
    } else {
        sum_sale(s, n - 1) + units(s[n - 1].sale_amount)
    }
}

/// The sum of the first `n` net profits of a sequence of results, in
/// units.
#[verifier::opaque]
pub open spec fn sum_profit(rs: Seq<BookingFinancials>, n: int) -> int
    decreases n,
{
    if n <= 0 {
        0
    } else {
        sum_profit(rs, n - 1) + units(rs[n - 1].net_profit)
    }
}

/// The sum of the first `n` VAT amounts of a sequence of results.
#[verifier::opaque]
pub open spec fn sum_vat(rs: Seq<BookingFinancials>, n: int) -> int
    decreases n,
{
    if n <= 0 {
        0
    } else {
        sum_vat(rs, n - 1) + units(rs[n - 1].vat_amount)
    }
}

/// The sum of the first `n` commission amounts of a sequence of
/// results.
#[verifier::opaque]
pub open spec fn sum_commission(rs: Seq<BookingFinancials>, n: int) -> int
    decreases n,
{
    if n <= 0 {
        0
    } else {
        sum_commission(rs, n - 1) + units(rs[n - 1].commission_amount)
    }
}

/// The costs of the bookings selected by the first `m` entries of an
/// index list, summed in units.
#[verifier::opaque]
pub open spec fn sum_cost_at(s: Seq<BookingInput>, idx: Seq<int>, m: int) -> int
    decreases m,
{
    if m <= 0 {
        0
    } else {
        sum_cost_at(s, idx, m - 1) + units(s[idx[m - 1]].cost_amount)
    }
}

/// The sales of the bookings selected by the first `m` entries of an
/// index list, summed in units.
#[verifier::opaque]
pub open spec fn sum_sale_at(s: Seq<BookingInput>, idx: Seq<int>, m: int) -> int
    decreases m,
{
    if m <= 0 {
        0
    } else {
        sum_sale_at(s, idx, m - 1) + units(s[idx[m - 1]].sale_amount)
    }
}

/// Every booking of the batch has amounts and rates in band (without
/// the sale floor): enough to bound every accepted contribution, so no
/// running total can overflow.
pub open spec fn all_amounts_in_range(s: Seq<BookingInput>) -> bool {
    forall|j: int| 0 <= j < s.len() ==> booking_amounts_in_range(#[trigger] s[j])
}

/// The first `n` running cost sums are all representable, so each
/// addition into the cost total was exact.
#[verifier::opaque]
pub open spec fn sums_rep_cost(s: Seq<BookingInput>, n: int) -> bool
    decreases n,
{
    n <= 0 || (representable(sum_cost(s, n)) && sums_rep_cost(s, n - 1))
}

/// The first `n` running sale sums are all representable.
#[verifier::opaque]
pub open spec fn sums_rep_sale(s: Seq<BookingInput>, n: int) -> bool
    decreases n,
{
    n <= 0 || (representable(sum_sale(s, n)) && sums_rep_sale(s, n - 1))
}

/// The first `n` running profit sums are all representable.
#[verifier::opaque]
pub open spec fn sums_rep_profit(rs: Seq<BookingFinancials>, n: int) -> bool
    decreases n,
{
    n <= 0 || (representable(sum_profit(rs, n)) && sums_rep_profit(rs, n - 1))
}

/// The first `n` running VAT sums are all representable.
#[verifier::opaque]
pub open spec fn sums_rep_vat(rs: Seq<BookingFinancials>, n: int) -> bool
    decreases n,
{
    n <= 0 || (representable(sum_vat(rs, n)) && sums_rep_vat(rs, n - 1))
}

/// The first `n` running commission sums are all representable.
#[verifier::opaque]
pub open spec fn sums_rep_commission(rs: Seq<BookingFinancials>, n: int) -> bool
    decreases n,
{
    n <= 0 || (representable(sum_commission(rs, n)) && sums_rep_commission(rs, n - 1))
}

/// The batch's results and its cost and revenue totals are accounted
/// for by a strictly increasing selection `idx` of input positions: the
/// k-th result carries the guaranteed figures of the `idx[k]`-th
/// booking, and each total sits within one unit per accepted booking of
/// the exact sum over the selected inputs.
pub open spec fn selection_ok(
    b: Seq<BookingInput>,
    rs: Seq<BookingFinancials>,
    tc: Dec,
    trv: Dec,
    idx: Seq<int>,
) -> bool {
    &&& idx.len() == rs.len()
    &&& (forall|k: int| 0 <= k < idx.len() ==> 0 <= #[trigger] idx[k] < b.len())
    &&& (forall|k: int| 0 < k < idx.len() ==> idx[k - 1] < #[trigger] idx[k])
    &&& (forall|k: int|
        0 <= k < idx.len() ==> financials_ok(b[idx[k]], #[trigger] rs[k]))
    &&& abs_i(units(tc) - sum_cost_at(b, idx, idx.len() as int)) <= idx.len() * pow10(28)
    &&& abs_i(units(trv) - sum_sale_at(b, idx, idx.len() as int)) <= idx.len() * pow10(28)
    &&& (all_amounts_in_range(b) && b.len() <= 1000000000 ==> forall|j: int|
        0 <= j < b.len() && booking_in_range(#[trigger] b[j]) ==> exists|k: int|
            0 <= k < idx.len() && idx[k] == j)
}

/// The selection-based prefix sums depend only on the first `m` index
/// entries.
proof fn lemma_sums_at_prefix(s: Seq<BookingInput>, idx1: Seq<int>, idx2: Seq<int>, m: int)
    requires
        0 <= m <= idx1.len(),
        m <= idx2.len(),
        forall|k: int| 0 <= k < m ==> idx1[k] == idx2[k],
    ensures
        sum_cost_at(s, idx1, m) == sum_cost_at(s, idx2, m),
        sum_sale_at(s, idx1, m) == sum_sale_at(s, idx2, m),
    decreases m,
{
    reveal(sum_cost_at);
    reveal(sum_sale_at);
    if m > 0 {
        lemma_sums_at_prefix(s, idx1, idx2, m - 1);
    }
}

/// The three result-based prefix sums depend only on the first `n`
/// entries: extending the sequence beyond them changes nothing.
proof fn lemma_sums_prefix(a: Seq<BookingFinancials>, b: Seq<BookingFinancials>, n: int)
    requires
        0 <= n <= a.len(),
        n <= b.len(),
        forall|k: int| 0 <= k < n ==> a[k] == b[k],
    ensures
        sum_profit(a, n) == sum_profit(b, n),
        sum_vat(a, n) == sum_vat(b, n),
        sum_commission(a, n) == sum_commission(b, n),
        sums_rep_profit(a, n) == sums_rep_profit(b, n),
        sums_rep_vat(a, n) == sums_rep_vat(b, n),
        sums_rep_commission(a, n) == sums_rep_commission(b, n),
    decreases n,
{
    reveal(sum_profit);
    reveal(sum_vat);
    reveal(sum_commission);
    reveal(sums_rep_profit);
    reveal(sums_rep_vat);
    reveal(sums_rep_commission);
    if n > 0 {
        lemma_sums_prefix(a, b, n - 1);
    }
}

/// All decimal fields of a summary are well-formed.
pub open spec fn summary_wf(s: BatchSummary) -> bool {
    dec_wf(s.total_cost) && dec_wf(s.total_revenue) && dec_wf(s.total_profit) && dec_wf(
        s.total_vat,
    ) && dec_wf(s.total_commission) && dec_wf(s.average_profit_margin)
}

/// Runs the financial calculator over every booking, keeps the results
/// of those that succeed (in input order), sums costs, revenue, profit,
/// VAT and commission over exactly those bookings, and derives the
/// revenue-weighted average margin from the totals. A failing booking
/// is skipped; the batch itself always succeeds.
///
/// An order-preserving selection of input positions accounts for every
/// result: each carries the guaranteed figures of its booking (never
/// one whose VAT rate is minus one hundred), and the totals track the
/// sums over the accepted bookings within one unit each, exactly so
/// whenever every running sum stays representable. When every booking
/// has amounts and rates in band and the batch holds at most a billion
/// bookings (a slack of the loop invariant's magnitude bound, far
/// beyond any real workload, not a limit of the decimal range), every
/// booking in range is accepted even when others fail; when all are in
/// range, none is skipped at all and the k-th result answers the k-th
/// booking.
#[verifier::rlimit(100)]
pub fn calculate_batch_bookings(input: &BatchBookingInput) -> (r: BatchBookingResult)
    requires
        batch_wf(*input),
    ensures
        r.summary.booking_count == r.results@.len(),
        r.results@.len() <= input.bookings@.len(),
        forall|i: int| 0 <= i < r.results@.len() ==> financials_wf(#[trigger] r.results@[i]),
        summary_wf(r.summary),
        input.bookings@.len() == 0 ==> r.results@.len() == 0 && units(r.summary.total_cost) == 0
            && units(r.summary.total_revenue) == 0 && units(r.summary.total_profit) == 0 && units(
            r.summary.total_vat,
        ) == 0 && units(r.summary.total_commission) == 0,
        units(r.summary.total_revenue) <= 0 ==> units(r.summary.average_profit_margin) == 0,
        exists|idx: Seq<int>|
            #[trigger] selection_ok(
                input.bookings@,
                r.results@,
                r.summary.total_cost,
                r.summary.total_revenue,
                idx,
            ),
        abs_i(units(r.summary.total_profit) - sum_profit(r.results@, r.results@.len() as int))
            <= r.results@.len() * pow10(28),
        abs_i(units(r.summary.total_vat) - sum_vat(r.results@, r.results@.len() as int))
            <= r.results@.len() * pow10(28),
        abs_i(
            units(r.summary.total_commission) - sum_commission(
                r.results@,
                r.results@.len() as int,
            ),
        ) <= r.results@.len() * pow10(28),
        sums_rep_profit(r.results@, r.results@.len() as int) ==> units(r.summary.total_profit)
            == sum_profit(r.results@, r.results@.len() as int),
        sums_rep_vat(r.results@, r.results@.len() as int) ==> units(r.summary.total_vat)
            == sum_vat(r.results@, r.results@.len() as int),
        sums_rep_commission(r.results@, r.results@.len() as int) ==> units(
            r.summary.total_commission,
        ) == sum_commission(r.results@, r.results@.len() as int),
        batch_in_range(*input) && input.bookings@.len() <= 1000000000 && sums_rep_cost(
            input.bookings@,
            input.bookings@.len() as int,
        ) ==> units(r.summary.total_cost) == sum_cost(
            input.bookings@,
            input.bookings@.len() as int,
        ),
        batch_in_range(*input) && input.bookings@.len() <= 1000000000 && sums_rep_sale(
            input.bookings@,
            input.bookings@.len() as int,
        ) ==> units(r.summary.total_revenue) == sum_sale(
            input.bookings@,
            input.bookings@.len() as int,
        ),
        batch_in_range(*input) && input.bookings@.len() <= 1000000000 ==> r.results@.len()
            == input.bookings@.len() && (forall|k: int|
            0 <= k < input.bookings@.len() ==> financials_ok(
                input.bookings@[k],
                #[trigger] r.results@[k],
            )) && abs_i(
            units(r.summary.total_cost) - sum_cost(input.bookings@, input.bookings@.len() as int),
        ) <= input.bookings@.len() * pow10(28) && abs_i(
            units(r.summary.total_revenue) - sum_sale(
                input.bookings@,
                input.bookings@.len() as int,
            ),
        ) <= input.bookings@.len() * pow10(28) && abs_i(
            units(r.summary.total_profit) - sum_profit(r.results@, input.bookings@.len() as int),
        ) <= input.bookings@.len() * pow10(28) && abs_i(
            units(r.summary.total_vat) - sum_vat(r.results@, input.bookings@.len() as int),
        ) <= input.bookings@.len() * pow10(28) && abs_i(
            units(r.summary.total_commission) - sum_commission(
                r.results@,
                input.bookings@.len() as int,
            ),
        ) <= input.bookings@.len() * pow10(28),
        units(r.summary.total_revenue) > 0 && abs_i(units(r.summary.total_profit)) * 100 < abs_i(
            units(r.summary.total_revenue),
        ) * (MANTISSA_LIMIT - 102) ==> abs_i(
            units(r.summary.average_profit_margin) * units(r.summary.total_revenue) - 100 * units(
                r.summary.total_profit,
            ) * pow10(MAX_SCALE as nat),
        ) <= 101 * pow10(MAX_SCALE as nat) * units(r.summary.total_revenue),
        units(r.summary.total_revenue) > 0 && (units(r.summary.total_profit) * pow10(
            MAX_SCALE as nat,
        )) % units(r.summary.total_revenue) == 0 && representable(
            (units(r.summary.total_profit) * pow10(MAX_SCALE as nat)) / units(
                r.summary.total_revenue,
            ),
        ) && representable(
            100 * ((units(r.summary.total_profit) * pow10(MAX_SCALE as nat)) / units(
                r.summary.total_revenue,
            )),
        ) ==> units(r.summary.average_profit_margin) == 100 * ((units(r.summary.total_profit)
            * pow10(MAX_SCALE as nat)) / units(r.summary.total_revenue)),
{
    let mut results: Vec<BookingFinancials> = Vec::new();
    let ghost mut accepted: Seq<int> = Seq::empty();
    let mut total_cost = dec_int(0);
    let mut total_revenue = dec_int(0);
    let mut total_profit = dec_int(0);
    let mut total_vat = dec_int(0);
    let mut total_commission = dec_int(0);
    let n = input.bookings.len();
    proof {
        reveal(sum_cost);
        reveal(sum_sale);
        reveal(sum_profit);
        reveal(sum_vat);
        reveal(sum_commission);
        reveal(sum_cost_at);
        reveal(sum_sale_at);
        reveal(sums_rep_cost);
        reveal(sums_rep_sale);
        reveal(sums_rep_profit);
        reveal(sums_rep_vat);
        reveal(sums_rep_commission);
        assert(sum_cost(input.bookings@, 0) == 0 && sum_sale(input.bookings@, 0) == 0
            && sum_profit(results@, 0) == 0 && sum_vat(results@, 0) == 0 && sum_commission(
            results@,
            0,
        ) == 0 && sum_cost_at(input.bookings@, accepted, 0) == 0 && sum_sale_at(
            input.bookings@,
            accepted,
            0,
        ) == 0);
    }
    let mut i: usize = 0;
    while i < n
        invariant
            batch_wf(*input),
            n == input.bookings@.len(),
            i <= n,
            results@.len() <= i,
            forall|k: int| 0 <= k < results@.len() ==> financials_wf(#[trigger] results@[k]),
            dec_wf(total_cost),
            dec_wf(total_revenue),
            dec_wf(total_profit),
            dec_wf(total_vat),
            dec_wf(total_commission),
            n == 0 ==> results@.len() == 0 && units(total_cost) == 0 && units(total_revenue) == 0
                && units(total_profit) == 0 && units(total_vat) == 0 && units(total_commission)
                == 0,
            accepted.len() == results@.len(),
            forall|k: int| 0 <= k < accepted.len() ==> 0 <= #[trigger] accepted[k] < i,
            forall|k: int| 0 < k < accepted.len() ==> accepted[k - 1] < #[trigger] accepted[k],
            forall|k: int|
                0 <= k < accepted.len() ==> financials_ok(
                    input.bookings@[accepted[k]],
                    #[trigger] results@[k],
                ),
            abs_i(units(total_cost) - sum_cost_at(input.bookings@, accepted, accepted.len() as int))
                <= accepted.len() * pow10(28),
            abs_i(units(total_revenue) - sum_sale_at(input.bookings@, accepted, accepted.len() as int))
                <= accepted.len() * pow10(28),
            abs_i(units(total_profit) - sum_profit(results@, results@.len() as int)) <= results@.len()
                * pow10(28),
            abs_i(units(total_vat) - sum_vat(results@, results@.len() as int)) <= results@.len()
                * pow10(28),
            abs_i(units(total_commission) - sum_commission(results@, results@.len() as int))
                <= results@.len() * pow10(28),
            sums_rep_profit(results@, results@.len() as int) ==> units(total_profit) == sum_profit(
                results@,
                results@.len() as int,
            ),
            sums_rep_vat(results@, results@.len() as int) ==> units(total_vat) == sum_vat(
                results@,
                results@.len() as int,
            ),
            sums_rep_commission(results@, results@.len() as int) ==> units(total_commission)
                == sum_commission(results@, results@.len() as int),
            all_amounts_in_range(input.bookings@) && n <= 1000000000 ==> abs_i(units(total_cost))
                <= i * pow10(45) && abs_i(units(total_revenue)) <= i * pow10(45) && abs_i(
                units(total_profit),
            ) <= i * pow10(45) && abs_i(units(total_vat)) <= i * pow10(45) && abs_i(
                units(total_commission),
            ) <= i * pow10(45) && (forall|j: int|
                0 <= j < i && booking_in_range(#[trigger] input.bookings@[j]) ==> exists|k: int|
                    0 <= k < accepted.len() && accepted[k] == j),
            batch_in_range(*input) && n <= 1000000000 ==> results@.len() == i && (forall|k: int|
                0 <= k < i ==> financials_ok(input.bookings@[k], #[trigger] results@[k])) && abs_i(
                units(total_cost) - sum_cost(input.bookings@, i as int),
            ) <= i * pow10(28) && abs_i(units(total_revenue) - sum_sale(input.bookings@, i as int))
                <= i * pow10(28) && (sums_rep_cost(input.bookings@, i as int) ==> units(total_cost) == sum_cost(
                input.bookings@,
                i as int,
            )) && (sums_rep_sale(input.bookings@, i as int) ==> units(total_revenue) == sum_sale(
                input.bookings@,
                i as int,
            )),
        decreases n - i,
    {
        let booking = &input.bookings[i];
        let ghost promised = batch_in_range(*input) && n <= 1000000000;
        let ghost promised2 = all_amounts_in_range(input.bookings@) && n <= 1000000000;
        proof {
            if promised {
                assert(booking_in_range(input.bookings@[i as int]));
                assert(promised2);
            }
        }
        match calculate_booking_financials(booking) {
            Ok(f) => {
                proof {
                    if promised2 {
                        crate::booking::lemma_financials_bounds(input.bookings@[i as int], f);
                        lemma_pow10_values();
                        lemma_pow10_add(1, 44);
                        lemma_pow10_add(9, 45);
                        lemma_pow10_add(26, 28);
                        lemma_pow10_mono(28, 44);
                        lemma_pow10_mono(42, 44);
                        lemma_pow10_mono(42, 54);
                        lemma_pow10_mono(44, 54);
                        assert(i * pow10(45) <= pow10(54)) by (nonlinear_arith)
                            requires
                                0 <= i <= 1000000000,
                                pow10(54) == pow10(9) * pow10(45),
                                pow10(9) == 0x3b9aca00,
                                pow10(45) >= 0,
                        ;
                        assert(3 * pow10(44) <= pow10(54));
                        lemma_sum_diff_in_wide_range(units(total_cost), units(booking.cost_amount));
                        lemma_sum_diff_in_wide_range(
                            units(total_revenue),
                            units(booking.sale_amount),
                        );
                        lemma_sum_diff_in_wide_range(units(total_profit), units(f.net_profit));
                        lemma_sum_diff_in_wide_range(units(total_vat), units(f.vat_amount));
                        lemma_sum_diff_in_wide_range(
                            units(total_commission),
                            units(f.commission_amount),
                        );
                    }
                }
                let c_cost = dec_add(&total_cost, &booking.cost_amount);
                let c_revenue = dec_add(&total_revenue, &booking.sale_amount);
                let c_profit = dec_add(&total_profit, &f.net_profit);
                let c_vat = dec_add(&total_vat, &f.vat_amount);
                let c_commission = dec_add(&total_commission, &f.commission_amount);
                match (c_cost, c_revenue, c_profit, c_vat, c_commission) {
                    (Some(tc), Some(tr), Some(tp), Some(tv), Some(tm)) => {
                        proof {
                            if promised2 {
                                lemma_batch_total_step(
                                    units(total_cost),
                                    units(booking.cost_amount),
                                    units(tc),
                                    i as nat,
                                );
                                lemma_batch_total_step(
                                    units(total_revenue),
                                    units(booking.sale_amount),
                                    units(tr),
                                    i as nat,
                                );
                                lemma_batch_total_step(
                                    units(total_profit),
                                    units(f.net_profit),
                                    units(tp),
                                    i as nat,
                                );
                                lemma_batch_total_step(
                                    units(total_vat),
                                    units(f.vat_amount),
                                    units(tv),
                                    i as nat,
                                );
                                lemma_batch_total_step(
                                    units(total_commission),
                                    units(f.commission_amount),
                                    units(tm),
                                    i as nat,
                                );
                            }
                        }
                        proof {
                            reveal(sum_cost);
                            reveal(sum_sale);
                            assert(sum_cost(input.bookings@, i + 1) == sum_cost(
                                input.bookings@,
                                i as int,
                            ) + units(input.bookings@[i as int].cost_amount));
                            assert(sum_sale(input.bookings@, i + 1) == sum_sale(
                                input.bookings@,
                                i as int,
                            ) + units(input.bookings@[i as int].sale_amount));
                        }
                        total_cost = tc;
                        total_revenue = tr;
                        total_profit = tp;
                        total_vat = tv;
                        total_commission = tm;
                        let ghost old_results = results@;
                        let ghost old_accepted = accepted;
                        let ghost old_len = results@.len() as int;
                        results.push(f);
                        proof {
                            reveal(sum_cost);
                            reveal(sum_sale);
                            reveal(sum_profit);
                            reveal(sum_vat);
                            reveal(sum_commission);
                            reveal(sum_cost_at);
                            reveal(sum_sale_at);
                            reveal(sums_rep_cost);
                            reveal(sums_rep_sale);
                            reveal(sums_rep_profit);
                            reveal(sums_rep_vat);
                            reveal(sums_rep_commission);
                            accepted = accepted.push(i as int);
                            assert(financials_ok(input.bookings@[i as int], f));
                            lemma_sums_prefix(results@, old_results, old_len);
                            lemma_sums_at_prefix(input.bookings@, accepted, old_accepted, old_len);
                            assert(results@[old_len] == f);
                            assert(accepted[old_len] == i as int);
                            assert(sum_profit(results@, old_len + 1) == sum_profit(
                                results@,
                                old_len,
                            ) + units(f.net_profit));
                            assert(sum_vat(results@, old_len + 1) == sum_vat(results@, old_len)
                                + units(f.vat_amount));
                            assert(sum_commission(results@, old_len + 1) == sum_commission(
                                results@,
                                old_len,
                            ) + units(f.commission_amount));
                            assert(sum_cost_at(input.bookings@, accepted, old_len + 1)
                                == sum_cost_at(input.bookings@, accepted, old_len) + units(
                                input.bookings@[i as int].cost_amount,
                            ));
                            assert(sum_sale_at(input.bookings@, accepted, old_len + 1)
                                == sum_sale_at(input.bookings@, accepted, old_len) + units(
                                input.bookings@[i as int].sale_amount,
                            ));
                            assert((old_len + 1) * pow10(28) == old_len * pow10(28) + pow10(28))
                                by (nonlinear_arith);
                            // Exactness steps: whenever every running sum
                            // through the new one is representable, the
                            // addition was exact.
                            if sums_rep_profit(results@, old_len + 1) {
                                assert(units(tp) == sum_profit(results@, old_len + 1));
                            }
                            if sums_rep_vat(results@, old_len + 1) {
                                assert(units(tv) == sum_vat(results@, old_len + 1));
                            }
                            if sums_rep_commission(results@, old_len + 1) {
                                assert(units(tm) == sum_commission(results@, old_len + 1));
                            }
                            if promised2 {
                                assert forall|j: int|
                                    0 <= j < i + 1 && booking_in_range(
                                        input.bookings@[j],
                                    ) implies exists|k: int|
                                    0 <= k < accepted.len() && accepted[k] == j by {
                                    if j < i {
                                        let k0 = choose|k: int|
                                            0 <= k < old_accepted.len() && old_accepted[k] == j;
                                        assert(accepted[k0] == j);
                                    } else {
                                        assert(accepted[old_len] == j);
                                    }
                                }
                            }
                            if promised {
                                assert(sum_cost(input.bookings@, i + 1) == sum_cost(
                                    input.bookings@,
                                    i as int,
                                ) + units(input.bookings@[i as int].cost_amount));
                                if sums_rep_cost(input.bookings@, i + 1) {
                                    assert(units(tc) == sum_cost(input.bookings@, i + 1));
                                }
                                if sums_rep_sale(input.bookings@, i + 1) {
                                    assert(units(tr) == sum_sale(input.bookings@, i + 1));
                                }
                            }
                        }
                    },
                    _ => {
                        // A total left the representable range: this
                        // booking is dropped from results and totals.
                        proof {
                            if promised2 {
                                // Bounded contributions cannot overflow a
                                // bounded total: this arm is unreachable
                                // then.
                                assert(false);
                            }
                        }
                    },
                }
            },
            Err(_) => {
                // The booking itself is degenerate: dropped. A booking in
                // range cannot end here: its calculation is promised to
                // succeed.
                proof {
                    if promised2 && booking_in_range(input.bookings@[i as int]) {
                        assert(false);
                    }
                }
            },
        }
        proof {
            if promised2 {
                crate::decimal::lemma_pow10_pos(45);
                assert((i as int) * pow10(45) <= (i + 1) * pow10(45)) by (nonlinear_arith)
                    requires
                        pow10(45) >= 1,
                ;
            }
        }
        i = i + 1;
    }
    proof {
        lemma_units_sign(total_revenue);
        lemma_pow10_values();
    }
    let hundred = dec_int(100);
    let ghost utp = units(total_profit);
    let ghost utr = units(total_revenue);
    let ghost qv = (utp * pow10(MAX_SCALE as nat)) / utr;
    let ghost exact_avg = utr > 0 && (utp * pow10(MAX_SCALE as nat)) % utr == 0 && representable(
        qv,
    ) && representable(100 * qv);
    let ghost near_avg = utr > 0 && abs_i(utp) * 100 < abs_i(utr) * (MANTISSA_LIMIT - 102);
    proof {
        lemma_pow10_pos(MAX_SCALE as nat);
        if near_avg {
            assert(abs_i(utp) < abs_i(utr) * (MANTISSA_LIMIT - 1)) by (nonlinear_arith)
                requires
                    abs_i(utp) * 100 < abs_i(utr) * (MANTISSA_LIMIT - 102),
                    abs_i(utr) >= 0,
                    0 <= abs_i(utp),
            ;
        }
    }
    let average_profit_margin = if total_revenue.m > 0 {
        match dec_div(&total_profit, &total_revenue) {
            Some(q) => {
                proof {
                    if near_avg {
                        // Even a rounded average stays within one-ulp
                        // errors of the exact weighted ratio.
                        lemma_pow10_mono((MAX_SCALE - q.s) as nat, MAX_SCALE as nat);
                        let p = pow10(MAX_SCALE as nat);
                        assert(abs_i(units(q) * utr - utp * p) < p * utr) by (nonlinear_arith)
                            requires
                                abs_i(units(q) * utr - utp * p) < pow10((MAX_SCALE - q.s) as nat)
                                    * abs_i(utr),
                                pow10((MAX_SCALE - q.s) as nat) <= p,
                                utr > 0,
                        ;
                        lemma_pow10_add(MAX_SCALE as nat, MAX_SCALE as nat);
                        assert(abs_i(units(q)) * (100 * p) < (MANTISSA_LIMIT - 1) * (p * p))
                            by (nonlinear_arith)
                            requires
                                abs_i(units(q) * utr - utp * p) < p * utr,
                                abs_i(utp) * 100 < abs_i(utr) * (MANTISSA_LIMIT - 102),
                                utr > 0,
                                abs_i(utr) == utr,
                                p > 0,
                        ;
                        assert(abs_i(units(q)) * abs_i(units(hundred)) < (MANTISSA_LIMIT - 1)
                            * pow10(2 * MAX_SCALE as nat)) by (nonlinear_arith)
                            requires
                                abs_i(units(q)) * (100 * p) < (MANTISSA_LIMIT - 1) * (p * p),
                                abs_i(units(hundred)) == 100 * p,
                                pow10(2 * MAX_SCALE as nat) == p * p,
                                p == pow10(MAX_SCALE as nat),
                        ;
                    }
                    if exact_avg {
                        // The totals divide evenly: the quotient and its
                        // hundredfold were both computed exactly.
                        assert(units(q) == qv);
                        vstd::arithmetic::div_mod::lemma_mod_multiples_basic(
                            qv * 100,
                            pow10(MAX_SCALE as nat),
                        );
                        vstd::arithmetic::div_mod::lemma_div_multiples_vanish(
                            qv * 100,
                            pow10(MAX_SCALE as nat),
                        );
                        assert(qv * (100 * pow10(MAX_SCALE as nat)) == (qv * 100) * pow10(
                            MAX_SCALE as nat,
                        )) by (nonlinear_arith);
                        assert((units(q) * units(hundred)) % pow10(MAX_SCALE as nat) == 0 && (units(
                            q,
                        ) * units(hundred)) / pow10(MAX_SCALE as nat) == 100 * qv);
                    }
                }
                match dec_mul(&q, &hundred) {
                    Some(m) => {
                        proof {
                            if exact_avg {
                                assert(units(m) == 100 * qv) by (nonlinear_arith)
                                    requires
                                        pow10(MAX_SCALE as nat) * units(m) == units(q) * units(
                                            hundred,
                                        ),
                                        units(q) == qv,
                                        units(hundred) == 100 * pow10(MAX_SCALE as nat),
                                        pow10(MAX_SCALE as nat) > 0,
                                ;
                            }
                            if near_avg {
                                lemma_pow10_mono((MAX_SCALE - m.s) as nat, MAX_SCALE as nat);
                                let p = pow10(MAX_SCALE as nat);
                                assert(abs_i(units(m) * p - units(q) * units(hundred)) < pow10(
                                    (MAX_SCALE - m.s) as nat,
                                ) * p);
                                assert(abs_i(units(m) - 100 * units(q)) < p) by (nonlinear_arith)
                                    requires
                                        abs_i(units(m) * p - units(q) * (100 * p)) < pow10(
                                            (MAX_SCALE - m.s) as nat,
                                        ) * p,
                                        pow10((MAX_SCALE - m.s) as nat) <= p,
                                        p > 0,
                                ;
                                assert(abs_i(units(m) * utr - 100 * utp * p) <= 101 * p * utr)
                                    by (nonlinear_arith)
                                    requires
                                        abs_i(units(m) - 100 * units(q)) < p,
                                        abs_i(units(q) * utr - utp * p) < p * utr,
                                        utr > 0,
                                        p > 0,
                                ;
                            }
                        }
                        m
                    },
                    None => {
                        proof {
                            if near_avg {
                                assert(false);
                            }
                        }
                        dec_int(0)
                    },
                }
            },
            None => {
                proof {
                    if near_avg {
                        assert(false);
                    }
                }
                dec_int(0)
            },
        }
    } else {
        dec_int(0)
    };
    let booking_count = results.len();
    let result = BatchBookingResult {
        results,
        summary: BatchSummary {
            total_cost,
            total_revenue,
            total_profit,
            total_vat,
            total_commission,
            average_profit_margin,
            booking_count,
        },
    };
    proof {
        assert(selection_ok(
            input.bookings@,
            result.results@,
            result.summary.total_cost,
            result.summary.total_revenue,
            accepted,
        ));
    }
    result
}

/// One step of a running batch total: adding an in-range value to a
/// total bounded by `i` steps leaves it bounded by `i + 1` steps, even
/// with the sub-unit error a rounded sum may carry.
proof fn lemma_batch_total_step(old_total: int, x: int, new_total: int, i: nat)
    requires
        abs_i(new_total - (old_total + x)) < pow10(28),
        abs_i(old_total) <= i * pow10(45),
        abs_i(x) <= 3 * pow10(44),
    ensures
        abs_i(new_total) <= (i + 1) * pow10(45),
{
    lemma_pow10_values();
    lemma_pow10_add(1, 44);
    lemma_pow10_mono(28, 44);
    assert(abs_i(new_total) <= i * pow10(45) + 3 * pow10(44) + pow10(28));
    assert(i * pow10(45) + 3 * pow10(44) + pow10(28) <= (i + 1) * pow10(45)) by (nonlinear_arith)
        requires
            pow10(45) == 10 * pow10(44),
            pow10(28) <= pow10(44),
            pow10(44) >= 1,
            i >= 0,
    ;
}

} // verus!
