use accounting_engine::batch::{calculate_batch_bookings, BatchBookingInput};
use accounting_engine::booking::{
    calculate_booking_financials, BookingInput, CalcError,
};
use accounting_engine::decimal::{dec_abs, dec_checked, dec_eq, dec_int, dec_lt, Dec};
use accounting_engine::journal::generate_journal_entries_for_booking;

fn dec(m: i128, s: u32) -> Dec {
    Dec { m, s }
}

fn booking(cost: Dec, sale: Dec, vat: Dec, commission: Dec) -> BookingInput {
    BookingInput {
        cost_amount: cost,
        sale_amount: sale,
        vat_rate: vat,
        commission_rate: commission,
        currency: "USD".to_string(),
    }
}

#[test]
fn test_calculate_booking_financials() {
    let input = booking(dec(1000, 0), dec(1500, 0), dec(5, 0), dec(10, 0));
    let result = calculate_booking_financials(&input).unwrap();
    assert!(result.gross_profit.m > 0);
    assert!(result.vat_amount.m > 0);
    assert!(result.commission_amount.m > 0);
    assert!(result.net_profit.m > 0);
}

#[test]
fn test_journal_entries_balanced() {
    let input = booking(dec(1000, 0), dec(1500, 0), dec(5, 0), dec(10, 0));
    let result = generate_journal_entries_for_booking(&input).unwrap();
    assert!(result.is_balanced);
    assert!(dec_eq(&result.total_debit, &result.total_credit));
}

#[test]
fn end_to_end_example_booking() {
    // cost 1000, sale 1500, vat 5%, commission 10%.
    let input = booking(dec(1000, 0), dec(1500, 0), dec(5, 0), dec(10, 0));
    let f = calculate_booking_financials(&input).unwrap();
    assert!(dec_eq(&f.gross_profit, &dec_int(500)));
    assert!(dec_eq(&f.total_with_vat, &dec_int(1500)));
    assert!(dec_eq(&f.commission_amount, &dec_int(50)));
    assert!(dec_eq(&f.net_profit, &dec_int(450)));
    assert!(dec_eq(&f.profit_margin_percentage, &dec_int(30)));
    // net_before_vat = 1500 / 1.05 = 1428.5714..., vat = 71.4285...
    assert!(dec_lt(&dec_int(1428), &f.net_before_vat));
    assert!(dec_lt(&f.net_before_vat, &dec_int(1429)));
    assert!(dec_lt(&dec_int(71), &f.vat_amount));
    assert!(dec_lt(&f.vat_amount, &dec_int(72)));
}

#[test]
fn net_and_vat_recombine_to_sale() {
    let input = booking(dec(1000, 0), dec(1500, 0), dec(5, 0), dec(10, 0));
    let f = calculate_booking_financials(&input).unwrap();
    // Exact within decimal arithmetic: vat was formed as sale - net.
    let (a, b) = (f.net_before_vat, f.vat_amount);
    let c = a.s.max(b.s);
    let m = a.m * 10i128.pow(c - a.s) + b.m * 10i128.pow(c - b.s);
    assert!(dec_eq(&dec(m, c), &input.sale_amount));
}

#[test]
fn end_to_end_example_journal() {
    let input = booking(dec(1000, 0), dec(1500, 0), dec(5, 0), dec(10, 0));
    let j = generate_journal_entries_for_booking(&input).unwrap();
    assert_eq!(j.entries.len(), 5);
    assert_eq!(j.entries[0].account_code, "1201");
    assert_eq!(j.entries[1].account_code, "4101");
    assert_eq!(j.entries[2].account_code, "2301");
    assert_eq!(j.entries[3].account_code, "5101");
    assert_eq!(j.entries[4].account_code, "2101");
    assert_eq!(j.entries[0].account_name, "Accounts Receivable - Customers");
    assert_eq!(j.entries[0].description, "Customer invoice for booking");
    assert_eq!(j.entries[2].account_name, "VAT Payable");
    assert_eq!(j.entries[4].description, "Amount due to supplier");
    assert!(dec_eq(&j.entries[0].debit, &dec_int(1500)));
    assert!(dec_eq(&j.entries[3].debit, &dec_int(1000)));
    assert!(dec_eq(&j.entries[4].credit, &dec_int(1000)));
    assert!(dec_lt(&dec_int(1428), &j.entries[1].credit));
    assert!(dec_lt(&j.entries[1].credit, &dec_int(1429)));
    assert!(dec_eq(&j.total_debit, &dec_int(2500)));
    assert!(dec_eq(&j.total_credit, &dec_int(2500)));
    assert!(j.is_balanced);
}

#[test]
fn zero_sale_reports_zero_margin() {
    let input = booking(dec(100, 0), dec(0, 0), dec(5, 0), dec(10, 0));
    let f = calculate_booking_financials(&input).unwrap();
    assert_eq!(f.profit_margin_percentage.m, 0);
    assert!(dec_eq(&f.gross_profit, &dec_int(-100)));
}

#[test]
fn loss_gives_negative_commission_rebate() {
    // Negative gross profit: commission is a rebate, not an error.
    let input = booking(dec(2000, 0), dec(1500, 0), dec(0, 0), dec(10, 0));
    let f = calculate_booking_financials(&input).unwrap();
    assert!(dec_eq(&f.gross_profit, &dec_int(-500)));
    assert!(dec_eq(&f.commission_amount, &dec_int(-50)));
    assert!(dec_eq(&f.net_profit, &dec_int(-450)));
}

#[test]
fn vat_rate_minus_hundred_is_rejected() {
    let input = booking(dec(1000, 0), dec(1500, 0), dec(-100, 0), dec(10, 0));
    assert_eq!(
        calculate_booking_financials(&input),
        Err(CalcError::ZeroVatDivisor)
    );
    let j = generate_journal_entries_for_booking(&input);
    assert!(j.is_err());
}

#[test]
fn out_of_range_difference_is_rejected() {
    // The widest representable mantissa on both sides: the gross profit
    // cannot be represented.
    let huge = dec(79228162514264337593543950335, 0);
    let input = booking(dec(-79228162514264337593543950335, 0), huge, dec(0, 0), dec(0, 0));
    assert_eq!(
        calculate_booking_financials(&input),
        Err(CalcError::OutOfRange)
    );
}

#[test]
fn zero_commission_rate_gives_zero_commission() {
    let input = booking(dec(1000, 0), dec(1500, 0), dec(5, 0), dec(0, 0));
    let f = calculate_booking_financials(&input).unwrap();
    assert_eq!(f.commission_amount.m, 0);
    assert!(dec_eq(&f.net_profit, &f.gross_profit));
}

#[test]
fn zero_vat_rate_keeps_sale_as_net() {
    let input = booking(dec(1000, 0), dec(1500, 0), dec(0, 0), dec(0, 0));
    let f = calculate_booking_financials(&input).unwrap();
    assert!(dec_eq(&f.net_before_vat, &dec_int(1500)));
    assert_eq!(f.vat_amount.m, 0);
}

#[test]
fn fractional_amounts_are_exact() {
    // cost 10.50, sale 20.25, vat 0, commission 50: gross 9.75,
    // commission 4.875, net 4.875.
    let input = booking(dec(1050, 2), dec(2025, 2), dec(0, 0), dec(50, 0));
    let f = calculate_booking_financials(&input).unwrap();
    assert!(dec_eq(&f.gross_profit, &dec(975, 2)));
    assert!(dec_eq(&f.commission_amount, &dec(4875, 3)));
    assert!(dec_eq(&f.net_profit, &dec(4875, 3)));
}

#[test]
fn sub_unit_cost_is_accepted() {
    // A cost below one is fine; only the sale carries the floor that
    // protects the margin quotient.
    let input = booking(dec(50, 2), dec(200, 0), dec(0, 0), dec(0, 0));
    let f = calculate_booking_financials(&input).unwrap();
    assert!(dec_eq(&f.gross_profit, &dec(19950, 2)));
    assert!(dec_eq(&f.net_profit, &dec(19950, 2)));
}

#[test]
fn all_zero_booking_gives_zero_journal() {
    let input = booking(dec(0, 0), dec(0, 0), dec(0, 0), dec(0, 0));
    let j = generate_journal_entries_for_booking(&input).unwrap();
    for e in &j.entries {
        assert_eq!(e.debit.m, 0);
        assert_eq!(e.credit.m, 0);
    }
    assert_eq!(j.total_debit.m, 0);
    assert_eq!(j.total_credit.m, 0);
    assert!(j.is_balanced);
}

#[test]
fn batch_example_totals_are_exact() {
    // One free booking and one break-even booking: profit 100 over
    // revenue 1000 gives a weighted average of exactly ten percent,
    // not the simple mean of the two margins.
    let a = booking(dec(0, 0), dec(100, 0), dec(0, 0), dec(0, 0));
    let b = booking(dec(900, 0), dec(900, 0), dec(0, 0), dec(0, 0));
    let r = calculate_batch_bookings(&BatchBookingInput { bookings: vec![a, b] });
    assert_eq!(r.results.len(), 2);
    assert!(dec_eq(&r.summary.total_profit, &dec_int(100)));
    assert!(dec_eq(&r.summary.total_revenue, &dec_int(1000)));
    assert!(dec_eq(&r.summary.average_profit_margin, &dec_int(10)));
}

#[test]
fn batch_average_is_revenue_weighted() {
    // Margins 50% and 5%: the weighted average is 200/2200 * 100 =
    // 9.0909..., not the arithmetic mean 27.5.
    let a = booking(dec(100, 0), dec(200, 0), dec(0, 0), dec(0, 0));
    let b = booking(dec(1900, 0), dec(2000, 0), dec(0, 0), dec(0, 0));
    let r = calculate_batch_bookings(&BatchBookingInput { bookings: vec![a, b] });
    assert_eq!(r.results.len(), 2);
    assert_eq!(r.summary.booking_count, 2);
    assert!(dec_eq(&r.summary.total_cost, &dec_int(2000)));
    assert!(dec_eq(&r.summary.total_revenue, &dec_int(2200)));
    assert!(dec_eq(&r.summary.total_profit, &dec_int(200)));
    let avg = r.summary.average_profit_margin;
    assert!(dec_lt(&dec_int(9), &avg));
    assert!(dec_lt(&avg, &dec_int(10)));
    assert!(!dec_eq(&avg, &dec(275, 1)));
}

#[test]
fn batch_skips_degenerate_booking() {
    let good = booking(dec(1000, 0), dec(1500, 0), dec(5, 0), dec(10, 0));
    let bad = booking(dec(1000, 0), dec(1500, 0), dec(-100, 0), dec(10, 0));
    let good2 = booking(dec(100, 0), dec(200, 0), dec(0, 0), dec(0, 0));
    let r = calculate_batch_bookings(&BatchBookingInput { bookings: vec![good, bad, good2] });
    assert_eq!(r.results.len(), 2);
    assert_eq!(r.summary.booking_count, 2);
    assert!(dec_eq(&r.summary.total_cost, &dec_int(1100)));
    assert!(dec_eq(&r.summary.total_revenue, &dec_int(1700)));
}

#[test]
fn empty_batch_gives_zero_summary() {
    let r = calculate_batch_bookings(&BatchBookingInput { bookings: vec![] });
    assert_eq!(r.results.len(), 0);
    assert_eq!(r.summary.booking_count, 0);
    assert_eq!(r.summary.total_cost.m, 0);
    assert_eq!(r.summary.total_revenue.m, 0);
    assert_eq!(r.summary.average_profit_margin.m, 0);
}

#[test]
fn batch_zero_revenue_gives_zero_average() {
    let a = booking(dec(100, 0), dec(0, 0), dec(0, 0), dec(0, 0));
    let r = calculate_batch_bookings(&BatchBookingInput { bookings: vec![a] });
    assert_eq!(r.results.len(), 1);
    assert_eq!(r.summary.average_profit_margin.m, 0);
}

#[test]
fn value_comparisons_ignore_representation() {
    // 2.5 written two ways is the same value; 2.5 and 25 are not.
    assert!(dec_eq(&dec(25, 1), &dec(2500, 3)));
    assert!(!dec_eq(&dec(25, 1), &dec(25, 0)));
    assert!(dec_lt(&dec(25, 1), &dec(26, 1)));
    assert!(!dec_lt(&dec(26, 1), &dec(25, 1)));
    let a = dec_abs(&dec(-25, 1));
    assert!(dec_eq(&a, &dec(25, 1)));
}

#[test]
fn checked_construction_enforces_range() {
    assert!(dec_checked(1, 28).is_some());
    assert!(dec_checked(1, 29).is_none());
    assert!(dec_checked(79228162514264337593543950336, 0).is_none());
    assert!(dec_checked(79228162514264337593543950335, 0).is_some());
}
