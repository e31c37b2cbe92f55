//! The five-line double-entry journal derived from one booking:
//! receivable and cost-of-sales debits against revenue, VAT-payable and
//! supplier-payable credits, and balanced by construction whenever the
//! arithmetic is exact. The net and VAT amounts come from the one
//! shared `vat_parts` function that the financial calculator also
//! calls, with identical arguments, so the two components always agree
//! on the VAT split for the same booking.

use crate::booking::{
    amount_in_range, booking_wf, net_rep, nominal_rate, rate_in_range, vat_parts, vat_rep,
    BookingInput, CalcError,
};
use crate::decimal::{
    abs_i, cscale, dec_abs, dec_add, dec_int, dec_lt, dec_sub, dec_wf, diff_fits, fits_at,
    lemma_fits_at_mono, lemma_pow10_add, lemma_pow10_mono, lemma_pow10_pos, lemma_pow10_values,
    lemma_representable, lemma_representable_small, pow10, representable, sum_fits, units, Dec,
};
use vstd::prelude::*;
use vstd::string::StringExecFns;

verus! {

/// One ledger line: exactly one of `debit` and `credit` is non-zero.
#[derive(Clone, Debug)]
pub struct JournalEntry {
    pub account_code: String,
    pub account_name: String,
    pub debit: Dec,
    pub credit: Dec,
    pub description: String,
}

/// The five journal lines for a booking, with their totals and whether
/// the totals balance within the fixed tolerance of `0.01`.
#[derive(Debug)]
pub struct JournalEntries {
    pub entries: Vec<JournalEntry>,
    pub total_debit: Dec,
    pub total_credit: Dec,
    pub is_balanced: bool,
}

/// Both amounts of a journal line are well-formed decimals.
pub open spec fn entry_wf(e: JournalEntry) -> bool {
    dec_wf(e.debit) && dec_wf(e.credit)
}

/// The fixed five-line shape of a booking's journal: account codes and
/// names in order, the receivable debited with the sale, cost of sales
/// debited and the supplier credited with the cost, and zeros on every
/// other side.
pub open spec fn journal_shape(j: JournalEntries, sale: Dec, cost: Dec) -> bool {
    let e = j.entries@;
    &&& e.len() == 5
    &&& (forall|i: int| 0 <= i < 5 ==> entry_wf(#[trigger] e[i]))
    &&& e[0].account_code@ == "1201"@
    &&& e[0].account_name@ == "Accounts Receivable - Customers"@
    &&& e[0].description@ == "Customer invoice for booking"@
    &&& e[0].debit == sale
    &&& units(e[0].credit) == 0
    &&& e[1].account_code@ == "4101"@
    &&& e[1].account_name@ == "Sales Revenue - Tourism Services"@
    &&& e[1].description@ == "Revenue from booking (net of VAT)"@
    &&& units(e[1].debit) == 0
    &&& e[2].account_code@ == "2301"@
    &&& e[2].account_name@ == "VAT Payable"@
    &&& e[2].description@ == "VAT collected on sale"@
    &&& units(e[2].debit) == 0
    &&& e[3].account_code@ == "5101"@
    &&& e[3].account_name@ == "Cost of Sales - Tourism Services"@
    &&& e[3].description@ == "Cost paid to supplier"@
    &&& e[3].debit == cost
    &&& units(e[3].credit) == 0
    &&& e[4].account_code@ == "2101"@
    &&& e[4].account_name@ == "Accounts Payable - Suppliers"@
    &&& e[4].description@ == "Amount due to supplier"@
    &&& units(e[4].debit) == 0
    &&& e[4].credit == cost
}

/// The largest of the four scales that the journal's sums are carried
/// out at.
pub open spec fn journal_scale(sale: Dec, cost: Dec, net: Dec, vat: Dec) -> nat {
    let a = if sale.s >= cost.s {
        sale.s
    } else {
        cost.s
    };
    let b = if net.s >= vat.s {
        net.s
    } else {
        vat.s
    };
    if a >= b {
        a as nat
    } else {
        b as nat
    }
}

/// Every sum the journal takes is exact at the coarsest scale involved:
/// under this condition the journal balances exactly.
pub open spec fn journal_fits(sale: Dec, cost: Dec, net: Dec, vat: Dec) -> bool {
    let cb = journal_scale(sale, cost, net, vat);
    fits_at(units(sale), -units(net), cb) && fits_at(units(net), units(vat), cb) && fits_at(
        units(sale),
        units(cost),
        cb,
    )
}

/// Derives the fixed five-entry journal for a booking. The net and VAT
/// amounts come from the same VAT split as the financial calculator;
/// the totals are the decimal sums of the debit and credit columns, and
/// `is_balanced` compares their difference against `0.01`. Whenever
/// every sum fits exactly, the totals are equal and the journal
/// balances.
#[verifier::rlimit(100)]
pub fn generate_journal_entries_for_booking(input: &BookingInput) -> (r: Result<
    JournalEntries,
    CalcError,
>)
    requires
        booking_wf(*input),
    ensures
        r matches Ok(j) ==> journal_shape(j, input.sale_amount, input.cost_amount) && dec_wf(
            j.total_debit,
        ) && dec_wf(j.total_credit),
        r matches Ok(j) ==> (diff_fits(input.sale_amount, j.entries@[1].credit) ==> units(
            j.entries@[1].credit,
        ) + units(j.entries@[2].credit) == units(input.sale_amount)),
        r matches Ok(j) ==> (sum_fits(input.sale_amount, input.cost_amount) ==> units(
            j.total_debit,
        ) == units(input.sale_amount) + units(input.cost_amount)),
        r matches Ok(j) ==> (journal_fits(
            input.sale_amount,
            input.cost_amount,
            j.entries@[1].credit,
            j.entries@[2].credit,
        ) ==> units(j.total_debit) == units(j.total_credit) && j.is_balanced),
        r matches Ok(j) ==> (diff_fits(j.total_debit, j.total_credit) ==> j.is_balanced == (abs_i(
            units(j.total_debit) - units(j.total_credit),
        ) < pow10(26))),
        r matches Ok(j) ==> (nominal_rate(input.vat_rate) ==> units(j.entries@[1].credit) + units(
            j.entries@[2].credit,
        ) == units(input.sale_amount)),
        r matches Ok(j) ==> (nominal_rate(input.vat_rate) && representable(
            units(input.sale_amount) + units(input.cost_amount),
        ) ==> units(j.total_debit) == units(input.sale_amount) + units(input.cost_amount) && units(
            j.total_credit,
        ) == units(j.total_debit) && j.is_balanced),
        r matches Ok(j) ==> (j.entries@[1].credit.m as int, j.entries@[1].credit.s as int)
            == net_rep(input.sale_amount, input.vat_rate) && (
        j.entries@[2].credit.m as int,
        j.entries@[2].credit.s as int,
        ) == vat_rep(input.sale_amount, input.vat_rate),
        r matches Ok(j) ==> (units(input.sale_amount) == 0 ==> units(j.entries@[1].credit) == 0
            && units(j.entries@[2].credit) == 0),
        units(input.vat_rate) == -100 * pow10(28) ==> (r matches Err(e) && e
            == CalcError::ZeroVatDivisor),
        amount_in_range(input.sale_amount) && amount_in_range(input.cost_amount) && rate_in_range(
            input.vat_rate,
        ) ==> r is Ok,
{
    let sale = input.sale_amount;
    let cost = input.cost_amount;
    let ghost us = units(sale);
    let ghost uc = units(cost);
    proof {
        lemma_pow10_values();
        lemma_pow10_add(14, 28);
        lemma_pow10_add(16, 28);
        lemma_pow10_mono(42, 44);
        lemma_pow10_mono(28, 44);
    }
    let (net, vat) = match vat_parts(&sale, &input.vat_rate) {
        Ok(p) => p,
        Err(e) => {
            return Err(e);
        },
    };
    let ghost un = units(net);
    let ghost uv = units(vat);
    let zero = dec_int(0);
    let mut entries: Vec<JournalEntry> = Vec::new();
    entries.push(
        JournalEntry {
            account_code: String::from_str("1201"),
            account_name: String::from_str("Accounts Receivable - Customers"),
            debit: sale,
            credit: zero,
            description: String::from_str("Customer invoice for booking"),
        },
    );
    entries.push(
        JournalEntry {
            account_code: String::from_str("4101"),
            account_name: String::from_str("Sales Revenue - Tourism Services"),
            debit: zero,
            credit: net,
            description: String::from_str("Revenue from booking (net of VAT)"),
        },
    );
    entries.push(
        JournalEntry {
            account_code: String::from_str("2301"),
            account_name: String::from_str("VAT Payable"),
            debit: zero,
            credit: vat,
            description: String::from_str("VAT collected on sale"),
        },
    );
    entries.push(
        JournalEntry {
            account_code: String::from_str("5101"),
            account_name: String::from_str("Cost of Sales - Tourism Services"),
            debit: cost,
            credit: zero,
            description: String::from_str("Cost paid to supplier"),
        },
    );
    entries.push(
        JournalEntry {
            account_code: String::from_str("2101"),
            account_name: String::from_str("Accounts Payable - Suppliers"),
            debit: zero,
            credit: cost,
            description: String::from_str("Amount due to supplier"),
        },
    );
    let ghost in_ok = amount_in_range(sale) && amount_in_range(cost) && rate_in_range(
        input.vat_rate,
    );
    proof {
        if in_ok {
            assert(abs_i(us) <= 3 * pow10(44) && abs_i(uc) <= 3 * pow10(44));
            crate::booking::lemma_sum_diff_in_range(us, uc);
        }
        if journal_fits(sale, cost, net, vat) {
            let cb = journal_scale(sale, cost, net, vat);
            lemma_fits_at_mono(us, uc, cscale(sale, cost), cb);
        }
    }
    let td = match dec_add(&sale, &cost) {
        Some(t) => t,
        None => {
            return Err(CalcError::OutOfRange);
        },
    };
    proof {
        if in_ok {
            assert(abs_i(un) <= 3 * pow10(44) && abs_i(uv) <= 3 * pow10(44)) by (nonlinear_arith)
                requires
                    abs_i(un) < abs_i(us) + pow10(28),
                    abs_i(uv) < 2 * abs_i(us) + 2 * pow10(28),
                    abs_i(us) <= pow10(42),
                    pow10(42) == pow10(14) * pow10(28),
                    pow10(44) == pow10(16) * pow10(28),
                    pow10(16) == 0x2386f26fc10000,
                    pow10(14) == 0x5af3107a4000,
                    pow10(28) == 0x204fce5e3e25026110000000,
            ;
            crate::booking::lemma_sum_diff_in_range(un, uv);
        }
        if journal_fits(sale, cost, net, vat) {
            let cb = journal_scale(sale, cost, net, vat);
            lemma_fits_at_mono(us, -un, cscale(sale, net), cb);
            lemma_fits_at_mono(un, uv, cscale(net, vat), cb);
        }
        if nominal_rate(input.vat_rate) {
            lemma_representable(sale);
            assert(un + uv == us);
        }
    }
    let nv = match dec_add(&net, &vat) {
        Some(t) => t,
        None => {
            return Err(CalcError::OutOfRange);
        },
    };
    let ghost unv = units(nv);
    proof {
        if in_ok {
            assert(abs_i(unv) <= 4 * pow10(42) && abs_i(unv) <= 3 * pow10(44)) by (nonlinear_arith)
                requires
                    abs_i(unv - (un + uv)) < pow10(28),
                    abs_i(un) <= 3 * pow10(44) && abs_i(uv) <= 3 * pow10(44),
                    abs_i(un) < abs_i(us) + pow10(28),
                    abs_i(uv) < 2 * abs_i(us) + 2 * pow10(28),
                    abs_i(us) <= pow10(42),
                    pow10(42) == pow10(14) * pow10(28),
                    pow10(44) == pow10(16) * pow10(28),
                    pow10(16) == 0x2386f26fc10000,
                    pow10(14) == 0x5af3107a4000,
                    pow10(28) == 0x204fce5e3e25026110000000,
            ;
            crate::booking::lemma_sum_diff_in_range(unv, uc);
        }
        if journal_fits(sale, cost, net, vat) {
            let cb = journal_scale(sale, cost, net, vat);
            // The partial credit sum carries the sale's exact value, at a
            // scale no coarser than the journal's.
            assert(un + uv == us);
            assert(unv == us);
            assert(nv.s <= cb);
            lemma_fits_at_mono(unv, uc, cscale(nv, cost), cb);
        }
        if nominal_rate(input.vat_rate) {
            // The VAT split recombined exactly, so the partial credit
            // sum is the sale itself.
            lemma_representable(sale);
            assert(un + uv == us);
            assert(unv == us);
        }
    }
    let tc = match dec_add(&nv, &cost) {
        Some(t) => t,
        None => {
            return Err(CalcError::OutOfRange);
        },
    };
    proof {
        if in_ok {
            assert(abs_i(units(td)) <= 3 * pow10(44) && abs_i(units(tc)) <= 3 * pow10(44))
                by (nonlinear_arith)
                requires
                    abs_i(units(td) - (us + uc)) < pow10(28),
                    abs_i(units(tc) - (unv + uc)) < pow10(28),
                    abs_i(us) <= pow10(42),
                    abs_i(uc) <= pow10(42),
                    abs_i(unv) <= 4 * pow10(42),
                    pow10(42) == pow10(14) * pow10(28),
                    pow10(44) == pow10(16) * pow10(28),
                    pow10(16) == 0x2386f26fc10000,
                    pow10(14) == 0x5af3107a4000,
                    pow10(28) == 0x204fce5e3e25026110000000,
            ;
            crate::booking::lemma_sum_diff_in_range(units(td), units(tc));
        }
        if journal_fits(sale, cost, net, vat) {
            let cb = journal_scale(sale, cost, net, vat);
            assert(units(td) == us + uc && units(tc) == us + uc);
            assert(fits_at(units(td), -units(tc), cscale(td, tc))) by {
                lemma_fits_at_mono(us, uc, cscale(td, tc), cb);
            }
        }
        if nominal_rate(input.vat_rate) && representable(us + uc) {
            assert(units(td) == us + uc && units(tc) == us + uc);
            lemma_representable_small(0);
        }
    }
    let diff = match dec_sub(&td, &tc) {
        Some(d) => d,
        None => {
            return Err(CalcError::OutOfRange);
        },
    };
    let tolerance = Dec { m: 1, s: 2 };
    proof {
        lemma_pow10_pos(26);
    }
    let adiff = dec_abs(&diff);
    let is_balanced = dec_lt(&adiff, &tolerance);
    Ok(JournalEntries { entries, total_debit: td, total_credit: tc, is_balanced })
}

} // verus!
