//! Exact-decimal accounting engine for travel bookings: per-booking
//! financial figures (profit, VAT breakdown, commission, margin),
//! balanced double-entry journal generation, and batch aggregation.

pub mod batch;
pub mod booking;
pub mod journal;
pub mod decimal;
