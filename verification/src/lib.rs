//! Sample-order canonicalisation and tabular aggregation for per-sample grid
//! measurement records.
//!
//! Measurement files arrive with their replicate rows in one of several
//! physical orders, named by tokens inside the file identifier.  This crate
//! classifies the order from the identifier, permutes rows into the canonical
//! ascending interleaved layout, infers a shared sample identifier across a
//! batch of filenames, and assembles ragged pivot-style report tables.
//!
//! Floating-point cells are carried as IEEE-754 bit patterns (`u32`), so the
//! table logic is independent of floating-point arithmetic; numeric summary
//! values (mean, standard deviation, coefficient of variation) are computed by
//! the caller and appended through the contracts in [`excel`].

pub mod data;
pub mod excel;
pub mod strutil;
pub mod table;
