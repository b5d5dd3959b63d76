//! Verified core of an invoice-text extraction pipeline.
//!
//! The library turns raw text recovered from a scanned invoice into a
//! structured record (identifiers, dates, party names, tax identifiers,
//! monetary amount) and batches that conversion across a list of files
//! into an ordered tabular report.  Reading documents, walking directories
//! and writing the spreadsheet are left to the surrounding application;
//! everything here is a pure, verified function from text to values.

pub mod amount;
pub mod batch;
pub mod candidates;
pub mod fields;
pub mod filename;
pub mod party;
pub mod patterns;
pub mod record;
pub mod text;
