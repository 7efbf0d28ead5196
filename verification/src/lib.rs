//! Bank-transaction ledgers in three interchangeable representations: a binary
//! framing anchored by a magic marker, comma-separated rows, and labelled text
//! blocks. Every codec reads from an in-memory byte source and appends to a
//! byte vector; what each decoder accepts and what each encoder emits is stated
//! over the mathematical models defined next to it.
pub mod comparer;
pub mod configs;
pub mod converter;
pub mod errors;
pub mod parsers;
pub mod record;
pub mod text;
pub mod txt_format;

use vstd::prelude::*;

verus! {

/// Number of key lines that make up one record in the block form, and of
/// columns in one row of the comma-separated form.
pub const RECORD_LINES_NUMBER: usize = 8;

} // verus!
