//! Crate error type.
//!
//! Malformed input is recoverable: the offending row is skipped and the stream
//! continues. The variants distinguish a row that could not be parsed from an
//! error of the underlying CSV reader.

use vstd::prelude::*;

verus! {

/// The error type of the `csv` crate, carried through unread.
#[verifier::external_type_specification]
#[verifier::external_body]
pub struct ExCsvError(csv::Error);

/// An error met while turning a raw record into a transaction.
#[derive(Debug)]
pub enum EngineError {
    /// A record that could not be parsed into a transaction (bad field, bad
    /// type, amount beyond 4 dp, and so on).
    Malformed(String),
    /// An error of the underlying CSV reader (such as a torn record).
    Csv(csv::Error),
}

} // verus!
