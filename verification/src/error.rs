//! Error taxonomy shared by the ingestion and query subsystems.
//!
//! A duplicate-key upsert is deliberately *not* represented here: skipping a
//! row that is already present is the expected outcome of an idempotent
//! write, and the writer reports it through its `bool` / count results.

use vstd::prelude::*;

verus! {

/// Recoverable failure classes of the indexer.
///
/// Every fallible operation of the library reports one of these instead of
/// panicking; the caller decides whether to retry (store), skip a cycle
/// (source / payload) or fall back to a default (cursor).
#[derive(Clone, Copy, Debug, PartialEq, Eq, Structural)]
pub enum AppError {
    /// The durable store could not be reached; retry with backoff.
    StoreUnavailable,
    /// The remote history source could not be reached; skip this cycle.
    SourceUnavailable,
    /// A payload or field did not have the expected shape; skip this cycle.
    MalformedPayload,
    /// The persisted cursor could not be parsed; fall back to the default.
    CursorParseFailure,
}

impl AppError {
    /// Short diagnostic text for logs and API error bodies.
    pub fn message(&self) -> (r: &'static str)
        ensures
            r@ == self.spec_message(),
    {
        proof {
            reveal_strlit("store unavailable");
            reveal_strlit("source unavailable");
            reveal_strlit("malformed payload");
            reveal_strlit("cursor parse failure");
        }
        match self {
            AppError::StoreUnavailable => "store unavailable",
            AppError::SourceUnavailable => "source unavailable",
            AppError::MalformedPayload => "malformed payload",
            AppError::CursorParseFailure => "cursor parse failure",
        }
    }

    /// The text `message` returns for each variant.
    pub open spec fn spec_message(&self) -> Seq<char> {
        match self {
            AppError::StoreUnavailable => "store unavailable"@,
            AppError::SourceUnavailable => "source unavailable"@,
            AppError::MalformedPayload => "malformed payload"@,
            AppError::CursorParseFailure => "cursor parse failure"@,
        }
    }
}

} // verus!
