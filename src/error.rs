//! Error kinds shared by the components of the library.
use vstd::prelude::*;

verus! {

/// A remote answer that does not have the expected structure.
#[derive(Debug, Clone, PartialEq, Eq)]
pub enum DecodeError {
    /// The text holds no `{` followed, at or after it, by a `}`.
    NoJsonObject,
    /// The response carries no choice to read the text from.
    NoChoice,
    /// The answer holds no list of labels.
    MissingLabels,
    /// The framed text could not be read into the expected record.
    Malformed(String),
}

/// Why one attempt of a remote call failed.
#[derive(Debug, Clone, PartialEq, Eq)]
pub enum AttemptError {
    /// The request did not reach the service or its answer was cut off.
    Network(String),
    /// The service answered with a status outside 2xx.
    Status(u16, String),
    /// The answer could not be decoded.
    Decode(DecodeError),
}

/// Failure of a remote call after its retries.
#[derive(Debug, Clone, PartialEq, Eq)]
pub enum CallError {
    /// Every attempt failed; this is the error of the last one.
    AllAttemptsFailed(AttemptError),
}

/// Failure of the word store.
#[derive(Debug, Clone, PartialEq, Eq)]
pub enum StoreError {
    /// The underlying storage failed.
    Io(String),
    /// A write would give two records one identity outside the correction path.
    ConstraintViolation,
    /// No record has this id.
    NotFound(i64),
    /// Every record id has been given out.
    IdsExhausted,
}

/// Settings that cannot be used.
#[derive(Debug, Clone, PartialEq, Eq)]
pub enum ConfigError {
    /// The concurrency cap is zero.
    ZeroConcurrency,
    /// A required setting is absent or empty.
    Missing(String),
}

} // verus!
