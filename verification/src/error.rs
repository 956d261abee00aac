use vstd::prelude::*;

verus! {

/// The crate's error type. Variants that wrap an error of another library in
/// the surrounding tooling carry that error's text here, so that callers can
/// report it without the library depending on those types.
#[derive(Debug, Clone, PartialEq, Eq)]
pub enum Error {
    /// An HTTP request failed.
    Http(String),
    /// JSON parsing failed.
    Json(String),
    /// Date/time parsing failed.
    DateTime(String),
    /// A provider reported a failure.
    Provider { provider: String, message: String },
    /// Invalid configuration or malformed input.
    Config(String),
    /// Calendar-text generation failed.
    IcsGeneration(String),
    /// A location was not found.
    LocationNotFound(String),
    /// Authentication failed for the named provider.
    Authentication(String),
    /// A network timeout occurred.
    Timeout,
    /// An RSA operation failed.
    Rsa(String),
    /// The school network is in its nightly curfew window.
    CurfewTime,
    /// An internal error occurred.
    Internal(String),
}

pub type Result<T> = core::result::Result<T, Error>;

} // verus!
