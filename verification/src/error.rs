use vstd::prelude::*;

verus! {

/// Everything that can go wrong before or during a search.  Signature errors
/// are raised while the requested signature is validated; record errors are
/// raised while the commit text is parsed.
#[derive(Clone, Copy, Debug, PartialEq, Eq, Structural)]
pub enum GashError {
    /// No signature was given and none is configured.
    NoSignature,
    /// The signature is longer than the digest's forty hex characters.
    SignatureTooLong,
    /// The signature holds a character outside `[0-9a-f]`.
    SignatureNotHex,
    /// The configured maximum variance does not parse as a signed integer.
    BadMaxVariance,
    /// The record text does not hold two timestamp lines.
    MissingTimestamps,
    /// A timestamp in the record is too large to adjust safely.
    TimestampOutOfRange,
}

impl GashError {
    /// A human-readable account of the error.
    pub fn message(&self) -> (r: &'static str)
        ensures
            r@.len() > 0,
    {
        proof {
            reveal_strlit("No signature given and no default is configured");
            reveal_strlit("Signature cannot exceed 40 characters in length!");
            reveal_strlit("Signature may only contain [a-z0-9] characters!");
            reveal_strlit("Failed to parse max-variance as an integer");
            reveal_strlit("Commit must have two timestamp lines");
            reveal_strlit("Commit timestamp is out of range");
        }
        match self {
            GashError::NoSignature => "No signature given and no default is configured",
            GashError::SignatureTooLong => "Signature cannot exceed 40 characters in length!",
            GashError::SignatureNotHex => "Signature may only contain [a-z0-9] characters!",
            GashError::BadMaxVariance => "Failed to parse max-variance as an integer",
            GashError::MissingTimestamps => "Commit must have two timestamp lines",
            GashError::TimestampOutOfRange => "Commit timestamp is out of range",
        }
    }
}

} // verus!
