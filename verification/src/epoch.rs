//! Epoch timestamps: milliseconds since the Unix epoch, and the conversions
//! from RFC 3339 date strings and from the local clock.

use vstd::prelude::*;

verus! {

/// Milliseconds since the Unix epoch, as carried by every repository record
/// and cache stamp.
pub type EpochType = u64;

/// What chrono's RFC 3339 parser yields for a given string: the timestamp in
/// milliseconds for a well-formed date string, `None` for a malformed one.
/// The result is a pure function of the input text.
pub uninterp spec fn rfc3339_millis_of(s: Seq<char>) -> Option<i64>;

/// Why an epoch could not be obtained from a date string.
#[derive(Clone, Copy, Debug, PartialEq, Eq, Structural)]
pub enum EpochError {
    /// The text is not a well-formed RFC 3339 date.
    Malformed,
    /// The date lies before the Unix epoch, so it has no unsigned timestamp.
    BeforeEpoch,
}

/// Namespace for epoch conversions.
pub struct Epoch;

impl Epoch {
    /// Relies on chrono's `DateTime::parse_from_rfc3339` (and its
    /// `timestamp_millis` accessor): the result depends on the text alone.
    #[verifier::external_body]
    fn parse_rfc3339_millis(s: &str) -> (r: Option<i64>)
        ensures
            r == rfc3339_millis_of(s@),
    {
        match chrono::DateTime::parse_from_rfc3339(s) {
            Ok(dt) => Some(dt.timestamp_millis()),
            Err(_) => None,
        }
    }

    /// Parses an RFC 3339 date string into an epoch timestamp. Dates before
    /// the Unix epoch are rejected, since timestamps are unsigned here.
    pub fn from_rfc3339(s: &str) -> (r: Result<EpochType, EpochError>)
        ensures
            r == (match rfc3339_millis_of(s@) {
                Some(ms) => if ms >= 0 {
                    Ok::<EpochType, EpochError>(ms as u64)
                } else {
                    Err::<EpochType, EpochError>(EpochError::BeforeEpoch)
                },
                None => Err::<EpochType, EpochError>(EpochError::Malformed),
            }),
    {
        match Self::parse_rfc3339_millis(s) {
            Some(ms) => {
                if ms >= 0 {
                    Ok(ms as u64)
                } else {
                    Err(EpochError::BeforeEpoch)
                }
            },
            None => Err(EpochError::Malformed),
        }
    }

    /// Relies on chrono's `Utc::now`: nothing is assumed about the clock, so
    /// callers state what holds of every possible reading.
    #[verifier::external_body]
    pub fn get_local() -> EpochType {
        chrono::Utc::now().timestamp_millis() as u64
    }
}

} // verus!
