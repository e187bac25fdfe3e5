use vstd::prelude::*;

verus! {

/// Everything that can abort a run: bad lattice coordinates, a failed
/// elevation request, or an elevation response that cannot be understood.
#[derive(Clone, Copy, Debug, PartialEq, Eq, Structural)]
pub enum ElevationError {
    /// A lattice row fell on or beyond a pole, or outside [-90, 90] degrees;
    /// carries the offending latitude in microdegrees.
    BadLatitude(i64),
    /// A lattice column fell outside [-180, 180] degrees; carries the
    /// offending longitude in microdegrees.
    BadLongitude(i64),
    /// The response body was not valid JSON.
    InvalidJson,
    /// The response body had no elevation value field.
    MissingValue,
    /// The elevation value was neither a decimal number nor a decimal
    /// number in a string.
    NotANumber,
    /// The elevation value does not fit a 32-bit integer.
    ValueOutOfRange,
}

/// A non-200 answer from the elevation service: the status line's code and
/// reason phrase, both carried so the abort message can show them.
#[derive(Debug)]
pub struct HttpError {
    pub status_code: u16,
    pub reason_phrase: String,
}

} // verus!
