//! Run write service: validation of a run submission, the error taxonomy
//! of the write path, and rendering of the authoritative stored row back
//! to the wire shape.
//!
//! The store interaction itself is left to the caller: this module
//! decides everything around it. A submission is validated before any
//! store work; a failure to lease a connection maps to `Unavailable`; a
//! failed insert maps to `Persistence`; a successful insert's returned
//! row is rendered with the duration re-encoded canonically.

use vstd::prelude::*;
use crate::duration::{decode, encode, duration_micros, encode_spec};

verus! {

/// What a caller may supply for a new run: a decimal distance kept
/// verbatim, and duration text to be decoded. Server-assigned fields
/// (id, creation time) are not part of a submission.
pub struct RunSubmission {
    pub distance: String,
    pub duration_text: String,
}

/// A validated submission, ready for the single-row insert: the distance
/// verbatim and the duration as a non-negative microsecond count.
pub struct NewRun {
    pub distance: String,
    pub duration_micros: i64,
}

/// The authoritative row the store returns from the insert: the
/// server-assigned id and creation timestamp together with the stored
/// distance and interval.
pub struct StoredRun {
    pub id: i32,
    pub distance: String,
    pub duration_micros: i64,
    pub created_at: String,
}

/// The wire shape of a persisted run: as the stored row, with the
/// interval re-encoded as canonical duration text.
pub struct WireRun {
    pub id: i32,
    pub distance: String,
    pub duration: String,
    pub created_at: String,
}

/// Why a write failed, each with its diagnostic text.
#[derive(Debug)]
pub enum RunError {
    /// The submission was rejected before any store interaction: the
    /// duration text fails the codec grammar or is unrepresentable.
    Validation(String),
    /// No connection lease could be had: pool exhausted or store
    /// unreachable.
    Unavailable(String),
    /// The insert statement itself failed at the store.
    Persistence(String),
}

impl RunError {
    /// The HTTP status the error maps to: a client error for a rejected
    /// submission, server errors for store trouble.
    pub open spec fn spec_status_code(&self) -> u16 {
        match self {
            RunError::Validation(_) => 400,
            RunError::Unavailable(_) => 503,
            RunError::Persistence(_) => 500,
        }
    }

    /// The status code for the HTTP boundary.
    pub fn status_code(&self) -> (r: u16)
        ensures
            r == self.spec_status_code(),
    {
        match self {
            RunError::Validation(_) => 400,
            RunError::Unavailable(_) => 503,
            RunError::Persistence(_) => 500,
        }
    }

    /// The diagnostic text carried by the error.
    pub open spec fn spec_message(&self) -> Seq<char> {
        match self {
            RunError::Validation(m) => m@,
            RunError::Unavailable(m) => m@,
            RunError::Persistence(m) => m@,
        }
    }

    /// The diagnostic text for the HTTP boundary's plain-text body.
    pub fn message(&self) -> (r: &String)
        ensures
            r@ == self.spec_message(),
    {
        match self {
            RunError::Validation(m) => m,
            RunError::Unavailable(m) => m,
            RunError::Persistence(m) => m,
        }
    }
}

/// Validate a submission before any store interaction: decode its
/// duration text, keep its distance verbatim. Succeeds exactly when the
/// duration text is in the grammar and its value fits the interval type;
/// every rejection is a `Validation` error.
pub fn validate_submission(sub: RunSubmission) -> (r: Result<NewRun, RunError>)
    ensures
        match r {
            Ok(nr) => {
                &&& duration_micros(sub.duration_text@) == Some(nr.duration_micros as nat)
                &&& 0 <= nr.duration_micros
                &&& nr.distance == sub.distance
            },
            Err(e) => {
                &&& e is Validation
                &&& !(duration_micros(sub.duration_text@) matches Some(n) && n <= i64::MAX)
            },
        },
{
    match decode(sub.duration_text.as_str()) {
        Ok(us) => Ok(NewRun { distance: sub.distance, duration_micros: us }),
        Err(e) => Err(RunError::Validation(e.message)),
    }
}

/// A failure to lease a connection from the pool, before the insert.
pub fn lease_failure(diagnostic: String) -> (r: RunError)
    ensures
        r == RunError::Unavailable(diagnostic),
{
    RunError::Unavailable(diagnostic)
}

/// A failure of the insert statement itself, with the store's diagnostic.
pub fn insert_failure(diagnostic: String) -> (r: RunError)
    ensures
        r == RunError::Persistence(diagnostic),
{
    RunError::Persistence(diagnostic)
}

/// Render the authoritative row the store returned: every server-assigned
/// field verbatim, the interval re-encoded as canonical duration text.
pub fn render_run(row: StoredRun) -> (r: WireRun)
    requires
        0 <= row.duration_micros,
    ensures
        r.id == row.id,
        r.distance == row.distance,
        r.duration@ == encode_spec(row.duration_micros as nat),
        r.created_at == row.created_at,
{
    let duration = encode(row.duration_micros);
    WireRun { id: row.id, distance: row.distance, duration, created_at: row.created_at }
}

/// The fixed greeting of the liveness probe.
pub fn greeting() -> (r: String)
    ensures
        r@ == "Hello, World!"@,
{
    String::from_str("Hello, World!")
}

} // verus!
