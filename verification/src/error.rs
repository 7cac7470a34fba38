//! The error taxonomy the request handler decides over.
//!
//! Payloads (socket errors, protocol errors) live with the I/O layer
//! outside this crate; here each failure is reduced to its kind, which
//! is all the handler's status decision reads.

use vstd::prelude::*;

verus! {

/// Status reported for a request that matched no route.
pub const STATUS_NOT_FOUND: u16 = 404;

/// Status reported for a failure that carries no status of its own.
pub const STATUS_INTERNAL_ERROR: u16 = 500;

/// A failure surfaced to the request handler: an I/O error, an HTTP
/// building error, a protocol error from the HTTP engine, or a
/// status-coded error some component chose to report.
#[derive(Clone, Copy, PartialEq, Eq, Structural, Debug)]
pub enum PuxError {
    Io,
    Http,
    Hyper,
    Status(u16),
}

impl PuxError {
    /// A status-coded error carries a three-digit HTTP status.
    pub open spec fn wf(self) -> bool {
        match self {
            PuxError::Status(c) => 100 <= c <= 999,
            _ => true,
        }
    }

    /// The status an error page reports for this failure.
    pub open spec fn page_status(self) -> u16 {
        match self {
            PuxError::Status(c) => c,
            _ => STATUS_INTERNAL_ERROR,
        }
    }
}

/// The status rendered for a failed service call: a status-coded error
/// keeps its code, every other failure is reported as an internal
/// error.
pub fn failure_status(e: &PuxError) -> (c: u16)
    requires
        e.wf(),
    ensures
        c == e.page_status(),
        100 <= c <= 999,
{
    match e {
        PuxError::Status(code) => *code,
        _ => STATUS_INTERNAL_ERROR,
    }
}

} // verus!
