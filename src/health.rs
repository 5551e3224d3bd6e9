//! The service's health report.
use vstd::prelude::*;

verus! {

/// What the health endpoint answers.
#[derive(Debug, Clone, PartialEq)]
pub struct HealthResponse {
    pub status: String,
    pub version: String,
    pub cards_loaded: usize,
}

impl HealthResponse {
    /// The report of a running service of the given version whose catalog holds
    /// `cards_loaded` names.
    pub fn healthy(version: &str, cards_loaded: usize) -> (r: HealthResponse)
        ensures
            r.status@ == "healthy"@,
            r.version@ == version@,
            r.cards_loaded == cards_loaded,
    {
        HealthResponse { status: "healthy".to_owned(), version: version.to_owned(), cards_loaded }
    }
}

} // verus!
