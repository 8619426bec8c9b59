//! Room, door, window, FF&E and ceiling data assembled from stored model
//! snapshots: scoping, milestone pinning, property lookup, filtering,
//! milestone comparison, tabular reports, area roll-up plans and each
//! project's coordinate frame.
pub mod text;
pub mod keyed;
pub mod contract;
pub mod settings;
pub mod records;
pub mod order;
pub mod state;
pub mod cursor;
pub mod scope;
pub mod decimal;
pub mod filter;
pub mod reference;
pub mod drofus;
pub mod join;
pub mod rooms;
pub mod attribution;
pub mod openings;
pub mod items;
pub mod doors;
pub mod milestones;
pub mod reports;
pub mod comparison;
pub mod areas;
pub mod placement;
pub mod ceilings;
pub mod elevations;
pub mod laws;
pub mod answers;

use vstd::prelude::*;

verus! {

/// Domain-level failure, independent of how a caller reports it.
pub enum ServiceError {
    /// An unexpected internal failure, such as a stored file that no longer
    /// parses.
    Internal(String),
    /// The request itself is malformed; the text is meant to be shown as is.
    Invalid(String),
}

pub enum ServiceErrorV {
    Internal(Seq<char>),
    Invalid(Seq<char>),
}

impl View for ServiceError {
    type V = ServiceErrorV;

    open spec fn view(&self) -> ServiceErrorV {
        match self {
            ServiceError::Internal(m) => ServiceErrorV::Internal(m@),
            ServiceError::Invalid(m) => ServiceErrorV::Invalid(m@),
        }
    }
}

/// The text a caller shows for an error.
pub open spec fn error_message(e: ServiceErrorV) -> Seq<char> {
    match e {
        ServiceErrorV::Internal(m) => "internal error: "@ + m,
        ServiceErrorV::Invalid(m) => "invalid request: "@ + m,
    }
}

impl ServiceError {
    /// The text a caller shows for this error.
    pub fn message(&self) -> (r: String)
        ensures
            r@ == error_message(self@),
    {
        match self {
            ServiceError::Internal(m) => text::concat("internal error: ", m.as_str()),
            ServiceError::Invalid(m) => text::concat("invalid request: ", m.as_str()),
        }
    }
}

} // verus!
