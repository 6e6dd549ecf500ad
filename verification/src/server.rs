//! What the web dashboard streams.

use vstd::prelude::*;

verus! {

/// One event as the dashboard shows it.
#[derive(Debug, Clone)]
pub struct DashboardEvent {
    pub timestamp: String,
    pub event_type: String,
    pub paths: Vec<String>,
}

} // verus!
