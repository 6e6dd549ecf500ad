//! The decision of an event filter plugin.

use vstd::prelude::*;

verus! {

/// What asking a filter plugin about an event came to.
#[derive(Debug, Clone, Copy, PartialEq, Eq, Structural)]
pub enum FilterReply {
    /// No plugin is loaded.
    NoPlugin,
    /// The plugin exports no `filter_event` function.
    NoFilter,
    /// Calling `filter_event` failed.
    CallFailed,
    /// The call returned; the first value when it is a 32-bit integer.
    Returned(Option<i32>),
}

/// Whether an event is processed, given the filter's reply: a filter that
/// returned a 32-bit integer first decides by it (non-zero: process); in
/// every other case the event is processed.
pub fn filter_verdict(reply: FilterReply) -> (r: bool)
    ensures
        r == match reply {
            FilterReply::Returned(Some(v)) => v != 0,
            _ => true,
        },
{
    match reply {
        FilterReply::Returned(Some(v)) => v != 0,
        _ => true,
    }
}

} // verus!
