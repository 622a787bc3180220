//! Defaults of optional request fields.

use vstd::prelude::*;
use crate::text::owned;

verus! {

/// Default number of search results.
pub fn default_search_k() -> (r: usize)
    ensures
        r == 5,
{
    5
}

/// Default tool recorded for a session.
pub fn default_tool() -> (r: String)
    ensures
        r@ == "unknown"@,
{
    owned("unknown")
}

/// Default trigger recorded for a session.
pub fn default_trigger() -> (r: String)
    ensures
        r@ == "cli"@,
{
    owned("cli")
}

/// Default number of events returned.
pub fn default_event_limit() -> (r: usize)
    ensures
        r == 100,
{
    100
}

} // verus!
