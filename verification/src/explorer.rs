//! Wire shapes of the log-explorer query service.

use vstd::prelude::*;

verus! {

/// The read-only query surface.
pub struct SCSQueries;

impl SCSQueries {
    pub fn api_version() -> (r: &'static str)
        ensures
            r@ == "1.0"@,
    {
        "1.0"
    }
}

/// The mutating query surface.
pub struct SCSMutations;

/// A paged request for one channel's logs.
pub struct ChannelLogsQuery {
    pub query: Option<String>,
    pub page: Option<String>,
}

/// One page of a channel's logs and the cursor for the next.
pub struct ChannelLogsResponse {
    pub messages: String,
    pub page: String,
}

} // verus!
