//! Log-table records.

use vstd::prelude::*;

verus! {

/// A chat user as the log tables store one.
#[derive(Debug)]
pub struct TwitchUser {
    pub id: i32,
    pub username: String,
    pub channel_id: Option<i32>,
}

} // verus!
