//! Database-facing value shapes: connection strings and user records.

use vstd::prelude::*;

pub mod logs;
pub mod user;

verus! {

/// A database connection string.
pub struct ConnString(pub String);

impl From<String> for ConnString {
    fn from(v: String) -> (r: ConnString) {
        ConnString(v)
    }
}

impl vstd::std_specs::convert::FromSpecImpl<String> for ConnString {
    open spec fn obeys_from_spec() -> bool {
        true
    }

    open spec fn from_spec(v: String) -> ConnString {
        ConnString(v)
    }
}

} // verus!
