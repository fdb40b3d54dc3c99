//! User-table records.

use vstd::prelude::*;

verus! {

/// A chat user as the user table stores one, with read access to each
/// column.
#[derive(Debug)]
pub struct TwitchUser {
    pub id: i32,
    pub username: String,
    pub is_logged_as_channel: bool,
    pub channel_id: Option<i32>,
}

impl TwitchUser {
    pub fn id(&self) -> (r: i32)
        ensures
            r == self.id,
    {
        self.id
    }

    pub fn username(&self) -> (r: &String)
        ensures
            r@ == self.username@,
    {
        &self.username
    }

    pub fn is_logged_as_channel(&self) -> (r: bool)
        ensures
            r == self.is_logged_as_channel,
    {
        self.is_logged_as_channel
    }

    pub fn channel_id(&self) -> (r: &Option<i32>)
        ensures
            r == &self.channel_id,
    {
        &self.channel_id
    }

    /// A record as a freshly inserted row would hold it.
    pub fn new_row(id: i32, username: String, channel_id: Option<i32>) -> (r: TwitchUser)
        ensures
            r.id == id,
            r.username@ == username@,
            r.channel_id == channel_id,
            !r.is_logged_as_channel,
    {
        TwitchUser { id, username, is_logged_as_channel: false, channel_id }
    }
}

} // verus!
