//! Collector configuration shapes: login credentials and the two ways a
//! channel may be written, with or without an explicit buffer size.

use vstd::prelude::*;

verus! {

/// The buffer size a channel gets when none is written.
pub const DEFAULT_BUF_SIZE: usize = 1024;

/// Login credentials for the chat source.
#[derive(Clone, Debug)]
pub struct TwitchLogin {
    pub login: String,
    pub token: String,
}

/// A channel as configuration text writes it: a bare name, or a name
/// with an explicit buffer size.
pub enum TempChannel {
    NameOnly(String),
    Buffered { name: String, buffer: usize },
}

/// A channel with its buffer size settled.
#[derive(Clone, Debug)]
pub struct Channel {
    pub name: String,
    pub buffer: usize,
}

impl From<TempChannel> for Channel {
    /// A bare name takes the default buffer size.
    fn from(c: TempChannel) -> (r: Channel) {
        match c {
            TempChannel::NameOnly(name) => Channel { name, buffer: DEFAULT_BUF_SIZE },
            TempChannel::Buffered { name, buffer } => Channel { name, buffer },
        }
    }
}

impl vstd::std_specs::convert::FromSpecImpl<TempChannel> for Channel {
    open spec fn obeys_from_spec() -> bool {
        true
    }

    open spec fn from_spec(c: TempChannel) -> Channel {
        match c {
            TempChannel::NameOnly(name) => Channel { name, buffer: DEFAULT_BUF_SIZE },
            TempChannel::Buffered { name, buffer } => Channel { name, buffer },
        }
    }
}

} // verus!
