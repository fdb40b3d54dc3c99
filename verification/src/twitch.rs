//! Chat-source helpers that need no connection: credentials, the
//! repeated-message bypass, and the action an error suggests.

use vstd::prelude::*;

verus! {

/// A full login: account name and its token.
#[derive(Debug, Clone)]
pub struct Regular {
    pub login: String,
    pub token: String,
}

/// Credentials for the chat source: a real login, or the anonymous
/// read-only account.
#[derive(Debug, Clone)]
pub enum Credentials {
    Regular(Regular),
    Anonymous,
}

impl Credentials {
    /// The login and token, in this order; anonymous credentials use the
    /// well-known guest account.
    pub fn get(&self) -> (r: (&str, &str))
        ensures
            match self {
                Credentials::Regular(c) => r.0@ == c.login@ && r.1@ == c.token@,
                Credentials::Anonymous => r.0@ == "justinfan83124"@ && r.1@
                    == "just_a_lil_guy"@,
            },
    {
        match self {
            Credentials::Regular(r) => (r.login.as_str(), r.token.as_str()),
            Credentials::Anonymous => ("justinfan83124", "just_a_lil_guy"),
        }
    }
}

/// Appends an alternating invisible suffix so that two equal messages
/// in a row are not dropped as duplicates.
#[derive(Clone, Copy, Debug, PartialEq, Eq, Structural)]
pub struct SameMessageBypass {
    pub flag: u8,
}

impl SameMessageBypass {
    /// The suffix for this message; alternates between nothing and a
    /// blank-looking character, flipping the stored flag.
    pub fn get(&mut self) -> (r: &'static str)
        requires
            old(self).flag == 0 || old(self).flag == 1,
        ensures
            old(self).flag == 0 ==> r@ == ""@ && final(self).flag == 1,
            old(self).flag == 1 ==> r@ == " ⠀"@ && final(self).flag == 0,
    {
        if self.flag == 0 {
            self.flag = 1;
            ""
        } else {
            self.flag = 0;
            " ⠀"
        }
    }
}

impl Default for SameMessageBypass {
    fn default() -> (r: SameMessageBypass)
        ensures
            r.flag == 0,
    {
        SameMessageBypass { flag: 0 }
    }
}

/// What a connection error suggests doing next.
#[derive(Debug, Clone, Copy, PartialEq, Eq, Structural)]
pub enum SuggestedAction {
    KeepGoing,
    Reconnect,
    Terminate,
}

} // verus!
