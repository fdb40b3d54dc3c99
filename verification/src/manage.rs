//! Wire shapes of the management service: access tokens, the lines a
//! managed command streams back, and service status entries.

use vstd::prelude::*;

use crate::schema::CommandOutput;
use crate::schema::CommandResult;

verus! {

/// A bearer token for the management endpoints; construction performs
/// no entropy validation.
#[derive(Clone, Debug, PartialEq, Eq, Hash)]
pub struct AccessToken(pub String);

impl AccessToken {
    pub fn new_not_validated(token: String) -> (r: AccessToken)
        ensures
            r.0@ == token@,
    {
        AccessToken(token)
    }
}

/// One streamed line of a managed command: output, or its final status.
pub enum CommandLine {
    Output(CommandOutput),
    Result(CommandResult),
}

/// The last command a manager ran and everything it printed.
pub struct LastCommand {
    pub in_progress: bool,
    pub command_output: Vec<CommandLine>,
    pub last_command: Option<String>,
}

/// One managed service and whether it is running.
pub struct Service {
    pub name: String,
    pub is_running: bool,
}

} // verus!
