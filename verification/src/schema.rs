//! Wire shapes of the continuous-integration query service: named
//! configuration files and the outcome of an executed command.

use vstd::prelude::*;

verus! {

/// One named configuration file and its contents.
pub struct SCSConfig {
    pub name: String,
    pub contents: String,
}

/// All configuration files the service can list.
pub struct ConfigList {
    pub configs: Vec<SCSConfig>,
}

/// Which stream of a command one line of output came from.
#[derive(Clone, Copy, Debug, PartialEq, Eq, Structural)]
pub enum OutputKind {
    Stdout,
    Stderr,
}

/// One line a command printed.
pub struct CommandOutput {
    pub output: String,
    pub output_kind: OutputKind,
}

impl CommandOutput {
    pub fn new(output: String, output_kind: OutputKind) -> (r: CommandOutput)
        ensures
            r.output@ == output@,
            r.output_kind == output_kind,
    {
        CommandOutput { output, output_kind }
    }
}

/// How a finished command ended.
pub struct CommandResult {
    pub is_success: bool,
    pub status_line: String,
}

impl CommandResult {
    pub fn new(is_success: bool, status_line: String) -> (r: CommandResult)
        ensures
            r.is_success == is_success,
            r.status_line@ == status_line@,
    {
        CommandResult { is_success, status_line }
    }
}

} // verus!
