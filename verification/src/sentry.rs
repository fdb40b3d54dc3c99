//! Crash-reporting stubs for builds without a reporting backend: the
//! initializers accept their arguments and report nothing.

use vstd::prelude::*;

verus! {

/// Stand-in for the reporting client's guard when reporting is off.
pub type ClientInitGuard = ();

/// Stand-in for the reporting client's options when reporting is off.
pub type ClientOptions = ();

pub fn _init(_options: ClientOptions) -> (r: ClientInitGuard)
    ensures
        r == (),
{
    ()
}

pub fn _init_from_env(_pkg_name: &str, _options: ClientOptions) -> (r: Option<ClientInitGuard>)
    ensures
        r is None,
{
    None
}

/// Exercises the initializer exactly as a reporting-enabled caller
/// would, discarding the guard.
pub fn test()
    ensures
        true,
{
    let _guard = _init_from_env("", ());
}

} // verus!
