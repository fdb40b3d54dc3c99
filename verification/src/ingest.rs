//! Ingestion-facing shapes and the pure pieces of log parsing.

use vstd::prelude::*;

verus! {

/// Raised when no handler could be registered for any OS signal.
#[derive(Debug)]
pub struct NoSignalsRegistered;

/// Which table ingested logs are written to.
#[derive(Debug, Clone, Copy, PartialEq, Eq, Structural)]
pub enum TargetTable {
    RawLogs,
    IndexedLogs,
}

/// Raised for a timezone abbreviation the parser does not know.
#[derive(Debug, Clone, Copy, PartialEq, Eq, Structural)]
pub struct UnknownTimezone;

/// The numeric offset of the few timezone abbreviations the log format
/// uses; any other name is an error.
pub fn parse_known_tz_offset(tz: &str) -> (r: Result<&'static str, UnknownTimezone>)
    ensures
        tz@ == "EDT"@ ==> (r matches Ok(o) && o@ == "-0400"@),
        tz@ == "EST"@ ==> (r matches Ok(o) && o@ == "-0500"@),
        tz@ == "UTC"@ ==> (r matches Ok(o) && o@ == "+0000"@),
        (tz@ != "EDT"@ && tz@ != "EST"@ && tz@ != "UTC"@) ==> r is Err,
{
    proof {
        reveal_strlit("EDT");
        reveal_strlit("EST");
        reveal_strlit("UTC");
        assert("EDT"@[1] == 'D' && "EST"@[1] == 'S' && "UTC"@[0] == 'U' && "EDT"@[0] == 'E'
            && "EST"@[0] == 'E');
    }
    if crate::strutil::str_eq(tz, "EDT") {
        Ok("-0400")
    } else if crate::strutil::str_eq(tz, "EST") {
        Ok("-0500")
    } else if crate::strutil::str_eq(tz, "UTC") {
        Ok("+0000")
    } else {
        Err(UnknownTimezone)
    }
}

} // verus!
