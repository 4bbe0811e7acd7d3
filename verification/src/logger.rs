use vstd::prelude::*;
use vstd::string::StringExecFns;

verus! {

/// A logger that writes to standard error.
#[derive(Debug)]
pub struct StdLogger;

/// A logger that drops every message.
#[derive(Debug)]
pub struct NullLogger;

/// The warning that reports a use of a deprecated feature:
/// `DEPRECATION WARNING [<id>]: <message>`.
pub fn deprecation_warning(deprecation_id: &str, message: &str) -> (r: String)
    ensures
        r@ == "DEPRECATION WARNING ["@ + deprecation_id@ + "]: "@ + message@,
{
    let mut out = String::from_str("DEPRECATION WARNING [");
    out.append(deprecation_id);
    out.append("]: ");
    out.append(message);
    out
}

} // verus!
