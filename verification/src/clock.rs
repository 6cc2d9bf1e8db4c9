//! The source of "now" for the upcoming query: the host's local wall clock,
//! rendered in the two string shapes the store compares against.

use vstd::prelude::*;

verus! {

/// The current local date and time as `(YYYY-MM-DD, HH:MM)` strings, seconds
/// truncated. The result depends on the wall clock and the host's time zone,
/// so almost nothing is promised of it; `Store::upcoming` takes the two
/// strings as arguments and is verified for every value of them.
///
/// Relies on chrono's `Local::now` for the current instant and on
/// `DateTime::format` with `%Y-%m-%d` and `%H:%M` to render it: `%H` and `%M`
/// are each zero-padded to two digits, so the time string has five
/// characters.
#[verifier::external_body]
pub fn local_now_strings() -> (r: (String, String))
    ensures
        r.1@.len() == 5,
{
    let now = chrono::Local::now();
    (now.format("%Y-%m-%d").to_string(), now.format("%H:%M").to_string())
}

} // verus!
