//! The generation timestamp.

use vstd::prelude::*;

verus! {

/// Relies on chrono's `Utc::now` and `DateTime::to_rfc3339_opts`: the
/// current time in RFC 3339 form with seconds precision.  The clock
/// decides the value; what is promised is only that the text never
/// holds a double quote, since chrono's RFC 3339 writer emits digits
/// and the punctuation `-:T.+Z` alone — so the header may carry it as
/// an attribute value.
#[verifier::external_body]
pub fn now_rfc3339() -> (r: String)
    ensures
        forall|i: int| 0 <= i < r@.len() ==> r@[i] != '"',
{
    chrono::Utc::now().to_rfc3339_opts(chrono::SecondsFormat::Secs, true)
}

} // verus!
