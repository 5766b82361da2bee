//! Whether a probe of an application's address counts as an answer.

use vstd::prelude::*;

verus! {

/// A probe counts as healthy when it got a response with a status code below
/// 500; no response at all (refused, timed out, or an error response the HTTP
/// client reports as a failure) does not.
pub fn response_is_healthy(status: Option<u16>) -> (r: bool)
    ensures
        r == (status matches Some(code) && code < 500),
{
    match status {
        Some(code) => code < 500,
        None => false,
    }
}

} // verus!
