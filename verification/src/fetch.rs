//! Fetching weights from the hub: what the application says about it.
//!
//! The download itself is a `curl` process the application starts and
//! watches; what is decided here is how its sizes and its endings are put.
use vstd::prelude::*;

use crate::strs::{chars_of, decimal, push_str, signed_decimal, string_of, write_i64, write_u64};

verus! {

/// A size in the unit a person would say it in: whole megabytes.
pub fn megabytes(bytes: u64) -> (r: String)
    ensures
        r@ == decimal((bytes / 1_000_000) as nat) + " MB"@,
{
    let mut out: Vec<char> = Vec::new();
    write_u64(&mut out, bytes / 1_000_000);
    push_str(&mut out, " MB");
    string_of(&out)
}

/// What is said of a `curl` that ended without success, by its exit code:
/// the hub refusing, the hub out of reach, another code, or no code at all
/// when it was interrupted.
pub open spec fn gave_up_of(code: Option<i32>) -> Seq<char> {
    match code {
        Some(22) => "the hub refused the request"@,
        Some(6) => "could not reach the hub"@,
        Some(c) => "curl gave up with code "@ + signed_decimal(c as int),
        None => "the download was interrupted"@,
    }
}

/// What is said of a `curl` that ended without success.
pub fn gave_up(code: Option<i32>) -> (r: String)
    ensures
        r@ == gave_up_of(code),
{
    match code {
        Some(22) => String::from_str("the hub refused the request"),
        Some(6) => String::from_str("could not reach the hub"),
        Some(c) => {
            let mut out = chars_of("curl gave up with code ");
            write_i64(&mut out, c as i64);
            string_of(&out)
        },
        None => String::from_str("the download was interrupted"),
    }
}

} // verus!
