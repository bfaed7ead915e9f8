//! Names for requests, by which a log line is found again.

use crate::feed::decimal_reads_back;
use crate::text::{decimal, decimal_text, Text};
use vstd::prelude::*;
use vstd::string::*;

verus! {

/// A name made of the process and a number.
pub open spec fn made_id(process: u32, number: u64) -> Text {
    decimal(process as nat) + "-"@ + decimal(number as nat)
}

/// The name of a request: the one its client gave, or else one of its own.
pub fn request_id(given: Option<&str>, process: u32, number: u64) -> (r: String)
    ensures
        r@ == match given {
            Some(v) => if v@.len() > 0 {
                v@
            } else {
                made_id(process, number)
            },
            None => made_id(process, number),
        },
{
    if let Some(v) = given {
        if v.chars().next().is_some() {
            return v.to_owned();
        }
    }
    let mut out = decimal_text(process as u64);
    out.append("-");
    out.append(decimal_text(number).as_str());
    out
}

/// Names made with different numbers differ.
pub proof fn made_ids_differ(process: u32, a: u64, b: u64)
    requires
        a != b,
    ensures
        made_id(process, a) != made_id(process, b),
{
    decimal_reads_back(a as nat);
    decimal_reads_back(b as nat);
    let head = decimal(process as nat) + "-"@;
    if made_id(process, a) == made_id(process, b) {
        assert(made_id(process, a).skip(head.len() as int) =~= decimal(a as nat));
        assert(made_id(process, b).skip(head.len() as int) =~= decimal(b as nat));
    }
}

}
