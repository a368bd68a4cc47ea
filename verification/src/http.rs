//! The parts of HTTP requests that the map computes itself.

use vstd::prelude::*;
use crate::numbers::{decimal, decimal_text};

verus! {

/// The value of the `Range` header that asks for `length` bytes starting at
/// byte `offset`: `bytes=` followed by the first and the last byte asked for,
/// in decimal, joined by `-`. With no byte asked for, the last byte is the
/// one before `offset`.
pub fn range_header(offset: u64, length: u64) -> (r: String)
    requires
        offset + length >= 1,
        offset + length <= u64::MAX,
    ensures
        r@ == seq!['b', 'y', 't', 'e', 's', '='] + decimal(offset as nat) + seq!['-'] + decimal(
            (offset + length - 1) as nat,
        ),
{
    let end = offset + length - 1;
    let prefix = "bytes=";
    let dash = "-";
    proof {
        reveal_strlit("bytes=");
        reveal_strlit("-");
    }
    let first = decimal_text(offset);
    let last = decimal_text(end);
    let head = prefix.to_owned().concat(first.as_str());
    let with_dash = head.concat(dash);
    let r = with_dash.concat(last.as_str());
    assert(r@ =~= seq!['b', 'y', 't', 'e', 's', '='] + decimal(offset as nat) + seq!['-'] + decimal(
        (offset + length - 1) as nat,
    ));
    r
}

/// HTTP status 206, Partial Content.
pub const PARTIAL_CONTENT: u16 = 206;

/// Whether a response to a range request delivers the range: only a
/// Partial Content response does; any other status is a failure.
pub fn range_delivered(status: u16) -> (r: bool)
    ensures
        r == (status == PARTIAL_CONTENT),
{
    status == PARTIAL_CONTENT
}

} // verus!
