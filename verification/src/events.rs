//! The event log: an append-only, human-readable audit trail of every
//! scheduling decision.  The scheduler only ever writes it; building the
//! line is pure and lives here, appending it to the file does not.

use vstd::prelude::*;

verus! {

/// One event record: the timestamp in brackets, a space, the message,
/// and the line's newline.
pub fn event_line(timestamp: &[u8], message: &[u8]) -> (r: Vec<u8>)
    ensures
        r@ == seq![91u8] + timestamp@ + seq![93u8, 32u8] + message@ + seq![10u8],
{
    let mut r: Vec<u8> = Vec::new();
    r.push(91);
    r.extend_from_slice(timestamp);
    r.push(93);
    r.push(32);
    r.extend_from_slice(message);
    r.push(10);
    proof {
        assert(r@ =~= seq![91u8] + timestamp@ + seq![93u8, 32u8] + message@ + seq![10u8]);
    }
    r
}

} // verus!
