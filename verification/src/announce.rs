//! The `nomadnetwork.node` announce: its application name, and the wire
//! packet that frames the announce payload behind its header.

use vstd::prelude::*;

verus! {

/// The application name the node's destination and announces are made for.
pub const APP_NAME: &'static str = "nomadnetwork.node";

/// The announce packet: the packed packet header, then the packed announce
/// payload.
pub fn announce_packet(header: &[u8], payload: &[u8]) -> (r: Vec<u8>)
    ensures
        r@ == header@ + payload@,
{
    let mut raw = vstd::slice::slice_to_vec(header);
    let n = payload.len();
    let mut i: usize = 0;
    while i < n
        invariant
            n == payload@.len(),
            i <= n,
            raw@ == header@ + payload@.take(i as int),
        decreases n - i,
    {
        raw.push(payload[i]);
        assert(payload@.take(i + 1) =~= payload@.take(i as int).push(payload@[i as int]));
        i = i + 1;
    }
    assert(payload@.take(n as int) =~= payload@);
    raw
}

} // verus!
