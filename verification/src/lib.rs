//! Signaling core for a selective-forwarding media server.
//!
//! The crate holds the verified heart of the server: the client and group
//! registries, the per-peer negotiation state machine, the relay fan-out
//! rules, and the byte-level codec for the signaling envelope. Transport,
//! logging and the media engine live outside, behind an explicit command
//! and event interface.

pub mod codec;
pub mod json;
pub mod server;
pub mod session;
pub mod types;

use vstd::prelude::*;

verus! {

/// Compares two byte strings for equality of their contents.
#[verifier::loop_isolation(false)]
pub fn bytes_eq(a: &Vec<u8>, b: &Vec<u8>) -> (r: bool)
    ensures
        r == (a@ == b@),
{
    if a.len() != b.len() {
        proof {
            assert(a@ != b@);
        }
        return false;
    }
    let mut i: usize = 0;
    while i < a.len()
        invariant
            0 <= i <= a.len(),
            a.len() == b.len(),
            forall|k: int| 0 <= k < i ==> a@[k] == b@[k],
        decreases a.len() - i,
    {
        if a[i] != b[i] {
            proof {
                assert(a@[i as int] != b@[i as int]);
            }
            return false;
        }
        i += 1;
    }
    proof {
        assert(a@ =~= b@);
    }
    true
}

} // verus!

