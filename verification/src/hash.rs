//! Fixed-size identifiers.

use vstd::prelude::*;

verus! {

/// Thirty-two opaque bytes.
pub type Hash32 = [u8; 32];

/// The identifier of a peer.
#[derive(Clone, Copy, Debug)]
pub struct AgentKey(pub Hash32);

/// Thirty-two bytes drawn at random, for trials. Wraps `rand::random`,
/// which draws from the random number generator of the thread; of the
/// bytes nothing is known.
#[verifier::external_body]
pub(crate) fn fake_hash() -> (r: Hash32) {
    rand::random::<[u8; 32]>()
}

} // verus!
