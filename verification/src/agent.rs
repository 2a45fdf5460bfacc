//! What peers say of themselves.

use vstd::prelude::*;
use crate::arq::Arq;

verus! {

/// What a peer declares: the arc that it stores.
#[derive(Clone, Copy, Debug, PartialEq, Eq, Structural)]
pub struct AgentInfo {
    /// The arc of the ring that the peer stores.
    pub arq: Arq,
}

} // verus!
