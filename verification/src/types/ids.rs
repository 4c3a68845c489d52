//! Order and intent identities.
use vstd::prelude::*;

verus! {

/// Server-assigned order identity.
#[derive(Copy, Clone, PartialEq, Eq, Structural, Hash, Debug)]
pub struct OrderId(pub u64);

/// Client-chosen identity of an order intent.
#[derive(Copy, Clone, PartialEq, Eq, Hash, Debug)]
pub struct IntentHash(pub [u8; 32]);

impl IntentHash {
    /// The all-zero hash.
    pub fn zeroed() -> (hash: IntentHash)
        ensures
            hash.0@ == Seq::new(32, |i: int| 0u8),
    {
        let hash = IntentHash([0u8; 32]);
        assert(hash.0@ =~= Seq::new(32, |i: int| 0u8));
        hash
    }
}

} // verus!
