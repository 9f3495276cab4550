//! Shard identity: which keys this shard owns.
//!
//! The key space is hash-partitioned into `count` shards in stripes of
//! `stripe_size` keys. A key that another shard owns is *disposable* here:
//! compaction drops it. Metadata keys are kept by every shard, and an
//! unsharded tenant (`count <= 1`) owns everything.

use vstd::prelude::*;
use crate::keys::spec_is_metadata_key;

verus! {

/// This shard's place in the split key space.
#[derive(Clone, Copy, PartialEq, Eq, Structural, Debug)]
pub struct ShardIdentity {
    /// Total number of shards; 0 or 1 means unsharded.
    pub count: u32,
    /// This shard's index, below `count` when sharded.
    pub number: u32,
    /// Keys per stripe.
    pub stripe_size: u32,
}

impl ShardIdentity {
    /// A sane identity: a positive stripe and an index within the count.
    pub open spec fn wf(self) -> bool {
        &&& self.stripe_size >= 1
        &&& self.count > 1 ==> self.number < self.count
    }

    /// An unsharded identity that owns every key.
    pub fn unsharded() -> (r: ShardIdentity)
        ensures
            r.wf(),
            forall|key: u128| !r.spec_is_key_disposable(key),
    {
        ShardIdentity { count: 0, number: 0, stripe_size: 1 }
    }

    /// Whether `key` belongs to another shard and may be dropped here.
    pub open spec fn spec_is_key_disposable(self, key: u128) -> bool {
        if self.count <= 1 {
            false
        } else if spec_is_metadata_key(key) {
            false
        } else {
            (key / self.stripe_size as u128) % self.count as u128 != self.number as u128
        }
    }

    /// Whether `key` belongs to another shard and may be dropped here.
    pub fn is_key_disposable(&self, key: u128) -> (r: bool)
        requires
            self.wf(),
        ensures
            r == self.spec_is_key_disposable(key),
    {
        if self.count <= 1 {
            false
        } else if crate::keys::is_metadata_key(key) {
            false
        } else {
            (key / self.stripe_size as u128) % self.count as u128 != self.number as u128
        }
    }
}

} // verus!
