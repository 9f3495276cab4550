//! Keys, LSNs, and the half-open ranges over them.
//!
//! A key is a fixed-width identifier, treated as a 128-bit ordered integer
//! with a successor operation and `KEY_MIN` / `KEY_MAX` bounds. A subrange of
//! the key space (at and above `METADATA_KEY_BEGIN`) is reserved for metadata
//! entries; the rest holds data pages. An LSN is a monotonically increasing
//! 64-bit sequence number; ranges over LSNs are half-open `[start, end)`.

use vstd::prelude::*;

verus! {

/// Size in bytes of one block of the spill-file layout.
pub const PAGE_SZ: usize = 4096;

/// Smallest key.
pub const KEY_MIN: u128 = 0;

/// Largest key.
pub const KEY_MAX: u128 = 340282366920938463463374607431768211455;

/// Keys at or above this bound are metadata entries; keys below it are data
/// pages.
pub const METADATA_KEY_BEGIN: u128 = 0x60000000000000000000000000000000;

/// Whether `key` lies in the metadata subrange of the key space.
pub open spec fn spec_is_metadata_key(key: u128) -> bool {
    key >= METADATA_KEY_BEGIN
}

/// Whether `key` lies in the metadata subrange of the key space.
pub fn is_metadata_key(key: u128) -> (r: bool)
    ensures
        r == spec_is_metadata_key(key),
{
    key >= METADATA_KEY_BEGIN
}

/// The successor of `key`.
pub fn key_next(key: u128) -> (r: u128)
    requires
        key < KEY_MAX,
    ensures
        r == key + 1,
{
    key + 1
}

/// Half-open range `[start, end)` of keys.
#[derive(Clone, Copy, PartialEq, Eq, Structural, Debug)]
pub struct KeyRange {
    pub start: u128,
    pub end: u128,
}

impl KeyRange {
    /// Whether `key` lies in this range.
    pub open spec fn spec_contains(self, key: u128) -> bool {
        self.start <= key < self.end
    }

    /// Whether `key` lies in this range.
    pub fn contains_key(&self, key: u128) -> (r: bool)
        ensures
            r == self.spec_contains(key),
    {
        self.start <= key && key < self.end
    }

    /// Whether the two ranges share at least one key.
    pub open spec fn spec_overlaps(self, other: KeyRange) -> bool {
        self.start < other.end && other.start < self.end
    }

    /// Whether the two ranges share at least one key.
    pub fn overlaps(&self, other: &KeyRange) -> (r: bool)
        ensures
            r == self.spec_overlaps(*other),
    {
        self.start < other.end && other.start < self.end
    }
}

/// Half-open range `[start, end)` of LSNs.
#[derive(Clone, Copy, PartialEq, Eq, Structural, Debug)]
pub struct LsnRange {
    pub start: u64,
    pub end: u64,
}

impl LsnRange {
    /// Whether `lsn` lies in this range.
    pub open spec fn spec_contains(self, lsn: u64) -> bool {
        self.start <= lsn < self.end
    }

    /// Whether `lsn` lies in this range.
    pub fn contains_lsn(&self, lsn: u64) -> (r: bool)
        ensures
            r == self.spec_contains(lsn),
    {
        self.start <= lsn && lsn < self.end
    }

    /// Whether the two ranges share at least one LSN.
    pub open spec fn spec_overlaps(self, other: LsnRange) -> bool {
        self.start < other.end && other.start < self.end
    }

    /// Whether the two ranges share at least one LSN.
    pub fn overlaps(&self, other: &LsnRange) -> (r: bool)
        ensures
            r == self.spec_overlaps(*other),
    {
        self.start < other.end && other.start < self.end
    }
}

} // verus!
