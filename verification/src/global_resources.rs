//! Process-wide accounting of dirty in-memory bytes.
//!
//! [`GlobalResources`] tracks the configured limit `max_dirty_bytes` (0
//! disables it), the current total of dirty bytes over all open in-memory
//! layers, and the number of such layers. Each layer owns a
//! [`GlobalResourceUnits`] handle recording its last published size; when
//! the handle is released it takes its contribution back out.
//!
//! When the total exceeds the configured maximum, publishing returns an
//! advisory per-layer size ceiling (the average layer size): every
//! above-average layer becomes eligible for freezing, evicting dirty bytes
//! proportionally fairly across tenants.

use vstd::prelude::*;

verus! {

/// Size drift below which a layer does not bother republishing.
pub const MAX_SIZE_DRIFT: u64 = 10 * 1024 * 1024;

/// Process-wide dirty-byte counters.
pub struct GlobalResources {
    max_dirty_bytes: u64,
    dirty_bytes: u64,
    dirty_layers: usize,
}

/// One open layer's contribution to [`GlobalResources`].
pub struct GlobalResourceUnits {
    dirty_bytes: u64,
}

impl GlobalResources {
    /// The configured limit on total dirty bytes; 0 means unlimited.
    pub closed spec fn spec_max_dirty_bytes(self) -> u64 {
        self.max_dirty_bytes
    }

    /// Current total of published dirty bytes.
    pub closed spec fn spec_dirty_bytes(self) -> u64 {
        self.dirty_bytes
    }

    /// Number of registered open layers.
    pub closed spec fn spec_dirty_layers(self) -> nat {
        self.dirty_layers as nat
    }

    /// Fresh counters with the given limit and nothing registered.
    pub fn new(max_dirty_bytes: u64) -> (r: GlobalResources)
        ensures
            r.spec_max_dirty_bytes() == max_dirty_bytes,
            r.spec_dirty_bytes() == 0,
            r.spec_dirty_layers() == 0,
    {
        GlobalResources { max_dirty_bytes, dirty_bytes: 0, dirty_layers: 0 }
    }

    /// Current total of published dirty bytes.
    pub fn dirty_bytes(&self) -> (r: u64)
        ensures
            r == self.spec_dirty_bytes(),
    {
        self.dirty_bytes
    }

    /// Number of registered open layers.
    pub fn dirty_layers(&self) -> (r: usize)
        ensures
            r == self.spec_dirty_layers(),
    {
        self.dirty_layers
    }
}

impl GlobalResourceUnits {
    /// This handle's last published size.
    pub closed spec fn contribution(self) -> u64 {
        self.dirty_bytes
    }

    /// Register a new open layer, contributing 0 bytes until it first
    /// publishes.
    pub fn new(res: &mut GlobalResources) -> (u: GlobalResourceUnits)
        requires
            old(res).spec_dirty_layers() < usize::MAX,
        ensures
            u.contribution() == 0,
            final(res).spec_dirty_layers() == old(res).spec_dirty_layers() + 1,
            final(res).spec_dirty_bytes() == old(res).spec_dirty_bytes(),
            final(res).spec_max_dirty_bytes() == old(res).spec_max_dirty_bytes(),
    {
        res.dirty_layers = res.dirty_layers + 1;
        GlobalResourceUnits { dirty_bytes: 0 }
    }

    /// Reconcile this handle's previous contribution with `size` in the
    /// global total, and return the advisory layer-size ceiling — the
    /// average layer size — exactly when the configured maximum is set and
    /// the new total exceeds it.
    pub fn publish_size(&mut self, res: &mut GlobalResources, size: u64) -> (ceiling: Option<u64>)
        requires
            old(res).spec_dirty_bytes() >= old(self).contribution(),
            old(res).spec_dirty_bytes() - old(self).contribution() + size <= u64::MAX,
            old(res).spec_dirty_layers() >= 1,
        ensures
            final(res).spec_dirty_bytes() == old(res).spec_dirty_bytes() - old(self).contribution()
                + size,
            final(self).contribution() == size,
            final(res).spec_dirty_layers() == old(res).spec_dirty_layers(),
            final(res).spec_max_dirty_bytes() == old(res).spec_max_dirty_bytes(),
            ceiling == spec_ceiling(
                old(res).spec_dirty_bytes() - old(self).contribution() + size,
                old(res).spec_max_dirty_bytes(),
                old(res).spec_dirty_layers(),
            ),
    {
        let new_global_dirty_bytes: u64 = if size >= self.dirty_bytes {
            res.dirty_bytes + (size - self.dirty_bytes)
        } else {
            res.dirty_bytes - (self.dirty_bytes - size)
        };
        res.dirty_bytes = new_global_dirty_bytes;
        self.dirty_bytes = size;

        let max_dirty_bytes = res.max_dirty_bytes;
        if max_dirty_bytes > 0 && new_global_dirty_bytes > max_dirty_bytes {
            // Set the layer file limit to the average layer size: all
            // above-average layers become eligible for freezing, in the
            // order they next publish.
            Some(new_global_dirty_bytes / (res.dirty_layers as u64))
        } else {
            None
        }
    }

    /// Publish only when `size` drifts from the last published size by
    /// more than [`MAX_SIZE_DRIFT`], to keep contention on the global
    /// counters low.
    pub fn maybe_publish_size(&mut self, res: &mut GlobalResources, size: u64)
        requires
            old(res).spec_dirty_bytes() >= old(self).contribution(),
            old(res).spec_dirty_bytes() - old(self).contribution() + size <= u64::MAX,
            old(res).spec_dirty_layers() >= 1,
        ensures
            final(res).spec_dirty_layers() == old(res).spec_dirty_layers(),
            final(res).spec_max_dirty_bytes() == old(res).spec_max_dirty_bytes(),
            spec_size_drift(old(self).contribution(), size) > MAX_SIZE_DRIFT ==> {
                &&& final(self).contribution() == size
                &&& final(res).spec_dirty_bytes() == old(res).spec_dirty_bytes() - old(
                    self,
                ).contribution() + size
            },
            spec_size_drift(old(self).contribution(), size) <= MAX_SIZE_DRIFT ==> {
                &&& final(self).contribution() == old(self).contribution()
                &&& final(res).spec_dirty_bytes() == old(res).spec_dirty_bytes()
            },
    {
        let publish: bool = if size >= self.dirty_bytes {
            size - self.dirty_bytes > MAX_SIZE_DRIFT
        } else {
            self.dirty_bytes - size > MAX_SIZE_DRIFT
        };
        if publish {
            let _ = self.publish_size(res, size);
        }
    }

    /// Deregister this handle: one layer fewer, and its contribution comes
    /// back out of the global total.
    pub fn release(self, res: &mut GlobalResources)
        requires
            old(res).spec_dirty_bytes() >= self.contribution(),
            old(res).spec_dirty_layers() >= 1,
        ensures
            final(res).spec_dirty_bytes() == old(res).spec_dirty_bytes() - self.contribution(),
            final(res).spec_dirty_layers() == old(res).spec_dirty_layers() - 1,
            final(res).spec_max_dirty_bytes() == old(res).spec_max_dirty_bytes(),
    {
        res.dirty_layers = res.dirty_layers - 1;
        res.dirty_bytes = res.dirty_bytes - self.dirty_bytes;
    }
}

/// The advisory ceiling returned by a publish that brings the global total
/// to `new_global`: the average layer size, exactly when a maximum is
/// configured and exceeded.
pub open spec fn spec_ceiling(new_global: int, max_dirty_bytes: u64, layers: nat) -> Option<u64> {
    if max_dirty_bytes > 0 && new_global > max_dirty_bytes {
        Some((new_global / layers as int) as u64)
    } else {
        None
    }
}

/// Absolute difference between a handle's last published size and a new
/// size.
pub open spec fn spec_size_drift(prev: u64, size: u64) -> int {
    if size >= prev {
        size - prev
    } else {
        prev - size
    }
}

/// Sum of a sequence of per-layer contributions.
pub open spec fn sum_contributions(s: Seq<u64>) -> int
    decreases s.len(),
{
    if s.len() == 0 {
        0
    } else {
        sum_contributions(s.drop_last()) + s.last()
    }
}

/// Dirty-bytes accounting, one step: if the global counter equals the sum
/// of the last published sizes of all open layers, it still does after any
/// one layer publishes a new size the way
/// [`GlobalResourceUnits::publish_size`]'s contract describes.
pub proof fn lemma_dirty_bytes_accounting(
    contribs: Seq<u64>,
    i: int,
    size: u64,
    global_before: int,
    global_after: int,
)
    requires
        0 <= i < contribs.len(),
        global_before == sum_contributions(contribs),
        global_after == global_before - contribs[i] + size,
    ensures
        global_after == sum_contributions(contribs.update(i, size)),
{
    lemma_sum_update(contribs, i, size);
}

/// Dirty-bytes accounting at registration: a fresh handle contributes 0,
/// so the sum — and with it the global counter — is unchanged.
pub proof fn lemma_dirty_bytes_accounting_new(contribs: Seq<u64>)
    ensures
        sum_contributions(contribs.push(0u64)) == sum_contributions(contribs),
{
    assert(contribs.push(0u64).drop_last() =~= contribs);
}

/// Dirty-bytes accounting at release: removing a layer takes exactly its
/// contribution back out of the sum.
pub proof fn lemma_dirty_bytes_accounting_release(contribs: Seq<u64>, i: int)
    requires
        0 <= i < contribs.len(),
    ensures
        sum_contributions(contribs.remove(i)) == sum_contributions(contribs) - contribs[i],
    decreases contribs.len(),
{
    if i == contribs.len() - 1 {
        assert(contribs.remove(i) =~= contribs.drop_last());
    } else {
        lemma_dirty_bytes_accounting_release(contribs.drop_last(), i);
        assert(contribs.remove(i).drop_last() =~= contribs.drop_last().remove(i));
        assert(contribs.remove(i).last() == contribs.last());
    }
}

proof fn lemma_sum_update(s: Seq<u64>, i: int, v: u64)
    requires
        0 <= i < s.len(),
    ensures
        sum_contributions(s.update(i, v)) == sum_contributions(s) - s[i] + v,
    decreases s.len(),
{
    if i == s.len() - 1 {
        assert(s.update(i, v).drop_last() =~= s.drop_last());
        assert(s.update(i, v).last() == v);
    } else {
        lemma_sum_update(s.drop_last(), i, v);
        assert(s.update(i, v).drop_last() =~= s.drop_last().update(i, v));
        assert(s.update(i, v).last() == s.last());
    }
}

} // verus!
