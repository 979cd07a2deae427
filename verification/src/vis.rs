//! Visibility timestamps: a pair of logical clocks (last update, last delete)
//! that decides whether one node's value can currently be observed.

use vstd::prelude::*;

verus! {

/// Tracks visibility of a node: the logical timestamps of its last update and
/// last delete. The zero value makes no claim at all.
#[derive(Clone, Copy, Debug, PartialEq, Eq, Structural)]
pub struct Vis {
    pub updated: u64,
    pub deleted: u64,
}

/// The larger of two timestamps.
pub open spec fn ts_max(a: u64, b: u64) -> u64 {
    if a > b {
        a
    } else {
        b
    }
}

/// The smaller of two timestamps.
pub open spec fn ts_min(a: u64, b: u64) -> u64 {
    if a < b {
        a
    } else {
        b
    }
}

/// Whether a visibility pair lets the value be observed.
pub open spec fn vis_visible(v: Vis) -> bool {
    v.updated > v.deleted
}

/// The effective visibility of a node whose own claim is `child`, seen through
/// the accumulated ancestor visibility `anc`: an ancestor's later update never
/// makes an older node more visible, and a delete anywhere above masks
/// everything below.
pub open spec fn spec_descend(anc: Vis, child: Vis) -> Vis {
    Vis { updated: ts_min(anc.updated, child.updated), deleted: ts_max(anc.deleted, child.deleted) }
}

/// The pairwise maximum of two visibility claims about the same level.
pub open spec fn spec_vis_merge(a: Vis, b: Vis) -> Vis {
    Vis { updated: ts_max(a.updated, b.updated), deleted: ts_max(a.deleted, b.deleted) }
}

impl Default for Vis {
    /// The "no claim" visibility.
    fn default() -> (r: Vis)
        ensures
            r == (Vis { updated: 0u64, deleted: 0u64 }),
    {
        Vis { updated: 0, deleted: 0 }
    }
}

impl Vis {
    /// Creates a new `Vis` with given `updated` and `deleted` timestamps.
    pub fn new(updated: u64, deleted: u64) -> (r: Vis)
        ensures
            r == (Vis { updated, deleted }),
    {
        Vis { updated, deleted }
    }

    /// Creates a new `Vis` with given `updated` timestamp.
    pub fn update(updated: u64) -> (r: Vis)
        ensures
            r == (Vis { updated, deleted: 0u64 }),
    {
        Vis::new(updated, 0)
    }

    /// Creates a new `Vis` with given `deleted` timestamp.
    pub fn delete(deleted: u64) -> (r: Vis)
        ensures
            r == (Vis { updated: 0u64, deleted }),
    {
        Vis::new(0, deleted)
    }

    /// Returns a `Vis` that is always visible.
    pub fn permanent() -> (r: Vis)
        ensures
            r == (Vis { updated: u64::MAX, deleted: 0u64 }),
            r.updated > r.deleted,
    {
        Vis::update(u64::MAX)
    }

    /// Lowers `self` to the effective visibility of a child whose own claim is
    /// `child`: updated becomes the minimum, deleted the maximum.
    pub fn descend(&mut self, child: &Vis)
        ensures
            *final(self) == spec_descend(*old(self), *child),
    {
        if child.updated < self.updated {
            self.updated = child.updated
        }
        if child.deleted > self.deleted {
            self.deleted = child.deleted
        }
    }

    /// Returns true if merging this `Vis` does nothing: both timestamps zero.
    pub fn is_noop(&self) -> (r: bool)
        ensures
            r == (*self == (Vis { updated: 0u64, deleted: 0u64 })),
    {
        self.updated == 0 && self.deleted == 0
    }

    /// Returns whether the node is visible: updated strictly after deleted.
    pub fn is_visible(&self) -> (r: bool)
        ensures
            r == (self.updated > self.deleted),
    {
        self.updated > self.deleted
    }

    /// Resolves two independent claims about the same level by keeping the
    /// newest timestamp on each side.
    pub fn merge(&mut self, diff: &Vis)
        ensures
            *final(self) == spec_vis_merge(*old(self), *diff),
    {
        if diff.updated > self.updated {
            self.updated = diff.updated;
        }
        if diff.deleted > self.deleted {
            self.deleted = diff.deleted;
        }
    }
}

/// Law: descending through ancestors takes the minimum of the updated
/// timestamps and the maximum of the deleted timestamps, and repeated descents
/// down a path associate: the accumulated window does not depend on how the
/// ancestor chain is grouped.
pub proof fn lemma_descend(v: Vis, c: Vis, d: Vis)
    ensures
        spec_descend(v, c) == (Vis {
            updated: ts_min(v.updated, c.updated),
            deleted: ts_max(v.deleted, c.deleted),
        }),
        spec_descend(spec_descend(v, c), d) == spec_descend(v, spec_descend(c, d)),
{
}

/// Law: merging two visibility claims is commutative, associative and
/// idempotent, so the de-conflicted window of a set of claims does not depend
/// on the order in which they arrive.
pub proof fn lemma_vis_merge_lattice(a: Vis, b: Vis, c: Vis)
    ensures
        spec_vis_merge(a, b) == spec_vis_merge(b, a),
        spec_vis_merge(spec_vis_merge(a, b), c) == spec_vis_merge(a, spec_vis_merge(b, c)),
        spec_vis_merge(a, a) == a,
{
}

} // verus!
