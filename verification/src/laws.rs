//! Laws of the merge algebra, stated over the same specification functions
//! that the merge contracts use.

use vstd::prelude::*;

use crate::merge::{
    merged_delegated, merged_value, residual_delegated, residual_value, residual_vis, spec_changed,
};
use crate::node::Node;
use crate::value::val_eq;
use crate::vis::{spec_descend, spec_vis_merge, vis_visible, Vis};

verus! {

/// The node-local state after a merge adopts the newer claims of a diff:
/// exactly what `Node::merge` promises of the stored node's own fields.
pub open spec fn merged_node(n: Node, d: Node) -> Node {
    Node {
        vis: spec_vis_merge(n.vis, d.vis),
        value: merged_value(n, d),
        keys: n.keys,
        delegated: merged_delegated(n.delegated, d.delegated),
    }
}

/// The diff left behind by a merge: only the claims that were adopted, with
/// everything stale zeroed, exactly what `Node::merge` promises of the diff.
pub open spec fn residual_node(n: Node, d: Node) -> Node {
    Node {
        vis: residual_vis(n.vis, d.vis),
        value: residual_value(n, d),
        keys: d.keys,
        delegated: residual_delegated(n.delegated, d.delegated),
    }
}

/// Law: merging is idempotent at every node. Merging a diff into a node and
/// then merging the residual it left behind changes nothing further — the
/// node's state is untouched and no change is observable under any ancestor
/// window.
pub proof fn lemma_merge_idempotent_local(n: Node, d: Node, vis_new: Vis)
    ensures
        merged_node(merged_node(n, d), residual_node(n, d)) == merged_node(n, d),
        !spec_changed(vis_new, vis_new, merged_node(n, d), residual_node(n, d)),
{
}

/// Law: for two diffs whose claims live in disjoint timestamp regions,
/// merging one after the other reaches the same node state in either order:
/// the same visibility, delegation and children, and the same observable
/// value whenever the node is visible at all.
pub proof fn lemma_merge_commutative_local(n: Node, a: Node, b: Node)
    requires
        a.vis.updated != b.vis.updated || val_eq(a.value, b.value),
        a.delegated.version != b.delegated.version || a.delegated == b.delegated,
    ensures
        merged_node(merged_node(n, a), b).vis == merged_node(merged_node(n, b), a).vis,
        merged_node(merged_node(n, a), b).delegated == merged_node(
            merged_node(n, b),
            a,
        ).delegated,
        merged_node(merged_node(n, a), b).keys == merged_node(merged_node(n, b), a).keys,
        vis_visible(merged_node(merged_node(n, a), b).vis) ==> val_eq(
            merged_node(merged_node(n, a), b).value,
            merged_node(merged_node(n, b), a).value,
        ),
{
}

/// Law: a tombstone takes precedence. Whenever a node's deleted timestamp is
/// at least its updated timestamp, the node is invisible under every ancestor
/// window, so its value reads as absent regardless of the stored payload.
pub proof fn lemma_tombstone_precedence(anc: Vis, n: Node)
    requires
        n.vis.deleted >= n.vis.updated,
    ensures
        !vis_visible(spec_descend(anc, n.vis)),
{
}

} // verus!
