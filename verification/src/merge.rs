//! The merge algorithm: applies a diff to a node, computes the observable
//! change, and detaches subtrees whose owner is another zone.

use vstd::prelude::*;

use crate::node::{
    children_of, find_child_idx, has_key, insert_child_sorted, key_at, key_lt, keys_size,
    keys_sorted, keys_unique, no_active_delegation, node_size, node_wf, Delegated, Node, NodeTree,
};
use crate::path::Path;
use crate::update::{uchildren_of, ukeys_unique, update_is_noop, update_wf, Update};
use crate::value::{val_eq, Value};
use crate::vis::{spec_descend, spec_vis_merge, vis_visible, Vis};

verus! {

/// Cross-zone handoff: a subtree detached at `path` that must be delivered to
/// the zone owning it.
#[derive(Debug)]
pub struct External {
    /// Path to the delegation point.
    pub path: Path,
    /// The detached subtree and its newly computed ancestor visibility.
    pub tree: NodeTree,
    /// True only on the first transition into delegation.
    pub initial: bool,
}

/// Diagnostic event for an equal-timestamp value conflict, resolved by keeping
/// the existing value and never raised as an error.
#[derive(Debug)]
pub struct Conflict {
    /// Path to the conflicting node.
    pub path: Path,
    /// The value that was kept.
    pub existing: Value,
    /// The value that was discarded.
    pub incoming: Value,
    /// The shared timestamp of the two claims.
    pub timestamp: u64,
}

/// Whether the diff's update claim is newer and will be adopted.
pub open spec fn adopt_up(n: Vis, d: Vis) -> bool {
    d.updated > n.updated
}

/// Whether the diff's delete claim is newer and will be adopted.
pub open spec fn adopt_del(n: Vis, d: Vis) -> bool {
    d.deleted > n.deleted
}

/// The node's value after the merge: a newer differing diff value replaces
/// the stored one, and a newly dominating delete clears it to null.
pub open spec fn merged_value(n: Node, d: Node) -> Value {
    let v = if adopt_up(n.vis, d.vis) && !val_eq(n.value, d.value) {
        d.value
    } else {
        n.value
    };
    let mv = spec_vis_merge(n.vis, d.vis);
    if adopt_del(n.vis, d.vis) && mv.updated < mv.deleted {
        Value::Null
    } else {
        v
    }
}

/// The diff's visibility after the merge: claims not strictly newer than the
/// stored ones are zeroed so they cannot influence children.
pub open spec fn residual_vis(n: Vis, d: Vis) -> Vis {
    Vis {
        updated: if d.updated < n.updated {
            0u64
        } else {
            d.updated
        },
        deleted: if d.deleted > n.deleted {
            d.deleted
        } else {
            0u64
        },
    }
}

/// The diff's value after the merge: cleared when its update claim was stale.
pub open spec fn residual_value(n: Node, d: Node) -> Value {
    if d.vis.updated < n.vis.updated {
        Value::Null
    } else {
        d.value
    }
}

/// The node's delegation state after the merge: a strictly newer version wins.
pub open spec fn merged_delegated(n: Delegated, d: Delegated) -> Delegated {
    if d.version > n.version {
        d
    } else {
        n
    }
}

/// The diff's delegation state after the merge: zeroed unless adopted.
pub open spec fn residual_delegated(n: Delegated, d: Delegated) -> Delegated {
    if d.version > n.version {
        d
    } else {
        Delegated { version: 0u64, active: false }
    }
}

/// Whether the merge changes the stored value itself, visibility aside.
pub open spec fn value_changed(n: Node, d: Node) -> bool {
    adopt_up(n.vis, d.vis) && !val_eq(n.value, d.value)
}

/// Whether the node was effectively visible before the merge, under ancestor
/// window `vis_old`.
pub open spec fn spec_old_visible(vis_old: Vis, n: Node) -> bool {
    vis_visible(spec_descend(vis_old, n.vis))
}

/// Whether the node is effectively visible after the merge, under ancestor
/// window `vis_new`.
pub open spec fn spec_new_visible(vis_new: Vis, n: Node, d: Node) -> bool {
    vis_visible(spec_descend(vis_new, spec_vis_merge(n.vis, d.vis)))
}

/// Whether the merge is observable at this node: its visibility flipped, or
/// it stayed visible while the value changed.
pub open spec fn spec_changed(vis_old: Vis, vis_new: Vis, n: Node, d: Node) -> bool {
    let o = spec_old_visible(vis_old, n);
    let w = spec_new_visible(vis_new, n, d);
    (o != w) || (o && w && value_changed(n, d))
}

/// The pre-merge value reported by the update, present only when the node was
/// visible and something is observable.
pub open spec fn spec_old_val(vis_old: Vis, vis_new: Vis, n: Node, d: Node) -> Option<Value> {
    if spec_old_visible(vis_old, n) && spec_changed(vis_old, vis_new, n, d) {
        Some(n.value)
    } else {
        None
    }
}

/// The post-merge value reported by the update, present only when the node is
/// visible and something is observable.
pub open spec fn spec_new_val(vis_old: Vis, vis_new: Vis, n: Node, d: Node) -> Option<Value> {
    if spec_new_visible(vis_new, n, d) && spec_changed(vis_old, vis_new, n, d) {
        Some(merged_value(n, d))
    } else {
        None
    }
}

/// The delegation flip reported by the update: present when a newer version
/// flips the active flag on a non-root node.
pub open spec fn spec_deleg_flag(n: Node, d: Node, at_root: bool) -> Option<bool> {
    if !at_root && d.delegated.version > n.delegated.version && d.delegated.active
        != n.delegated.active {
        Some(d.delegated.active)
    } else {
        None
    }
}

/// Whether an equal-timestamp value conflict is reported at this node.
pub open spec fn spec_conflict(n: Node, d: Node) -> bool {
    d.vis.updated == n.vis.updated && !val_eq(d.value, n.value)
}

/// Internal recursive merge. `prefix` is the path from the zone root to
/// `node`. The ghost flag of the result says whether this node's data was
/// detached into an `External` handoff.
#[verifier::rlimit(100)]
#[verifier::spinoff_prover]
fn merge_inner(
    prefix: &Path,
    node: &mut Node,
    diff: &mut Node,
    vis_old: Vis,
    vis_new: Vis,
    externals: &mut Vec<External>,
    conflicts: &mut Vec<Conflict>,
) -> (r: (Option<Update>, Ghost<bool>))
    requires
        node_wf(*old(node)),
        node_wf(*old(diff)),
    ensures
        node_wf(*final(node)),
        node_wf(*final(diff)),
        node_size(*final(diff)) == node_size(*old(diff)),
        final(diff).vis == residual_vis(old(node).vis, old(diff).vis),
        final(diff).value == residual_value(*old(node), *old(diff)),
        final(diff).delegated == residual_delegated(old(node).delegated, old(diff).delegated),
        final(node).delegated == merged_delegated(old(node).delegated, old(diff).delegated),
        !r.1@ ==> final(node).vis == spec_vis_merge(old(node).vis, old(diff).vis) && final(node).value == merged_value(*old(node), *old(diff)),
        r.1@ ==> prefix@.len() > 0 && merged_delegated(
            old(node).delegated,
            old(diff).delegated,
        ).active && final(node).vis == (Vis { updated: 0u64, deleted: 0u64 }) && (final(node).value
            matches Value::Null) && final(node).keys is None,
        prefix@.len() == 0 ==> !r.1@,
        old(node).keys is None && old(diff).keys is None ==> final(node).keys is None,
        !r.1@ ==> (forall|k: Seq<char>|
            #[trigger] has_key(children_of(*final(node)), k) ==> has_key(
                children_of(*old(node)),
                k,
            ) || has_key(children_of(*old(diff)), k)) && (forall|k: Seq<char>|
            #[trigger] has_key(children_of(*old(node)), k) ==> has_key(
                children_of(*final(node)),
                k,
            )),
        final(externals)@.len() >= old(externals)@.len(),
        forall|i: int|
            0 <= i < old(externals)@.len() ==> final(externals)@[i] == #[trigger] old(externals)@[i],
        forall|i: int|
            old(externals)@.len() <= i < final(externals)@.len() ==> #[trigger] final(externals)@[i].path@.len() >= prefix@.len(),
        !r.1@ ==> forall|i: int|
            old(externals)@.len() <= i < final(externals)@.len() ==> #[trigger] final(externals)@[i].path@.len() > prefix@.len(),
        r.1@ ==> final(externals)@.len() > old(externals)@.len() && {
            let e = final(externals)@.last();
            &&& e.path@ == prefix@
            &&& e.initial == (spec_deleg_flag(*old(node), *old(diff), prefix@.len() == 0)
                == Some(true))
            &&& e.tree.vis == spec_descend(vis_new, spec_vis_merge(old(node).vis, old(diff).vis))
            &&& e.tree.node.vis == spec_vis_merge(old(node).vis, old(diff).vis)
            &&& e.tree.node.value == merged_value(*old(node), *old(diff))
            &&& e.tree.node.delegated == merged_delegated(old(node).delegated, old(diff).delegated)
            &&& node_wf(e.tree.node)
            &&& (forall|k: Seq<char>|
                #[trigger] has_key(children_of(e.tree.node), k) ==> has_key(
                    children_of(*old(node)),
                    k,
                ) || has_key(children_of(*old(diff)), k))
            &&& (forall|k: Seq<char>|
                #[trigger] has_key(children_of(*old(node)), k) ==> has_key(
                    children_of(e.tree.node),
                    k,
                ))
        },
        final(conflicts)@.len() >= old(conflicts)@.len(),
        forall|i: int|
            0 <= i < old(conflicts)@.len() ==> final(conflicts)@[i] == #[trigger] old(conflicts)@[i],
        forall|i: int|
            old(conflicts)@.len() <= i < final(conflicts)@.len() ==> #[trigger] final(conflicts)@[i].path@.len() >= prefix@.len(),
        spec_conflict(*old(node), *old(diff)) ==> final(conflicts)@.len() > old(conflicts)@.len()
            && {
            let c = final(conflicts)@[old(conflicts)@.len() as int];
            &&& c.path@ == prefix@
            &&& c.existing == old(node).value
            &&& c.incoming == old(diff).value
            &&& c.timestamp == old(diff).vis.updated
        },
        !spec_conflict(*old(node), *old(diff)) ==> forall|i: int|
            old(conflicts)@.len() <= i < final(conflicts)@.len() ==> #[trigger] final(conflicts)@[i].path@.len() > prefix@.len(),
        r.0 matches Some(u) ==> !update_is_noop(u),
        no_active_delegation(*old(node)) && no_active_delegation(*old(diff)) ==> final(externals)@.len()
            == old(externals)@.len() && no_active_delegation(*final(node)) && !r.1@,
        r.1@ && spec_deleg_flag(*old(node), *old(diff), prefix@.len() == 0) != Some(true) ==> r.0
            is None,
        (!r.1@ || spec_deleg_flag(*old(node), *old(diff), prefix@.len() == 0) == Some(true))
            ==> match r.0 {
            None => !spec_changed(vis_old, vis_new, *old(node), *old(diff)),
            Some(u) => {
                &&& u.changed == spec_changed(vis_old, vis_new, *old(node), *old(diff))
                &&& u.old == spec_old_val(vis_old, vis_new, *old(node), *old(diff))
                &&& u.new == spec_new_val(vis_old, vis_new, *old(node), *old(diff))
                &&& u.delegated == spec_deleg_flag(*old(node), *old(diff), prefix@.len() == 0)
                &&& update_wf(u)
                &&& (old(node).keys is None && old(diff).keys is None ==> u.keys is None)
            },
        },
    decreases node_size(*diff), node_size(*node),
{
    let at_root = prefix.len() == 0;
    let mut eff_old = vis_old;
    eff_old.descend(&node.vis);
    let mut update = Update::default();
    if eff_old.is_visible() {
        update.old = Some(node.value.clone());
    }
    let mut propagate_del: Option<u64> = None;
    let mut value_did_change = false;

    // Merge the value claim.
    if diff.vis.updated > node.vis.updated {
        if !node.value.eq_value(&diff.value) {
            node.value = diff.value.clone();
            value_did_change = true;
        }
        node.vis.updated = diff.vis.updated;
        propagate_del = Some(0);
    } else if diff.vis.updated < node.vis.updated {
        diff.vis.updated = 0;
        diff.value = Value::Null;
    } else {
        if !diff.value.eq_value(&node.value) {
            conflicts.push(
                Conflict {
                    path: prefix.clone(),
                    existing: node.value.clone(),
                    incoming: diff.value.clone(),
                    timestamp: diff.vis.updated,
                },
            );
        }
    }

    // Merge the delete claim.
    if diff.vis.deleted > node.vis.deleted {
        node.vis.deleted = diff.vis.deleted;
        if node.vis.updated < node.vis.deleted {
            node.value = Value::Null;
        }
        propagate_del = Some(diff.vis.deleted);
    } else {
        diff.vis.deleted = 0;
    }

    let mut eff_new = vis_new;
    eff_new.descend(&node.vis);
    let old_vis = eff_old.is_visible();
    let new_vis = eff_new.is_visible();
    if old_vis {
        if new_vis {
            if value_did_change {
                update.new = Some(node.value.clone());
                update.changed = true;
            } else {
                update.old = None;
            }
        } else {
            update.changed = true;
        }
    } else {
        if new_vis {
            update.new = Some(node.value.clone());
            update.changed = true;
        } else {
            update.old = None;
        }
    }

    proof {
        assert(node.vis == spec_vis_merge(old(node).vis, old(diff).vis));
        assert(node.value == merged_value(*old(node), *old(diff)));
        assert(diff.vis == residual_vis(old(node).vis, old(diff).vis));
        assert(diff.value == residual_value(*old(node), *old(diff)));
        assert(update.changed == spec_changed(vis_old, vis_new, *old(node), *old(diff)));
        assert(update.old == spec_old_val(vis_old, vis_new, *old(node), *old(diff)));
        assert(update.new == spec_new_val(vis_old, vis_new, *old(node), *old(diff)));
    }

    let ghost va = node.vis;
    let ghost vala = node.value;
    let ghost uc = update.changed;
    let ghost uo = update.old;
    let ghost un = update.new;
    let ghost exts0 = externals@;
    let ghost confs0 = conflicts@;
    proof {
        assert(exts0 == old(externals)@);
        assert(confs0.len() >= old(conflicts)@.len());
        assert forall|i: int| 0 <= i < old(conflicts)@.len() implies confs0[i] == old(
            conflicts,
        )@[i] by {}
        if spec_conflict(*old(node), *old(diff)) {
            assert(confs0.len() == old(conflicts)@.len() + 1);
            assert(confs0[old(conflicts)@.len() as int].path@ == prefix@);
            assert(confs0[old(conflicts)@.len() as int].existing == old(node).value);
            assert(confs0[old(conflicts)@.len() as int].incoming == old(diff).value);
            assert(confs0[old(conflicts)@.len() as int].timestamp == old(diff).vis.updated);
        } else {
            assert(confs0 == old(conflicts)@);
        }
    }

    let ghost quiet = no_active_delegation(*old(node)) && no_active_delegation(*old(diff));

    // Propagate the new visibility window into every existing child, so that
    // each child's effective visibility is recomputed.
    let ran_prop = propagate_del.is_some() && node.keys.is_some();
    if ran_prop {
        let del = propagate_del.unwrap();
        let ghost nk1 = node.keys->0@;
        proof {
            assert(nk1 == children_of(*old(node)));
        }
        let klen = node.keys.as_ref().unwrap().len();
        let mut i: usize = 0;
        while i < klen
            invariant
                i <= klen,
                node.keys matches Some(nks) && nks@.len() == klen && nk1.len() == klen,
                nk1 == children_of(*old(node)),
                keys_unique(nk1),
                quiet == (no_active_delegation(*old(node)) && no_active_delegation(*old(diff))),
                quiet ==> externals@.len() == exts0.len(),
                quiet ==> (node.keys matches Some(nks) ==> (forall|q: int|
                    0 <= q < klen ==> no_active_delegation((#[trigger] nks@[q]).1))),
                forall|q: int| 0 <= q < klen ==> node_wf(#[trigger] nk1[q].1),
                node.keys matches Some(nks) ==> (forall|q: int|
                    0 <= q < klen ==> (#[trigger] nks@[q]).0 == nk1[q].0),
                node.keys matches Some(nks) ==> (forall|q: int|
                    i <= q < klen ==> #[trigger] nks@[q] == nk1[q]),
                node.keys matches Some(nks) ==> (forall|q: int|
                    0 <= q < i ==> node_wf((#[trigger] nks@[q]).1)),
                node.vis == va,
                node.value == vala,
                node.delegated == old(node).delegated,
                *diff == (Node {
                    vis: residual_vis(old(node).vis, old(diff).vis),
                    value: residual_value(*old(node), *old(diff)),
                    keys: old(diff).keys,
                    delegated: old(diff).delegated,
                }),
                update.changed == uc,
                update.old == uo,
                update.new == un,
                update.delegated is None,
                ukeys_unique(uchildren_of(update)),
                update.keys matches Some(uks) ==> (forall|q: int|
                    0 <= q < uks@.len() ==> update_wf((#[trigger] uks@[q]).1)),
                externals@.len() >= exts0.len(),
                forall|q: int| 0 <= q < exts0.len() ==> externals@[q] == #[trigger] exts0[q],
                forall|q: int|
                    exts0.len() <= q < externals@.len() ==> (#[trigger] externals@[q]).path@.len()
                        > prefix@.len(),
                conflicts@.len() >= confs0.len(),
                forall|q: int| 0 <= q < confs0.len() ==> conflicts@[q] == #[trigger] confs0[q],
                forall|q: int|
                    confs0.len() <= q < conflicts@.len() ==> (#[trigger] conflicts@[q]).path@.len()
                        > prefix@.len(),
            decreases klen - i,
        {
            let keys = node.keys.as_mut().unwrap();
            let mut pair = (String::new(), Node::default());
            keys.set_and_swap(i, &mut pair);
            let (ck, mut child) = pair;
            let mut child_prefix = prefix.clone();
            child_prefix.push(&ck);
            let mut synth = Node::delete(del);
            let ghost epre = externals@;
            let ghost cpre = conflicts@;
            proof {
                assert(child == nk1[i as int].1);
                crate::node::lemma_child_size(*old(node), i as int);
                assert(child_prefix@.len() == prefix@.len() + 1);
            }
            let (cu, _cd) = merge_inner(
                &child_prefix,
                &mut child,
                &mut synth,
                eff_old,
                eff_new,
                externals,
                conflicts,
            );
            proof {
                assert forall|q: int|
                    exts0.len() <= q < externals@.len() implies (#[trigger] externals@[q]).path@.len()
                        > prefix@.len() by {
                    if q < epre.len() {
                        assert(externals@[q] == epre[q]);
                    } else {
                        assert(externals@[q].path@.len() >= child_prefix@.len());
                    }
                }
                assert forall|q: int|
                    confs0.len() <= q < conflicts@.len() implies (#[trigger] conflicts@[q]).path@.len()
                        > prefix@.len() by {
                    if q < cpre.len() {
                        assert(conflicts@[q] == cpre[q]);
                    } else {
                        assert(conflicts@[q].path@.len() >= child_prefix@.len());
                    }
                }
            }
            update.add_child(&ck, cu);
            proof {
                assert forall|q: int|
                    0 <= q < uchildren_of(update).len() implies update_wf(
                        (#[trigger] uchildren_of(update)[q]).1,
                    ) by {}
            }
            let keys = node.keys.as_mut().unwrap();
            keys.set(i, (ck, child));
            i = i + 1;
        }
    }
    let ghost nk_mid = children_of(*node);
    proof {
        if ran_prop {
            assert forall|k: Seq<char>| #[trigger] has_key(nk_mid, k) == has_key(
                children_of(*old(node)),
                k,
            ) by {
                crate::node::lemma_has_key_same_cols(nk_mid, children_of(*old(node)), k);
            }
            crate::node::lemma_sorted_same_cols(children_of(*old(node)), nk_mid);
        } else {
            assert(node.keys == old(node).keys);
            assert(nk_mid == children_of(*old(node)));
        }
        assert(keys_unique(nk_mid));
        assert(keys_sorted(nk_mid));
        assert forall|q: int| 0 <= q < nk_mid.len() implies node_wf((#[trigger] nk_mid[q]).1) by {}
    }

    // Merge the diff's own children, creating placeholders where needed.
    let ran_diff = diff.keys.is_some();
    if ran_diff {
        if node.keys.is_none() {
            node.keys = Some(Vec::new());
            proof {
                assert(node.keys->0@ =~= nk_mid);
            }
        }
        let ghost dks0 = old(diff).keys->0@;
        let dlen = diff.keys.as_ref().unwrap().len();
        let mut j: usize = 0;
        while j < dlen
            invariant
                j <= dlen,
                old(diff).keys matches Some(odks) && odks@ == dks0 && dks0.len() == dlen,
                keys_unique(dks0),
                forall|q: int| 0 <= q < dlen ==> node_wf(#[trigger] dks0[q].1),
                diff.keys matches Some(dks) && dks@.len() == dlen,
                diff.keys matches Some(dks) ==> (forall|q: int|
                    0 <= q < dlen ==> (#[trigger] dks@[q]).0 == dks0[q].0),
                diff.keys matches Some(dks) ==> (forall|q: int|
                    j <= q < dlen ==> #[trigger] dks@[q] == dks0[q]),
                diff.keys matches Some(dks) ==> (forall|q: int|
                    0 <= q < j ==> node_size((#[trigger] dks@[q]).1) == node_size(dks0[q].1)
                        && node_wf(dks@[q].1)),
                diff.vis == residual_vis(old(node).vis, old(diff).vis),
                diff.value == residual_value(*old(node), *old(diff)),
                diff.delegated == old(diff).delegated,
                node.vis == va,
                node.value == vala,
                node.delegated == old(node).delegated,
                node.keys matches Some(nks) && keys_unique(nks@),
                node.keys matches Some(nks) ==> keys_sorted(nks@),
                quiet == (no_active_delegation(*old(node)) && no_active_delegation(*old(diff))),
                quiet ==> externals@.len() == exts0.len(),
                quiet ==> (node.keys matches Some(nks) ==> (forall|q: int|
                    0 <= q < nks@.len() ==> no_active_delegation((#[trigger] nks@[q]).1))),
                node.keys matches Some(nks) ==> (forall|q: int|
                    0 <= q < nks@.len() ==> node_wf((#[trigger] nks@[q]).1)),
                forall|k: Seq<char>|
                    #[trigger] has_key(children_of(*node), k) ==> has_key(nk_mid, k) || has_key(
                        dks0,
                        k,
                    ),
                forall|k: Seq<char>| #[trigger] has_key(nk_mid, k) ==> has_key(
                    children_of(*node),
                    k,
                ),
                update.changed == uc,
                update.old == uo,
                update.new == un,
                update.delegated is None,
                ukeys_unique(uchildren_of(update)),
                update.keys matches Some(uks) ==> (forall|q: int|
                    0 <= q < uks@.len() ==> update_wf((#[trigger] uks@[q]).1)),
                externals@.len() >= exts0.len(),
                forall|q: int| 0 <= q < exts0.len() ==> externals@[q] == #[trigger] exts0[q],
                forall|q: int|
                    exts0.len() <= q < externals@.len() ==> (#[trigger] externals@[q]).path@.len()
                        > prefix@.len(),
                conflicts@.len() >= confs0.len(),
                forall|q: int| 0 <= q < confs0.len() ==> conflicts@[q] == #[trigger] confs0[q],
                forall|q: int|
                    confs0.len() <= q < conflicts@.len() ==> (#[trigger] conflicts@[q]).path@.len()
                        > prefix@.len(),
            decreases dlen - j,
        {
            let dkeys = diff.keys.as_mut().unwrap();
            let mut dpair = (String::new(), Node::default());
            dkeys.set_and_swap(j, &mut dpair);
            let (dk, mut dchild) = dpair;
            let mut child_prefix = prefix.clone();
            child_prefix.push(&dk);
            let ghost epre = externals@;
            let ghost cpre = conflicts@;
            let ghost nkpre = node.keys->0@;
            proof {
                assert(dchild == dks0[j as int].1);
                assert(dk == dks0[j as int].0);
                crate::node::lemma_child_size(*old(diff), j as int);
                assert(child_prefix@.len() == prefix@.len() + 1);
                assert(nkpre == children_of(*node));
                assert forall|k: Seq<char>| #[trigger] has_key(nkpre, k) implies has_key(
                    nk_mid,
                    k,
                ) || has_key(dks0, k) by {
                    assert(has_key(children_of(*node), k));
                }
                assert forall|k: Seq<char>| #[trigger] has_key(nk_mid, k) implies has_key(
                    nkpre,
                    k,
                ) by {
                    assert(has_key(nk_mid, k) ==> has_key(children_of(*node), k));
                }
            }
            let found = find_child_idx(node.keys.as_ref().unwrap(), &dk);
            match found {
                Some(i) => {
                    let nkeys = node.keys.as_mut().unwrap();
                    let mut npair = (String::new(), Node::default());
                    nkeys.set_and_swap(i, &mut npair);
                    let (nk, mut nchild) = npair;
                    proof {
                        assert(nk == nkpre[i as int].0);
                        assert(nchild == nkpre[i as int].1);
                        assert(node_wf(nchild));
                    }
                    let (cu, _cd) = merge_inner(
                        &child_prefix,
                        &mut nchild,
                        &mut dchild,
                        eff_old,
                        eff_new,
                        externals,
                        conflicts,
                    );
                    update.add_child(&dk, cu);
                    let nkeys = node.keys.as_mut().unwrap();
                    nkeys.set(i, (nk, nchild));
                    proof {
                        assert(node.keys->0@.len() == nkpre.len());
                        assert forall|q: int|
                            0 <= q < nkpre.len() implies (#[trigger] node.keys->0@[q]).0
                                == nkpre[q].0 by {}
                        assert(keys_unique(node.keys->0@)) by {
                            assert forall|a: int, b: int|
                                0 <= a < b < node.keys->0@.len() implies node.keys->0@[a].0@
                                    != node.keys->0@[b].0@ by {
                                assert(keys_unique(nkpre));
                                assert(nkpre[a].0@ != nkpre[b].0@);
                            }
                        }
                        assert(keys_sorted(nkpre));
                        crate::node::lemma_sorted_same_cols(nkpre, node.keys->0@);
                        assert forall|k: Seq<char>|
                            #[trigger] has_key(children_of(*node), k) == has_key(nkpre, k) by {
                            crate::node::lemma_has_key_same_cols(node.keys->0@, nkpre, k);
                        }
                        assert forall|k: Seq<char>|
                            #[trigger] has_key(children_of(*node), k) implies has_key(nk_mid, k)
                                || has_key(dks0, k) by {
                            assert(has_key(nkpre, k));
                        }
                        assert forall|k: Seq<char>| #[trigger] has_key(nk_mid, k) implies has_key(
                            children_of(*node),
                            k,
                        ) by {
                            assert(has_key(nk_mid, k) ==> has_key(nkpre, k));
                        }
                    }
                },
                None => {
                    let mut fresh = Node::default();
                    let (cu, _cd) = merge_inner(
                        &child_prefix,
                        &mut fresh,
                        &mut dchild,
                        eff_old,
                        eff_new,
                        externals,
                        conflicts,
                    );
                    update.add_child(&dk, cu);
                    if !fresh.is_noop() {
                        let dk2 = dk.clone();
                        let nkeys = node.keys.as_mut().unwrap();
                        proof {
                            assert(dk2 == dk);
                            assert(!has_key(nkpre, dk@));
                        }
                        insert_child_sorted(nkeys, dk2, fresh);
                        proof {
                            let s1 = node.keys->0@;
                            assert(keys_unique(s1));
                            assert(keys_sorted(s1));
                            assert forall|k: Seq<char>|
                                #[trigger] has_key(children_of(*node), k) implies has_key(
                                nkpre,
                                k,
                            ) || has_key(dks0, k) by {
                                if k == dk@ {
                                    assert(dks0[j as int].0@ == k);
                                }
                            }
                            assert forall|k: Seq<char>| #[trigger] has_key(nkpre, k) implies has_key(
                                children_of(*node),
                                k,
                            ) by {}
                            assert forall|q: int|
                                0 <= q < s1.len() implies node_wf((#[trigger] s1[q]).1) by {
                                if s1[q] == (dk2, fresh) {
                                } else {
                                    assert(has_key(nkpre, s1[q].0@));
                                    let w1 = key_at(s1, s1[q].0@);
                                    assert(has_key(s1, s1[q].0@));
                                    assert(0 <= w1 < s1.len() && s1[w1].0@ == s1[q].0@);
                                    if w1 != q {
                                        assert(s1[w1].0@ != s1[q].0@);
                                        assert(false);
                                    }
                                    let w0 = key_at(nkpre, s1[q].0@);
                                    assert(0 <= w0 < nkpre.len() && nkpre[w0].0@ == s1[q].0@);
                                    assert(s1[q] == nkpre[w0]);
                                    assert(node_wf(nkpre[w0].1));
                                }
                            }
                            assert forall|k: Seq<char>|
                                #[trigger] has_key(children_of(*node), k) implies has_key(
                                nk_mid,
                                k,
                            ) || has_key(dks0, k) by {
                                assert(has_key(children_of(*node), k) ==> has_key(nkpre, k)
                                    || has_key(dks0, k));
                            }
                            assert forall|k: Seq<char>|
                                #[trigger] has_key(nk_mid, k) implies has_key(
                                children_of(*node),
                                k,
                            ) by {
                                assert(has_key(nk_mid, k) ==> has_key(nkpre, k));
                            }
                        }
                    }
                },
            }
            proof {
                assert forall|q: int|
                    exts0.len() <= q < externals@.len() implies (#[trigger] externals@[q]).path@.len()
                        > prefix@.len() by {
                    if q < epre.len() {
                        assert(externals@[q] == epre[q]);
                    } else {
                        assert(externals@[q].path@.len() >= child_prefix@.len());
                    }
                }
                assert forall|q: int|
                    confs0.len() <= q < conflicts@.len() implies (#[trigger] conflicts@[q]).path@.len()
                        > prefix@.len() by {
                    if q < cpre.len() {
                        assert(conflicts@[q] == cpre[q]);
                    } else {
                        assert(conflicts@[q].path@.len() >= child_prefix@.len());
                    }
                }
                assert forall|q: int|
                    0 <= q < uchildren_of(update).len() implies update_wf(
                        (#[trigger] uchildren_of(update)[q]).1,
                    ) by {}
            }
            let dkeys = diff.keys.as_mut().unwrap();
            dkeys.set(j, (dk, dchild));
            j = j + 1;
        }
        proof {
            crate::node::lemma_keys_size_congruence(diff.keys->0@, dks0);
            assert(node_size(*diff) == 1 + keys_size(diff.keys->0@));
            assert(node_size(*old(diff)) == 1 + keys_size(dks0));
            assert(dks0 == children_of(*old(diff)));
            assert forall|k: Seq<char>|
                #[trigger] has_key(children_of(*node), k) implies has_key(
                children_of(*old(node)),
                k,
            ) || has_key(children_of(*old(diff)), k) by {
                assert(has_key(children_of(*node), k) ==> has_key(nk_mid, k) || has_key(dks0, k));
                assert(has_key(nk_mid, k) == has_key(children_of(*old(node)), k));
            }
            assert forall|k: Seq<char>|
                #[trigger] has_key(children_of(*old(node)), k) implies has_key(
                children_of(*node),
                k,
            ) by {
                assert(has_key(nk_mid, k) == has_key(children_of(*old(node)), k));
                assert(has_key(nk_mid, k) ==> has_key(children_of(*node), k));
            }
        }
    }
    proof {
        if !ran_diff {
            assert(diff.keys == old(diff).keys);
            crate::node::lemma_node_size_keys(*diff, *old(diff));
            assert(children_of(*node) == nk_mid);
            assert forall|k: Seq<char>|
                #[trigger] has_key(children_of(*node), k) implies has_key(
                children_of(*old(node)),
                k,
            ) || has_key(children_of(*old(diff)), k) by {
                assert(has_key(nk_mid, k) == has_key(children_of(*old(node)), k));
            }
            assert forall|k: Seq<char>|
                #[trigger] has_key(children_of(*old(node)), k) implies has_key(
                children_of(*node),
                k,
            ) by {
                assert(has_key(nk_mid, k) == has_key(children_of(*old(node)), k));
            }
        }
        assert(node_size(*diff) == node_size(*old(diff)));
    }
    let ghost nk_fin = children_of(*node);
    proof {
        assert forall|k: Seq<char>| #[trigger] has_key(nk_fin, k) implies has_key(
            children_of(*old(node)),
            k,
        ) || has_key(children_of(*old(diff)), k) by {}
        assert forall|k: Seq<char>| #[trigger] has_key(children_of(*old(node)), k) implies has_key(
            nk_fin,
            k,
        ) by {}
    }

    // Merge the delegation state: a strictly newer version wins, and a flip
    // of the active flag on a non-root node is reported.
    let mut initial_delegation = false;
    if diff.delegated.version > node.delegated.version {
        if !at_root && diff.delegated.active != node.delegated.active {
            update.delegated = Some(diff.delegated.active);
            initial_delegation = diff.delegated.active;
        }
        node.delegated = diff.delegated;
    } else {
        diff.delegated = Delegated::none();
    }

    // A non-root node that is actively delegated and carries payload hands its
    // data off to the owning zone.
    let ghost mut detached: bool = false;
    if !at_root && node.delegated.active && (node.keys.is_some() || !node.value.is_null()
        || initial_delegation) {
        let tree_node = node.delegated();
        proof {
            assert(children_of(tree_node) == nk_fin);
        }
        let external = External {
            path: prefix.clone(),
            tree: NodeTree { node: tree_node, vis: eff_new },
            initial: initial_delegation,
        };
        externals.push(external);
        proof {
            detached = true;
        }
        if !initial_delegation {
            update.changed = false;
            update.old = None;
            update.new = None;
            update.keys = None;
        }
    }

    proof {
        if !detached {
            assert(children_of(*node) == nk_fin);
        }
        assert forall|i: int| 0 <= i < old(conflicts)@.len() implies conflicts@[i] == old(
            conflicts,
        )@[i] by {
            assert(conflicts@[i] == confs0[i]);
        }
        assert forall|i: int| 0 <= i < old(externals)@.len() implies externals@[i] == old(
            externals,
        )@[i] by {
            assert(externals@[i] == exts0[i]);
        }
        assert forall|i: int|
            old(conflicts)@.len() <= i < conflicts@.len() implies (#[trigger] conflicts@[i]).path@.len()
                >= prefix@.len() by {
            if i < confs0.len() {
                assert(conflicts@[i] == confs0[i]);
            }
        }
        if spec_conflict(*old(node), *old(diff)) {
            assert(conflicts@[old(conflicts)@.len() as int] == confs0[old(conflicts)@.len() as int]);
        }
    }

    if update.is_noop() {
        (None, Ghost(detached))
    } else {
        (Some(update), Ghost(detached))
    }
}

impl Node {
    /// Merges `diff` into this zone-root node under the ancestor windows
    /// `vis_old` (before) and `vis_new` (after), which the caller has already
    /// de-conflicted. Returns the observable change, the detached subtrees to
    /// hand off to their owning zones, and the value conflicts resolved on
    /// the way. The diff is reduced to the claims that were actually adopted,
    /// so that replaying it changes nothing further.
    pub fn merge(&mut self, diff: &mut Node, vis_old: Vis, vis_new: Vis) -> (r: (
        Option<Update>,
        Vec<External>,
        Vec<Conflict>,
    ))
        requires
            node_wf(*old(self)),
            node_wf(*old(diff)),
        ensures
            node_wf(*final(self)),
            node_wf(*final(diff)),
            final(self).vis == spec_vis_merge(old(self).vis, old(diff).vis),
            final(self).value == merged_value(*old(self), *old(diff)),
            final(self).delegated == merged_delegated(old(self).delegated, old(diff).delegated),
            final(diff).vis == residual_vis(old(self).vis, old(diff).vis),
            final(diff).value == residual_value(*old(self), *old(diff)),
            final(diff).delegated == residual_delegated(old(self).delegated, old(diff).delegated),
            forall|k: Seq<char>|
                #[trigger] has_key(children_of(*final(self)), k) ==> has_key(
                    children_of(*old(self)),
                    k,
                ) || has_key(children_of(*old(diff)), k),
            forall|k: Seq<char>|
                #[trigger] has_key(children_of(*old(self)), k) ==> has_key(
                    children_of(*final(self)),
                    k,
                ),
            old(self).keys is None && old(diff).keys is None ==> final(self).keys is None,
            match r.0 {
                None => !spec_changed(vis_old, vis_new, *old(self), *old(diff)),
                Some(u) => {
                    &&& u.changed == spec_changed(vis_old, vis_new, *old(self), *old(diff))
                    &&& u.old == spec_old_val(vis_old, vis_new, *old(self), *old(diff))
                    &&& u.new == spec_new_val(vis_old, vis_new, *old(self), *old(diff))
                    &&& u.delegated is None
                    &&& update_wf(u)
                    &&& (old(self).keys is None && old(diff).keys is None ==> u.keys is None)
                },
            },
            no_active_delegation(*old(self)) && no_active_delegation(*old(diff))
                ==> r.1@.len() == 0 && no_active_delegation(*final(self)),
            forall|i: int| 0 <= i < r.1@.len() ==> (#[trigger] r.1@[i]).path@.len() > 0,
            spec_conflict(*old(self), *old(diff)) ==> r.2@.len() >= 1 && r.2@[0].path@.len() == 0
                && r.2@[0].existing == old(self).value && r.2@[0].incoming == old(diff).value
                && r.2@[0].timestamp == old(diff).vis.updated,
            !spec_conflict(*old(self), *old(diff)) ==> forall|i: int|
                0 <= i < r.2@.len() ==> (#[trigger] r.2@[i]).path@.len() > 0,
    {
        let mut externals: Vec<External> = Vec::new();
        let mut conflicts: Vec<Conflict> = Vec::new();
        let prefix = Path::empty();
        let (u, _detached) = merge_inner(
            &prefix,
            self,
            diff,
            vis_old,
            vis_new,
            &mut externals,
            &mut conflicts,
        );
        (u, externals, conflicts)
    }
}

impl NodeTree {
    /// Merges two trees at a zone boundary: first de-conflicts the incoming
    /// ancestor visibility against the stored one, then merges the nodes
    /// under the windows before and after, and finally stores the new
    /// ancestor visibility.
    pub fn merge(&mut self, diff: &mut NodeTree) -> (r: (
        Option<Update>,
        Vec<External>,
        Vec<Conflict>,
    ))
        requires
            node_wf(old(self).node),
            node_wf(old(diff).node),
        ensures
            node_wf(final(self).node),
            node_wf(final(diff).node),
            final(self).vis == spec_vis_merge(old(diff).vis, old(self).vis),
            final(diff).vis == spec_vis_merge(old(diff).vis, old(self).vis),
            final(self).node.vis == spec_vis_merge(old(self).node.vis, old(diff).node.vis),
            final(self).node.value == merged_value(old(self).node, old(diff).node),
            final(self).node.delegated == merged_delegated(
                old(self).node.delegated,
                old(diff).node.delegated,
            ),
            match r.0 {
                None => !spec_changed(
                    old(self).vis,
                    spec_vis_merge(old(diff).vis, old(self).vis),
                    old(self).node,
                    old(diff).node,
                ),
                Some(u) => {
                    &&& u.changed == spec_changed(
                        old(self).vis,
                        spec_vis_merge(old(diff).vis, old(self).vis),
                        old(self).node,
                        old(diff).node,
                    )
                    &&& u.old == spec_old_val(
                        old(self).vis,
                        spec_vis_merge(old(diff).vis, old(self).vis),
                        old(self).node,
                        old(diff).node,
                    )
                    &&& u.new == spec_new_val(
                        old(self).vis,
                        spec_vis_merge(old(diff).vis, old(self).vis),
                        old(self).node,
                        old(diff).node,
                    )
                    &&& u.delegated is None
                    &&& update_wf(u)
                },
            },
            no_active_delegation(old(self).node) && no_active_delegation(old(diff).node)
                ==> r.1@.len() == 0 && no_active_delegation(final(self).node),
            forall|i: int| 0 <= i < r.1@.len() ==> (#[trigger] r.1@[i]).path@.len() > 0,
    {
        diff.vis.merge(&self.vis);
        let r = self.node.merge(&mut diff.node, self.vis, diff.vis);
        self.vis = diff.vis;
        r
    }
}

} // verus!
