//! The read algorithm: resolves a wildcard path query against the currently
//! visible state, discovering delegation boundaries on the way.

use vstd::prelude::*;

use crate::node::{
    children_of, find_child_idx, has_key, key_at, no_active_delegation, node_size, node_wf, Node,
    NodeTree,
};
use crate::path::Path;
use crate::update::{
    uchildren_of, uhas_key, ukey_at, ukeys_unique, update_is_noop, update_wf, Update,
};
use crate::vis::{spec_descend, vis_visible, Vis};

verus! {

/// Cross-zone read handoff: the unconsumed remainder of a query pattern that
/// must be re-issued against the zone owning `path`.
#[derive(Debug)]
pub struct DelegatedMatch {
    /// Path to the delegation boundary.
    pub path: Path,
    /// The remainder of the query pattern.
    pub match_spec: Path,
}

/// Whether a read at depth `depth` with the pattern cursor at `pos` reads the
/// node's own value: the pattern is fully consumed, or the active segment
/// keeps matching at every deeper level.
pub open spec fn spec_read_self(depth: nat, pattern: Seq<Seq<char>>, pos: int) -> bool {
    depth >= pattern.len() || (0 <= pos < pattern.len() && pattern[pos] == "*#"@)
}

/// Whether a read stops at this node because its subtree is owned elsewhere.
pub open spec fn spec_read_delegated(depth: nat, node: Node) -> bool {
    depth > 0 && node.delegated.active
}

/// Whether a child reached with its cursor at `cpos` reports its own value:
/// it is not owned elsewhere, the pattern keeps matching at its depth, and it
/// is effectively visible under the window `eff` descended to its parent.
pub open spec fn spec_child_hit(
    depth: nat,
    pattern: Seq<Seq<char>>,
    cpos: int,
    eff: Vis,
    c: Node,
) -> bool {
    &&& !c.delegated.active
    &&& spec_read_self(depth, pattern, cpos)
    &&& vis_visible(spec_descend(eff, c.vis))
}

/// The update holds an entry for child key `ck` that reports the child's
/// value as currently visible.
pub open spec fn spec_child_entry(u: Update, ck: Seq<char>, c: Node) -> bool {
    &&& uhas_key(uchildren_of(u), ck)
    &&& uchildren_of(u)[ukey_at(uchildren_of(u), ck)].1.changed == true
    &&& uchildren_of(u)[ukey_at(uchildren_of(u), ck)].1.new == Some(c.value)
}

/// The remainder of a pattern from `pos` on.
pub open spec fn spec_rest(pattern: Seq<Seq<char>>, pos: int) -> Seq<Seq<char>> {
    if 0 <= pos <= pattern.len() {
        pattern.skip(pos)
    } else {
        Seq::empty()
    }
}

/// Internal recursive read. `prefix` is the path from the zone root to
/// `node`; `pos` is the cursor into `pattern`.
fn read_inner(
    prefix: &Path,
    node: &Node,
    vis: Vis,
    pattern: &Path,
    pos: usize,
    externals: &mut Vec<DelegatedMatch>,
) -> (r: Option<Update>)
    requires
        node_wf(*node),
    ensures
        r matches Some(u) ==> update_wf(u),
        r matches Some(u) ==> !update_is_noop(u) || u.delegated == Some(true),
        no_active_delegation(*node) ==> final(externals)@.len() == old(externals)@.len(),
        final(externals)@.len() >= old(externals)@.len(),
        forall|i: int|
            0 <= i < old(externals)@.len() ==> final(externals)@[i] == #[trigger] old(externals)@[i],
        forall|i: int|
            old(externals)@.len() <= i < final(externals)@.len() ==> (#[trigger] final(externals)@[i]).path@.len() >= prefix@.len(),
        spec_read_delegated(prefix@.len(), *node) ==> {
            &&& final(externals)@.len() == old(externals)@.len() + 1
            &&& final(externals)@.last().path@ == prefix@
            &&& final(externals)@.last().match_spec@ == spec_rest(pattern@, pos as int)
            &&& r matches Some(u) && u.changed == false && u.old is None && u.new is None
                && u.keys is None && u.delegated == Some(true)
        },
        !spec_read_delegated(prefix@.len(), *node) ==> {
            &&& (forall|i: int|
                old(externals)@.len() <= i < final(externals)@.len() ==> (#[trigger] final(externals)@[i]).path@.len() > prefix@.len())
            &&& (node.keys is Some && 0 <= pos < pattern@.len() && pattern@[pos as int] == "*"@
                ==> (forall|ci: int|
                0 <= ci < children_of(*node).len() && spec_child_hit(
                    prefix@.len() + 1,
                    pattern@,
                    pos + 1,
                    spec_descend(vis, node.vis),
                    (#[trigger] children_of(*node)[ci]).1,
                ) ==> r is Some && spec_child_entry(
                    r->0,
                    children_of(*node)[ci].0@,
                    children_of(*node)[ci].1,
                )))
            &&& (node.keys is Some && 0 <= pos < pattern@.len() && pattern@[pos as int] == "*#"@
                ==> (forall|ci: int|
                0 <= ci < children_of(*node).len() && spec_child_hit(
                    prefix@.len() + 1,
                    pattern@,
                    pos as int,
                    spec_descend(vis, node.vis),
                    (#[trigger] children_of(*node)[ci]).1,
                ) ==> r is Some && spec_child_entry(
                    r->0,
                    children_of(*node)[ci].0@,
                    children_of(*node)[ci].1,
                )))
            &&& (node.keys is Some && 0 <= pos < pattern@.len() && pattern@[pos as int] != "*"@
                && pattern@[pos as int] != "**"@ && pattern@[pos as int] != "*#"@ && has_key(
                children_of(*node),
                pattern@[pos as int],
            ) && spec_child_hit(
                prefix@.len() + 1,
                pattern@,
                pos + 1,
                spec_descend(vis, node.vis),
                children_of(*node)[key_at(children_of(*node), pattern@[pos as int])].1,
            ) ==> r is Some && spec_child_entry(
                r->0,
                pattern@[pos as int],
                children_of(*node)[key_at(children_of(*node), pattern@[pos as int])].1,
            ))
            &&& (match r {
                None => !(spec_read_self(prefix@.len(), pattern@, pos as int) && vis_visible(
                    spec_descend(vis, node.vis),
                )),
                Some(u) => {
                    &&& u.changed == (spec_read_self(prefix@.len(), pattern@, pos as int)
                        && vis_visible(spec_descend(vis, node.vis)))
                    &&& u.new == (if u.changed {
                        Some(node.value)
                    } else {
                        None
                    })
                    &&& u.old is None
                    &&& u.delegated is None
                    &&& (node.keys is None ==> u.keys is None)
                },
            })
        },
    decreases node_size(*node),
{
    let mut eff = vis;
    eff.descend(&node.vis);

    // A non-root node owned by another zone is not read here: the pattern
    // remainder is handed off instead.
    if prefix.len() > 0 && node.delegated.active {
        let delegated = DelegatedMatch { path: prefix.clone(), match_spec: pattern.slice(pos) };
        externals.push(delegated);
        let mut u = Update::default();
        u.delegated = Some(true);
        return Some(u);
    }
    let mut update = Update::default();
    let mut read_self = prefix.len() >= pattern.len();
    let ghost exts0 = externals@;

    if pos < pattern.len() {
        let seg_all: String = "*".to_owned();
        let seg_deep: String = "**".to_owned();
        let seg_deep_self: String = "*#".to_owned();
        let part: &String = &pattern.segs[pos];
        proof {
            crate::path::lemma_segs_view(pattern.segs);
            assert(pattern@[pos as int] == part@);
            reveal_strlit("*");
            reveal_strlit("**");
            reveal_strlit("*#");
            assert("*"@.len() == 1 && "**"@.len() == 2 && "*#"@.len() == 2);
            assert("**"@[1] == '*' && "*#"@[1] == '#');
            assert("*"@ != "*#"@ && "**"@ != "*#"@);
        }
        match &node.keys {
            Some(node_keys) => {
                if part.eq(&seg_all) {
                    let next_pos = pos + 1;
                    let ghost ks0 = node_keys@;
                    let mut i: usize = 0;
                    while i < node_keys.len()
                        invariant
                            node_wf(*node),
                            node.keys matches Some(ks) && ks == node_keys,
                            pos < pattern@.len(),
                            i <= node_keys@.len(),
                            eff == spec_descend(vis, node.vis),
                            next_pos == pos + 1,
                            forall|q: int|
                                0 <= q < uchildren_of(update).len() ==> (exists|w: int|
                                    0 <= w < i && (#[trigger] uchildren_of(update)[q]).0@
                                        == ks0[w].0@),
                            forall|ci: int|
                                0 <= ci < i && spec_child_hit(
                                    prefix@.len() + 1,
                                    pattern@,
                                    pos + 1,
                                    eff,
                                    (#[trigger] ks0[ci]).1,
                                ) ==> spec_child_entry(update, ks0[ci].0@, ks0[ci].1),
                            ks0 == node_keys@,

                            update.changed == false,
                            update.old is None,
                            update.new is None,
                            update.delegated is None,
                            ukeys_unique(uchildren_of(update)),
                            update.keys matches Some(uks) ==> (forall|q: int|
                                0 <= q < uks@.len() ==> update_wf((#[trigger] uks@[q]).1)),
                            no_active_delegation(*node) ==> externals@.len() == exts0.len(),
                            externals@.len() >= exts0.len(),
                            forall|q: int|
                                0 <= q < exts0.len() ==> externals@[q] == #[trigger] exts0[q],
                            forall|q: int|
                                exts0.len() <= q < externals@.len() ==> (#[trigger] externals@[q]).path@.len()
                                    > prefix@.len(),
                        decreases node_keys@.len() - i,
                    {
                        let ck = node_keys[i].0.clone();
                        let mut child_prefix = prefix.clone();
                        child_prefix.push(&ck);
                        let ghost epre = externals@;
                        proof {
                            crate::node::lemma_child_size(*node, i as int);
                        }
                        let cu = read_inner(
                            &child_prefix,
                            &node_keys[i].1,
                            eff,
                            pattern,
                            next_pos,
                            externals,
                        );
                        proof {
                            assert forall|q: int|
                                exts0.len() <= q < externals@.len() implies (
                            #[trigger] externals@[q]).path@.len() > prefix@.len() by {
                                if q < epre.len() {
                                    assert(externals@[q] == epre[q]);
                                } else {
                                    assert(externals@[q].path@.len() >= child_prefix@.len());
                                }
                            }
                        }
                        let ghost uc0 = uchildren_of(update);
                        let ghost cug = cu;
                        update.add_child(&ck, cu);
                        proof {
                            assert(ck == ks0[i as int].0);
                            if uhas_key(uc0, ck@) {
                                let q = choose|q: int|
                                    0 <= q < uc0.len() && uc0[q].0@ == ck@;
                                let w = choose|w: int| 0 <= w < i && uc0[q].0@ == ks0[w].0@;
                                assert(ks0[w].0@ == ks0[i as int].0@);
                                assert(false);
                            }
                            match cug {
                                None => {
                                    if spec_child_hit(
                                        prefix@.len() + 1,
                                        pattern@,
                                        pos + 1,
                                        eff,
                                        ks0[i as int].1,
                                    ) {
                                        assert(child_prefix@.len() == prefix@.len() + 1);
                                        assert(false);
                                    }
                                },
                                Some(c) => {
                                    crate::update::lemma_upush_lookup(uc0, (ck, c));
                                    assert forall|ci: int|
                                        0 <= ci < i + 1 && spec_child_hit(
                                            prefix@.len() + 1,
                                            pattern@,
                                            pos + 1,
                                            eff,
                                            (#[trigger] ks0[ci]).1,
                                        ) implies spec_child_entry(
                                        update,
                                        ks0[ci].0@,
                                        ks0[ci].1,
                                    ) by {
                                        if ci == i as int {
                                            assert(child_prefix@.len() == prefix@.len() + 1);
                                            assert(c.changed == true && c.new == Some(
                                                ks0[i as int].1.value,
                                            ));
                                        } else {
                                            assert(ks0[ci].0@ != ck@);
                                            assert(uhas_key(uc0, ks0[ci].0@));
                                        }
                                    }
                                    assert forall|q: int|
                                        0 <= q < uchildren_of(update).len() implies (exists|w: int|
                                            0 <= w < i + 1 && (#[trigger] uchildren_of(update)[q]).0@
                                                == ks0[w].0@) by {
                                        if q < uc0.len() {
                                            assert(uchildren_of(update)[q] == uc0[q]);
                                        } else {
                                            assert(uchildren_of(update)[q].0 == ck);
                                            assert(uchildren_of(update)[q].0@ == ks0[i as int].0@);
                                        }
                                    }
                                },
                            }
                        }
                        i = i + 1;
                    }
                } else if part.eq(&seg_deep) {
                    let mut deep_segs: Vec<String> = Vec::new();
                    deep_segs.push("*#".to_owned());
                    let deep_pattern = Path::new(deep_segs);
                    let mut i: usize = 0;
                    while i < node_keys.len()
                        invariant
                            node_wf(*node),
                            node.keys matches Some(ks) && ks == node_keys,
                            deep_pattern@.len() == 1 && deep_pattern@[0] == "*#"@,
                            i <= node_keys@.len(),
                            update.changed == false,
                            update.old is None,
                            update.new is None,
                            update.delegated is None,
                            ukeys_unique(uchildren_of(update)),
                            update.keys matches Some(uks) ==> (forall|q: int|
                                0 <= q < uks@.len() ==> update_wf((#[trigger] uks@[q]).1)),
                            no_active_delegation(*node) ==> externals@.len() == exts0.len(),
                            externals@.len() >= exts0.len(),
                            forall|q: int|
                                0 <= q < exts0.len() ==> externals@[q] == #[trigger] exts0[q],
                            forall|q: int|
                                exts0.len() <= q < externals@.len() ==> (#[trigger] externals@[q]).path@.len()
                                    > prefix@.len(),
                        decreases node_keys@.len() - i,
                    {
                        let ck = node_keys[i].0.clone();
                        let mut child_prefix = prefix.clone();
                        child_prefix.push(&ck);
                        let ghost epre = externals@;
                        proof {
                            crate::node::lemma_child_size(*node, i as int);
                        }
                        let cu = read_inner(
                            &child_prefix,
                            &node_keys[i].1,
                            eff,
                            &deep_pattern,
                            0,
                            externals,
                        );
                        proof {
                            assert forall|q: int|
                                exts0.len() <= q < externals@.len() implies (
                            #[trigger] externals@[q]).path@.len() > prefix@.len() by {
                                if q < epre.len() {
                                    assert(externals@[q] == epre[q]);
                                } else {
                                    assert(externals@[q].path@.len() >= child_prefix@.len());
                                }
                            }
                        }
                        update.add_child(&ck, cu);
                        i = i + 1;
                    }
                } else if part.eq(&seg_deep_self) {
                    read_self = true;
                    let ghost ks0 = node_keys@;
                    let mut i: usize = 0;
                    while i < node_keys.len()
                        invariant
                            node_wf(*node),
                            node.keys matches Some(ks) && ks == node_keys,
                            i <= node_keys@.len(),
                            eff == spec_descend(vis, node.vis),
                            pos < pattern@.len(),
                            pattern@[pos as int] == "*#"@,
                            forall|q: int|
                                0 <= q < uchildren_of(update).len() ==> (exists|w: int|
                                    0 <= w < i && (#[trigger] uchildren_of(update)[q]).0@
                                        == ks0[w].0@),
                            forall|ci: int|
                                0 <= ci < i && spec_child_hit(
                                    prefix@.len() + 1,
                                    pattern@,
                                    pos as int,
                                    eff,
                                    (#[trigger] ks0[ci]).1,
                                ) ==> spec_child_entry(update, ks0[ci].0@, ks0[ci].1),
                            ks0 == node_keys@,

                            update.changed == false,
                            update.old is None,
                            update.new is None,
                            update.delegated is None,
                            ukeys_unique(uchildren_of(update)),
                            update.keys matches Some(uks) ==> (forall|q: int|
                                0 <= q < uks@.len() ==> update_wf((#[trigger] uks@[q]).1)),
                            no_active_delegation(*node) ==> externals@.len() == exts0.len(),
                            externals@.len() >= exts0.len(),
                            forall|q: int|
                                0 <= q < exts0.len() ==> externals@[q] == #[trigger] exts0[q],
                            forall|q: int|
                                exts0.len() <= q < externals@.len() ==> (#[trigger] externals@[q]).path@.len()
                                    > prefix@.len(),
                        decreases node_keys@.len() - i,
                    {
                        let ck = node_keys[i].0.clone();
                        let mut child_prefix = prefix.clone();
                        child_prefix.push(&ck);
                        let ghost epre = externals@;
                        proof {
                            crate::node::lemma_child_size(*node, i as int);
                        }
                        let cu = read_inner(
                            &child_prefix,
                            &node_keys[i].1,
                            eff,
                            pattern,
                            pos,
                            externals,
                        );
                        proof {
                            assert forall|q: int|
                                exts0.len() <= q < externals@.len() implies (
                            #[trigger] externals@[q]).path@.len() > prefix@.len() by {
                                if q < epre.len() {
                                    assert(externals@[q] == epre[q]);
                                } else {
                                    assert(externals@[q].path@.len() >= child_prefix@.len());
                                }
                            }
                        }
                        let ghost uc0 = uchildren_of(update);
                        let ghost cug = cu;
                        update.add_child(&ck, cu);
                        proof {
                            assert(ck == ks0[i as int].0);
                            if uhas_key(uc0, ck@) {
                                let q = choose|q: int|
                                    0 <= q < uc0.len() && uc0[q].0@ == ck@;
                                let w = choose|w: int| 0 <= w < i && uc0[q].0@ == ks0[w].0@;
                                assert(ks0[w].0@ == ks0[i as int].0@);
                                assert(false);
                            }
                            match cug {
                                None => {
                                    if spec_child_hit(
                                        prefix@.len() + 1,
                                        pattern@,
                                        pos as int,
                                        eff,
                                        ks0[i as int].1,
                                    ) {
                                        assert(child_prefix@.len() == prefix@.len() + 1);
                                        assert(false);
                                    }
                                },
                                Some(c) => {
                                    crate::update::lemma_upush_lookup(uc0, (ck, c));
                                    assert forall|ci: int|
                                        0 <= ci < i + 1 && spec_child_hit(
                                            prefix@.len() + 1,
                                            pattern@,
                                            pos as int,
                                            eff,
                                            (#[trigger] ks0[ci]).1,
                                        ) implies spec_child_entry(
                                        update,
                                        ks0[ci].0@,
                                        ks0[ci].1,
                                    ) by {
                                        if ci == i as int {
                                            assert(child_prefix@.len() == prefix@.len() + 1);
                                            assert(c.changed == true && c.new == Some(
                                                ks0[i as int].1.value,
                                            ));
                                        } else {
                                            assert(ks0[ci].0@ != ck@);
                                            assert(uhas_key(uc0, ks0[ci].0@));
                                        }
                                    }
                                    assert forall|q: int|
                                        0 <= q < uchildren_of(update).len() implies (exists|w: int|
                                            0 <= w < i + 1 && (#[trigger] uchildren_of(update)[q]).0@
                                                == ks0[w].0@) by {
                                        if q < uc0.len() {
                                            assert(uchildren_of(update)[q] == uc0[q]);
                                        } else {
                                            assert(uchildren_of(update)[q].0 == ck);
                                            assert(uchildren_of(update)[q].0@ == ks0[i as int].0@);
                                        }
                                    }
                                },
                            }
                        }
                        i = i + 1;
                    }
                } else {
                    match find_child_idx(node_keys, part) {
                        Some(i) => {
                            let ck = node_keys[i].0.clone();
                            let mut child_prefix = prefix.clone();
                            child_prefix.push(&ck);
                            let ghost epre = externals@;
                            proof {
                                crate::node::lemma_child_size(*node, i as int);
                            }
                            let cu = read_inner(
                                &child_prefix,
                                &node_keys[i].1,
                                eff,
                                pattern,
                                pos + 1,
                                externals,
                            );
                            proof {
                                assert forall|q: int|
                                    exts0.len() <= q < externals@.len() implies (
                                #[trigger] externals@[q]).path@.len() > prefix@.len() by {
                                    if q < epre.len() {
                                        assert(externals@[q] == epre[q]);
                                    } else {
                                        assert(externals@[q].path@.len() >= child_prefix@.len());
                                    }
                                }
                            }
                            let ghost uc0 = uchildren_of(update);
                            let ghost cug = cu;
                            update.add_child(&ck, cu);
                            proof {
                                let ghost nks = node_keys@;
                                assert(ck == nks[i as int].0);
                                assert(ck@ == pattern@[pos as int]);
                                assert(has_key(nks, pattern@[pos as int]));
                                let w = key_at(nks, pattern@[pos as int]);
                                assert(0 <= w < nks.len() && nks[w].0@ == pattern@[pos as int]);
                                if w != i as int {
                                    assert(nks[w].0@ != nks[i as int].0@);
                                    assert(false);
                                }
                                assert(uc0.len() == 0);
                                match cug {
                                    None => {
                                        if spec_child_hit(
                                            prefix@.len() + 1,
                                            pattern@,
                                            pos + 1,
                                            eff,
                                            nks[i as int].1,
                                        ) {
                                            assert(child_prefix@.len() == prefix@.len() + 1);
                                            assert(false);
                                        }
                                    },
                                    Some(c) => {
                                        crate::update::lemma_upush_lookup(uc0, (ck, c));
                                        if spec_child_hit(
                                            prefix@.len() + 1,
                                            pattern@,
                                            pos + 1,
                                            eff,
                                            nks[i as int].1,
                                        ) {
                                            assert(child_prefix@.len() == prefix@.len() + 1);
                                            assert(c.changed == true && c.new == Some(
                                                nks[i as int].1.value,
                                            ));
                                            assert(spec_child_entry(
                                                update,
                                                pattern@[pos as int],
                                                nks[i as int].1,
                                            ));
                                        }
                                    },
                                }
                            }
                        },
                        None => {},
                    }
                }
            },
            None => {
                if part.eq(&seg_deep_self) {
                    read_self = true;
                }
            },
        }
    }

    if read_self {
        if eff.is_visible() {
            update.changed = true;
            update.new = Some(node.value.clone());
        }
    }

    if update.is_noop() {
        None
    } else {
        Some(update)
    }
}

impl Node {
    /// Resolves the pattern `path` against this zone-root node under ancestor
    /// visibility `vis`, returning the visible data and the handoffs for
    /// subtrees owned elsewhere.
    pub fn read(&self, vis: Vis, path: &Path) -> (r: (Option<Update>, Vec<DelegatedMatch>))
        requires
            node_wf(*self),
        ensures
            r.0 matches Some(u) ==> update_wf(u),
            r.0 matches Some(u) ==> !update_is_noop(u) || u.delegated == Some(true),
            no_active_delegation(*self) ==> r.1@.len() == 0,
            self.keys is Some && 0 < path@.len() && path@[0] == "*"@ ==> (forall|ci: int|
                0 <= ci < children_of(*self).len() && spec_child_hit(
                    1,
                    path@,
                    1,
                    spec_descend(vis, self.vis),
                    (#[trigger] children_of(*self)[ci]).1,
                ) ==> r.0 is Some && spec_child_entry(
                    r.0->0,
                    children_of(*self)[ci].0@,
                    children_of(*self)[ci].1,
                )),
            self.keys is Some && 0 < path@.len() && path@[0] == "*#"@ ==> (forall|ci: int|
                0 <= ci < children_of(*self).len() && spec_child_hit(
                    1,
                    path@,
                    0,
                    spec_descend(vis, self.vis),
                    (#[trigger] children_of(*self)[ci]).1,
                ) ==> r.0 is Some && spec_child_entry(
                    r.0->0,
                    children_of(*self)[ci].0@,
                    children_of(*self)[ci].1,
                )),
            self.keys is Some && 0 < path@.len() && path@[0] != "*"@ && path@[0] != "**"@
                && path@[0] != "*#"@ && has_key(children_of(*self), path@[0]) && spec_child_hit(
                1,
                path@,
                1,
                spec_descend(vis, self.vis),
                children_of(*self)[key_at(children_of(*self), path@[0])].1,
            ) ==> r.0 is Some && spec_child_entry(
                r.0->0,
                path@[0],
                children_of(*self)[key_at(children_of(*self), path@[0])].1,
            ),
            match r.0 {
                None => !(spec_read_self(0, path@, 0) && vis_visible(spec_descend(vis, self.vis))),
                Some(u) => {
                    &&& u.changed == (spec_read_self(0, path@, 0) && vis_visible(
                        spec_descend(vis, self.vis),
                    ))
                    &&& u.new == (if u.changed {
                        Some(self.value)
                    } else {
                        None
                    })
                    &&& u.old is None
                    &&& u.delegated is None
                    &&& (self.keys is None ==> u.keys is None)
                },
            },
            forall|i: int| 0 <= i < r.1@.len() ==> (#[trigger] r.1@[i]).path@.len() > 0,
    {
        let mut externals: Vec<DelegatedMatch> = Vec::new();
        let prefix = Path::empty();
        let u = read_inner(&prefix, self, vis, path, 0, &mut externals);
        (u, externals)
    }
}

impl NodeTree {
    /// Resolves the pattern `path` against the stored tree, using the
    /// accumulated ancestor visibility as the window.
    pub fn read(&self, path: &Path) -> (r: (Option<Update>, Vec<DelegatedMatch>))
        requires
            node_wf(self.node),
        ensures
            r.0 matches Some(u) ==> update_wf(u),
            r.0 matches Some(u) ==> !update_is_noop(u) || u.delegated == Some(true),
            no_active_delegation(self.node) ==> r.1@.len() == 0,
            self.node.keys is Some && 0 < path@.len() && path@[0] == "*"@ ==> (forall|ci: int|
                0 <= ci < children_of(self.node).len() && spec_child_hit(
                    1,
                    path@,
                    1,
                    spec_descend(self.vis, self.node.vis),
                    (#[trigger] children_of(self.node)[ci]).1,
                ) ==> r.0 is Some && spec_child_entry(
                    r.0->0,
                    children_of(self.node)[ci].0@,
                    children_of(self.node)[ci].1,
                )),
            self.node.keys is Some && 0 < path@.len() && path@[0] == "*#"@ ==> (forall|ci: int|
                0 <= ci < children_of(self.node).len() && spec_child_hit(
                    1,
                    path@,
                    0,
                    spec_descend(self.vis, self.node.vis),
                    (#[trigger] children_of(self.node)[ci]).1,
                ) ==> r.0 is Some && spec_child_entry(
                    r.0->0,
                    children_of(self.node)[ci].0@,
                    children_of(self.node)[ci].1,
                )),
            self.node.keys is Some && 0 < path@.len() && path@[0] != "*"@ && path@[0] != "**"@
                && path@[0] != "*#"@ && has_key(children_of(self.node), path@[0]) && spec_child_hit(
                1,
                path@,
                1,
                spec_descend(self.vis, self.node.vis),
                children_of(self.node)[key_at(children_of(self.node), path@[0])].1,
            ) ==> r.0 is Some && spec_child_entry(
                r.0->0,
                path@[0],
                children_of(self.node)[key_at(children_of(self.node), path@[0])].1,
            ),
            match r.0 {
                None => !(spec_read_self(0, path@, 0) && vis_visible(
                    spec_descend(self.vis, self.node.vis),
                )),
                Some(u) => {
                    &&& u.changed == (spec_read_self(0, path@, 0) && vis_visible(
                        spec_descend(self.vis, self.node.vis),
                    ))
                    &&& u.new == (if u.changed {
                        Some(self.node.value)
                    } else {
                        None
                    })
                    &&& u.old is None
                    &&& u.delegated is None
                    &&& (self.node.keys is None ==> u.keys is None)
                },
            },
            forall|i: int| 0 <= i < r.1@.len() ==> (#[trigger] r.1@[i]).path@.len() > 0,
    {
        self.node.read(self.vis, path)
    }
}

} // verus!
