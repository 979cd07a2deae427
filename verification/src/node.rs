//! The tree node: visibility timestamps, scalar payload, ordered children and
//! delegation marker. The primary replicated entity.

use vstd::prelude::*;

use crate::value::Value;
use vstd::string::StrSliceExecFns;
use crate::vis::Vis;

verus! {

/// Delegation state of a node: a version counter and an active flag. A
/// strictly newer version wins when two states meet; the flag says whether the
/// subtree is currently owned by another zone.
#[derive(Clone, Copy, Debug, PartialEq, Eq, Structural)]
pub struct Delegated {
    pub version: u64,
    pub active: bool,
}

impl Delegated {
    /// The never-delegated state.
    pub fn none() -> (r: Delegated)
        ensures
            r == (Delegated { version: 0u64, active: false }),
    {
        Delegated { version: 0, active: false }
    }
}

/// One node of the replicated tree.
#[derive(Debug, PartialEq)]
pub struct Node {
    pub vis: Vis,
    pub value: Value,
    pub keys: Option<Vec<(String, Node)>>,
    pub delegated: Delegated,
}

/// A node together with the visibility accumulated above its root, for use at
/// a zone boundary where the ancestors live elsewhere.
#[derive(Clone, Debug, PartialEq)]
pub struct NodeTree {
    /// Mergeable data.
    pub node: Node,
    /// Visibility of this tree through its ancestors.
    pub vis: Vis,
}

/// Number of nodes in a tree; the termination measure for every recursive
/// walk.
pub open spec fn node_size(n: Node) -> nat
    decreases n,
{
    match n.keys {
        None => 1,
        Some(ks) => 1 + keys_size(ks@),
    }
}

/// Total size of the nodes in a child list.
pub open spec fn keys_size(s: Seq<(String, Node)>) -> nat
    decreases s,
{
    if s.len() == 0 {
        0
    } else {
        node_size(s.last().1) + keys_size(s.drop_last())
    }
}

/// No two children share a key, comparing keys by contents.
pub open spec fn keys_unique(s: Seq<(String, Node)>) -> bool {
    forall|i: int, j: int| 0 <= i < j < s.len() ==> s[i].0@ != s[j].0@
}

/// Well-formed node: at every level the child keys are unique and stand in
/// canonical order, so traversal is deterministic and replicas that hold the
/// same data hold it identically.
pub open spec fn node_wf(n: Node) -> bool
    decreases n,
{
    match n.keys {
        None => true,
        Some(ks) => keys_unique(ks@) && keys_sorted(ks@) && (forall|i: int|
            0 <= i < ks@.len() ==> node_wf(#[trigger] ks@[i].1)),
    }
}

/// Whether a child list holds the key `k`.
pub open spec fn has_key(s: Seq<(String, Node)>, k: Seq<char>) -> bool {
    exists|i: int| 0 <= i < s.len() && s[i].0@ == k
}

/// The position of key `k` in a child list.
pub open spec fn key_at(s: Seq<(String, Node)>, k: Seq<char>) -> int {
    choose|i: int| 0 <= i < s.len() && s[i].0@ == k
}

/// The child list of a node, empty when it has none.
pub open spec fn children_of(n: Node) -> Seq<(String, Node)> {
    match n.keys {
        None => Seq::empty(),
        Some(ks) => ks@,
    }
}

/// No node of this subtree is currently owned by another zone.
pub open spec fn no_active_delegation(n: Node) -> bool
    decreases n,
{
    &&& !n.delegated.active
    &&& match n.keys {
        None => true,
        Some(ks) => forall|i: int|
            0 <= i < ks@.len() ==> no_active_delegation(#[trigger] ks@[i].1),
    }
}

/// A node that makes no claim at all: the unit of merging.
pub open spec fn node_is_noop(n: Node) -> bool {
    &&& n.vis == (Vis { updated: 0u64, deleted: 0u64 })
    &&& n.value matches Value::Null
    &&& n.keys is None
    &&& n.delegated == (Delegated { version: 0u64, active: false })
}

/// Every node in a child list is strictly smaller than the list.
pub proof fn lemma_keys_size_bound(s: Seq<(String, Node)>, i: int)
    requires
        0 <= i < s.len(),
    ensures
        node_size(s[i].1) <= keys_size(s),
    decreases s.len(),
{
    if i == s.len() - 1 {
        assert(s[i] == s.last());
    } else {
        lemma_keys_size_bound(s.drop_last(), i);
        assert(s.drop_last()[i] == s[i]);
    }
}

/// Two child lists whose entries have equally sized subtrees have the same
/// total size.
pub proof fn lemma_keys_size_congruence(s1: Seq<(String, Node)>, s2: Seq<(String, Node)>)
    requires
        s1.len() == s2.len(),
        forall|i: int| 0 <= i < s1.len() ==> node_size(#[trigger] s1[i].1) == node_size(s2[i].1),
    ensures
        keys_size(s1) == keys_size(s2),
    decreases s1.len(),
{
    if s1.len() > 0 {
        assert forall|i: int| 0 <= i < s1.drop_last().len() implies node_size(
            #[trigger] s1.drop_last()[i].1,
        ) == node_size(s2.drop_last()[i].1) by {
            assert(s1.drop_last()[i] == s1[i]);
            assert(s2.drop_last()[i] == s2[i]);
        }
        lemma_keys_size_congruence(s1.drop_last(), s2.drop_last());
        assert(node_size(s1.last().1) == node_size(s2.last().1));
    }
}

/// A node's size depends only on its children.
pub proof fn lemma_node_size_keys(a: Node, b: Node)
    requires
        a.keys == b.keys,
    ensures
        node_size(a) == node_size(b),
{
}

/// Two child lists with the same keys in the same positions hold the same key
/// set.
pub proof fn lemma_has_key_same_cols(s1: Seq<(String, Node)>, s2: Seq<(String, Node)>, k: Seq<char>)
    requires
        s1.len() == s2.len(),
        forall|i: int| 0 <= i < s1.len() ==> (#[trigger] s1[i]).0 == s2[i].0,
    ensures
        has_key(s1, k) == has_key(s2, k),
{
    if has_key(s1, k) {
        let i = choose|i: int| 0 <= i < s1.len() && s1[i].0@ == k;
        assert(s2[i].0@ == k);
    }
    if has_key(s2, k) {
        let i = choose|i: int| 0 <= i < s2.len() && s2[i].0@ == k;
        assert(s1[i].0@ == k);
    }
}

/// A child is strictly smaller than its parent.
pub proof fn lemma_child_size(n: Node, i: int)
    requires
        n.keys is Some,
        0 <= i < n.keys->0@.len(),
    ensures
        node_size(n.keys->0@[i].1) < node_size(n),
{
    lemma_keys_size_bound(n.keys->0@, i);
}

/// The smaller of two sizes.
pub open spec fn ts_min_nat(a: nat, b: nat) -> nat {
    if a < b {
        a
    } else {
        b
    }
}

/// Estimated byte size of one scalar.
pub open spec fn spec_byte_size(v: Value) -> nat {
    match v {
        Value::Null => 1,
        Value::Bool(_) => 1,
        Value::I64(_) => 8,
        Value::U64(_) => 8,
        Value::F64Bits(_) => 8,
        Value::Str(s) => s@.len(),
    }
}

/// Estimated byte size of a whole subtree: the value, plus each child's key
/// and subtree.
pub open spec fn spec_total_size(n: Node) -> nat
    decreases n, 0int,
{
    spec_byte_size(n.value) + match n.keys {
        None => 0,
        Some(ks) => spec_keys_total(ks@),
    }
}

/// Total estimated byte size of a child list.
pub open spec fn spec_keys_total(s: Seq<(String, Node)>) -> nat
    decreases s, 1int,
{
    if s.len() == 0 {
        0
    } else {
        spec_keys_total(s.drop_last()) + s.last().0@.len() + spec_total_size(s.last().1)
    }
}


/// Lexicographic order on two key contents of equal length.
pub open spec fn lex_lt(a: Seq<char>, b: Seq<char>) -> bool
    decreases a.len(),
{
    if a.len() == 0 {
        false
    } else if (a[0] as int) < (b[0] as int) {
        true
    } else if a[0] == b[0] {
        lex_lt(a.skip(1), b.skip(1))
    } else {
        false
    }
}

/// The canonical order on child keys: shorter keys first, keys of equal
/// length lexicographically. Decimal index keys are ordered numerically by
/// it, so array expansion keeps its positional order.
pub open spec fn key_lt(a: Seq<char>, b: Seq<char>) -> bool {
    a.len() < b.len() || (a.len() == b.len() && lex_lt(a, b))
}

/// The child keys stand in strictly increasing canonical order.
pub open spec fn keys_sorted(s: Seq<(String, Node)>) -> bool {
    forall|i: int, j: int| 0 <= i < j < s.len() ==> key_lt(s[i].0@, s[j].0@)
}

/// Scanning two equal-length keys: once a differing position decides, so
/// does the lexicographic order; equal keys are not ordered.
pub proof fn lemma_lex_scan(a: Seq<char>, b: Seq<char>, i: int)
    requires
        a.len() == b.len(),
        0 <= i <= a.len(),
        forall|j: int| 0 <= j < i ==> a[j] == b[j],
    ensures
        i == a.len() ==> !lex_lt(a, b),
        i < a.len() && (a[i] as int) < (b[i] as int) ==> lex_lt(a, b),
        i < a.len() && (a[i] as int) > (b[i] as int) ==> !lex_lt(a, b),
    decreases i,
{
    if i == 0 {
    } else {
        assert(a[0] == b[0]);
        assert forall|j: int| 0 <= j < i - 1 implies a.skip(1)[j] == b.skip(1)[j] by {
            assert(a.skip(1)[j] == a[j + 1]);
            assert(b.skip(1)[j] == b[j + 1]);
        }
        lemma_lex_scan(a.skip(1), b.skip(1), i - 1);
        if i < a.len() {
            assert(a.skip(1)[i - 1] == a[i]);
            assert(b.skip(1)[i - 1] == b[i]);
        }
    }
}

/// The canonical key order is total on distinct keys.
pub proof fn lemma_key_lt_total(a: Seq<char>, b: Seq<char>)
    requires
        a != b,
    ensures
        key_lt(a, b) || key_lt(b, a),
    decreases a.len(),
{
    if a.len() == b.len() {
        if a.len() == 0 {
            assert(a =~= b);
        } else if a[0] == b[0] {
            if a.skip(1) == b.skip(1) {
                assert forall|i: int| 0 <= i < a.len() implies a[i] == b[i] by {
                    if i > 0 {
                        assert(a.skip(1)[i - 1] == a[i]);
                        assert(b.skip(1)[i - 1] == b[i]);
                    }
                }
                assert(a =~= b);
            }
            lemma_key_lt_total(a.skip(1), b.skip(1));
        }
    }
}

/// The canonical key order is transitive.
pub proof fn lemma_key_lt_trans(a: Seq<char>, b: Seq<char>, c: Seq<char>)
    requires
        key_lt(a, b),
        key_lt(b, c),
    ensures
        key_lt(a, c),
    decreases a.len(),
{
    if a.len() == b.len() && b.len() == c.len() {
        if a[0] == b[0] && b[0] == c[0] {
            lemma_key_lt_trans(a.skip(1), b.skip(1), c.skip(1));
        }
    }
}

/// An ordered key pair is distinct and not ordered the other way.
pub proof fn lemma_key_lt_asym(a: Seq<char>, b: Seq<char>)
    requires
        key_lt(a, b),
    ensures
        !key_lt(b, a),
        a != b,
    decreases a.len(),
{
    if a.len() == b.len() {
        if a.len() > 0 && a[0] == b[0] {
            lemma_key_lt_asym(a.skip(1), b.skip(1));
        }
    }
}

/// Appending one character each to two equal keys orders the results by the
/// appended characters.
pub proof fn lemma_lex_push_eq(p: Seq<char>, x: char, y: char)
    ensures
        lex_lt(p.push(x), p.push(y)) == ((x as int) < (y as int)),
    decreases p.len(),
{
    if p.len() == 0 {
        assert(p.push(x)[0] == x && p.push(y)[0] == y);
        assert(p.push(x).len() == 1);
        if (x as int) >= (y as int) && x == y {
            assert(!lex_lt(p.push(x).skip(1), p.push(y).skip(1)));
        }
    } else {
        assert(p.push(x)[0] == p[0] && p.push(y)[0] == p[0]);
        assert(p.push(x).skip(1) =~= p.skip(1).push(x));
        assert(p.push(y).skip(1) =~= p.skip(1).push(y));
        lemma_lex_push_eq(p.skip(1), x, y);
    }
}

/// Appending one character each to two ordered equal-length keys keeps the
/// order, whatever the characters.
pub proof fn lemma_lex_push_lt(p: Seq<char>, q: Seq<char>, x: char, y: char)
    requires
        p.len() == q.len(),
        lex_lt(p, q),
    ensures
        lex_lt(p.push(x), q.push(y)),
    decreases p.len(),
{
    assert(p.push(x)[0] == p[0] && q.push(y)[0] == q[0]);
    if p[0] == q[0] {
        assert(p.push(x).skip(1) =~= p.skip(1).push(x));
        assert(q.push(y).skip(1) =~= q.skip(1).push(y));
        lemma_lex_push_lt(p.skip(1), q.skip(1), x, y);
    }
}

/// Two child lists with the same keys in the same positions are ordered
/// alike.
pub proof fn lemma_sorted_same_cols(s1: Seq<(String, Node)>, s2: Seq<(String, Node)>)
    requires
        s1.len() == s2.len(),
        forall|i: int| 0 <= i < s1.len() ==> (#[trigger] s1[i]).0 == s2[i].0,
        keys_sorted(s1),
    ensures
        keys_sorted(s2),
{
    assert forall|i: int, j: int| 0 <= i < j < s2.len() implies key_lt(s2[i].0@, s2[j].0@) by {
        assert(key_lt(s1[i].0@, s1[j].0@));
    }
}

/// Compares two keys in the canonical order.
pub fn key_is_before(a: &String, b: &String) -> (r: bool)
    ensures
        r == key_lt(a@, b@),
{
    let alen = a.as_str().unicode_len();
    let blen = b.as_str().unicode_len();
    if alen < blen {
        return true;
    }
    if alen > blen {
        return false;
    }
    let mut i: usize = 0;
    while i < alen
        invariant
            a@.len() == alen,
            b@.len() == alen,
            i <= alen,
            forall|j: int| 0 <= j < i ==> a@[j] == b@[j],
        decreases alen - i,
    {
        let ca = a.as_str().get_char(i);
        let cb = b.as_str().get_char(i);
        if (ca as u32) < (cb as u32) {
            proof {
                lemma_lex_scan(a@, b@, i as int);
            }
            return true;
        }
        if (ca as u32) > (cb as u32) {
            proof {
                lemma_lex_scan(a@, b@, i as int);
            }
            return false;
        }
        i = i + 1;
    }
    proof {
        lemma_lex_scan(a@, b@, alen as int);
    }
    false
}

/// Inserts a child under a key not yet present, keeping the list in
/// canonical order; every existing entry keeps its key and subtree.
pub fn insert_child_sorted(keys: &mut Vec<(String, Node)>, k: String, child: Node)
    requires
        keys_unique(old(keys)@),
        keys_sorted(old(keys)@),
        !has_key(old(keys)@, k@),
    ensures
        final(keys)@.len() == old(keys)@.len() + 1,
        keys_unique(final(keys)@),
        keys_sorted(final(keys)@),
        forall|q: Seq<char>|
            #[trigger] has_key(final(keys)@, q) <==> has_key(old(keys)@, q) || q == k@,
        final(keys)@[key_at(final(keys)@, k@)] == (k, child),
        forall|q: Seq<char>|
            #[trigger] has_key(old(keys)@, q) ==> final(keys)@[key_at(final(keys)@, q)] == old(
                keys,
            )@[key_at(old(keys)@, q)],
        forall|i: int|
            0 <= i < final(keys)@.len() ==> (#[trigger] final(keys)@[i]) == (k, child) || has_key(
                old(keys)@,
                final(keys)@[i].0@,
            ),
{
    let ghost s0 = keys@;
    let mut pos: usize = 0;
    while pos < keys.len()
        invariant
            keys@ == s0,
            pos <= s0.len(),
            !has_key(s0, k@),
            forall|j: int| 0 <= j < pos ==> key_lt((#[trigger] s0[j]).0@, k@),
        ensures
            pos <= s0.len(),
            forall|j: int| 0 <= j < pos ==> key_lt((#[trigger] s0[j]).0@, k@),
            pos < s0.len() ==> key_lt(k@, s0[pos as int].0@),
        decreases s0.len() - pos,
    {
        if key_is_before(&k, &keys[pos].0) {
            break ;
        }
        proof {
            if s0[pos as int].0@ == k@ {
                assert(has_key(s0, k@));
            }
            lemma_key_lt_total(s0[pos as int].0@, k@);
        }
        pos = pos + 1;
    }
    keys.insert(pos, (k, child));
    proof {
        s0.insert_ensures(pos as int, (k, child));
        let s1 = keys@;
        assert(s1 == s0.insert(pos as int, (k, child)));
        assert forall|i: int, j: int| 0 <= i < j < s1.len() implies key_lt(
            s1[i].0@,
            s1[j].0@,
        ) by {
            if j < pos {
                assert(s1[i] == s0[i] && s1[j] == s0[j]);
            } else if i > pos {
                assert(s1[i] == s0[i - 1] && s1[j] == s0[j - 1]);
            } else if i < pos && j == pos {
                assert(s1[i] == s0[i]);
            } else if i == pos && j > pos {
                assert(s1[j] == s0[j - 1]);
                assert(key_lt(k@, s0[pos as int].0@));
                if j - 1 > pos {
                    assert(key_lt(s0[pos as int].0@, s0[j - 1].0@));
                    lemma_key_lt_trans(k@, s0[pos as int].0@, s0[j - 1].0@);
                }
            } else if i < pos && j > pos {
                assert(s1[i] == s0[i] && s1[j] == s0[j - 1]);
                if j - 1 > i {
                    assert(key_lt(s0[i].0@, s0[j - 1].0@));
                } else {
                    assert(key_lt(s0[i].0@, k@) && key_lt(k@, s0[pos as int].0@));
                    lemma_key_lt_trans(s0[i].0@, k@, s0[pos as int].0@);
                }
            }
        }
        assert forall|i: int, j: int| 0 <= i < j < s1.len() implies s1[i].0@ != s1[j].0@ by {
            lemma_key_lt_asym(s1[i].0@, s1[j].0@);
        }
        assert forall|q: Seq<char>|
            #[trigger] has_key(s1, q) implies has_key(s0, q) || q == k@ by {
            let w = choose|w: int| 0 <= w < s1.len() && s1[w].0@ == q;
            if w < pos {
                assert(s0[w].0@ == q);
            } else if w > pos {
                assert(s1[w] == s0[w - 1]);
                assert(s0[w - 1].0@ == q);
            }
        }
        assert forall|q: Seq<char>|
            has_key(s0, q) implies #[trigger] has_key(s1, q) by {
            let w = choose|w: int| 0 <= w < s0.len() && s0[w].0@ == q;
            if w < pos {
                assert(s1[w].0@ == q);
            } else {
                assert(s1[w + 1] == s0[w]);
                assert(s1[w + 1].0@ == q);
            }
        }
        assert(s1[pos as int] == (k, child));
        assert(has_key(s1, k@));
        let wk = key_at(s1, k@);
        if wk != pos as int {
            assert(s1[wk].0@ != s1[pos as int].0@);
            assert(false);
        }
        assert forall|q: Seq<char>|
            #[trigger] has_key(s0, q) implies s1[key_at(s1, q)] == s0[key_at(s0, q)] by {
            let w0 = key_at(s0, q);
            assert(0 <= w0 < s0.len() && s0[w0].0@ == q);
            let w1 = if w0 < pos {
                w0
            } else {
                w0 + 1
            };
            assert(s1[w1] == s0[w0]);
            let wq = key_at(s1, q);
            assert(has_key(s1, q));
            assert(0 <= wq < s1.len() && s1[wq].0@ == q);
            if wq != w1 {
                assert(s1[wq].0@ != s1[w1].0@);
                assert(false);
            }
        }
        assert forall|i: int|
            0 <= i < s1.len() implies (#[trigger] s1[i]) == (k, child) || has_key(
            s0,
            s1[i].0@,
        ) by {
            if i < pos {
                assert(s1[i] == s0[i]);
            } else if i > pos {
                assert(s1[i] == s0[i - 1]);
            }
        }
    }
}

/// Finds the position of key `k` in a child list.
pub fn find_child_idx(keys: &Vec<(String, Node)>, k: &String) -> (r: Option<usize>)
    ensures
        match r {
            Some(i) => i < keys@.len() && keys@[i as int].0@ == k@,
            None => !has_key(keys@, k@),
        },
{
    let mut idx: usize = 0;
    while idx < keys.len()
        invariant
            idx <= keys@.len(),
            forall|j: int| 0 <= j < idx ==> keys@[j].0@ != k@,
        decreases keys@.len() - idx,
    {
        if keys[idx].0.eq(k) {
            return Some(idx);
        }
        idx = idx + 1;
    }
    None
}

impl Clone for Node {
    /// Deep copy of a subtree.
    fn clone(&self) -> (r: Node)
        decreases node_size(*self),
    {
        let keys = match &self.keys {
            None => None,
            Some(ks) => {
                let mut out: Vec<(String, Node)> = Vec::new();
                let mut i: usize = 0;
                while i < ks.len()
                    invariant
                        i <= ks@.len(),
                        self.keys matches Some(kv) && kv == ks,
                    decreases ks@.len() - i,
                {
                    proof {
                        lemma_child_size(*self, i as int);
                    }
                    let k = ks[i].0.clone();
                    let c = ks[i].1.clone();
                    out.push((k, c));
                    i = i + 1;
                }
                Some(out)
            },
        };
        Node { vis: self.vis, value: self.value.clone(), keys, delegated: self.delegated }
    }
}

impl Default for NodeTree {
    /// The tree that makes no claim at all.
    fn default() -> (r: NodeTree)
        ensures
            node_is_noop(r.node),
            node_wf(r.node),
            r.vis == (Vis { updated: 0u64, deleted: 0u64 }),
    {
        NodeTree {
            node: Node {
                vis: Vis::new(0, 0),
                value: Value::Null,
                keys: None,
                delegated: Delegated::none(),
            },
            vis: Vis::new(0, 0),
        }
    }
}

impl Default for Node {
    /// The node that makes no claim at all.
    fn default() -> (r: Node)
        ensures
            node_is_noop(r),
            node_wf(r),
    {
        Node {
            vis: Vis::new(0, 0),
            value: Value::Null,
            keys: None,
            delegated: Delegated::none(),
        }
    }
}

impl Node {
    /// Creates a `Node` representing a recursive delete at `timestamp`.
    pub fn delete(timestamp: u64) -> (r: Node)
        ensures
            r.vis == (Vis { updated: 0u64, deleted: timestamp }),
            r.value matches Value::Null,
            r.keys is None,
            r.delegated == (Delegated { version: 0u64, active: false }),
            node_wf(r),
    {
        Node { vis: Vis::delete(timestamp), value: Value::Null, keys: None, delegated: Delegated::none() }
    }

    /// A diff that marks a node delegated as of `timestamp`.
    pub fn delegate(timestamp: u64) -> (r: Node)
        ensures
            r.vis == (Vis { updated: 0u64, deleted: 0u64 }),
            r.value matches Value::Null,
            r.keys is None,
            r.delegated == (Delegated { version: timestamp, active: true }),
            node_wf(r),
    {
        Node {
            vis: Vis::new(0, 0),
            value: Value::Null,
            keys: None,
            delegated: Delegated { version: timestamp, active: true },
        }
    }

    /// A diff that clears a node's delegation as of `timestamp`.
    pub fn undelegate(timestamp: u64) -> (r: Node)
        ensures
            r.vis == (Vis { updated: 0u64, deleted: 0u64 }),
            r.value matches Value::Null,
            r.keys is None,
            r.delegated == (Delegated { version: timestamp, active: false }),
            node_wf(r),
    {
        Node {
            vis: Vis::new(0, 0),
            value: Value::Null,
            keys: None,
            delegated: Delegated { version: timestamp, active: false },
        }
    }

    /// Moves out all data that should live in the owning zone, leaving only
    /// the delegation marker behind.
    pub fn delegated(&mut self) -> (r: Node)
        ensures
            r.vis == old(self).vis,
            r.value == old(self).value,
            r.keys == old(self).keys,
            r.delegated == old(self).delegated,
            node_is_noop(*final(self)) || final(self).delegated == old(self).delegated,
            final(self).vis == (Vis { updated: 0u64, deleted: 0u64 }),
            final(self).value matches Value::Null,
            final(self).keys is None,
            final(self).delegated == old(self).delegated,
            node_wf(*final(self)),
    {
        let mut value = Value::Null;
        let mut keys: Option<Vec<(String, Node)>> = None;
        core::mem::swap(&mut value, &mut self.value);
        core::mem::swap(&mut keys, &mut self.keys);
        let r = Node { vis: self.vis, value, keys, delegated: self.delegated };
        self.vis = Vis::new(0, 0);
        r
    }

    /// Returns true if merging this node does nothing.
    pub fn is_noop(&self) -> (r: bool)
        ensures
            r == node_is_noop(*self),
    {
        self.vis.is_noop() && self.value.is_null() && self.keys.is_none() && self.delegated.version
            == 0 && !self.delegated.active
    }

    /// Returns the number of child nodes.
    pub fn len(&self) -> (r: usize)
        ensures
            r == children_of(*self).len(),
    {
        match &self.keys {
            None => 0,
            Some(keys) => keys.len(),
        }
    }

    /// Returns the child at position `i`, for iteration over the children.
    pub fn child_at(&self, i: usize) -> (r: &(String, Node))
        requires
            i < children_of(*self).len(),
        ensures
            *r == children_of(*self)[i as int],
    {
        match &self.keys {
            None => unreached(),
            Some(keys) => &keys[i],
        }
    }

    /// Hands out the children in stored order, for iteration.
    pub fn each_child(&self) -> (r: Vec<(&String, &Node)>)
        ensures
            r@.len() == children_of(*self).len(),
            forall|i: int|
                0 <= i < r@.len() ==> *((#[trigger] r@[i]).0) == children_of(*self)[i].0 && *(
                r@[i].1) == children_of(*self)[i].1,
    {
        let mut out: Vec<(&String, &Node)> = Vec::new();
        match &self.keys {
            None => {},
            Some(keys) => {
                let mut i: usize = 0;
                while i < keys.len()
                    invariant
                        self.keys matches Some(kv) && kv == keys,
                        i <= keys@.len(),
                        out@.len() == i,
                        forall|j: int|
                            0 <= j < i ==> *((#[trigger] out@[j]).0) == keys@[j].0 && *(out@[j].1)
                                == keys@[j].1,
                    decreases keys@.len() - i,
                {
                    let entry = &keys[i];
                    out.push((&entry.0, &entry.1));
                    i = i + 1;
                }
            },
        }
        out
    }

    /// Returns the estimated byte size of storing this node's value.
    pub fn byte_size(&self) -> (r: usize)
        ensures
            r == spec_byte_size(self.value),
    {
        match &self.value {
            Value::Bool(_) => 1,
            Value::I64(_) => 8,
            Value::U64(_) => 8,
            Value::F64Bits(_) => 8,
            Value::Str(s) => s.as_str().unicode_len(),
            Value::Null => 1,
        }
    }

    /// Returns the estimated byte size of this node including children,
    /// saturating at the largest representable size.
    pub fn total_byte_size(&self) -> (r: usize)
        ensures
            r == ts_min_nat(spec_total_size(*self), usize::MAX as nat),
        decreases node_size(*self), 0int,
    {
        let mut total = self.byte_size();
        match &self.keys {
            None => {},
            Some(keys) => {
                let ghost ks = keys@;
                let mut i: usize = 0;
                while i < keys.len()
                    invariant
                        self.keys matches Some(kv) && kv == keys,
                        i <= ks.len() && keys@ == ks,
                        total as nat == ts_min_nat(
                            spec_byte_size(self.value) + spec_keys_total(ks.take(i as int)),
                            usize::MAX as nat,
                        ),
                    decreases node_size(*self), 1int, ks.len() - i,
                {
                    proof {
                        lemma_child_size(*self, i as int);
                    }
                    let k_len = keys[i].0.as_str().unicode_len();
                    let child_total = keys[i].1.total_byte_size();
                    total = total.saturating_add(k_len);
                    total = total.saturating_add(child_total);
                    proof {
                        assert(ks.take(i + 1).drop_last() =~= ks.take(i as int));
                        assert(ks.take(i + 1).last() == ks[i as int]);
                    }
                    i = i + 1;
                }
                proof {
                    assert(ks.take(ks.len() as int) =~= ks);
                }
            },
        }
        total
    }

    /// Adds a child node with given key, replacing the child already stored
    /// under the same key and keeping the children in canonical order.
    pub fn add_child(&mut self, k: String, child: Node)
        requires
            keys_unique(children_of(*old(self))),
            keys_sorted(children_of(*old(self))),
        ensures
            final(self).vis == old(self).vis,
            final(self).value == old(self).value,
            final(self).delegated == old(self).delegated,
            final(self).keys matches Some(ks),
            forall|q: Seq<char>|
                #[trigger] has_key(children_of(*final(self)), q) <==> has_key(
                    children_of(*old(self)),
                    q,
                ) || q == k@,
            children_of(*final(self))[key_at(children_of(*final(self)), k@)] == (k, child),
            forall|q: Seq<char>|
                #[trigger] has_key(children_of(*old(self)), q) && q != k@ ==> children_of(
                    *final(self),
                )[key_at(children_of(*final(self)), q)] == children_of(*old(self))[key_at(
                    children_of(*old(self)),
                    q,
                )],
            keys_unique(children_of(*final(self))),
            keys_sorted(children_of(*final(self))),
    {
        if self.keys.is_none() {
            self.keys = Some(Vec::new());
            proof {
                assert(children_of(*old(self)) =~= self.keys->0@);
            }
        }
        let ghost orig = children_of(*old(self));
        let mut idx: usize = 0;
        let mut found = false;
        match &self.keys {
            None => {
                proof {
                    assert(false);
                }
            },
            Some(keys) => {
                while idx < keys.len()
                    invariant_except_break
                        !found,
                    invariant
                        keys@ == orig,
                        idx <= orig.len(),
                        forall|j: int| 0 <= j < idx ==> orig[j].0@ != k@,
                    ensures
                        found ==> idx < orig.len() && orig[idx as int].0@ == k@,
                        !found ==> forall|j: int| 0 <= j < orig.len() ==> orig[j].0@ != k@,
                    decreases orig.len() - idx,
                {
                    if keys[idx].0.eq(&k) {
                        found = true;
                        break ;
                    }
                    idx = idx + 1;
                }
            },
        }
        let keys = self.keys.as_mut().unwrap();
        if found {
            keys.set(idx, (k, child));
            proof {
                let cur = keys@;
                assert(has_key(orig, k@));
                let j = key_at(orig, k@);
                assert(0 <= j < orig.len() && orig[j].0@ == k@);
                if j != idx as int {
                    assert(orig[j].0@ != orig[idx as int].0@);
                    assert(false);
                }
                assert forall|q: int| 0 <= q < cur.len() implies (#[trigger] cur[q]).0@
                    == orig[q].0@ by {}
                assert forall|a: int, b: int| 0 <= a < b < cur.len() implies cur[a].0@
                    != cur[b].0@ by {
                    assert(keys_unique(orig));
                    assert(orig[a].0@ != orig[b].0@);
                }
                assert forall|a: int, b: int| 0 <= a < b < cur.len() implies key_lt(
                    cur[a].0@,
                    cur[b].0@,
                ) by {
                    assert(keys_sorted(orig));
                    assert(key_lt(orig[a].0@, orig[b].0@));
                }
                assert forall|q: Seq<char>|
                    #[trigger] has_key(cur, q) implies has_key(orig, q) || q == k@ by {
                    let w = choose|w: int| 0 <= w < cur.len() && cur[w].0@ == q;
                    assert(orig[w].0@ == q);
                }
                assert forall|q: Seq<char>| has_key(orig, q) implies #[trigger] has_key(
                    cur,
                    q,
                ) by {
                    let w = choose|w: int| 0 <= w < orig.len() && orig[w].0@ == q;
                    assert(cur[w].0@ == q);
                }
                let wk = key_at(cur, k@);
                assert(cur[idx as int].0@ == k@);
                assert(has_key(cur, k@));
                if wk != idx as int {
                    assert(cur[wk].0@ != cur[idx as int].0@);
                    assert(false);
                }
                assert forall|q: Seq<char>|
                    #[trigger] has_key(orig, q) && q != k@ implies cur[key_at(cur, q)] == orig[
                    key_at(orig, q)] by {
                    let w0 = key_at(orig, q);
                    assert(0 <= w0 < orig.len() && orig[w0].0@ == q);
                    assert(w0 != idx as int);
                    assert(cur[w0] == orig[w0]);
                    let w1 = key_at(cur, q);
                    assert(has_key(cur, q));
                    assert(0 <= w1 < cur.len() && cur[w1].0@ == q);
                    if w1 != w0 {
                        assert(cur[w1].0@ != cur[w0].0@);
                        assert(false);
                    }
                }
            }
        } else {
            proof {
                assert(!has_key(orig, k@));
            }
            insert_child_sorted(keys, k, child);
        }
    }

    /// Converts this node to a `NodeTree` with no ancestor claim.
    pub fn noop_vis(self) -> (r: NodeTree)
        ensures
            r.node == self,
            r.vis == (Vis { updated: 0u64, deleted: 0u64 }),
    {
        NodeTree { node: self, vis: Vis::new(0, 0) }
    }
}

} // verus!
