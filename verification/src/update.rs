//! The record of observable change produced by a merge or a read, shaped like
//! the tree it describes and discarded once consumed.

use vstd::prelude::*;

use crate::data::Data;
use crate::value::Value;

verus! {

/// Effective change at one node: whether anything changed, the value before
/// and after, per-child changes, and a delegation flip if one happened.
#[derive(Debug, PartialEq)]
pub struct Update {
    pub changed: bool,
    pub old: Option<Value>,
    pub new: Option<Value>,
    pub keys: Option<Vec<(String, Update)>>,
    pub delegated: Option<bool>,
}

/// An update that reports nothing observable. A delegation flip alone does
/// not count: it is reported through the handoff channel instead.
pub open spec fn update_is_noop(u: Update) -> bool {
    !u.changed && u.old is None && u.new is None && u.keys is None
}

/// No two child updates share a key, comparing keys by contents.
pub open spec fn ukeys_unique(s: Seq<(String, Update)>) -> bool {
    forall|i: int, j: int| 0 <= i < j < s.len() ==> s[i].0@ != s[j].0@
}

/// Well-formed update: child keys are unique at every level.
pub open spec fn update_wf(u: Update) -> bool
    decreases u,
{
    match u.keys {
        None => true,
        Some(ks) => ukeys_unique(ks@) && (forall|i: int|
            0 <= i < ks@.len() ==> update_wf(#[trigger] ks@[i].1)),
    }
}

/// Whether a child update list holds the key `k`.
pub open spec fn uhas_key(s: Seq<(String, Update)>, k: Seq<char>) -> bool {
    exists|i: int| 0 <= i < s.len() && s[i].0@ == k
}

/// The position of key `k` in a child update list.
pub open spec fn ukey_at(s: Seq<(String, Update)>, k: Seq<char>) -> int {
    choose|i: int| 0 <= i < s.len() && s[i].0@ == k
}

/// The child update list of an update, empty when it has none.
pub open spec fn uchildren_of(u: Update) -> Seq<(String, Update)> {
    match u.keys {
        None => Seq::empty(),
        Some(ks) => ks@,
    }
}

impl Default for Update {
    /// The update that reports nothing.
    fn default() -> (r: Update)
        ensures
            update_is_noop(r),
            r.delegated is None,
            update_wf(r),
    {
        Update { changed: false, old: None, new: None, keys: None, delegated: None }
    }
}

impl Update {
    /// Returns true if this update reports nothing observable.
    pub fn is_noop(&self) -> (r: bool)
        ensures
            r == update_is_noop(*self),
    {
        !self.changed && self.old.is_none() && self.new.is_none() && self.keys.is_none()
    }

    /// Records `child_update` under key `k`, replacing an entry already
    /// recorded under the same key; recording `None` does nothing.
    pub fn add_child(&mut self, k: &String, child_update: Option<Update>)
        requires
            ukeys_unique(uchildren_of(*old(self))),
        ensures
            child_update is None ==> *final(self) == *old(self),
            child_update matches Some(c) ==> {
                &&& final(self).changed == old(self).changed
                &&& final(self).old == old(self).old
                &&& final(self).new == old(self).new
                &&& final(self).delegated == old(self).delegated
                &&& final(self).keys matches Some(ks)
                &&& (if uhas_key(uchildren_of(*old(self)), k@) {
                    ks@ == uchildren_of(*old(self)).update(
                        ukey_at(uchildren_of(*old(self)), k@),
                        (*k, c),
                    )
                } else {
                    ks@ == uchildren_of(*old(self)).push((*k, c))
                })
            },
            ukeys_unique(uchildren_of(*final(self))),
    {
        let c = match child_update {
            None => {
                return ;
            },
            Some(c) => c,
        };
        if self.keys.is_none() {
            self.keys = Some(Vec::new());
            proof {
                assert(uchildren_of(*old(self)) =~= self.keys->0@);
            }
        }
        let ghost orig = uchildren_of(*old(self));
        let mut idx: usize = 0;
        let mut found = false;
        match &self.keys {
            None => {
                proof {
                    assert(false);
                }
            },
            Some(keys) => {
                while idx < keys.len()
                    invariant_except_break
                        !found,
                    invariant
                        keys@ == orig,
                        idx <= orig.len(),
                        forall|j: int| 0 <= j < idx ==> orig[j].0@ != k@,
                    ensures
                        found ==> idx < orig.len() && orig[idx as int].0@ == k@,
                        !found ==> forall|j: int| 0 <= j < orig.len() ==> orig[j].0@ != k@,
                    decreases orig.len() - idx,
                {
                    if keys[idx].0.eq(k) {
                        found = true;
                        break ;
                    }
                    idx = idx + 1;
                }
            },
        }
        let kk = k.clone();
        let keys = self.keys.as_mut().unwrap();
        if found {
            keys.set(idx, (kk, c));
            proof {
                assert(uhas_key(orig, k@));
                let j = ukey_at(orig, k@);
                assert(0 <= j < orig.len() && orig[j].0@ == k@);
                if j != idx as int {
                    assert(orig[j].0@ != orig[idx as int].0@);
                    assert(false);
                }
                assert forall|a: int, b: int| 0 <= a < b < keys@.len() implies keys@[a].0@
                    != keys@[b].0@ by {
                    assert(ukeys_unique(orig));
                    assert(orig[a].0@ != orig[b].0@);
                }
            }
        } else {
            keys.push((kk, c));
            proof {
                assert(!uhas_key(orig, k@));
                assert forall|a: int, b: int| 0 <= a < b < keys@.len() implies keys@[a].0@
                    != keys@[b].0@ by {
                    if b < orig.len() {
                        assert(ukeys_unique(orig));
                        assert(orig[a].0@ != orig[b].0@);
                    } else {
                        assert(orig[a].0@ != k@);
                    }
                }
            }
        }
    }
}

/// Appending a fresh key to a child update list keeps it unique, makes the
/// new entry retrievable, and leaves every existing keyed lookup unchanged.
pub proof fn lemma_upush_lookup(s: Seq<(String, Update)>, x: (String, Update))
    requires
        ukeys_unique(s),
        !uhas_key(s, x.0@),
    ensures
        ukeys_unique(s.push(x)),
        uhas_key(s.push(x), x.0@),
        s.push(x)[ukey_at(s.push(x), x.0@)] == x,
        forall|k: Seq<char>|
            k != x.0@ ==> (#[trigger] uhas_key(s.push(x), k)) == uhas_key(s, k),
        forall|k: Seq<char>|
            k != x.0@ && #[trigger] uhas_key(s, k) ==> s.push(x)[ukey_at(s.push(x), k)] == s[
                ukey_at(s, k)],
{
    let s1 = s.push(x);
    assert(s1[s.len() as int] == x);
    assert forall|a: int, b: int| 0 <= a < b < s1.len() implies s1[a].0@ != s1[b].0@ by {
        if b < s.len() {
            assert(s[a].0@ != s[b].0@);
        } else {
            assert(s1[b] == x);
            if s[a].0@ == x.0@ {
                assert(uhas_key(s, x.0@));
            }
        }
    }
    assert(uhas_key(s1, x.0@));
    let w = ukey_at(s1, x.0@);
    assert(0 <= w < s1.len() && s1[w].0@ == x.0@);
    if w != s.len() as int {
        assert(s1[w].0@ != s1[s.len() as int].0@);
        assert(false);
    }
    assert forall|k: Seq<char>| k != x.0@ implies (#[trigger] uhas_key(s1, k)) == uhas_key(
        s,
        k,
    ) by {
        if uhas_key(s1, k) {
            let v = choose|v: int| 0 <= v < s1.len() && s1[v].0@ == k;
            assert(v < s.len());
            assert(s[v].0@ == k);
        }
        if uhas_key(s, k) {
            let v = choose|v: int| 0 <= v < s.len() && s[v].0@ == k;
            assert(s1[v].0@ == k);
        }
    }
    assert forall|k: Seq<char>|
        k != x.0@ && #[trigger] uhas_key(s, k) implies s1[ukey_at(s1, k)] == s[ukey_at(s, k)] by {
        let v0 = ukey_at(s, k);
        assert(0 <= v0 < s.len() && s[v0].0@ == k);
        assert(s1[v0] == s[v0]);
        assert(uhas_key(s1, k));
        let v1 = ukey_at(s1, k);
        assert(0 <= v1 < s1.len() && s1[v1].0@ == k);
        if v1 != v0 {
            assert(s1[v1].0@ != s1[v0].0@);
            assert(false);
        }
    }
}

/// Number of updates in a tree of updates; the termination measure for
/// rendering and filtering.
pub open spec fn update_size(u: Update) -> nat
    decreases u,
{
    match u.keys {
        None => 1,
        Some(ks) => 1 + ukeys_size(ks@),
    }
}

/// Total size of a child update list.
pub open spec fn ukeys_size(s: Seq<(String, Update)>) -> nat
    decreases s,
{
    if s.len() == 0 {
        0
    } else {
        update_size(s.last().1) + ukeys_size(s.drop_last())
    }
}

/// Every update in a child list is bounded by the list's total size.
pub proof fn lemma_ukeys_size_bound(s: Seq<(String, Update)>, i: int)
    requires
        0 <= i < s.len(),
    ensures
        update_size(s[i].1) <= ukeys_size(s),
    decreases s.len(),
{
    if i == s.len() - 1 {
        assert(s[i] == s.last());
    } else {
        lemma_ukeys_size_bound(s.drop_last(), i);
        assert(s.drop_last()[i] == s[i]);
    }
}

/// The scalar slot that renders a reported value.
pub open spec fn is_value_slot(v: Option<Value>, d: Data) -> bool {
    match v {
        None => d matches Data::Null,
        Some(Value::Null) => d matches Data::Null,
        Some(Value::Bool(b)) => d == Data::Bool(b),
        Some(Value::I64(x)) => d == Data::I64(x),
        Some(Value::U64(x)) => d == Data::U64(x),
        Some(Value::F64Bits(x)) => d == Data::F64Bits(x),
        Some(Value::Str(s)) => d matches Data::Str(s2) && s2@ == s@,
    }
}

/// What it means for `fs` to render the child updates `ks`: children still
/// flagged delegated are omitted, the rest are rendered in order.
pub open spec fn is_rendered_keys(ks: Seq<(String, Update)>, fs: Seq<(String, Data)>) -> bool
    decreases ks,
{
    if ks.len() == 0 {
        fs.len() == 0
    } else if ks[0].1.delegated == Some(true) {
        is_rendered_keys(ks.skip(1), fs)
    } else {
        &&& fs.len() >= 1
        &&& fs[0].0@ == ks[0].0@
        &&& is_rendering(ks[0].1, fs[0].1)
        &&& is_rendered_keys(ks.skip(1), fs.skip(1))
    }
}

/// What it means for `d` to render the update `u` in the three-slot shape:
/// children or absent, changed flag or absent, scalar or absent.
pub open spec fn is_rendering(u: Update, d: Data) -> bool
    decreases u,
{
    &&& d matches Data::Arr(slots)
    &&& d matches Data::Arr(slots) ==> {
        &&& slots@.len() == 3
        &&& (match u.keys {
            None => slots@[0] matches Data::Null,
            Some(ks) => slots@[0] matches Data::Obj(fs) && is_rendered_keys(ks@, fs@),
        })
        &&& (if u.changed {
            slots@[1] == Data::Bool(u.new is Some)
        } else {
            slots@[1] matches Data::Null
        })
        &&& is_value_slot(u.new, slots@[2])
    }
}

/// Renders the scalar slot of an update.
fn render_value_slot(v: &Option<Value>) -> (r: Data)
    ensures
        is_value_slot(*v, r),
{
    match v {
        None => Data::Null,
        Some(Value::Null) => Data::Null,
        Some(Value::Bool(b)) => Data::Bool(*b),
        Some(Value::I64(x)) => Data::I64(*x),
        Some(Value::U64(x)) => Data::U64(*x),
        Some(Value::F64Bits(x)) => Data::F64Bits(*x),
        Some(Value::Str(s)) => Data::Str(s.clone()),
    }
}

/// Renders the child updates from position `start` on, omitting children
/// still flagged delegated.
fn render_keys(ks: &Vec<(String, Update)>, start: usize) -> (r: Vec<(String, Data)>)
    requires
        start <= ks@.len(),
    ensures
        is_rendered_keys(ks@.skip(start as int), r@),
    decreases ukeys_size(ks@), 1int, ks@.len() - start,
{
    if start == ks.len() {
        let r: Vec<(String, Data)> = Vec::new();
        proof {
            assert(ks@.skip(start as int) =~= Seq::<(String, Update)>::empty());
        }
        r
    } else {
        proof {
            lemma_ukeys_size_bound(ks@, start as int);
            assert(ks@.skip(start as int)[0] == ks@[start as int]);
            assert(ks@.skip(start as int).skip(1) =~= ks@.skip(start as int + 1));
        }
        let delegated_child = match ks[start].1.delegated {
            Some(true) => true,
            _ => false,
        };
        if delegated_child {
            render_keys(ks, start + 1)
        } else {
            let d = ks[start].1.to_json();
            let k = ks[start].0.clone();
            let mut rest = render_keys(ks, start + 1);
            let ghost rest0 = rest@;
            let mut r: Vec<(String, Data)> = Vec::new();
            r.push((k, d));
            r.append(&mut rest);
            proof {
                assert(r@.skip(1) =~= rest0);
            }
            r
        }
    }
}

impl Update {
    /// Renders this update as a three-slot structure at every level:
    /// children or absent, changed flag or absent, scalar or absent.
    /// Children still flagged delegated are omitted: they are reported
    /// through the handoff channel instead.
    pub fn to_json(&self) -> (r: Data)
        ensures
            is_rendering(*self, r),
        decreases update_size(*self), 0int, 0int,
    {
        let keys_slot = match &self.keys {
            None => Data::Null,
            Some(ks) => {
                proof {
                    assert(ks@.skip(0) =~= ks@);
                }
                Data::Obj(render_keys(ks, 0))
            },
        };
        let changed_slot = if self.changed {
            let has_new = self.new.is_some();
            Data::Bool(has_new)
        } else {
            Data::Null
        };
        let value_slot = render_value_slot(&self.new);
        let mut slots: Vec<Data> = Vec::new();
        slots.push(keys_slot);
        slots.push(changed_slot);
        slots.push(value_slot);
        Data::Arr(slots)
    }
}

/// Whether filtering `u` with the pattern remainder starting at `pos` yields
/// the absent value: nothing along that path changed.
pub open spec fn spec_filter_null(u: Update, pattern: Seq<String>, pos: int) -> bool
    decreases u,
{
    if pos >= pattern.len() {
        !u.changed
    } else if pattern[pos]@ == "**"@ || pattern[pos]@ == "*#"@ {
        false
    } else if pattern[pos]@ == "*"@ {
        u.keys is None
    } else {
        match u.keys {
            None => true,
            Some(ks) => !uhas_key(ks@, pattern[pos]@) || spec_filter_null(
                ks@[ukey_at(ks@, pattern[pos]@)].1,
                pattern,
                pos + 1,
            ),
        }
    }
}

/// What it means for `d` to be the slice of `u` matching the pattern
/// remainder starting at `pos`.
pub open spec fn is_filtered(u: Update, pattern: Seq<String>, pos: int, d: Data) -> bool
    decreases u, 0int,
{
    if pos >= pattern.len() {
        if !u.changed {
            d matches Data::Null
        } else {
            &&& d matches Data::Arr(slots)
            &&& d matches Data::Arr(slots) ==> slots@.len() == 3 && (slots@[0] matches Data::Null)
                && slots@[1] == Data::Bool(u.new is Some) && is_value_slot(u.new, slots@[2])
        }
    } else if pattern[pos]@ == "**"@ || pattern[pos]@ == "*#"@ {
        is_rendering(u, d)
    } else if pattern[pos]@ == "*"@ {
        match u.keys {
            None => d matches Data::Null,
            Some(ks) => {
                &&& d matches Data::Arr(slots)
                &&& d matches Data::Arr(slots) ==> {
                    &&& slots@.len() == 3
                    &&& slots@[1] matches Data::Null
                    &&& slots@[2] matches Data::Null
                    &&& slots@[0] matches Data::Obj(fs)
                    &&& slots@[0] matches Data::Obj(fs) ==> is_filtered_list(
                        ks@,
                        pattern,
                        pos + 1,
                        0,
                        fs@,
                    )
                }
            },
        }
    } else {
        match u.keys {
            None => d matches Data::Null,
            Some(ks) => {
                if !uhas_key(ks@, pattern[pos]@) {
                    d matches Data::Null
                } else {
                    is_filtered(ks@[ukey_at(ks@, pattern[pos]@)].1, pattern, pos + 1, d)
                }
            },
        }
    }
}

/// What it means for `fs` to be the filtered slices of the children of a
/// fanned-out pattern, from child position `i` on: children flagged
/// delegated and children whose slice is absent are omitted.
pub open spec fn is_filtered_list(
    ks: Seq<(String, Update)>,
    pattern: Seq<String>,
    pos: int,
    i: int,
    fs: Seq<(String, Data)>,
) -> bool
    decreases ks, ks.len() - i,
{
    if i < 0 || i >= ks.len() {
        fs.len() == 0
    } else if ks[i].1.delegated == Some(true) {
        is_filtered_list(ks, pattern, pos, i + 1, fs)
    } else if spec_filter_null(ks[i].1, pattern, pos) {
        is_filtered_list(ks, pattern, pos, i + 1, fs)
    } else {
        &&& fs.len() >= 1
        &&& fs[0].0@ == ks[i].0@
        &&& is_filtered(ks[i].1, pattern, pos, fs[0].1)
        &&& !(fs[0].1 matches Data::Null)
        &&& is_filtered_list(ks, pattern, pos, i + 1, fs.skip(1))
    }
}

/// Finds the position of key `k` in a child update list.
fn find_ukey_idx(ks: &Vec<(String, Update)>, k: &String) -> (r: Option<usize>)
    ensures
        match r {
            Some(i) => i < ks@.len() && ks@[i as int].0@ == k@ && (ukeys_unique(ks@) ==> i
                == ukey_at(ks@, k@)),
            None => !uhas_key(ks@, k@),
        },
{
    let mut idx: usize = 0;
    while idx < ks.len()
        invariant
            idx <= ks@.len(),
            forall|j: int| 0 <= j < idx ==> ks@[j].0@ != k@,
        decreases ks@.len() - idx,
    {
        if ks[idx].0.eq(k) {
            proof {
                if ukeys_unique(ks@) {
                    assert(uhas_key(ks@, k@));
                    let j = ukey_at(ks@, k@);
                    if j != idx as int {
                        assert(ks@[j].0@ != ks@[idx as int].0@);
                    }
                }
            }
            return Some(idx);
        }
        idx = idx + 1;
    }
    None
}

/// Filters the children of a fanned-out pattern from child position `start`
/// on, omitting delegated children and absent slices.
fn filter_list(ks: &Vec<(String, Update)>, path: &[String], pos: usize, start: usize) -> (r: Vec<
    (String, Data),
>)
    requires
        ukeys_unique(ks@),
        forall|q: int| 0 <= q < ks@.len() ==> update_wf((#[trigger] ks@[q]).1),
    ensures
        is_filtered_list(ks@, path@, pos as int, start as int, r@),
    decreases *ks, ks@.len() - start,
{
    if start >= ks.len() {
        Vec::new()
    } else {
        proof {
            lemma_ukeys_size_bound(ks@, start as int);
        }
        let delegated_child = match ks[start].1.delegated {
            Some(true) => true,
            _ => false,
        };
        if delegated_child {
            filter_list(ks, path, pos, start + 1)
        } else {
            let cd = ks[start].1.filter_at(path, pos);
            let child_null = match &cd {
                Data::Null => true,
                _ => false,
            };
            if child_null {
                filter_list(ks, path, pos, start + 1)
            } else {
                let k = ks[start].0.clone();
                let mut rest = filter_list(ks, path, pos, start + 1);
                let ghost rest0 = rest@;
                let mut r: Vec<(String, Data)> = Vec::new();
                r.push((k, cd));
                r.append(&mut rest);
                proof {
                    assert(r@.skip(1) =~= rest0);
                }
                r
            }
        }
    }
}

impl Update {
    /// Filters this update with the pattern remainder starting at `pos`.
    fn filter_at(&self, path: &[String], pos: usize) -> (r: Data)
        requires
            update_wf(*self),
        ensures
            is_filtered(*self, path@, pos as int, r),
            (r matches Data::Null) == spec_filter_null(*self, path@, pos as int),
        decreases *self, 0int,
    {
        if pos >= path.len() {
            if !self.changed {
                return Data::Null;
            }
            let changed_slot = Data::Bool(self.new.is_some());
            let value_slot = render_value_slot(&self.new);
            let mut slots: Vec<Data> = Vec::new();
            slots.push(Data::Null);
            slots.push(changed_slot);
            slots.push(value_slot);
            return Data::Arr(slots);
        }
        let seg_all: String = "*".to_owned();
        let seg_deep: String = "**".to_owned();
        let seg_deep_self: String = "*#".to_owned();
        let part: &String = &path[pos];
        if part.eq(&seg_deep) || part.eq(&seg_deep_self) {
            let r = self.to_json();
            proof {
                assert(!(r matches Data::Null));
            }
            return r;
        }
        if part.eq(&seg_all) {
            match &self.keys {
                None => {
                    return Data::Null;
                },
                Some(ks) => {
                    let fs = filter_list(ks, path, pos + 1, 0);
                    let mut slots: Vec<Data> = Vec::new();
                    slots.push(Data::Obj(fs));
                    slots.push(Data::Null);
                    slots.push(Data::Null);
                    return Data::Arr(slots);
                },
            }
        }
        match &self.keys {
            None => Data::Null,
            Some(ks) => {
                match find_ukey_idx(ks, part) {
                    None => Data::Null,
                    Some(i) => ks[i].1.filter_at(path, pos + 1),
                }
            },
        }
    }

    /// Given a pattern, returns the slice of this update matching it, or the
    /// absent value when nothing along that path changed.
    pub fn filter(&self, path: &[String]) -> (r: Data)
        requires
            update_wf(*self),
        ensures
            is_filtered(*self, path@, 0, r),
            (r matches Data::Null) == spec_filter_null(*self, path@, 0),
    {
        self.filter_at(path, 0)
    }
}

} // verus!\n