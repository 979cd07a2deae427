//! Structured input and output values: the generic shape that writes arrive
//! in and that rendered updates are returned in, and its expansion into a
//! node tree.

use vstd::prelude::*;

use crate::node::{key_lt, keys_sorted, keys_unique, node_wf, Delegated, Node};
use crate::value::Value;
use crate::vis::Vis;

verus! {

/// A structured value: a scalar, an array, or a string-keyed object.
/// Floating-point numbers are carried by their bit pattern.
#[derive(Debug, PartialEq)]
pub enum Data {
    Null,
    Bool(bool),
    I64(i64),
    U64(u64),
    F64Bits(u64),
    Str(String),
    Arr(Vec<Data>),
    Obj(Vec<(String, Data)>),
}

/// Number of values in a structured value; the termination measure.
pub open spec fn data_size(d: Data) -> nat
    decreases d,
{
    match d {
        Data::Arr(items) => 1 + arr_size(items@),
        Data::Obj(fields) => 1 + obj_size(fields@),
        _ => 1,
    }
}

/// Total size of the items of an array.
pub open spec fn arr_size(s: Seq<Data>) -> nat
    decreases s,
{
    if s.len() == 0 {
        0
    } else {
        data_size(s.last()) + arr_size(s.drop_last())
    }
}

/// Total size of the fields of an object.
pub open spec fn obj_size(s: Seq<(String, Data)>) -> nat
    decreases s,
{
    if s.len() == 0 {
        0
    } else {
        data_size(s.last().1) + obj_size(s.drop_last())
    }
}

/// Well-formed structured value: object fields have unique names, stand in
/// canonical order, and are themselves well formed, at every level.
pub open spec fn data_wf(d: Data) -> bool
    decreases d,
{
    match d {
        Data::Arr(items) => forall|i: int| 0 <= i < items@.len() ==> data_wf(#[trigger] items@[i]),
        Data::Obj(fields) => (forall|i: int, j: int|
            0 <= i < j < fields@.len() ==> fields@[i].0@ != fields@[j].0@) && (forall|i: int, j: int|
            0 <= i < j < fields@.len() ==> key_lt(fields@[i].0@, fields@[j].0@)) && (forall|i: int|
            0 <= i < fields@.len() ==> data_wf(#[trigger] fields@[i].1)),
        _ => true,
    }
}

/// An item of an array is strictly smaller than the array.
pub proof fn lemma_arr_size_bound(s: Seq<Data>, i: int)
    requires
        0 <= i < s.len(),
    ensures
        data_size(s[i]) <= arr_size(s),
    decreases s.len(),
{
    if i == s.len() - 1 {
        assert(s[i] == s.last());
    } else {
        lemma_arr_size_bound(s.drop_last(), i);
        assert(s.drop_last()[i] == s[i]);
    }
}

/// A field of an object is strictly smaller than the object.
pub proof fn lemma_obj_size_bound(s: Seq<(String, Data)>, i: int)
    requires
        0 <= i < s.len(),
    ensures
        data_size(s[i].1) <= obj_size(s),
    decreases s.len(),
{
    if i == s.len() - 1 {
        assert(s[i] == s.last());
    } else {
        lemma_obj_size_bound(s.drop_last(), i);
        assert(s.drop_last()[i] == s[i]);
    }
}

/// The digit character for one decimal digit.
pub open spec fn digit_char(d: nat) -> char {
    if d == 0 {
        '0'
    } else if d == 1 {
        '1'
    } else if d == 2 {
        '2'
    } else if d == 3 {
        '3'
    } else if d == 4 {
        '4'
    } else if d == 5 {
        '5'
    } else if d == 6 {
        '6'
    } else if d == 7 {
        '7'
    } else if d == 8 {
        '8'
    } else {
        '9'
    }
}

/// The decimal representation of a number, without leading zeros.
pub open spec fn dec_str(n: nat) -> Seq<char>
    decreases n,
{
    if n < 10 {
        seq![digit_char(n)]
    } else {
        dec_str(n / 10).push(digit_char(n % 10))
    }
}

/// Decimal representations have at least one digit, and at least two from
/// ten upward.
pub proof fn lemma_dec_str_len(n: nat)
    ensures
        dec_str(n).len() >= 1,
        n >= 10 ==> dec_str(n).len() >= 2,
    decreases n,
{
    if n >= 10 {
        lemma_dec_str_len(n / 10);
    }
}

/// A smaller number never has the longer decimal representation.
pub proof fn lemma_dec_len_mono(a: nat, b: nat)
    requires
        a <= b,
    ensures
        dec_str(a).len() <= dec_str(b).len(),
    decreases b,
{
    lemma_dec_str_len(a);
    lemma_dec_str_len(b);
    if a >= 10 && b >= 10 {
        assert(a / 10 <= b / 10) by (nonlinear_arith)
            requires
                a <= b,
        ;
        lemma_dec_len_mono(a / 10, b / 10);
    }
}

/// The canonical key order on decimal representations is the numeric order.
pub proof fn lemma_dec_key_lt(a: nat, b: nat)
    requires
        a < b,
    ensures
        crate::node::key_lt(dec_str(a), dec_str(b)),
    decreases b,
{
    lemma_dec_len_mono(a, b);
    lemma_dec_str_len(a);
    lemma_dec_str_len(b);
    if dec_str(a).len() == dec_str(b).len() {
        if b < 10 {
            assert((digit_char(a) as int) < (digit_char(b) as int));
            assert(crate::node::lex_lt(dec_str(a), dec_str(b)));
        } else {
            if a < 10 {
                assert(dec_str(a).len() == 1 && dec_str(b).len() >= 2);
            } else {
                assert(a / 10 <= b / 10) by (nonlinear_arith)
                    requires
                        a < b,
                ;
                lemma_dec_len_mono(a / 10, b / 10);
                if a / 10 == b / 10 {
                    assert(a % 10 < b % 10) by (nonlinear_arith)
                        requires
                            a < b,
                            a / 10 == b / 10,
                    ;
                    assert((digit_char(a % 10) as int) < (digit_char(b % 10) as int));
                    crate::node::lemma_lex_push_eq(
                        dec_str(a / 10),
                        digit_char(a % 10),
                        digit_char(b % 10),
                    );
                } else {
                    lemma_dec_key_lt(a / 10, b / 10);
                    assert(dec_str(a / 10).len() == dec_str(b / 10).len());
                    assert(crate::node::lex_lt(dec_str(a / 10), dec_str(b / 10)));
                    crate::node::lemma_lex_push_lt(
                        dec_str(a / 10),
                        dec_str(b / 10),
                        digit_char(a % 10),
                        digit_char(b % 10),
                    );
                }
            }
        }
    }
}

/// Distinct numbers have distinct decimal representations.
pub proof fn lemma_dec_str_injective(a: nat, b: nat)
    requires
        a != b,
    ensures
        dec_str(a) != dec_str(b),
    decreases a + b,
{
    lemma_dec_str_len(a);
    lemma_dec_str_len(b);
    if a < 10 && b < 10 {
        assert(dec_str(a)[0] == digit_char(a));
        assert(dec_str(b)[0] == digit_char(b));
    } else if a < 10 {
        assert(dec_str(a).len() == 1 && dec_str(b).len() >= 2);
    } else if b < 10 {
        assert(dec_str(a).len() >= 2 && dec_str(b).len() == 1);
    } else {
        if dec_str(a) == dec_str(b) {
            assert(dec_str(a).last() == digit_char(a % 10));
            assert(dec_str(b).last() == digit_char(b % 10));
            if a % 10 == b % 10 {
                assert(a / 10 != b / 10);
                lemma_dec_str_injective(a / 10, b / 10);
                assert(dec_str(a).drop_last() == dec_str(a / 10));
                assert(dec_str(b).drop_last() == dec_str(b / 10));
            }
        }
    }
}

/// The decimal digit as a one-character string.
fn digit_str(d: u64) -> (r: &'static str)
    requires
        d < 10,
    ensures
        r@ == seq![digit_char(d as nat)],
{
    let r: &'static str = match d {
        0 => "0",
        1 => "1",
        2 => "2",
        3 => "3",
        4 => "4",
        5 => "5",
        6 => "6",
        7 => "7",
        8 => "8",
        _ => "9",
    };
    proof {
        reveal_strlit("0");
        reveal_strlit("1");
        reveal_strlit("2");
        reveal_strlit("3");
        reveal_strlit("4");
        reveal_strlit("5");
        reveal_strlit("6");
        reveal_strlit("7");
        reveal_strlit("8");
        reveal_strlit("9");
        assert(r@ =~= seq![digit_char(d as nat)]);
    }
    r
}

/// The decimal representation of `n` as a string, for keying array elements.
pub fn dec_key(n: u64) -> (r: String)
    ensures
        r@ == dec_str(n as nat),
    decreases n,
{
    if n < 10 {
        digit_str(n).to_owned()
    } else {
        let mut s = dec_key(n / 10);
        s.append(digit_str(n % 10));
        proof {
            assert(s@ =~= dec_str(n as nat));
        }
        s
    }
}

/// What it means for `r` to be the expansion of `d` at `t`: every produced
/// node is stamped with `t`, object fields become child keys directly, and
/// array elements become children keyed by their decimal index.
pub open spec fn is_expansion(d: Data, t: u64, r: Node) -> bool
    decreases d,
{
    &&& r.vis == (Vis { updated: t, deleted: 0u64 })
    &&& r.delegated == (Delegated { version: 0u64, active: false })
    &&& match d {
        Data::Null => r.value matches Value::Null && r.keys is None,
        Data::Bool(b) => r.value == Value::Bool(b) && r.keys is None,
        Data::I64(v) => r.value == Value::I64(v) && r.keys is None,
        Data::U64(v) => r.value == Value::U64(v) && r.keys is None,
        Data::F64Bits(v) => r.value == Value::F64Bits(v) && r.keys is None,
        Data::Str(s) => (r.value matches Value::Str(rs) && rs@ == s@) && r.keys is None,
        Data::Obj(fields) => {
            &&& r.value matches Value::Null
            &&& r.keys matches Some(ks) && ks@.len() == fields@.len() && (forall|i: int|
                0 <= i < fields@.len() ==> (#[trigger] ks@[i]).0@ == fields@[i].0@ && is_expansion(
                    fields@[i].1,
                    t,
                    ks@[i].1,
                ))
        },
        Data::Arr(items) => {
            &&& r.value matches Value::Null
            &&& r.keys matches Some(ks) && ks@.len() == items@.len() && (forall|i: int|
                0 <= i < items@.len() ==> (#[trigger] ks@[i]).0@ == dec_str(i as nat)
                    && is_expansion(items@[i], t, ks@[i].1))
        },
    }
}

/// What it means for `r` to wrap `inner` in a chain of placeholder nodes,
/// one single-child level for each segment of `path`.
pub open spec fn is_wrapped(path: Seq<String>, inner: Node, r: Node) -> bool
    decreases path.len(),
{
    if path.len() == 0 {
        r == inner
    } else {
        &&& r.vis == (Vis { updated: 0u64, deleted: 0u64 })
        &&& r.value matches Value::Null
        &&& r.delegated == (Delegated { version: 0u64, active: false })
        &&& r.keys matches Some(ks)
        &&& r.keys matches Some(ks) ==> ks@.len() == 1 && ks@[0].0 == path[0] && is_wrapped(
            path.skip(1),
            inner,
            ks@[0].1,
        )
    }
}

impl Node {
    /// Expands a structured value into a node tree, stamping every produced
    /// node's update timestamp with `timestamp`. Arrays and objects become
    /// indistinguishable key-to-child maps.
    #[verifier::loop_isolation(false)]
    pub fn expand(data: Data, timestamp: u64) -> (r: Node)
        requires
            data_wf(data),
        ensures
            is_expansion(data, timestamp, r),
            node_wf(r),
        decreases data_size(data),
    {
        let vis = Vis::update(timestamp);
        match data {
            Data::Null => Node {
                vis,
                value: Value::Null,
                keys: None,
                delegated: Delegated::none(),
            },
            Data::Bool(b) => Node {
                vis,
                value: Value::Bool(b),
                keys: None,
                delegated: Delegated::none(),
            },
            Data::I64(v) => Node {
                vis,
                value: Value::I64(v),
                keys: None,
                delegated: Delegated::none(),
            },
            Data::U64(v) => Node {
                vis,
                value: Value::U64(v),
                keys: None,
                delegated: Delegated::none(),
            },
            Data::F64Bits(v) => Node {
                vis,
                value: Value::F64Bits(v),
                keys: None,
                delegated: Delegated::none(),
            },
            Data::Str(s) => Node {
                vis,
                value: Value::Str(s),
                keys: None,
                delegated: Delegated::none(),
            },
            Data::Obj(mut fields) => {
                let ghost fields0 = fields@;
                let flen = fields.len();
                let mut ks: Vec<(String, Node)> = Vec::new();
                let mut i: usize = 0;
                while i < flen
                    invariant
                        i <= flen,
                        fields@.len() == flen && fields0.len() == flen,
                        forall|q: int| i <= q < flen ==> #[trigger] fields@[q] == fields0[q],
                        forall|q: int, p: int|
                            0 <= q < p < flen ==> fields0[q].0@ != fields0[p].0@,
                        forall|q: int| 0 <= q < flen ==> data_wf(#[trigger] fields0[q].1),
                        ks@.len() == i,
                        forall|q: int|
                            0 <= q < i ==> (#[trigger] ks@[q]).0@ == fields0[q].0@ && is_expansion(
                                fields0[q].1,
                                timestamp,
                                ks@[q].1,
                            ) && node_wf(ks@[q].1),
                    decreases flen - i,
                {
                    let mut pair = (String::new(), Data::Null);
                    fields.set_and_swap(i, &mut pair);
                    let (fk, fd) = pair;
                    proof {
                        assert(fd == fields0[i as int].1);
                        lemma_obj_size_bound(fields0, i as int);
                    }
                    let child = Node::expand(fd, timestamp);
                    ks.push((fk, child));
                    i = i + 1;
                }
                let r = Node { vis, value: Value::Null, keys: Some(ks), delegated: Delegated::none() };
                proof {
                    assert(keys_unique(r.keys->0@));
                    assert forall|a: int, b: int|
                        0 <= a < b < r.keys->0@.len() implies key_lt(
                        r.keys->0@[a].0@,
                        r.keys->0@[b].0@,
                    ) by {
                        assert(key_lt(fields0[a].0@, fields0[b].0@));
                    }
                    assert(keys_sorted(r.keys->0@));
                }
                r
            },
            Data::Arr(mut items) => {
                let ghost items0 = items@;
                let ilen = items.len();
                let mut ks: Vec<(String, Node)> = Vec::new();
                let mut i: usize = 0;
                while i < ilen
                    invariant
                        i <= ilen,
                        items@.len() == ilen && items0.len() == ilen,
                        forall|q: int| i <= q < ilen ==> #[trigger] items@[q] == items0[q],
                        forall|q: int| 0 <= q < ilen ==> data_wf(#[trigger] items0[q]),
                        ks@.len() == i,
                        forall|q: int|
                            0 <= q < i ==> (#[trigger] ks@[q]).0@ == dec_str(q as nat)
                                && is_expansion(items0[q], timestamp, ks@[q].1) && node_wf(
                                ks@[q].1,
                            ),
                    decreases ilen - i,
                {
                    let mut slot = Data::Null;
                    items.set_and_swap(i, &mut slot);
                    proof {
                        assert(slot == items0[i as int]);
                        lemma_arr_size_bound(items0, i as int);
                    }
                    let key = dec_key(i as u64);
                    let child = Node::expand(slot, timestamp);
                    ks.push((key, child));
                    i = i + 1;
                }
                let r = Node { vis, value: Value::Null, keys: Some(ks), delegated: Delegated::none() };
                proof {
                    assert(keys_unique(r.keys->0@)) by {
                        assert forall|a: int, b: int|
                            0 <= a < b < r.keys->0@.len() implies r.keys->0@[a].0@
                            != r.keys->0@[b].0@ by {
                            lemma_dec_str_injective(a as nat, b as nat);
                        }
                    }
                    assert(keys_sorted(r.keys->0@)) by {
                        assert forall|a: int, b: int|
                            0 <= a < b < r.keys->0@.len() implies key_lt(
                            r.keys->0@[a].0@,
                            r.keys->0@[b].0@,
                        ) by {
                            lemma_dec_key_lt(a as nat, b as nat);
                        }
                    }
                }
                r
            },
        }
    }

    /// Wraps this node in a chain of single-child placeholder nodes, one for
    /// each path segment, so that data addressed at a deep path becomes a
    /// diff rooted at the tree root.
    pub fn prepend_path(self, path: &[String]) -> (r: Node)
        ensures
            is_wrapped(path@, self, r),
            node_wf(self) ==> node_wf(r),
    {
        let mut node = self;
        let mut i: usize = path.len();
        while i > 0
            invariant
                i <= path@.len(),
                is_wrapped(path@.skip(i as int), self, node),
                node_wf(self) ==> node_wf(node),
            decreases i,
        {
            i = i - 1;
            let mut ks: Vec<(String, Node)> = Vec::new();
            let seg = slice_index_string(path, i);
            ks.push((seg, node));
            node = Node {
                vis: Vis::new(0, 0),
                value: Value::Null,
                keys: Some(ks),
                delegated: Delegated::none(),
            };
            proof {
                assert(path@.skip(i as int)[0] == path@[i as int]);
                assert(path@.skip(i as int).skip(1) =~= path@.skip(i + 1));
            }
        }
        proof {
            assert(path@.skip(0) =~= path@);
        }
        node
    }

    /// Expands a structured value addressed at a deep path into a diff rooted
    /// at the tree root.
    pub fn expand_from(path: &[String], data: Data, timestamp: u64) -> (r: Node)
        requires
            data_wf(data),
        ensures
            exists|inner: Node|
                is_expansion(data, timestamp, inner) && #[trigger] is_wrapped(path@, inner, r),
            node_wf(r),
    {
        let inner = Node::expand(data, timestamp);
        let ghost inner0 = inner;
        let r = inner.prepend_path(path);
        proof {
            assert(is_expansion(data, timestamp, inner0) && is_wrapped(path@, inner0, r));
        }
        r
    }
}

/// Copies one segment out of a borrowed path.
fn slice_index_string(path: &[String], i: usize) -> (r: String)
    requires
        i < path@.len(),
    ensures
        r == path@[i as int],
{
    path[i].clone()
}

} // verus!
