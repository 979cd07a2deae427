use qumulus::data::Data;
use qumulus::node::{Delegated, Node, NodeTree};
use qumulus::path::Path;
use qumulus::update::Update;
use qumulus::value::Value;
use qumulus::vis::Vis;

fn no_delegation() -> Delegated {
    Delegated { version: 0, active: false }
}

fn num(x: f64) -> Data {
    Data::F64Bits(x.to_bits())
}

fn num_value(x: f64) -> Value {
    Value::F64Bits(x.to_bits())
}

fn child<'a>(u: &'a Update, k: &str) -> &'a Update {
    &u.keys
        .as_ref()
        .expect("children expected")
        .iter()
        .find(|(key, _)| key == k)
        .expect("child expected")
        .1
}

fn pattern(segs: &[&str]) -> Path {
    Path::new(segs.iter().map(|s| s.to_string()).collect())
}

#[test]
fn descend_concrete() {
    let mut v = Vis::new(10, 3);
    v.descend(&Vis::new(7, 5));
    assert_eq!(v, Vis::new(7, 5));

    let mut w = Vis::new(5, 2);
    w.merge(&Vis::new(3, 9));
    assert_eq!(w, Vis::new(5, 9));
}

#[test]
fn expand_read_round_trip() {
    let data = Data::Obj(vec![
        ("a".to_string(), Data::Obj(vec![("b".to_string(), num(1.5))])),
        ("c".to_string(), Data::Str("x".to_string())),
    ]);
    let node = Node::expand(data, 7);
    let tree = NodeTree { node, vis: Vis::new(7, 0) };

    let (update, handoffs) = tree.read(&pattern(&["*#"]));
    assert_eq!(handoffs.len(), 0);
    let u = update.expect("visible data");
    assert!(u.changed);
    assert_eq!(u.new, Some(Value::Null));

    let a = child(&u, "a");
    assert!(a.changed);
    let b = child(a, "b");
    assert!(b.changed);
    assert_eq!(b.new, Some(num_value(1.5)));
    let c = child(&u, "c");
    assert_eq!(c.new, Some(Value::Str("x".to_string())));
}

#[test]
fn expand_array_as_keyed_map() {
    let data = Data::Arr(vec![
        num(0.5),
        num(1.5),
        num(2.5),
        num(3.5),
        num(4.5),
        num(5.5),
        num(6.5),
        num(7.5),
        num(8.5),
        num(9.5),
        num(10.5),
    ]);
    let node = Node::expand(data, 3);
    let keys = node.keys.as_ref().expect("children");
    assert_eq!(keys.len(), 11);
    assert_eq!(keys[0].0, "0");
    assert_eq!(keys[9].0, "9");
    assert_eq!(keys[10].0, "10");
    assert_eq!(keys[10].1.value, num_value(10.5));

    // after expansion, arrays read back exactly like objects
    let tree = NodeTree { node, vis: Vis::new(3, 0) };
    let (update, _) = tree.read(&pattern(&["*#"]));
    let u = update.expect("visible data");
    assert_eq!(child(&u, "10").new, Some(num_value(10.5)));
}

#[test]
fn wildcard_read() {
    let data = Data::Obj(vec![("a".to_string(), num(1.0)), ("b".to_string(), num(2.0))]);
    let tree = NodeTree { node: Node::expand(data, 5), vis: Vis::new(5, 0) };

    let (update, _) = tree.read(&pattern(&["*"]));
    let u = update.expect("children visible");
    assert!(!u.changed);
    let a = child(&u, "a");
    assert!(a.changed);
    assert_eq!(a.new, Some(num_value(1.0)));
    let b = child(&u, "b");
    assert!(b.changed);
    assert_eq!(b.new, Some(num_value(2.0)));

    let (missing, _) = tree.read(&pattern(&["missing"]));
    assert_eq!(missing, None);
}

#[test]
fn delegation_handoff() {
    let data = Data::Obj(vec![("z".to_string(), Data::Null)]);
    let mut root = Node::expand(data, 5);

    // a diff that marks z delegated while it carries two children
    let payload = Node::expand(
        Data::Obj(vec![("a".to_string(), num(1.0)), ("b".to_string(), num(2.0))]),
        7,
    );
    let mut delegated_z = Node::delegate(100);
    delegated_z.keys = payload.keys;
    let mut diff = Node {
        vis: Vis::new(0, 0),
        value: Value::Null,
        keys: Some(vec![("z".to_string(), delegated_z)]),
        delegated: no_delegation(),
    };
    let (update, externals, _conflicts) = root.merge(&mut diff, Vis::new(5, 0), Vis::new(7, 0));
    assert_eq!(externals.len(), 1);
    let ext = &externals[0];
    assert!(ext.initial);
    assert_eq!(ext.path.segs, vec!["z".to_string()]);
    assert_eq!(ext.tree.node.keys.as_ref().expect("payload").len(), 2);

    // the initial transition still notifies local subscribers
    let u = update.expect("initial transition is visible locally");
    assert_eq!(child(&u, "z").delegated, Some(true));

    // a later write into the delegated subtree hands off silently
    let data2 = Data::Obj(vec![("z".to_string(), Data::Obj(vec![("a".to_string(), num(3.0))]))]);
    let mut diff2 = Node::expand(data2, 9);
    let (update2, externals2, _conflicts) = root.merge(&mut diff2, Vis::new(5, 0), Vis::new(9, 0));
    assert_eq!(externals2.len(), 1);
    assert!(!externals2[0].initial);
    assert_eq!(externals2[0].path.segs, vec!["z".to_string()]);
    assert!(update2.is_none());
}

#[test]
fn filter_slice() {
    let b = Update {
        changed: true,
        old: None,
        new: Some(Value::Str("x".to_string())),
        keys: None,
        delegated: None,
    };
    let a = Update {
        changed: false,
        old: None,
        new: None,
        keys: Some(vec![("b".to_string(), b)]),
        delegated: None,
    };
    let u = Update {
        changed: false,
        old: None,
        new: None,
        keys: Some(vec![("a".to_string(), a)]),
        delegated: None,
    };

    let r = u.filter(&["a".to_string(), "b".to_string()]);
    assert_eq!(
        r,
        Data::Arr(vec![Data::Null, Data::Bool(true), Data::Str("x".to_string())]),
    );

    let r2 = u.filter(&["a".to_string(), "c".to_string()]);
    assert_eq!(r2, Data::Null);
}

#[test]
fn render_update() {
    let inner = Update {
        changed: true,
        old: None,
        new: Some(Value::Str("v".to_string())),
        keys: None,
        delegated: None,
    };
    let gone = Update {
        changed: false,
        old: None,
        new: None,
        keys: None,
        delegated: Some(true),
    };
    let u = Update {
        changed: true,
        old: None,
        new: Some(Value::Null),
        keys: Some(vec![("k".to_string(), inner), ("d".to_string(), gone)]),
        delegated: None,
    };
    let r = u.to_json();
    assert_eq!(
        r,
        Data::Arr(vec![
            Data::Obj(vec![(
                "k".to_string(),
                Data::Arr(vec![Data::Null, Data::Bool(true), Data::Str("v".to_string())]),
            )]),
            Data::Bool(true),
            Data::Null,
        ]),
    );
}

#[test]
fn merge_idempotent() {
    let base = Data::Obj(vec![
        ("a".to_string(), num(1.0)),
        ("b".to_string(), Data::Obj(vec![("c".to_string(), num(2.0))])),
    ]);
    let mut tree = NodeTree { node: Node::expand(base, 5), vis: Vis::new(5, 0) };

    let change = Data::Obj(vec![("b".to_string(), Data::Obj(vec![("c".to_string(), num(7.0))]))]);
    let mut diff = NodeTree { node: Node::expand(change, 9), vis: Vis::new(9, 0) };

    let (first, first_externals, _) = tree.merge(&mut diff);
    assert!(first.is_some());
    assert_eq!(first_externals.len(), 0);

    // merging the now-reduced diff again reports nothing further
    let (second, second_externals, _) = tree.merge(&mut diff);
    assert_eq!(second, None);
    assert_eq!(second_externals.len(), 0);
}

#[test]
fn merge_commutative() {
    let base = || NodeTree {
        node: Node::expand(Data::Obj(vec![("x".to_string(), num(1.0))]), 5),
        vis: Vis::new(5, 0),
    };
    let diff_a = || NodeTree {
        node: Node::expand(Data::Obj(vec![("x".to_string(), num(10.0))]), 7),
        vis: Vis::new(7, 0),
    };
    let diff_b = || NodeTree {
        node: Node::expand(Data::Obj(vec![("y".to_string(), num(20.0))]), 9),
        vis: Vis::new(9, 0),
    };

    let mut t1 = base();
    let (mut da, mut db) = (diff_a(), diff_b());
    t1.merge(&mut da);
    t1.merge(&mut db);

    let mut t2 = base();
    let (mut da2, mut db2) = (diff_a(), diff_b());
    t2.merge(&mut db2);
    t2.merge(&mut da2);

    assert_eq!(t1, t2);
}

#[test]
fn tombstone_read_absent() {
    let data = Data::Obj(vec![("k".to_string(), Data::Str("v".to_string()))]);
    let mut tree = NodeTree { node: Node::expand(data, 5), vis: Vis::new(5, 0) };

    let mut del = NodeTree {
        node: Node {
            vis: Vis::new(0, 0),
            value: Value::Null,
            keys: Some(vec![("k".to_string(), Node::delete(9))]),
            delegated: no_delegation(),
        },
        vis: Vis::new(5, 0),
    };
    let (update, _, _) = tree.merge(&mut del);
    let u = update.expect("removal is observable");
    assert!(child(&u, "k").changed);
    assert_eq!(child(&u, "k").new, None);

    // the tombstoned value reads as absent even though timestamps remain
    let (read_back, _) = tree.read(&pattern(&["k"]));
    assert_eq!(read_back, None);
}

#[test]
fn equal_timestamp_conflict_keeps_existing() {
    let mut node = Node {
        vis: Vis::new(5, 0),
        value: Value::Str("a".to_string()),
        keys: None,
        delegated: no_delegation(),
    };
    let mut diff = Node {
        vis: Vis::new(5, 0),
        value: Value::Str("b".to_string()),
        keys: None,
        delegated: no_delegation(),
    };
    let (update, externals, conflicts) = node.merge(&mut diff, Vis::new(5, 0), Vis::new(5, 0));
    assert_eq!(update, None);
    assert_eq!(externals.len(), 0);
    assert_eq!(conflicts.len(), 1);
    assert_eq!(conflicts[0].existing, Value::Str("a".to_string()));
    assert_eq!(conflicts[0].incoming, Value::Str("b".to_string()));
    assert_eq!(conflicts[0].timestamp, 5);
    assert_eq!(node.value, Value::Str("a".to_string()));
}

#[test]
fn stale_diff_discarded() {
    let mut node = Node {
        vis: Vis::new(9, 0),
        value: Value::Str("new".to_string()),
        keys: None,
        delegated: no_delegation(),
    };
    let mut diff = Node {
        vis: Vis::new(3, 0),
        value: Value::Str("old".to_string()),
        keys: None,
        delegated: no_delegation(),
    };
    let (update, _, conflicts) = node.merge(&mut diff, Vis::new(9, 0), Vis::new(9, 0));
    assert_eq!(update, None);
    assert_eq!(conflicts.len(), 0);
    assert_eq!(node.value, Value::Str("new".to_string()));
    assert_eq!(diff.vis, Vis::new(0, 0));
    assert_eq!(diff.value, Value::Null);
}

#[test]
fn expand_from_deep_path() {
    let segs = vec!["p".to_string(), "q".to_string()];
    let node = Node::expand_from(&segs, num(4.0), 6);
    assert_eq!(node.vis, Vis::new(0, 0));
    let p = &node.keys.as_ref().expect("p level")[0];
    assert_eq!(p.0, "p");
    let q = &p.1.keys.as_ref().expect("q level")[0];
    assert_eq!(q.0, "q");
    assert_eq!(q.1.value, num_value(4.0));
    assert_eq!(q.1.vis, Vis::new(6, 0));
}

#[test]
fn byte_size_estimates() {
    let node = Node {
        vis: Vis::new(1, 0),
        value: Value::Str("hello".to_string()),
        keys: Some(vec![(
            "ab".to_string(),
            Node {
                vis: Vis::new(1, 0),
                value: Value::Bool(true),
                keys: None,
                delegated: no_delegation(),
            },
        )]),
        delegated: no_delegation(),
    };
    assert_eq!(node.byte_size(), 5);
    assert_eq!(node.len(), 1);
    assert_eq!(node.total_byte_size(), 5 + 2 + 1);
}

#[test]
fn read_behind_delegation_hands_off() {
    let data = Data::Obj(vec![(
        "z".to_string(),
        Data::Obj(vec![("a".to_string(), num(1.0))]),
    )]);
    let mut root = Node::expand(data, 5);
    let mut diff = Node {
        vis: Vis::new(0, 0),
        value: Value::Null,
        keys: Some(vec![("z".to_string(), Node::delegate(50))]),
        delegated: no_delegation(),
    };
    root.merge(&mut diff, Vis::new(5, 0), Vis::new(5, 0));

    let tree = NodeTree { node: root, vis: Vis::new(5, 0) };
    let (update, handoffs) = tree.read(&pattern(&["z", "a"]));
    assert_eq!(handoffs.len(), 1);
    assert_eq!(handoffs[0].path.segs, vec!["z".to_string()]);
    assert_eq!(handoffs[0].match_spec.segs, vec!["a".to_string()]);
    let u = update.expect("delegation flag is reported");
    assert_eq!(child(&u, "z").delegated, Some(true));
}

#[test]
fn merge_commutative_fresh_keys() {
    // two diffs that each create a fresh key, applied in both orders: the
    // stored trees are identical, children included, because children are
    // kept in canonical key order rather than insertion order
    let base = || NodeTree {
        node: Node::expand(Data::Obj(vec![("k".to_string(), num(1.0))]), 5),
        vis: Vis::new(5, 0),
    };
    let diff_a = || NodeTree {
        node: Node::expand(Data::Obj(vec![("x".to_string(), num(10.0))]), 7),
        vis: Vis::new(7, 0),
    };
    let diff_b = || NodeTree {
        node: Node::expand(Data::Obj(vec![("ab".to_string(), num(20.0))]), 9),
        vis: Vis::new(9, 0),
    };

    let mut t1 = base();
    let (mut da, mut db) = (diff_a(), diff_b());
    t1.merge(&mut da);
    t1.merge(&mut db);

    let mut t2 = base();
    let (mut da2, mut db2) = (diff_a(), diff_b());
    t2.merge(&mut db2);
    t2.merge(&mut da2);

    assert_eq!(t1, t2);
    let keys = t1.node.keys.as_ref().expect("children");
    let names: Vec<&str> = keys.iter().map(|(k, _)| k.as_str()).collect();
    assert_eq!(names, vec!["k", "x", "ab"]);
}

#[test]
fn canonical_child_order() {
    // shorter keys come first; equal lengths are ordered lexicographically,
    // so decimal array indexes keep their numeric order
    let data = Data::Obj(vec![("b".to_string(), num(1.0)), ("aa".to_string(), num(2.0))]);
    let node = Node::expand(data, 3);
    let keys = node.keys.as_ref().expect("children");
    assert_eq!(keys[0].0, "b");
    assert_eq!(keys[1].0, "aa");

    let items: Vec<Data> = (0..12).map(|_| num(0.0)).collect();
    let data = Data::Arr(items);
    let node = Node::expand(data, 3);
    let keys = node.keys.as_ref().expect("children");
    assert_eq!(keys[1].0, "1");
    assert_eq!(keys[9].0, "9");
    assert_eq!(keys[10].0, "10");
    assert_eq!(keys[11].0, "11");
}
