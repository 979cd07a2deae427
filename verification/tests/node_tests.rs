use qumulus::data::Data;
use qumulus::node::{Delegated, Node, NodeTree};
use qumulus::value::Value;
use qumulus::vis::Vis;

fn no_delegation() -> Delegated {
    Delegated { version: 0, active: false }
}

fn string_leaf(ts: u64, s: &str) -> Node {
    Node {
        vis: Vis::new(ts, 0),
        value: Value::Str(s.to_string()),
        keys: None,
        delegated: no_delegation(),
    }
}

#[test]
fn test_expand() {
    let data = Data::Obj(vec![("moo".to_string(), Data::F64Bits((42.0f64).to_bits()))]);

    let node = Node::expand(data, 1000);

    let expected = Node {
        vis: Vis::new(1000, 0),
        value: Value::Null,
        keys: Some(vec![(
            "moo".to_string(),
            Node {
                vis: Vis::new(1000, 0),
                value: Value::F64Bits((42.0f64).to_bits()),
                keys: None,
                delegated: no_delegation(),
            },
        )]),
        delegated: no_delegation(),
    };

    assert_eq!(node, expected);
}

#[test]
fn test_merge() {
    let mut node = NodeTree {
        node: Node {
            vis: Vis::new(1201575709650540, 0),
            value: Value::Null,
            keys: Some(vec![
                ("#5".to_string(), string_leaf(1201575625873458, "test")),
                ("#I".to_string(), string_leaf(1201575640647792, "test")),
                ("#K".to_string(), string_leaf(1201575709365982, "test")),
                ("#S".to_string(), string_leaf(1201575313136481, "test")),
                ("#W".to_string(), string_leaf(1201575709650540, "test")),
            ]),
            delegated: Delegated { version: 1201576002005307, active: true },
        },
        vis: Vis::new(1201575709650540, 0),
    };

    let mut dup = node.clone();
    let update = node.merge(&mut dup);

    println!("update: {:#?}", update);
}

#[test]
fn test_merge_noop() {
    let mut tree = NodeTree {
        node: Node { vis: Vis::new(1, 0), value: Value::Null, keys: None, delegated: no_delegation() },
        vis: Vis::new(1, 0),
    };

    let mut noop: NodeTree = Default::default();

    let (update, externals, _conflicts) = tree.merge(&mut noop);

    assert_eq!(update, None);
    assert_eq!(externals.len(), 0);
}
