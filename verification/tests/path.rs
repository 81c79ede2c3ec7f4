use cambrian::path::{KeyManager, PathNodeContext};
use cambrian::real_key::RealKey;
use cambrian::value::{Node, Value};

fn real_node(x: f64) -> Node {
    Node::Real(RealKey::from_bits(x.to_bits()).unwrap())
}

#[test]
fn add_all_nodes() {
    let value = Value(Node::Sub(vec![
        ("a".to_string(), real_node(1.0)),
        ("b".to_string(), Node::Int(4)),
        ("c".to_string(), Node::Bool(false)),
        ("d".to_string(), Node::Enum("foo".to_string())),
        ("foo".to_string(), Node::AnonMap(vec![(4, real_node(10.0))])),
        ("bar".to_string(), Node::Variant("bar".to_string(), Box::new(Node::Bool(true)))),
        ("optional_foo".to_string(), Node::Optional(Some(Box::new(Node::Bool(false))))),
    ]));

    let mut sut: PathNodeContext<()> = PathNodeContext::default();
    sut.add_nodes_for(&value.0);

    assert_eq!(sut.num_children(), 7);
    for key in ["a", "b", "c", "d"] {
        let node = sut.get_child(key);
        assert_eq!(node.num_children(), 0);
    }

    let foo = sut.get_child("foo");
    assert_eq!(foo.num_children(), 1);
    let foo_child = foo.get_child("4");
    assert_eq!(foo_child.num_children(), 0);

    let bar = sut.get_child("bar");
    assert_eq!(bar.num_children(), 1);
    let bar_child = bar.get_child("bar");
    assert_eq!(bar_child.num_children(), 0);

    let optional_foo = sut.get_child("optional_foo");
    assert_eq!(optional_foo.num_children(), 1);
    let optional_foo_child = optional_foo.get_child("optional");
    assert_eq!(optional_foo_child.num_children(), 0);
}

#[test]
fn partially_overlapping_paths() {
    let value0 = Value(Node::Sub(vec![("foo".to_string(), Node::AnonMap(vec![(4, real_node(10.0))]))]));
    let value1 = Value(Node::Sub(vec![("foo".to_string(), Node::AnonMap(vec![(5, real_node(10.0))]))]));

    let mut sut: PathNodeContext<()> = PathNodeContext::default();
    sut.add_nodes_for(&value0.0);
    sut.add_nodes_for(&value1.0);

    assert_eq!(sut.num_children(), 1);

    let foo = sut.get_child("foo");
    assert_eq!(foo.num_children(), 2);
    for key in ["4", "5"] {
        let foo_child = foo.get_child(key);
        assert_eq!(foo_child.num_children(), 0);
    }
}

#[test]
fn key_manager_hands_out_fresh_keys() {
    let mut km = KeyManager::new();
    assert_eq!(km.next_key(), 0);
    assert_eq!(km.next_key(), 1);
    km.on_key_seen(7);
    assert_eq!(km.next_key(), 8);
    km.on_key_seen(3);
    assert_eq!(km.next_key(), 9);
}

#[test]
fn next_key_after_recorded_anon_map_keys() {
    let value = Value(Node::AnonMap(vec![(2, Node::Bool(true)), (6, Node::Bool(false))]));
    let mut sut: PathNodeContext<()> = PathNodeContext::default();
    sut.add_nodes_for(&value.0);
    assert_eq!(sut.next_key(), 7);
    assert_eq!(sut.next_key(), 8);
}

#[test]
fn get_or_create_child_mut_reuses_existing_child() {
    let mut sut: PathNodeContext<u32> = PathNodeContext::default();
    sut.get_or_create_child_mut("x").rescaling_ctx = 5;
    assert_eq!(sut.num_children(), 1);
    assert_eq!(sut.get_or_create_child_mut("x").rescaling_ctx, 5);
    assert_eq!(sut.num_children(), 1);
    sut.get_or_create_child_mut("y");
    assert_eq!(sut.num_children(), 2);
    assert_eq!(*sut.get_child("y").current_rescaling(), 0);
}

#[test]
fn adding_nodes_keeps_existing_rescalings() {
    let mut sut: PathNodeContext<u32> = PathNodeContext::default();
    sut.rescaling_ctx = 3;
    sut.get_or_create_child_mut("foo").rescaling_ctx = 5;
    let value = Value(Node::Sub(vec![
        ("foo".to_string(), Node::Variant("bar".to_string(), Box::new(Node::Bool(true)))),
        ("baz".to_string(), Node::Bool(false)),
    ]));
    sut.add_nodes_for(&value.0);
    assert_eq!(*sut.current_rescaling(), 3);
    assert_eq!(sut.num_children(), 2);
    assert_eq!(*sut.get_child("foo").current_rescaling(), 5);
    assert_eq!(*sut.get_child("foo").get_child("bar").current_rescaling(), 0);
    assert_eq!(*sut.get_child("baz").current_rescaling(), 0);
}

#[test]
fn default_key_manager_starts_at_zero() {
    let mut km = KeyManager::default();
    assert_eq!(km.next_key(), 0);
    assert_eq!(km.next_key(), 1);
}
