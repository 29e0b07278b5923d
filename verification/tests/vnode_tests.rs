use consistency::digest::hash_key;
use consistency::node::Node;
use consistency::ring::create_replicas_for_node;
use consistency::vnode::VNode;
use std::cmp::Ordering;
use std::fmt;

#[derive(Debug, Clone, Eq, Ord)]
struct TestNode {
    id: String,
}

impl TestNode {
    fn new(id: &str) -> TestNode {
        TestNode { id: id.to_string() }
    }
}

impl Node for TestNode {
    fn name(&self) -> String {
        self.id.clone()
    }
}

impl PartialOrd for TestNode {
    fn partial_cmp(&self, other: &Self) -> Option<Ordering> {
        Some(self.name().cmp(&other.name()))
    }
}

impl PartialEq for TestNode {
    fn eq(&self, other: &Self) -> bool {
        self.name() == other.name()
    }
}

impl fmt::Display for TestNode {
    fn fmt(&self, f: &mut fmt::Formatter) -> fmt::Result {
        f.write_str(&format!("TestNode<({})>", self.name()))
    }
}

#[test]
fn vnode_new_sets_replica_owner_and_hash() {
    let foo = TestNode::new("Foo");
    let vnode = VNode::new(0, &foo);
    assert_eq!(vnode.replica, 0);
    assert_eq!(vnode.node, &foo);
    assert_eq!(vnode.hash, "d2b8b6866c645f148033d065842df7f85179e107");
}

#[test]
fn vnode_hash_is_digest_of_name_underscore_replica() {
    let foo = TestNode::new("Foo");
    let bar = TestNode::new("Bar");
    for r in 0..20 {
        assert_eq!(VNode::new(r, &foo).hash, hash_key(format!("Foo_{}", r).as_str()));
        assert_eq!(VNode::new(r, &bar).hash, hash_key(format!("Bar_{}", r).as_str()));
    }
}

#[test]
fn vnode_replica_is_written_in_decimal() {
    let foo = TestNode::new("Foo");
    assert_eq!(VNode::new(1, &foo).hash, "317e655365678cf910fa7de84d8a88ee1bbe4ae6");
    assert_eq!(VNode::new(10, &foo).hash, "5798a8f967cd523d7ec02f4478be853282083826");
    assert_eq!(VNode::new(123, &foo).hash, "e30b5f13a84c80643e5378d61ee0964dc29c8d22");
}

#[test]
fn vnode_of_empty_name() {
    let nameless = TestNode::new("");
    assert_eq!(VNode::new(7, &nameless).hash, hash_key("_7"));
}

#[test]
fn vnodes_are_equal_by_hash_alone() {
    let foo = TestNode::new("Foo");
    let bar = TestNode::new("Bar");
    let a = VNode { replica: 0, node: &foo, hash: String::from("aa") };
    let b = VNode { replica: 5, node: &bar, hash: String::from("aa") };
    let c = VNode { replica: 0, node: &foo, hash: String::from("ab") };
    assert!(a == b);
    assert!(a != c);
    assert!(VNode::new(0, &foo) == VNode::new(0, &foo));
    assert!(VNode::new(0, &foo) != VNode::new(1, &foo));
}

#[test]
fn vnodes_are_ordered_by_hash_alone() {
    let foo = TestNode::new("Foo");
    let bar = TestNode::new("Bar");
    let a = VNode { replica: 9, node: &foo, hash: String::from("0f") };
    let b = VNode { replica: 1, node: &bar, hash: String::from("a0") };
    let c = VNode { replica: 3, node: &bar, hash: String::from("0f") };
    assert_eq!(a.partial_cmp(&b), Some(Ordering::Less));
    assert_eq!(b.partial_cmp(&a), Some(Ordering::Greater));
    assert_eq!(a.partial_cmp(&c), Some(Ordering::Equal));
    assert!(a < b);
    assert!(b > a);
    assert!(a <= c && a >= c);
    // Foo_1 sits before Foo_0 on the ring.
    assert!(VNode::new(1, &foo) < VNode::new(0, &foo));
}

#[test]
fn replicas_come_in_ring_order() {
    let foo = TestNode::new("Foo");
    let vnodes = create_replicas_for_node(3, &foo);
    let replicas: Vec<usize> = vnodes.iter().map(|v| v.replica).collect();
    assert_eq!(replicas, vec![1, 2, 0]);
    let hashes: Vec<&str> = vnodes.iter().map(|v| v.hash.as_str()).collect();
    assert_eq!(
        hashes,
        vec![
            "317e655365678cf910fa7de84d8a88ee1bbe4ae6",
            "4df850ad6be447b27c868a249b6172ae614dcd1e",
            "d2b8b6866c645f148033d065842df7f85179e107",
        ]
    );
    assert!(vnodes.iter().all(|v| v.node == &foo));
}

#[test]
fn twelve_replicas_come_in_ring_order() {
    let foo = TestNode::new("Foo");
    let vnodes = create_replicas_for_node(12, &foo);
    let replicas: Vec<usize> = vnodes.iter().map(|v| v.replica).collect();
    assert_eq!(replicas, vec![6, 5, 1, 9, 8, 3, 2, 10, 7, 0, 4, 11]);
    for pair in vnodes.windows(2) {
        assert!(pair[0].hash <= pair[1].hash);
    }
}

#[test]
fn no_replicas_for_count_zero() {
    let foo = TestNode::new("Foo");
    assert_eq!(create_replicas_for_node(0, &foo).len(), 0);
}

#[test]
fn one_replica_for_count_one() {
    let foo = TestNode::new("Foo");
    let vnodes = create_replicas_for_node(1, &foo);
    assert_eq!(vnodes.len(), 1);
    assert_eq!(vnodes[0].replica, 0);
    assert_eq!(vnodes[0].hash, hash_key("Foo_0"));
}

fn at<'a>(node: &'a TestNode, hash: &str) -> VNode<'a, TestNode> {
    VNode { replica: 0, node, hash: hash.to_string() }
}

#[test]
fn vnode_order_goes_by_first_difference() {
    let foo = TestNode::new("Foo");
    assert!(at(&foo, "10") <= at(&foo, "20"));
    assert!(!(at(&foo, "20") <= at(&foo, "10")));
    assert!(at(&foo, "abc") <= at(&foo, "abd"));
    assert!(!(at(&foo, "abd") <= at(&foo, "abc")));
    assert!(at(&foo, "0f") < at(&foo, "a0"));
    assert!(at(&foo, "b") > at(&foo, "a"));
}

#[test]
fn vnode_order_puts_a_prefix_first() {
    let foo = TestNode::new("Foo");
    assert!(at(&foo, "") < at(&foo, "a"));
    assert!(at(&foo, "ab") < at(&foo, "abc"));
    assert!(at(&foo, "abc") > at(&foo, "ab"));
    assert_eq!(at(&foo, "").partial_cmp(&at(&foo, "")), Some(Ordering::Equal));
}

#[test]
fn vnode_order_goes_by_code_point() {
    let foo = TestNode::new("Foo");
    assert!(at(&foo, "Z") < at(&foo, "a"));
    assert!(at(&foo, "z") < at(&foo, "é"));
    assert!(at(&foo, "é") < at(&foo, "€"));
    assert!(at(&foo, "\u{ffff}") < at(&foo, "\u{10000}"));
    assert!(at(&foo, "\u{10000}") > at(&foo, "\u{ffff}"));
}

#[test]
fn vnode_order_is_total_and_transitive_on_samples() {
    let foo = TestNode::new("Foo");
    let samples = ["", "0", "00", "0a", "a", "a0", "ab", "b", "f", "ff", "g"];
    for a in samples {
        for b in samples {
            let (x, y) = (at(&foo, a), at(&foo, b));
            assert!(x <= y || y <= x);
            assert_eq!(x <= y && y <= x, a == b);
            assert_eq!(x == y, a == b);
            assert_eq!(x <= y, a <= b);
            for c in samples {
                let z = at(&foo, c);
                if x <= y && y <= z {
                    assert!(x <= z);
                }
            }
        }
    }
}

#[test]
fn vnode_as_text() {
    let foo = TestNode::new("Foo");
    assert_eq!(VNode::new(0, &foo).to_text(), "VNode<(Foo:0:d2b8b6866c645f148033d065842df7f85179e107)>");
    assert_eq!(VNode::new(10, &foo).to_text(), "VNode<(Foo:10:5798a8f967cd523d7ec02f4478be853282083826)>");
    let odd = VNode { replica: 42, node: &foo, hash: String::from("xyz") };
    assert_eq!(odd.to_text(), "VNode<(Foo:42:xyz)>");
}
