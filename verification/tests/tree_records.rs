use data_structures::allocator::{BlockAllocator, Nodable, NodeAddr};
use data_structures::trees::top_down::{floor_log2, reversed};
use data_structures::trees::{TreeNode, TreePtr};

fn leaf(
    pool: &mut BlockAllocator<TreeNode<u32, &'static str>>,
    key: u32,
    val: &'static str,
) -> NodeAddr {
    let at = pool.get_node();
    let node = pool.node_mut(at);
    node.key = Some(key);
    node.left = TreePtr::Val(Box::new(val));
    at
}

fn fork(
    pool: &mut BlockAllocator<TreeNode<u32, &'static str>>,
    key: u32,
    left: NodeAddr,
    right: NodeAddr,
) -> NodeAddr {
    let at = pool.get_node();
    let node = pool.node_mut(at);
    node.key = Some(key);
    node.left = TreePtr::Node(left);
    node.right = Some(right);
    at
}

#[test]
fn a_tree_pointer_knows_what_it_is() {
    let null: TreePtr<u8> = TreePtr::default();
    assert!(null.is_null() && !null.is_val() && !null.is_node());
    let at = NodeAddr { block: 3, slot: 4 };
    let node: TreePtr<u8> = TreePtr::Node(at);
    assert!(!node.is_null() && !node.is_val() && node.is_node());
    assert_eq!(at, node.as_node());
    let mut val = TreePtr::Val(Box::new(9u8));
    assert!(!val.is_null() && val.is_val() && !val.is_node());
    assert_eq!(&9, val.as_val());
    *val.as_val_mut() = Box::new(10);
    assert_eq!(&10, val.as_val());
    assert_eq!(10, val.into_val());
}

#[test]
fn a_record_is_blank_a_leaf_or_a_fork() {
    let mut node: TreeNode<u32, u8> = TreeNode::default();
    assert!(node.is_empty() && !node.is_leaf() && !node.has_subtrees());
    assert_eq!(None, node.next());
    node.left = TreePtr::Val(Box::new(1));
    node.key = Some(4);
    assert!(!node.is_empty() && node.is_leaf() && !node.has_subtrees());
    node.left = TreePtr::Node(NodeAddr { block: 0, slot: 1 });
    *node.next_mut() = Some(NodeAddr { block: 0, slot: 2 });
    assert!(!node.is_empty() && !node.is_leaf() && node.has_subtrees());
    assert_eq!(Some(NodeAddr { block: 0, slot: 2 }), node.next());
}

#[test]
fn a_rotation_to_the_left_relinks_in_place() {
    let mut pool = BlockAllocator::new(8, 1);
    let a = leaf(&mut pool, 1, "a");
    let b = leaf(&mut pool, 5, "b");
    let c = leaf(&mut pool, 9, "c");
    let down = fork(&mut pool, 9, b, c);
    let top = fork(&mut pool, 5, a, down);

    TreeNode::left_rotation(&mut pool, top);

    assert_eq!(Some(9), pool.node(top).key);
    assert_eq!(down, pool.node(top).left.as_node());
    assert_eq!(Some(c), pool.node(top).right);
    assert_eq!(Some(5), pool.node(down).key);
    assert_eq!(a, pool.node(down).left.as_node());
    assert_eq!(Some(b), pool.node(down).right);
    assert_eq!(&"a", pool.node(a).left.as_val());
    assert_eq!(&"b", pool.node(b).left.as_val());
    assert_eq!(&"c", pool.node(c).left.as_val());

    TreeNode::right_rotation(&mut pool, top);

    assert_eq!(Some(5), pool.node(top).key);
    assert_eq!(a, pool.node(top).left.as_node());
    assert_eq!(Some(down), pool.node(top).right);
    assert_eq!(Some(9), pool.node(down).key);
    assert_eq!(b, pool.node(down).left.as_node());
    assert_eq!(Some(c), pool.node(down).right);
}

#[test]
fn a_rotation_to_the_right_relinks_in_place() {
    let mut pool = BlockAllocator::new(8, 1);
    let a = leaf(&mut pool, 1, "a");
    let b = leaf(&mut pool, 5, "b");
    let c = leaf(&mut pool, 9, "c");
    let down = fork(&mut pool, 5, a, b);
    let top = fork(&mut pool, 9, down, c);

    TreeNode::right_rotation(&mut pool, top);

    assert_eq!(Some(5), pool.node(top).key);
    assert_eq!(a, pool.node(top).left.as_node());
    assert_eq!(Some(down), pool.node(top).right);
    assert_eq!(Some(9), pool.node(down).key);
    assert_eq!(b, pool.node(down).left.as_node());
    assert_eq!(Some(c), pool.node(down).right);
}

#[test]
fn halvings_are_counted() {
    assert_eq!(0, floor_log2(1));
    assert_eq!(1, floor_log2(2));
    assert_eq!(1, floor_log2(3));
    assert_eq!(2, floor_log2(4));
    assert_eq!(2, floor_log2(7));
    assert_eq!(3, floor_log2(8));
    assert_eq!(9, floor_log2(1023));
    assert_eq!(10, floor_log2(1024));
    assert_eq!(usize::BITS as usize - 1, floor_log2(usize::MAX));
}

#[test]
fn a_vector_is_turned_round() {
    assert_eq!(vec![3, 2, 1], reversed(vec![1, 2, 3]));
    assert_eq!(vec!["x".to_string()], reversed(vec!["x".to_string()]));
    assert_eq!(Vec::<u8>::new(), reversed(Vec::<u8>::new()));
}
