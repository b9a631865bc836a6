use data_structures::allocator::{BiNode, BlockAllocator, Nodable, Node, NodeAddr};

#[test]
fn records_are_handed_out_block_by_block() {
    let mut pool: BlockAllocator<Node<u32>> = BlockAllocator::new(2, 1);
    assert_eq!(NodeAddr { block: 0, slot: 0 }, pool.get_node());
    assert_eq!(NodeAddr { block: 0, slot: 1 }, pool.get_node());
    assert_eq!(NodeAddr { block: 1, slot: 0 }, pool.get_node());
    assert_eq!(NodeAddr { block: 1, slot: 1 }, pool.get_node());
    assert_eq!(NodeAddr { block: 2, slot: 0 }, pool.get_node());
}

#[test]
fn a_record_comes_out_blank() {
    let mut pool: BlockAllocator<BiNode<u32>> = BlockAllocator::default();
    let at = pool.get_node();
    pool.node_mut(at).val = Some(5);
    pool.node_mut(at).prev = Some(at);
    *pool.node_mut(at).next_mut() = Some(at);
    assert_eq!(Some(at), pool.node(at).next());
    pool.return_node(at);
    let again = pool.get_node();
    assert_eq!(at, again);
    assert_eq!(None, pool.node(again).val);
    assert_eq!(None, pool.node(again).prev);
    assert_eq!(None, pool.node(again).next);
}

#[test]
fn a_record_that_is_out_keeps_what_it_holds() {
    let mut pool: BlockAllocator<Node<String>> = BlockAllocator::new(3, 2);
    let kept = pool.get_node();
    pool.node_mut(kept).val = Some("kept".to_string());
    let mut others = Vec::new();
    for round in 0..20 {
        for i in 0..(round % 4 + 1) {
            let at = pool.get_node();
            pool.node_mut(at).val = Some(format!("{round}-{i}"));
            others.push(at);
        }
        if round % 3 == 0 {
            while others.len() > 2 {
                pool.return_node(others.pop().unwrap());
            }
        }
        assert_eq!(Some("kept".to_string()), pool.node(kept).val);
        pool.node_mut(kept).next = others.last().copied();
        assert_eq!(others.last().copied(), pool.node(kept).next);
    }
}

#[test]
fn two_records_that_are_out_differ() {
    let mut pool: BlockAllocator<Node<u8>> = BlockAllocator::new(4, 1);
    let mut out: Vec<NodeAddr> = Vec::new();
    for round in 0..30 {
        let at = pool.get_node();
        assert!(!out.contains(&at));
        out.push(at);
        if round % 4 == 1 {
            let back = out.remove(0);
            pool.return_node(back);
        }
    }
}

#[test]
fn returned_records_are_reused_last_returned_first() {
    let mut pool: BlockAllocator<Node<u8>> = BlockAllocator::new(8, 1);
    let a = pool.get_node();
    let b = pool.get_node();
    let c = pool.get_node();
    pool.return_node(a);
    pool.return_node(c);
    assert_eq!(c, pool.get_node());
    assert_eq!(a, pool.get_node());
    assert_eq!(NodeAddr { block: 0, slot: 3 }, pool.get_node());
    assert_ne!(b, a);
}

#[test]
fn growing_the_directory_leaves_records_in_place() {
    let mut pool: BlockAllocator<Node<usize>> = BlockAllocator::new(1, 1);
    let mut out = Vec::new();
    for i in 0..100 {
        let at = pool.get_node();
        assert_eq!(NodeAddr { block: i, slot: 0 }, at);
        pool.node_mut(at).val = Some(i * i);
        out.push(at);
    }
    for (i, at) in out.iter().enumerate() {
        assert_eq!(Some(i * i), pool.node(*at).val);
    }
}

#[test]
fn default_sizes() {
    assert_eq!(256, BlockAllocator::<Node<u8>>::DEFAULT_BLOCK_SIZE);
    assert_eq!(32, BlockAllocator::<Node<u8>>::DEFAULT_BLOCK_CAP);
    let mut pool: BlockAllocator<Node<u8>> = BlockAllocator::default();
    for slot in 0..256 {
        assert_eq!(NodeAddr { block: 0, slot }, pool.get_node());
    }
    assert_eq!(NodeAddr { block: 1, slot: 0 }, pool.get_node());
}
