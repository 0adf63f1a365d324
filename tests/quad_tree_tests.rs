use blob_morph::quad_tree::{capacity_of, QuadTree};

#[test]
fn capacity_counts_every_level() {
    assert_eq!(capacity_of(0), Some(1));
    assert_eq!(capacity_of(1), Some(5));
    assert_eq!(capacity_of(2), Some(21));
    assert_eq!(capacity_of(3), Some(85));
    assert_eq!(capacity_of(13), Some(89478485));
    assert_eq!(capacity_of(31), Some(6148914691236517205));
    assert_eq!(capacity_of(32), None);
    let t: QuadTree<u8> = QuadTree::new(2);
    assert_eq!(t.nodes.len(), 21);
    assert_eq!(t.max_depth, 2);
}

#[test]
fn parent_and_children_arithmetic() {
    let t: QuadTree<u8> = QuadTree::new(2);
    assert_eq!(t.parent(0), None);
    assert_eq!(t.parent(1), Some(0));
    assert_eq!(t.parent(4), Some(0));
    assert_eq!(t.parent(5), Some(1));
    assert_eq!(t.parent(20), Some(4));
    assert_eq!(t.children(0), [1, 2, 3, 4]);
    assert_eq!(t.children(2), [9, 10, 11, 12]);
    assert_eq!(t.children(usize::MAX), [usize::MAX; 4]);
}

#[test]
fn depth_is_floor_log4() {
    let t: QuadTree<u8> = QuadTree::new(2);
    assert_eq!(t.depth(0), 0);
    assert_eq!(t.depth(3), 0);
    assert_eq!(t.depth(4), 1);
    assert_eq!(t.depth(15), 1);
    assert_eq!(t.depth(16), 2);
    assert_eq!(t.depth(usize::MAX), 31);
}

#[test]
fn is_leaf_ignores_out_of_range_children() {
    let mut t: QuadTree<u8> = QuadTree::new(1);
    t.nodes[0] = Some(1);
    assert!(t.is_leaf(0));
    t.nodes[3] = Some(2);
    assert!(!t.is_leaf(0));
    assert!(t.is_leaf(3));
    assert!(t.is_leaf(1000));
}

#[test]
fn clean_subtree_follows_occupied_slots() {
    let mut t: QuadTree<u8> = QuadTree::new(2);
    t.nodes[0] = Some(0);
    t.nodes[1] = Some(1);
    t.nodes[2] = Some(2);
    t.nodes[5] = Some(5);
    t.nodes[9] = Some(9);
    // slot 3 is empty, so its orphan child 13 is not reached
    t.nodes[13] = Some(13);
    let mut u = QuadTree { nodes: t.nodes.clone(), max_depth: 2 };
    t.clean_subtree(1);
    assert_eq!(t.nodes[1], None);
    assert_eq!(t.nodes[5], None);
    assert_eq!(t.nodes[0], Some(0));
    assert_eq!(t.nodes[9], Some(9));
    u.clean_subtree(0);
    assert!(u.nodes.iter().enumerate().all(|(k, n)| if k == 13 { n.is_some() } else { n.is_none() }));
    t.clean_subtree(100);
    assert_eq!(t.nodes[0], Some(0));
}

#[test]
fn clean_subtree_without_self_keeps_the_node() {
    let mut t: QuadTree<u8> = QuadTree::new(2);
    t.nodes[0] = Some(0);
    t.nodes[2] = Some(2);
    t.nodes[9] = Some(9);
    t.nodes[10] = Some(10);
    t.clean_subtree_without_self(2);
    assert_eq!(t.nodes[2], Some(2));
    assert_eq!(t.nodes[9], None);
    assert_eq!(t.nodes[10], None);
    assert_eq!(t.nodes[0], Some(0));
}

#[test]
fn branch_nodes_lie_above_the_last_layer() {
    let mut t: QuadTree<u8> = QuadTree::new(3);
    t.nodes[0] = Some(0);
    for k in 1..5 {
        t.nodes[k] = Some(k as u8);
    }
    t.nodes[16] = Some(16);
    t.nodes[17] = Some(17);
    // 0 has every child slot taken; 16 and 17 sit at depth 2, which is not above the last layer
    assert_eq!(t.branch_nodes(), vec![1, 2, 3, 4]);
    let e: QuadTree<u8> = QuadTree::new(0);
    assert!(e.branch_nodes().is_empty());
}
