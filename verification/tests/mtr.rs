use lumindd::mtr::{GroupFlags, MtrNode, MtrTree};

#[test]
fn test_mtr_node_basic() {
    let node = MtrNode::new(0, 8, GroupFlags::default_flags());
    assert_eq!(node.low, 0);
    assert_eq!(node.size, 8);
    assert_eq!(node.high(), 8);
    assert!(node.contains(0));
    assert!(node.contains(7));
    assert!(!node.contains(8));
}

#[test]
fn test_mtr_tree_insert() {
    let mut tree = MtrTree::new(8);
    tree.make_group(0, 4, GroupFlags::default_flags());
    tree.make_group(4, 4, GroupFlags::fixed());
    tree.make_group(0, 2, GroupFlags::terminal());

    tree.validate();
    assert_eq!(tree.root().children.len(), 2);

    // The group [0,2) should be a child of [0,4).
    let g04 = &tree.root().children[0];
    assert_eq!(g04.low, 0);
    assert_eq!(g04.size, 4);
    assert_eq!(g04.children.len(), 1);
    assert_eq!(g04.children[0].low, 0);
    assert_eq!(g04.children[0].size, 2);
    assert!(g04.children[0].flags.contains(GroupFlags::terminal()));
}

#[test]
fn test_find_group() {
    let mut tree = MtrTree::new(8);
    tree.make_group(0, 4, GroupFlags::default_flags());
    tree.make_group(4, 4, GroupFlags::default_flags());

    let g = tree.find_group(2);
    assert_eq!(g.low, 0);
    assert_eq!(g.size, 4);

    let g2 = tree.find_group(5);
    assert_eq!(g2.low, 4);
    assert_eq!(g2.size, 4);
}

#[test]
fn test_leaf_blocks() {
    let mut tree = MtrTree::new(8);
    tree.make_group(0, 4, GroupFlags::default_flags());
    tree.make_group(4, 4, GroupFlags::fixed());

    let blocks = tree.leaf_blocks();
    assert_eq!(blocks.len(), 2);
    assert_eq!(blocks[0], (0, 4, false));
    assert_eq!(blocks[1], (4, 4, true));
}

#[test]
fn test_leaf_blocks_with_gaps() {
    let mut tree = MtrTree::new(8);
    tree.make_group(2, 3, GroupFlags::default_flags());

    let blocks = tree.leaf_blocks();
    // levels 0,1 are singletons, then [2,5) block, then 5,6,7 singletons
    assert_eq!(blocks.len(), 6);
    assert_eq!(blocks[0], (0, 1, false));
    assert_eq!(blocks[1], (1, 1, false));
    assert_eq!(blocks[2], (2, 3, false));
    assert_eq!(blocks[3], (5, 1, false));
}

#[test]
fn mtr_enclosing_group_absorbs_children() {
    let mut tree = MtrTree::new(16);
    tree.make_group(6, 2, GroupFlags::default_flags());
    tree.make_group(2, 2, GroupFlags::fixed());
    // [1, 9) covers both existing groups; they move under it, sorted.
    let g = tree.make_group(1, 8, GroupFlags::default_flags());
    assert_eq!((g.low, g.size), (1, 8));
    assert_eq!(g.children.len(), 2);
    assert_eq!((g.children[0].low, g.children[0].size), (2, 2));
    assert_eq!((g.children[1].low, g.children[1].size), (6, 2));
    tree.validate();
    assert_eq!(tree.root().children.len(), 1);
    let blocks = tree.leaf_blocks();
    let mut next = 0u16;
    for (low, size, _) in &blocks {
        assert_eq!(*low, next);
        next = low + size;
    }
    assert_eq!(next, 16);
}

#[test]
fn mtr_find_group_mut_and_root_access() {
    let mut tree = MtrTree::new(8);
    tree.make_group(0, 4, GroupFlags::default_flags());
    {
        let g = tree.root_mut().find_group_mut(3);
        assert_eq!((g.low, g.size), (0, 4));
        g.flags = GroupFlags::fixed();
    }
    assert!(tree.root().children[0].flags.contains(GroupFlags::fixed()));
    assert_eq!(tree.find_group(6).size, 8);
    let blocks = tree.leaf_blocks();
    assert_eq!(blocks[0], (0, 4, true));
}

#[test]
fn mtr_insert_child_on_node() {
    let mut node = MtrNode::new(0, 10, GroupFlags::default_flags());
    node.insert_child(5, 3, GroupFlags::default_flags());
    let c = node.insert_child(1, 2, GroupFlags::fixed());
    assert_eq!((c.low, c.size), (1, 2));
    assert_eq!(node.children.len(), 2);
    assert_eq!(node.children[0].low, 1);
    assert_eq!(node.children[1].low, 5);
    node.validate();
    assert_eq!(node.find_group(6).low, 5);
    assert_eq!(node.find_group(9).low, 0);
}

#[test]
fn group_flags_bits() {
    assert_eq!(GroupFlags::default_flags().bits(), 0);
    assert_eq!(GroupFlags::fixed().bits(), 1);
    assert_eq!(GroupFlags::terminal().bits(), 2);
    let both = GroupFlags::fixed().union(GroupFlags::terminal());
    assert!(both.contains(GroupFlags::fixed()));
    assert!(both.contains(GroupFlags::terminal()));
    assert!(!GroupFlags::fixed().contains(GroupFlags::terminal()));
    assert_eq!(GroupFlags::from_bits_truncate(0xFF).bits(), 3);
    assert_eq!(GroupFlags::default(), GroupFlags::default_flags());
}
