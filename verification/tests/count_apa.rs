use lumindd::apa::ApInt;
use lumindd::count_apa::bdd_count_minterm_apa;
use lumindd::dump_order::ArenaNode;
use lumindd::NodeId;

fn internal(var_index: u16, then_child: NodeId, else_child: NodeId) -> ArenaNode {
    ArenaNode::Internal { var_index, then_child, else_child }
}

fn id(index: u32) -> NodeId {
    NodeId::from_raw(index, false)
}

/// Variables x = 0, y = 1, z = 2 in their natural order, with
/// x (1), y (2), z (3), x AND y (4), y OR z (5), x OR y OR z (6).
fn xyz_arena() -> Vec<ArenaNode> {
    vec![
        ArenaNode::Constant,
        internal(0, NodeId::one(), NodeId::zero()),
        internal(1, NodeId::one(), NodeId::zero()),
        internal(2, NodeId::one(), NodeId::zero()),
        internal(0, id(2), NodeId::zero()),
        internal(1, NodeId::one(), id(3)),
        internal(0, NodeId::one(), id(5)),
    ]
}

#[test]
fn test_apa_count_matches_f64() {
    let arena = xyz_arena();
    let perm = [0u32, 1, 2];
    assert_eq!(bdd_count_minterm_apa(&arena, &perm, id(4), 3).to_string(), "2");
    assert_eq!(bdd_count_minterm_apa(&arena, &perm, id(6), 3).to_string(), "7");
    let nx = NodeId::from_raw(1, true);
    assert_eq!(bdd_count_minterm_apa(&arena, &perm, nx, 3).to_string(), "4");
    assert_eq!(bdd_count_minterm_apa(&arena, &perm, NodeId::one(), 3).to_string(), "8");
    assert_eq!(bdd_count_minterm_apa(&arena, &perm, NodeId::zero(), 3).to_string(), "0");
}

#[test]
fn test_apa_exact_large() {
    let arena = vec![ArenaNode::Constant, internal(0, NodeId::one(), NodeId::zero())];
    let perm: Vec<u32> = (0..100).collect();
    let count = bdd_count_minterm_apa(&arena, &perm, id(1), 100);
    assert_eq!(count, ApInt::two_power(99));
}

#[test]
fn count_of_a_negated_conjunction() {
    // NOT (x AND y) over 3 variables: 8 - 2.
    let arena = xyz_arena();
    let perm = [0u32, 1, 2];
    let f = NodeId::from_raw(4, true);
    assert_eq!(bdd_count_minterm_apa(&arena, &perm, f, 3).to_string(), "6");
}

#[test]
fn count_follows_the_variable_order() {
    // x0 AND x1 with x1 on the top level: the count does not depend on the order.
    let arena = vec![
        ArenaNode::Constant,
        internal(0, NodeId::one(), NodeId::zero()),
        internal(1, id(1), NodeId::zero()),
    ];
    let perm = [1u32, 0];
    assert_eq!(bdd_count_minterm_apa(&arena, &perm, id(2), 2).to_string(), "1");
    assert_eq!(bdd_count_minterm_apa(&arena, &perm, NodeId::from_raw(2, true), 2).to_string(), "3");
}

#[test]
fn count_with_shared_complemented_children() {
    // x0 XOR x1: the root's children are the node on x1 and its negation.
    let arena = vec![
        ArenaNode::Constant,
        internal(1, NodeId::one(), NodeId::zero()),
        internal(0, NodeId::from_raw(1, true), id(1)),
    ];
    let perm = [0u32, 1];
    assert_eq!(bdd_count_minterm_apa(&arena, &perm, id(2), 2).to_string(), "2");
    assert_eq!(bdd_count_minterm_apa(&arena, &perm, id(2), 4).to_string(), "8");
}
