use lumindd::dd_verify::{check_canonical_form, debug_verify_dd};
use lumindd::dump_order::ArenaNode;
use lumindd::NodeId;

fn internal(var_index: u16, then_child: NodeId, else_child: NodeId) -> ArenaNode {
    ArenaNode::Internal { var_index, then_child, else_child }
}

fn id(index: u32) -> NodeId {
    NodeId::from_raw(index, false)
}

#[test]
fn ordered_diagram_passes() {
    let arena = vec![
        ArenaNode::Constant,
        internal(1, NodeId::one(), NodeId::zero()),
        internal(0, id(1), NodeId::zero()),
    ];
    assert_eq!(debug_verify_dd(&arena, &[0, 1], id(2)), Ok(()));
    assert_eq!(debug_verify_dd(&arena, &[0, 1], NodeId::from_raw(2, true)), Ok(()));
    assert_eq!(debug_verify_dd(&arena, &[0, 1], NodeId::zero()), Ok(()));
}

#[test]
fn edge_up_the_order_is_reported() {
    let arena = vec![
        ArenaNode::Constant,
        internal(0, NodeId::one(), NodeId::zero()),
        internal(1, id(1), NodeId::zero()),
    ];
    assert_eq!(
        debug_verify_dd(&arena, &[0, 1], id(2)),
        Err("Variable ordering violation: node var 1 (level 1) has then-child var 0 (level 0) \u{2014} parent must have smaller level".to_string())
    );
    // Under the order that puts variable 1 first the same diagram passes.
    assert_eq!(debug_verify_dd(&arena, &[1, 0], id(2)), Ok(()));
}

#[test]
fn else_edge_to_the_same_level_is_reported() {
    let arena = vec![
        ArenaNode::Constant,
        internal(0, NodeId::one(), NodeId::zero()),
        internal(0, NodeId::one(), id(1)),
    ];
    assert_eq!(
        debug_verify_dd(&arena, &[0], id(2)),
        Err("Variable ordering violation: node var 0 (level 0) has else-child var 0 (level 0) \u{2014} parent must have smaller level".to_string())
    );
}

#[test]
fn nodes_outside_the_arena_are_reported() {
    let arena = vec![ArenaNode::Constant, internal(0, id(9), NodeId::zero())];
    assert_eq!(
        debug_verify_dd(&arena, &[0], id(7)),
        Err("Node N7 has raw index 7 but arena has only 2 nodes".to_string())
    );
    assert_eq!(
        debug_verify_dd(&arena, &[0], NodeId::from_raw(1, true)),
        Err("Node N9 has raw index 9 but arena has only 2 nodes".to_string())
    );
}

#[test]
fn a_self_loop_is_out_of_order() {
    let arena = vec![ArenaNode::Constant, internal(0, id(1), NodeId::zero())];
    assert!(debug_verify_dd(&arena, &[0], id(1)).is_err());
}

#[test]
fn canonical_form_rejects_complemented_then_edges() {
    let good = vec![
        ArenaNode::Constant,
        internal(1, NodeId::one(), NodeId::zero()),
        internal(0, id(1), NodeId::from_raw(1, true)),
    ];
    assert_eq!(check_canonical_form(&good), Ok(()));
    let bad = vec![
        ArenaNode::Constant,
        internal(1, NodeId::one(), NodeId::zero()),
        internal(0, NodeId::from_raw(1, true), id(1)),
        internal(2, NodeId::zero(), id(1)),
    ];
    assert_eq!(
        check_canonical_form(&bad),
        Err("Node at index 2 (var 0) has complemented then-child !N1 \u{2014} violates canonical form".to_string())
    );
}
