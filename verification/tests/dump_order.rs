use lumindd::dddmp::{dump_text, read_binary, dump_binary, DumpNode, DumpReader, CONST_INDEX};
use lumindd::dump_order::{topo_sort, ArenaNode};
use lumindd::NodeId;

fn one_entry() -> DumpNode {
    DumpNode {
        seq_id: 1,
        var_index: CONST_INDEX,
        then_seq: 0,
        else_seq: 0,
        then_comp: false,
        else_comp: false,
        is_one: true,
    }
}

fn entry(seq_id: u32, var: u16, t: u32, tc: bool, e: u32, ec: bool) -> DumpNode {
    DumpNode {
        seq_id,
        var_index: var,
        then_seq: t,
        else_seq: e,
        then_comp: tc,
        else_comp: ec,
        is_one: false,
    }
}

fn internal(var_index: u16, then_child: NodeId, else_child: NodeId) -> ArenaNode {
    ArenaNode::Internal { var_index, then_child, else_child }
}

/// x0 AND x1 with the node on x1 at index 1 and the root at index 2.
fn and_arena() -> Vec<ArenaNode> {
    vec![
        ArenaNode::Constant,
        internal(1, NodeId::one(), NodeId::zero()),
        internal(0, NodeId::from_raw(1, false), NodeId::zero()),
    ]
}

#[test]
fn topo_sort_lists_children_first() {
    let (nodes, comp) = topo_sort(&and_arena(), NodeId::from_raw(2, false));
    assert!(!comp);
    assert_eq!(
        nodes,
        vec![one_entry(), entry(2, 1, 1, false, 1, true), entry(3, 0, 2, false, 1, true)]
    );
}

#[test]
fn topo_sort_keeps_the_root_complement() {
    let (nodes, comp) = topo_sort(&and_arena(), NodeId::from_raw(2, true));
    assert!(comp);
    assert_eq!(nodes.len(), 3);
    assert_eq!(nodes[2].seq_id, 3);
}

#[test]
fn topo_sort_lists_a_shared_node_once() {
    // x0 XOR x1: both children of the root are the node on x1.
    let arena = vec![
        ArenaNode::Constant,
        internal(1, NodeId::one(), NodeId::zero()),
        internal(0, NodeId::from_raw(1, true), NodeId::from_raw(1, false)),
    ];
    let (nodes, comp) = topo_sort(&arena, NodeId::from_raw(2, false));
    assert!(!comp);
    assert_eq!(
        nodes,
        vec![one_entry(), entry(2, 1, 1, false, 1, true), entry(3, 0, 2, true, 2, false)]
    );
}

#[test]
fn topo_sort_skips_unreachable_nodes() {
    let arena = vec![
        ArenaNode::Constant,
        internal(3, NodeId::one(), NodeId::zero()),
        internal(1, NodeId::one(), NodeId::zero()),
        internal(0, NodeId::from_raw(2, false), NodeId::zero()),
    ];
    let (nodes, _) = topo_sort(&arena, NodeId::from_raw(3, false));
    assert_eq!(
        nodes,
        vec![one_entry(), entry(2, 1, 1, false, 1, true), entry(3, 0, 2, false, 1, true)]
    );
}

#[test]
fn topo_sort_numbers_other_terminals() {
    let arena = vec![
        ArenaNode::Constant,
        ArenaNode::Constant,
        internal(0, NodeId::from_raw(1, false), NodeId::one()),
    ];
    let (nodes, _) = topo_sort(&arena, NodeId::from_raw(2, false));
    let mut terminal = one_entry();
    terminal.seq_id = 2;
    terminal.is_one = false;
    assert_eq!(nodes, vec![one_entry(), terminal, entry(3, 0, 2, false, 1, false)]);
}

#[test]
fn topo_sort_of_a_constant() {
    let arena = vec![ArenaNode::Constant];
    let (nodes, comp) = topo_sort(&arena, NodeId::zero());
    assert!(comp);
    assert_eq!(nodes, vec![one_entry()]);
}

#[test]
fn listing_saves_and_loads_back() {
    let arena = and_arena();
    let (nodes, comp) = topo_sort(&arena, NodeId::from_raw(2, true));
    let text = dump_text(&nodes, comp, 2, &[0, 1], &[0, 1], None);
    let mut reader = DumpReader::new();
    for line in text.split_inclusive('\n') {
        reader.read_line(line, false).unwrap();
    }
    let (back, root, root_comp) = reader.finish().unwrap();
    assert_eq!(back, nodes);
    assert_eq!((root, root_comp), (3, true));
    let bytes = dump_binary(&nodes, comp, 2, &[0, 1], &[0, 1]);
    let loaded = read_binary(&bytes).unwrap();
    assert_eq!(loaded.nodes, nodes);
    assert_eq!((loaded.root, loaded.root_comp), (3, true));
}
