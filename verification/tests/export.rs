use lumindd::export::{blif_node_name, davinci_node_id, dot_node_label};
use lumindd::NodeId;

#[test]
fn export_node_names() {
    let f = NodeId::from_raw(12, false);
    let g = NodeId::from_raw(12, true);
    assert_eq!(blif_node_name(NodeId::one()), "\\$true");
    assert_eq!(blif_node_name(NodeId::zero()), "\\$false");
    assert_eq!(blif_node_name(f), "n12");
    assert_eq!(blif_node_name(g), "n12_inv");
    assert_eq!(davinci_node_id(NodeId::one()), "ONE");
    assert_eq!(davinci_node_id(NodeId::zero()), "ZERO");
    assert_eq!(davinci_node_id(g), "n12");
    assert_eq!(dot_node_label(NodeId::one()), "ONE");
    assert_eq!(dot_node_label(NodeId::zero()), "ZERO");
    assert_eq!(dot_node_label(f), "n12");
    assert_eq!(dot_node_label(g), "n12");
}
