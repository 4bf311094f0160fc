use lumindd::NodeId;

#[test]
fn node_constants() {
    assert!(NodeId::one().is_one());
    assert!(!NodeId::one().is_zero());
    assert!(NodeId::zero().is_zero());
    assert!(NodeId::one().is_constant());
    assert!(NodeId::zero().is_constant());
    assert_eq!(NodeId::one().not(), NodeId::zero());
    assert_eq!(NodeId::zero().not(), NodeId::one());
}

#[test]
fn node_complement_laws() {
    let x = NodeId::from_raw(42, false);
    assert_eq!(x.raw_index(), 42);
    assert!(!x.is_complemented());
    assert!(x.not().is_complemented());
    assert_eq!(x.not().not(), x);
    assert_ne!(x.not(), x);
    assert_eq!(x.not().regular(), x);
    assert_eq!(x.not_cond(false), x);
    assert_eq!(x.not_cond(true), x.not());
    assert!(!x.is_constant());
    assert_eq!(x.not().raw_index(), 42);
}

#[test]
fn node_from_raw_drops_top_bit() {
    let x = NodeId::from_raw(0x8000_0003, true);
    assert_eq!(x.raw_index(), 3);
    assert!(x.is_complemented());
}

#[test]
fn node_text() {
    assert_eq!(NodeId::from_raw(17, false).to_string(), "N17");
    assert_eq!(NodeId::from_raw(17, true).to_string(), "!N17");
    assert_eq!(NodeId::zero().to_string(), "!N0");
}
