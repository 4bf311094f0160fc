use lumindd::computed_table::{ComputedTable, OpTag};
use lumindd::harwell::decode_index;
use lumindd::rng::Rng;
use lumindd::{AddMonadicOp, AddOp, Literal, NodeId};

#[test]
fn computed_table_read_after_write() {
    let mut t = ComputedTable::new(4);
    let a = NodeId::from_raw(3, false);
    let b = NodeId::from_raw(9, true);
    assert_eq!(t.lookup(OpTag::BddAnd, a, b, NodeId::zero()), None);
    t.insert(OpTag::BddAnd, a, b, NodeId::zero(), a);
    assert_eq!(t.lookup(OpTag::BddAnd, a, b, NodeId::zero()), Some(a));
    assert_eq!(t.lookup(OpTag::BddXor, a, b, NodeId::zero()), None);
    assert_eq!(t.hits(), 1);
    assert_eq!(t.misses(), 2);
    t.clear();
    assert_eq!(t.lookup(OpTag::BddAnd, a, b, NodeId::zero()), None);
}

#[test]
fn computed_table_tags() {
    assert_eq!(OpTag::BddIte.discriminant(), 0);
    assert_eq!(OpTag::BddAndAbstract.discriminant(), 5);
    assert_eq!(OpTag::AddApply(3).discriminant(), 13);
    assert_eq!(OpTag::AddMonadic(2).discriminant(), 32);
    assert_eq!(OpTag::BddCompatProj.discriminant(), 83);
    let t = ComputedTable::new(2);
    let h = t.hash(OpTag::BddIte, NodeId::one(), NodeId::one(), NodeId::one());
    assert!(h < 4);
}

#[test]
fn decode_index_big_endian() {
    let assignment = [(0u16, true), (2, false), (1, true), (0, false)];
    assert_eq!(decode_index(&assignment, &[0, 1, 2]), 0b110);
    assert_eq!(decode_index(&assignment, &[2, 1, 0]), 0b011);
    assert_eq!(decode_index(&assignment, &[5]), 0);
    assert_eq!(decode_index(&[], &[]), 0);
}

#[test]
fn rng_sequence() {
    let mut r = Rng::new(0);
    let first = r.next_u64();
    let mut x: u64 = 1;
    x ^= x << 13;
    x ^= x >> 7;
    x ^= x << 17;
    assert_eq!(first, x);
    let v = r.next_usize(10);
    assert!(v < 10);
    let mut s = Rng::new(12345);
    for _ in 0..1000 {
        assert_ne!(s.next_u64(), 0);
    }
}

#[test]
fn operator_tags() {
    assert_eq!(AddOp::Plus.tag(), 0);
    assert_eq!(AddOp::Agree.tag(), 11);
    assert_eq!(AddMonadicOp::Log.tag(), 0);
    assert_eq!(AddMonadicOp::Ceil.tag(), 5);
}

#[test]
fn literals() {
    assert_eq!(Literal::pos(3), Literal { var: 3, positive: true });
    assert_eq!(Literal::neg(4), Literal { var: 4, positive: false });
}
