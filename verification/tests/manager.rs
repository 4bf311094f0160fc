use lumindd::manager::Manager;
use lumindd::NodeId;

fn all_assignments(n: usize) -> Vec<Vec<bool>> {
    (0..(1usize << n)).map(|m| (0..n).map(|i| (m >> i) & 1 == 1).collect()).collect()
}

#[test]
fn new_variables_are_projections() {
    let mut mgr = Manager::new();
    let x = mgr.bdd_new_var().unwrap();
    let y = mgr.bdd_new_var().unwrap();
    assert_eq!(mgr.num_vars(), 2);
    for a in all_assignments(2) {
        assert_eq!(mgr.bdd_eval(x, &a), a[0]);
        assert_eq!(mgr.bdd_eval(y, &a), a[1]);
    }
    assert_ne!(x, y);
}

#[test]
fn operations_compute_their_functions() {
    let mut mgr = Manager::new();
    let x = mgr.bdd_new_var().unwrap();
    let y = mgr.bdd_new_var().unwrap();
    let z = mgr.bdd_new_var().unwrap();
    let and = mgr.bdd_and(x, y).unwrap();
    let or = mgr.bdd_or(x, z).unwrap();
    let xor = mgr.bdd_xor(y, z).unwrap();
    let nand = mgr.bdd_nand(x, y).unwrap();
    let nor = mgr.bdd_nor(x, z).unwrap();
    let xnor = mgr.bdd_xnor(y, z).unwrap();
    let ite = mgr.bdd_ite(x, y, z).unwrap();
    for a in all_assignments(3) {
        assert_eq!(mgr.bdd_eval(and, &a), a[0] && a[1]);
        assert_eq!(mgr.bdd_eval(or, &a), a[0] || a[2]);
        assert_eq!(mgr.bdd_eval(xor, &a), a[1] != a[2]);
        assert_eq!(mgr.bdd_eval(nand, &a), !(a[0] && a[1]));
        assert_eq!(mgr.bdd_eval(nor, &a), !(a[0] || a[2]));
        assert_eq!(mgr.bdd_eval(xnor, &a), a[1] == a[2]);
        assert_eq!(mgr.bdd_eval(ite, &a), if a[0] { a[1] } else { a[2] });
    }
}

#[test]
fn results_are_canonical() {
    let mut mgr = Manager::new();
    let x = mgr.bdd_new_var().unwrap();
    let y = mgr.bdd_new_var().unwrap();
    let a = mgr.bdd_and(x, y).unwrap();
    let b = mgr.bdd_and(y, x).unwrap();
    let c = mgr.bdd_ite(x, y, NodeId::zero()).unwrap();
    assert_eq!(a, b);
    assert_eq!(a, c);
    let n = mgr.num_nodes();
    let d = mgr.bdd_and(x, y).unwrap();
    assert_eq!(d, a);
    assert_eq!(mgr.num_nodes(), n);
    let xx = mgr.bdd_xor(x, x).unwrap();
    assert_eq!(xx, NodeId::zero());
    let nx = mgr.bdd_not(x);
    assert_eq!(mgr.bdd_or(x, nx).unwrap(), NodeId::one());
    assert_eq!(mgr.bdd_and(x, nx).unwrap(), NodeId::zero());
}

#[test]
fn equal_functions_built_differently_share_a_handle() {
    let mut mgr = Manager::new();
    let x = mgr.bdd_new_var().unwrap();
    let y = mgr.bdd_new_var().unwrap();
    let z = mgr.bdd_new_var().unwrap();
    // x AND (y OR z) against (x AND y) OR (x AND z)
    let yz = mgr.bdd_or(y, z).unwrap();
    let left = mgr.bdd_and(x, yz).unwrap();
    let xy = mgr.bdd_and(x, y).unwrap();
    let xz = mgr.bdd_and(x, z).unwrap();
    let right = mgr.bdd_or(xy, xz).unwrap();
    assert_eq!(left, right);
    // (x AND y) OR (x AND NOT y) is x itself
    let ny = mgr.bdd_not(y);
    let xny = mgr.bdd_and(x, ny).unwrap();
    let back = mgr.bdd_or(xy, xny).unwrap();
    assert_eq!(back, x);
    // x XOR y against (x OR y) AND NOT (x AND y)
    let xor = mgr.bdd_xor(x, y).unwrap();
    let or = mgr.bdd_or(x, y).unwrap();
    let nxy = mgr.bdd_not(xy);
    let other = mgr.bdd_and(or, nxy).unwrap();
    assert_eq!(xor, other);
    assert_ne!(xor, or);
}

#[test]
fn unique_inter_reduces_and_normalizes() {
    let mut mgr = Manager::new();
    let _x = mgr.bdd_new_var().unwrap();
    let _y = mgr.bdd_new_var().unwrap();
    let one = NodeId::one();
    assert_eq!(mgr.unique_inter(1, one, one).unwrap(), one);
    let f = mgr.unique_inter(1, NodeId::zero(), one).unwrap();
    assert!(f.is_complemented());
    let g = mgr.unique_inter(1, one, NodeId::zero()).unwrap();
    assert_eq!(f, g.not());
    assert_eq!(mgr.level(g), 1);
    assert_eq!(mgr.level(one), 2);
}

#[test]
fn squeeze_lies_between_its_bounds() {
    let mut mgr = Manager::new();
    let x = mgr.bdd_new_var().unwrap();
    let y = mgr.bdd_new_var().unwrap();
    let z = mgr.bdd_new_var().unwrap();
    let xy = mgr.bdd_and(x, y).unwrap();
    let lb = mgr.bdd_and(xy, z).unwrap();
    let ub = mgr.bdd_or(x, z).unwrap();
    let r = mgr.bdd_squeeze(lb, ub).unwrap();
    for a in all_assignments(3) {
        let l = mgr.bdd_eval(lb, &a);
        let v = mgr.bdd_eval(r, &a);
        let u = mgr.bdd_eval(ub, &a);
        assert!(!l || v);
        assert!(!v || u);
    }
    assert_eq!(mgr.bdd_squeeze(xy, xy).unwrap(), xy);
    assert_eq!(mgr.bdd_squeeze(NodeId::zero(), ub).unwrap(), NodeId::zero());
    assert_eq!(mgr.bdd_squeeze(lb, NodeId::one()).unwrap(), NodeId::one());
    // Where the upper bound's then-cofactor is one, the result is one there.
    let r2 = mgr.bdd_squeeze(xy, x).unwrap();
    assert_eq!(r2, x);
}

#[test]
fn pick_one_minterm_gives_a_cube_inside_f() {
    let mut mgr = Manager::new();
    let x = mgr.bdd_new_var().unwrap();
    let y = mgr.bdd_new_var().unwrap();
    let _z = mgr.bdd_new_var().unwrap();
    let ny = mgr.bdd_not(y);
    let f = mgr.bdd_and(x, ny).unwrap();
    let cube = mgr.bdd_pick_one_minterm(f, &[2, 1, 0]).unwrap();
    for a in all_assignments(3) {
        let expected = a[0] && !a[1] && !a[2];
        assert_eq!(mgr.bdd_eval(cube, &a), expected);
        if mgr.bdd_eval(cube, &a) {
            assert!(mgr.bdd_eval(f, &a));
        }
    }
    assert_eq!(mgr.bdd_pick_one_minterm(NodeId::zero(), &[0, 1, 2]).unwrap(), NodeId::zero());
    // Over fewer variables the cube fixes only those.
    let c2 = mgr.bdd_pick_one_minterm(f, &[0]).unwrap();
    for a in all_assignments(3) {
        assert_eq!(mgr.bdd_eval(c2, &a), a[0]);
    }
}

#[test]
fn ith_var_adds_variables_and_cube_conjoins_them() {
    let mut mgr = Manager::new();
    let z = mgr.bdd_ith_var(2).unwrap();
    assert_eq!(mgr.num_vars(), 3);
    let x = mgr.bdd_ith_var(0).unwrap();
    assert_eq!(mgr.num_vars(), 3);
    for a in all_assignments(3) {
        assert_eq!(mgr.bdd_eval(z, &a), a[2]);
        assert_eq!(mgr.bdd_eval(x, &a), a[0]);
    }
    let cube = mgr.bdd_cube(&[2, 0]).unwrap();
    for a in all_assignments(3) {
        assert_eq!(mgr.bdd_eval(cube, &a), a[0] && a[2]);
    }
    let xz = mgr.bdd_and(x, z).unwrap();
    assert_eq!(cube, xz);
    assert_eq!(mgr.bdd_cube(&[]).unwrap(), NodeId::one());
    assert_eq!(mgr.read_perm(1), 1);
    assert_eq!(mgr.read_inv_perm(2), 2);
}

#[test]
fn constrain_agrees_with_f_where_c_holds() {
    let mut mgr = Manager::new();
    let x = mgr.bdd_new_var().unwrap();
    let y = mgr.bdd_new_var().unwrap();
    let z = mgr.bdd_new_var().unwrap();
    let xy = mgr.bdd_and(x, y).unwrap();
    assert_eq!(mgr.bdd_constrain(xy, x).unwrap(), y);
    let f = mgr.bdd_xor(x, z).unwrap();
    let c = mgr.bdd_or(y, z).unwrap();
    let r = mgr.bdd_constrain(f, c).unwrap();
    for a in all_assignments(3) {
        if mgr.bdd_eval(c, &a) {
            assert_eq!(mgr.bdd_eval(r, &a), mgr.bdd_eval(f, &a));
        }
    }
    assert_eq!(mgr.bdd_constrain(f, NodeId::zero()).unwrap(), NodeId::zero());
    assert_eq!(mgr.bdd_constrain(f, NodeId::one()).unwrap(), f);
    assert_eq!(mgr.bdd_constrain(f, f).unwrap(), NodeId::one());
}

#[test]
fn conjunctive_decomp_splits_f() {
    let mut mgr = Manager::new();
    let x = mgr.bdd_new_var().unwrap();
    let y = mgr.bdd_new_var().unwrap();
    let z = mgr.bdd_new_var().unwrap();
    let xy = mgr.bdd_and(x, y).unwrap();
    let (g, h) = mgr.bdd_conjunctive_decomp(xy).unwrap();
    assert_eq!((g, h), (x, y));
    let yz = mgr.bdd_or(y, z).unwrap();
    let f = mgr.bdd_and(x, yz).unwrap();
    let (g2, h2) = mgr.bdd_conjunctive_decomp(f).unwrap();
    for a in all_assignments(3) {
        let gv = mgr.bdd_eval(g2, &a);
        let hv = mgr.bdd_eval(h2, &a);
        assert_eq!(gv && hv, mgr.bdd_eval(f, &a));
    }
    assert_eq!(mgr.bdd_conjunctive_decomp(x).unwrap(), (x, NodeId::one()));
    assert_eq!(mgr.bdd_conjunctive_decomp(NodeId::zero()).unwrap(), (NodeId::zero(), NodeId::one()));
}

#[test]
fn exist_abstract_and_cofactors() {
    let mut mgr = Manager::new();
    let x = mgr.bdd_new_var().unwrap();
    let y = mgr.bdd_new_var().unwrap();
    let xy = mgr.bdd_and(x, y).unwrap();
    let cube = mgr.bdd_cube(&[0]).unwrap();
    assert_eq!(mgr.bdd_exist_abstract(xy, cube).unwrap(), y);
    let both = mgr.bdd_cube(&[0, 1]).unwrap();
    assert_eq!(mgr.bdd_exist_abstract(xy, both).unwrap(), NodeId::one());
    assert_eq!(mgr.bdd_exist_abstract(xy, NodeId::one()).unwrap(), xy);
    assert_eq!(mgr.bdd_cofactors(xy, 0), (y, NodeId::zero()));
    assert_eq!(mgr.bdd_cofactors(xy, 1), (xy, xy));
}

#[test]
fn disjunctive_decomp_splits_f() {
    let mut mgr = Manager::new();
    let x = mgr.bdd_new_var().unwrap();
    let y = mgr.bdd_new_var().unwrap();
    let f = mgr.bdd_or(x, y).unwrap();
    let (g, h) = mgr.bdd_disjunctive_decomp(f).unwrap();
    assert_eq!((g, h), (x, y));
    for a in all_assignments(2) {
        assert_eq!(mgr.bdd_eval(g, &a) || mgr.bdd_eval(h, &a), a[0] || a[1]);
    }
}

#[test]
fn leq_decides_implication() {
    let mut mgr = Manager::new();
    let x = mgr.bdd_new_var().unwrap();
    let y = mgr.bdd_new_var().unwrap();
    let xy = mgr.bdd_and(x, y).unwrap();
    let x_or_y = mgr.bdd_or(x, y).unwrap();
    assert!(mgr.bdd_leq(xy, x).unwrap());
    assert!(mgr.bdd_leq(x, x_or_y).unwrap());
    assert!(!mgr.bdd_leq(x, xy).unwrap());
    assert!(!mgr.bdd_leq(x, y).unwrap());
    assert!(mgr.bdd_leq(NodeId::zero(), y).unwrap());
    assert!(mgr.bdd_leq(y, NodeId::one()).unwrap());
}

#[test]
fn pick_one_minterm_over_the_support_implies_f() {
    let mut mgr = Manager::new();
    let x = mgr.bdd_new_var().unwrap();
    let y = mgr.bdd_new_var().unwrap();
    let _z = mgr.bdd_new_var().unwrap();
    let f = mgr.bdd_or(x, y).unwrap();
    let cube = mgr.bdd_pick_one_minterm(f, &[1, 0]).unwrap();
    let mut some = false;
    for a in all_assignments(3) {
        if mgr.bdd_eval(cube, &a) {
            some = true;
            assert!(mgr.bdd_eval(f, &a));
            assert!(a[0]);
            assert!(!a[1]);
        }
    }
    assert!(some);
}
