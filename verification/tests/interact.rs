use lumindd::interact::InteractionMatrix;
use lumindd::interact_build::{
    build_direct_interaction_matrix, build_interaction_matrix, variables_interact, NodeVars,
};

#[test]
fn test_interaction_matrix_basic() {
    let mut m = InteractionMatrix::new(5);
    assert!(!m.test(0, 1));
    m.set(0, 1);
    assert!(m.test(0, 1));
    assert!(m.test(1, 0)); // symmetric
    assert!(!m.test(0, 2));
}

#[test]
fn test_interaction_matrix_self() {
    let m = InteractionMatrix::new(3);
    assert!(m.test(0, 0)); // self always interacts
    assert!(m.test(2, 2));
}

#[test]
fn test_interaction_count() {
    let mut m = InteractionMatrix::new(4);
    m.set(0, 1);
    m.set(0, 2);
    m.set(0, 3);
    assert_eq!(m.interaction_count(0), 3);
    assert_eq!(m.interaction_count(1), 1);
}

#[test]
fn interact_set_only_that_pair() {
    let mut m = InteractionMatrix::new(12);
    m.set(7, 3);
    for i in 0..12 {
        for j in 0..12 {
            let expected = i == j || (i == 7 && j == 3) || (i == 3 && j == 7);
            assert_eq!(m.test(i, j), expected, "pair ({}, {})", i, j);
        }
    }
}

#[test]
fn interact_clear_and_size() {
    let mut m = InteractionMatrix::new(20);
    assert_eq!(m.size(), 20);
    m.set(19, 18);
    m.set(4, 11);
    assert!(m.test(18, 19));
    m.clear();
    assert!(!m.test(18, 19));
    assert!(!m.test(4, 11));
    assert_eq!(m.interaction_count(4), 0);
}

#[test]
fn interact_empty_and_single() {
    let m0 = InteractionMatrix::new(0);
    assert_eq!(m0.size(), 0);
    assert_eq!(m0.interaction_count(0), 0);
    let mut m1 = InteractionMatrix::new(1);
    m1.set(0, 0);
    assert!(m1.test(0, 0));
    assert_eq!(m1.interaction_count(0), 0);
}

fn node(var: u16, then_var: Option<u16>, else_var: Option<u16>) -> NodeVars {
    NodeVars { var, then_var, else_var }
}

#[test]
fn direct_matrix_from_and_nodes() {
    // x0 AND x1: the node on x0 has the node on x1 as its then-child.
    let nodes = vec![node(1, None, None), node(0, Some(1), None)];
    let m = build_direct_interaction_matrix(3, &nodes);
    assert_eq!(m.size(), 3);
    assert!(m.test(0, 1));
    assert!(m.test(1, 0));
    assert!(!m.test(0, 2));
    assert!(!m.test(1, 2));
    assert!(m.test(2, 2));
}

#[test]
fn direct_matrix_ignores_variables_past_the_count() {
    let nodes = vec![node(0, Some(5), Some(1)), node(7, Some(1), None)];
    let m = build_direct_interaction_matrix(3, &nodes);
    assert!(m.test(0, 1));
    assert_eq!(m.interaction_count(0), 1);
    assert_eq!(m.interaction_count(1), 1);
    assert_eq!(m.interaction_count(2), 0);
}

#[test]
fn closure_joins_chains() {
    // 0 - 1 and 1 - 2 directly; 3 - 4 apart.
    let nodes = vec![node(0, Some(1), None), node(1, None, Some(2)), node(3, Some(4), Some(4))];
    let direct = build_direct_interaction_matrix(5, &nodes);
    assert!(!direct.test(0, 2));
    let m = build_interaction_matrix(5, &nodes);
    assert!(m.test(0, 1));
    assert!(m.test(1, 2));
    assert!(m.test(0, 2));
    assert!(m.test(2, 0));
    assert!(m.test(3, 4));
    assert!(!m.test(0, 3));
    assert!(!m.test(2, 4));
    assert_eq!(m.interaction_count(0), 2);
    assert_eq!(m.interaction_count(3), 1);
}

#[test]
fn closure_of_a_long_chain_links_every_pair() {
    let nodes: Vec<NodeVars> = (0..6u16).map(|v| node(v, Some(v + 1), None)).collect();
    let m = build_interaction_matrix(7, &nodes);
    for i in 0..7 {
        for j in 0..7 {
            assert!(m.test(i, j));
        }
    }
}

#[test]
fn variables_interact_directly_only() {
    let nodes = vec![node(0, Some(1), None), node(1, Some(2), None)];
    assert!(variables_interact(3, &nodes, 0, 1));
    assert!(variables_interact(3, &nodes, 2, 1));
    assert!(!variables_interact(3, &nodes, 0, 2));
    assert!(variables_interact(3, &nodes, 2, 2));
    assert!(!variables_interact(3, &nodes, 0, 9));
}
