use lumindd::perm_check::{
    check_perm_consistency, check_zdd_perm_consistency, find_perm_failure, PermFailure,
};

#[test]
fn inverse_orders_pass() {
    assert_eq!(check_perm_consistency(&[0, 1, 2], &[0, 1, 2], 3), Ok(()));
    assert_eq!(check_perm_consistency(&[2, 0, 1], &[1, 2, 0], 3), Ok(()));
    assert_eq!(check_perm_consistency(&[], &[], 0), Ok(()));
}

#[test]
fn length_mismatches_are_named() {
    assert_eq!(
        check_perm_consistency(&[0], &[0, 1], 2),
        Err("perm length 1 != num_vars 2".to_string())
    );
    assert_eq!(
        check_perm_consistency(&[0, 1], &[0, 1, 2], 2),
        Err("inv_perm length 3 != num_vars 2".to_string())
    );
}

#[test]
fn first_bad_variable_is_named() {
    assert_eq!(
        check_perm_consistency(&[0, 5], &[0, 1], 2),
        Err("perm[1] = 5 out of range (num_vars = 2)".to_string())
    );
    assert_eq!(
        check_perm_consistency(&[1, 1], &[0, 1], 2),
        Err("perm/inv_perm inconsistency: perm[0] = 1, inv_perm[1] = 1 (expected 0)".to_string())
    );
}

#[test]
fn zdd_orders_are_checked_with_their_own_names() {
    assert_eq!(check_zdd_perm_consistency(&[1, 0], &[1, 0], 2), Ok(()));
    assert_eq!(
        check_zdd_perm_consistency(&[0, 1, 2], &[0, 1], 2),
        Err("zdd_perm length 3 != num_zdd_vars 2".to_string())
    );
    assert_eq!(
        check_zdd_perm_consistency(&[0, 1], &[0], 2),
        Err("zdd_inv_perm length 1 != num_zdd_vars 2".to_string())
    );
    assert_eq!(
        check_zdd_perm_consistency(&[2, 0], &[0, 1], 2),
        Err("zdd_perm[0] = 2 out of range (num_zdd_vars = 2)".to_string())
    );
    assert_eq!(
        check_zdd_perm_consistency(&[0, 0], &[0, 1], 2),
        Err("zdd_perm/inv_perm inconsistency: zdd_perm[1] = 0, zdd_inv_perm[0] = 0".to_string())
    );
}

#[test]
fn first_failure_is_found() {
    assert_eq!(find_perm_failure(&[0, 1], &[0, 1], 2), None);
    assert_eq!(find_perm_failure(&[0], &[0, 1], 2), Some(PermFailure::PermLength));
    assert_eq!(find_perm_failure(&[0, 1], &[0], 2), Some(PermFailure::InvPermLength));
    assert_eq!(find_perm_failure(&[0, 7, 9], &[0, 1, 2], 3), Some(PermFailure::OutOfRange(1)));
    assert_eq!(find_perm_failure(&[1, 0, 2], &[0, 1, 2], 3), Some(PermFailure::NotInverse(0)));
}
