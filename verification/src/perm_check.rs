//! Checking that a variable order and its inverse agree: `perm` maps each
//! variable to its level and `inv_perm` each level back to its variable.
use vstd::prelude::*;
use crate::decimal::{decimal, push_decimal};

verus! {

/// Variable `i` is on a level below `n` that maps back to it.
pub open spec fn maps_back(perm: Seq<u32>, inv_perm: Seq<u32>, n: nat, i: int) -> bool {
    perm[i] < n && inv_perm[perm[i] as int] == i
}

/// Every variable below `k` is on a level below `n` that maps back to it.
pub open spec fn maps_back_below(perm: Seq<u32>, inv_perm: Seq<u32>, n: nat, k: int) -> bool {
    forall|i: int| 0 <= i < k ==> #[trigger] maps_back(perm, inv_perm, n, i)
}

/// The text of the first failure at variable `i`.
pub open spec fn mismatch_text(perm: Seq<u32>, inv_perm: Seq<u32>, n: nat, i: int) -> Seq<char> {
    let level = perm[i];
    if level >= n {
        "perm["@ + decimal(i as nat) + "] = "@ + decimal(level as nat) + " out of range (num_vars = "@
            + decimal(n) + ")"@
    } else {
        "perm/inv_perm inconsistency: perm["@ + decimal(i as nat) + "] = "@ + decimal(level as nat)
            + ", inv_perm["@ + decimal(level as nat) + "] = "@ + decimal(
            inv_perm[level as int] as nat,
        ) + " (expected "@ + decimal(i as nat) + ")"@
    }
}

/// The text of a length that differs from the variable count.
pub open spec fn length_text(what: Seq<char>, len: nat, n: nat) -> Seq<char> {
    what + " length "@ + decimal(len) + " != num_vars "@ + decimal(n)
}

/// The first way in which `perm` and `inv_perm` fail to be inverse orders
/// of `n` variables.
#[derive(Clone, Copy, Debug, PartialEq, Eq, Structural)]
pub enum PermFailure {
    /// `perm` is not `n` long.
    PermLength,
    /// `inv_perm` is not `n` long.
    InvPermLength,
    /// The variable's level is not below `n`.
    OutOfRange(usize),
    /// The variable's level does not map back to it.
    NotInverse(usize),
}

/// The first failure, if any: a length, then the first variable whose
/// level is out of range or does not map back.
pub open spec fn first_failure(perm: Seq<u32>, inv_perm: Seq<u32>, n: nat) -> Option<PermFailure> {
    if perm.len() != n {
        Some(PermFailure::PermLength)
    } else if inv_perm.len() != n {
        Some(PermFailure::InvPermLength)
    } else if maps_back_below(perm, inv_perm, n, n as int) {
        None
    } else {
        let i = choose|i: int|
            0 <= i < n && maps_back_below(perm, inv_perm, n, i) && !#[trigger] maps_back(
                perm,
                inv_perm,
                n,
                i,
            );
        if perm[i] >= n {
            Some(PermFailure::OutOfRange(i as usize))
        } else {
            Some(PermFailure::NotInverse(i as usize))
        }
    }
}

/// The first variable that fails is unique.
proof fn lemma_first_bad_unique(perm: Seq<u32>, inv_perm: Seq<u32>, n: nat, i: int, j: int)
    requires
        0 <= i < n,
        0 <= j < n,
        maps_back_below(perm, inv_perm, n, i),
        !maps_back(perm, inv_perm, n, i),
        maps_back_below(perm, inv_perm, n, j),
        !maps_back(perm, inv_perm, n, j),
    ensures
        i == j,
{
    if i < j {
        assert(maps_back(perm, inv_perm, n, i));
    } else if j < i {
        assert(maps_back(perm, inv_perm, n, j));
    }
}

/// Find the first way in which `perm` and `inv_perm` fail to be inverse
/// orders of the `num_vars` variables.
pub fn find_perm_failure(perm: &[u32], inv_perm: &[u32], num_vars: u16) -> (r: Option<PermFailure>)
    ensures
        r == first_failure(perm@, inv_perm@, num_vars as nat),
        r matches Some(PermFailure::OutOfRange(i)) ==> i < num_vars && perm@.len() == num_vars
            && inv_perm@.len() == num_vars && perm@[i as int] >= num_vars,
        r matches Some(PermFailure::NotInverse(i)) ==> i < num_vars && perm@.len() == num_vars
            && inv_perm@.len() == num_vars && perm@[i as int] < num_vars && inv_perm@[perm@[i as int] as int] != i,
{
    let n = num_vars as usize;
    if perm.len() != n {
        return Some(PermFailure::PermLength);
    }
    if inv_perm.len() != n {
        return Some(PermFailure::InvPermLength);
    }
    let mut i: usize = 0;
    while i < n
        invariant
            n == num_vars,
            perm@.len() == n,
            inv_perm@.len() == n,
            i <= n,
            maps_back_below(perm@, inv_perm@, n as nat, i as int),
        decreases n - i,
    {
        let level = perm[i];
        if level >= num_vars as u32 || inv_perm[level as usize] != i as u32 {
            proof {
                let ghost nn = n as nat;
                assert(!maps_back(perm@, inv_perm@, nn, i as int));
                assert(!maps_back_below(perm@, inv_perm@, nn, nn as int));
                let j = choose|j: int|
                    0 <= j < nn && maps_back_below(perm@, inv_perm@, nn, j) && !#[trigger] maps_back(
                        perm@,
                        inv_perm@,
                        nn,
                        j,
                    );
                lemma_first_bad_unique(perm@, inv_perm@, nn, i as int, j);
            }
            if level >= num_vars as u32 {
                return Some(PermFailure::OutOfRange(i));
            } else {
                return Some(PermFailure::NotInverse(i));
            }
        }
        i += 1;
    }
    None
}

/// The message for a failure of the order of the BDD variables.
pub open spec fn perm_failure_text(
    f: PermFailure,
    perm: Seq<u32>,
    inv_perm: Seq<u32>,
    n: nat,
) -> Seq<char> {
    match f {
        PermFailure::PermLength => length_text("perm"@, perm.len(), n),
        PermFailure::InvPermLength => length_text("inv_perm"@, inv_perm.len(), n),
        PermFailure::OutOfRange(i) => mismatch_text(perm, inv_perm, n, i as int),
        PermFailure::NotInverse(i) => mismatch_text(perm, inv_perm, n, i as int),
    }
}

/// Check that `perm` and `inv_perm` are inverse orders of the `num_vars`
/// variables: both as long as the variable count, and every variable on a
/// level below it that maps back to the variable. The error names the
/// first failure.
pub fn check_perm_consistency(perm: &[u32], inv_perm: &[u32], num_vars: u16) -> (r: Result<
    (),
    String,
>)
    ensures
        r is Ok <==> first_failure(perm@, inv_perm@, num_vars as nat) is None,
        r is Ok <==> perm@.len() == num_vars && inv_perm@.len() == num_vars && maps_back_below(
            perm@,
            inv_perm@,
            num_vars as nat,
            num_vars as int,
        ),
        r matches Err(m) ==> m@ == perm_failure_text(
            first_failure(perm@, inv_perm@, num_vars as nat)->0,
            perm@,
            inv_perm@,
            num_vars as nat,
        ),
{
    match find_perm_failure(perm, inv_perm, num_vars) {
        None => Ok(()),
        Some(f) => {
            let mut m = String::new();
            match f {
                PermFailure::PermLength => {
                    m.append("perm length ");
                    push_decimal(&mut m, perm.len() as u64);
                    m.append(" != num_vars ");
                    push_decimal(&mut m, num_vars as u64);
                    proof {
                        reveal_strlit("perm length ");
                        reveal_strlit(" length ");
                        reveal_strlit("perm");
                        assert(m@ =~= length_text("perm"@, perm@.len(), num_vars as nat));
                    }
                },
                PermFailure::InvPermLength => {
                    m.append("inv_perm length ");
                    push_decimal(&mut m, inv_perm.len() as u64);
                    m.append(" != num_vars ");
                    push_decimal(&mut m, num_vars as u64);
                    proof {
                        reveal_strlit("inv_perm length ");
                        reveal_strlit(" length ");
                        reveal_strlit("inv_perm");
                        assert(m@ =~= length_text("inv_perm"@, inv_perm@.len(), num_vars as nat));
                    }
                },
                PermFailure::OutOfRange(i) => {
                    let level = perm[i];
                    m.append("perm[");
                    push_decimal(&mut m, i as u64);
                    m.append("] = ");
                    push_decimal(&mut m, level as u64);
                    m.append(" out of range (num_vars = ");
                    push_decimal(&mut m, num_vars as u64);
                    m.append(")");
                    proof {
                        assert(m@ =~= mismatch_text(perm@, inv_perm@, num_vars as nat, i as int));
                    }
                },
                PermFailure::NotInverse(i) => {
                    let level = perm[i];
                    let back = inv_perm[level as usize];
                    m.append("perm/inv_perm inconsistency: perm[");
                    push_decimal(&mut m, i as u64);
                    m.append("] = ");
                    push_decimal(&mut m, level as u64);
                    m.append(", inv_perm[");
                    push_decimal(&mut m, level as u64);
                    m.append("] = ");
                    push_decimal(&mut m, back as u64);
                    m.append(" (expected ");
                    push_decimal(&mut m, i as u64);
                    m.append(")");
                    proof {
                        assert(m@ =~= mismatch_text(perm@, inv_perm@, num_vars as nat, i as int));
                    }
                },
            }
            Err(m)
        },
    }
}

/// The message for a failure of the order of the ZDD variables.
pub open spec fn zdd_failure_text(
    f: PermFailure,
    perm: Seq<u32>,
    inv_perm: Seq<u32>,
    n: nat,
) -> Seq<char> {
    match f {
        PermFailure::PermLength => "zdd_perm length "@ + decimal(perm.len()) + " != num_zdd_vars "@
            + decimal(n),
        PermFailure::InvPermLength => "zdd_inv_perm length "@ + decimal(inv_perm.len())
            + " != num_zdd_vars "@ + decimal(n),
        PermFailure::OutOfRange(i) => "zdd_perm["@ + decimal(i as nat) + "] = "@ + decimal(
            perm[i as int] as nat,
        ) + " out of range (num_zdd_vars = "@ + decimal(n) + ")"@,
        PermFailure::NotInverse(i) => "zdd_perm/inv_perm inconsistency: zdd_perm["@ + decimal(
            i as nat,
        ) + "] = "@ + decimal(perm[i as int] as nat) + ", zdd_inv_perm["@ + decimal(
            perm[i as int] as nat,
        ) + "] = "@ + decimal(inv_perm[perm[i as int] as int] as nat),
    }
}

/// Check that `zdd_perm` and `zdd_inv_perm` are inverse orders of the
/// `num_zdd_vars` ZDD variables, as `check_perm_consistency` does for the
/// BDD variables; the error names the first failure.
pub fn check_zdd_perm_consistency(
    zdd_perm: &[u32],
    zdd_inv_perm: &[u32],
    num_zdd_vars: u16,
) -> (r: Result<(), String>)
    ensures
        r is Ok <==> zdd_perm@.len() == num_zdd_vars && zdd_inv_perm@.len() == num_zdd_vars
            && maps_back_below(zdd_perm@, zdd_inv_perm@, num_zdd_vars as nat, num_zdd_vars as int),
        r matches Err(m) ==> m@ == zdd_failure_text(
            first_failure(zdd_perm@, zdd_inv_perm@, num_zdd_vars as nat)->0,
            zdd_perm@,
            zdd_inv_perm@,
            num_zdd_vars as nat,
        ),
{
    match find_perm_failure(zdd_perm, zdd_inv_perm, num_zdd_vars) {
        None => Ok(()),
        Some(f) => {
            let mut m = String::new();
            match f {
                PermFailure::PermLength => {
                    m.append("zdd_perm length ");
                    push_decimal(&mut m, zdd_perm.len() as u64);
                    m.append(" != num_zdd_vars ");
                    push_decimal(&mut m, num_zdd_vars as u64);
                },
                PermFailure::InvPermLength => {
                    m.append("zdd_inv_perm length ");
                    push_decimal(&mut m, zdd_inv_perm.len() as u64);
                    m.append(" != num_zdd_vars ");
                    push_decimal(&mut m, num_zdd_vars as u64);
                },
                PermFailure::OutOfRange(i) => {
                    let level = zdd_perm[i];
                    m.append("zdd_perm[");
                    push_decimal(&mut m, i as u64);
                    m.append("] = ");
                    push_decimal(&mut m, level as u64);
                    m.append(" out of range (num_zdd_vars = ");
                    push_decimal(&mut m, num_zdd_vars as u64);
                    m.append(")");
                },
                PermFailure::NotInverse(i) => {
                    let level = zdd_perm[i];
                    let back = zdd_inv_perm[level as usize];
                    m.append("zdd_perm/inv_perm inconsistency: zdd_perm[");
                    push_decimal(&mut m, i as u64);
                    m.append("] = ");
                    push_decimal(&mut m, level as u64);
                    m.append(", zdd_inv_perm[");
                    push_decimal(&mut m, level as u64);
                    m.append("] = ");
                    push_decimal(&mut m, back as u64);
                },
            }
            proof {
                assert(m@ =~= zdd_failure_text(f, zdd_perm@, zdd_inv_perm@, num_zdd_vars as nat));
            }
            Err(m)
        },
    }
}

} // verus!
