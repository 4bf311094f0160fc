//! The names by which the graph exports (BLIF, daVinci, DOT) refer to a
//! node.
use vstd::prelude::*;
use crate::decimal::{decimal, push_decimal};
use crate::node::NodeId;

verus! {

/// The BLIF signal of `f`: `\$true` and `\$false` for the constants, else
/// `n` and the node's index, with `_inv` for a complemented edge.
pub open spec fn blif_name(f: NodeId) -> Seq<char> {
    if f.index_of() == 0 && !f.compl_of() {
        "\\$true"@
    } else if f.index_of() == 0 && f.compl_of() {
        "\\$false"@
    } else if f.compl_of() {
        "n"@ + decimal(f.index_of()) + "_inv"@
    } else {
        "n"@ + decimal(f.index_of())
    }
}

/// The daVinci node id of `f`: `ONE` and `ZERO` for the constants, else
/// `n` and the node's index.
pub open spec fn davinci_id(f: NodeId) -> Seq<char> {
    if f.index_of() == 0 && !f.compl_of() {
        "ONE"@
    } else if f.index_of() == 0 {
        "ZERO"@
    } else {
        "n"@ + decimal(f.index_of())
    }
}

/// The DOT label of `f`: `ONE` and `ZERO` for the constants, else `n` and
/// the node's index.
pub open spec fn dot_label(f: NodeId) -> Seq<char> {
    davinci_id(f)
}

/// The BLIF signal name of `f`.
pub fn blif_node_name(f: NodeId) -> (r: String)
    ensures
        r@ == blif_name(f),
{
    let mut s = String::new();
    if f.is_one() {
        s.append("\\$true");
    } else if f.is_zero() {
        s.append("\\$false");
    } else {
        let reg = f.regular();
        s.append("n");
        push_decimal(&mut s, reg.raw_index() as u64);
        if f.is_complemented() {
            s.append("_inv");
        }
    }
    proof {
        assert(s@ =~= blif_name(f));
    }
    s
}

/// The daVinci node id of `f`.
pub fn davinci_node_id(f: NodeId) -> (r: String)
    ensures
        r@ == davinci_id(f),
{
    let mut s = String::new();
    if f.is_one() || (f.is_constant() && !f.is_complemented()) {
        s.append("ONE");
    } else if f.is_zero() || (f.is_constant() && f.is_complemented()) {
        s.append("ZERO");
    } else {
        s.append("n");
        push_decimal(&mut s, f.regular().raw_index() as u64);
    }
    proof {
        assert(s@ =~= davinci_id(f));
    }
    s
}

/// The DOT label of `f`.
pub fn dot_node_label(f: NodeId) -> (r: String)
    ensures
        r@ == dot_label(f),
{
    let mut s = String::new();
    if f.is_one() {
        s.append("ONE");
    } else if f.is_zero() {
        s.append("ZERO");
    } else {
        s.append("n");
        push_decimal(&mut s, f.raw_index() as u64);
    }
    proof {
        assert(s@ =~= dot_label(f));
    }
    s
}

} // verus!
