//! The DDDMP dump formats of a decision diagram: the binary node encoding,
//! the text format, and the DIMACS CNF export, over the diagram's nodes
//! listed bottom-up and numbered from 1.
use vstd::prelude::*;
use crate::decimal::{decimal, push_decimal, push_signed, signed_decimal};
use crate::node::NodeId;
use vstd::utf8::{decode_utf8, encode_utf8, valid_utf8};
use crate::scan::{number_error_text, NumberError, i64_of, unsigned_of, usize_of, trimmed, words};
use crate::varint::{lemma_varint_round_trip, read_varint_at, varint_bytes, varint_of, write_varint, VarintError};

verus! {

/// The variable index that marks a terminal node.
pub const CONST_INDEX: u16 = 0xFFFF;

/// A node of a decision diagram as a dump lists it: numbered from 1 in
/// bottom-up order, its children by number, each with a complement flag.
#[derive(Clone, Copy, Debug, PartialEq, Eq, Structural)]
pub struct DumpNode {
    /// The node's number (1-based).
    pub seq_id: u32,
    /// The variable it tests; `CONST_INDEX` for a terminal.
    pub var_index: u16,
    /// The number of the then-child (0 for terminals).
    pub then_seq: u32,
    /// The number of the else-child (0 for terminals).
    pub else_seq: u32,
    /// The then-edge is complemented.
    pub then_comp: bool,
    /// The else-edge is complemented.
    pub else_comp: bool,
    /// The node is the constant one.
    pub is_one: bool,
}

/// Tag byte of the constant-one terminal.
pub const TAG_ONE: u8 = 0x00;
/// Tag byte of any other terminal.
pub const TAG_ZERO: u8 = 0x01;
/// Tag byte of an internal node with a regular else-edge.
pub const TAG_INTERNAL: u8 = 0x02;
/// Tag byte of an internal node with a complemented else-edge.
pub const TAG_INTERNAL_COMP: u8 = 0x03;

/// The then-child's code: its number shifted left by one (in 32 bits),
/// the complement flag in the lowest bit.
pub open spec fn then_code(n: DumpNode) -> u32 {
    (n.then_seq << 1u32) | (if n.then_comp {
        1u32
    } else {
        0u32
    })
}

/// The bytes of one node: a terminal is its tag; an internal node is its
/// tag, then the variable index, the then-code and the else-child's
/// number, each as a varint.
pub open spec fn node_bytes(n: DumpNode) -> Seq<u8> {
    if n.var_index == CONST_INDEX {
        if n.is_one {
            seq![TAG_ONE]
        } else {
            seq![TAG_ZERO]
        }
    } else {
        seq![
            if n.else_comp {
                TAG_INTERNAL_COMP
            } else {
                TAG_INTERNAL
            },
        ] + varint_bytes(n.var_index as nat) + varint_bytes(then_code(n) as nat) + varint_bytes(
            n.else_seq as nat,
        )
    }
}

/// The bytes of the nodes `ns`, one after another.
pub open spec fn nodes_bytes(ns: Seq<DumpNode>) -> Seq<u8>
    decreases ns.len(),
{
    if ns.len() == 0 {
        Seq::empty()
    } else {
        nodes_bytes(ns.drop_last()) + node_bytes(ns.last())
    }
}

/// Append the bytes of one node.
fn push_node_bytes(out: &mut Vec<u8>, n: &DumpNode)
    ensures
        final(out)@ == old(out)@ + node_bytes(*n),
{
    if n.var_index == CONST_INDEX {
        if n.is_one {
            out.push(TAG_ONE);
        } else {
            out.push(TAG_ZERO);
        }
        proof {
            assert(final(out)@ =~= old(out)@ + node_bytes(*n));
        }
    } else {
        let tag = if n.else_comp {
            TAG_INTERNAL_COMP
        } else {
            TAG_INTERNAL
        };
        out.push(tag);
        write_varint(out, n.var_index as u32);
        let c: u32 = if n.then_comp {
            1
        } else {
            0
        };
        let code = (n.then_seq << 1u32) | c;
        write_varint(out, code);
        write_varint(out, n.else_seq);
        proof {
            assert(final(out)@ =~= old(out)@ + node_bytes(*n));
        }
    }
}

/// The binary node data of a dump.
pub fn encode_nodes(nodes: &[DumpNode]) -> (r: Vec<u8>)
    ensures
        r@ == nodes_bytes(nodes@),
{
    let mut out: Vec<u8> = Vec::new();
    let mut i: usize = 0;
    proof {
        assert(nodes@.take(0) =~= Seq::<DumpNode>::empty());
    }
    while i < nodes.len()
        invariant
            i <= nodes@.len(),
            out@ == nodes_bytes(nodes@.take(i as int)),
        decreases nodes@.len() - i,
    {
        proof {
            assert(nodes@.take(i + 1).drop_last() =~= nodes@.take(i as int));
            assert(nodes@.take(i + 1).last() == nodes@[i as int]);
        }
        push_node_bytes(&mut out, &nodes[i]);
        i += 1;
    }
    proof {
        assert(nodes@.take(nodes@.len() as int) =~= nodes@);
    }
    out
}

/// Why a dump cannot be read.
#[derive(Clone, Debug, PartialEq, Eq)]
pub enum LoadError {
    /// The node data ends before the announced number of nodes.
    UnexpectedEnd,
    /// A node starts with a tag byte that names no kind of node.
    UnknownTag(u8),
    /// A varint in the node data is malformed.
    BadVarint(VarintError),
    /// A node refers to a child that is not listed before it.
    BadChild,
    /// A node line has fewer than four words.
    MalformedNode,
    /// A node line's variable index is no `u16`.
    BadVarIndex(NumberError),
    /// A node line's then-child is no `i64`.
    BadThenId(NumberError),
    /// A node line's else-child is no `i64`.
    BadElseId(NumberError),
    /// The `.nnodes` value is no `usize`.
    BadNNodes(NumberError),
    /// The `.nvars` value is no `u16`.
    BadNVars(NumberError),
    /// A `.rootids` value is no `i64`.
    BadRootId(NumberError),
    /// A `.permids` value is no `u32`.
    BadPermId(NumberError),
    /// A node line or the root refers to a node that is not listed before.
    BadReference(i64),
    /// The header names no root.
    NoRoot,
    /// The root of a binary dump is not among its nodes.
    RootOutOfRange,
    /// A binary dump's header has no `.nodes` line.
    MissingNodes,
    /// A binary dump's header line is not UTF-8; the text says why.
    InvalidUtf8(String),
    /// A node tests a variable that the manager loading it does not have.
    VarOutOfRange,
    /// A node's variable is not on a level above its children's in the
    /// order of the manager loading it.
    Unordered,
    /// The manager loading the dump has no room for another node.
    OutOfNodes,
}

/// The node numbered `k + 1` read from `d` at `pos`, and the position after
/// it; a child must be one of the `k` nodes before it.
pub open spec fn node_at(d: Seq<u8>, pos: nat, k: nat) -> Result<(DumpNode, nat), LoadError> {
    if pos >= d.len() {
        Err(LoadError::UnexpectedEnd)
    } else {
        let tag = d[pos as int];
        let rest = d.skip(pos + 1int);
        if tag == TAG_ONE || tag == TAG_ZERO {
            Ok(
                (
                    DumpNode {
                        seq_id: (k + 1) as u32,
                        var_index: CONST_INDEX,
                        then_seq: 0,
                        else_seq: 0,
                        then_comp: false,
                        else_comp: false,
                        is_one: tag == TAG_ONE,
                    },
                    pos + 1,
                ),
            )
        } else if tag == TAG_INTERNAL || tag == TAG_INTERNAL_COMP {
            match varint_of(rest) {
                Err(e) => Err(LoadError::BadVarint(e)),
                Ok((vi, a)) => match varint_of(rest.skip(a as int)) {
                    Err(e) => Err(LoadError::BadVarint(e)),
                    Ok((t, b)) => match varint_of(rest.skip(a + b)) {
                        Err(e) => Err(LoadError::BadVarint(e)),
                        Ok((e, c)) => {
                            let then_seq = t >> 1u32;
                            if then_seq == 0 || then_seq > k || e == 0 || e > k {
                                Err(LoadError::BadChild)
                            } else {
                                Ok(
                                    (
                                        DumpNode {
                                            seq_id: (k + 1) as u32,
                                            var_index: vi as u16,
                                            then_seq: then_seq,
                                            else_seq: e,
                                            then_comp: t & 1u32 == 1u32,
                                            else_comp: tag == TAG_INTERNAL_COMP,
                                            is_one: false,
                                        },
                                        (pos + 1 + a + b + c) as nat,
                                    ),
                                )
                            }
                        },
                    },
                },
            }
        } else {
            Err(LoadError::UnknownTag(tag))
        }
    }
}

/// The `count` nodes read from `d` at `pos` after `k` nodes already read,
/// and the position after them; or the first error met.
pub open spec fn nodes_at(d: Seq<u8>, pos: nat, k: nat, count: nat) -> Result<
    (Seq<DumpNode>, nat),
    LoadError,
>
    decreases count,
{
    if count == 0 {
        Ok((Seq::empty(), pos))
    } else {
        match node_at(d, pos, k) {
            Err(e) => Err(e),
            Ok((n, next)) => match nodes_at(d, next, k + 1, (count - 1) as nat) {
                Err(e) => Err(e),
                Ok((ns, end)) => Ok((seq![n] + ns, end)),
            },
        }
    }
}

/// Read the node numbered `k + 1` from `data` at `pos`.
fn decode_node(data: &[u8], pos: usize, k: usize) -> (r: Result<(DumpNode, usize), LoadError>)
    requires
        k < usize::MAX,
    ensures
        match r {
            Ok((n, next)) => node_at(data@, pos as nat, k as nat) == Ok::<(DumpNode, nat), LoadError>(
                (n, next as nat),
            ) && next <= data@.len(),
            Err(e) => node_at(data@, pos as nat, k as nat) == Err::<(DumpNode, nat), LoadError>(e),
        },
{
    let len = data.len();
    if pos >= len {
        return Err(LoadError::UnexpectedEnd);
    }
    let tag = data[pos];
    let ghost rest = data@.skip(pos + 1);
    let k1 = (k + 1) as u64;
    let seq_id = (k1 % 0x1_0000_0000) as u32;
    proof {
        assert(seq_id == k1 as u32) by (bit_vector)
            requires
                seq_id == (k1 % 0x1_0000_0000) as u32,
        ;
        assert(k1 as u32 == (k + 1) as u32);
    }
    if tag == TAG_ONE || tag == TAG_ZERO {
        return Ok(
            (
                DumpNode {
                    seq_id: seq_id,
                    var_index: CONST_INDEX,
                    then_seq: 0,
                    else_seq: 0,
                    then_comp: false,
                    else_comp: false,
                    is_one: tag == TAG_ONE,
                },
                pos + 1,
            ),
        );
    }
    if tag != TAG_INTERNAL && tag != TAG_INTERNAL_COMP {
        return Err(LoadError::UnknownTag(tag));
    }
    let p1 = pos + 1;
    let (vi, a) = match read_varint_at(data, p1) {
        Err(e) => {
            return Err(LoadError::BadVarint(e));
        },
        Ok(x) => x,
    };
    proof {
        assert(a <= rest.len());
        assert(rest.skip(a as int) =~= data@.skip(p1 + a));
    }
    let p2 = p1 + a;
    let (t, b) = match read_varint_at(data, p2) {
        Err(e) => {
            return Err(LoadError::BadVarint(e));
        },
        Ok(x) => x,
    };
    proof {
        assert(rest.skip(a + b) =~= data@.skip(p2 + b));
    }
    let p3 = p2 + b;
    let (e, c) = match read_varint_at(data, p3) {
        Err(err) => {
            return Err(LoadError::BadVarint(err));
        },
        Ok(x) => x,
    };
    let then_seq = t >> 1u32;
    if then_seq == 0 || then_seq as usize > k || e == 0 || e as usize > k {
        return Err(LoadError::BadChild);
    }
    let vi16 = (vi % 0x1_0000) as u16;
    proof {
        assert(vi16 == vi as u16) by (bit_vector)
            requires
                vi16 == (vi % 0x1_0000) as u16,
        ;
    }
    Ok(
        (
            DumpNode {
                seq_id: seq_id,
                var_index: vi16,
                then_seq: then_seq,
                else_seq: e,
                then_comp: t & 1u32 == 1u32,
                else_comp: tag == TAG_INTERNAL_COMP,
                is_one: false,
            },
            p3 + c,
        ),
    )
}

/// `r` with `front` put before the nodes it reads.
pub open spec fn after_nodes(
    front: Seq<DumpNode>,
    r: Result<(Seq<DumpNode>, nat), LoadError>,
) -> Result<(Seq<DumpNode>, nat), LoadError> {
    match r {
        Ok((ns, end)) => Ok((front + ns, end)),
        Err(e) => Err(e),
    }
}

/// Read `count` nodes of binary node data from `data` at `pos`: the nodes
/// and the position after them.
pub fn decode_nodes(data: &[u8], pos: usize, count: usize) -> (r: Result<
    (Vec<DumpNode>, usize),
    LoadError,
>)
    ensures
        match r {
            Ok((ns, end)) => nodes_at(data@, pos as nat, 0, count as nat) == Ok::<
                (Seq<DumpNode>, nat),
                LoadError,
            >((ns@, end as nat)),
            Err(e) => nodes_at(data@, pos as nat, 0, count as nat) == Err::<
                (Seq<DumpNode>, nat),
                LoadError,
            >(e),
        },
{
    let mut out: Vec<DumpNode> = Vec::new();
    let mut cur = pos;
    let mut k: usize = 0;
    proof {
        assert(after_nodes(out@, nodes_at(data@, cur as nat, 0, count as nat)) == nodes_at(
            data@,
            pos as nat,
            0,
            count as nat,
        )) by {
            match nodes_at(data@, cur as nat, 0, count as nat) {
                Ok((ns, end)) => {
                    assert(out@ + ns =~= ns);
                },
                Err(e) => {},
            }
        }
    }
    while k < count
        invariant
            k <= count,
            out@.len() == k,
            after_nodes(out@, nodes_at(data@, cur as nat, k as nat, (count - k) as nat)) == nodes_at(
                data@,
                pos as nat,
                0,
                count as nat,
            ),
        decreases count - k,
    {
        let ghost m = (count - k - 1) as nat;
        match decode_node(data, cur, k) {
            Err(e) => {
                return Err(e);
            },
            Ok((n, next)) => {
                proof {
                    let tail = nodes_at(data@, next as nat, (k + 1) as nat, m);
                    match tail {
                        Ok((ns, end)) => {
                            assert(out@ + (seq![n] + ns) =~= out@.push(n) + ns);
                        },
                        Err(e) => {},
                    }
                }
                out.push(n);
                cur = next;
                k += 1;
            },
        }
    }
    proof {
        assert(out@ + Seq::<DumpNode>::empty() =~= out@);
    }
    Ok((out, cur))
}

/// `n` is a node as the writer lists it in place `i` (from 0): numbered
/// `i + 1`; a terminal without children; or an internal node on a
/// variable other than the terminal mark, whose children are among the
/// nodes before it and whose then-child number is below `2^31`.
pub open spec fn listed_at(n: DumpNode, i: int) -> bool {
    &&& n.seq_id == i + 1
    &&& if n.var_index == CONST_INDEX {
        n.then_seq == 0 && n.else_seq == 0 && !n.then_comp && !n.else_comp
    } else {
        !n.is_one && 1 <= n.then_seq <= i && 1 <= n.else_seq <= i && n.then_seq < 0x8000_0000
    }
}

/// Every node of `ns`, from place `k` on, is listed as the writer lists it.
pub open spec fn well_listed(ns: Seq<DumpNode>, k: int) -> bool {
    forall|i: int| 0 <= i < ns.len() ==> listed_at(#[trigger] ns[i], k + i)
}

/// The bytes of a node followed by more nodes.
proof fn lemma_nodes_bytes_front(n: DumpNode, ns: Seq<DumpNode>)
    ensures
        nodes_bytes(seq![n] + ns) == node_bytes(n) + nodes_bytes(ns),
    decreases ns.len(),
{
    if ns.len() == 0 {
        assert(seq![n] + ns =~= seq![n]);
        assert(seq![n].drop_last() =~= Seq::<DumpNode>::empty());
        assert(nodes_bytes(Seq::<DumpNode>::empty()) =~= Seq::<u8>::empty());
        assert(nodes_bytes(seq![n]) == nodes_bytes(seq![n].drop_last()) + node_bytes(n));
        assert(Seq::<u8>::empty() + node_bytes(n) =~= node_bytes(n));
        assert(node_bytes(n) + Seq::<u8>::empty() =~= node_bytes(n));
    } else {
        lemma_nodes_bytes_front(n, ns.drop_last());
        assert((seq![n] + ns).drop_last() =~= seq![n] + ns.drop_last());
        assert((seq![n] + ns).last() == ns.last());
        assert(nodes_bytes(seq![n] + ns) == nodes_bytes((seq![n] + ns).drop_last()) + node_bytes(ns.last()));
        assert(nodes_bytes(ns) == nodes_bytes(ns.drop_last()) + node_bytes(ns.last()));
        assert(node_bytes(n) + nodes_bytes(ns.drop_last()) + node_bytes(ns.last()) =~= node_bytes(n)
            + (nodes_bytes(ns.drop_last()) + node_bytes(ns.last())));
    }
}

/// Reading one node back from its bytes gives the node.
#[verifier::spinoff_prover]
#[verifier::rlimit(40)]
proof fn lemma_node_round_trip(pre: Seq<u8>, n: DumpNode, post: Seq<u8>, k: nat)
    requires
        listed_at(n, k as int),
    ensures
        node_at(pre + node_bytes(n) + post, pre.len(), k) == Ok::<(DumpNode, nat), LoadError>(
            (n, pre.len() + node_bytes(n).len()),
        ),
{
    let d = pre + node_bytes(n) + post;
    let pos = pre.len();
    assert(d[pos as int] == node_bytes(n)[0]);
    if n.var_index == CONST_INDEX {
        assert(node_bytes(n).len() == 1);
        assert(n.is_one ==> d[pos as int] == TAG_ONE);
        assert(!n.is_one ==> d[pos as int] == TAG_ZERO);
        let m = DumpNode {
            seq_id: (k + 1) as u32,
            var_index: CONST_INDEX,
            then_seq: 0,
            else_seq: 0,
            then_comp: false,
            else_comp: false,
            is_one: d[pos as int] == TAG_ONE,
        };
        assert(m == n);
    } else {
        let c: u32 = if n.then_comp {
            1
        } else {
            0
        };
        let code = then_code(n);
        let vb = varint_bytes(n.var_index as nat);
        let tb = varint_bytes(code as nat);
        let eb = varint_bytes(n.else_seq as nat);
        let rest = d.skip(pos + 1int);
        assert(rest =~= vb + (tb + eb + post));
        lemma_varint_round_trip(n.var_index as u32, tb + eb + post);
        assert(rest.skip(vb.len() as int) =~= tb + (eb + post));
        lemma_varint_round_trip(code, eb + post);
        assert(rest.skip((vb.len() + tb.len()) as int) =~= eb + post);
        lemma_varint_round_trip(n.else_seq, post);
        crate::varint::lemma_varint_shape(n.var_index as nat, post);
        crate::varint::lemma_varint_shape(code as nat, post);
        crate::varint::lemma_varint_shape(n.else_seq as nat, post);
        let ts = n.then_seq;
        assert(code >> 1u32 == ts && (code & 1u32 == 1u32) == (c == 1u32)) by (bit_vector)
            requires
                code == (ts << 1u32) | c,
                ts < 0x8000_0000,
                c == 0 || c == 1,
        ;
        assert((n.var_index as u32) as u16 == n.var_index);
        assert(node_bytes(n).len() == 1 + vb.len() + tb.len() + eb.len());
        let tag = d[pos as int];
        assert(tag == TAG_INTERNAL || tag == TAG_INTERNAL_COMP);
        assert((tag == TAG_INTERNAL_COMP) == n.else_comp);
        assert(varint_of(rest) == Ok::<(u32, usize), VarintError>((n.var_index as u32, vb.len() as usize)));
        assert(varint_of(rest.skip(vb.len() as int)) == Ok::<(u32, usize), VarintError>((code, tb.len() as usize)));
        assert(varint_of(rest.skip((vb.len() + tb.len()) as int)) == Ok::<(u32, usize), VarintError>((n.else_seq, eb.len() as usize)));
        let m = DumpNode {
            seq_id: (k + 1) as u32,
            var_index: (n.var_index as u32) as u16,
            then_seq: code >> 1u32,
            else_seq: n.else_seq,
            then_comp: code & 1u32 == 1u32,
            else_comp: tag == TAG_INTERNAL_COMP,
            is_one: false,
        };
        assert(m == n);
    }
}

/// Reading back the nodes listed from place `k` on, written after `pre`,
/// gives those nodes and the position after their bytes.
#[verifier::spinoff_prover]
#[verifier::rlimit(40)]
pub proof fn lemma_nodes_round_trip(pre: Seq<u8>, ns: Seq<DumpNode>, post: Seq<u8>, k: nat)
    requires
        well_listed(ns, k as int),
    ensures
        nodes_at(pre + nodes_bytes(ns) + post, pre.len(), k, ns.len()) == Ok::<
            (Seq<DumpNode>, nat),
            LoadError,
        >((ns, pre.len() + nodes_bytes(ns).len())),
    decreases ns.len(),
{
    if ns.len() == 0 {
        assert(ns =~= Seq::<DumpNode>::empty());
    } else {
        let n = ns[0];
        let tail = ns.skip(1);
        assert(ns =~= seq![n] + tail);
        lemma_nodes_bytes_front(n, tail);
        assert(listed_at(ns[0], k + 0int));
        let d = pre + nodes_bytes(ns) + post;
        assert(d =~= pre + node_bytes(n) + (nodes_bytes(tail) + post));
        lemma_node_round_trip(pre, n, nodes_bytes(tail) + post, k);
        assert forall|i: int| 0 <= i < tail.len() implies listed_at(#[trigger] tail[i], (k + 1) + i) by {
            assert(tail[i] == ns[i + 1]);
            assert(listed_at(ns[i + 1], k + (i + 1)));
        }
        let pre2 = pre + node_bytes(n);
        assert(d =~= pre2 + nodes_bytes(tail) + post);
        lemma_nodes_round_trip(pre2, tail, post, k + 1);
    }
}

/// Reading back the binary node data of well-listed nodes gives the nodes
/// and the position after their bytes, whatever follows them.
pub proof fn lemma_binary_round_trip(ns: Seq<DumpNode>, post: Seq<u8>)
    requires
        well_listed(ns, 0),
    ensures
        nodes_at(nodes_bytes(ns) + post, 0, 0, ns.len()) == Ok::<(Seq<DumpNode>, nat), LoadError>(
            (ns, nodes_bytes(ns).len()),
        ),
{
    lemma_nodes_round_trip(Seq::empty(), ns, post, 0);
    assert(Seq::<u8>::empty() + nodes_bytes(ns) + post =~= nodes_bytes(ns) + post);
}

/// The name of variable `vi` in a dump: its given name when there is a
/// non-empty one, else `x` followed by the index.
pub open spec fn var_name(names: Option<Seq<Seq<char>>>, vi: nat) -> Seq<char> {
    match names {
        Some(ns) => if vi < ns.len() && ns[vi as int].len() > 0 {
            ns[vi as int]
        } else {
            "x"@ + decimal(vi)
        },
        None => "x"@ + decimal(vi),
    }
}

/// The given names as character sequences.
pub open spec fn names_view(names: Option<&[&str]>) -> Option<Seq<Seq<char>>> {
    match names {
        Some(ns) => Some(ns@.map_values(|n: &str| n@)),
        None => None,
    }
}

/// Each of `items` after a space.
pub open spec fn spaced(items: Seq<Seq<char>>) -> Seq<char>
    decreases items.len(),
{
    if items.len() == 0 {
        Seq::empty()
    } else {
        spaced(items.drop_last()) + " "@ + items.last()
    }
}

/// The signed number by which a dump names a node: its number, negated
/// when the edge to it is complemented.
pub open spec fn signed_ref(seq: u32, comp: bool) -> int {
    if comp {
        -(seq as int)
    } else {
        seq as int
    }
}

/// The number of the root: that of the last node, 1 when there is none.
pub open spec fn root_seq(nodes: Seq<DumpNode>) -> u32 {
    if nodes.len() == 0 {
        1
    } else {
        nodes.last().seq_id
    }
}

/// The text line of one node.
pub open spec fn node_line(n: DumpNode) -> Seq<char> {
    if n.var_index == CONST_INDEX {
        decimal(n.seq_id as nat) + " T 1 0 0\n"@
    } else {
        decimal(n.seq_id as nat) + " "@ + decimal(n.var_index as nat) + " "@ + signed_decimal(
            signed_ref(n.then_seq, n.then_comp),
        ) + " "@ + signed_decimal(signed_ref(n.else_seq, n.else_comp)) + " 0\n"@
    }
}

/// The text lines of the nodes `ns`, one after another.
pub open spec fn node_lines(ns: Seq<DumpNode>) -> Seq<char>
    decreases ns.len(),
{
    if ns.len() == 0 {
        Seq::empty()
    } else {
        node_lines(ns.drop_last()) + node_line(ns.last())
    }
}

/// The names of the variables that `order` lists in its first `nv` places.
pub open spec fn ordered_names(names: Option<Seq<Seq<char>>>, order: Seq<u32>, nv: nat) -> Seq<
    Seq<char>,
> {
    Seq::new(nv, |l: int| var_name(names, order[l] as nat))
}

/// The names of the variables `0 .. nv`.
pub open spec fn all_names(names: Option<Seq<Seq<char>>>, nv: nat) -> Seq<Seq<char>> {
    Seq::new(nv, |v: int| var_name(names, v as nat))
}

/// The decimal notations of `0 .. nv`.
pub open spec fn index_numbers(nv: nat) -> Seq<Seq<char>> {
    Seq::new(nv, |v: int| decimal(v as nat))
}

/// The decimal notations of the first `nv` values.
pub open spec fn listed_numbers(values: Seq<u32>, nv: nat) -> Seq<Seq<char>> {
    Seq::new(nv, |v: int| decimal(values[v] as nat))
}

/// The header lines of a dump up to and including `.nodes`, each with its
/// newline. The mode is `A` for text and `B` for binary; the binary header
/// names every variable `x` and its index and has no `.suppvarnames` line.
pub open spec fn header_lines(
    binary: bool,
    nodes: Seq<DumpNode>,
    root_comp: bool,
    num_vars: nat,
    inv_perm: Seq<u32>,
    perm: Seq<u32>,
    names: Option<Seq<Seq<char>>>,
) -> Seq<Seq<char>> {
    let shown = if binary {
        None
    } else {
        names
    };
    seq![
        ".ver DDDMP-2.0\n"@,
        ".mode "@ + (if binary {
            "B"@
        } else {
            "A"@
        }) + "\n"@,
        ".varinfo 0\n"@,
        ".nnodes "@ + decimal(nodes.len()) + "\n"@,
        ".nvars "@ + decimal(num_vars) + "\n"@,
        ".nsuppvars "@ + decimal(num_vars) + "\n"@,
        ".orderedvarnames"@ + spaced(ordered_names(shown, inv_perm, num_vars)) + "\n"@,
    ] + (if binary {
        Seq::empty()
    } else {
        seq![".suppvarnames"@ + spaced(all_names(shown, num_vars)) + "\n"@]
    }) + seq![
        ".ids"@ + spaced(index_numbers(num_vars)) + "\n"@,
        ".permids"@ + spaced(listed_numbers(perm, num_vars)) + "\n"@,
        ".nroots 1\n"@,
        ".rootids "@ + signed_decimal(signed_ref(root_seq(nodes), root_comp)) + "\n"@,
        ".nodes\n"@,
    ]
}

/// The header of a dump: its header lines, one after another.
pub open spec fn header_text(
    binary: bool,
    nodes: Seq<DumpNode>,
    root_comp: bool,
    num_vars: nat,
    inv_perm: Seq<u32>,
    perm: Seq<u32>,
    names: Option<Seq<Seq<char>>>,
) -> Seq<char> {
    header_lines(binary, nodes, root_comp, num_vars, inv_perm, perm, names).flatten()
}

/// One more line of a list, after those before it.
pub proof fn lemma_flatten_take_step(ls: Seq<Seq<char>>, k: int)
    requires
        0 <= k < ls.len(),
    ensures
        ls.take(k + 1).flatten() == ls.take(k).flatten() + ls[k],
{
    assert(ls.take(k + 1) =~= ls.take(k).push(ls[k]));
    ls.take(k).lemma_flatten_push(ls[k]);
}

/// The first `i + 1` items after spaces are the first `i`, a space and
/// item `i`.
proof fn lemma_spaced_push(items: Seq<Seq<char>>, i: int)
    requires
        0 <= i < items.len(),
    ensures
        spaced(items.take(i + 1)) == spaced(items.take(i)) + " "@ + items[i],
{
    assert(items.take(i + 1).drop_last() =~= items.take(i));
    assert(items.take(i + 1).last() == items[i]);
}

/// Append `x` and the decimal notation of `v`.
fn push_x_name(s: &mut String, v: u64)
    ensures
        final(s)@ == old(s)@ + "x"@ + decimal(v as nat),
{
    s.append("x");
    push_decimal(s, v);
}

/// Append the name of variable `vi`.
fn push_var_name(s: &mut String, names: Option<&[&str]>, vi: usize)
    ensures
        final(s)@ == old(s)@ + var_name(names_view(names), vi as nat),
{
    match names {
        Some(ns) => {
            if vi < ns.len() && !ns[vi].is_empty() {
                proof {
                    assert(names_view(names) == Some(ns@.map_values(|n: &str| n@)));
                    assert(ns@.map_values(|n: &str| n@)[vi as int] == ns@[vi as int]@);
                }
                s.append(ns[vi]);
            } else {
                proof {
                    if vi < ns@.len() {
                        assert(ns@.map_values(|n: &str| n@)[vi as int] == ns@[vi as int]@);
                    }
                }
                push_x_name(s, vi as u64);
            }
        },
        None => {
            push_x_name(s, vi as u64);
        },
    }
}

/// Append each of the names of the variables that `order` lists in its
/// first `nv` places (or of `0 .. nv`, when there is no order), each after
/// a space.
fn push_names(s: &mut String, names: Option<&[&str]>, order: Option<&[u32]>, nv: usize)
    requires
        order matches Some(o) ==> o@.len() >= nv,
    ensures
        final(s)@ == old(s)@ + spaced(
            match order {
                Some(o) => ordered_names(names_view(names), o@, nv as nat),
                None => all_names(names_view(names), nv as nat),
            },
        ),
{
    let ghost items = match order {
        Some(o) => ordered_names(names_view(names), o@, nv as nat),
        None => all_names(names_view(names), nv as nat),
    };
    let ghost base = old(s)@;
    let mut i: usize = 0;
    proof {
        assert(items.take(0) =~= Seq::<Seq<char>>::empty());
        assert(s@ =~= base + spaced(items.take(0)));
    }
    while i < nv
        invariant
            order matches Some(o) ==> o@.len() >= nv,
            items == match order {
                Some(o) => ordered_names(names_view(names), o@, nv as nat),
                None => all_names(names_view(names), nv as nat),
            },
            items.len() == nv,
            i <= nv,
            s@ == base + spaced(items.take(i as int)),
        decreases nv - i,
    {
        proof {
            lemma_spaced_push(items, i as int);
        }
        s.append(" ");
        let vi = match order {
            Some(o) => o[i] as usize,
            None => i,
        };
        push_var_name(s, names, vi);
        proof {
            assert(s@ =~= base + spaced(items.take(i + 1)));
        }
        i += 1;
    }
    proof {
        assert(items.take(nv as int) =~= items);
    }
}

/// Append the first `nv` of `values` (or `0 .. nv`, when there are none)
/// in decimal, each after a space.
fn push_numbers(s: &mut String, values: Option<&[u32]>, nv: usize)
    requires
        values matches Some(o) ==> o@.len() >= nv,
    ensures
        final(s)@ == old(s)@ + spaced(
            match values {
                Some(o) => listed_numbers(o@, nv as nat),
                None => index_numbers(nv as nat),
            },
        ),
{
    let ghost items = match values {
        Some(o) => listed_numbers(o@, nv as nat),
        None => index_numbers(nv as nat),
    };
    let ghost base = old(s)@;
    let mut i: usize = 0;
    proof {
        assert(items.take(0) =~= Seq::<Seq<char>>::empty());
        assert(s@ =~= base + spaced(items.take(0)));
    }
    while i < nv
        invariant
            values matches Some(o) ==> o@.len() >= nv,
            items == match values {
                Some(o) => listed_numbers(o@, nv as nat),
                None => index_numbers(nv as nat),
            },
            items.len() == nv,
            i <= nv,
            s@ == base + spaced(items.take(i as int)),
        decreases nv - i,
    {
        proof {
            lemma_spaced_push(items, i as int);
        }
        s.append(" ");
        let x: u64 = match values {
            Some(o) => o[i] as u64,
            None => i as u64,
        };
        push_decimal(s, x);
        proof {
            assert(s@ =~= base + spaced(items.take(i + 1)));
        }
        i += 1;
    }
    proof {
        assert(items.take(nv as int) =~= items);
    }
}

/// Write the header lines of a dump up to and including `.nodes`.
#[verifier::spinoff_prover]
#[verifier::rlimit(60)]
pub fn dump_header(
    binary: bool,
    nodes: &[DumpNode],
    root_comp: bool,
    num_vars: u16,
    inv_perm: &[u32],
    perm: &[u32],
    names: Option<&[&str]>,
) -> (r: String)
    requires
        inv_perm@.len() >= num_vars,
        perm@.len() >= num_vars,
    ensures
        r@ == header_text(
            binary,
            nodes@,
            root_comp,
            num_vars as nat,
            inv_perm@,
            perm@,
            names_view(names),
        ),
{
    let shown = if binary {
        None
    } else {
        names
    };
    let ghost hl = header_lines(
        binary,
        nodes@,
        root_comp,
        num_vars as nat,
        inv_perm@,
        perm@,
        names_view(names),
    );
    let ghost sv = names_view(shown);
    proof {
        assert(sv == (if binary {
            None
        } else {
            names_view(names)
        }));
        assert(hl.take(0) =~= Seq::<Seq<char>>::empty());
    }
    let nv = num_vars as usize;
    let mut s = String::new();
    s.append(".ver DDDMP-2.0\n");
    proof {
        lemma_flatten_take_step(hl, 0);
        assert(s@ =~= hl.take(1).flatten());
    }
    s.append(".mode ");
    if binary {
        s.append("B");
    } else {
        s.append("A");
    }
    s.append("\n");
    proof {
        lemma_flatten_take_step(hl, 1);
        assert(s@ =~= hl.take(2).flatten());
    }
    s.append(".varinfo 0\n");
    proof {
        lemma_flatten_take_step(hl, 2);
        assert(s@ =~= hl.take(3).flatten());
    }
    s.append(".nnodes ");
    push_decimal(&mut s, nodes.len() as u64);
    s.append("\n");
    proof {
        lemma_flatten_take_step(hl, 3);
        assert(s@ =~= hl.take(4).flatten());
    }
    s.append(".nvars ");
    push_decimal(&mut s, num_vars as u64);
    s.append("\n");
    proof {
        lemma_flatten_take_step(hl, 4);
        assert(s@ =~= hl.take(5).flatten());
    }
    s.append(".nsuppvars ");
    push_decimal(&mut s, num_vars as u64);
    s.append("\n");
    proof {
        lemma_flatten_take_step(hl, 5);
        assert(s@ =~= hl.take(6).flatten());
    }
    s.append(".orderedvarnames");
    push_names(&mut s, shown, Some(inv_perm), nv);
    s.append("\n");
    proof {
        lemma_flatten_take_step(hl, 6);
        assert(s@ =~= hl.take(7).flatten());
    }
    let ghost k: int = 7;
    if !binary {
        s.append(".suppvarnames");
        push_names(&mut s, shown, None, nv);
        s.append("\n");
        proof {
            lemma_flatten_take_step(hl, 7);
            assert(s@ =~= hl.take(8).flatten());
            k = 8;
        }
    }
    proof {
        assert(s@ == hl.take(k).flatten());
        assert(hl.len() == k + 5);
    }
    s.append(".ids");
    push_numbers(&mut s, None, nv);
    s.append("\n");
    proof {
        lemma_flatten_take_step(hl, k);
        assert(s@ =~= hl.take(k + 1).flatten());
    }
    s.append(".permids");
    push_numbers(&mut s, Some(perm), nv);
    s.append("\n");
    proof {
        lemma_flatten_take_step(hl, k + 1);
        assert(s@ =~= hl.take(k + 2).flatten());
    }
    s.append(".nroots 1\n");
    proof {
        lemma_flatten_take_step(hl, k + 2);
        assert(s@ =~= hl.take(k + 3).flatten());
    }
    s.append(".rootids ");
    let root = if nodes.len() == 0 {
        1u32
    } else {
        nodes[nodes.len() - 1].seq_id
    };
    let signed: i64 = if root_comp {
        -(root as i64)
    } else {
        root as i64
    };
    push_signed(&mut s, signed);
    s.append("\n");
    proof {
        lemma_flatten_take_step(hl, k + 3);
        assert(s@ =~= hl.take(k + 4).flatten());
    }
    s.append(".nodes\n");
    proof {
        lemma_flatten_take_step(hl, k + 4);
        assert(s@ =~= hl.take(k + 5).flatten());
        assert(hl.take(k + 5) =~= hl);
    }
    s
}

/// Write the text lines of the nodes.
pub fn dump_node_lines(nodes: &[DumpNode]) -> (r: String)
    ensures
        r@ == node_lines(nodes@),
{
    let mut s = String::new();
    let mut i: usize = 0;
    proof {
        assert(nodes@.take(0) =~= Seq::<DumpNode>::empty());
        assert(s@ =~= node_lines(nodes@.take(0)));
    }
    while i < nodes.len()
        invariant
            i <= nodes@.len(),
            s@ == node_lines(nodes@.take(i as int)),
        decreases nodes@.len() - i,
    {
        let n = nodes[i];
        proof {
            assert(nodes@.take(i + 1).drop_last() =~= nodes@.take(i as int));
            assert(nodes@.take(i + 1).last() == n);
        }
        push_decimal(&mut s, n.seq_id as u64);
        if n.var_index == CONST_INDEX {
            s.append(" T 1 0 0\n");
        } else {
            s.append(" ");
            push_decimal(&mut s, n.var_index as u64);
            s.append(" ");
            let t: i64 = if n.then_comp {
                -(n.then_seq as i64)
            } else {
                n.then_seq as i64
            };
            push_signed(&mut s, t);
            s.append(" ");
            let e: i64 = if n.else_comp {
                -(n.else_seq as i64)
            } else {
                n.else_seq as i64
            };
            push_signed(&mut s, e);
            s.append(" 0\n");
        }
        proof {
            assert(s@ =~= node_lines(nodes@.take(i + 1)));
        }
        i += 1;
    }
    proof {
        assert(nodes@.take(nodes@.len() as int) =~= nodes@);
    }
    s
}

/// A whole text dump: the header, the node lines and `.end`.
pub fn dump_text(
    nodes: &[DumpNode],
    root_comp: bool,
    num_vars: u16,
    inv_perm: &[u32],
    perm: &[u32],
    names: Option<&[&str]>,
) -> (r: String)
    requires
        inv_perm@.len() >= num_vars,
        perm@.len() >= num_vars,
    ensures
        r@ == header_text(false, nodes@, root_comp, num_vars as nat, inv_perm@, perm@, names_view(names))
            + node_lines(nodes@) + ".end\n"@,
{
    let mut s = dump_header(false, nodes, root_comp, num_vars, inv_perm, perm, names);
    let lines = dump_node_lines(nodes);
    s.append(lines.as_str());
    s.append(".end\n");
    s
}

/// What follows the binary node data of a binary dump.
pub fn binary_trailer() -> (r: String)
    ensures
        r@ == "\n.end\n"@,
{
    let mut s = String::new();
    s.append("\n.end\n");
    proof {
        assert(s@ =~= "\n.end\n"@);
    }
    s
}

/// The DIMACS literal of the node numbered `seq` among the dump's nodes,
/// negated when `comp`: node variables follow the `num_vars` diagram
/// variables, in node order.
pub open spec fn node_lit(num_vars: nat, seq: nat, comp: bool) -> int {
    if comp {
        -(num_vars + seq)
    } else {
        (num_vars + seq) as int
    }
}

/// The clauses of one node: a terminal asserts its variable (true for the
/// constant one, false otherwise); an internal node `v` on diagram
/// variable `x` with children `t` and `e` gets `v <=> ite(x, t, e)`.
pub open spec fn node_clauses(num_vars: nat, n: DumpNode) -> Seq<Seq<int>> {
    let v = num_vars + n.seq_id;
    if n.var_index == CONST_INDEX {
        if n.is_one {
            seq![seq![v]]
        } else {
            seq![seq![-v]]
        }
    } else {
        let x = n.var_index + 1;
        let t = node_lit(num_vars, n.then_seq as nat, n.then_comp);
        let e = node_lit(num_vars, n.else_seq as nat, n.else_comp);
        seq![seq![-v, -x, t], seq![-v, x, e], seq![v, -x, -t], seq![v, x, -e]]
    }
}

/// The clauses of the nodes `ns`, in node order.
pub open spec fn nodes_clauses(num_vars: nat, ns: Seq<DumpNode>) -> Seq<Seq<int>>
    decreases ns.len(),
{
    if ns.len() == 0 {
        Seq::empty()
    } else {
        nodes_clauses(num_vars, ns.drop_last()) + node_clauses(num_vars, ns.last())
    }
}

/// The clauses of a non-constant diagram: those of its nodes, then the
/// root asserted.
pub open spec fn cnf_clauses_of(num_vars: nat, ns: Seq<DumpNode>, root_comp: bool) -> Seq<Seq<int>> {
    nodes_clauses(num_vars, ns) + seq![seq![node_lit(num_vars, root_seq(ns) as nat, root_comp)]]
}

/// The DIMACS line of a clause: each literal followed by a space, then `0`.
pub open spec fn clause_line(c: Seq<int>) -> Seq<char>
    decreases c.len(),
{
    if c.len() == 0 {
        "0\n"@
    } else {
        signed_decimal(c[0]) + " "@ + clause_line(c.skip(1))
    }
}

/// The DIMACS lines of the clauses, one after another.
pub open spec fn clause_lines(cs: Seq<Seq<int>>) -> Seq<char>
    decreases cs.len(),
{
    if cs.len() == 0 {
        Seq::empty()
    } else {
        clause_lines(cs.drop_last()) + clause_line(cs.last())
    }
}

/// The DIMACS text of the diagram `f`: for the constant one an empty
/// formula, for the constant zero one empty clause, otherwise the clauses
/// over the diagram variables and one variable per node.
pub open spec fn cnf_text_of(f: NodeId, num_vars: nat, ns: Seq<DumpNode>, root_comp: bool) -> Seq<
    char,
> {
    if f.index_of() == 0 && !f.compl_of() {
        "p cnf 0 0\n"@
    } else if f.index_of() == 0 && f.compl_of() {
        "p cnf 0 1\n0\n"@
    } else {
        let cs = cnf_clauses_of(num_vars, ns, root_comp);
        "p cnf "@ + decimal(num_vars + ns.len()) + " "@ + decimal(cs.len()) + "\n"@ + clause_lines(cs)
    }
}

/// The dump's nodes fit the CNF numbering: they are listed as the writer
/// lists them, and every node variable fits in an `i32`.
pub open spec fn cnf_fits(num_vars: nat, ns: Seq<DumpNode>) -> bool {
    &&& ns.len() > 0
    &&& well_listed(ns, 0)
    &&& num_vars + ns.len() + 1 <= i32::MAX
}

/// Append the DIMACS line of a clause.
fn push_clause(s: &mut String, c: &Vec<i32>)
    ensures
        final(s)@ == old(s)@ + clause_line(c@.map_values(|x: i32| x as int)),
{
    let ghost cv = c@.map_values(|x: i32| x as int);
    let ghost start = s@;
    let mut i: usize = 0;
    proof {
        assert(cv.skip(0) =~= cv);
        assert(s@ + clause_line(cv.skip(0)) == start + clause_line(cv));
    }
    while i < c.len()
        invariant
            i <= c@.len(),
            cv == c@.map_values(|x: i32| x as int),
            s@ + clause_line(cv.skip(i as int)) == start + clause_line(cv),
        decreases c@.len() - i,
    {
        let ghost before = s@;
        proof {
            assert(cv.skip(i as int).skip(1) =~= cv.skip(i + 1));
            assert(cv.skip(i as int)[0] == c@[i as int] as int);
        }
        push_signed(s, c[i] as i64);
        s.append(" ");
        proof {
            assert(s@ + clause_line(cv.skip(i + 1)) =~= before + clause_line(cv.skip(i as int)));
        }
        i += 1;
    }
    let ghost before = s@;
    s.append("0\n");
    proof {
        assert(cv.skip(i as int).len() == 0);
        assert(s@ =~= before + clause_line(cv.skip(i as int)));
    }
}

/// The clauses of a non-constant diagram.
pub fn cnf_clauses(nodes: &[DumpNode], root_comp: bool, num_vars: u16) -> (r: Vec<Vec<i32>>)
    requires
        cnf_fits(num_vars as nat, nodes@),
    ensures
        r@.len() == cnf_clauses_of(num_vars as nat, nodes@, root_comp).len(),
        forall|i: int|
            0 <= i < r@.len() ==> (#[trigger] r@[i])@.map_values(|x: i32| x as int)
                == cnf_clauses_of(num_vars as nat, nodes@, root_comp)[i],
{
    let nv = num_vars as i32;
    let mut out: Vec<Vec<i32>> = Vec::new();
    let ghost nvn = num_vars as nat;
    let mut i: usize = 0;
    proof {
        assert(nodes@.take(0) =~= Seq::<DumpNode>::empty());
    }
    while i < nodes.len()
        invariant
            nv == num_vars,
            nvn == num_vars as nat,
            cnf_fits(nvn, nodes@),
            i <= nodes@.len(),
            out@.len() == nodes_clauses(nvn, nodes@.take(i as int)).len(),
            forall|k: int|
                0 <= k < out@.len() ==> (#[trigger] out@[k])@.map_values(|x: i32| x as int)
                    == nodes_clauses(nvn, nodes@.take(i as int))[k],
        decreases nodes@.len() - i,
    {
        let n = nodes[i];
        proof {
            assert(nodes@.take(i + 1).drop_last() =~= nodes@.take(i as int));
            assert(nodes@.take(i + 1).last() == n);
            assert(listed_at(nodes@[i as int], 0 + i));
        }
        let ghost prev = out@;
        let ghost pc = nodes_clauses(nvn, nodes@.take(i as int));
        let v: i32 = nv + n.seq_id as i32;
        let ghost nc = node_clauses(nvn, n);
        if n.var_index == CONST_INDEX {
            let lit = if n.is_one {
                v
            } else {
                -v
            };
            out.push(vec![lit]);
            proof {
                assert(out@.last()@.map_values(|x: i32| x as int) =~= nc[0]);
            }
        } else {
            let x: i32 = n.var_index as i32 + 1;
            let t0: i32 = nv + n.then_seq as i32;
            let t: i32 = if n.then_comp {
                -t0
            } else {
                t0
            };
            let e0: i32 = nv + n.else_seq as i32;
            let e: i32 = if n.else_comp {
                -e0
            } else {
                e0
            };
            let nv_lit: i32 = -v;
            let nx: i32 = -x;
            let nt: i32 = -t;
            let ne: i32 = -e;
            out.push(vec![nv_lit, nx, t]);
            out.push(vec![nv_lit, x, e]);
            out.push(vec![v, nx, nt]);
            out.push(vec![v, x, ne]);
            proof {
                assert(out@[prev.len() as int]@.map_values(|x: i32| x as int) =~= nc[0]);
                assert(out@[prev.len() + 1int]@.map_values(|x: i32| x as int) =~= nc[1]);
                assert(out@[prev.len() + 2int]@.map_values(|x: i32| x as int) =~= nc[2]);
                assert(out@[prev.len() + 3int]@.map_values(|x: i32| x as int) =~= nc[3]);
            }
        }
        proof {
            let all = nodes_clauses(nvn, nodes@.take(i + 1));
            assert(all == pc + nc);
            assert forall|k: int| 0 <= k < out@.len() implies (#[trigger] out@[k])@.map_values(
                |x: i32| x as int,
            ) == all[k] by {
                if k < prev.len() {
                    assert(out@[k] == prev[k]);
                } else {
                    assert(all[k] == nc[k - prev.len()]);
                }
            }
        }
        i += 1;
    }
    proof {
        assert(nodes@.take(nodes@.len() as int) =~= nodes@);
    }
    let last = nodes[nodes.len() - 1];
    proof {
        assert(listed_at(nodes@[nodes@.len() - 1], 0 + (nodes@.len() - 1)));
    }
    let r0: i32 = nv + last.seq_id as i32;
    let root_lit: i32 = if root_comp {
        -r0
    } else {
        r0
    };
    let ghost prev = out@;
    out.push(vec![root_lit]);
    proof {
        let all = cnf_clauses_of(nvn, nodes@, root_comp);
        assert forall|k: int| 0 <= k < out@.len() implies (#[trigger] out@[k])@.map_values(
            |x: i32| x as int,
        ) == all[k] by {
            if k < prev.len() {
                assert(out@[k] == prev[k]);
            } else {
                assert(out@[k]@.map_values(|x: i32| x as int) =~= seq![node_lit(nvn, root_seq(nodes@) as nat, root_comp)]);
            }
        }
    }
    out
}

/// The DIMACS CNF export of the diagram `f`, given its dump's nodes and
/// whether the edge to its root is complemented.
pub fn cnf_text(f: NodeId, nodes: &[DumpNode], root_comp: bool, num_vars: u16) -> (r: String)
    requires
        f.index_of() != 0 ==> cnf_fits(num_vars as nat, nodes@),
    ensures
        r@ == cnf_text_of(f, num_vars as nat, nodes@, root_comp),
{
    let mut s = String::new();
    if f.is_one() {
        s.append("p cnf 0 0\n");
        proof {
            assert(s@ =~= cnf_text_of(f, num_vars as nat, nodes@, root_comp));
        }
        return s;
    }
    if f.is_zero() {
        s.append("p cnf 0 1\n0\n");
        proof {
            assert(s@ =~= cnf_text_of(f, num_vars as nat, nodes@, root_comp));
        }
        return s;
    }
    let clauses = cnf_clauses(nodes, root_comp, num_vars);
    let ghost cs = cnf_clauses_of(num_vars as nat, nodes@, root_comp);
    s.append("p cnf ");
    push_decimal(&mut s, num_vars as u64 + nodes.len() as u64);
    s.append(" ");
    push_decimal(&mut s, clauses.len() as u64);
    s.append("\n");
    let ghost base = s@;
    let mut i: usize = 0;
    proof {
        assert(cs.take(0) =~= Seq::<Seq<int>>::empty());
        assert(s@ =~= base + clause_lines(cs.take(0)));
    }
    while i < clauses.len()
        invariant
            cs == cnf_clauses_of(num_vars as nat, nodes@, root_comp),
            clauses@.len() == cs.len(),
            forall|k: int| 0 <= k < clauses@.len() ==> (#[trigger] clauses@[k])@.map_values(|x: i32| x as int) == cs[k],
            i <= clauses@.len(),
            s@ == base + clause_lines(cs.take(i as int)),
        decreases clauses@.len() - i,
    {
        proof {
            assert(cs.take(i + 1).drop_last() =~= cs.take(i as int));
            assert(cs.take(i + 1).last() == cs[i as int]);
            assert(clauses@[i as int]@.map_values(|x: i32| x as int) == cs[i as int]);
        }
        push_clause(&mut s, &clauses[i]);
        proof {
            assert(s@ =~= base + clause_lines(cs.take(i + 1)));
        }
        i += 1;
    }
    proof {
        assert(cs.take(cs.len() as int) =~= cs);
        assert(s@ =~= cnf_text_of(f, num_vars as nat, nodes@, root_comp));
    }
    s
}

/// A node line of a text dump: a terminal, or a variable index with the
/// signed numbers of the then- and else-children.
#[derive(Clone, Copy, Debug, PartialEq, Eq, Structural)]
pub enum RawNode {
    /// A terminal (read as the constant one).
    Terminal,
    /// An internal node.
    Internal {
        /// The variable it tests.
        var_index: u16,
        /// The then-child's number, negative when complemented.
        then_id: i64,
        /// The else-child's number, negative when complemented.
        else_id: i64,
    },
}

/// What the lines of a dump read so far have given.
#[derive(Debug)]
pub struct DumpReader {
    /// The `.nnodes` value (0 when absent).
    pub num_nodes: usize,
    /// The `.nvars` value (0 when absent).
    pub num_vars: u16,
    /// The `.rootids` values.
    pub root_ids: Vec<i64>,
    /// The `.permids` values.
    pub perm_ids: Vec<u32>,
    /// The `.nodes` line has been read.
    pub in_nodes: bool,
    /// The `.end` line has been read after `.nodes`.
    pub done: bool,
    /// The node lines read.
    pub nodes: Vec<RawNode>,
}

/// The contents of a `DumpReader`.
pub struct ReaderState {
    /// The `.nnodes` value.
    pub num_nodes: usize,
    /// The `.nvars` value.
    pub num_vars: u16,
    /// The `.rootids` values.
    pub root_ids: Seq<i64>,
    /// The `.permids` values.
    pub perm_ids: Seq<u32>,
    /// The `.nodes` line has been read.
    pub in_nodes: bool,
    /// The `.end` line has been read.
    pub done: bool,
    /// The node lines read.
    pub nodes: Seq<RawNode>,
}

impl View for DumpReader {
    type V = ReaderState;

    open spec fn view(&self) -> ReaderState {
        ReaderState {
            num_nodes: self.num_nodes,
            num_vars: self.num_vars,
            root_ids: self.root_ids@,
            perm_ids: self.perm_ids@,
            in_nodes: self.in_nodes,
            done: self.done,
            nodes: self.nodes@,
        }
    }
}

/// The state before any line is read.
pub open spec fn start_state() -> ReaderState {
    ReaderState {
        num_nodes: 0,
        num_vars: 0,
        root_ids: Seq::empty(),
        perm_ids: Seq::empty(),
        in_nodes: false,
        done: false,
        nodes: Seq::empty(),
    }
}

/// The words `ws` read as `i64`s, or the first error.
pub open spec fn all_i64(ws: Seq<Seq<char>>) -> Result<Seq<i64>, NumberError>
    decreases ws.len(),
{
    if ws.len() == 0 {
        Ok(Seq::empty())
    } else {
        match i64_of(ws[0]) {
            Err(e) => Err(e),
            Ok(v) => match all_i64(ws.skip(1)) {
                Err(e) => Err(e),
                Ok(vs) => Ok(seq![v] + vs),
            },
        }
    }
}

/// The words `ws` read as `u32`s, or the first error.
pub open spec fn all_u32(ws: Seq<Seq<char>>) -> Result<Seq<u32>, NumberError>
    decreases ws.len(),
{
    if ws.len() == 0 {
        Ok(Seq::empty())
    } else {
        match unsigned_of(ws[0], 0xFFFF_FFFF) {
            Err(e) => Err(e),
            Ok(v) => match all_u32(ws.skip(1)) {
                Err(e) => Err(e),
                Ok(vs) => Ok(seq![v as u32] + vs),
            },
        }
    }
}

/// `t` starts with `p`.
pub open spec fn starts(t: Seq<char>, p: Seq<char>) -> bool {
    t.len() >= p.len() && t.take(p.len() as int) == p
}

/// The node that a node line's words give, or why they give none.
pub open spec fn node_of(ps: Seq<Seq<char>>) -> Result<RawNode, LoadError> {
    if ps.len() < 4 {
        Err(LoadError::MalformedNode)
    } else if ps[1] == "T"@ {
        Ok(RawNode::Terminal)
    } else {
        match unsigned_of(ps[1], 0xFFFF) {
            Err(e) => Err(LoadError::BadVarIndex(e)),
            Ok(vi) => match i64_of(ps[2]) {
                Err(e) => Err(LoadError::BadThenId(e)),
                Ok(t) => match i64_of(ps[3]) {
                    Err(e) => Err(LoadError::BadElseId(e)),
                    Ok(e) => Ok(RawNode::Internal { var_index: vi as u16, then_id: t, else_id: e }),
                },
            },
        }
    }
}

/// The state after reading one more line: lines are read trimmed; blank
/// lines and those starting with `#` change nothing; after `.nodes`, each
/// line up to `.end` is a node; before it, `.nnodes`, `.nvars`, `.rootids`
/// and (in the text format) `.permids` give values, `.nodes` starts the
/// nodes, and other lines change nothing.
pub open spec fn after_line(v: ReaderState, line: Seq<char>, binary: bool) -> Result<
    ReaderState,
    LoadError,
> {
    let t = trimmed(line);
    if t.len() == 0 || t[0] == '#' {
        Ok(v)
    } else if v.in_nodes {
        if t == ".end"@ {
            Ok(ReaderState { done: true, ..v })
        } else {
            match node_of(words(t)) {
                Err(e) => Err(e),
                Ok(n) => Ok(ReaderState { nodes: v.nodes.push(n), ..v }),
            }
        }
    } else if starts(t, ".nnodes "@) {
        match usize_of(trimmed(t.skip(".nnodes "@.len() as int))) {
            Err(e) => Err(LoadError::BadNNodes(e)),
            Ok(n) => Ok(ReaderState { num_nodes: n, ..v }),
        }
    } else if starts(t, ".nvars "@) {
        match unsigned_of(trimmed(t.skip(".nvars "@.len() as int)), 0xFFFF) {
            Err(e) => Err(LoadError::BadNVars(e)),
            Ok(n) => Ok(ReaderState { num_vars: n as u16, ..v }),
        }
    } else if starts(t, ".rootids "@) {
        match all_i64(words(t.skip(".rootids "@.len() as int))) {
            Err(e) => Err(LoadError::BadRootId(e)),
            Ok(ids) => Ok(ReaderState { root_ids: ids, ..v }),
        }
    } else if !binary && starts(t, ".permids "@) {
        match all_u32(words(t.skip(".permids "@.len() as int))) {
            Err(e) => Err(LoadError::BadPermId(e)),
            Ok(ids) => Ok(ReaderState { perm_ids: ids, ..v }),
        }
    } else if t == ".nodes"@ {
        Ok(ReaderState { in_nodes: true, ..v })
    } else {
        Ok(v)
    }
}

/// The characters of `cs` from `a` to `b` are those of `p`.
fn span_is(cs: &[char], a: usize, b: usize, p: &str) -> (r: bool)
    requires
        a <= b <= cs@.len(),
    ensures
        r == (cs@.subrange(a as int, b as int) == p@),
{
    let pc = crate::scan::chars_of(p);
    if b - a != pc.len() {
        proof {
            if cs@.subrange(a as int, b as int) == p@ {
                assert(cs@.subrange(a as int, b as int).len() == pc@.len());
            }
        }
        return false;
    }
    let r = crate::scan::has_prefix_at(cs, a, pc.as_slice());
    proof {
        assert(r == (cs@.subrange(a as int, b as int) == p@));
    }
    r
}

/// The characters of `cs` from `a` to `b` start with those of `p`.
fn span_starts(cs: &[char], a: usize, b: usize, p: &str) -> (r: bool)
    requires
        a <= b <= cs@.len(),
    ensures
        r == starts(cs@.subrange(a as int, b as int), p@),
{
    let pc = crate::scan::chars_of(p);
    if b - a < pc.len() {
        return false;
    }
    let r = crate::scan::has_prefix_at(cs, a, pc.as_slice());
    proof {
        let t = cs@.subrange(a as int, b as int);
        assert(t.take(pc@.len() as int) =~= cs@.subrange(a as int, a + pc@.len()));
    }
    r
}

/// Read each of `ws` as an `i64`, stopping at the first error.
fn parse_all_i64(ws: &Vec<Vec<char>>) -> (r: Result<Vec<i64>, NumberError>)
    ensures
        match r {
            Ok(vs) => all_i64(ws@.map_values(|w: Vec<char>| w@)) == Ok::<Seq<i64>, NumberError>(vs@),
            Err(e) => all_i64(ws@.map_values(|w: Vec<char>| w@)) == Err::<Seq<i64>, NumberError>(e),
        },
{
    let ghost all = ws@.map_values(|w: Vec<char>| w@);
    let mut out: Vec<i64> = Vec::new();
    let mut i: usize = 0;
    proof {
        assert(all.skip(0) =~= all);
        match all_i64(all.skip(0)) {
            Ok(vs) => {
                assert(out@ + vs =~= vs);
            },
            Err(_) => {},
        }
    }
    while i < ws.len()
        invariant
            all == ws@.map_values(|w: Vec<char>| w@),
            i <= ws@.len(),
            match all_i64(all.skip(i as int)) {
                Ok(vs) => all_i64(all) == Ok::<Seq<i64>, NumberError>(out@ + vs),
                Err(e) => all_i64(all) == Err::<Seq<i64>, NumberError>(e),
            },
        decreases ws@.len() - i,
    {
        proof {
            assert(all.skip(i as int)[0] == ws@[i as int]@);
            assert(all.skip(i as int).skip(1) =~= all.skip(i + 1));
        }
        match crate::scan::parse_i64(ws[i].as_slice()) {
            Err(e) => {
                return Err(e);
            },
            Ok(v) => {
                proof {
                    match all_i64(all.skip(i + 1)) {
                        Ok(vs) => {
                            assert(out@ + (seq![v] + vs) =~= out@.push(v) + vs);
                        },
                        Err(_) => {},
                    }
                }
                out.push(v);
            },
        }
        i += 1;
    }
    proof {
        assert(all.skip(i as int) =~= Seq::<Seq<char>>::empty());
        assert(out@ + Seq::<i64>::empty() =~= out@);
    }
    Ok(out)
}

/// Read each of `ws` as a `u32`, stopping at the first error.
fn parse_all_u32(ws: &Vec<Vec<char>>) -> (r: Result<Vec<u32>, NumberError>)
    ensures
        match r {
            Ok(vs) => all_u32(ws@.map_values(|w: Vec<char>| w@)) == Ok::<Seq<u32>, NumberError>(vs@),
            Err(e) => all_u32(ws@.map_values(|w: Vec<char>| w@)) == Err::<Seq<u32>, NumberError>(e),
        },
{
    let ghost all = ws@.map_values(|w: Vec<char>| w@);
    let mut out: Vec<u32> = Vec::new();
    let mut i: usize = 0;
    proof {
        assert(all.skip(0) =~= all);
        match all_u32(all.skip(0)) {
            Ok(vs) => {
                assert(out@ + vs =~= vs);
            },
            Err(_) => {},
        }
    }
    while i < ws.len()
        invariant
            all == ws@.map_values(|w: Vec<char>| w@),
            i <= ws@.len(),
            match all_u32(all.skip(i as int)) {
                Ok(vs) => all_u32(all) == Ok::<Seq<u32>, NumberError>(out@ + vs),
                Err(e) => all_u32(all) == Err::<Seq<u32>, NumberError>(e),
            },
        decreases ws@.len() - i,
    {
        proof {
            assert(all.skip(i as int)[0] == ws@[i as int]@);
            assert(all.skip(i as int).skip(1) =~= all.skip(i + 1));
        }
        match crate::scan::parse_unsigned(ws[i].as_slice(), 0xFFFF_FFFF) {
            Err(e) => {
                return Err(e);
            },
            Ok(v) => {
                let v32 = v as u32;
                proof {
                    match all_u32(all.skip(i + 1)) {
                        Ok(vs) => {
                            assert(out@ + (seq![v32] + vs) =~= out@.push(v32) + vs);
                        },
                        Err(_) => {},
                    }
                }
                out.push(v32);
            },
        }
        i += 1;
    }
    proof {
        assert(all.skip(i as int) =~= Seq::<Seq<char>>::empty());
        assert(out@ + Seq::<u32>::empty() =~= out@);
    }
    Ok(out)
}

/// The words of the characters of `cs` from `a` to `b`.
fn span_words(cs: &[char], a: usize, b: usize) -> (r: Vec<Vec<char>>)
    requires
        a <= b <= cs@.len(),
    ensures
        r@.map_values(|w: Vec<char>| w@) == words(cs@.subrange(a as int, b as int)),
{
    let sub = vstd::slice::slice_subrange(cs, a, b);
    let r = crate::scan::split_word_chars(sub);
    proof {
        assert(r@.map_values(|w: Vec<char>| w@) =~= words(cs@.subrange(a as int, b as int)));
    }
    r
}

/// The node that a node line's words give.
fn parse_node(ps: &Vec<Vec<char>>) -> (r: Result<RawNode, LoadError>)
    ensures
        r == node_of(ps@.map_values(|w: Vec<char>| w@)),
{
    let ghost all = ps@.map_values(|w: Vec<char>| w@);
    if ps.len() < 4 {
        return Err(LoadError::MalformedNode);
    }
    let p1 = &ps[1];
    let is_t = p1.len() == 1 && span_is(p1.as_slice(), 0, 1, "T");
    proof {
        assert(all[1] == p1@);
        assert(p1@.subrange(0, p1@.len() as int) =~= p1@);
        if p1@ == "T"@ {
            assert(p1@.len() == 1) by {
                reveal_strlit("T");
            }
        }
    }
    if is_t {
        return Ok(RawNode::Terminal);
    }
    let vi = match crate::scan::parse_unsigned(p1.as_slice(), 0xFFFF) {
        Err(e) => {
            return Err(LoadError::BadVarIndex(e));
        },
        Ok(v) => v,
    };
    proof {
        assert(all[2] == ps@[2]@);
        assert(all[3] == ps@[3]@);
    }
    let t = match crate::scan::parse_i64(ps[2].as_slice()) {
        Err(e) => {
            return Err(LoadError::BadThenId(e));
        },
        Ok(v) => v,
    };
    let e = match crate::scan::parse_i64(ps[3].as_slice()) {
        Err(err) => {
            return Err(LoadError::BadElseId(err));
        },
        Ok(v) => v,
    };
    Ok(RawNode::Internal { var_index: vi as u16, then_id: t, else_id: e })
}

impl DumpReader {
    /// A reader that has read no line.
    pub fn new() -> (r: DumpReader)
        ensures
            r@ == start_state(),
    {
        DumpReader {
            num_nodes: 0,
            num_vars: 0,
            root_ids: Vec::new(),
            perm_ids: Vec::new(),
            in_nodes: false,
            done: false,
            nodes: Vec::new(),
        }
    }

    /// Read one more line of a dump (of its header, for a binary dump).
    pub fn read_line(&mut self, line: &str, binary: bool) -> (r: Result<(), LoadError>)
        ensures
            match after_line(old(self)@, line@, binary) {
                Ok(v) => r is Ok && final(self)@ == v,
                Err(e) => r == Err::<(), LoadError>(e),
            },
    {
        let cs = crate::scan::chars_of(line);
        let (a, b) = crate::scan::trim_bounds(cs.as_slice());
        let ghost t = trimmed(line@);
        proof {
            assert(t == cs@.subrange(a as int, b as int));
        }
        if a == b || cs[a] == '#' {
            return Ok(());
        }
        if self.in_nodes {
            if span_is(cs.as_slice(), a, b, ".end") {
                self.done = true;
                return Ok(());
            }
            let ps = span_words(cs.as_slice(), a, b);
            match parse_node(&ps) {
                Err(e) => {
                    return Err(e);
                },
                Ok(n) => {
                    self.nodes.push(n);
                    return Ok(());
                },
            }
        }
        if span_starts(cs.as_slice(), a, b, ".nnodes ") {
            let k = crate::scan::chars_of(".nnodes ").len();
            let rest = vstd::slice::slice_subrange(cs.as_slice(), a + k, b);
            let (c, d) = crate::scan::trim_bounds(rest);
            let num = vstd::slice::slice_subrange(rest, c, d);
            proof {
                assert(rest@ =~= t.skip(".nnodes "@.len() as int));
            }
            match crate::scan::parse_usize(num) {
                Err(e) => {
                    return Err(LoadError::BadNNodes(e));
                },
                Ok(n) => {
                    self.num_nodes = n;
                    return Ok(());
                },
            }
        }
        if span_starts(cs.as_slice(), a, b, ".nvars ") {
            let k = crate::scan::chars_of(".nvars ").len();
            let rest = vstd::slice::slice_subrange(cs.as_slice(), a + k, b);
            let (c, d) = crate::scan::trim_bounds(rest);
            let num = vstd::slice::slice_subrange(rest, c, d);
            proof {
                assert(rest@ =~= t.skip(".nvars "@.len() as int));
            }
            match crate::scan::parse_unsigned(num, 0xFFFF) {
                Err(e) => {
                    return Err(LoadError::BadNVars(e));
                },
                Ok(n) => {
                    self.num_vars = n as u16;
                    return Ok(());
                },
            }
        }
        if span_starts(cs.as_slice(), a, b, ".rootids ") {
            let k = crate::scan::chars_of(".rootids ").len();
            let ws = span_words(cs.as_slice(), a + k, b);
            proof {
                assert(cs@.subrange(a + k, b as int) =~= t.skip(".rootids "@.len() as int));
            }
            match parse_all_i64(&ws) {
                Err(e) => {
                    return Err(LoadError::BadRootId(e));
                },
                Ok(ids) => {
                    self.root_ids = ids;
                    return Ok(());
                },
            }
        }
        if !binary && span_starts(cs.as_slice(), a, b, ".permids ") {
            let k = crate::scan::chars_of(".permids ").len();
            let ws = span_words(cs.as_slice(), a + k, b);
            proof {
                assert(cs@.subrange(a + k, b as int) =~= t.skip(".permids "@.len() as int));
            }
            match parse_all_u32(&ws) {
                Err(e) => {
                    return Err(LoadError::BadPermId(e));
                },
                Ok(ids) => {
                    self.perm_ids = ids;
                    return Ok(());
                },
            }
        }
        if span_is(cs.as_slice(), a, b, ".nodes") {
            self.in_nodes = true;
        }
        Ok(())
    }
}

/// The magnitude of `s` as a `usize` (truncated where `usize` is narrower).
pub open spec fn ref_index(s: i64) -> usize {
    (if s < 0 {
        -(s as int)
    } else {
        s as int
    }) as usize
}

/// The node that the signed reference `s` names when `built` entries
/// (a placeholder and `built - 1` nodes) are known: its number and whether
/// the edge is complemented.
pub open spec fn ref_target(s: i64, built: nat) -> Result<(usize, bool), LoadError> {
    let idx = ref_index(s);
    if idx == 0 || idx >= built {
        Err(LoadError::BadReference(s))
    } else {
        Ok((idx, s < 0))
    }
}

/// Check the signed reference `s` against `built` known entries.
pub fn resolve_ref(s: i64, built: usize) -> (r: Result<(usize, bool), LoadError>)
    ensures
        r == ref_target(s, built as nat),
{
    let m: u64 = if s < 0 {
        if s == i64::MIN {
            0x8000_0000_0000_0000
        } else {
            (-s) as u64
        }
    } else {
        s as u64
    };
    let idx = m as usize;
    proof {
        assert(m as int == (if s < 0 {
            -(s as int)
        } else {
            s as int
        }));
    }
    if idx == 0 || idx >= built {
        Err(LoadError::BadReference(s))
    } else {
        Ok((idx, s < 0))
    }
}

/// The node numbered `k + 1` that node line `r` gives, its children
/// checked against the `k` nodes before it.
pub open spec fn resolved_node(r: RawNode, k: nat) -> Result<DumpNode, LoadError> {
    match r {
        RawNode::Terminal => Ok(
            DumpNode {
                seq_id: (k + 1) as u32,
                var_index: CONST_INDEX,
                then_seq: 0,
                else_seq: 0,
                then_comp: false,
                else_comp: false,
                is_one: true,
            },
        ),
        RawNode::Internal { var_index, then_id, else_id } => match ref_target(then_id, k + 1) {
            Err(e) => Err(e),
            Ok((t, tc)) => match ref_target(else_id, k + 1) {
                Err(e) => Err(e),
                Ok((e, ec)) => Ok(
                    DumpNode {
                        seq_id: (k + 1) as u32,
                        var_index: var_index,
                        then_seq: t as u32,
                        else_seq: e as u32,
                        then_comp: tc,
                        else_comp: ec,
                        is_one: false,
                    },
                ),
            },
        },
    }
}

/// The nodes that the node lines `raw` give from place `k` on, or the
/// first error.
pub open spec fn resolved_from(raw: Seq<RawNode>, k: nat) -> Result<Seq<DumpNode>, LoadError>
    decreases raw.len() - k,
{
    if k >= raw.len() {
        Ok(Seq::empty())
    } else {
        match resolved_node(raw[k as int], k) {
            Err(e) => Err(e),
            Ok(n) => match resolved_from(raw, k + 1) {
                Err(e) => Err(e),
                Ok(ns) => Ok(seq![n] + ns),
            },
        }
    }
}

/// What a text dump read into state `v` gives: its nodes, the number of
/// its root and whether the edge to the root is complemented; or the first
/// error among the nodes' references, a missing root, or a root reference
/// that names no node.
pub open spec fn text_result(v: ReaderState) -> Result<(Seq<DumpNode>, u32, bool), LoadError> {
    match resolved_from(v.nodes, 0) {
        Err(e) => Err(e),
        Ok(ns) => if v.root_ids.len() == 0 {
            Err(LoadError::NoRoot)
        } else {
            match ref_target(v.root_ids[0], ns.len() + 1) {
                Err(e) => Err(e),
                Ok((r, c)) => Ok((ns, r as u32, c)),
            }
        },
    }
}


impl DumpReader {
    /// The nodes and root of the text dump read: node lines resolved in
    /// order, then the first root reference.
    pub fn finish(&self) -> (r: Result<(Vec<DumpNode>, u32, bool), LoadError>)
        requires
            self.nodes@.len() < usize::MAX,
        ensures
            match text_result(self@) {
                Ok((ns, root, comp)) => r matches Ok((v, rr, cc)) && v@ == ns && rr == root && cc
                    == comp,
                Err(e) => r == Err::<(Vec<DumpNode>, u32, bool), LoadError>(e),
            },
    {
        let raw = &self.nodes;
        let n = raw.len();
        let mut out: Vec<DumpNode> = Vec::new();
        let mut k: usize = 0;
        proof {
            match resolved_from(raw@, 0) {
                Ok(ns) => {
                    assert(out@ + ns =~= ns);
                },
                Err(_) => {},
            }
        }
        while k < n
            invariant
                raw@ == self.nodes@,
                n == raw@.len(),
                n < usize::MAX,
                k <= n,
                out@.len() == k,
                match resolved_from(raw@, k as nat) {
                    Ok(ns) => resolved_from(raw@, 0) == Ok::<Seq<DumpNode>, LoadError>(out@ + ns),
                    Err(e) => resolved_from(raw@, 0) == Err::<Seq<DumpNode>, LoadError>(e),
                },
            decreases n - k,
        {
            let seq_id = ((k + 1) as u64 % 0x1_0000_0000) as u32;
            proof {
                let k1 = (k + 1) as u64;
                assert(seq_id == k1 as u32) by (bit_vector)
                    requires
                        seq_id == (k1 % 0x1_0000_0000) as u32,
                ;
                assert(k1 as u32 == (k + 1) as u32);
            }
            let node = match raw[k] {
                RawNode::Terminal => DumpNode {
                    seq_id: seq_id,
                    var_index: CONST_INDEX,
                    then_seq: 0,
                    else_seq: 0,
                    then_comp: false,
                    else_comp: false,
                    is_one: true,
                },
                RawNode::Internal { var_index, then_id, else_id } => {
                    let (t, tc) = match resolve_ref(then_id, k + 1) {
                        Err(e) => {
                            proof {
                                assert(resolved_node(raw@[k as int], k as nat) == Err::<DumpNode, LoadError>(e));
                                assert(resolved_from(raw@, k as nat) == Err::<Seq<DumpNode>, LoadError>(e));
                            }
                            return Err(e);
                        },
                        Ok(x) => x,
                    };
                    let (e, ec) = match resolve_ref(else_id, k + 1) {
                        Err(err) => {
                            proof {
                                assert(resolved_node(raw@[k as int], k as nat) == Err::<DumpNode, LoadError>(err));
                                assert(resolved_from(raw@, k as nat) == Err::<Seq<DumpNode>, LoadError>(err));
                            }
                            return Err(err);
                        },
                        Ok(x) => x,
                    };
                    DumpNode {
                        seq_id: seq_id,
                        var_index: var_index,
                        then_seq: (t as u64 % 0x1_0000_0000) as u32,
                        else_seq: (e as u64 % 0x1_0000_0000) as u32,
                        then_comp: tc,
                        else_comp: ec,
                        is_one: false,
                    }
                },
            };
            proof {
                assert(resolved_node(raw@[k as int], k as nat) == Ok::<DumpNode, LoadError>(node)) by {
                    match raw@[k as int] {
                        RawNode::Terminal => {},
                        RawNode::Internal { var_index, then_id, else_id } => {
                            let (t, tc) = ref_target(then_id, (k + 1) as nat)->Ok_0;
                            let (e, ec) = ref_target(else_id, (k + 1) as nat)->Ok_0;
                            assert(((t as u64 % 0x1_0000_0000) as u32) == t as u32) by (bit_vector);
                            assert(((e as u64 % 0x1_0000_0000) as u32) == e as u32) by (bit_vector);
                        },
                    }
                }
                match resolved_from(raw@, (k + 1) as nat) {
                    Ok(ns) => {
                        assert(out@ + (seq![node] + ns) =~= out@.push(node) + ns);
                    },
                    Err(_) => {},
                }
            }
            out.push(node);
            k += 1;
        }
        proof {
            assert(out@ + Seq::<DumpNode>::empty() =~= out@);
        }
        if self.root_ids.len() == 0 {
            return Err(LoadError::NoRoot);
        }
        let (root, comp) = match resolve_ref(self.root_ids[0], out.len() + 1) {
            Err(e) => {
                return Err(e);
            },
            Ok(x) => x,
        };
        let root32 = (root as u64 % 0x1_0000_0000) as u32;
        proof {
            assert(root32 == root as u32) by (bit_vector)
                requires
                    root32 == (root as u64 % 0x1_0000_0000) as u32,
            ;
        }
        Ok((out, root32, comp))
    }
}

/// `std::str::from_utf8` on `bytes`: the text they encode when they are
/// valid UTF-8; otherwise the text of the error, of which nothing is
/// stated.
#[verifier::external_body]
fn utf8_text(bytes: &[u8]) -> (r: Result<String, String>)
    ensures
        r is Ok <==> valid_utf8(bytes@),
        r matches Ok(s) ==> s@ == decode_utf8(bytes@),
{
    match std::str::from_utf8(bytes) {
        Ok(s) => Ok(s.to_string()),
        Err(e) => Err(e.to_string()),
    }
}

/// The end of the line that starts at `pos`: the index of the first
/// newline at or after `pos`, or the length of `d`.
pub open spec fn line_end(d: Seq<u8>, pos: nat) -> nat
    decreases d.len() - pos,
{
    if pos >= d.len() || d[pos as int] == 10 {
        pos
    } else {
        line_end(d, pos + 1)
    }
}

/// Where the line after the one ending at `e` starts.
pub open spec fn next_line(d: Seq<u8>, e: nat) -> nat {
    if e < d.len() {
        e + 1
    } else {
        d.len()
    }
}

/// A line ends between its start and the end of the data.
pub proof fn lemma_line_end_bounds(d: Seq<u8>, pos: nat)
    requires
        pos <= d.len(),
    ensures
        pos <= line_end(d, pos) <= d.len(),
    decreases d.len() - pos,
{
    if pos < d.len() && d[pos as int] != 10 {
        lemma_line_end_bounds(d, pos + 1);
    }
}

/// The header of a binary dump read from `pos` on in state `v`: the state
/// after its `.nodes` line and where the node data starts; or the first
/// error (of an invalid UTF-8 line, only that it is one).
pub open spec fn header_from(d: Seq<u8>, pos: nat, v: ReaderState) -> Result<
    (ReaderState, nat),
    LoadError,
>
    decreases d.len() - pos,
{
    if pos >= d.len() {
        Err(LoadError::MissingNodes)
    } else {
        let e = line_end(d, pos);
        let bytes = d.subrange(pos as int, e as int);
        if !valid_utf8(bytes) {
            Err(LoadError::InvalidUtf8(arbitrary()))
        } else {
            match after_line(v, decode_utf8(bytes), true) {
                Err(err) => Err(err),
                Ok(w) => if w.in_nodes {
                    Ok((w, next_line(d, e)))
                } else {
                    proof {
                        lemma_line_end_bounds(d, pos);
                    }
                    header_from(d, next_line(d, e), w)
                },
            }
        }
    }
}

/// `r` is the outcome `s`, except that an invalid UTF-8 line may be
/// reported with any text.
pub open spec fn same_outcome<T>(r: Result<T, LoadError>, s: Result<T, LoadError>) -> bool {
    match s {
        Err(LoadError::InvalidUtf8(_)) => r matches Err(LoadError::InvalidUtf8(_)),
        _ => r == s,
    }
}

/// Read the text header of a binary dump, up to its `.nodes` line: the
/// state it gives and where the node data starts.
pub fn read_binary_header(data: &[u8]) -> (r: Result<(DumpReader, usize), LoadError>)
    ensures
        match header_from(data@, 0, start_state()) {
            Ok((v, pos)) => r matches Ok((rd, p)) && rd@ == v && p == pos,
            Err(e) => same_outcome(r, Err::<(DumpReader, usize), LoadError>(e)),
        },
{
    let len = data.len();
    let ghost d = data@;
    let mut reader = DumpReader::new();
    let mut cursor: usize = 0;
    while cursor < len
        invariant
            d == data@,
            len == d.len(),
            cursor <= len,
            !reader.in_nodes,
            header_from(d, 0, start_state()) == header_from(d, cursor as nat, reader@),
        decreases len - cursor,
    {
        let mut e = cursor;
        while e < len && data[e] != 10
            invariant
                d == data@,
                len == d.len(),
                cursor <= e <= len,
                line_end(d, cursor as nat) == line_end(d, e as nat),
            decreases len - e,
        {
            e += 1;
        }
        proof {
            assert(line_end(d, cursor as nat) == e);
        }
        let bytes = vstd::slice::slice_subrange(data, cursor, e);
        let text = match utf8_text(bytes) {
            Err(m) => {
                return Err(LoadError::InvalidUtf8(m));
            },
            Ok(t) => t,
        };
        match reader.read_line(text.as_str(), true) {
            Err(err) => {
                return Err(err);
            },
            Ok(()) => {},
        }
        let next = if e < len {
            e + 1
        } else {
            len
        };
        if reader.in_nodes {
            return Ok((reader, next));
        }
        cursor = next;
    }
    Err(LoadError::MissingNodes)
}

/// What a binary dump gives: the number of variables, the nodes, the
/// number of the root and whether the edge to it is complemented.
#[derive(Debug)]
pub struct LoadedDump {
    /// The `.nvars` value.
    pub num_vars: u16,
    /// The nodes, in order.
    pub nodes: Vec<DumpNode>,
    /// The number of the root.
    pub root: u32,
    /// The edge to the root is complemented.
    pub root_comp: bool,
}

/// What the binary dump `d` gives: its header, then `.nnodes` nodes of
/// binary node data, then the first root reference, which must name one
/// of the nodes; or the first error.
pub open spec fn binary_result(d: Seq<u8>) -> Result<(u16, Seq<DumpNode>, u32, bool), LoadError> {
    match header_from(d, 0, start_state()) {
        Err(e) => Err(e),
        Ok((v, pos)) => match nodes_at(d, pos, 0, v.num_nodes as nat) {
            Err(e) => Err(e),
            Ok((ns, _)) => if v.root_ids.len() == 0 {
                Err(LoadError::NoRoot)
            } else {
                let idx = ref_index(v.root_ids[0]);
                if idx == 0 || idx > v.num_nodes {
                    Err(LoadError::RootOutOfRange)
                } else {
                    Ok((v.num_vars, ns, idx as u32, v.root_ids[0] < 0))
                }
            },
        },
    }
}

/// Read a binary dump.
pub fn read_binary(data: &[u8]) -> (r: Result<LoadedDump, LoadError>)
    ensures
        match binary_result(data@) {
            Ok((nv, ns, root, comp)) => r matches Ok(l) && l.num_vars == nv && l.nodes@ == ns
                && l.root == root && l.root_comp == comp,
            Err(e) => same_outcome(r, Err::<LoadedDump, LoadError>(e)),
        },
{
    let (reader, pos) = match read_binary_header(data) {
        Err(e) => {
            return Err(e);
        },
        Ok(x) => x,
    };
    let (nodes, _end) = match decode_nodes(data, pos, reader.num_nodes) {
        Err(e) => {
            return Err(e);
        },
        Ok(x) => x,
    };
    if reader.root_ids.len() == 0 {
        return Err(LoadError::NoRoot);
    }
    let s = reader.root_ids[0];
    let m: u64 = if s < 0 {
        if s == i64::MIN {
            0x8000_0000_0000_0000
        } else {
            (-s) as u64
        }
    } else {
        s as u64
    };
    let idx = m as usize;
    proof {
        assert(m as int == (if s < 0 {
            -(s as int)
        } else {
            s as int
        }));
    }
    if idx == 0 || idx > reader.num_nodes {
        return Err(LoadError::RootOutOfRange);
    }
    let root = (idx as u64 % 0x1_0000_0000) as u32;
    proof {
        assert(root == idx as u32) by (bit_vector)
            requires
                root == (idx as u64 % 0x1_0000_0000) as u32,
        ;
    }
    Ok(LoadedDump { num_vars: reader.num_vars, nodes: nodes, root: root, root_comp: s < 0 })
}

/// The two lowercase hexadecimal digits of `b`.
pub open spec fn hex2(b: u8) -> Seq<char> {
    seq![hex_digit((b / 16) as nat), hex_digit((b % 16) as nat)]
}

/// The lowercase hexadecimal digit for `d < 16`.
pub open spec fn hex_digit(d: nat) -> char {
    if d < 10 {
        (48 + d) as char
    } else {
        (87 + d) as char
    }
}

/// The text of a varint error.
pub open spec fn varint_error_text(e: VarintError) -> Seq<char> {
    match e {
        VarintError::TooLong => "varint too long"@,
        VarintError::Unterminated => "unterminated varint"@,
    }
}

/// The text of a load error; `line` is the line being read, which a
/// malformed node line's text quotes trimmed.
pub open spec fn load_error_text(e: LoadError, line: Seq<char>) -> Seq<char> {
    match e {
        LoadError::UnexpectedEnd => "unexpected end of binary node data"@,
        LoadError::UnknownTag(t) => "unknown binary node tag: 0x"@ + hex2(t),
        LoadError::BadVarint(v) => varint_error_text(v),
        LoadError::BadChild => "invalid child reference in binary data"@,
        LoadError::MalformedNode => "malformed node line: "@ + trimmed(line),
        LoadError::BadVarIndex(n) => "bad var index: "@ + number_error_text(n),
        LoadError::BadThenId(n) => "bad then id: "@ + number_error_text(n),
        LoadError::BadElseId(n) => "bad else id: "@ + number_error_text(n),
        LoadError::BadNNodes(n) => "bad nnodes: "@ + number_error_text(n),
        LoadError::BadNVars(n) => "bad nvars: "@ + number_error_text(n),
        LoadError::BadRootId(n) => "bad root id: "@ + number_error_text(n),
        LoadError::BadPermId(n) => "bad permid: "@ + number_error_text(n),
        LoadError::BadReference(s) => "invalid node reference: "@ + signed_decimal(s as int),
        LoadError::NoRoot => "no root IDs found"@,
        LoadError::RootOutOfRange => "root ID out of range"@,
        LoadError::MissingNodes => "missing .nodes marker"@,
        LoadError::InvalidUtf8(m) => "invalid utf8 in header: "@ + m@,
        LoadError::VarOutOfRange => "variable index out of range"@,
        LoadError::Unordered => "node variable not above its children in the order"@,
        LoadError::OutOfNodes => "node arena full"@,
    }
}

/// Append the lowercase hexadecimal digit of `d < 16`.
fn push_hex_digit(s: &mut String, d: u8)
    requires
        d < 16,
    ensures
        final(s)@ == old(s)@.push(hex_digit(d as nat)),
{
    let c: char = if d < 10 {
        (48 + d) as char
    } else {
        (87 + d) as char
    };
    crate::scan::push_char(s, c);
}

impl LoadError {
    /// The text of this error; `line` is the line being read, which a
    /// malformed node line's text quotes trimmed.
    pub fn message(&self, line: &str) -> (r: String)
        ensures
            r@ == load_error_text(*self, line@),
    {
        let mut s = String::new();
        match self {
            LoadError::UnexpectedEnd => s.append("unexpected end of binary node data"),
            LoadError::UnknownTag(t) => {
                s.append("unknown binary node tag: 0x");
                push_hex_digit(&mut s, *t / 16);
                push_hex_digit(&mut s, *t % 16);
            },
            LoadError::BadVarint(v) => match v {
                VarintError::TooLong => s.append("varint too long"),
                VarintError::Unterminated => s.append("unterminated varint"),
            },
            LoadError::BadChild => s.append("invalid child reference in binary data"),
            LoadError::MalformedNode => {
                s.append("malformed node line: ");
                let cs = crate::scan::chars_of(line);
                let (a, b) = crate::scan::trim_bounds(cs.as_slice());
                let mut i = a;
                while i < b
                    invariant
                        a <= i <= b <= cs@.len(),
                        s@ == "malformed node line: "@ + cs@.subrange(a as int, i as int),
                    decreases b - i,
                {
                    crate::scan::push_char(&mut s, cs[i]);
                    proof {
                        assert(s@ =~= "malformed node line: "@ + cs@.subrange(a as int, i + 1));
                    }
                    i += 1;
                }
            },
            LoadError::BadVarIndex(n) => {
                s.append("bad var index: ");
                s.append(n.message().as_str());
            },
            LoadError::BadThenId(n) => {
                s.append("bad then id: ");
                s.append(n.message().as_str());
            },
            LoadError::BadElseId(n) => {
                s.append("bad else id: ");
                s.append(n.message().as_str());
            },
            LoadError::BadNNodes(n) => {
                s.append("bad nnodes: ");
                s.append(n.message().as_str());
            },
            LoadError::BadNVars(n) => {
                s.append("bad nvars: ");
                s.append(n.message().as_str());
            },
            LoadError::BadRootId(n) => {
                s.append("bad root id: ");
                s.append(n.message().as_str());
            },
            LoadError::BadPermId(n) => {
                s.append("bad permid: ");
                s.append(n.message().as_str());
            },
            LoadError::BadReference(r) => {
                s.append("invalid node reference: ");
                push_signed(&mut s, *r);
            },
            LoadError::NoRoot => s.append("no root IDs found"),
            LoadError::RootOutOfRange => s.append("root ID out of range"),
            LoadError::MissingNodes => s.append("missing .nodes marker"),
            LoadError::InvalidUtf8(m) => {
                s.append("invalid utf8 in header: ");
                s.append(m.as_str());
            },
            LoadError::VarOutOfRange => s.append("variable index out of range"),
            LoadError::Unordered => s.append("node variable not above its children in the order"),
            LoadError::OutOfNodes => s.append("node arena full"),
        }
        proof {
            assert(s@ =~= load_error_text(*self, line@));
        }
        s
    }
}

/// The bytes of a binary dump: the header in UTF-8, the binary node data,
/// then `\n.end\n`.
pub open spec fn binary_dump(
    nodes: Seq<DumpNode>,
    root_comp: bool,
    num_vars: nat,
    inv_perm: Seq<u32>,
    perm: Seq<u32>,
) -> Seq<u8> {
    encode_utf8(header_text(true, nodes, root_comp, num_vars, inv_perm, perm, None)) + nodes_bytes(
        nodes,
    ) + encode_utf8("\n.end\n"@)
}

/// Append the bytes `b`.
fn push_bytes(out: &mut Vec<u8>, b: &[u8])
    ensures
        final(out)@ == old(out)@ + b@,
{
    let mut i: usize = 0;
    let ghost start = old(out)@;
    while i < b.len()
        invariant
            i <= b@.len(),
            out@ == start + b@.take(i as int),
        decreases b@.len() - i,
    {
        out.push(b[i]);
        i += 1;
        proof {
            assert(out@ =~= start + b@.take(i as int));
        }
    }
    proof {
        assert(b@.take(b@.len() as int) =~= b@);
    }
}

/// A whole binary dump: the header in UTF-8, the binary node data, then
/// `\n.end\n`.
pub fn dump_binary(
    nodes: &[DumpNode],
    root_comp: bool,
    num_vars: u16,
    inv_perm: &[u32],
    perm: &[u32],
) -> (r: Vec<u8>)
    requires
        inv_perm@.len() >= num_vars,
        perm@.len() >= num_vars,
    ensures
        r@ == binary_dump(nodes@, root_comp, num_vars as nat, inv_perm@, perm@),
{
    let h = dump_header(true, nodes, root_comp, num_vars, inv_perm, perm, None);
    let mut out: Vec<u8> = Vec::new();
    push_bytes(&mut out, h.as_str().as_bytes());
    let nb = encode_nodes(nodes);
    push_bytes(&mut out, nb.as_slice());
    let t = binary_trailer();
    push_bytes(&mut out, t.as_str().as_bytes());
    proof {
        assert(names_view(None) == None::<Seq<Seq<char>>>);
        assert(out@ =~= encode_utf8(header_text(true, nodes@, root_comp, num_vars as nat, inv_perm@, perm@, None))
            + nodes_bytes(nodes@) + encode_utf8("\n.end\n"@));
    }
    out
}

} // verus!
