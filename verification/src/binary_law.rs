//! Reading back a binary dump: the bytes that the binary writer produces
//! give back the variable count, the nodes and the root that were written.
use vstd::prelude::*;
use vstd::utf8::{
    decode_utf8, encode_utf8, encode_utf8_decode_utf8, encode_utf8_valid_utf8, is_ascii_chars,
    is_ascii_chars_encode_utf8, valid_utf8,
};
use crate::decimal::{decimal, signed_decimal};
use crate::dddmp::{
    after_line, binary_dump, binary_result, lemma_nodes_round_trip, listed_at, nodes_bytes,
    start_state, well_listed, ref_index, header_from, header_lines, index_numbers, line_end, listed_numbers,
    next_line, ordered_names, root_seq, signed_ref, spaced, var_name, DumpNode, ReaderState,
};
use crate::dump_law::{
    lemma_decimal_shape, lemma_ignored_line, lemma_nnodes_line, lemma_nodes_line, lemma_nvars_line,
    lemma_ref_text, lemma_rootids_line, lemma_signed_decimal_shape, no_newline,
};
use crate::scan::{is_digit, is_white_space, lead_white, trail_white, trimmed};

verus! {

/// `s` is ASCII text without a newline.
pub open spec fn plain(s: Seq<char>) -> bool {
    is_ascii_chars(s) && no_newline(s)
}

/// `l` is a header line: a dot, plain text, then a newline.
pub open spec fn header_line_ok(l: Seq<char>) -> bool {
    &&& l.len() >= 2
    &&& l[0] == '.'
    &&& l.last() == '\n'
    &&& plain(l.drop_last())
}

/// Where line `k` of `ls` starts when the lines stand one after another.
pub open spec fn line_start(ls: Seq<Seq<char>>, k: int) -> nat {
    ls.take(k).flatten().len()
}

/// Plain text, then more plain text.
proof fn lemma_plain_concat(a: Seq<char>, b: Seq<char>)
    requires
        plain(a),
        plain(b),
    ensures
        plain(a + b),
{
    let c = a + b;
    assert forall|i: int| 0 <= i < c.len() implies '\0' <= #[trigger] c[i] <= '\u{7f}' && c[i]
        != '\n' by {
        if i < a.len() {
            assert(c[i] == a[i]);
        } else {
            assert(c[i] == b[i - a.len()]);
        }
    }
}

/// A digit is an ASCII character other than a newline.
proof fn lemma_digit_plain(c: char)
    requires
        is_digit(c),
    ensures
        '\0' <= c <= '\u{7f}',
        c != '\n',
{
}

/// Digits are plain text.
proof fn lemma_plain_digits(s: Seq<char>)
    requires
        forall|i: int| 0 <= i < s.len() ==> is_digit(#[trigger] s[i]),
    ensures
        plain(s),
{
    assert forall|i: int| 0 <= i < s.len() implies '\0' <= #[trigger] s[i] <= '\u{7f}' && s[i]
        != '\n' by {
        lemma_digit_plain(s[i]);
    }
}

/// Decimal notation is plain text.
proof fn lemma_plain_decimal(n: nat)
    ensures
        plain(decimal(n)),
{
    lemma_decimal_shape(n);
    lemma_plain_digits(decimal(n));
}

/// Signed decimal notation is plain text.
proof fn lemma_plain_signed(x: int)
    ensures
        plain(signed_decimal(x)),
{
    lemma_signed_decimal_shape(x);
    let s = signed_decimal(x);
    if x < 0 {
        let d = decimal((-x) as nat);
        lemma_plain_decimal((-x) as nat);
        reveal_strlit("-");
        assert(s =~= seq!['-'] + d);
        assert(plain(seq!['-']));
        lemma_plain_concat(seq!['-'], d);
    } else {
        lemma_plain_decimal(x as nat);
    }
}

/// Plain items, each after a space, are plain text.
proof fn lemma_plain_spaced(items: Seq<Seq<char>>)
    requires
        forall|i: int| 0 <= i < items.len() ==> plain(#[trigger] items[i]),
    ensures
        plain(spaced(items)),
    decreases items.len(),
{
    reveal_strlit(" ");
    if items.len() > 0 {
        let d = items.drop_last();
        assert forall|i: int| 0 <= i < d.len() implies plain(#[trigger] d[i]) by {
            assert(d[i] == items[i]);
        }
        lemma_plain_spaced(d);
        assert(plain(items[items.len() - 1]));
        assert(plain(" "@));
        lemma_plain_concat(spaced(d), " "@);
        lemma_plain_concat(spaced(d) + " "@, items.last());
    }
}

/// The name of a variable in a binary dump is plain text.
proof fn lemma_plain_x_name(vi: nat)
    ensures
        plain(var_name(None, vi)),
{
    reveal_strlit("x");
    assert(plain("x"@));
    lemma_plain_decimal(vi);
    lemma_plain_concat("x"@, decimal(vi));
}

/// A dot and plain text, more plain text, then a newline: a header line.
proof fn lemma_header_line_ok(lit: Seq<char>, mid: Seq<char>)
    requires
        plain(lit),
        plain(mid),
        lit.len() >= 1,
        lit[0] == '.',
    ensures
        header_line_ok(lit + mid + "\n"@),
{
    reveal_strlit("\n");
    lemma_plain_concat(lit, mid);
    let l = lit + mid + "\n"@;
    assert(l.drop_last() =~= lit + mid);
    assert(l[0] == lit[0]);
}

/// A final newline does not change what a line trims to, when the line
/// starts with a character that is not white space.
proof fn lemma_trim_newline(body: Seq<char>)
    requires
        body.len() >= 1,
        !is_white_space(body[0]),
    ensures
        trimmed(body + seq!['\n']) == trimmed(body),
{
    let s = body + seq!['\n'];
    assert(s[0] == body[0]);
    assert(lead_white(s) == 0);
    assert(lead_white(body) == 0);
    assert(s.last() == '\n');
    assert(s.drop_last() =~= body);
    assert(trail_white(s) == 1 + trail_white(body));
    crate::scan::lemma_trail_white_stop(body, 0);
    assert(s.subrange(0, s.len() - trail_white(s)) =~= body.subrange(
        0,
        body.len() - trail_white(body),
    ));
}

/// Line `k` stands in the concatenation of the lines at its start.
proof fn lemma_line_in_flatten(ls: Seq<Seq<char>>, k: int)
    requires
        0 <= k < ls.len(),
    ensures
        line_start(ls, k + 1) == line_start(ls, k) + ls[k].len(),
        line_start(ls, k + 1) <= ls.flatten().len(),
        forall|i: int|
            0 <= i < ls[k].len() ==> ls.flatten()[line_start(ls, k) + i] == #[trigger] ls[k][i],
{
    crate::dddmp::lemma_flatten_take_step(ls, k);
    assert(ls =~= ls.take(k + 1) + ls.skip(k + 1));
    vstd::seq_lib::lemma_flatten_concat(ls.take(k + 1), ls.skip(k + 1));
    let a = ls.take(k).flatten();
    assert forall|i: int| 0 <= i < ls[k].len() implies ls.flatten()[line_start(ls, k) + i]
        == #[trigger] ls[k][i] by {
        assert(ls.take(k + 1).flatten()[a.len() + i] == ls[k][i]);
    }
}

/// The line that starts at `p` ends at `e` when no newline byte lies
/// between them and one lies at `e`.
proof fn lemma_line_end_at(d: Seq<u8>, p: nat, e: nat)
    requires
        p <= e < d.len(),
        d[e as int] == 10,
        forall|i: int| p <= i < e ==> d[i] != 10,
    ensures
        line_end(d, p) == e,
    decreases e - p,
{
    if p < e {
        lemma_line_end_at(d, p + 1, e);
    }
}

/// The bytes of line `k` of `ls`, when the bytes from its start are those
/// of the lines as ASCII: the line ends at its newline, and the bytes
/// before it are the UTF-8 encoding of its text.
#[verifier::spinoff_prover]
#[verifier::rlimit(40)]
proof fn lemma_line_bytes(d: Seq<u8>, ls: Seq<Seq<char>>, k: int)
    requires
        0 <= k < ls.len(),
        header_line_ok(ls[k]),
        ls.flatten().len() <= d.len(),
        forall|j: int| 0 <= j < ls.flatten().len() ==> d[j] == #[trigger] ls.flatten()[j] as u8,
    ensures
        line_start(ls, k + 1) == line_start(ls, k) + ls[k].len(),
        line_start(ls, k + 1) <= d.len(),
        line_end(d, line_start(ls, k)) == line_start(ls, k) + ls[k].len() - 1,
        d.subrange(line_start(ls, k) as int, line_start(ls, k) + ls[k].len() - 1) == encode_utf8(
            ls[k].drop_last(),
        ),
{
    let l = ls[k];
    let s = line_start(ls, k);
    let n = l.len();
    let body = l.drop_last();
    lemma_line_in_flatten(ls, k);
    let t = ls.flatten();
    assert forall|i: int| 0 <= i < n implies d[s + i] == #[trigger] l[i] as u8 by {
        assert(t[s + i] == l[i]);
    }
    assert forall|j: int| s <= j < s + n - 1 implies #[trigger] d[j] != 10 by {
        let i = j - s;
        assert(body[i] == l[i]);
        assert(body[i] != '\n');
        assert('\0' <= body[i] <= '\u{7f}');
        assert(d[s + i] == l[i] as u8);
    }
    assert(d[s + n - 1] == l[n - 1] as u8);
    assert(l[n - 1] == '\n');
    lemma_line_end_at(d, s, (s + n - 1) as nat);
    let bytes = d.subrange(s as int, s + n - 1);
    is_ascii_chars_encode_utf8(body);
    assert forall|i: int| 0 <= i < body.len() implies bytes[i] == #[trigger] encode_utf8(body)[i] by {
        assert(body[i] == l[i]);
        assert(bytes[i] == d[s + i]);
    }
    assert(bytes =~= encode_utf8(body));
}

/// Reading the header line `k` of `ls`, when the bytes from its start
/// are those of the lines as ASCII: the line is read as text, and the
/// header goes on after it, or ends there at `.nodes`.
#[verifier::spinoff_prover]
#[verifier::rlimit(40)]
pub proof fn lemma_header_step(d: Seq<u8>, ls: Seq<Seq<char>>, k: int, v: ReaderState)
    requires
        0 <= k < ls.len(),
        header_line_ok(ls[k]),
        ls.flatten().len() <= d.len(),
        forall|j: int| 0 <= j < ls.flatten().len() ==> d[j] == #[trigger] ls.flatten()[j] as u8,
    ensures
        header_from(d, line_start(ls, k), v) == match after_line(v, ls[k], true) {
            Err(e) => Err(e),
            Ok(w) => if w.in_nodes {
                Ok((w, line_start(ls, k + 1)))
            } else {
                header_from(d, line_start(ls, k + 1), w)
            },
        },
{
    let l = ls[k];
    let s = line_start(ls, k);
    let n = l.len();
    let body = l.drop_last();
    lemma_line_bytes(d, ls, k);
    assert(l =~= body + seq!['\n']);
    encode_utf8_valid_utf8(body);
    encode_utf8_decode_utf8(body);
    assert(body[0] == l[0]);
    lemma_trim_newline(body);
    assert(after_line(v, body, true) == after_line(v, l, true));
    assert(next_line(d, (s + n - 1) as nat) == s + n);
    let bytes = d.subrange(s as int, s + n - 1);
    assert(valid_utf8(bytes));
    assert(decode_utf8(bytes) == body);
}

/// Every header line of a binary dump is a dot, plain text and a newline.
#[verifier::spinoff_prover]
#[verifier::rlimit(60)]
proof fn lemma_binary_header_lines(
    ns: Seq<DumpNode>,
    root_comp: bool,
    nv: nat,
    inv_perm: Seq<u32>,
    perm: Seq<u32>,
)
    ensures
        header_lines(true, ns, root_comp, nv, inv_perm, perm, None).len() == 12,
        forall|k: int|
            0 <= k < 12 ==> header_line_ok(
                #[trigger] header_lines(true, ns, root_comp, nv, inv_perm, perm, None)[k],
            ),
{
    reveal_strlit(".ver DDDMP-2.0\n");
    reveal_strlit(".ver DDDMP-2.0");
    reveal_strlit(".mode ");
    reveal_strlit(".mode B");
    reveal_strlit("B");
    reveal_strlit(".varinfo 0\n");
    reveal_strlit(".varinfo 0");
    reveal_strlit(".nnodes ");
    reveal_strlit(".nvars ");
    reveal_strlit(".nsuppvars ");
    reveal_strlit(".orderedvarnames");
    reveal_strlit(".ids");
    reveal_strlit(".permids");
    reveal_strlit(".nroots 1\n");
    reveal_strlit(".nroots 1");
    reveal_strlit(".rootids ");
    reveal_strlit(".nodes\n");
    reveal_strlit(".nodes");
    reveal_strlit("\n");
    let hl = header_lines(true, ns, root_comp, nv, inv_perm, perm, None);
    let e = Seq::<char>::empty();
    assert(plain(e));
    lemma_plain_decimal(ns.len());
    lemma_plain_decimal(nv);
    let ordered = ordered_names(None, inv_perm, nv);
    let ids = index_numbers(nv);
    let pids = listed_numbers(perm, nv);
    assert forall|i: int| 0 <= i < ordered.len() implies plain(#[trigger] ordered[i]) by {
        lemma_plain_x_name(inv_perm[i] as nat);
    }
    assert forall|i: int| 0 <= i < ids.len() implies plain(#[trigger] ids[i]) by {
        lemma_plain_decimal(i as nat);
    }
    assert forall|i: int| 0 <= i < pids.len() implies plain(#[trigger] pids[i]) by {
        lemma_plain_decimal(perm[i] as nat);
    }
    lemma_plain_spaced(ordered);
    lemma_plain_spaced(ids);
    lemma_plain_spaced(pids);
    lemma_plain_signed(signed_ref(root_seq(ns), root_comp));
    assert(plain(".ver DDDMP-2.0"@));
    lemma_header_line_ok(".ver DDDMP-2.0"@, e);
    assert(hl[0] =~= ".ver DDDMP-2.0"@ + e + "\n"@);
    assert(plain(".mode B"@));
    lemma_header_line_ok(".mode B"@, e);
    assert(hl[1] =~= ".mode B"@ + e + "\n"@);
    assert(plain(".varinfo 0"@));
    lemma_header_line_ok(".varinfo 0"@, e);
    assert(hl[2] =~= ".varinfo 0"@ + e + "\n"@);
    assert(plain(".nnodes "@));
    lemma_header_line_ok(".nnodes "@, decimal(ns.len()));
    assert(plain(".nvars "@));
    lemma_header_line_ok(".nvars "@, decimal(nv));
    assert(plain(".nsuppvars "@));
    lemma_header_line_ok(".nsuppvars "@, decimal(nv));
    assert(plain(".orderedvarnames"@));
    lemma_header_line_ok(".orderedvarnames"@, spaced(ordered));
    assert(plain(".ids"@));
    lemma_header_line_ok(".ids"@, spaced(ids));
    assert(plain(".permids"@));
    lemma_header_line_ok(".permids"@, spaced(pids));
    assert(plain(".nroots 1"@));
    lemma_header_line_ok(".nroots 1"@, e);
    assert(hl[9] =~= ".nroots 1"@ + e + "\n"@);
    assert(plain(".rootids "@));
    lemma_header_line_ok(".rootids "@, signed_decimal(signed_ref(root_seq(ns), root_comp)));
    assert(plain(".nodes"@));
    lemma_header_line_ok(".nodes"@, e);
    assert(hl[11] =~= ".nodes"@ + e + "\n"@);
}

/// Header lines, one after another, are ASCII text.
proof fn lemma_lines_ascii(ls: Seq<Seq<char>>)
    requires
        forall|k: int| 0 <= k < ls.len() ==> header_line_ok(#[trigger] ls[k]),
    ensures
        is_ascii_chars(ls.flatten()),
    decreases ls.len(),
{
    if ls.len() > 0 {
        let r = ls.drop_first();
        assert forall|k: int| 0 <= k < r.len() implies header_line_ok(#[trigger] r[k]) by {
            assert(r[k] == ls[k + 1]);
        }
        lemma_lines_ascii(r);
        let l = ls[0];
        assert(header_line_ok(l));
        let f = ls.flatten();
        assert(f == l + r.flatten());
        assert forall|i: int| 0 <= i < f.len() implies '\0' <= #[trigger] f[i] <= '\u{7f}' by {
            if i < l.len() - 1 {
                assert(f[i] == l.drop_last()[i]);
            } else if i == l.len() - 1 {
                assert(f[i] == l.last());
            } else {
                assert(f[i] == r.flatten()[i - l.len()]);
            }
        }
    }
}

/// The state after the header of a binary dump.
pub open spec fn binary_header_state(n: nat, nv: nat, r: i64) -> ReaderState {
    ReaderState {
        num_nodes: n as usize,
        num_vars: nv as u16,
        root_ids: seq![r],
        in_nodes: true,
        ..start_state()
    }
}

/// Reading the header of a binary dump, whose bytes are those of its
/// lines as ASCII, gives the node count, the variable count and the root
/// reference, and ends where the lines end.
#[verifier::spinoff_prover]
#[verifier::rlimit(100)]
proof fn lemma_binary_header_read(
    d: Seq<u8>,
    ns: Seq<DumpNode>,
    root_comp: bool,
    nv: nat,
    inv_perm: Seq<u32>,
    perm: Seq<u32>,
)
    requires
        ns.len() <= usize::MAX,
        nv <= 0xFFFF,
        header_lines(true, ns, root_comp, nv, inv_perm, perm, None).flatten().len() <= d.len(),
        forall|j: int|
            0 <= j < header_lines(true, ns, root_comp, nv, inv_perm, perm, None).flatten().len()
                ==> d[j] == #[trigger] header_lines(
                true,
                ns,
                root_comp,
                nv,
                inv_perm,
                perm,
                None,
            ).flatten()[j] as u8,
    ensures
        header_from(d, 0, start_state()) == Ok::<(ReaderState, nat), crate::dddmp::LoadError>(
            (
                binary_header_state(ns.len(), nv, signed_ref(root_seq(ns), root_comp) as i64),
                header_lines(true, ns, root_comp, nv, inv_perm, perm, None).flatten().len(),
            ),
        ),
{
    let hl = header_lines(true, ns, root_comp, nv, inv_perm, perm, None);
    lemma_binary_header_lines(ns, root_comp, nv, inv_perm, perm);
    let r = signed_ref(root_seq(ns), root_comp) as i64;
    let s0 = start_state();
    let s1 = ReaderState { num_nodes: ns.len() as usize, ..s0 };
    let s2 = ReaderState { num_vars: nv as u16, ..s1 };
    let s4 = ReaderState { root_ids: seq![r], ..s2 };
    let s5 = ReaderState { in_nodes: true, ..s4 };
    assert(s5 == binary_header_state(ns.len(), nv, r));
    assert(hl.take(0) =~= Seq::<Seq<char>>::empty());
    assert(hl.take(12) =~= hl);
    reveal_strlit(".ver DDDMP-2.0\n");
    reveal_strlit(".mode ");
    reveal_strlit("B");
    reveal_strlit(".varinfo 0\n");
    reveal_strlit(".nsuppvars ");
    reveal_strlit(".orderedvarnames");
    reveal_strlit(".ids");
    reveal_strlit(".permids");
    reveal_strlit(".nroots 1\n");
    reveal_strlit("\n");
    assert(header_from(d, line_start(hl, 0), s0) == header_from(d, line_start(hl, 1), s0)) by {
        lemma_header_step(d, hl, 0, s0);
        lemma_ignored_line(s0, hl[0], true);
    }
    assert(header_from(d, line_start(hl, 1), s0) == header_from(d, line_start(hl, 2), s0)) by {
        lemma_header_step(d, hl, 1, s0);
        lemma_ignored_line(s0, hl[1], true);
    }
    assert(header_from(d, line_start(hl, 2), s0) == header_from(d, line_start(hl, 3), s0)) by {
        lemma_header_step(d, hl, 2, s0);
        lemma_ignored_line(s0, hl[2], true);
    }
    assert(header_from(d, line_start(hl, 3), s0) == header_from(d, line_start(hl, 4), s1)) by {
        lemma_header_step(d, hl, 3, s0);
        lemma_nnodes_line(s0, ns.len(), true);
    }
    assert(header_from(d, line_start(hl, 4), s1) == header_from(d, line_start(hl, 5), s2)) by {
        lemma_header_step(d, hl, 4, s1);
        lemma_nvars_line(s1, nv, true);
    }
    assert(header_from(d, line_start(hl, 5), s2) == header_from(d, line_start(hl, 6), s2)) by {
        lemma_header_step(d, hl, 5, s2);
        lemma_ignored_line(s2, hl[5], true);
    }
    assert(header_from(d, line_start(hl, 6), s2) == header_from(d, line_start(hl, 7), s2)) by {
        lemma_header_step(d, hl, 6, s2);
        lemma_ignored_line(s2, hl[6], true);
    }
    assert(header_from(d, line_start(hl, 7), s2) == header_from(d, line_start(hl, 8), s2)) by {
        lemma_header_step(d, hl, 7, s2);
        lemma_ignored_line(s2, hl[7], true);
    }
    assert(header_from(d, line_start(hl, 8), s2) == header_from(d, line_start(hl, 9), s2)) by {
        lemma_header_step(d, hl, 8, s2);
        lemma_ignored_line(s2, hl[8], true);
    }
    assert(header_from(d, line_start(hl, 9), s2) == header_from(d, line_start(hl, 10), s2)) by {
        lemma_header_step(d, hl, 9, s2);
        lemma_ignored_line(s2, hl[9], true);
    }
    assert(header_from(d, line_start(hl, 10), s2) == header_from(d, line_start(hl, 11), s4)) by {
        lemma_ref_text(root_seq(ns), root_comp);
        lemma_header_step(d, hl, 10, s2);
        lemma_rootids_line(s2, r, true);
    }
    assert(header_from(d, line_start(hl, 11), s4) == Ok::<
        (ReaderState, nat),
        crate::dddmp::LoadError,
    >((s5, line_start(hl, 12)))) by {
        lemma_header_step(d, hl, 11, s4);
        lemma_nodes_line(s4, true);
    }
}

/// Reading back a binary dump. The bytes that the binary writer gives the
/// nodes of a diagram, listed bottom-up, read back as the variable count,
/// the nodes, the number of the root and whether the edge to it is
/// complemented.
#[verifier::spinoff_prover]
#[verifier::rlimit(60)]
pub proof fn lemma_binary_dump_round_trip(
    ns: Seq<DumpNode>,
    root_comp: bool,
    num_vars: u16,
    inv_perm: Seq<u32>,
    perm: Seq<u32>,
)
    requires
        ns.len() >= 1,
        well_listed(ns, 0),
    ensures
        binary_result(binary_dump(ns, root_comp, num_vars as nat, inv_perm, perm)) == Ok::<
            (u16, Seq<DumpNode>, u32, bool),
            crate::dddmp::LoadError,
        >((num_vars, ns, root_seq(ns), root_comp)),
{
    let nv = num_vars as nat;
    let hl = header_lines(true, ns, root_comp, nv, inv_perm, perm, None);
    let text = hl.flatten();
    let pre = encode_utf8(text);
    let post = encode_utf8("\n.end\n"@);
    let d = binary_dump(ns, root_comp, nv, inv_perm, perm);
    assert(d == pre + nodes_bytes(ns) + post);
    lemma_binary_header_lines(ns, root_comp, nv, inv_perm, perm);
    lemma_lines_ascii(hl);
    is_ascii_chars_encode_utf8(text);
    assert forall|j: int| 0 <= j < text.len() implies d[j] == #[trigger] text[j] as u8 by {
        assert(d[j] == pre[j]);
    }
    let last = ns[ns.len() - 1];
    assert(listed_at(last, ns.len() - 1));
    assert(ns.len() <= usize::MAX);
    let r = signed_ref(root_seq(ns), root_comp) as i64;
    lemma_ref_text(root_seq(ns), root_comp);
    lemma_binary_header_read(d, ns, root_comp, nv, inv_perm, perm);
    lemma_nodes_round_trip(pre, ns, post, 0);
    assert(pre.len() == text.len());
    assert(root_seq(ns) == last.seq_id);
    assert(ref_index(r) == root_seq(ns) as usize);
}

} // verus!
