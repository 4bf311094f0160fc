//! Reading back a text dump: the lines that the text writer produces, read
//! one by one, give back the nodes and the root that were written.
use vstd::prelude::*;
use crate::decimal::{decimal, signed_decimal};
use crate::dddmp::{
    after_line, header_lines, header_text, ordered_names, all_names, index_numbers,
    listed_numbers, node_line, node_lines, root_seq, signed_ref, spaced,
    start_state, text_result, var_name, well_listed, listed_at, DumpNode, LoadError, RawNode,
    resolved_from, resolved_node, ref_target, ref_index,
    ReaderState, CONST_INDEX,
};
use crate::scan::{
    all_digits, i64_of, is_digit, is_white_space, lemma_decimal_digits, lemma_digits_no_white,
    lemma_i64_of_signed_decimal, lemma_trim_line, lemma_unsigned_of_decimal, lemma_words_cons,
    lemma_words_split, no_white, trimmed, usize_of, words, NumberError,
};
use crate::dddmp::{all_i64, all_u32, starts};

verus! {

/// `s` holds no newline.
pub open spec fn no_newline(s: Seq<char>) -> bool {
    forall|i: int| 0 <= i < s.len() ==> #[trigger] s[i] != '\n'
}

/// `l` is one line as `read_line` gives it: text without a newline, then
/// a newline.
pub open spec fn one_line(l: Seq<char>) -> bool {
    l.len() >= 1 && l.last() == '\n' && no_newline(l.drop_last())
}

/// The lines of a text dump, each with its newline.
pub open spec fn dump_lines(
    nodes: Seq<DumpNode>,
    root_comp: bool,
    num_vars: nat,
    inv_perm: Seq<u32>,
    perm: Seq<u32>,
    names: Option<Seq<Seq<char>>>,
) -> Seq<Seq<char>> {
    header_lines(false, nodes, root_comp, num_vars, inv_perm, perm, names) + nodes.map_values(
        |n: DumpNode| node_line(n),
    ) + seq![".end\n"@]
}

/// The state after reading the lines `ls` in order from state `v`,
/// stopping after `.end`; or the first error.
pub open spec fn read_lines(v: ReaderState, ls: Seq<Seq<char>>) -> Result<ReaderState, LoadError>
    decreases ls.len(),
{
    if ls.len() == 0 || v.done {
        Ok(v)
    } else {
        match after_line(v, ls[0], false) {
            Err(e) => Err(e),
            Ok(w) => read_lines(w, ls.skip(1)),
        }
    }
}

/// Reading a line that leaves the state as `w`, then the rest.
proof fn lemma_read_step(v: ReaderState, w: ReaderState, ls: Seq<Seq<char>>)
    requires
        ls.len() >= 1,
        !v.done,
        after_line(v, ls[0], false) == Ok::<ReaderState, LoadError>(w),
    ensures
        read_lines(v, ls) == read_lines(w, ls.skip(1)),
{
}

/// A header line that names none of the values read, nor `.nodes`,
/// changes nothing before the nodes.
pub(crate) proof fn lemma_ignored_line(v: ReaderState, line: Seq<char>, binary: bool)
    requires
        !v.in_nodes,
        line.len() >= 3,
        line[0] == '.',
        !is_white_space(line[1]),
        !is_white_space(line[2]),
        line[1] != 'n' && line[1] != 'r' && (line[1] != 'p' || binary) || line[1] == 'n' && line[2]
            != 'n' && line[2] != 'v' && line[2] != 'o',
    ensures
        after_line(v, line, binary) == Ok::<ReaderState, LoadError>(v),
{
    crate::scan::lemma_trim_keeps_front(line);
    let t = trimmed(line);
    reveal_strlit(".nnodes ");
    reveal_strlit(".nvars ");
    reveal_strlit(".rootids ");
    reveal_strlit(".permids ");
    reveal_strlit(".nodes");
    assert(t[0] != '#');
    if t.len() >= 8 && t.take(8) == ".nnodes "@ {
        assert(t.take(8)[1] == t[1] && t.take(8)[2] == t[2]);
    }
    if t.len() >= 7 && t.take(7) == ".nvars "@ {
        assert(t.take(7)[1] == t[1] && t.take(7)[2] == t[2]);
    }
    if t.len() >= 9 && t.take(9) == ".rootids "@ {
        assert(t.take(9)[1] == t[1]);
    }
    if t.len() >= 9 && t.take(9) == ".permids "@ {
        assert(t.take(9)[1] == t[1]);
    }
    if t == ".nodes"@ {
        assert(t[1] == 'n' && t[2] == 'o');
    }
}

/// Signed decimal notation is non-empty, free of white space, and starts
/// and ends with characters that are not white space.
pub(crate) proof fn lemma_signed_decimal_shape(x: int)
    ensures
        signed_decimal(x).len() >= 1,
        no_white(signed_decimal(x)),
        is_digit(signed_decimal(x).last()),
        signed_decimal(x)[0] == '-' || is_digit(signed_decimal(x)[0]),
        no_newline(signed_decimal(x)),
{
    let s = signed_decimal(x);
    if x < 0 {
        let d = decimal((-x) as nat);
        lemma_decimal_digits((-x) as nat);
        reveal_strlit("-");
        assert(s =~= seq!['-'] + d);
        assert(s.last() == d.last());
        assert forall|i: int| 0 <= i < s.len() implies !is_white_space(#[trigger] s[i]) && s[i] != '\n' by {
            if i > 0 {
                assert(s[i] == d[i - 1]);
                assert(is_digit(d[i - 1]));
            }
        }
    } else {
        lemma_decimal_digits(x as nat);
        assert forall|i: int| 0 <= i < s.len() implies !is_white_space(#[trigger] s[i]) && s[i] != '\n' by {
            assert(is_digit(s[i]));
        }
    }
}

/// Decimal notation is non-empty, free of white space and newlines, and
/// made of digits.
pub(crate) proof fn lemma_decimal_shape(n: nat)
    ensures
        decimal(n).len() >= 1,
        no_white(decimal(n)),
        no_newline(decimal(n)),
        all_digits(decimal(n)),
{
    lemma_decimal_digits(n);
    lemma_digits_no_white(decimal(n));
    assert forall|i: int| 0 <= i < decimal(n).len() implies #[trigger] decimal(n)[i] != '\n' by {
        assert(is_digit(decimal(n)[i]));
    }
}

/// Each item after a space: the first character is that space, and the
/// last is that of the last item.
proof fn lemma_spaced_ends(items: Seq<Seq<char>>)
    requires
        items.len() >= 1,
        items.last().len() >= 1,
    ensures
        spaced(items).len() >= 1,
        spaced(items)[0] == ' ',
        spaced(items).last() == items.last().last(),
    decreases items.len(),
{
    reveal_strlit(" ");
    let d = items.drop_last();
    assert(spaced(items) == spaced(d) + " "@ + items.last());
    if d.len() == 0 {
        assert(spaced(d) =~= Seq::<char>::empty());
    } else {
        assert(d.last() == items[items.len() - 2]);
        if d.last().len() >= 1 {
            lemma_spaced_ends(d);
        } else {
            lemma_spaced_front(d);
        }
    }
}

/// Items after spaces start with a space.
proof fn lemma_spaced_front(items: Seq<Seq<char>>)
    requires
        items.len() >= 1,
    ensures
        spaced(items).len() >= 1,
        spaced(items)[0] == ' ',
    decreases items.len(),
{
    reveal_strlit(" ");
    let d = items.drop_last();
    if d.len() == 0 {
        assert(spaced(d) =~= Seq::<char>::empty());
        assert(spaced(items) =~= seq![' '] + items.last());
    } else {
        lemma_spaced_front(d);
        assert(spaced(items) == spaced(d) + " "@ + items.last());
    }
}

/// The words of items after spaces are the items, when each is a
/// non-empty word.
proof fn lemma_words_spaced(items: Seq<Seq<char>>)
    requires
        forall|i: int| 0 <= i < items.len() ==> (#[trigger] items[i]).len() >= 1 && no_white(items[i]),
    ensures
        words(spaced(items)) == items,
    decreases items.len(),
{
    reveal_strlit(" ");
    if items.len() == 0 {
        assert(words(Seq::<char>::empty()) =~= Seq::<Seq<char>>::empty());
    } else {
        let d = items.drop_last();
        lemma_words_spaced(d);
        let w = items.last();
        assert(w == items[items.len() - 1]);
        lemma_words_cons(w, Seq::empty());
        assert(spaced(items) =~= spaced(d) + seq![' '] + w);
        lemma_words_split(spaced(d), ' ', w);
        assert(d + seq![w] =~= items);
    }
}

/// Items after spaces hold no newline when the items hold none.
pub(crate) proof fn lemma_spaced_no_newline(items: Seq<Seq<char>>)
    requires
        forall|i: int| 0 <= i < items.len() ==> no_newline(#[trigger] items[i]),
    ensures
        no_newline(spaced(items)),
    decreases items.len(),
{
    reveal_strlit(" ");
    if items.len() > 0 {
        let d = items.drop_last();
        lemma_spaced_no_newline(d);
        let w = items.last();
        assert(no_newline(items[items.len() - 1]));
        let s = spaced(items);
        assert(s =~= spaced(d) + seq![' '] + w);
        assert forall|i: int| 0 <= i < s.len() implies #[trigger] s[i] != '\n' by {
            if i < spaced(d).len() {
                assert(s[i] == spaced(d)[i]);
            } else if i > spaced(d).len() {
                assert(s[i] == w[i - spaced(d).len() - 1]);
            }
        }
    }
}

/// The numbers written in decimal read back as `u32`s.
proof fn lemma_all_u32(ws: Seq<Seq<char>>, xs: Seq<u32>)
    requires
        ws.len() == xs.len(),
        forall|i: int| 0 <= i < ws.len() ==> #[trigger] ws[i] == decimal(xs[i] as nat),
    ensures
        all_u32(ws) == Ok::<Seq<u32>, NumberError>(xs),
    decreases ws.len(),
{
    if ws.len() > 0 {
        assert(ws[0] == decimal(xs[0] as nat));
        lemma_unsigned_of_decimal(xs[0] as nat, 0xFFFF_FFFF);
        assert forall|i: int| 0 <= i < ws.skip(1).len() implies #[trigger] ws.skip(1)[i] == decimal(
            xs.skip(1)[i] as nat,
        ) by {
            assert(ws.skip(1)[i] == ws[i + 1]);
        }
        lemma_all_u32(ws.skip(1), xs.skip(1));
        assert(seq![xs[0] as nat as u32] + xs.skip(1) =~= xs);
    } else {
        assert(xs =~= Seq::<u32>::empty());
    }
}

/// The `.nnodes` line sets the node count.
pub(crate) proof fn lemma_nnodes_line(v: ReaderState, n: nat, binary: bool)
    requires
        !v.in_nodes,
        n <= usize::MAX,
    ensures
        after_line(v, ".nnodes "@ + decimal(n) + "\n"@, binary) == Ok::<ReaderState, LoadError>(
            ReaderState { num_nodes: n as usize, ..v },
        ),
{
    reveal_strlit(".nnodes ");
    reveal_strlit("\n");
    lemma_decimal_shape(n);
    let d = decimal(n);
    let body = ".nnodes "@ + d;
    let line = ".nnodes "@ + d + "\n"@;
    assert(line =~= body + seq!['\n']);
    assert(body.last() == d.last());
    assert(!is_white_space(d[d.len() - 1]));
    lemma_trim_line(body);
    lemma_trim_line(d);
    let t = trimmed(line);
    assert(t == body);
    assert(t.take(8) =~= ".nnodes "@);
    assert(t.skip(".nnodes "@.len() as int) =~= d);
    lemma_unsigned_of_decimal(n, usize::MAX as nat);
    assert(usize_of(d) == Ok::<usize, NumberError>(n as usize));
}

/// The `.nvars` line sets the variable count.
pub(crate) proof fn lemma_nvars_line(v: ReaderState, n: nat, binary: bool)
    requires
        !v.in_nodes,
        n <= 0xFFFF,
    ensures
        after_line(v, ".nvars "@ + decimal(n) + "\n"@, binary) == Ok::<ReaderState, LoadError>(
            ReaderState { num_vars: n as u16, ..v },
        ),
{
    reveal_strlit(".nnodes ");
    reveal_strlit(".nvars ");
    reveal_strlit("\n");
    lemma_decimal_shape(n);
    let d = decimal(n);
    let body = ".nvars "@ + d;
    let line = ".nvars "@ + d + "\n"@;
    assert(line =~= body + seq!['\n']);
    assert(body.last() == d.last());
    assert(!is_white_space(d[d.len() - 1]));
    lemma_trim_line(body);
    lemma_trim_line(d);
    let t = trimmed(line);
    assert(t == body);
    assert(t[2] == 'v');
    if t.len() >= 8 && t.take(8) == ".nnodes "@ {
        assert(t.take(8)[2] == t[2]);
    }
    assert(t.take(7) =~= ".nvars "@);
    assert(t.skip(".nvars "@.len() as int) =~= d);
    lemma_unsigned_of_decimal(n, 0xFFFF);
}

/// The `.permids` line sets the permutation.
#[verifier::spinoff_prover]
#[verifier::rlimit(60)]
proof fn lemma_permids_line(v: ReaderState, perm: Seq<u32>, nv: nat)
    requires
        !v.in_nodes,
        perm.len() >= nv,
    ensures
        after_line(
            v,
            ".permids"@ + spaced(listed_numbers(perm, nv)) + "\n"@,
            false,
        ) == Ok::<ReaderState, LoadError>(
            if nv == 0 {
                v
            } else {
                ReaderState { perm_ids: perm.take(nv as int), ..v }
            },
        ),
{
    reveal_strlit(".nnodes ");
    reveal_strlit(".nvars ");
    reveal_strlit(".rootids ");
    reveal_strlit(".permids ");
    reveal_strlit(".permids");
    reveal_strlit(".nodes");
    reveal_strlit("\n");
    let items = listed_numbers(perm, nv);
    let sp = spaced(items);
    let body = ".permids"@ + sp;
    let line = ".permids"@ + sp + "\n"@;
    assert(line =~= body + seq!['\n']);
    if nv == 0 {
        assert(sp =~= Seq::<char>::empty());
        assert(body =~= ".permids"@);
        lemma_trim_line(body);
        let t = trimmed(line);
        assert(t == body);
        assert(t.len() == 8);
        assert(t[1] == 'p');
        if t == ".nodes"@ {
            assert(t.len() == 6);
        }
    } else {
        assert forall|i: int| 0 <= i < items.len() implies (#[trigger] items[i]).len() >= 1 && no_white(
            items[i],
        ) by {
            lemma_decimal_shape(perm[i] as nat);
        }
        lemma_decimal_shape(perm[nv - 1] as nat);
        assert(items.last() == decimal(perm[nv - 1] as nat));
        lemma_spaced_ends(items);
        assert(body.last() == sp.last());
        lemma_trim_line(body);
        let t = trimmed(line);
        assert(t == body);
        assert(t[1] == 'p');
        if t.len() >= 8 && t.take(8) == ".nnodes "@ {
            assert(t.take(8)[1] == t[1]);
        }
        if t.len() >= 7 && t.take(7) == ".nvars "@ {
            assert(t.take(7)[1] == t[1]);
        }
        if t.len() >= 9 && t.take(9) == ".rootids "@ {
            assert(t.take(9)[1] == t[1]);
        }
        assert(t[8] == sp[0]);
        assert(t.take(9) =~= ".permids "@);
        let rest = t.skip(".permids "@.len() as int);
        assert(rest =~= sp.skip(1));
        assert(words(sp) == words(sp.skip(1)));
        lemma_words_spaced(items);
        lemma_all_u32(items, perm.take(nv as int));
    }
}

/// One word that reads as an `i64`.
proof fn lemma_all_i64_one(d: Seq<char>, r: i64)
    requires
        i64_of(d) == Ok::<i64, NumberError>(r),
    ensures
        all_i64(seq![d]) == Ok::<Seq<i64>, NumberError>(seq![r]),
{
    assert(seq![d].skip(1) =~= Seq::<Seq<char>>::empty());
    assert(all_i64(Seq::<Seq<char>>::empty()) == Ok::<Seq<i64>, NumberError>(Seq::empty()));
    assert(seq![r] + Seq::<i64>::empty() =~= seq![r]);
}

/// The `.rootids` line sets the root reference.
#[verifier::spinoff_prover]
#[verifier::rlimit(40)]
pub(crate) proof fn lemma_rootids_line(v: ReaderState, r: i64, binary: bool)
    requires
        !v.in_nodes,
    ensures
        after_line(v, ".rootids "@ + signed_decimal(r as int) + "\n"@, binary) == Ok::<
            ReaderState,
            LoadError,
        >(ReaderState { root_ids: seq![r], ..v }),
{
    reveal_strlit(".nnodes ");
    reveal_strlit(".nvars ");
    reveal_strlit(".rootids ");
    reveal_strlit("\n");
    lemma_signed_decimal_shape(r as int);
    let d = signed_decimal(r as int);
    let body = ".rootids "@ + d;
    let line = ".rootids "@ + d + "\n"@;
    assert(line =~= body + seq!['\n']);
    assert(body.last() == d.last());
    lemma_trim_line(body);
    let t = trimmed(line);
    assert(t == body);
    assert(t[1] == 'r');
    if t.len() >= 8 && t.take(8) == ".nnodes "@ {
        assert(t.take(8)[1] == t[1]);
    }
    if t.len() >= 7 && t.take(7) == ".nvars "@ {
        assert(t.take(7)[1] == t[1]);
    }
    assert(t.take(9) =~= ".rootids "@);
    assert(t.skip(".rootids "@.len() as int) =~= d);
    lemma_words_cons(d, Seq::empty());
    lemma_i64_of_signed_decimal(r);
    lemma_all_i64_one(d, r);
}

/// The `.nodes` line starts the nodes.
pub(crate) proof fn lemma_nodes_line(v: ReaderState, binary: bool)
    requires
        !v.in_nodes,
    ensures
        after_line(v, ".nodes\n"@, binary) == Ok::<ReaderState, LoadError>(
            ReaderState { in_nodes: true, ..v },
        ),
{
    reveal_strlit(".nnodes ");
    reveal_strlit(".nvars ");
    reveal_strlit(".rootids ");
    reveal_strlit(".permids ");
    reveal_strlit(".nodes");
    reveal_strlit(".nodes\n");
    let body = ".nodes"@;
    assert(".nodes\n"@ =~= body + seq!['\n']);
    lemma_trim_line(body);
    let t = trimmed(".nodes\n"@);
    assert(t == body);
    if t.len() >= 8 && t.take(8) == ".nnodes "@ {
        assert(t.len() == 6);
    }
    if t.len() >= 7 && t.take(7) == ".nvars "@ {
        assert(t.len() == 6);
    }
}

/// The node line that the text writer gives `n`, as the reader reads it.
pub open spec fn raw_of(n: DumpNode) -> RawNode {
    if n.var_index == CONST_INDEX {
        RawNode::Terminal
    } else {
        RawNode::Internal {
            var_index: n.var_index,
            then_id: signed_ref(n.then_seq, n.then_comp) as i64,
            else_id: signed_ref(n.else_seq, n.else_comp) as i64,
        }
    }
}

/// A signed reference to a node fits in an `i64` and reads back as it.
pub(crate) proof fn lemma_ref_text(seq: u32, comp: bool)
    ensures
        (signed_ref(seq, comp) as i64) as int == signed_ref(seq, comp),
        i64_of(signed_decimal(signed_ref(seq, comp))) == Ok::<i64, NumberError>(
            signed_ref(seq, comp) as i64,
        ),
        signed_decimal(signed_ref(seq, comp)).len() >= 1,
        no_white(signed_decimal(signed_ref(seq, comp))),
        no_newline(signed_decimal(signed_ref(seq, comp))),
        is_digit(signed_decimal(signed_ref(seq, comp)).last()),
{
    let x = signed_ref(seq, comp) as i64;
    lemma_i64_of_signed_decimal(x);
    lemma_signed_decimal_shape(signed_ref(seq, comp));
}

/// A node line adds its node.
#[verifier::spinoff_prover]
#[verifier::rlimit(60)]
proof fn lemma_node_line(v: ReaderState, n: DumpNode)
    requires
        v.in_nodes,
    ensures
        after_line(v, node_line(n), false) == Ok::<ReaderState, LoadError>(
            ReaderState { nodes: v.nodes.push(raw_of(n)), ..v },
        ),
{
    reveal_strlit(" T 1 0 0\n");
    reveal_strlit(" ");
    reveal_strlit(" 0\n");
    reveal_strlit(".end");
    reveal_strlit("T");
    let d = decimal(n.seq_id as nat);
    lemma_decimal_shape(n.seq_id as nat);
    let line = node_line(n);
    if n.var_index == CONST_INDEX {
        let ts = seq!['T'];
        let one = seq!['1'];
        let zero = seq!['0'];
        let body = d + seq![' '] + (ts + seq![' '] + (one + seq![' '] + (zero + seq![' '] + zero)));
        assert(line =~= body + seq!['\n']);
        assert(body.last() == '0');
        lemma_trim_line(body);
        let t = trimmed(line);
        assert(t == body);
        assert(t[0] == d[0]);
        assert(is_digit(d[0]));
        if t == ".end"@ {
            assert(t[0] == '.');
        }
        assert(no_white(ts) && no_white(one) && no_white(zero));
        lemma_words_cons(zero, Seq::empty());
        lemma_words_split(zero, ' ', zero);
        lemma_words_split(one, ' ', zero + seq![' '] + zero);
        lemma_words_cons(one, Seq::empty());
        lemma_words_split(ts, ' ', one + seq![' '] + (zero + seq![' '] + zero));
        lemma_words_cons(ts, Seq::empty());
        lemma_words_split(d, ' ', ts + seq![' '] + (one + seq![' '] + (zero + seq![' '] + zero)));
        lemma_words_cons(d, Seq::empty());
        let ps = words(t);
        assert(ps =~= seq![d, ts, one, zero, zero]);
        assert(ps[1] == "T"@);
    } else {
        let dv = decimal(n.var_index as nat);
        lemma_decimal_shape(n.var_index as nat);
        let st = signed_decimal(signed_ref(n.then_seq, n.then_comp));
        let se = signed_decimal(signed_ref(n.else_seq, n.else_comp));
        lemma_ref_text(n.then_seq, n.then_comp);
        lemma_ref_text(n.else_seq, n.else_comp);
        let zero = seq!['0'];
        let body = d + seq![' '] + (dv + seq![' '] + (st + seq![' '] + (se + seq![' '] + zero)));
        assert(line =~= body + seq!['\n']);
        assert(body.last() == '0');
        lemma_trim_line(body);
        let t = trimmed(line);
        assert(t == body);
        assert(t[0] == d[0]);
        assert(is_digit(d[0]));
        if t == ".end"@ {
            assert(t[0] == '.');
        }
        assert(no_white(zero));
        lemma_words_cons(zero, Seq::empty());
        lemma_words_split(se, ' ', zero);
        lemma_words_cons(se, Seq::empty());
        lemma_words_split(st, ' ', se + seq![' '] + zero);
        lemma_words_cons(st, Seq::empty());
        lemma_words_split(dv, ' ', st + seq![' '] + (se + seq![' '] + zero));
        lemma_words_cons(dv, Seq::empty());
        lemma_words_split(d, ' ', dv + seq![' '] + (st + seq![' '] + (se + seq![' '] + zero)));
        lemma_words_cons(d, Seq::empty());
        let ps = words(t);
        assert(ps =~= seq![d, dv, st, se, zero]);
        assert(is_digit(dv[0]));
        assert(ps[1] != "T"@) by {
            if ps[1] == "T"@ {
                assert(ps[1][0] == 'T');
            }
        }
        lemma_unsigned_of_decimal(n.var_index as nat, 0xFFFF);
    }
}

/// The `.end` line ends the reading.
proof fn lemma_end_line(v: ReaderState)
    requires
        v.in_nodes,
    ensures
        after_line(v, ".end\n"@, false) == Ok::<ReaderState, LoadError>(ReaderState { done: true, ..v }),
{
    reveal_strlit(".end\n");
    reveal_strlit(".end");
    let body = ".end"@;
    assert(".end\n"@ =~= body + seq!['\n']);
    lemma_trim_line(body);
}

/// The nodes of a text dump as the reader reads them back.
pub open spec fn raws_of(ns: Seq<DumpNode>) -> Seq<RawNode> {
    ns.map_values(|n: DumpNode| raw_of(n))
}

/// Every terminal of `ns` is the constant one.
pub open spec fn terminals_one(ns: Seq<DumpNode>) -> bool {
    forall|i: int| 0 <= i < ns.len() && (#[trigger] ns[i]).var_index == CONST_INDEX ==> ns[i].is_one
}

/// A reference written for a child listed before node `k + 1` resolves
/// to that child.
proof fn lemma_ref_back(seq: u32, comp: bool, k: nat)
    requires
        1 <= seq <= k,
    ensures
        ref_target(signed_ref(seq, comp) as i64, k + 1) == Ok::<(usize, bool), LoadError>(
            (seq as usize, comp),
        ),
{
    lemma_ref_text(seq, comp);
    let s = signed_ref(seq, comp) as i64;
    assert(ref_index(s) == seq as usize);
}

/// The nodes written from place `k` on resolve back to themselves.
proof fn lemma_resolve_back(ns: Seq<DumpNode>, k: nat)
    requires
        well_listed(ns, 0),
        terminals_one(ns),
        k <= ns.len(),
    ensures
        resolved_from(raws_of(ns), k) == Ok::<Seq<DumpNode>, LoadError>(ns.skip(k as int)),
    decreases ns.len() - k,
{
    let raws = raws_of(ns);
    if k == ns.len() {
        assert(ns.skip(k as int) =~= Seq::<DumpNode>::empty());
    } else {
        lemma_resolve_back(ns, k + 1);
        let n = ns[k as int];
        assert(listed_at(n, 0 + k as int));
        assert(raws[k as int] == raw_of(n));
        if n.var_index == CONST_INDEX {
            assert(n.is_one);
        } else {
            lemma_ref_back(n.then_seq, n.then_comp, k);
            lemma_ref_back(n.else_seq, n.else_comp, k);
        }
        assert(resolved_node(raws[k as int], k) == Ok::<DumpNode, LoadError>(n));
        assert(seq![n] + ns.skip(k + 1int) =~= ns.skip(k as int));
    }
}

/// Reading the node lines of `ns` and `.end` adds the nodes and ends the
/// reading.
proof fn lemma_read_node_lines(v: ReaderState, ns: Seq<DumpNode>)
    requires
        v.in_nodes,
        !v.done,
    ensures
        read_lines(v, ns.map_values(|n: DumpNode| node_line(n)) + seq![".end\n"@]) == Ok::<
            ReaderState,
            LoadError,
        >(ReaderState { nodes: v.nodes + raws_of(ns), done: true, ..v }),
    decreases ns.len(),
{
    let ls = ns.map_values(|n: DumpNode| node_line(n)) + seq![".end\n"@];
    if ns.len() == 0 {
        assert(ls =~= seq![".end\n"@]);
        lemma_end_line(v);
        let w = ReaderState { done: true, ..v };
        lemma_read_step(v, w, ls);
        assert(ls.skip(1) =~= Seq::<Seq<char>>::empty());
        assert(v.nodes + raws_of(ns) =~= v.nodes);
    } else {
        let n = ns[0];
        lemma_node_line(v, n);
        let w = ReaderState { nodes: v.nodes.push(raw_of(n)), ..v };
        assert(ls[0] == node_line(n));
        lemma_read_step(v, w, ls);
        let rest = ns.skip(1);
        assert(ls.skip(1) =~= rest.map_values(|n: DumpNode| node_line(n)) + seq![".end\n"@]);
        lemma_read_node_lines(w, rest);
        assert(w.nodes + raws_of(rest) =~= v.nodes + raws_of(ns));
    }
}

/// The state that reading a whole text dump leaves.
pub open spec fn read_back_state(
    ns: Seq<DumpNode>,
    root_comp: bool,
    num_vars: nat,
    perm: Seq<u32>,
) -> ReaderState {
    ReaderState {
        num_nodes: ns.len() as usize,
        num_vars: num_vars as u16,
        root_ids: seq![signed_ref(root_seq(ns), root_comp) as i64],
        perm_ids: if num_vars == 0 {
            Seq::empty()
        } else {
            perm.take(num_vars as int)
        },
        in_nodes: true,
        done: true,
        nodes: raws_of(ns),
    }
}

/// Reading the lines of a text dump, one by one, from the start.
#[verifier::spinoff_prover]
#[verifier::rlimit(80)]
proof fn lemma_read_dump(
    ns: Seq<DumpNode>,
    root_comp: bool,
    nv: nat,
    inv_perm: Seq<u32>,
    perm: Seq<u32>,
    names: Option<Seq<Seq<char>>>,
)
    requires
        nv <= 0xFFFF,
        perm.len() >= nv,
        ns.len() <= usize::MAX,
    ensures
        read_lines(start_state(), dump_lines(ns, root_comp, nv, inv_perm, perm, names)) == Ok::<
            ReaderState,
            LoadError,
        >(read_back_state(ns, root_comp, nv, perm)),
{
    reveal_strlit(".ver DDDMP-2.0\n");
    reveal_strlit(".mode A\n");
    reveal_strlit(".varinfo 0\n");
    reveal_strlit(".nsuppvars ");
    reveal_strlit(".orderedvarnames");
    reveal_strlit(".suppvarnames");
    reveal_strlit(".ids");
    reveal_strlit(".nroots 1\n");
    reveal_strlit(".mode ");
    let hl = header_lines(false, ns, root_comp, nv, inv_perm, perm, names);
    let ls = dump_lines(ns, root_comp, nv, inv_perm, perm, names);
    assert(hl.len() == 13);
    assert(ls.len() == 13 + ns.len() + 1);
    assert forall|i: int| 0 <= i < 13 implies ls[i] == hl[i] by {}
    let s0 = start_state();
    lemma_ignored_line(s0, hl[0], false);
    lemma_read_step(s0, s0, ls);
    lemma_ignored_line(s0, hl[1], false);
    assert(ls.skip(1)[0] == hl[1]);
    lemma_read_step(s0, s0, ls.skip(1));
    assert(ls.skip(1).skip(1) =~= ls.skip(2));
    lemma_ignored_line(s0, hl[2], false);
    assert(ls.skip(2)[0] == hl[2]);
    lemma_read_step(s0, s0, ls.skip(2));
    assert(ls.skip(2).skip(1) =~= ls.skip(3));
    lemma_nnodes_line(s0, ns.len(), false);
    let s1 = ReaderState { num_nodes: ns.len() as usize, ..s0 };
    assert(ls.skip(3)[0] == hl[3]);
    lemma_read_step(s0, s1, ls.skip(3));
    assert(ls.skip(3).skip(1) =~= ls.skip(4));
    lemma_nvars_line(s1, nv, false);
    let s2 = ReaderState { num_vars: nv as u16, ..s1 };
    assert(ls.skip(4)[0] == hl[4]);
    lemma_read_step(s1, s2, ls.skip(4));
    assert(ls.skip(4).skip(1) =~= ls.skip(5));
    lemma_ignored_line(s2, hl[5], false);
    assert(ls.skip(5)[0] == hl[5]);
    lemma_read_step(s2, s2, ls.skip(5));
    assert(ls.skip(5).skip(1) =~= ls.skip(6));
    lemma_ignored_line(s2, hl[6], false);
    assert(ls.skip(6)[0] == hl[6]);
    lemma_read_step(s2, s2, ls.skip(6));
    assert(ls.skip(6).skip(1) =~= ls.skip(7));
    lemma_ignored_line(s2, hl[7], false);
    assert(ls.skip(7)[0] == hl[7]);
    lemma_read_step(s2, s2, ls.skip(7));
    assert(ls.skip(7).skip(1) =~= ls.skip(8));
    lemma_ignored_line(s2, hl[8], false);
    assert(ls.skip(8)[0] == hl[8]);
    lemma_read_step(s2, s2, ls.skip(8));
    assert(ls.skip(8).skip(1) =~= ls.skip(9));
    lemma_permids_line(s2, perm, nv);
    let s3 = if nv == 0 {
        s2
    } else {
        ReaderState { perm_ids: perm.take(nv as int), ..s2 }
    };
    assert(ls.skip(9)[0] == hl[9]);
    lemma_read_step(s2, s3, ls.skip(9));
    assert(ls.skip(9).skip(1) =~= ls.skip(10));
    lemma_ignored_line(s3, hl[10], false);
    assert(ls.skip(10)[0] == hl[10]);
    lemma_read_step(s3, s3, ls.skip(10));
    assert(ls.skip(10).skip(1) =~= ls.skip(11));
    let r = signed_ref(root_seq(ns), root_comp) as i64;
    lemma_ref_text(root_seq(ns), root_comp);
    lemma_rootids_line(s3, r, false);
    let s4 = ReaderState { root_ids: seq![r], ..s3 };
    assert(ls.skip(11)[0] == hl[11]);
    lemma_read_step(s3, s4, ls.skip(11));
    assert(ls.skip(11).skip(1) =~= ls.skip(12));
    lemma_nodes_line(s4, false);
    let s5 = ReaderState { in_nodes: true, ..s4 };
    assert(ls.skip(12)[0] == hl[12]);
    lemma_read_step(s4, s5, ls.skip(12));
    assert(ls.skip(12).skip(1) =~= ls.skip(13));
    assert(ls.skip(13) =~= ns.map_values(|n: DumpNode| node_line(n)) + seq![".end\n"@]);
    lemma_read_node_lines(s5, ns);
    assert(s5.nodes + raws_of(ns) =~= raws_of(ns));
}

/// Every given name is free of newlines.
pub open spec fn names_one_line(names: Option<Seq<Seq<char>>>) -> bool {
    names matches Some(ns) ==> forall|i: int| 0 <= i < ns.len() ==> no_newline(#[trigger] ns[i])
}

/// A variable's name holds no newline when the given names hold none.
proof fn lemma_var_name_no_newline(names: Option<Seq<Seq<char>>>, vi: nat)
    requires
        names_one_line(names),
    ensures
        no_newline(var_name(names, vi)),
{
    reveal_strlit("x");
    lemma_decimal_shape(vi);
    let d = decimal(vi);
    let x = "x"@ + d;
    assert forall|i: int| 0 <= i < x.len() implies #[trigger] x[i] != '\n' by {
        if i > 0 {
            assert(x[i] == d[i - 1]);
        }
    }
    match names {
        Some(ns) => {
            if vi < ns.len() {
                assert(no_newline(ns[vi as int]));
            }
        },
        None => {},
    }
}

/// A line of a literal, then text without newlines, then a newline.
proof fn lemma_one_line(lit: Seq<char>, mid: Seq<char>)
    requires
        no_newline(lit),
        no_newline(mid),
    ensures
        one_line(lit + mid + seq!['\n']),
{
    let l = lit + mid + seq!['\n'];
    assert(l.drop_last() =~= lit + mid);
    assert forall|i: int| 0 <= i < l.drop_last().len() implies #[trigger] l.drop_last()[i] != '\n' by {
        if i < lit.len() {
            assert(l.drop_last()[i] == lit[i]);
        } else {
            assert(l.drop_last()[i] == mid[i - lit.len()]);
        }
    }
}

/// Every line of a text dump is one line.
#[verifier::spinoff_prover]
#[verifier::rlimit(60)]
proof fn lemma_dump_one_lines(
    ns: Seq<DumpNode>,
    root_comp: bool,
    nv: nat,
    inv_perm: Seq<u32>,
    perm: Seq<u32>,
    names: Option<Seq<Seq<char>>>,
)
    requires
        names_one_line(names),
    ensures
        forall|i: int|
            0 <= i < dump_lines(ns, root_comp, nv, inv_perm, perm, names).len() ==> one_line(
                #[trigger] dump_lines(ns, root_comp, nv, inv_perm, perm, names)[i],
            ),
{
    reveal_strlit(".ver DDDMP-2.0\n");
    reveal_strlit(".mode A\n");
    reveal_strlit(".varinfo 0\n");
    reveal_strlit(".nnodes ");
    reveal_strlit(".nvars ");
    reveal_strlit(".nsuppvars ");
    reveal_strlit(".orderedvarnames");
    reveal_strlit(".suppvarnames");
    reveal_strlit(".ids");
    reveal_strlit(".permids");
    reveal_strlit(".nroots 1\n");
    reveal_strlit(".rootids ");
    reveal_strlit(".nodes\n");
    reveal_strlit(".end\n");
    reveal_strlit("\n");
    reveal_strlit(" T 1 0 0\n");
    reveal_strlit(" ");
    reveal_strlit(" 0\n");
    reveal_strlit(".ver DDDMP-2.0");
    reveal_strlit(".mode A");
    reveal_strlit(".varinfo 0");
    reveal_strlit(".nroots 1");
    reveal_strlit(".nodes");
    reveal_strlit(".end");
    let ls = dump_lines(ns, root_comp, nv, inv_perm, perm, names);
    let e = Seq::<char>::empty();
    lemma_decimal_shape(ns.len());
    lemma_decimal_shape(nv);
    let ordered = ordered_names(names, inv_perm, nv);
    let supp = all_names(names, nv);
    let ids = index_numbers(nv);
    let pids = listed_numbers(perm, nv);
    assert forall|i: int| 0 <= i < ordered.len() implies no_newline(#[trigger] ordered[i]) by {
        lemma_var_name_no_newline(names, inv_perm[i] as nat);
    }
    assert forall|i: int| 0 <= i < supp.len() implies no_newline(#[trigger] supp[i]) by {
        lemma_var_name_no_newline(names, i as nat);
    }
    assert forall|i: int| 0 <= i < ids.len() implies no_newline(#[trigger] ids[i]) by {
        lemma_decimal_shape(i as nat);
    }
    assert forall|i: int| 0 <= i < pids.len() implies no_newline(#[trigger] pids[i]) by {
        lemma_decimal_shape(perm[i] as nat);
    }
    lemma_spaced_no_newline(ordered);
    lemma_spaced_no_newline(supp);
    lemma_spaced_no_newline(ids);
    lemma_spaced_no_newline(pids);
    lemma_ref_text(root_seq(ns), root_comp);
    let lines13 = header_lines(false, ns, root_comp, nv, inv_perm, perm, names);
    reveal_strlit(".mode ");
    reveal_strlit("A");
    lemma_one_line(".ver DDDMP-2.0"@, e);
    assert(lines13[0] =~= ".ver DDDMP-2.0"@ + e + seq!['\n']);
    lemma_one_line(".mode A"@, e);
    assert(lines13[1] =~= ".mode A"@ + e + seq!['\n']);
    lemma_one_line(".varinfo 0"@, e);
    assert(lines13[2] =~= ".varinfo 0"@ + e + seq!['\n']);
    lemma_one_line(".nnodes "@, decimal(ns.len()));
    assert(lines13[3] =~= ".nnodes "@ + decimal(ns.len()) + seq!['\n']);
    lemma_one_line(".nvars "@, decimal(nv));
    assert(lines13[4] =~= ".nvars "@ + decimal(nv) + seq!['\n']);
    lemma_one_line(".nsuppvars "@, decimal(nv));
    assert(lines13[5] =~= ".nsuppvars "@ + decimal(nv) + seq!['\n']);
    lemma_one_line(".orderedvarnames"@, spaced(ordered));
    assert(lines13[6] =~= ".orderedvarnames"@ + spaced(ordered) + seq!['\n']);
    lemma_one_line(".suppvarnames"@, spaced(supp));
    assert(lines13[7] =~= ".suppvarnames"@ + spaced(supp) + seq!['\n']);
    lemma_one_line(".ids"@, spaced(ids));
    assert(lines13[8] =~= ".ids"@ + spaced(ids) + seq!['\n']);
    lemma_one_line(".permids"@, spaced(pids));
    assert(lines13[9] =~= ".permids"@ + spaced(pids) + seq!['\n']);
    lemma_one_line(".nroots 1"@, e);
    assert(lines13[10] =~= ".nroots 1"@ + e + seq!['\n']);
    let rd = signed_decimal(signed_ref(root_seq(ns), root_comp));
    lemma_one_line(".rootids "@, rd);
    assert(lines13[11] =~= ".rootids "@ + rd + seq!['\n']);
    lemma_one_line(".nodes"@, e);
    assert(lines13[12] =~= ".nodes"@ + e + seq!['\n']);
    lemma_one_line(".end"@, e);
    assert(ls[ls.len() - 1] =~= ".end"@ + e + seq!['\n']);
    assert forall|i: int| 0 <= i < ls.len() implies one_line(#[trigger] ls[i]) by {
        if i < 13 {
            assert(ls[i] == lines13[i]);
        } else if i < 13 + ns.len() {
            let n = ns[i - 13];
            assert(ls[i] == node_line(n));
            lemma_node_line_one(n);
        }
    }
}

/// A node line is one line.
proof fn lemma_node_line_one(n: DumpNode)
    ensures
        one_line(node_line(n)),
{
    reveal_strlit(" T 1 0 0\n");
    reveal_strlit(" ");
    reveal_strlit(" 0\n");
    let d = decimal(n.seq_id as nat);
    lemma_decimal_shape(n.seq_id as nat);
    if n.var_index == CONST_INDEX {
        let lit_tail = seq![' ', 'T', ' ', '1', ' ', '0', ' ', '0'];
        assert(no_newline(lit_tail));
        assert(node_line(n) =~= Seq::<char>::empty() + (d + lit_tail) + seq!['\n']);
        assert(no_newline(d + lit_tail)) by {
            assert forall|i: int| 0 <= i < (d + lit_tail).len() implies #[trigger] (d + lit_tail)[i]
                != '\n' by {
                if i < d.len() {
                    assert((d + lit_tail)[i] == d[i]);
                } else {
                    assert((d + lit_tail)[i] == lit_tail[i - d.len()]);
                }
            }
        }
        lemma_one_line(Seq::empty(), d + lit_tail);
    } else {
        let dv = decimal(n.var_index as nat);
        lemma_decimal_shape(n.var_index as nat);
        let st = signed_decimal(signed_ref(n.then_seq, n.then_comp));
        let se = signed_decimal(signed_ref(n.else_seq, n.else_comp));
        lemma_ref_text(n.then_seq, n.then_comp);
        lemma_ref_text(n.else_seq, n.else_comp);
        let mid = d + seq![' '] + dv + seq![' '] + st + seq![' '] + se + seq![' ', '0'];
        assert(node_line(n) =~= Seq::<char>::empty() + mid + seq!['\n']);
        assert(no_newline(mid)) by {
            assert forall|i: int| 0 <= i < mid.len() implies #[trigger] mid[i] != '\n' by {
                let a = d.len();
                let b = a + 1 + dv.len();
                let c = b + 1 + st.len();
                let f = c + 1 + se.len();
                if i < a {
                    assert(mid[i] == d[i]);
                } else if i == a {
                } else if i < b {
                    assert(mid[i] == dv[i - a - 1]);
                } else if i == b {
                } else if i < c {
                    assert(mid[i] == st[i - b - 1]);
                } else if i == c {
                } else if i < f {
                    assert(mid[i] == se[i - c - 1]);
                }
            }
        }
        lemma_one_line(Seq::empty(), mid);
    }
}

/// The node lines, one after another.
proof fn lemma_node_lines_flat(ns: Seq<DumpNode>)
    ensures
        ns.map_values(|n: DumpNode| node_line(n)).flatten() == node_lines(ns),
    decreases ns.len(),
{
    if ns.len() == 0 {
        assert(ns.map_values(|n: DumpNode| node_line(n)) =~= Seq::<Seq<char>>::empty());
    } else {
        let d = ns.drop_last();
        lemma_node_lines_flat(d);
        let m = ns.map_values(|n: DumpNode| node_line(n));
        assert(m =~= d.map_values(|n: DumpNode| node_line(n)).push(node_line(ns.last())));
        d.map_values(|n: DumpNode| node_line(n)).lemma_flatten_push(node_line(ns.last()));
    }
}


/// Reading back a text dump. The lines that the text writer gives the
/// nodes of a diagram, listed bottom-up with the constant one as their
/// only terminal, are lines as `read_line` gives them and together the
/// whole dump; read one by one from the start they give back the nodes,
/// the root and the edge to it, the variable count, the node count and
/// the permutation.
pub proof fn lemma_text_round_trip(
    ns: Seq<DumpNode>,
    root_comp: bool,
    num_vars: u16,
    inv_perm: Seq<u32>,
    perm: Seq<u32>,
    names: Option<Seq<Seq<char>>>,
)
    requires
        ns.len() >= 1,
        well_listed(ns, 0),
        terminals_one(ns),
        perm.len() >= num_vars,
        names_one_line(names),
    ensures
        dump_lines(ns, root_comp, num_vars as nat, inv_perm, perm, names).flatten() == header_text(
            false,
            ns,
            root_comp,
            num_vars as nat,
            inv_perm,
            perm,
            names,
        ) + node_lines(ns) + ".end\n"@,
        forall|i: int|
            0 <= i < dump_lines(ns, root_comp, num_vars as nat, inv_perm, perm, names).len()
                ==> one_line(#[trigger] dump_lines(ns, root_comp, num_vars as nat, inv_perm, perm, names)[i]),
        read_lines(start_state(), dump_lines(ns, root_comp, num_vars as nat, inv_perm, perm, names))
            == Ok::<ReaderState, LoadError>(read_back_state(ns, root_comp, num_vars as nat, perm)),
        text_result(read_back_state(ns, root_comp, num_vars as nat, perm)) == Ok::<
            (Seq<DumpNode>, u32, bool),
            LoadError,
        >((ns, root_seq(ns), root_comp)),
{
    let nv = num_vars as nat;
    let hl = header_lines(false, ns, root_comp, nv, inv_perm, perm, names);
    let nm = ns.map_values(|n: DumpNode| node_line(n));
    let end = seq![".end\n"@];
    vstd::seq_lib::lemma_flatten_concat(hl + nm, end);
    vstd::seq_lib::lemma_flatten_concat(hl, nm);
    end.lemma_flatten_singleton();
    lemma_node_lines_flat(ns);
    lemma_dump_one_lines(ns, root_comp, nv, inv_perm, perm, names);
    let last = ns[ns.len() - 1];
    assert(listed_at(last, ns.len() - 1));
    assert(ns.len() <= usize::MAX);
    lemma_read_dump(ns, root_comp, nv, inv_perm, perm, names);
    lemma_resolve_back(ns, 0);
    assert(ns.skip(0) =~= ns);
    assert(root_seq(ns) == last.seq_id);
    lemma_ref_back(root_seq(ns), root_comp, ns.len());
}

} // verus!
