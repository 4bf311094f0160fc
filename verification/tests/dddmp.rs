use lumindd::dddmp::{
    binary_trailer, cnf_clauses, cnf_text, decode_nodes, dump_binary, dump_header, dump_node_lines, dump_text,
    encode_nodes, read_binary, read_binary_header, resolve_ref, DumpNode, DumpReader, LoadError,
    RawNode, CONST_INDEX,
};
use lumindd::scan::NumberError;
use lumindd::varint::{read_varint, write_varint, VarintError};
use lumindd::manager::Manager;
use lumindd::NodeId;

fn one() -> DumpNode {
    DumpNode {
        seq_id: 1,
        var_index: CONST_INDEX,
        then_seq: 0,
        else_seq: 0,
        then_comp: false,
        else_comp: false,
        is_one: true,
    }
}

fn internal(seq_id: u32, var: u16, t: u32, tc: bool, e: u32, ec: bool) -> DumpNode {
    DumpNode {
        seq_id,
        var_index: var,
        then_seq: t,
        else_seq: e,
        then_comp: tc,
        else_comp: ec,
        is_one: false,
    }
}

/// The nodes of x0 AND x1 in bottom-up order.
fn and_nodes() -> Vec<DumpNode> {
    vec![one(), internal(2, 1, 1, false, 1, true), internal(3, 0, 2, false, 1, true)]
}

/// The nodes of x0 XOR x1 (complemented else-edges, then-edge complemented at the root).
fn xor_nodes() -> Vec<DumpNode> {
    vec![one(), internal(2, 1, 1, false, 1, true), internal(3, 0, 2, true, 2, false)]
}

fn read_text(text: &str) -> Result<(Vec<DumpNode>, u32, bool, DumpReader), LoadError> {
    let mut reader = DumpReader::new();
    for line in text.split_inclusive('\n') {
        reader.read_line(line, false)?;
        if reader.done {
            break;
        }
    }
    let (nodes, root, comp) = reader.finish()?;
    Ok((nodes, root, comp, reader))
}

fn binary_dump(nodes: &[DumpNode], root_comp: bool, num_vars: u16) -> Vec<u8> {
    let ids: Vec<u32> = (0..num_vars as u32).collect();
    dump_binary(nodes, root_comp, num_vars, &ids, &ids)
}

#[test]
fn dump_binary_is_header_nodes_trailer() {
    let nodes = xor_nodes();
    let ids = [1u32, 0];
    let mut expected = dump_header(true, &nodes, true, 2, &ids, &ids, None).into_bytes();
    expected.extend(encode_nodes(&nodes));
    expected.extend(binary_trailer().into_bytes());
    assert_eq!(dump_binary(&nodes, true, 2, &ids, &ids), expected);
    let loaded = read_binary(&expected).unwrap();
    assert_eq!(loaded.num_vars, 2);
    assert_eq!(loaded.nodes, nodes);
    assert_eq!((loaded.root, loaded.root_comp), (3, true));
}

#[test]
fn varint_round_trip() {
    for &val in &[0u32, 1, 127, 128, 255, 16384, 0x0FFF_FFFF, u32::MAX] {
        let mut buf = Vec::new();
        write_varint(&mut buf, val);
        let (decoded, len) = read_varint(&buf).unwrap();
        assert_eq!(decoded, val);
        assert_eq!(len, buf.len());
    }
}

#[test]
fn varint_bytes_and_errors() {
    let mut buf = Vec::new();
    write_varint(&mut buf, 300);
    assert_eq!(buf, vec![0xAC, 0x02]);
    let mut buf = Vec::new();
    write_varint(&mut buf, u32::MAX);
    assert_eq!(buf, vec![0xFF, 0xFF, 0xFF, 0xFF, 0x0F]);
    assert_eq!(read_varint(&[]), Err(VarintError::Unterminated));
    assert_eq!(read_varint(&[0x80, 0x80]), Err(VarintError::Unterminated));
    assert_eq!(read_varint(&[0x80; 5]), Err(VarintError::Unterminated));
    assert_eq!(read_varint(&[0x80, 0x80, 0x80, 0x80, 0x80, 0x00]), Err(VarintError::TooLong));
    // a fifth byte's high bits fall off the 32-bit value
    assert_eq!(read_varint(&[0xFF, 0xFF, 0xFF, 0xFF, 0x7F]), Ok((u32::MAX, 5)));
    assert_eq!(read_varint(&[0x05, 0x99]), Ok((5, 1)));
}

#[test]
fn cnf_of_constants() {
    let cnf = cnf_text(NodeId::one(), &[], false, 0);
    assert!(cnf.contains("p cnf 0 0"));
    let cnf = cnf_text(NodeId::zero(), &[], false, 0);
    assert!(cnf.contains("p cnf 0 1"));
    assert_eq!(cnf, "p cnf 0 1\n0\n");
}

#[test]
fn cnf_of_and_nodes() {
    let nodes = and_nodes();
    let f = NodeId::from_raw(7, false);
    let cnf = cnf_text(f, &nodes, false, 2);
    assert!(cnf.starts_with("p cnf"));
    for line in cnf.lines().skip(1) {
        assert!(line.ends_with(" 0") || line.ends_with("0"));
    }
    assert_eq!(
        cnf,
        "p cnf 5 10\n3 0\n-4 -2 3 0\n-4 2 -3 0\n4 -2 -3 0\n4 2 3 0\n-5 -1 4 0\n-5 1 -3 0\n5 -1 -4 0\n5 1 3 0\n5 0\n"
    );
    let clauses = cnf_clauses(&nodes, true, 2);
    assert_eq!(clauses.len(), 10);
    assert_eq!(clauses[9], vec![-5]);
}

#[test]
fn text_dump_of_and_nodes_reads_back() {
    let nodes = and_nodes();
    let text = dump_text(&nodes, false, 2, &[0, 1], &[0, 1], Some(&["a", "b"]));
    assert!(text.contains(".ver DDDMP-2.0"));
    assert!(text.contains(".mode A"));
    let (loaded, root, comp, reader) = read_text(&text).unwrap();
    assert_eq!(loaded, nodes);
    assert_eq!((root, comp), (3, false));
    assert_eq!(reader.num_vars, 2);
    assert_eq!(reader.num_nodes, 3);
    assert_eq!(reader.perm_ids, vec![0, 1]);
}

#[test]
fn text_dump_of_not_nodes_reads_back() {
    // NOT x0: the node of x0 reached through a complemented root edge
    let nodes = vec![one(), internal(2, 0, 1, false, 1, true)];
    let text = dump_text(&nodes, true, 1, &[0], &[0], None);
    assert!(text.contains(".rootids -2\n"));
    let (loaded, root, comp, _) = read_text(&text).unwrap();
    assert_eq!(loaded, nodes);
    assert_eq!((root, comp), (2, true));
}

#[test]
fn text_dump_of_xor_nodes_reads_back() {
    let nodes = xor_nodes();
    let text = dump_text(&nodes, false, 2, &[0, 1], &[0, 1], None);
    let (loaded, root, comp, _) = read_text(&text).unwrap();
    assert_eq!(loaded, nodes);
    assert_eq!((root, comp), (3, false));
}

#[test]
fn binary_dump_of_or_nodes_reads_back() {
    // x0 OR x1 = NOT(NOT x0 AND NOT x1)
    let nodes = vec![one(), internal(2, 1, 1, false, 1, true), internal(3, 0, 1, false, 2, false)];
    let data = binary_dump(&nodes, false, 2);
    let loaded = read_binary(&data).unwrap();
    assert_eq!(loaded.nodes, nodes);
    assert_eq!((loaded.root, loaded.root_comp, loaded.num_vars), (3, false, 2));
}

#[test]
fn binary_dump_of_constants_reads_back() {
    let data = binary_dump(&[one()], false, 0);
    let loaded = read_binary(&data).unwrap();
    assert_eq!((loaded.root, loaded.root_comp), (1, false));
    let data = binary_dump(&[one()], true, 0);
    let loaded = read_binary(&data).unwrap();
    assert_eq!((loaded.root, loaded.root_comp), (1, true));
}

#[test]
fn text_dump_layout() {
    let nodes = and_nodes();
    let text = dump_text(&nodes, false, 2, &[1, 0], &[1, 0], Some(&["a", ""]));
    assert_eq!(
        text,
        ".ver DDDMP-2.0\n.mode A\n.varinfo 0\n.nnodes 3\n.nvars 2\n.nsuppvars 2\n\
.orderedvarnames x1 a\n.suppvarnames a x1\n.ids 0 1\n.permids 1 0\n.nroots 1\n.rootids 3\n\
.nodes\n1 T 1 0 0\n2 1 1 -1 0\n3 0 2 -1 0\n.end\n"
    );
    assert_eq!(dump_node_lines(&[]), "");
    let header = dump_header(true, &nodes, true, 2, &[0, 1], &[0, 1], Some(&["a", "b"]));
    assert_eq!(
        header,
        ".ver DDDMP-2.0\n.mode B\n.varinfo 0\n.nnodes 3\n.nvars 2\n.nsuppvars 2\n\
.orderedvarnames x0 x1\n.ids 0 1\n.permids 0 1\n.nroots 1\n.rootids -3\n.nodes\n"
    );
}

#[test]
fn binary_node_encoding() {
    let nodes = and_nodes();
    let bytes = encode_nodes(&nodes);
    assert_eq!(bytes, vec![0x00, 0x03, 1, 2, 1, 0x03, 0, 4, 1]);
    let (decoded, end) = decode_nodes(&bytes, 0, 3).unwrap();
    assert_eq!(decoded, nodes);
    assert_eq!(end, bytes.len());
    // a child must come before the node
    assert_eq!(decode_nodes(&[0x02, 0, 2, 1], 0, 1), Err(LoadError::BadChild));
    assert_eq!(decode_nodes(&[0x07], 0, 1), Err(LoadError::UnknownTag(7)));
    assert_eq!(decode_nodes(&[0x00], 0, 2), Err(LoadError::UnexpectedEnd));
    assert_eq!(decode_nodes(&[0x00, 0x02, 0x80], 0, 2), Err(LoadError::BadVarint(VarintError::Unterminated)));
}

#[test]
fn reader_errors() {
    let mut r = DumpReader::new();
    assert_eq!(r.read_line(".nvars x\n", false), Err(LoadError::BadNVars(NumberError::InvalidDigit)));
    assert_eq!(r.read_line(".nvars 70000\n", false), Err(LoadError::BadNVars(NumberError::TooLarge)));
    assert_eq!(r.read_line(".rootids 3 q\n", false), Err(LoadError::BadRootId(NumberError::InvalidDigit)));
    assert_eq!(r.read_line(".permids -1\n", false), Err(LoadError::BadPermId(NumberError::InvalidDigit)));
    assert_eq!(r.read_line(".permids -1\n", true), Ok(()));
    assert_eq!(r.read_line("  # comment\n", false), Ok(()));
    assert_eq!(r.read_line(".nodes\n", false), Ok(()));
    assert!(r.in_nodes);
    let e = r.read_line("  1 2 3 \n", false).unwrap_err();
    assert_eq!(e, LoadError::MalformedNode);
    assert_eq!(e.message("  1 2 3 \n"), "malformed node line: 1 2 3");
    assert_eq!(r.read_line("1 x 1 1\n", false), Err(LoadError::BadVarIndex(NumberError::InvalidDigit)));
    assert_eq!(r.read_line("1 0 y 1\n", false), Err(LoadError::BadThenId(NumberError::InvalidDigit)));
    assert_eq!(r.read_line("1 0 1 z\n", false), Err(LoadError::BadElseId(NumberError::InvalidDigit)));
    assert_eq!(r.read_line("1 T\t1 0 0\n", false), Ok(()));
    assert_eq!(r.read_line("2 0 1 -9 0\n", false), Ok(()));
    assert_eq!(r.nodes, vec![RawNode::Terminal, RawNode::Internal { var_index: 0, then_id: 1, else_id: -9 }]);
    assert_eq!(r.finish(), Err(LoadError::BadReference(-9)));
    assert_eq!(LoadError::BadReference(-9).message(""), "invalid node reference: -9");
    assert_eq!(LoadError::UnknownTag(0xab).message(""), "unknown binary node tag: 0xab");
    assert_eq!(LoadError::BadNVars(NumberError::TooLarge).message(""), "bad nvars: number too large to fit in target type");
    assert_eq!(r.read_line(".end\n", false), Ok(()));
    assert!(r.done);
}

#[test]
fn missing_root_and_references() {
    let text = ".nodes\n1 T 1 0 0\n.end\n";
    assert_eq!(read_text(text).unwrap_err(), LoadError::NoRoot);
    let text = ".rootids 5\n.nodes\n1 T 1 0 0\n.end\n";
    assert_eq!(read_text(text).unwrap_err(), LoadError::BadReference(5));
    assert_eq!(resolve_ref(-2, 3), Ok((2, true)));
    assert_eq!(resolve_ref(0, 3), Err(LoadError::BadReference(0)));
    assert_eq!(resolve_ref(3, 3), Err(LoadError::BadReference(3)));
    assert_eq!(resolve_ref(i64::MIN, 3), Err(LoadError::BadReference(i64::MIN)));
}

#[test]
fn binary_header_errors() {
    assert_eq!(read_binary_header(b".nnodes 2\n").err(), Some(LoadError::MissingNodes));
    match read_binary_header(b".nvars 1\n\xff\n.nodes\n") {
        Err(LoadError::InvalidUtf8(_)) => {}
        other => panic!("expected an invalid UTF-8 error, got {:?}", other.err()),
    }
    let (reader, pos) = read_binary_header(b".nnodes 1\n.rootids -1\n.nodes\n\x00").unwrap();
    assert_eq!((reader.num_nodes, reader.root_ids.clone(), pos), (1, vec![-1], 29));
    assert_eq!(read_binary(b".nnodes 1\n.nodes\n\x00").err(), Some(LoadError::NoRoot));
    assert_eq!(read_binary(b".nnodes 1\n.rootids 2\n.nodes\n\x00").err(), Some(LoadError::RootOutOfRange));
    assert_eq!(read_binary(b".nnodes 2\n.rootids 2\n.nodes\n\x00").err(), Some(LoadError::UnexpectedEnd));
    let l = read_binary(b".nnodes 1\n.rootids -1\n.nodes").unwrap_err();
    assert_eq!(l, LoadError::UnexpectedEnd);
}

/// Load a text dump into `mgr`.
fn load_text_into(mgr: &mut Manager, text: &str) -> NodeId {
    let (nodes, root, comp, reader) = read_text(text).unwrap();
    mgr.load_dump(reader.num_vars, &nodes, root, comp).unwrap()
}

#[test]
fn round_trip_text_simple_and() {
    let mut mgr = Manager::new();
    let x = mgr.bdd_new_var().unwrap();
    let y = mgr.bdd_new_var().unwrap();
    let f = mgr.bdd_and(x, y).unwrap();

    // Save
    let text = mgr.dddmp_save_text(f, Some(&["a", "b"]));
    assert!(text.contains(".ver DDDMP-2.0"));
    assert!(text.contains(".mode A"));

    // Load into a fresh manager
    let mut mgr2 = Manager::new();
    let f2 = load_text_into(&mut mgr2, &text);

    // Verify the loaded BDD behaves like AND
    let x2 = mgr2.bdd_ith_var(0).unwrap();
    let y2 = mgr2.bdd_ith_var(1).unwrap();
    let and2 = mgr2.bdd_and(x2, y2).unwrap();
    assert_eq!(f2, and2);
}

#[test]
fn round_trip_text_not() {
    let mut mgr = Manager::new();
    let x = mgr.bdd_new_var().unwrap();
    let f = mgr.bdd_not(x);

    let text = mgr.dddmp_save_text(f, None);

    let mut mgr2 = Manager::new();
    let f2 = load_text_into(&mut mgr2, &text);

    let x2 = mgr2.bdd_ith_var(0).unwrap();
    let not_x2 = mgr2.bdd_not(x2);
    assert_eq!(f2, not_x2);
}

#[test]
fn round_trip_binary_or() {
    let mut mgr = Manager::new();
    let x = mgr.bdd_new_var().unwrap();
    let y = mgr.bdd_new_var().unwrap();
    let f = mgr.bdd_or(x, y).unwrap();

    let buf = mgr.dddmp_save_binary(f);

    let mut mgr2 = Manager::new();
    let loaded = read_binary(&buf).unwrap();
    let f2 = mgr2.load_dump(loaded.num_vars, &loaded.nodes, loaded.root, loaded.root_comp).unwrap();

    let x2 = mgr2.bdd_ith_var(0).unwrap();
    let y2 = mgr2.bdd_ith_var(1).unwrap();
    let or2 = mgr2.bdd_or(x2, y2).unwrap();
    assert_eq!(f2, or2);
}

#[test]
fn round_trip_binary_constants() {
    let mgr = Manager::new();

    // Save and load ONE
    let buf = mgr.dddmp_save_binary(NodeId::one());
    let mut mgr2 = Manager::new();
    let loaded = read_binary(&buf).unwrap();
    let one = mgr2.load_dump(loaded.num_vars, &loaded.nodes, loaded.root, loaded.root_comp).unwrap();
    assert!(one.is_one());

    // Save and load ZERO
    let buf = mgr.dddmp_save_binary(NodeId::zero());
    let mut mgr3 = Manager::new();
    let loaded = read_binary(&buf).unwrap();
    let zero = mgr3.load_dump(loaded.num_vars, &loaded.nodes, loaded.root, loaded.root_comp).unwrap();
    assert!(zero.is_zero());
}

#[test]
fn cnf_export_simple() {
    let mut mgr = Manager::new();
    let x = mgr.bdd_new_var().unwrap();
    let y = mgr.bdd_new_var().unwrap();
    let f = mgr.bdd_and(x, y).unwrap();

    let cnf = mgr.dddmp_save_cnf(f).unwrap();
    assert!(cnf.starts_with("p cnf"));
    // Every non-header line should end with " 0"
    for line in cnf.lines().skip(1) {
        assert!(line.ends_with(" 0") || line.ends_with("0"));
    }
}

#[test]
fn cnf_export_trivial() {
    let mgr = Manager::new();

    let cnf = mgr.dddmp_save_cnf(NodeId::one()).unwrap();
    assert!(cnf.contains("p cnf 0 0"));

    let cnf = mgr.dddmp_save_cnf(NodeId::zero()).unwrap();
    assert!(cnf.contains("p cnf 0 1"));
}

#[test]
fn round_trip_text_xor() {
    let mut mgr = Manager::new();
    let x = mgr.bdd_new_var().unwrap();
    let y = mgr.bdd_new_var().unwrap();
    let f = mgr.bdd_xor(x, y).unwrap();

    let text = mgr.dddmp_save_text(f, None);

    let mut mgr2 = Manager::new();
    let f2 = load_text_into(&mut mgr2, &text);

    let x2 = mgr2.bdd_ith_var(0).unwrap();
    let y2 = mgr2.bdd_ith_var(1).unwrap();
    let xor2 = mgr2.bdd_xor(x2, y2).unwrap();
    assert_eq!(f2, xor2);
}

#[test]
fn load_dump_rejects_bad_dumps() {
    let mut mgr = Manager::new();
    let bad_child = vec![one(), internal(2, 0, 3, false, 1, true)];
    assert_eq!(mgr.load_dump(1, &bad_child, 2, false), Err(LoadError::BadChild));
    let nodes = vec![one(), internal(2, 5, 1, false, 1, true)];
    assert_eq!(mgr.load_dump(1, &nodes, 2, false), Err(LoadError::VarOutOfRange));
    let nodes = and_nodes();
    assert_eq!(mgr.load_dump(2, &nodes, 4, false), Err(LoadError::RootOutOfRange));
    // x1 on top of a node on x1 is not ordered
    let unordered = vec![one(), internal(2, 1, 1, false, 1, true), internal(3, 1, 2, false, 1, true)];
    assert_eq!(mgr.load_dump(2, &unordered, 3, false), Err(LoadError::Unordered));
    assert_eq!(LoadError::Unordered.message(""), "node variable not above its children in the order");
}
