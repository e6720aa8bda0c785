use bsexp::serialization::{decode_exprs, encode_exprs, BSEFile};
use bsexp::{BSExp, DecodeError};

fn atom(s: &str) -> BSExp {
    BSExp::atom(s.as_bytes().to_vec())
}

#[test]
fn example_a_round_trips() {
    let input = vec![atom("a"), BSExp::list(vec![atom("b"), atom("c")])];
    let bytes = encode_exprs(&input);
    let output = decode_exprs(&bytes).unwrap();
    assert_eq!(output, vec![atom("a"), BSExp::list(vec![atom("b"), atom("c")])]);
}

#[test]
fn example_a_exact_bytes() {
    // atoms: "a", "b", "c"; roots: atom 0, node 0; node 0 = [atom 1, atom 2].
    let input = vec![atom("a"), BSExp::list(vec![atom("b"), atom("c")])];
    let bytes = encode_exprs(&input);
    assert_eq!(
        bytes,
        vec![3, 6, 1, b'a', 1, b'b', 1, b'c', 2, 0, 1, 1, 3, 2, 2, 4]
    );
}

#[test]
fn example_b_atom_table_dedups() {
    let input = vec![BSExp::list(vec![atom("shared"), atom("shared")])];
    let bytes = encode_exprs(&input);
    // The first container field is the atom count: one entry only.
    assert_eq!(bytes[0], 1);
    let output = decode_exprs(&bytes).unwrap();
    assert_eq!(output, vec![BSExp::list(vec![atom("shared"), atom("shared")])]);
}

#[test]
fn distinct_atoms_are_not_merged() {
    let input = vec![atom("x"), atom("y")];
    let bytes = encode_exprs(&input);
    assert_eq!(bytes[0], 2);
}

#[test]
fn identical_sublists_share_one_node() {
    let sub = || BSExp::list(vec![atom("a"), atom("b")]);
    let input = vec![sub(), sub()];
    let bytes = encode_exprs(&input);
    // Layout: atomCount 2, atomBufLen 4, "a" and "b" entries, rootCount 2,
    // two roots (both node 0), nodeCount, nodeBufLen, node entry.
    assert_eq!(
        bytes,
        vec![2, 4, 1, b'a', 1, b'b', 2, 1, 1, 1, 3, 2, 0, 2]
    );
    let output = decode_exprs(&bytes).unwrap();
    assert_eq!(output, input);
}

#[test]
fn encode_is_deterministic() {
    let make = || {
        vec![
            atom("a"),
            BSExp::list(vec![atom("b"), BSExp::list(vec![atom("c"), atom("b")])]),
        ]
    };
    assert_eq!(encode_exprs(&make()), encode_exprs(&make()));
}

#[test]
fn empty_input_round_trips() {
    let input: Vec<BSExp> = vec![];
    let bytes = encode_exprs(&input);
    assert_eq!(bytes, vec![0, 0, 0, 0, 0]);
    let output = decode_exprs(&bytes).unwrap();
    assert_eq!(output, Vec::<BSExp>::new());
}

#[test]
fn empty_list_and_nesting_round_trip() {
    let input = vec![
        BSExp::list(vec![]),
        BSExp::list(vec![BSExp::list(vec![atom("")])]),
        atom(""),
    ];
    let bytes = encode_exprs(&input);
    let output = decode_exprs(&bytes).unwrap();
    assert_eq!(output, input);
}

#[test]
fn every_strict_prefix_is_truncated() {
    let input = vec![
        atom("a"),
        BSExp::list(vec![atom("b"), atom("c"), BSExp::list(vec![atom("a")])]),
    ];
    let bytes = encode_exprs(&input);
    for cut in 0..bytes.len() {
        assert_eq!(
            decode_exprs(&bytes[0..cut]),
            Err(DecodeError::TruncatedInput),
            "prefix of length {cut}"
        );
    }
}

#[test]
fn node_referencing_itself_is_rejected() {
    // No atoms; one root pointing at node 0; node 0 has one child:
    // node 0 again, which violates the lower-index rule.
    let bytes: Vec<u8> = vec![0, 0, 1, 1, 1, 2, 1, 1];
    assert_eq!(decode_exprs(&bytes), Err(DecodeError::InvalidReference));
}

#[test]
fn node_referencing_higher_index_is_rejected() {
    // Two nodes; node 0 references node 1, which is a forward reference.
    let bytes: Vec<u8> = vec![0, 0, 1, 1, 2, 3, 1, 3, 0];
    assert_eq!(decode_exprs(&bytes), Err(DecodeError::InvalidReference));
}

#[test]
fn root_out_of_range_is_rejected() {
    // One root naming atom 0, but the atom table is empty.
    let bytes: Vec<u8> = vec![0, 0, 1, 0, 0, 0];
    assert_eq!(decode_exprs(&bytes), Err(DecodeError::InvalidReference));
}

#[test]
fn empty_buffer_is_truncated() {
    assert_eq!(decode_exprs(&[]), Err(DecodeError::TruncatedInput));
}

#[test]
fn bsefile_trait_round_trips() {
    let input = vec![BSExp::list(vec![atom("k"), atom("v")])];
    let bytes = input.to_bsefile();
    let output = <Vec<BSExp> as BSEFile>::from_bsefile(&bytes).unwrap();
    assert_eq!(output, input);
}

#[test]
fn shared_subtree_expands_everywhere() {
    // The same sub-list referenced from two places comes back as two
    // equal values.
    let sub = BSExp::list(vec![atom("deep"), BSExp::list(vec![atom("er")])]);
    let sub2 = BSExp::list(vec![atom("deep"), BSExp::list(vec![atom("er")])]);
    let input = vec![BSExp::list(vec![sub, sub2.clone()]), sub2];
    let bytes = encode_exprs(&input);
    let output = decode_exprs(&bytes).unwrap();
    assert_eq!(output, input);
}
