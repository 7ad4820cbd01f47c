use bip110_packer::addresses::Network;
use bip110_packer::bip110::{check, is_control_block, is_op_success, validate, Violation};
use bip110_packer::taproot_spend::{
    build_signed_spend, build_spend, build_tx, commit_address, dummy_prevout,
};
use bip110_packer::tapscript::Auth;
use bip110_packer::tx::{Transaction, TxIn, TxOut, RBF_SEQUENCE};

fn bytes_up_to(n: u32) -> Vec<u8> {
    (0..n).map(|i| i as u8).collect()
}

fn spend(witness: Vec<Vec<u8>>, spk: Vec<u8>) -> Transaction {
    Transaction {
        version: 2,
        lock_time: 0,
        input: vec![TxIn {
            previous_output: dummy_prevout(0),
            script_sig: Vec::new(),
            sequence: RBF_SEQUENCE,
            witness,
        }],
        output: vec![TxOut { value: 0, script_pubkey: spk }],
    }
}

fn pay(spk: Vec<u8>) -> Transaction {
    Transaction {
        version: 2,
        lock_time: 0,
        input: vec![],
        output: vec![TxOut { value: 0, script_pubkey: spk }],
    }
}

fn found(rule: &'static str, detail: &str) -> Violation {
    Violation { rule, detail: detail.to_string() }
}

#[test]
fn generated_tx_passes_validation() {
    let data = bytes_up_to(20_000);
    let tx = build_tx(&data, dummy_prevout(0)).unwrap();
    assert_eq!(validate(&tx), Ok(()), "generated tx must be compliant");
}

#[test]
fn oversized_push_is_rejected() {
    let big = bitcoin::script::PushBytesBuf::try_from(vec![0xEEu8; 300]).unwrap();
    let bad_script = bitcoin::script::Builder::new()
        .push_slice(&big)
        .push_opcode(bitcoin::opcodes::all::OP_DROP)
        .push_opcode(bitcoin::opcodes::all::OP_PUSHNUM_1)
        .into_script();
    let bundle = build_spend(b"x").unwrap();
    let tx = spend(vec![bad_script.to_bytes(), bundle.control_block], bundle.spk);
    let res = validate(&tx);
    assert!(res.is_err(), "300-byte push must be rejected");
    assert!(
        res.unwrap_err().iter().any(|v| v.rule == "C3"),
        "expected a C3 (per-push cap) violation"
    );
}

#[test]
fn oversized_output_spk_is_rejected() {
    let tx = pay(vec![0x00u8; 40]);
    let err = validate(&tx).unwrap_err();
    assert!(err.iter().any(|v| v.rule == "C1"));
}

#[test]
fn checksig_signed_spend_has_3_item_witness_and_passes() {
    let data = bytes_up_to(2_000);
    let to = commit_address(b"dest", Auth::Anyone, Network::Regtest).unwrap().script_pubkey;
    let tx = build_signed_spend(
        &data,
        Auth::Checksig,
        dummy_prevout(0),
        100_000,
        &to,
        1_000,
        Network::Regtest,
    )
    .unwrap();
    let items = &tx.input[0].witness;
    assert_eq!(items.len(), 3, "checksig witness must be [sig, script, cb]");
    assert_eq!(items[0].len(), 64, "first item is a 64-byte Schnorr sig");
    assert_eq!(items[2].len(), 33, "single-leaf control block is 33 bytes");
    assert_eq!(items[2][0] & 0xfe, 0xc0);
    assert_eq!(tx.output[0].value, 99_000);
    assert_eq!(validate(&tx), Ok(()), "checksig spend must be compliant");
}

#[test]
fn none_signed_spend_has_2_item_witness_and_passes() {
    let data = bytes_up_to(1_500);
    let to = commit_address(b"dest2", Auth::Anyone, Network::Regtest).unwrap().script_pubkey;
    let tx = build_signed_spend(
        &data,
        Auth::Anyone,
        dummy_prevout(1),
        50_000,
        &to,
        500,
        Network::Regtest,
    )
    .unwrap();
    let items = &tx.input[0].witness;
    assert_eq!(items.len(), 2, "none witness must be [script, cb]");
    assert_eq!(items[1].len(), 33);
    assert_eq!(tx.output[0].value, 49_500);
    assert_eq!(validate(&tx), Ok(()), "none spend must be compliant");
}

#[test]
fn annex_is_rejected() {
    let bundle = build_spend(b"data").unwrap();
    let tx = spend(
        vec![bundle.script, bundle.control_block, vec![0x50, 0x01, 0x02]],
        bundle.spk,
    );
    let err = validate(&tx).unwrap_err();
    assert!(err.iter().any(|v| v.rule == "C5"), "annex must be rejected");
}

#[test]
fn op_success_set_is_the_one_of_bip342() {
    let set: Vec<u8> = (0..=255u8).filter(|b| is_op_success(*b)).collect();
    let mut expected: Vec<u8> = vec![80, 98];
    expected.extend(126..=129u8);
    expected.extend(131..=134u8);
    expected.extend(137..=138u8);
    expected.extend(141..=142u8);
    expected.extend(149..=153u8);
    expected.extend(187..=254u8);
    assert_eq!(set, expected);
}

#[test]
fn control_block_shape_is_version_key_and_whole_siblings() {
    let mut item = vec![0u8; 33];
    item[0] = 0xc0;
    assert!(is_control_block(&item));
    item[0] = 0xc1;
    assert!(is_control_block(&item));
    item[0] = 0xc2;
    assert!(!is_control_block(&item));
    item[0] = 0xc0;
    assert!(!is_control_block(&item[..32]));
    item.push(0);
    assert!(!is_control_block(&item));
    item.extend_from_slice(&[0u8; 31]);
    assert!(is_control_block(&item));
    assert!(!is_control_block(&[]));
}

#[test]
fn output_caps_are_exact() {
    assert_eq!(validate(&pay(vec![0x00; 34])), Ok(()));
    assert_eq!(
        validate(&pay(vec![0x00; 35])),
        Err(vec![found("C1", "output 0: scriptPubKey 35 bytes > 34")])
    );
    assert_eq!(validate(&pay(vec![0x6a; 83])), Ok(()));
    assert_eq!(
        validate(&pay(vec![0x6a; 84])),
        Err(vec![found("C2", "output 0: OP_RETURN scriptPubKey 84 bytes > 83")])
    );
    assert_eq!(validate(&pay(vec![])), Ok(()));
}

#[test]
fn witness_items_have_a_cap_outside_script_path_spends() {
    let ok = spend(vec![vec![7; 256], vec![8; 256]], vec![0x51]);
    assert_eq!(validate(&ok), Ok(()));
    let bad = spend(vec![vec![7; 257], vec![8; 256], vec![9; 1000]], vec![0x51]);
    assert_eq!(
        check(&bad),
        vec![
            found("C4", "input 0: non-exempt witness item 257 bytes > 256"),
            found("C4", "input 0: non-exempt witness item 1000 bytes > 256"),
        ]
    );
    assert_eq!(check(&spend(vec![], vec![0x51])), vec![]);
}

#[test]
fn script_path_spends_exempt_the_leaf_and_nothing_else() {
    let bundle = build_spend(&bytes_up_to(5_000)).unwrap();
    let tx = spend(vec![vec![1; 257], bundle.script, bundle.control_block], bundle.spk);
    assert_eq!(
        check(&tx),
        vec![found("C4", "input 0: non-exempt witness item 257 bytes > 256")]
    );
}

#[test]
fn tapscript_findings_come_in_order() {
    let mut block = vec![0u8; 33];
    block[0] = 0xc1;
    // OP_IF, OP_NOTIF, a push whose bytes look like OP_IF, OP_RESERVED, a push that is cut short.
    let script = vec![0x63, 0x64, 0x02, 0x63, 0x50, 0x50, 0x4c, 0x09, 0x01];
    let tx = spend(vec![script, block], vec![0x51]);
    assert_eq!(
        check(&tx),
        vec![
            found("C8", "tapscript contains OP_IF/OP_NOTIF (0x63)"),
            found("C8", "tapscript contains OP_IF/OP_NOTIF (0x64)"),
            found("C7", "tapscript contains OP_SUCCESS opcode 0x50"),
            found("C7", "malformed tapscript: unexpected end of script"),
        ]
    );
}

#[test]
fn malformed_text_is_the_outside_parsers_own() {
    let script = bitcoin::ScriptBuf::from(vec![0x4c, 0x09, 0x01]);
    let e = script.instructions().next().unwrap().unwrap_err();
    assert_eq!(format!("malformed tapscript: {e}"), "malformed tapscript: unexpected end of script");
}

#[test]
fn control_block_over_the_cap_and_annex_have_texts() {
    let mut block = vec![0u8; 289];
    block[0] = 0xc0;
    let tx = spend(vec![vec![0x51], block], vec![0x51]);
    assert_eq!(
        check(&tx),
        vec![found("C6", "input 0: control block 289 bytes > 257")]
    );
    let tx = spend(vec![vec![0x51], vec![0x50]], vec![0x51]);
    assert_eq!(
        check(&tx),
        vec![found("C5", "input 0: witness carries an annex (0x50)")]
    );
    let one = spend(vec![vec![0x50]], vec![0x51]);
    assert_eq!(validate(&one), Ok(()), "a single item is no annex");
}

#[test]
fn big_push_has_a_text_and_violations_print() {
    let mut block = vec![0u8; 33];
    block[0] = 0xc0;
    let mut script = vec![0x4d, 0x01, 0x01];
    script.extend_from_slice(&[9u8; 257]);
    let tx = spend(vec![script, block], vec![0x51]);
    let found_here = check(&tx);
    assert_eq!(found_here, vec![found("C3", "tapscript push payload 257 bytes > 256")]);
    assert_eq!(found_here[0].to_text(), "[C3] tapscript push payload 257 bytes > 256");
}

#[test]
fn findings_name_their_output_and_input() {
    let mut tx = spend(vec![vec![7; 257]], vec![0x51]);
    tx.input.push(tx.input[0].clone());
    let mut k = 0;
    while k < 10 {
        tx.output.push(TxOut { value: 1, script_pubkey: vec![0x00; 10] });
        k += 1;
    }
    tx.output.push(TxOut { value: 1, script_pubkey: vec![0x00; 100] });
    assert_eq!(
        check(&tx),
        vec![
            found("C1", "output 11: scriptPubKey 100 bytes > 34"),
            found("C4", "input 0: non-exempt witness item 257 bytes > 256"),
            found("C4", "input 1: non-exempt witness item 257 bytes > 256"),
        ]
    );
}
