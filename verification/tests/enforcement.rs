use bip110_packer::addresses::Network;
use bip110_packer::bip110;
use bip110_packer::channels::{self, Channel};
use bip110_packer::taproot_spend::{build_spend_violation, commit_address, dummy_prevout};
use bip110_packer::tapscript::{Auth, Violate};
use bip110_packer::tx::{Transaction, TxIn, TxOut, RBF_SEQUENCE};

fn dest_spk() -> Vec<u8> {
    commit_address(b"enforcement-dest", Auth::Anyone, Network::Regtest).unwrap().script_pubkey
}

fn violating(violate: Violate, oversize_output: bool) -> Transaction {
    let data: Vec<u8> = (0..1_000u32).map(|i| i as u8).collect();
    build_spend_violation(
        &data,
        violate,
        dummy_prevout(0),
        100_000,
        &dest_spk(),
        1_000,
        Network::Regtest,
        oversize_output,
    )
    .unwrap()
}

fn assert_rule(tx: &Transaction, rule: &str) {
    let err = match bip110::validate(tx) {
        Ok(()) => panic!("expected a {rule} violation, but validate() passed"),
        Err(v) => v,
    };
    assert!(
        err.iter().any(|v| v.rule == rule),
        "expected a {rule} violation; got {:?}",
        err
    );
}

#[test]
fn push_too_big_is_rejected_c3() {
    assert_rule(&violating(Violate::PushTooBig, false), "C3");
}

#[test]
fn op_if_is_rejected_c8() {
    assert_rule(&violating(Violate::OpIf, false), "C8");
}

#[test]
fn op_success_is_rejected_c7() {
    assert_rule(&violating(Violate::OpSuccess, false), "C7");
}

#[test]
fn oversize_output_is_rejected_c1() {
    assert_rule(&violating(Violate::Nothing, true), "C1");
}

#[test]
fn oversize_control_block_is_rejected_c6() {
    let mut cb = vec![0u8; 289];
    cb[0] = 0xc0;
    assert_eq!((cb.len() - 33) % 32, 0, "control block shape must be 33+32*m");
    let tx = Transaction {
        version: 2,
        lock_time: 0,
        input: vec![TxIn {
            previous_output: dummy_prevout(0),
            script_sig: Vec::new(),
            sequence: RBF_SEQUENCE,
            witness: vec![vec![0x51u8], cb],
        }],
        output: vec![TxOut { value: 0, script_pubkey: dest_spk() }],
    };
    assert_rule(&tx, "C6");
}

#[test]
fn compliant_control_passes() {
    let tx = violating(Violate::Nothing, false);
    assert_eq!(bip110::validate(&tx), Ok(()), "compliant control must pass validation");
}

#[test]
fn each_violation_breaks_one_rule_only() {
    let rules = |tx: Transaction| -> Vec<&'static str> {
        bip110::check(&tx).iter().map(|v| v.rule).collect()
    };
    assert_eq!(rules(violating(Violate::PushTooBig, false)), vec!["C3"]);
    assert_eq!(rules(violating(Violate::OpIf, false)), vec!["C8"]);
    assert_eq!(rules(violating(Violate::OpSuccess, false)), vec!["C7"]);
    assert_eq!(rules(violating(Violate::Nothing, true)), vec!["C1"]);
    assert!(rules(violating(Violate::Nothing, false)).is_empty());
    assert_eq!(rules(violating(Violate::PushTooBig, true)), vec!["C1", "C3"]);
    assert_eq!(rules(violating(Violate::OpIf, true)), vec!["C1", "C8"]);
    assert_eq!(rules(violating(Violate::OpSuccess, true)), vec!["C1", "C7"]);
}

#[test]
fn violating_reveals_give_their_data_back() {
    let data: Vec<u8> = (0..1_000u32).map(|i| i as u8).collect();
    for v in [Violate::Nothing, Violate::PushTooBig, Violate::OpIf, Violate::OpSuccess] {
        assert_eq!(channels::decode(Channel::Tapleaf, &violating(v, true)), Ok(data.clone()));
    }
}

#[test]
fn oversize_output_has_40_bytes_and_no_value() {
    let tx = violating(Violate::Nothing, true);
    assert_eq!(tx.output.len(), 2);
    assert_eq!(tx.output[0].value, 99_000);
    assert_eq!(tx.output[1], TxOut { value: 0, script_pubkey: vec![0u8; 40] });
    assert_eq!(tx.input[0].witness.len(), 2);
}
