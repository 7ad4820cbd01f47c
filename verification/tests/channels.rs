use bip110_packer::addresses::Network;
use bip110_packer::bip110;
use bip110_packer::channels::{
    build, commit_address, control_block, decode, fake_key, max_payload, op_return, p2wsh_envelope,
    stego, witness_args, Channel,
};
use bip110_packer::error::PackError;
use bip110_packer::framing;
use bip110_packer::taproot_spend;
use bip110_packer::taproot_spend::dummy_prevout;
use bip110_packer::tapscript::{build_tapscript, Auth};
use bip110_packer::tx::{Transaction, TxIn, TxOut, RBF_SEQUENCE};
use bitcoin::key::TapTweak;
use bitcoin::script::{Instruction, Script};

fn sample(len: usize) -> Vec<u8> {
    (0..len).map(|i| (i as u8).wrapping_mul(37).wrapping_add(11)).collect()
}

fn leaf_dest() -> Vec<u8> {
    taproot_spend::commit_address(b"dest", Auth::Anyone, Network::Regtest).unwrap().script_pubkey
}

fn block_dest() -> Vec<u8> {
    control_block::commit_address(b"throwaway destination", Network::Regtest).unwrap().script_pubkey
}

fn v0_change(fill: u8) -> Vec<u8> {
    let mut v = vec![0x00, 0x14];
    v.extend_from_slice(&[fill; 20]);
    v
}

fn v1_dest() -> Vec<u8> {
    let mut v = vec![0x51, 0x20];
    v.extend_from_slice(&[0x11u8; 32]);
    v
}

fn spend(witness: Vec<Vec<u8>>) -> Transaction {
    Transaction {
        version: 2,
        lock_time: 0,
        input: vec![TxIn {
            previous_output: dummy_prevout(0),
            script_sig: Vec::new(),
            sequence: RBF_SEQUENCE,
            witness,
        }],
        output: vec![],
    }
}

fn bare() -> Transaction {
    Transaction { version: 2, lock_time: 0, input: vec![], output: vec![] }
}

fn total(tx: &Transaction) -> u64 {
    tx.output.iter().map(|o| o.value).sum()
}

// The dispatcher.

#[test]
fn commit_address_none_for_output_only_channels() {
    for ch in [Channel::OpReturn, Channel::FakeKey, Channel::Stego] {
        let addr = commit_address(ch, b"\x00data", Network::Regtest).unwrap();
        assert!(addr.is_none(), "{ch:?} must have no commit address");
        assert!(!ch.is_commit_reveal());
    }
}

#[test]
fn commit_address_some_for_commit_reveal_tapleaf() {
    let addr = commit_address(Channel::Tapleaf, b"\x00data", Network::Regtest).unwrap();
    assert!(addr.is_some(), "tapleaf must have a commit address");
}

#[test]
fn tapleaf_build_and_decode_roundtrips_framed_bytes() {
    let framed = framing::frame(b"channel dispatch roundtrip", false);
    let to = commit_address(Channel::Tapleaf, &framed, Network::Regtest)
        .unwrap()
        .unwrap()
        .script_pubkey;
    let tx = build(
        Channel::Tapleaf,
        &framed,
        dummy_prevout(0),
        100_000,
        &to,
        1_000,
        Network::Regtest,
    )
    .unwrap();
    let recovered = decode(Channel::Tapleaf, &tx).unwrap();
    assert_eq!(recovered, framed);
    assert_eq!(framing::unframe(&recovered).unwrap(), b"channel dispatch roundtrip");
}

#[test]
fn max_payload_bounds_are_reported() {
    assert_eq!(max_payload(Channel::Tapleaf), None);
    assert_eq!(max_payload(Channel::ControlBlock), Some(224));
    assert_eq!(max_payload(Channel::OpReturn), Some(80));
    assert_eq!(max_payload(Channel::FakeKey), Some(32));
}

#[test]
fn every_channel_keeps_payload_rules_and_value() {
    let framed = framing::frame(&sample(90), false);
    for ch in [
        Channel::Tapleaf,
        Channel::ControlBlock,
        Channel::WitnessArgs,
        Channel::P2wshEnvelope,
        Channel::OpReturn,
        Channel::FakeKey,
        Channel::Stego,
    ] {
        let tx = build(
            ch,
            &framed,
            dummy_prevout(5),
            50_000_000,
            &leaf_dest(),
            1_234,
            Network::Regtest,
        )
        .unwrap();
        assert_eq!(decode(ch, &tx), Ok(framed.clone()), "{ch:?}");
        assert_eq!(bip110::validate(&tx), Ok(()), "{ch:?}");
        assert_eq!(total(&tx) + 1_234, 50_000_000, "{ch:?}");
        let addr = commit_address(ch, &framed, Network::Regtest).unwrap();
        assert_eq!(addr.is_some(), ch.is_commit_reveal());
    }
}

#[test]
fn address_and_reveal_refuse_the_same_payloads() {
    let big = vec![1u8; 300_000];
    for (ch, err) in [
        (Channel::ControlBlock, PackError::PayloadTooLarge { size: 300_000, max: 254 }),
        (Channel::WitnessArgs, PackError::TooManyArguments { needed: 1172, max: 1000 }),
        (
            Channel::P2wshEnvelope,
            PackError::WitnessScriptTooLarge { payload: 300_000, script: 302_358, max: 10_000 },
        ),
    ] {
        assert_eq!(commit_address(ch, &big, Network::Regtest), Err(err.clone()));
        let tx = build(ch, &big, dummy_prevout(0), 10, &leaf_dest(), 1, Network::Regtest);
        assert_eq!(tx, Err(err));
    }
}

#[test]
fn tapleaf_reader_falls_back_to_all_pushes() {
    let plain = spend(vec![build_tapscript(b"plain"), vec![0; 33]]);
    assert_eq!(decode(Channel::Tapleaf, &plain), Ok(b"plain".to_vec()));
    // An empty envelope has no payload behind its identifier.
    let empty = build(
        Channel::Tapleaf,
        &[],
        dummy_prevout(0),
        10,
        &leaf_dest(),
        1,
        Network::Regtest,
    )
    .unwrap();
    assert_eq!(decode(Channel::Tapleaf, &empty), Ok(b"ord".to_vec()));
    assert_eq!(decode(Channel::Tapleaf, &bare()), Err(PackError::NoInputs));
    assert_eq!(
        decode(Channel::Tapleaf, &spend(vec![vec![0x51]])),
        Err(PackError::NoScriptPath(1))
    );
    assert_eq!(
        decode(Channel::Tapleaf, &spend(vec![vec![0x05, 1], vec![0; 33]])),
        Err(PackError::MalformedScript)
    );
}

#[test]
fn fee_above_value_is_refused_on_every_reveal() {
    for ch in [
        Channel::Tapleaf,
        Channel::ControlBlock,
        Channel::WitnessArgs,
        Channel::P2wshEnvelope,
        Channel::OpReturn,
    ] {
        assert_eq!(
            build(ch, b"\x00x", dummy_prevout(0), 5, &leaf_dest(), 6, Network::Regtest),
            Err(PackError::FeeExceedsValue { fee: 6, value: 5 })
        );
    }
    for ch in [Channel::FakeKey, Channel::Stego] {
        assert_eq!(
            build(ch, b"\x00x", dummy_prevout(0), 5, &leaf_dest(), 6, Network::Regtest),
            Err(PackError::ValueTooSmall { fee: 6, value: 5 })
        );
    }
}

// Control block.

fn reveal_block(framed: &[u8], i: u32) -> Transaction {
    control_block::build_reveal(
        framed,
        dummy_prevout(i),
        100_000,
        &block_dest(),
        1_000,
        Network::Regtest,
    )
    .unwrap()
}

#[test]
fn roundtrip_various_sizes_up_to_cap() {
    for len in [0usize, 1, 2, 30, 31, 32, 33, 63, 64, 100, 200, 224, control_block::MAX_PAYLOAD] {
        let framed = sample(len);
        let tx = reveal_block(&framed, 0);
        let recovered = control_block::decode(&tx).unwrap();
        assert_eq!(recovered, framed, "round-trip failed for len {len}");
    }
}

#[test]
fn built_tx_is_bip110_compliant() {
    for len in [0usize, 1, 100, 224, control_block::MAX_PAYLOAD] {
        let tx = reveal_block(&sample(len), 1);
        assert_eq!(
            bip110::validate(&tx),
            Ok(()),
            "reveal for len {len} must be BIP-110 compliant"
        );
        assert_eq!(tx.output.len(), 1);
        assert_eq!(tx.output[0].script_pubkey.len(), 34);
        assert_eq!(tx.output[0].value, 99_000);
    }
}

#[test]
fn control_block_verifies_and_stays_within_c6() {
    let secp = bitcoin::key::Secp256k1::new();
    for len in [0usize, 31, 224, control_block::MAX_PAYLOAD] {
        let c = control_block::commitment(&sample(len)).unwrap();
        assert!(
            c.control_block.len() <= 257,
            "control block {} bytes exceeds C6 (257) for len {len}",
            c.control_block.len()
        );
        let cb = bitcoin::taproot::ControlBlock::decode(&c.control_block).unwrap();
        let key = bitcoin::secp256k1::XOnlyPublicKey::from_slice(&c.internal_key).unwrap();
        let root = bitcoin::hashes::Hash::from_byte_array(c.merkle_root);
        let (output_key, _) = key.tap_tweak(&secp, Some(root));
        assert!(
            cb.verify_taproot_commitment(
                &secp,
                output_key.to_x_only_public_key(),
                Script::from_bytes(&c.script)
            ),
            "control block must commit to the minimal leaf for len {len}"
        );
    }
}

#[test]
fn max_payload_control_block_is_exactly_257() {
    let c = control_block::commitment(&sample(control_block::MAX_PAYLOAD)).unwrap();
    assert_eq!(c.control_block.len(), 257);
}

#[test]
fn control_block_commit_address_is_deterministic() {
    let a = control_block::commit_address(&sample(64), Network::Regtest).unwrap();
    let b = control_block::commit_address(&sample(64), Network::Regtest).unwrap();
    assert_eq!(a, b, "commit address must be reproducible from framed bytes");
}

#[test]
fn over_capacity_is_rejected() {
    let framed = vec![0u8; control_block::MAX_PAYLOAD + 1];
    assert!(
        control_block::build_reveal(
            &framed,
            dummy_prevout(0),
            10_000,
            &block_dest(),
            0,
            Network::Regtest
        )
        .is_err(),
        "payloads beyond the 254-byte cap must be rejected"
    );
}

#[test]
fn internal_key_is_ground_to_the_least_valid_byte() {
    let framed = sample(40);
    let c = control_block::commitment(&framed).unwrap();
    let mut key = c.internal_key;
    assert_eq!(key[0], 40);
    assert_eq!(key[1..31], framed[..30]);
    let last = key[31];
    assert!(bitcoin::secp256k1::XOnlyPublicKey::from_slice(&key).is_ok());
    let mut g = 0u8;
    while g < last {
        key[31] = g;
        assert!(bitcoin::secp256k1::XOnlyPublicKey::from_slice(&key).is_err());
        g += 1;
    }
    assert_eq!(c.script, vec![0x51]);
    assert_eq!(c.control_block[33..43], framed[30..40]);
    assert_eq!(c.control_block[43..], [0u8; 22]);
}

#[test]
fn control_block_reader_errors() {
    let d = |w: Vec<Vec<u8>>| control_block::decode(&spend(w));
    assert_eq!(control_block::decode(&bare()), Err(PackError::NoInputs));
    assert_eq!(d(vec![]), Err(PackError::EmptyWitness));
    assert_eq!(d(vec![vec![0xc0; 32]]), Err(PackError::ControlBlockTooShort(32)));
    assert_eq!(d(vec![vec![0xc0; 34]]), Err(PackError::ControlBlockLength(34)));
    let mut block = vec![0u8; 33];
    block[1] = 31;
    assert_eq!(
        d(vec![block.clone()]),
        Err(PackError::DeclaredLength { declared: 31, available: 30 })
    );
    block[1] = 2;
    block[2] = 8;
    block[3] = 9;
    assert_eq!(d(vec![block]), Ok(vec![8, 9]));
}

// Witness arguments.

#[test]
fn witness_args_commit_address_is_deterministic() {
    let framed = b"\x00witness-args commit address";
    let a = witness_args::commit_address(framed, Network::Regtest).unwrap();
    let b = witness_args::commit_address(framed, Network::Regtest).unwrap();
    assert_eq!(a, b, "commit address must be reproducible");
}

#[test]
fn roundtrip_various_lengths_and_bip110_valid() {
    let to = leaf_dest();
    for len in [0usize, 1, 100, 255, 256, 257, 512, 513, 700, 4096] {
        let framed: Vec<u8> = (0..len).map(|i| (i * 31 + 7) as u8).collect();
        let tx = witness_args::build_reveal(
            &framed,
            dummy_prevout(0),
            100_000,
            &to,
            1_000,
            Network::Regtest,
        )
        .unwrap();
        let back = witness_args::decode(&tx).unwrap();
        assert_eq!(back, framed, "roundtrip failed for len {len}");
        assert_eq!(
            bip110::validate(&tx),
            Ok(()),
            "BIP-110 validation failed for len {len}"
        );
        let items = &tx.input[0].witness;
        for item in &items[..items.len() - 2] {
            assert!(
                item.len() <= 256,
                "witness data arg {} bytes > 256 for len {len}",
                item.len()
            );
        }
        assert_eq!(tx.output[0].value, 99_000);
    }
}

#[test]
fn witness_layout_is_args_then_script_then_control_block() {
    let framed: Vec<u8> = (0..600u32).map(|i| i as u8).collect();
    let tx = witness_args::build_reveal(
        &framed,
        dummy_prevout(1),
        10_000,
        &leaf_dest(),
        500,
        Network::Regtest,
    )
    .unwrap();
    let items = &tx.input[0].witness;
    assert_eq!(items.len(), 5, "3 data args + script + control block");
    assert_eq!(items[0].len(), 256);
    assert_eq!(items[1].len(), 256);
    assert_eq!(items[2].len(), 88);
    let cb = &items[4];
    assert_eq!(cb.len(), 33);
    assert_eq!(cb[0] & 0xfe, 0xc0);
}

#[test]
fn drop_script_has_no_banned_opcodes() {
    for n in [0usize, 1, 2, 3, 8, 999] {
        let script = witness_args::drop_script(n);
        for ins in Script::from_bytes(&script).instructions() {
            match &ins {
                Ok(Instruction::Op(op)) => {
                    let b = op.to_u8();
                    assert_ne!(b, 0x63, "OP_IF present");
                    assert_ne!(b, 0x64, "OP_NOTIF present");
                    assert!(!bip110::is_op_success(b), "OP_SUCCESS present");
                }
                Ok(Instruction::PushBytes(_)) => panic!("drop script must contain no pushes"),
                Err(e) => panic!("malformed drop script: {e}"),
            }
        }
    }
}

#[test]
fn oversized_payload_is_rejected() {
    let framed = vec![0xABu8; witness_args::ARG_SIZE * (witness_args::MAX_STACK_SIZE + 1)];
    assert!(witness_args::commit_address(&framed, Network::Regtest).is_err());
    assert!(witness_args::build_reveal(
        &framed,
        dummy_prevout(0),
        100_000,
        &leaf_dest(),
        1_000,
        Network::Regtest
    )
    .is_err());
}

#[test]
fn drop_scripts_are_exact_bytes() {
    assert_eq!(witness_args::drop_script(0), vec![0x51]);
    assert_eq!(witness_args::drop_script(1), vec![0x75, 0x51]);
    assert_eq!(witness_args::drop_script(2), vec![0x6d, 0x51]);
    assert_eq!(witness_args::drop_script(5), vec![0x6d, 0x6d, 0x75, 0x51]);
    assert_eq!(witness_args::num_args(&[]), 0);
    assert_eq!(witness_args::num_args(&[0; 256]), 1);
    assert_eq!(witness_args::num_args(&[0; 257]), 2);
}

#[test]
fn a_thousand_arguments_are_the_most() {
    let most = vec![3u8; 256_000];
    let tx = witness_args::build_reveal(
        &most,
        dummy_prevout(0),
        5,
        &leaf_dest(),
        5,
        Network::Bitcoin,
    )
    .unwrap();
    assert_eq!(tx.input[0].witness.len(), 1002);
    assert_eq!(
        witness_args::commit_address(&vec![3u8; 256_001], Network::Bitcoin),
        Err(PackError::TooManyArguments { needed: 1001, max: 1000 })
    );
    assert_eq!(witness_args::decode(&bare()), Err(PackError::NoInputs));
    assert_eq!(witness_args::decode(&spend(vec![vec![1]])), Err(PackError::NoScriptPath(1)));
}

// Witness script envelope.

fn envelope_dest() -> Vec<u8> {
    p2wsh_envelope::commit_address(b"\x00throwaway destination", Network::Regtest)
        .unwrap()
        .script_pubkey
}

fn reveal_envelope(framed: &[u8]) -> Transaction {
    p2wsh_envelope::build_reveal(
        framed,
        dummy_prevout(0),
        100_000,
        &envelope_dest(),
        1_000,
        Network::Regtest,
    )
    .unwrap()
}

#[test]
fn roundtrips_various_lengths() {
    for len in [0usize, 1, 50, 254, 255, 256, 510, 1000, 5000, 9000] {
        let framed: Vec<u8> = (0..len).map(|i| (i * 7 + 1) as u8).collect();
        let tx = reveal_envelope(&framed);
        let recovered = p2wsh_envelope::decode(&tx).unwrap();
        assert_eq!(recovered, framed, "round-trip failed for len {len}");
    }
}

#[test]
fn commit_address_is_p2wsh_34_byte_spk() {
    let spk = p2wsh_envelope::commit_address(b"\x00p2wsh envelope", Network::Regtest)
        .unwrap()
        .script_pubkey;
    assert!(Script::from_bytes(&spk).is_p2wsh(), "commit address must be P2WSH");
    assert_eq!(spk.len(), 34, "P2WSH spk is OP_0 <32-byte hash> = 34 bytes (C1)");
}

#[test]
fn built_tx_is_bip110_compliant_for_small_payload() {
    let framed: Vec<u8> = (0..150u32).map(|i| i as u8).collect();
    let tx = reveal_envelope(&framed);
    assert_eq!(
        bip110::validate(&tx),
        Ok(()),
        "P2WSH-envelope reveal must be BIP-110 compliant"
    );
    assert_eq!(p2wsh_envelope::decode(&tx).unwrap(), framed, "must still round-trip");
}

#[test]
fn witness_script_within_size_caps_and_pushes_bounded() {
    let framed: Vec<u8> = (0..8000u32).map(|i| (i % 253) as u8).collect();
    let tx = reveal_envelope(&framed);
    let ws = tx.input[0].witness.last().expect("witnessScript present");
    assert!(
        ws.len() <= p2wsh_envelope::MAX_WITNESS_SCRIPT,
        "witnessScript must be <= 10000 bytes, got {}",
        ws.len()
    );
    for ins in Script::from_bytes(ws).instructions() {
        if let Ok(Instruction::PushBytes(pb)) = ins {
            assert!(pb.as_bytes().len() <= 256, "every internal push must be <= 256 (C3)");
        }
    }
}

#[test]
fn oversized_payload_errors_clearly() {
    let framed = vec![0xABu8; 10_050];
    assert!(
        p2wsh_envelope::commit_address(&framed, Network::Regtest).is_err(),
        "commit_address must reject an over-large payload"
    );
    assert!(
        p2wsh_envelope::build_reveal(
            &framed,
            dummy_prevout(0),
            100_000,
            &envelope_dest(),
            1_000,
            Network::Regtest
        )
        .is_err(),
        "build_reveal must reject an over-large payload"
    );
}

#[test]
fn witness_script_capacity_is_9918_bytes() {
    assert!(p2wsh_envelope::commit_address(&vec![1u8; 9_918], Network::Regtest).is_ok());
    assert_eq!(
        p2wsh_envelope::commit_address(&vec![1u8; 9_919], Network::Regtest),
        Err(PackError::WitnessScriptTooLarge { payload: 9_919, script: 10_001, max: 10_000 })
    );
    let tx = reveal_envelope(b"abc");
    assert_eq!(
        tx.input[0].witness,
        vec![vec![0x00, 0x63, 0x03, b'a', b'b', b'c', 0x68, 0x51]]
    );
    let addr = p2wsh_envelope::commit_address(b"abc", Network::Regtest).unwrap();
    let expected = bitcoin::Address::p2wsh(
        Script::from_bytes(&tx.input[0].witness[0]),
        bitcoin::Network::Regtest,
    );
    assert_eq!(addr.text, expected.to_string());
    assert_eq!(addr.script_pubkey, expected.script_pubkey().to_bytes());
    let main = p2wsh_envelope::commit_address(b"abc", Network::Bitcoin).unwrap();
    assert_eq!(main.script_pubkey, addr.script_pubkey);
    assert!(main.text.starts_with("bc1q"));
}

#[test]
fn witness_script_beyond_the_item_cap_is_flagged() {
    let tx = reveal_envelope(&sample(255));
    assert!(tx.input[0].witness[0].len() > 256);
    assert!(bip110::validate(&tx).unwrap_err().iter().any(|v| v.rule == "C4"));
}

#[test]
fn envelope_reader_stops_at_endif() {
    let d = |s: Vec<u8>| p2wsh_envelope::decode(&spend(vec![s]));
    assert_eq!(d(vec![0x01, 7, 0x63, 0x01, 8, 0x63, 0x01, 9, 0x68, 0x01, 5]), Ok(vec![8, 9]));
    // What is cut short behind the envelope does no harm, inside it does.
    assert_eq!(d(vec![0x63, 0x01, 8, 0x68, 0x05]), Ok(vec![8]));
    assert_eq!(d(vec![0x63, 0x01, 8, 0x05]), Err(PackError::MalformedScript));
    assert_eq!(d(vec![0x63, 0x01, 8]), Ok(vec![8]));
    assert_eq!(d(vec![]), Ok(vec![]));
    assert_eq!(p2wsh_envelope::decode(&bare()), Err(PackError::NoInputs));
    assert_eq!(p2wsh_envelope::decode(&spend(vec![])), Err(PackError::EmptyWitness));
}

// OP_RETURN outputs.

fn op_return_for(framed: &[u8]) -> Transaction {
    op_return::build_tx(framed, dummy_prevout(0), 100_000, &v1_dest(), 1_000, Network::Regtest)
        .unwrap()
}

#[test]
fn op_return_roundtrip_several_lengths() {
    for len in [0usize, 1, 79, 80, 81, 159, 160, 161, 500, 1_000] {
        let framed: Vec<u8> = (0..len).map(|i| (i * 7 + 1) as u8).collect();
        let tx = op_return_for(&framed);
        let back = op_return::decode(&tx).unwrap();
        assert_eq!(back, framed, "roundtrip failed for len {len}");
    }
}

#[test]
fn every_op_return_spk_within_c2_cap() {
    let framed: Vec<u8> = (0..500u32).map(|i| i as u8).collect();
    let tx = op_return_for(&framed);
    let mut data_outputs = 0usize;
    for txout in &tx.output {
        let spk = &txout.script_pubkey;
        if Script::from_bytes(spk).is_op_return() {
            data_outputs += 1;
            assert!(spk.len() <= 83, "OP_RETURN scriptPubKey {} bytes > 83 (C2)", spk.len());
            assert_eq!(txout.value, 0, "data outputs are value 0");
        }
    }
    assert_eq!(data_outputs, 7, "expected 7 OP_RETURN outputs for 500 bytes");
}

#[test]
fn change_output_pays_prevout_minus_fee() {
    let framed: Vec<u8> = (0..200u32).map(|i| i as u8).collect();
    let tx = op_return_for(&framed);
    let change = tx.output.last().expect("at least the change output is present");
    assert!(
        !Script::from_bytes(&change.script_pubkey).is_op_return(),
        "last output is change"
    );
    assert_eq!(change.value, 99_000);
    assert!(change.script_pubkey.len() <= 34, "change spk must be <=34 (C1)");
}

#[test]
fn op_return_built_tx_passes_bip110_validate() {
    let framed: Vec<u8> = (0..300u32).map(|i| (i % 251) as u8).collect();
    let tx = op_return::build_tx(
        &framed,
        dummy_prevout(2),
        50_000,
        &v1_dest(),
        500,
        Network::Regtest,
    )
    .unwrap();
    assert_eq!(bip110::validate(&tx), Ok(()), "built OP_RETURN tx must be BIP-110 compliant");
}

#[test]
fn op_return_fee_exceeding_value_errors() {
    let err = op_return::build_tx(
        b"\x00payload",
        dummy_prevout(0),
        500,
        &v1_dest(),
        1_000,
        Network::Regtest,
    );
    assert!(err.is_err(), "fee > prevout value must error");
}

#[test]
fn op_return_outputs_are_exact_bytes() {
    let tx = op_return_for(&[5u8; 81]);
    let mut first = vec![0x6a, 0x4c, 80];
    first.extend_from_slice(&[5u8; 80]);
    assert_eq!(tx.output[0].script_pubkey, first);
    assert_eq!(tx.output[1].script_pubkey, vec![0x6a, 0x01, 5]);
    assert_eq!(tx.output.len(), 3);
    assert!(tx.input[0].witness.is_empty());
    let mut cut = bare();
    cut.output.push(TxOut { value: 0, script_pubkey: vec![0x01, 9] });
    cut.output.push(TxOut { value: 0, script_pubkey: vec![0x6a, 0x05, 1] });
    assert_eq!(op_return::decode(&cut), Err(PackError::MalformedScript));
    assert_eq!(op_return::decode(&bare()), Ok(vec![]));
}

#[test]
fn change_to_an_op_return_script_is_read_as_data() {
    let tx = op_return::build_tx(
        &[1, 2],
        dummy_prevout(0),
        9,
        &[0x6a, 0x01, 3],
        0,
        Network::Regtest,
    )
    .unwrap();
    assert_eq!(op_return::decode(&tx), Ok(vec![1, 2, 3]));
}

// Fake keys.

fn fake_key_for(framed: &[u8]) -> Transaction {
    fake_key::build_tx(
        framed,
        dummy_prevout(0),
        100_000,
        &v0_change(0x11),
        1_000,
        Network::Regtest,
    )
    .unwrap()
}

#[test]
fn fake_key_roundtrip_several_lengths() {
    for len in [0usize, 1, 28, 31, 32, 33, 64, 65, 100, 320] {
        let framed: Vec<u8> = (0..len).map(|i| (i * 7 + 1) as u8).collect();
        let tx = fake_key_for(&framed);
        let back = fake_key::decode(&tx).unwrap();
        assert_eq!(back, framed, "roundtrip failed for len {len}");
    }
}

#[test]
fn every_data_output_spk_is_34_bytes_and_p2tr() {
    let framed: Vec<u8> = (0..100u32).map(|i| i as u8).collect();
    let tx = fake_key_for(&framed);
    let n = tx.output.len();
    for txout in &tx.output[..n - 1] {
        let spk = &txout.script_pubkey;
        assert_eq!(spk.len(), 34, "fake-key data output spk must be 34 bytes (C1)");
        assert!(Script::from_bytes(spk).is_p2tr(), "fake-key data output must look like P2TR");
    }
    assert_eq!(tx.output.len(), 4 + 1);
}

#[test]
fn fake_key_built_tx_passes_bip110_validate() {
    let framed: Vec<u8> = (0..300u32).map(|i| (i % 251) as u8).collect();
    let tx = fake_key::build_tx(
        &framed,
        dummy_prevout(2),
        50_000,
        &v0_change(0x11),
        500,
        Network::Regtest,
    )
    .unwrap();
    assert_eq!(bip110::validate(&tx), Ok(()), "built fake-key tx must be BIP-110 compliant");
}

#[test]
fn change_output_is_last_and_pays_prevout_minus_fee_and_dust() {
    let framed: Vec<u8> = (0..64u32).map(|i| i as u8).collect();
    let tx = fake_key_for(&framed);
    let data_outputs = tx.output.len() - 1;
    assert_eq!(data_outputs, 3);
    let change = tx.output.last().expect("change output present");
    assert!(
        !Script::from_bytes(&change.script_pubkey).is_p2tr(),
        "last output is the change output"
    );
    let expected = 100_000 - 1_000 - 330 * data_outputs as u64;
    assert_eq!(change.value, expected);
}

#[test]
fn fee_plus_dust_exceeding_value_errors() {
    let err = fake_key::build_tx(
        b"\x00payload",
        dummy_prevout(0),
        300,
        &v0_change(0x11),
        1_000,
        Network::Regtest,
    );
    assert!(err.is_err(), "fee + dust > prevout value must error");
}

#[test]
fn fake_key_dust_must_be_covered_exactly() {
    let b = |value: u64| {
        fake_key::build_tx(b"x", dummy_prevout(0), value, &[0x51], 70, Network::Regtest)
    };
    assert_eq!(b(400).unwrap().output[1].value, 0);
    assert_eq!(b(399), Err(PackError::ValueTooSmall { fee: 70, value: 399 }));
    let tx = b(400).unwrap();
    assert_eq!(tx.output[0].value, 330);
    assert_eq!(tx.output[0].script_pubkey[..8], [0x51, 0x20, 0, 0, 0, 1, b'x', 0]);
}

#[test]
fn fake_key_reader_errors() {
    let out = |spks: Vec<Vec<u8>>| {
        let mut t = bare();
        t.output =
            spks.into_iter().map(|s| TxOut { value: 0, script_pubkey: s }).collect();
        fake_key::decode(&t)
    };
    let mut word = vec![0x51, 0x20, 0, 0, 0, 29];
    word.extend_from_slice(&[4u8; 28]);
    assert_eq!(out(vec![]), Err(PackError::TooFewOutputs(0)));
    assert_eq!(out(vec![word.clone()]), Err(PackError::TooFewOutputs(1)));
    assert_eq!(
        out(vec![word.clone(), vec![0x51]]),
        Err(PackError::DeclaredLength { declared: 29, available: 28 })
    );
    assert_eq!(
        out(vec![word.clone(), vec![0x51], vec![0x51]]),
        Err(PackError::NotADataOutput(1))
    );
    word[5] = 3;
    assert_eq!(out(vec![word, vec![]]), Ok(vec![4, 4, 4]));
}

// Sequence number and amounts.

fn stego_for(framed: &[u8]) -> Transaction {
    stego::build_tx(
        framed,
        dummy_prevout(0),
        10_000_000,
        &v0_change(0x22),
        1_000,
        Network::Regtest,
    )
    .unwrap()
}

#[test]
fn stego_roundtrip_several_lengths() {
    for len in [0usize, 1, 2, 3, 16, 31, 32, 100] {
        let framed: Vec<u8> = (0..len).map(|i| (i * 5 + 9) as u8).collect();
        let tx = stego_for(&framed);
        let back = stego::decode(&tx).unwrap();
        assert_eq!(back, framed, "roundtrip failed for len {len}");
    }
}

#[test]
fn length_rides_in_nsequence_and_version_is_one() {
    let framed: Vec<u8> = (0..20u32).map(|i| i as u8).collect();
    let tx = stego_for(&framed);
    assert_eq!(tx.version, 1);
    assert_eq!(tx.input[0].sequence as usize, framed.len());
    assert_eq!(tx.output.len(), 10 + 1);
}

#[test]
fn stego_built_tx_passes_bip110_validate() {
    let framed: Vec<u8> = (0..64u32).map(|i| (i % 251) as u8).collect();
    let tx = stego_for(&framed);
    assert_eq!(bip110::validate(&tx), Ok(()), "built field-value tx must be BIP-110 compliant");
}

#[test]
fn change_is_last_and_conserves_value() {
    let framed = b"hello".to_vec();
    let tx = stego_for(&framed);
    assert_eq!(total(&tx), 10_000_000 - 1_000, "outputs + fee must equal prevout");
}

#[test]
fn stego_fee_exceeding_value_errors() {
    let err = stego::build_tx(
        &[0xff; 8],
        dummy_prevout(0),
        500,
        &v0_change(0x22),
        1_000,
        Network::Regtest,
    );
    assert!(err.is_err(), "fee + data outputs > prevout value must error");
}

#[test]
fn stego_amounts_are_exact() {
    let tx = stego_for(&[0x01, 0x02, 0xff]);
    assert_eq!(tx.output[0].value, 1_000 + 0x0102);
    assert_eq!(tx.output[1].value, 1_000 + 0xff00);
    assert_eq!(tx.output[2].value, 10_000_000 - 1_000 - 1_258 - 66_280);
    assert!(tx.output.iter().all(|o| o.script_pubkey == v0_change(0x22)));
}

#[test]
fn stego_reader_errors() {
    let out = |sequence: u32, values: Vec<u64>| {
        let mut t = spend(vec![]);
        t.input[0].sequence = sequence;
        t.output =
            values.into_iter().map(|value| TxOut { value, script_pubkey: vec![] }).collect();
        stego::decode(&t)
    };
    assert_eq!(stego::decode(&bare()), Err(PackError::NoInputs));
    assert_eq!(
        out(5, vec![1_000, 1_000]),
        Err(PackError::MissingOutputs { declared: 5, needed: 3, outputs: 2 })
    );
    assert_eq!(out(3, vec![1_000, 999]), Err(PackError::BelowBase(1)));
    assert_eq!(
        out(3, vec![66_536, 999]),
        Err(PackError::AmountTooLarge { output: 0, piece: 65_536 })
    );
    assert_eq!(out(3, vec![66_535, 1_000 + 0x0700]), Ok(vec![0xff, 0xff, 7]));
    assert_eq!(out(0, vec![]), Ok(vec![]));
}

// Across the channels.

#[test]
fn reveals_spend_what_the_commit_address_pays_to() {
    let secp = bitcoin::key::Secp256k1::new();
    let framed = framing::frame(&sample(100), false);
    for ch in [Channel::Tapleaf, Channel::ControlBlock, Channel::WitnessArgs] {
        let addr = commit_address(ch, &framed, Network::Regtest).unwrap().unwrap();
        let tx = build(ch, &framed, dummy_prevout(0), 9, &leaf_dest(), 1, Network::Regtest).unwrap();
        let items = &tx.input[0].witness;
        let cb = bitcoin::taproot::ControlBlock::decode(&items[items.len() - 1]).unwrap();
        let key =
            bitcoin::secp256k1::XOnlyPublicKey::from_slice(&addr.script_pubkey[2..]).unwrap();
        assert!(
            cb.verify_taproot_commitment(&secp, key, Script::from_bytes(&items[items.len() - 2])),
            "{ch:?}"
        );
    }
    let addr = commit_address(Channel::P2wshEnvelope, &framed, Network::Regtest).unwrap().unwrap();
    let tx = build(
        Channel::P2wshEnvelope,
        &framed,
        dummy_prevout(0),
        9,
        &leaf_dest(),
        1,
        Network::Regtest,
    )
    .unwrap();
    let script = Script::from_bytes(&tx.input[0].witness[0]);
    assert_eq!(addr.script_pubkey, bitcoin::ScriptBuf::new_p2wsh(&script.wscript_hash()).to_bytes());
}

#[test]
fn no_violation_is_the_open_spend() {
    let framed = sample(600);
    let a = taproot_spend::build_spend_violation(
        &framed,
        bip110_packer::tapscript::Violate::Nothing,
        dummy_prevout(0),
        9,
        &leaf_dest(),
        1,
        Network::Regtest,
        false,
    );
    let b = build(
        Channel::Tapleaf,
        &framed,
        dummy_prevout(0),
        9,
        &leaf_dest(),
        1,
        Network::Regtest,
    );
    assert_eq!(a, b);
}

#[test]
fn drop_scripts_drop_what_they_are_given() {
    for n in [0usize, 1, 2, 7, 1000] {
        let mut depth = n as i64;
        for b in witness_args::drop_script(n) {
            depth += match b {
                0x6d => -2,
                0x75 => -1,
                _ => 1,
            };
            assert!(depth >= 0);
        }
        assert_eq!(depth, 1);
    }
}

#[test]
fn control_block_parts_are_exact() {
    let framed = sample(40);
    let key = control_block::key_candidate(&framed, 0x99);
    assert_eq!(key[0], 40);
    assert_eq!(key[1..31], framed[..30]);
    assert_eq!(key[31], 0x99);
    let short = control_block::key_candidate(&[5, 6], 1);
    assert_eq!(short[..4], [2, 5, 6, 0]);
    assert_eq!(short[31], 1);
    let words = control_block::sibling_words(&framed);
    assert_eq!(words.len(), 1);
    assert_eq!(words[0][..10], framed[30..]);
    assert_eq!(control_block::sibling_words(&[0; 30]).len(), 0);
    assert_eq!(control_block::sibling_words(&[0; 31]).len(), 1);
    let block = control_block::assemble_block(&[3; 32], true, &words);
    assert_eq!(block[0], 0xc1);
    assert_eq!(block[1..33], [3; 32]);
    assert_eq!(block[33..], words[0]);
    assert_eq!(control_block::assemble_block(&[3; 32], false, &vec![])[0], 0xc0);
}

#[test]
fn reveals_are_assembled_in_order() {
    let to = v1_dest();
    let tx = taproot_spend::assemble_spend(
        Some(vec![9; 64]),
        vec![1],
        vec![2],
        dummy_prevout(4),
        77,
        &to,
    );
    assert_eq!(tx.input[0].witness, vec![vec![9; 64], vec![1], vec![2]]);
    assert_eq!(tx.output, vec![TxOut { value: 77, script_pubkey: to.clone() }]);
    assert_eq!(tx.input[0].sequence, RBF_SEQUENCE);
    let open = taproot_spend::assemble_spend(None, vec![1], vec![2], dummy_prevout(4), 77, &to);
    assert_eq!(open.input[0].witness, vec![vec![1], vec![2]]);
    let args =
        witness_args::assemble_reveal(&[7; 300], vec![1], vec![2], dummy_prevout(4), 5, &to);
    assert_eq!(args.input[0].witness, vec![vec![7; 256], vec![7; 44], vec![1], vec![2]]);
    assert_eq!(
        p2wsh_envelope::build_witness_script(&[7]),
        Ok(vec![0x00, 0x63, 0x01, 7, 0x68, 0x51])
    );
}

#[test]
fn witness_script_executes_none_of_its_data() {
    let script = p2wsh_envelope::build_witness_script(&sample(700)).unwrap();
    let mut stack: Vec<Vec<u8>> = Vec::new();
    let mut skipping = false;
    for ins in Script::from_bytes(&script).instructions() {
        match ins.unwrap() {
            Instruction::Op(op) if op.to_u8() == 0x68 => skipping = false,
            _ if skipping => {}
            Instruction::Op(op) if op.to_u8() == 0x63 => skipping = stack.pop().unwrap().is_empty(),
            Instruction::Op(op) if op.to_u8() == 0x51 => stack.push(vec![1]),
            Instruction::Op(op) => panic!("unexpected opcode {op}"),
            Instruction::PushBytes(d) => stack.push(d.as_bytes().to_vec()),
        }
    }
    assert_eq!(stack, vec![vec![1]]);
}

#[test]
fn channels_that_commit_have_an_address_up_to_254_bytes() {
    for ch in [
        Channel::Tapleaf,
        Channel::ControlBlock,
        Channel::WitnessArgs,
        Channel::P2wshEnvelope,
        Channel::OpReturn,
        Channel::FakeKey,
        Channel::Stego,
    ] {
        for len in [0usize, 1, 100, 254] {
            let addr = commit_address(ch, &sample(len), Network::Signet).unwrap();
            assert_eq!(addr.is_some(), ch.is_commit_reveal(), "{ch:?} {len}");
        }
    }
}
