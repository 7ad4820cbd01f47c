use bip110_packer::addresses::Network;
use bip110_packer::error::PackError;
use bip110_packer::taproot_spend::{
    after_fee, build_signed_spend, build_spend, build_spend_auth, build_spend_violation, build_tx,
    commit_address, commit_address_violation, dummy_prevout, internal_key, reveal_keypair,
};
use bip110_packer::tapscript::{build_tapscript_auth, build_tapscript_violation, Auth, Violate};
use bip110_packer::tx::{OutPoint, Transaction};
use bitcoin::hashes::Hash as BitcoinHash;
use bitcoin::key::Secp256k1;
use bitcoin::secp256k1::{Message, XOnlyPublicKey};
use bitcoin::sighash::{Prevouts, SighashCache, TapSighashType};
use bitcoin::taproot::{ControlBlock, LeafVersion, TapLeafHash};

fn outside(tx: &Transaction) -> bitcoin::Transaction {
    bitcoin::Transaction {
        version: bitcoin::transaction::Version(tx.version),
        lock_time: bitcoin::absolute::LockTime::from_consensus(tx.lock_time),
        input: tx
            .input
            .iter()
            .map(|i| bitcoin::TxIn {
                previous_output: bitcoin::OutPoint {
                    txid: bitcoin::Txid::from_byte_array(i.previous_output.txid),
                    vout: i.previous_output.vout,
                },
                script_sig: bitcoin::ScriptBuf::from(i.script_sig.clone()),
                sequence: bitcoin::Sequence(i.sequence),
                witness: bitcoin::Witness::from_slice(&i.witness),
            })
            .collect(),
        output: tx
            .output
            .iter()
            .map(|o| bitcoin::TxOut {
                value: bitcoin::Amount::from_sat(o.value),
                script_pubkey: bitcoin::ScriptBuf::from(o.script_pubkey.clone()),
            })
            .collect(),
    }
}

#[test]
fn control_block_at_most_257_bytes() {
    let bundle = build_spend(b"some data here").unwrap();
    let cb = bundle.control_block;
    assert_eq!(cb.len(), 33, "single-leaf control block is 33 bytes");
    assert!(cb.len() <= 257);
    assert_eq!(cb[0] & 0xfe, 0xc0);
}

#[test]
fn output_spk_is_exactly_34_bytes() {
    let bundle = build_spend(b"payload").unwrap();
    assert_eq!(bundle.spk.len(), 34);
    assert_eq!(bundle.spk[0], 0x51);
}

#[test]
fn control_block_verifies_commitment() {
    let secp = Secp256k1::new();
    let bundle = build_spend(b"verify me").unwrap();
    let cb = ControlBlock::decode(&bundle.control_block).unwrap();
    let key = XOnlyPublicKey::from_slice(&bundle.spend_info.output_key).unwrap();
    let ok = cb.verify_taproot_commitment(
        &secp,
        key,
        bitcoin::Script::from_bytes(&bundle.script),
    );
    assert!(ok, "control block must commit to the tapleaf");
    assert_eq!(bundle.spk[2..], bundle.spend_info.output_key);
}

#[test]
fn internal_key_is_the_generator_point_times_its_secret() {
    let secp = Secp256k1::new();
    let sk = bitcoin::secp256k1::SecretKey::from_slice(&[1u8; 32]).unwrap();
    let kp = bitcoin::key::Keypair::from_secret_key(&secp, &sk);
    assert_eq!(internal_key(), kp.x_only_public_key().0.serialize());
    assert_eq!(reveal_keypair().secret, [2u8; 32]);
    assert_ne!(reveal_keypair().public_key, internal_key());
}

#[test]
fn bundle_matches_the_outside_tree() {
    let secp = Secp256k1::new();
    let bundle = build_spend_auth(b"tree", Auth::Checksig).unwrap();
    let script = bitcoin::Script::from_bytes(&bundle.script);
    let leaf = TapLeafHash::from_script(script, LeafVersion::TapScript);
    assert_eq!(bundle.spend_info.merkle_root, leaf.to_byte_array());
    assert_eq!(bundle.spend_info.internal_key, internal_key());
    let ik = XOnlyPublicKey::from_slice(&internal_key()).unwrap();
    let spk = bitcoin::ScriptBuf::new_p2tr(
        &secp,
        ik,
        Some(bitcoin::TapNodeHash::from_byte_array(leaf.to_byte_array())),
    );
    assert_eq!(bundle.spk, spk.to_bytes());
    assert_eq!(
        bundle.control_block[0],
        if bundle.spend_info.output_key_odd { 0xc1 } else { 0xc0 }
    );
    assert_eq!(bundle.control_block[1..], internal_key());
}

#[test]
fn checksig_signature_verifies_under_the_reveal_key() {
    let secp = Secp256k1::verification_only();
    let data = b"signed data".to_vec();
    let to = commit_address(b"dest", Auth::Anyone, Network::Regtest).unwrap().script_pubkey;
    let tx = build_signed_spend(
        &data,
        Auth::Checksig,
        dummy_prevout(7),
        100_000,
        &to,
        1_000,
        Network::Regtest,
    )
    .unwrap();
    let items = tx.input[0].witness.clone();
    assert_eq!(items[1], build_tapscript_auth(&data, Auth::Checksig));
    let bundle = build_spend_auth(&data, Auth::Checksig).unwrap();
    let prevout = bitcoin::TxOut {
        value: bitcoin::Amount::from_sat(100_000),
        script_pubkey: bitcoin::ScriptBuf::from(bundle.spk),
    };
    let leaf =
        TapLeafHash::from_script(bitcoin::Script::from_bytes(&items[1]), LeafVersion::TapScript);
    let btx = outside(&tx);
    let digest = SighashCache::new(&btx)
        .taproot_script_spend_signature_hash(
            0,
            &Prevouts::All(&[prevout]),
            leaf,
            TapSighashType::Default,
        )
        .unwrap();
    let sig = bitcoin::secp256k1::schnorr::Signature::from_slice(&items[0]).unwrap();
    let key = XOnlyPublicKey::from_slice(&reveal_keypair().public_key).unwrap();
    assert!(secp
        .verify_schnorr(&sig, &Message::from_digest(digest.to_byte_array()), &key)
        .is_ok());
}

#[test]
fn fee_above_value_is_refused() {
    assert_eq!(after_fee(5, 5), Ok(0));
    assert_eq!(after_fee(5, 6), Err(PackError::FeeExceedsValue { fee: 6, value: 5 }));
    let err = PackError::FeeExceedsValue { fee: 1_000, value: 999 };
    assert_eq!(
        build_signed_spend(
            b"x",
            Auth::Anyone,
            dummy_prevout(0),
            999,
            &[0x51],
            1_000,
            Network::Regtest
        ),
        Err(err.clone())
    );
    assert_eq!(
        build_spend_violation(
            b"x",
            Violate::OpIf,
            dummy_prevout(0),
            999,
            &[0x51],
            1_000,
            Network::Regtest,
            true
        ),
        Err(err)
    );
}

#[test]
fn dummy_prevouts_are_distinct_and_not_null() {
    let a: OutPoint = dummy_prevout(0);
    let b: OutPoint = dummy_prevout(0x0102_0304);
    assert_eq!(a.txid[31], 0xa5);
    assert_eq!(a.txid[..31], [0u8; 31]);
    assert_eq!(b.txid[..5], [4, 3, 2, 1, 0]);
    assert_eq!(b.txid[31], 0xa5);
    assert_eq!(b.vout, 0);
}

#[test]
fn data_tx_pays_to_its_own_output() {
    let tx = build_tx(b"hello", dummy_prevout(3)).unwrap();
    let bundle = build_spend(b"hello").unwrap();
    assert_eq!(tx.version, 2);
    assert_eq!(tx.lock_time, 0);
    assert_eq!(tx.input[0].sequence, 0xffff_fffd);
    assert_eq!(tx.input[0].previous_output, dummy_prevout(3));
    assert_eq!(tx.input[0].witness, vec![bundle.script, bundle.control_block]);
    assert_eq!(tx.output.len(), 1);
    assert_eq!(tx.output[0].value, 0);
    assert_eq!(tx.output[0].script_pubkey, bundle.spk);
}

#[test]
fn commit_addresses_pay_to_the_leaf_and_name_the_network() {
    let a = commit_address(b"data", Auth::Anyone, Network::Regtest).unwrap();
    let b = commit_address(b"data", Auth::Anyone, Network::Bitcoin).unwrap();
    let c = commit_address(b"data", Auth::Checksig, Network::Testnet).unwrap();
    assert!(a.text.starts_with("bcrt1p"));
    assert!(b.text.starts_with("bc1p"));
    assert!(c.text.starts_with("tb1p"));
    for network in [Network::Testnet4, Network::Signet] {
        let d = commit_address(b"data", Auth::Anyone, network).unwrap();
        assert!(d.text.starts_with("tb1p"));
        assert_eq!(d.script_pubkey, a.script_pubkey);
    }
    assert_eq!(a.script_pubkey, b.script_pubkey);
    assert_ne!(a.script_pubkey, c.script_pubkey);
    assert_eq!(a.script_pubkey, build_spend_auth(b"data", Auth::Anyone).unwrap().spk);
    let v = commit_address_violation(b"data", Violate::Nothing, Network::Regtest).unwrap();
    assert_eq!(v, a);
    let w = commit_address_violation(b"data", Violate::OpSuccess, Network::Regtest).unwrap();
    assert_ne!(w, a);
    let parsed: bitcoin::Address<bitcoin::address::NetworkUnchecked> = w.text.parse().unwrap();
    assert_eq!(parsed.assume_checked().script_pubkey().to_bytes(), w.script_pubkey);
}

#[test]
fn violating_spend_reveals_the_violating_leaf() {
    let tx = build_spend_violation(
        b"data",
        Violate::PushTooBig,
        dummy_prevout(0),
        10,
        &[0x51],
        3,
        Network::Regtest,
        false,
    )
    .unwrap();
    assert_eq!(tx.input[0].witness[0], build_tapscript_violation(b"data", Violate::PushTooBig));
    assert_eq!(tx.output.len(), 1);
    assert_eq!(tx.output[0].value, 7);
}
