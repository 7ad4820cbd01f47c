use bip110_packer::addresses::Network;
use bip110_packer::bip110;
use bip110_packer::channels::{self, Channel};
use bip110_packer::commands::{
    build_spend, build_spend_to, commit, commit_framed, extract, parse_destination, parse_prevout,
    read_tx, resolve_data, spend_framed, summarize, verify, DataSource, ViolateArg,
};
use bip110_packer::error::PackError;
use bip110_packer::framing;
use bip110_packer::taproot_spend;
use bip110_packer::taproot_spend::dummy_prevout;
use bip110_packer::tapscript::{Auth, Violate};
use bip110_packer::tx::{is_encodable, OutPoint};

const TXID: &str = "00112233445566778899aabbccddeeff00112233445566778899AABBCCDDEE01";

const ALL: [Channel; 7] = [
    Channel::Tapleaf,
    Channel::ControlBlock,
    Channel::WitnessArgs,
    Channel::P2wshEnvelope,
    Channel::OpReturn,
    Channel::FakeKey,
    Channel::Stego,
];

fn dest() -> String {
    taproot_spend::commit_address(b"dest", Auth::Anyone, Network::Regtest).unwrap().text
}

fn dest_script() -> Vec<u8> {
    taproot_spend::commit_address(b"dest", Auth::Anyone, Network::Regtest).unwrap().script_pubkey
}

#[test]
fn violate_argument_maps_to_leaf_and_output() {
    assert_eq!(ViolateArg::Nothing.to_leaf(), Violate::Nothing);
    assert_eq!(ViolateArg::Output.to_leaf(), Violate::Nothing);
    assert_eq!(ViolateArg::Push.to_leaf(), Violate::PushTooBig);
    assert_eq!(ViolateArg::Opif.to_leaf(), Violate::OpIf);
    assert_eq!(ViolateArg::Opsuccess.to_leaf(), Violate::OpSuccess);
    assert!(ViolateArg::Output.oversize_output());
    assert!(!ViolateArg::Push.oversize_output());
    assert!(ViolateArg::Nothing.is_none());
    assert!(!ViolateArg::Output.is_none());
}

#[test]
fn data_comes_from_one_source() {
    assert_eq!(resolve_data(true, Some("00")), Err(PackError::TwoSources));
    assert_eq!(resolve_data(false, None), Err(PackError::NoSource));
    assert_eq!(resolve_data(true, None), Ok(DataSource::Input));
    assert_eq!(
        resolve_data(false, Some(" \n00fFA0\t")),
        Ok(DataSource::Bytes(vec![0x00, 0xff, 0xa0]))
    );
    assert_eq!(resolve_data(false, Some("")), Ok(DataSource::Bytes(vec![])));
    assert_eq!(resolve_data(false, Some("0")), Err(PackError::BadHex));
    assert_eq!(resolve_data(false, Some("zz")), Err(PackError::BadHex));
    assert_eq!(resolve_data(false, Some("00 11")), Err(PackError::BadHex));
}

#[test]
fn prevouts_are_read_as_txid_and_vout() {
    let p: OutPoint = parse_prevout(&format!("{TXID}:7")).unwrap();
    assert_eq!(p.vout, 7);
    assert_eq!(p.txid[..4], [0x01, 0xee, 0xdd, 0xcc]);
    assert_eq!(p.txid[31], 0x00);
    assert_eq!(parse_prevout(&format!("{TXID}:+4294967295")).unwrap().vout, u32::MAX);
    assert_eq!(parse_prevout(&format!("{TXID}:007")).unwrap().vout, 7);
    assert_eq!(parse_prevout(TXID), Err(PackError::BadPrevout));
    assert_eq!(parse_prevout(""), Err(PackError::BadPrevout));
    assert_eq!(parse_prevout("00:1"), Err(PackError::BadTxid));
    assert_eq!(parse_prevout(&format!("{TXID}0:1")), Err(PackError::BadTxid));
    assert_eq!(parse_prevout(&format!("{TXID}:1:2")), Err(PackError::BadTxid));
    for bad in ["", "+", "-1", "x", "1 ", "4294967296", "99999999999999999999999"] {
        assert_eq!(parse_prevout(&format!("{TXID}:{bad}")), Err(PackError::BadVout), "{bad}");
    }
}

#[test]
fn destinations_belong_to_a_network() {
    assert_eq!(parse_destination(&dest(), Network::Regtest), Ok(dest_script()));
    assert_eq!(parse_destination(&dest(), Network::Bitcoin), Err(PackError::WrongNetwork));
    assert_eq!(parse_destination("nonsense", Network::Regtest), Err(PackError::BadAddress));
    let legacy = "1A1zP1eP5QGefi2DMPTfTL5SLmv7DivfNa";
    let spk = parse_destination(legacy, Network::Bitcoin).unwrap();
    assert_eq!(spk.len(), 25);
    assert_eq!(spk[..3], [0x76, 0xa9, 0x14]);
    assert_eq!(parse_destination(legacy, Network::Testnet), Err(PackError::WrongNetwork));
}

#[test]
fn built_transactions_give_their_data_back() {
    let data: Vec<u8> = (0..200u32).map(|i| (i * 3) as u8).collect();
    for channel in ALL {
        for compress in [false, true] {
            let rep = build_spend(
                &data,
                Auth::Anyone,
                Network::Regtest,
                channel,
                compress,
                &format!("{TXID}:1"),
                20_000_000,
                1_000,
                &dest(),
                ViolateArg::Nothing,
            )
            .unwrap();
            assert!(rep.accepted, "{channel:?}");
            assert_eq!(rep.framed_len, framing::frame(&data, compress).len());
            let (back, framed_len) = extract(&rep.hex, channel).unwrap();
            assert_eq!(back, data, "{channel:?}");
            assert_eq!(framed_len, rep.framed_len);
            let (again, _) = extract(&format!("  {}\n", rep.hex), channel).unwrap();
            assert_eq!(again, data);
            assert_eq!(read_tx(&rep.hex), Ok(rep.tx));
        }
    }
}

#[test]
fn checksig_reveal_gives_its_data_back() {
    let rep = build_spend_to(
        b"gated",
        Auth::Checksig,
        Network::Testnet,
        Channel::Tapleaf,
        false,
        dummy_prevout(0),
        1_000,
        &dest_script(),
        10,
        ViolateArg::Nothing,
    )
    .unwrap();
    assert_eq!(rep.tx.input[0].witness.len(), 3);
    assert_eq!(extract(&rep.hex, Channel::Tapleaf), Ok((b"gated".to_vec(), 6)));
}

#[test]
fn summary_agrees_with_the_outside_library() {
    for channel in ALL {
        let rep = build_spend_to(
            b"summary",
            Auth::Anyone,
            Network::Regtest,
            channel,
            false,
            dummy_prevout(9),
            1_000_000,
            &dest_script(),
            77,
            ViolateArg::Nothing,
        )
        .unwrap();
        let raw = hex::decode(&rep.hex).unwrap();
        let tx: bitcoin::Transaction = bitcoin::consensus::encode::deserialize(&raw).unwrap();
        assert_eq!(rep.summary.txid, tx.compute_txid().to_string());
        assert_eq!(rep.summary.weight, tx.weight().to_wu());
        assert_eq!(rep.summary.vsize, tx.vsize() as u64);
        assert_eq!(rep.summary.inputs, tx.input.len());
        assert_eq!(rep.summary.outputs, tx.output.len());
        assert_eq!(verify(&rep.hex), Ok(rep.summary.clone()));
        assert!(is_encodable(&rep.tx));
        assert_eq!(summarize(&rep.tx), Ok(rep.summary));
    }
}

#[test]
fn verify_reads_a_known_transaction() {
    // The first transaction that spent an output, in block 170.
    let txhex = "0100000001c997a5e56e104102fa209c6a852dd90660a20b2d9c352423edce25857fcd3704000000004847304402204e45e16932b8af514961a1d3a1a25fdf3f4f7732e9d624c6c61548ab5fb8cd410220181522ec8eca07de4860a4acdd12909d831cc56cbbac4622082221a8768d1d0901ffffffff0200ca9a3b00000000434104ae1a62fe09c5f51b13905f07f06b99a2f7159b2225f374cd378d71302fa28414e7aab37397f554a7df5f142c21c1b7303b8a0626f1baded5c72a704f7e6cd84cac00286bee0000000043410411db93e1dcdb8a016b49840f8c53bc1eb68a382e97b1482ecad7b148a6909a5cb2e0eaddfb84ccf9744464f82e160bfa9b8b64f9d4c03f999b8643f656b412a3ac00000000";
    let s = verify(txhex).unwrap();
    assert_eq!(s.txid, "f4184fc596403b9d638783cf57adfe4c75c605f6356fbc91338530e9831e9e16");
    assert_eq!((s.inputs, s.outputs), (1, 2));
    assert_eq!(s.weight, 4 * 275);
    assert_eq!(s.vsize, 275);
    assert_eq!(s.violations.len(), 2);
    assert_eq!(s.violations[0].to_text(), "[C1] output 0: scriptPubKey 67 bytes > 34");
    assert_eq!(extract(txhex, Channel::Tapleaf), Err(PackError::NoScriptPath(0)));
}

#[test]
fn unreadable_transactions_are_refused() {
    assert_eq!(verify("xx"), Err(PackError::BadHex));
    assert_eq!(verify("00"), Err(PackError::BadTransaction));
    assert_eq!(extract("0", Channel::Stego), Err(PackError::BadHex));
    assert_eq!(extract("", Channel::Stego), Err(PackError::BadTransaction));
}

#[test]
fn extract_passes_channel_and_frame_errors_on() {
    let tx = taproot_spend::build_tx(b"\x07odd header", dummy_prevout(0)).unwrap();
    let bundle = taproot_spend::build_spend(b"\x07odd header").unwrap();
    assert_eq!(tx.input[0].witness[0], bundle.script);
    let rep = spend_framed(
        b"",
        b"\x07odd header",
        Auth::Anyone,
        Network::Regtest,
        Channel::FakeKey,
        dummy_prevout(0),
        10_000,
        &[0x51],
        0,
        ViolateArg::Nothing,
    )
    .unwrap();
    assert_eq!(channels::decode(Channel::FakeKey, &rep), Ok(b"\x07odd header".to_vec()));
    assert_eq!(
        framing::unframe(&channels::decode(Channel::FakeKey, &rep).unwrap()),
        Err(PackError::UnknownHeader(7))
    );
}

#[test]
fn commit_gives_the_address_of_the_channel() {
    let data = b"commit me".to_vec();
    let framed = framing::frame(&data, false);
    for channel in ALL {
        let (addr, n) = commit(
            &data,
            Auth::Anyone,
            Network::Regtest,
            channel,
            false,
            ViolateArg::Nothing,
        )
        .unwrap();
        assert_eq!(n, framed.len());
        assert_eq!(addr, channels::commit_address(channel, &framed, Network::Regtest).unwrap());
    }
    let (gated, _) = commit(
        &data,
        Auth::Checksig,
        Network::Regtest,
        Channel::Tapleaf,
        false,
        ViolateArg::Nothing,
    )
    .unwrap();
    assert_eq!(
        gated.unwrap(),
        taproot_spend::commit_address(&framed, Auth::Checksig, Network::Regtest).unwrap()
    );
}

#[test]
fn violations_use_the_data_itself_and_the_tapleaf_only() {
    let data = b"violate".to_vec();
    let (addr, _) = commit(
        &data,
        Auth::Checksig,
        Network::Regtest,
        Channel::Tapleaf,
        true,
        ViolateArg::Opif,
    )
    .unwrap();
    assert_eq!(
        addr.unwrap(),
        taproot_spend::commit_address_violation(&data, Violate::OpIf, Network::Regtest).unwrap()
    );
    assert_eq!(
        commit_framed(
            &data,
            &data,
            Auth::Anyone,
            Network::Regtest,
            Channel::Stego,
            ViolateArg::Push
        ),
        Err(PackError::ViolationNeedsTapleaf)
    );
    for (arg, rule) in [
        (ViolateArg::Push, "C3"),
        (ViolateArg::Opif, "C8"),
        (ViolateArg::Opsuccess, "C7"),
        (ViolateArg::Output, "C1"),
    ] {
        let rep = build_spend_to(
            &data,
            Auth::Checksig,
            Network::Regtest,
            Channel::Tapleaf,
            true,
            dummy_prevout(0),
            5_000,
            &dest_script(),
            500,
            arg,
        )
        .unwrap();
        assert!(rep.accepted, "a violation that was asked for is handed out");
        assert_eq!(rep.summary.violations.len(), 1);
        assert_eq!(rep.summary.violations[0].rule, rule);
        assert_eq!(rep.tx.output[0].value, 4_500);
    }
    assert_eq!(
        build_spend_to(
            &data,
            Auth::Anyone,
            Network::Regtest,
            Channel::FakeKey,
            false,
            dummy_prevout(0),
            5_000,
            &dest_script(),
            500,
            ViolateArg::Output
        ),
        Err(PackError::ViolationNeedsTapleaf)
    );
}

#[test]
fn build_spend_refuses_in_order() {
    let b = |prevout: &str, to: &str, fee: u64| {
        build_spend(
            b"x",
            Auth::Anyone,
            Network::Regtest,
            Channel::Tapleaf,
            false,
            prevout,
            100,
            fee,
            to,
            ViolateArg::Nothing,
        )
    };
    let good = format!("{TXID}:0");
    assert_eq!(b("none", "none", 101).unwrap_err(), PackError::BadPrevout);
    assert_eq!(b("a:0", "none", 101).unwrap_err(), PackError::BadTxid);
    assert_eq!(b(&good, "none", 101).unwrap_err(), PackError::BadAddress);
    assert_eq!(
        b(&good, &dest(), 101).unwrap_err(),
        PackError::FeeExceedsValue { fee: 101, value: 100 }
    );
    assert!(b(&good, &dest(), 100).is_ok());
}

#[test]
fn a_rule_broken_by_the_destination_is_not_accepted() {
    let rep = build_spend_to(
        b"x",
        Auth::Anyone,
        Network::Regtest,
        Channel::Tapleaf,
        false,
        dummy_prevout(0),
        100,
        &[0u8; 35],
        1,
        ViolateArg::Nothing,
    )
    .unwrap();
    assert!(!rep.accepted);
    assert_eq!(bip110::validate(&rep.tx).unwrap_err(), rep.summary.violations);
}

#[test]
fn white_space_around_hex_is_ignored() {
    let rep = build_spend_to(
        b"space",
        Auth::Anyone,
        Network::Signet,
        Channel::Tapleaf,
        false,
        dummy_prevout(0),
        1_000,
        &dest_script(),
        10,
        ViolateArg::Nothing,
    )
    .unwrap();
    // Every code point at the ends of the ranges of white space.
    let white = "\u{9}\u{d}\u{20}\u{85}\u{a0}\u{1680}\u{2000}\u{200a}\u{2028}\u{2029}\u{202f}\u{205f}\u{3000}";
    let text = format!("{white}{}{white}", rep.hex);
    assert_eq!(read_tx(&text), Ok(rep.tx));
    assert_eq!(extract(&text, Channel::Tapleaf), Ok((b"space".to_vec(), 6)));
    assert_eq!(resolve_data(false, Some(&format!("{white}0a{white}"))), Ok(DataSource::Bytes(vec![10])));
    assert_eq!(resolve_data(false, Some(white)), Ok(DataSource::Bytes(vec![])));
    // Not white space: a zero-width space, a byte-order mark, a unit separator.
    for c in ["\u{200b}", "\u{feff}", "\u{1f}", "\u{180e}"] {
        assert_eq!(resolve_data(false, Some(&format!("0a{c}"))), Err(PackError::BadHex));
    }
}

#[test]
fn white_space_is_exactly_what_the_property_has() {
    let listed = |c: char| {
        matches!(c as u32, 0x09..=0x0d | 0x20 | 0x85 | 0xa0 | 0x1680 | 0x2000..=0x200a | 0x2028
            | 0x2029 | 0x202f | 0x205f | 0x3000)
    };
    for c in '\0'..=char::MAX {
        let gone = resolve_data(false, Some(c.encode_utf8(&mut [0; 4]))) == Ok(DataSource::Bytes(vec![]));
        assert_eq!(gone, listed(c), "{:x}", c as u32);
    }
}

#[test]
fn commit_address_is_what_the_spend_reveals() {
    let secp = bitcoin::key::Secp256k1::new();
    for auth in [Auth::Anyone, Auth::Checksig] {
        for violate in [
            ViolateArg::Nothing,
            ViolateArg::Push,
            ViolateArg::Opif,
            ViolateArg::Opsuccess,
            ViolateArg::Output,
        ] {
            let (addr, _) =
                commit(b"agree", auth, Network::Testnet4, Channel::Tapleaf, true, violate).unwrap();
            let rep = build_spend_to(
                b"agree",
                auth,
                Network::Testnet4,
                Channel::Tapleaf,
                true,
                dummy_prevout(0),
                1_000,
                &dest_script(),
                10,
                violate,
            )
            .unwrap();
            let items = &rep.tx.input[0].witness;
            let cb = bitcoin::taproot::ControlBlock::decode(&items[items.len() - 1]).unwrap();
            let key = bitcoin::secp256k1::XOnlyPublicKey::from_slice(
                &addr.unwrap().script_pubkey[2..],
            )
            .unwrap();
            let leaf = bitcoin::Script::from_bytes(&items[items.len() - 2]);
            assert!(cb.verify_taproot_commitment(&secp, key, leaf), "{auth:?} {violate:?}");
        }
    }
}
