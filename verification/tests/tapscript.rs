use bip110_packer::error::PackError;
use bip110_packer::scripts::{instructions, Instruction as Ins};
use bip110_packer::tapscript::{
    build_envelope, build_tapscript, build_tapscript_auth, build_tapscript_checksig,
    build_tapscript_violation, extract_data,
    extract_ord_payload, reveal_xonly_bytes, Auth, Violate, PROTOCOL_ID,
};
use bitcoin::script::{Instruction, Script};

fn parsed(script: &[u8]) -> Vec<Instruction<'_>> {
    Script::from_bytes(script).instructions().map(|r| r.expect("valid instruction")).collect()
}

#[test]
fn roundtrip_various_lengths() {
    for len in [0usize, 1, 254, 255, 256, 509, 510, 511, 5000, 100_000] {
        let data: Vec<u8> = (0..len).map(|i| (i * 7 + 3) as u8).collect();
        let script = build_tapscript(&data);
        let back = extract_data(&script).expect("valid script");
        assert_eq!(back, data, "roundtrip failed for len {len}");
    }
}

#[test]
fn every_push_at_most_256_bytes() {
    let data: Vec<u8> = (0..50_000u32).map(|i| i as u8).collect();
    let script = build_tapscript(&data);
    for ins in Script::from_bytes(&script).instructions() {
        if let Ok(Instruction::PushBytes(pb)) = ins {
            assert!(pb.as_bytes().len() <= 256, "push exceeded 256 bytes");
        }
    }
}

#[test]
fn no_op_if_or_notif_opcode_present() {
    let data: Vec<u8> = vec![0x63u8; 4000];
    let script = build_tapscript(&data);
    for ins in Script::from_bytes(&script).instructions() {
        if let Ok(Instruction::Op(op)) = ins {
            let b = op.to_u8();
            assert_ne!(b, 0x63, "OP_IF opcode present");
            assert_ne!(b, 0x64, "OP_NOTIF opcode present");
        }
    }
}

#[test]
fn ord_envelope_roundtrip_various_lengths() {
    for len in [0usize, 1, 255, 256, 510, 5000] {
        let data: Vec<u8> = (0..len).map(|i| (i * 13 + 5) as u8).collect();
        let script = build_envelope(&data);
        let back = extract_ord_payload(&script);
        assert_eq!(back, data, "ord envelope roundtrip failed for len {len}");
        for ins in Script::from_bytes(&script).instructions() {
            if let Ok(Instruction::PushBytes(pb)) = ins {
                assert!(pb.as_bytes().len() <= 255, "envelope push > 255 bytes");
            }
        }
    }
}

#[test]
fn auth_none_terminates_with_op_1_and_roundtrips() {
    let data = b"hello ord envelope".to_vec();
    let script = build_tapscript_auth(&data, Auth::Anyone);
    assert_eq!(extract_ord_payload(&script), data);
    let ins = parsed(&script);
    let last = ins.last().expect("non-empty");
    assert!(
        matches!(last, Instruction::Op(op) if *op == bitcoin::opcodes::all::OP_PUSHNUM_1),
        "must end with OP_1"
    );
}

#[test]
fn auth_checksig_has_pubkey_checksig_before_ord_and_no_op_1() {
    let data = b"authenticated data".to_vec();
    let script = build_tapscript_auth(&data, Auth::Checksig);
    let ins = parsed(&script);
    match &ins[0] {
        Instruction::PushBytes(pb) => assert_eq!(pb.as_bytes().len(), 32),
        _ => panic!("first instruction must be the 32-byte pubkey push"),
    }
    assert!(
        matches!(&ins[1], Instruction::Op(op) if *op == bitcoin::opcodes::all::OP_CHECKSIG),
        "second instruction must be OP_CHECKSIG"
    );
    let pid_pos = ins
        .iter()
        .position(|i| matches!(i, Instruction::PushBytes(pb) if pb.as_bytes() == PROTOCOL_ID))
        .expect("protocol id present");
    assert!(pid_pos >= 2, "OP_CHECKSIG/pubkey must precede the ord push");
    assert!(
        !ins.iter()
            .any(|i| matches!(i, Instruction::Op(op) if *op == bitcoin::opcodes::all::OP_PUSHNUM_1)),
        "Auth::Checksig must NOT contain an OP_1 terminator"
    );
    assert_eq!(extract_ord_payload(&script), data);
}

#[test]
fn violation_leaves_roundtrip_and_inject_expected_opcode() {
    let data = b"violation generator payload".to_vec();
    assert_eq!(
        build_tapscript_violation(&data, Violate::Nothing),
        build_tapscript_auth(&data, Auth::Anyone)
    );

    let s = build_tapscript_violation(&data, Violate::PushTooBig);
    assert_eq!(extract_ord_payload(&s), data);
    assert!(
        Script::from_bytes(&s)
            .instructions()
            .any(|i| matches!(i, Ok(Instruction::PushBytes(pb)) if pb.as_bytes().len() == 300)),
        "PushTooBig must contain a 300-byte push"
    );

    let s = build_tapscript_violation(&data, Violate::OpIf);
    assert_eq!(extract_ord_payload(&s), data);
    assert!(
        Script::from_bytes(&s)
            .instructions()
            .any(|i| matches!(i, Ok(Instruction::Op(op)) if op.to_u8() == 0x63)),
        "OpIf must contain OP_IF (0x63)"
    );

    let s = build_tapscript_violation(&data, Violate::OpSuccess);
    assert!(
        Script::from_bytes(&s)
            .instructions()
            .any(|i| matches!(i, Ok(Instruction::Op(op)) if op.to_u8() == 0x62)),
        "OpSuccess must contain OP_VER/OP_SUCCESS98 (0x62)"
    );
}

#[test]
fn ends_with_op_true() {
    let script = build_tapscript(b"hello world");
    let ins = parsed(&script);
    match ins.last().expect("non-empty") {
        Instruction::Op(op) => assert_eq!(*op, bitcoin::opcodes::all::OP_PUSHNUM_1),
        _ => panic!("script did not end with OP_1"),
    }
}

#[test]
fn scripts_are_exact_bytes() {
    assert_eq!(build_tapscript(b""), vec![0x51]);
    assert_eq!(build_tapscript(b"hi"), vec![0x02, b'h', b'i', 0x75, 0x51]);
    assert_eq!(build_envelope(b""), vec![0x03, b'o', b'r', b'd', 0x75]);
    assert_eq!(
        build_envelope(b"hi"),
        vec![0x03, b'o', b'r', b'd', 0x02, b'h', b'i', 0x6d]
    );
    let two = build_envelope(&[7u8; 256]);
    assert_eq!(two[..6], [0x03, b'o', b'r', b'd', 0x4c, 0xff]);
    assert_eq!(two[two.len() - 4..], [0x01, 7, 0x6d, 0x75]);
    assert_eq!(
        build_tapscript_violation(b"", Violate::OpIf),
        vec![0x03, b'o', b'r', b'd', 0x75, 0x51, 0x63, 0x51, 0x68]
    );
    assert_eq!(
        build_tapscript_violation(b"", Violate::OpSuccess),
        vec![0x03, b'o', b'r', b'd', 0x75, 0x51, 0x62]
    );
}

#[test]
fn full_pairs_cost_515_bytes_for_510() {
    for pairs in [0usize, 1, 2, 10] {
        let script = build_tapscript(&vec![3u8; 510 * pairs]);
        assert_eq!(script.len(), 515 * pairs + 1);
    }
    // One byte behind a full pair: a one-byte header, the byte and a drop.
    assert_eq!(build_tapscript(&vec![3u8; 511]).len(), 515 + 3 + 1);
    assert_eq!(build_tapscript(&vec![3u8; 76]).len(), 78 + 1 + 1);
    assert_eq!(build_tapscript(&vec![3u8; 75]).len(), 76 + 1 + 1);
}

#[test]
fn readers_stop_where_a_script_is_cut_short() {
    assert_eq!(extract_data(&[0x02, 1]), Err(PackError::MalformedScript));
    assert_eq!(extract_data(&[0x01, 9, 0x4e, 1, 0]), Err(PackError::MalformedScript));
    assert_eq!(extract_data(&[]), Ok(vec![]));
    assert_eq!(extract_ord_payload(&[0x03, b'o', b'r', b'd', 0x01, 9, 0x05, 1]), vec![9]);
    assert_eq!(extract_ord_payload(&[0x01, 9, 0x75]), Vec::<u8>::new());
    // Only the first identifier opens the payload; a second one is data.
    assert_eq!(
        extract_ord_payload(&[0x03, b'o', b'r', b'd', 0x03, b'o', b'r', b'd']),
        b"ord".to_vec()
    );
}

#[test]
fn instructions_read_all_push_forms() {
    let mut script = vec![0x00, 0x4b];
    script.extend_from_slice(&[1u8; 75]);
    script.extend_from_slice(&[0x4c, 0x02, 5, 6, 0x4d, 0x01, 0x00, 7, 0x4e, 0x01, 0, 0, 0, 8, 0x4f]);
    let (list, complete) = instructions(&script);
    assert!(complete);
    assert_eq!(
        list,
        vec![
            Ins::PushBytes(vec![]),
            Ins::PushBytes(vec![1; 75]),
            Ins::PushBytes(vec![5, 6]),
            Ins::PushBytes(vec![7]),
            Ins::PushBytes(vec![8]),
            Ins::Op(0x4f),
        ]
    );
    let (list, complete) = instructions(&[0x51, 0x4d, 0x01]);
    assert!(!complete);
    assert_eq!(list, vec![Ins::Op(0x51)]);
}

#[test]
fn reveal_key_is_the_public_key_of_its_secret() {
    let secp = bitcoin::key::Secp256k1::new();
    let sk = bitcoin::secp256k1::SecretKey::from_slice(&[2u8; 32]).unwrap();
    let kp = bitcoin::key::Keypair::from_secret_key(&secp, &sk);
    assert_eq!(reveal_xonly_bytes(), kp.x_only_public_key().0.serialize());
}

#[test]
fn defaults_are_open_and_compliant() {
    assert_eq!(Auth::default(), Auth::Anyone);
    assert_eq!(Violate::default(), Violate::Nothing);
}

/// Runs the opcodes that data leaves are made of; gives the stack and its greatest depth.
fn run_leaf(script: &[u8], mut stack: Vec<Vec<u8>>) -> (Vec<Vec<u8>>, usize) {
    let mut deepest = stack.len();
    for ins in parsed(script) {
        match ins {
            Instruction::PushBytes(d) => stack.push(d.as_bytes().to_vec()),
            Instruction::Op(op) => match op.to_u8() {
                0x51 => stack.push(vec![1]),
                0x75 => {
                    stack.pop().unwrap();
                }
                0x6d => {
                    stack.pop().unwrap();
                    stack.pop().unwrap();
                }
                0x63 => assert_eq!(stack.pop().unwrap(), vec![1]),
                0x68 => {}
                0xac => {
                    stack.pop().unwrap();
                    stack.pop().unwrap();
                    stack.push(vec![1]);
                }
                other => panic!("unexpected opcode {other}"),
            },
        }
        deepest = deepest.max(stack.len());
    }
    (stack, deepest)
}

#[test]
fn leaves_leave_exactly_one_true_element() {
    for len in [0usize, 1, 255, 256, 510, 511, 765, 2000] {
        let data = vec![9u8; len];
        let (stack, deepest) = run_leaf(&build_tapscript(&data), vec![]);
        assert_eq!(stack, vec![vec![1]]);
        assert!(deepest <= 2);
        let (stack, deepest) = run_leaf(&build_envelope(&data), vec![vec![7], vec![8]]);
        assert_eq!(stack, vec![vec![7], vec![8]]);
        assert!(deepest <= 2 + 3);
        let (stack, _) = run_leaf(&build_tapscript_auth(&data, Auth::Anyone), vec![]);
        assert_eq!(stack, vec![vec![1]]);
        let (stack, _) = run_leaf(&build_tapscript_auth(&data, Auth::Checksig), vec![vec![5; 64]]);
        assert_eq!(stack, vec![vec![1]]);
        for v in [Violate::Nothing, Violate::PushTooBig, Violate::OpIf] {
            let (stack, _) = run_leaf(&build_tapscript_violation(&data, v), vec![]);
            assert_eq!(stack, vec![vec![1]]);
        }
    }
}

#[test]
fn envelope_stays_open_until_its_last_instruction() {
    for len in [0usize, 1, 255, 256, 510, 511] {
        let script = build_envelope(&vec![9u8; len]);
        let ins = parsed(&script);
        let mut depth = 0i32;
        for (k, i) in ins.iter().enumerate() {
            match i {
                Instruction::PushBytes(_) => depth += 1,
                Instruction::Op(op) if op.to_u8() == 0x75 => depth -= 1,
                Instruction::Op(_) => depth -= 2,
            }
            if k + 1 < ins.len() {
                assert!((1..=3).contains(&depth));
            }
        }
        assert_eq!(depth, 0);
    }
}

#[test]
fn key_check_stands_in_front_of_the_envelope() {
    let script = build_tapscript_checksig(b"hi", &[6; 32]);
    let mut expected = vec![0x20];
    expected.extend_from_slice(&[6; 32]);
    expected.push(0xac);
    expected.extend_from_slice(&build_envelope(b"hi"));
    assert_eq!(script, expected);
    assert_eq!(
        build_tapscript_auth(b"hi", Auth::Checksig),
        build_tapscript_checksig(b"hi", &reveal_xonly_bytes())
    );
}
