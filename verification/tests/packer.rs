use bip110_packer::bip110;
use bip110_packer::commands;
use bip110_packer::packer::{max_data_for_budget, pack, BLOCK_WEIGHT_LIMIT};
use bip110_packer::tapscript::extract_data;

#[test]
fn small_blob_fits_in_one_tx_under_budget() {
    let data: Vec<u8> = (0..10_000u32).map(|i| i as u8).collect();
    let res = pack(&data).unwrap();
    assert_eq!(res.bytes_packed, data.len());
    assert_eq!(res.txs.len(), 1);
    assert!(res.weight_used < BLOCK_WEIGHT_LIMIT);
}

#[test]
fn cumulative_weight_stays_under_block_limit() {
    let data = vec![0x5Au8; 8_000_000];
    let res = pack(&data).unwrap();
    assert!(
        res.weight_used <= res.budget,
        "weight {} exceeded budget {}",
        res.weight_used,
        res.budget
    );
    assert!(res.weight_used < BLOCK_WEIGHT_LIMIT);
    let sum: u64 = res.txs.iter().map(|t| commands::summarize(t).unwrap().weight).sum();
    assert_eq!(sum, res.weight_used);
    assert!(res.bytes_packed > 3_800_000, "only packed {} bytes", res.bytes_packed);
}

#[test]
fn efficiency_is_near_one_byte_per_weight_unit() {
    let data = vec![0x11u8; 2_000_000];
    let res = pack(&data).unwrap();
    let efficiency = 100.0 * res.bytes_packed as f64 / res.weight_used as f64;
    assert!(
        efficiency > 98.0 && efficiency <= 100.0,
        "efficiency {} out of expected range",
        efficiency
    );
}

#[test]
fn a_block_takes_3958620_bytes() {
    let data = vec![0x42u8; 4_000_000];
    let res = pack(&data).unwrap();
    assert_eq!(res.bytes_packed, 3_958_620);
    assert_eq!(res.txs.len(), 1);
    assert_eq!(res.weight_used, 3_997_849);
    assert_eq!(res.budget, 3_998_000);
    assert_eq!(extract_data(&res.txs[0].input[0].witness[0]).unwrap(), data[..3_958_620]);
    assert_eq!(bip110::validate(&res.txs[0]), Ok(()));
}

#[test]
fn nothing_packs_into_nothing() {
    let res = pack(&[]).unwrap();
    assert_eq!(res.txs.len(), 0);
    assert_eq!(res.bytes_packed, 0);
    assert_eq!(res.weight_used, 0);
}

#[test]
fn capacity_of_small_budgets() {
    assert_eq!(max_data_for_budget(0), 0);
    assert_eq!(max_data_for_budget(423), 0);
    assert_eq!(max_data_for_budget(423 + 514), 0);
    assert_eq!(max_data_for_budget(423 + 515), 510);
    assert_eq!(max_data_for_budget(423 + 1030), 1020);
    assert_eq!(max_data_for_budget(3_998_000), 3_958_620);
}

#[test]
fn one_transaction_weighs_less_than_two() {
    let a = vec![1u8; 1_000];
    let b = vec![2u8; 700];
    let mut both = a.clone();
    both.extend_from_slice(&b);
    let w = |d: &[u8]| pack(d).unwrap().weight_used;
    assert!(w(&both) + 376 < w(&a) + w(&b));
    assert_eq!(w(&[9]), 413 + 1 + 4);
}

#[test]
fn pack_report_adds_up() {
    let data = vec![0x42u8; 4_000_000];
    let rep = commands::pack(&data).unwrap();
    assert_eq!(rep.remaining, 4_000_000 - 3_958_620);
    assert_eq!(rep.lines.len(), 1);
    assert_eq!(rep.lines[0].len(), 2 * rep.serialized);
    let raw = hex::decode(&rep.lines[0]).unwrap();
    let tx: bitcoin::Transaction = bitcoin::consensus::encode::deserialize(&raw).unwrap();
    assert_eq!(tx.weight().to_wu(), rep.packed.weight_used);
    assert_eq!(raw.len(), rep.serialized);
    assert!(rep.accepted);
    assert_eq!(rep.summaries.len(), 1);
    assert_eq!(rep.summaries[0], commands::summarize(&rep.packed.txs[0]).unwrap());
    assert_eq!(rep.summaries[0].violations, vec![]);
    assert_eq!(rep.summaries[0].txid, tx.compute_txid().to_string());
    let empty = commands::pack(&[]).unwrap();
    assert!(empty.accepted && empty.summaries.is_empty());
    assert_eq!((empty.remaining, empty.serialized, empty.lines.len()), (0, 0, 0));
}
