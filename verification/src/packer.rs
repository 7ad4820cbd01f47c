//! Filling a block with data-carrying transactions.
use crate::bip110;
use crate::bytes;
use crate::compliance;
use crate::error::PackError;
use crate::scripts;
use crate::taproot_spend;
use crate::tapscript;
use crate::tx;
use crate::tx::OutPointView;
use crate::tx::Transaction;
use vstd::prelude::*;

verus! {

/// The consensus limit on the weight of a block.
pub const BLOCK_WEIGHT_LIMIT: u64 = 4_000_000;

/// The weight kept free for the coinbase transaction.
pub const COINBASE_RESERVE: u64 = 2_000;

/// The script bytes of a full pair of chunks: two pushes and the drop.
pub const PAIR_SCRIPT_BYTES: u64 = 515;

/// The data bytes of a full pair of chunks.
pub const PAIR_DATA_BYTES: u64 = 510;

/// The weight kept free for the longer length prefix of a longer script.
pub const PREFIX_MARGIN: u64 = 8;

/// What was packed.
#[derive(Debug, Clone, PartialEq, Eq)]
pub struct PackResult {
    /// The transactions, ready for a block.
    pub txs: Vec<Transaction>,
    /// How many bytes of data they carry.
    pub bytes_packed: usize,
    /// Their weight together.
    pub weight_used: u64,
    /// The weight that was free for them.
    pub budget: u64,
}

/// The weight that is free for data transactions.
pub open spec fn data_budget() -> int {
    BLOCK_WEIGHT_LIMIT - COINBASE_RESERVE
}

/// The weight of the transaction that carries `len` bytes: 376 for what is no witness, the
/// remaining fixed part of the witness, and the script with its length prefix.
pub open spec fn data_tx_weight(len: int) -> int {
    413 + tx::compact_size(tapscript::plain_leaf_size(len)) + tapscript::plain_leaf_size(len)
}

/// The most data, in full pairs of chunks, that a transaction of weight `budget` is filled with.
pub open spec fn capacity(budget: int) -> int {
    if budget <= data_tx_weight(0) + PREFIX_MARGIN {
        0
    } else {
        (budget - data_tx_weight(0) - PREFIX_MARGIN) / (PAIR_SCRIPT_BYTES as int) * PAIR_DATA_BYTES
    }
}

/// How much of `len` bytes goes into one block.
pub open spec fn packed_len(len: int) -> int {
    if len <= capacity(data_budget()) {
        len
    } else {
        capacity(data_budget())
    }
}

/// The first `n` transactions together.
pub open spec fn total_weight(txs: Seq<Transaction>, n: int) -> int
    decreases n,
{
    if n <= 0 {
        0
    } else {
        total_weight(txs, n - 1) + tx::tx_weight(txs[n - 1]@)
    }
}

/// The weight of a data transaction depends on the number of its data bytes alone.
pub proof fn law_data_tx_weight(data: Seq<u8>, prevout: OutPointView)
    ensures
        tx::tx_weight(taproot_spend::data_tx(data, prevout)) == data_tx_weight(data.len() as int),
        tapscript::plain_leaf_size(data.len() as int) <= 0x4000_0000 ==> tx::witnesses_fit(
            taproot_spend::data_tx(data, prevout),
        ),
{
    let t = taproot_spend::data_tx(data, prevout);
    let script = scripts::encode(tapscript::plain_leaf(data));
    let items = t.input[0].witness;
    tapscript::law_plain_leaf_size(data);
    compliance::law_leaf_control_block(script);
    compliance::law_leaf_spk(script);
    reveal_with_fuel(tx::items_size, 3);
    reveal_with_fuel(tx::inputs_size, 2);
    reveal_with_fuel(tx::outputs_size, 2);
    reveal_with_fuel(tx::witnesses_size, 2);
    assert(items[0] == script);
    assert(tx::items_size(items, 2) == tx::prefixed_size(script) + 34);
    assert(tx::uses_segwit(t)) by {
        assert(t.input[0].witness.len() > 0);
    }
    assert(tx::base_size(t) == 94);
    assert(tx::witness_part_size(t) == 2 + 1 + tx::prefixed_size(script) + 34);
}

/// The size of a leaf of at most `pairs` full pairs of chunks.
proof fn lemma_leaf_size_bound(len: int, pairs: int)
    requires
        0 <= len <= 510 * pairs,
    ensures
        1 <= tapscript::plain_leaf_size(len) <= 515 * pairs + 1,
        len == 510 * pairs ==> tapscript::plain_leaf_size(len) == 515 * pairs + 1,
{
    let count = bytes::chunk_count(len, tapscript::CHUNK_SIZE as int);
    assert(count == (len + 254) / 255);
    assert(count <= 2 * pairs);
    if len > 0 {
        assert(count >= 1);
        assert(255 * (count - 1) < len <= 255 * count);
        if len == 510 * pairs {
            assert(count == 2 * pairs);
        }
    }
}

/// Data within the capacity of a budget makes a transaction within the budget.
pub proof fn law_capacity_fits(len: int, budget: int)
    requires
        0 <= len <= capacity(budget),
        len == 0 ==> data_tx_weight(0) <= budget,
        budget <= BLOCK_WEIGHT_LIMIT,
    ensures
        data_tx_weight(len) <= budget,
        tapscript::plain_leaf_size(len) <= 0x4000_0000,
{
    if len > 0 {
        lemma_leaf_size_bound(len, (budget - 423) / 515);
    }
}

/// A block takes 3,958,620 bytes of data, and what a full transaction leaves of it has no room for
/// another one.
pub proof fn law_block_capacity()
    ensures
        capacity(data_budget()) == 3_958_620,
        capacity(data_budget() - data_tx_weight(3_958_620)) == 0,
        data_tx_weight(3_958_620) <= data_budget(),
        100 * 3_958_620 >= 99 * data_tx_weight(3_958_620),
{
    lemma_leaf_size_bound(3_958_620, 7762);
}

/// Data of at most 3,958,620 bytes goes into one block whole, and of more data just the first
/// 3,958,620 bytes do. Whatever is left over, the block has no room for another full pair of chunks
/// beside the transaction that carries them.
pub proof fn law_a_block_takes_all_that_fits(data: Seq<u8>, prevout: OutPointView)
    ensures
        data.len() <= 3_958_620 ==> packed_len(data.len() as int) == data.len(),
        data.len() > 3_958_620 ==> packed_len(data.len() as int) == 3_958_620,
        data.len() == 3_958_620 ==> {
            let weight = tx::tx_weight(taproot_spend::data_tx(data, prevout));
            weight <= 3_998_000 < weight + 515
        },
        data.len() <= 3_958_620 ==> tx::tx_weight(taproot_spend::data_tx(data, prevout))
            <= 3_998_000,
{
    law_block_capacity();
    law_data_tx_weight(data, prevout);
    lemma_leaf_size_bound(3_958_620, 7762);
    if data.len() <= 3_958_620 {
        law_capacity_fits(data.len() as int, data_budget());
    }
}

/// The capacity of a budget is counted in full pairs of chunks. Data within it makes a transaction
/// within the budget, and one pair more makes one that is over the budget or within eight of it.
pub proof fn law_capacity_is_all_that_fits(budget: int, data: Seq<u8>, prevout: OutPointView)
    requires
        0 <= budget,
    ensures
        capacity(budget) % 510 == 0,
        0 < data.len() <= capacity(budget) ==> tx::tx_weight(taproot_spend::data_tx(data, prevout))
            <= budget,
        data.len() == capacity(budget) + 510 ==> budget < tx::tx_weight(
            taproot_spend::data_tx(data, prevout),
        ) + 8,
        capacity(budget) == 0 <==> budget < 938,
{
    let pairs: int = if budget <= 423 {
        0
    } else {
        (budget - 423) / 515
    };
    law_data_tx_weight(data, prevout);
    assert(capacity(budget) == 510 * pairs);
    if 0 < data.len() <= capacity(budget) {
        lemma_leaf_size_bound(data.len() as int, pairs);
    }
    if data.len() == capacity(budget) + 510 {
        lemma_leaf_size_bound(data.len() as int, pairs + 1);
    }
}

/// Splitting data over two transactions costs more weight than carrying it in one.
pub proof fn law_one_transaction_is_densest(a: int, b: int)
    requires
        0 <= a,
        0 <= b,
    ensures
        data_tx_weight(a + b) + 376 < data_tx_weight(a) + data_tx_weight(b),
{
    let n = tapscript::CHUNK_SIZE as int;
    let ca = bytes::chunk_count(a, n);
    let cb = bytes::chunk_count(b, n);
    let c = bytes::chunk_count(a + b, n);
    assert(ca == (a + 254) / 255);
    assert(cb == (b + 254) / 255);
    assert(c == (a + b + 254) / 255);
    assert(c <= ca + cb);
}

/// Data never takes less than one unit of weight for each byte, and from 50,000 bytes on at least 98
/// of 100 units carry data.
pub proof fn law_efficiency(len: int)
    requires
        0 <= len,
    ensures
        len < data_tx_weight(len),
        len >= 50_000 ==> 100 * len >= 98 * data_tx_weight(len),
{
    let count = bytes::chunk_count(len, tapscript::CHUNK_SIZE as int);
    assert(count == (len + 254) / 255);
}

/// The most data, in full pairs of chunks, that a transaction of weight `budget` is filled with.
pub fn max_data_for_budget(budget: u64) -> (r: usize)
    requires
        capacity(budget as int) <= usize::MAX,
    ensures
        r == capacity(budget as int),
        r == (if budget <= 423 {
            0
        } else {
            (budget - 423) / 515 * 510
        }),
{
    let empty: [u8; 0] = [];
    let prevout = taproot_spend::dummy_prevout(0);
    let base: u64 = match taproot_spend::build_tx(empty.as_slice(), prevout) {
        Ok(t) => {
            proof {
                law_data_tx_weight(empty@, prevout@);
            }
            tx::weight(&t)
        },
        Err(_) => 0,
    };
    if budget <= base + PREFIX_MARGIN {
        return 0;
    }
    let pairs: u64 = (budget - base - PREFIX_MARGIN) / PAIR_SCRIPT_BYTES;
    (pairs * PAIR_DATA_BYTES) as usize
}

/// Packs `data` into the transactions of one block. Where it is more than a block holds, the part in
/// front that fits is packed.
pub fn pack(data: &[u8]) -> (r: Result<PackResult, PackError>)
    ensures
        r is Ok,
        ({
            let p = r->Ok_0;
            let n = packed_len(data@.len() as int);
            &&& p.bytes_packed == n
            &&& p.budget == data_budget()
            &&& p.txs@.len() == (if data@.len() == 0 {
                0nat
            } else {
                1nat
            })
            &&& data@.len() > 0 ==> p.txs@[0]@ == taproot_spend::data_tx(
                data@.take(n),
                taproot_spend::dummy_outpoint(0),
            )
            &&& p.weight_used == total_weight(p.txs@, p.txs@.len() as int)
            &&& p.weight_used == (if data@.len() == 0 {
                0
            } else {
                data_tx_weight(n)
            })
            &&& p.weight_used <= p.budget
            &&& forall|i: int|
                0 <= i < p.txs@.len() ==> bip110::compliant(#[trigger] p.txs@[i]@)
                    && tx::encodable(p.txs@[i]@)
        }),
        ({
            let p = r->Ok_0;
            &&& data@.len() <= 3_958_620 ==> p.bytes_packed == data@.len()
            &&& data@.len() > 3_958_620 ==> p.bytes_packed == 3_958_620
            &&& p.budget == 3_998_000
            &&& p.bytes_packed < data@.len() ==> p.budget - p.weight_used < 515
            &&& data@.len() == 0 ==> p.txs@.len() == 0 && p.weight_used == 0
            &&& data@.len() > 0 ==> {
                let t = p.txs@[0]@;
                &&& p.txs@.len() == 1
                &&& p.weight_used == tx::tx_weight(t)
                &&& t.input.len() == 1
                &&& t.input[0].witness.len() == 2
                &&& scripts::parse(t.input[0].witness[0]).1
                &&& scripts::script_pushes(t.input[0].witness[0]) == data@.take(
                    p.bytes_packed as int,
                )
            }
        }),
{
    let budget: u64 = BLOCK_WEIGHT_LIMIT - COINBASE_RESERVE;
    let mut used: u64 = 0;
    let mut txs: Vec<Transaction> = Vec::new();
    let mut offset: usize = 0;
    let ghost n = packed_len(data@.len() as int);
    proof {
        law_block_capacity();
    }
    while offset < data.len()
        invariant
            budget == data_budget(),
            n == packed_len(data@.len() as int),
            capacity(data_budget()) == 3_958_620,
            capacity(data_budget() - data_tx_weight(3_958_620)) == 0,
            data_tx_weight(3_958_620) <= data_budget(),
            offset <= data@.len(),
            ({
                ||| txs@.len() == 0 && offset == 0 && used == 0
                ||| {
                    &&& txs@.len() == 1
                    &&& data@.len() > 0
                    &&& offset == n
                    &&& used == data_tx_weight(n)
                    &&& used <= budget
                    &&& tx::tx_weight(txs@[0]@) == used
                    &&& tx::encodable(txs@[0]@)
                    &&& txs@[0]@ == taproot_spend::data_tx(
                        data@.take(n),
                        taproot_spend::dummy_outpoint(0),
                    )
                }
            }),
        ensures
            data@.len() == 0 <==> txs@.len() == 0,
        decreases data@.len() - offset,
    {
        let remaining: u64 = budget - used;
        let cap: usize = max_data_for_budget(remaining);
        if cap == 0 {
            break;
        }
        let left: usize = data.len() - offset;
        let take: usize = if cap <= left {
            cap
        } else {
            left
        };
        let prevout = taproot_spend::dummy_prevout(txs.len() as u32);
        let part = vstd::slice::slice_subrange(data, offset, offset + take);
        let t = match taproot_spend::build_tx(part, prevout) {
            Ok(t) => t,
            Err(e) => {
                return Err(e);
            },
        };
        proof {
            assert(part@ =~= data@.take(n));
            law_data_tx_weight(part@, prevout@);
            law_capacity_fits(take as int, remaining as int);
        }
        let w: u64 = tx::weight(&t);
        used = used + w;
        offset = offset + take;
        txs.push(t);
    }
    proof {
        reveal_with_fuel(total_weight, 2);
        compliance::law_data_tx_compliant(data@.take(n), taproot_spend::dummy_outpoint(0));
        compliance::law_data_tx_roundtrip(data@.take(n), taproot_spend::dummy_outpoint(0));
        tapscript::law_plain_leaf_roundtrip(data@.take(n));
        lemma_leaf_size_bound(3_958_620, 7762);
    }
    Ok(PackResult { txs, bytes_packed: offset, weight_used: used, budget })
}

} // verus!
