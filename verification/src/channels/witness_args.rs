//! Data in the initial stack of a taproot script-path spend.
//!
//! The payload is cut into items of 256 bytes, the most that an item may have, and they are what the
//! leaf script starts with. The leaf only drops them and pushes `OP_1`:
//!
//! ```text
//! witness = item item ... leaf control-block
//! ```
//!
//! The address depends on the number of items alone.
use crate::addresses;
use crate::addresses::Address;
use crate::addresses::AddressView;
use crate::addresses::Network;
use crate::bip110;
use crate::bytes;
use crate::compliance;
use crate::error;
use crate::error::PackError;
use crate::scripts;
use crate::scripts::Ins;
use crate::taproot;
use crate::taproot_spend;
use crate::stack;
use crate::tx;
use crate::tx::OutPoint;
use crate::tx::OutPointView;
use crate::tx::Transaction;
use crate::tx::TxOut;
use crate::tx::TxOutView;
use crate::tx::TxView;
use vstd::prelude::*;

verus! {

/// The bytes of an item: exactly the cap on witness items.
pub const ARG_SIZE: usize = 256;

/// The most items that a script may start with.
pub const MAX_STACK_SIZE: usize = 1000;

/// The items that carry a payload.
pub open spec fn args(framed: Seq<u8>) -> Seq<Seq<u8>> {
    bytes::chunks(framed, ARG_SIZE as int)
}

/// How many items a payload takes.
pub open spec fn arg_count(framed: Seq<u8>) -> int {
    bytes::chunk_count(framed.len() as int, ARG_SIZE as int)
}

/// `n` times the same instruction.
pub open spec fn repeated(n: int, op: u8) -> Seq<Ins> {
    Seq::new(n as nat, |i: int| Ins::Op(op))
}

/// `{ OP_2DROP }* [ OP_DROP ]? OP_1`, which drops `n` items.
pub open spec fn drops(n: int) -> Seq<Ins> {
    let pairs = repeated(n / 2, scripts::OP_2DROP);
    if n % 2 == 1 {
        pairs.push(Ins::Op(scripts::OP_DROP)).push(Ins::Op(scripts::OP_PUSHNUM_1))
    } else {
        pairs.push(Ins::Op(scripts::OP_PUSHNUM_1))
    }
}

/// The leaf that drops `n` items.
pub open spec fn drop_leaf(n: int) -> Seq<u8> {
    scripts::encode(drops(n))
}

/// Why a payload cannot be carried, if so.
pub open spec fn refusal(framed: Seq<u8>) -> Option<PackError> {
    if arg_count(framed) > MAX_STACK_SIZE {
        Some(
            PackError::TooManyArguments {
                needed: arg_count(framed) as usize,
                max: MAX_STACK_SIZE,
            },
        )
    } else {
        None
    }
}

/// The address to fund, or why there is none.
pub open spec fn commit_outcome(framed: Seq<u8>, network: Network) -> Result<AddressView, PackError> {
    match refusal(framed) {
        Some(e) => Err(e),
        None => Ok(taproot_spend::leaf_address(drop_leaf(arg_count(framed)), network)),
    }
}

/// The witness that carries a payload.
pub open spec fn data_witness(framed: Seq<u8>) -> Seq<Seq<u8>> {
    let leaf = drop_leaf(arg_count(framed));
    args(framed).push(leaf).push(taproot_spend::leaf_control_block(leaf))
}

/// The transaction that reveals a payload.
pub open spec fn reveal_view(framed: Seq<u8>, prevout: OutPointView, value: u64, to: Seq<u8>) -> TxView {
    tx::spending(prevout, data_witness(framed), taproot_spend::payment(value, to))
}

/// The transaction that reveals a payload, or why there is none.
pub open spec fn reveal_outcome(
    framed: Seq<u8>,
    prevout: OutPointView,
    prevout_value: u64,
    to: Seq<u8>,
    fee: u64,
) -> Result<TxView, PackError> {
    match refusal(framed) {
        Some(e) => Err(e),
        None => if fee > prevout_value {
            Err(PackError::FeeExceedsValue { fee, value: prevout_value })
        } else {
            Ok(reveal_view(framed, prevout, (prevout_value - fee) as u64, to))
        },
    }
}

/// The payload that a transaction reveals, or why there is none: all items of the first input but
/// the last two.
pub open spec fn decoded(t: TxView) -> Result<Seq<u8>, PackError> {
    if t.input.len() == 0 {
        Err(PackError::NoInputs)
    } else {
        let items = t.input[0].witness;
        if items.len() < 2 {
            Err(PackError::NoScriptPath(items.len() as usize))
        } else {
            Ok(bytes::joined(items.take(items.len() - 2)))
        }
    }
}

/// Reading a reveal gives the payload back.
pub proof fn law_roundtrip(framed: Seq<u8>, prevout: OutPointView, value: u64, to: Seq<u8>)
    ensures
        decoded(reveal_view(framed, prevout, value, to)) == Ok::<Seq<u8>, PackError>(framed),
{
    let items = data_witness(framed);
    bytes::law_chunks_join(framed, ARG_SIZE as int);
    assert(items.take(items.len() - 2) =~= args(framed));
}

/// The leaf reads back to its drops, and they are all compliant.
proof fn lemma_drop_leaf(n: int)
    requires
        0 <= n,
    ensures
        scripts::parse(drop_leaf(n)) == (drops(n), true),
        bip110::compliant_script(drop_leaf(n)),
{
    scripts::law_parse_encode(drops(n));
}

/// A reveal keeps every rule where the destination is within the output cap.
pub proof fn law_reveal_compliant(framed: Seq<u8>, prevout: OutPointView, value: u64, to: Seq<u8>)
    requires
        bip110::compliant_output(to),
    ensures
        bip110::compliant(reveal_view(framed, prevout, value, to)),
{
    let items = data_witness(framed);
    let leaf = drop_leaf(arg_count(framed));
    bytes::law_chunk_sizes(framed, ARG_SIZE as int);
    lemma_drop_leaf(arg_count(framed));
    assert forall|i: int| 0 <= i < items.len() - 2 implies (#[trigger] items[i]).len()
        <= bip110::MAX_PUSH by {
        assert(items[i] == args(framed)[i]);
    }
    compliance::lemma_leaf_witness_compliant(items, leaf);
}

/// A reveal pays out what it spends less the fee.
pub proof fn law_reveal_value(
    framed: Seq<u8>,
    prevout: OutPointView,
    prevout_value: u64,
    to: Seq<u8>,
    fee: u64,
)
    requires
        fee <= prevout_value,
    ensures
        ({
            let t = reveal_view(framed, prevout, (prevout_value - fee) as u64, to);
            compliance::total_value(t.output, t.output.len() as int) + fee == prevout_value
        }),
{
    reveal_with_fuel(compliance::total_value, 2);
}

/// Run on a stack of `n` items, the leaf for `n` items leaves exactly one, a one.
pub proof fn law_drops_leave_one(n: int, items: Seq<Seq<u8>>)
    requires
        items.len() == n,
    ensures
        stack::run(drops(n), items) == Some(seq![seq![1u8]]),
{
    let pairs = repeated(n / 2, scripts::OP_2DROP);
    lemma_run_pairs(n / 2, items);
    let one = Ins::Op(scripts::OP_PUSHNUM_1);
    let none = Seq::<Seq<u8>>::empty();
    if n % 2 == 1 {
        let b1 = pairs.push(Ins::Op(scripts::OP_DROP));
        assert(b1.drop_last() =~= pairs);
        assert(items.take(1).drop_last() =~= none);
        assert(stack::run(b1, items) == Some(none));
        assert(drops(n).drop_last() =~= b1);
    } else {
        assert(items.take(0) =~= none);
        assert(stack::run(pairs, items) == Some(none));
        assert(drops(n).drop_last() =~= pairs);
    }
    assert(drops(n).last() == one);
    assert(none.push(seq![1u8]) =~= seq![seq![1u8]]);
}

proof fn lemma_run_pairs(k: int, items: Seq<Seq<u8>>)
    requires
        0 <= 2 * k <= items.len(),
    ensures
        stack::run(repeated(k, scripts::OP_2DROP), items) == Some(
            items.take(items.len() - 2 * k),
        ),
    decreases k,
{
    if k == 0 {
        assert(repeated(0, scripts::OP_2DROP) =~= Seq::<Ins>::empty());
        assert(items.take(items.len() as int) =~= items);
    } else {
        lemma_run_pairs(k - 1, items);
        assert(repeated(k, scripts::OP_2DROP).drop_last() =~= repeated(k - 1, scripts::OP_2DROP));
        let s = items.take(items.len() - 2 * (k - 1));
        assert(s.drop_last().drop_last() =~= items.take(items.len() - 2 * k));
    }
}

/// How many items `framed` takes.
pub fn num_args(framed: &[u8]) -> (r: usize)
    ensures
        r == arg_count(framed@),
        r == args(framed@).len(),
        r == (framed@.len() + 255) / 256,
{
    proof {
        bytes::law_chunk_sizes(framed@, ARG_SIZE as int);
    }
    if framed.len() % ARG_SIZE == 0 {
        framed.len() / ARG_SIZE
    } else {
        framed.len() / ARG_SIZE + 1
    }
}

/// The leaf that drops `n_args` items and leaves `OP_1`.
pub fn drop_script(n_args: usize) -> (r: Vec<u8>)
    ensures
        r@ == drop_leaf(n_args as int),
{
    let mut b = scripts::new_builder();
    let mut done: usize = 0;
    let ghost op = Ins::Op(scripts::OP_2DROP);
    proof {
        assert(repeated(0, scripts::OP_2DROP) =~= Seq::<Ins>::empty());
    }
    while done < n_args / 2
        invariant
            done <= n_args / 2,
            op == Ins::Op(scripts::OP_2DROP),
            scripts::builder_bytes(b) == scripts::encode(
                repeated(done as int, scripts::OP_2DROP),
            ),
        decreases n_args - done,
    {
        b = scripts::push_opcode(b, scripts::OP_2DROP);
        proof {
            let l = repeated(done as int, scripts::OP_2DROP);
            scripts::lemma_encode_push(l, op);
            assert(repeated(done + 1, scripts::OP_2DROP) =~= l.push(op));
            assert(scripts::encode(l) + seq![scripts::OP_2DROP] =~= scripts::encode(l).push(
                scripts::OP_2DROP,
            ));
        }
        done = done + 1;
    }
    let ghost l = repeated(n_args as int / 2, scripts::OP_2DROP);
    let ghost one = Ins::Op(scripts::OP_PUSHNUM_1);
    if n_args % 2 == 1 {
        b = scripts::push_opcode(b, scripts::OP_DROP);
        proof {
            let drop = Ins::Op(scripts::OP_DROP);
            scripts::lemma_encode_push(l, drop);
            assert(scripts::encode(l) + seq![scripts::OP_DROP] =~= scripts::encode(l).push(
                scripts::OP_DROP,
            ));
            scripts::lemma_encode_push(l.push(drop), one);
        }
    } else {
        proof {
            scripts::lemma_encode_push(l, one);
        }
    }
    let ghost before = scripts::builder_bytes(b);
    b = scripts::push_opcode(b, scripts::OP_PUSHNUM_1);
    proof {
        assert(before + seq![scripts::OP_PUSHNUM_1] =~= before.push(scripts::OP_PUSHNUM_1));
    }
    scripts::into_bytes(b)
}

/// The leaf for `n_args` items with its control block and its root.
fn build_bundle(n_args: usize) -> (r: Result<(Vec<u8>, Vec<u8>, [u8; 32]), PackError>)
    ensures
        match r {
            Ok(b) => {
                &&& n_args <= MAX_STACK_SIZE
                &&& b.0@ == drop_leaf(n_args as int)
                &&& b.1@ == taproot_spend::leaf_control_block(drop_leaf(n_args as int))
                &&& b.2 == taproot::leaf_hash_of(drop_leaf(n_args as int))
            },
            Err(e) => n_args > MAX_STACK_SIZE && e == (PackError::TooManyArguments {
                needed: n_args,
                max: MAX_STACK_SIZE,
            }),
        },
{
    if n_args > MAX_STACK_SIZE {
        return Err(PackError::TooManyArguments { needed: n_args, max: MAX_STACK_SIZE });
    }
    let key = taproot_spend::internal_key();
    let script = drop_script(n_args);
    let (info, control_block) = taproot::single_leaf(script.as_slice(), &key);
    Ok((script, control_block, info.merkle_root))
}

/// The address whose spend will carry `framed` in its initial stack.
pub fn commit_address(framed: &[u8], network: Network) -> (r: Result<Address, PackError>)
    ensures
        error::outcome(r, commit_outcome(framed@, network)),
        r matches Ok(a) ==> addresses::parsed_address(a.text@, network) == Some(
            Some(a.script_pubkey@),
        ),
{
    let key = taproot_spend::internal_key();
    match build_bundle(num_args(framed)) {
        Ok((_, _, merkle_root)) => Ok(addresses::p2tr(&key, &merkle_root, network)),
        Err(e) => Err(e),
    }
}

/// The transaction that spends `prevout` with `framed` in items in front of a leaf and its control
/// block, and pays `value` to `to`.
pub fn assemble_reveal(
    framed: &[u8],
    script: Vec<u8>,
    control_block: Vec<u8>,
    prevout: OutPoint,
    value: u64,
    to: &[u8],
) -> (r: Transaction)
    ensures
        r@ == tx::spending(
            prevout@,
            args(framed@).push(script@).push(control_block@),
            taproot_spend::payment(value, to@),
        ),
        r@.input.len() == 1,
        r@.input[0].previous_output == prevout@,
        r@.input[0].witness == bytes::chunks(framed@, 256).push(script@).push(control_block@),
        r@.output == seq![TxOutView { value, script_pubkey: to@ }],
{
    let ghost items = args(framed@).push(script@).push(control_block@);
    let mut witness = bytes::split_chunks(framed, ARG_SIZE);
    witness.push(script);
    witness.push(control_block);
    let mut out: Vec<TxOut> = Vec::new();
    out.push(TxOut { value, script_pubkey: bytes::copy_of(to) });
    proof {
        assert(tx::out_views(out@) =~= taproot_spend::payment(value, to@));
        assert(bytes::views(witness@) =~= items);
    }
    tx::single_input_tx(2, prevout, tx::RBF_SEQUENCE, witness, out)
}

/// The transaction that spends `prevout`, carries `framed` in its initial stack and pays
/// `prevout_value - fee` to `to`. Anyone can make it.
pub fn build_reveal(
    framed: &[u8],
    prevout: OutPoint,
    prevout_value: u64,
    to: &[u8],
    fee: u64,
    network: Network,
) -> (r: Result<Transaction, PackError>)
    ensures
        error::outcome(r, reveal_outcome(framed@, prevout@, prevout_value, to@, fee)),
{
    // The transaction is the same on every network.
    let _ = network;
    let (script, control_block, _) = match build_bundle(num_args(framed)) {
        Ok(b) => b,
        Err(e) => {
            return Err(e);
        },
    };
    let value: u64 = match taproot_spend::after_fee(prevout_value, fee) {
        Ok(v) => v,
        Err(e) => {
            return Err(e);
        },
    };
    Ok(assemble_reveal(framed, script, control_block, prevout, value, to))
}

/// The payload that a transaction reveals in the initial stack of its first input.
pub fn decode(t: &Transaction) -> (r: Result<Vec<u8>, PackError>)
    ensures
        error::outcome(r, decoded(t@)),
{
    if t.input.len() == 0 {
        return Err(PackError::NoInputs);
    }
    let witness = &t.input[0].witness;
    let ghost items = bytes::views(witness@);
    proof {
        assert(t@.input[0].witness == items);
    }
    let n: usize = witness.len();
    if n < 2 {
        return Err(PackError::NoScriptPath(n));
    }
    let mut framed: Vec<u8> = Vec::new();
    let mut i: usize = 0;
    proof {
        assert(framed@ =~= bytes::joined(items.take(0)));
    }
    while i < n - 2
        invariant
            2 <= n == witness@.len(),
            i <= n - 2,
            items == bytes::views(witness@),
            framed@ == bytes::joined(items.take(i as int)),
        decreases n - i,
    {
        framed.extend_from_slice(witness[i].as_slice());
        proof {
            assert(items.take(i + 1).drop_last() =~= items.take(i as int));
            assert(items.take(i + 1).last() == witness@[i as int]@);
            assert(framed@ =~= bytes::joined(items.take(i + 1)));
        }
        i = i + 1;
    }
    Ok(framed)
}

} // verus!
