//! Data in the witness script of a version 0 output.
//!
//! ```text
//! OP_FALSE OP_IF push push ... OP_ENDIF OP_TRUE
//! ```
//!
//! The branch is never taken, so the pushes are not executed, and one true element is left. A script
//! of this version may have at most 10,000 bytes. The item check of `bip110` does not know the
//! exemption of witness scripts, so it passes a reveal only where the script is within the item cap.
use crate::addresses;
use crate::addresses::Address;
use crate::addresses::AddressView;
use crate::addresses::Network;
use crate::bip110;
use crate::bytes;
use crate::compliance;
use crate::error;
use crate::error::PackError;
use crate::scripts;
use crate::scripts::Ins;
use crate::scripts::Instruction;
use crate::stack;
use crate::taproot_spend;
use crate::tapscript;
use crate::tx;
use crate::tx::OutPoint;
use crate::tx::OutPointView;
use crate::tx::Transaction;
use crate::tx::TxOut;
use crate::tx::TxView;
use vstd::prelude::*;

verus! {

/// The most bytes that a witness script may have.
pub const MAX_WITNESS_SCRIPT: usize = 10_000;

/// A push of each chunk.
pub open spec fn pushes(c: Seq<Seq<u8>>) -> Seq<Ins> {
    Seq::new(c.len(), |i: int| Ins::Push(c[i]))
}

/// `OP_FALSE OP_IF`, which opens the envelope; `OP_FALSE` is the push of nothing.
pub open spec fn opening() -> Seq<Ins> {
    seq![Ins::Push(Seq::empty()), Ins::Op(scripts::OP_IF)]
}

/// `OP_ENDIF OP_TRUE`, which closes it.
pub open spec fn closing() -> Seq<Ins> {
    seq![Ins::Op(scripts::OP_ENDIF), Ins::Op(scripts::OP_PUSHNUM_1)]
}

/// The instructions that carry a payload.
pub open spec fn envelope(framed: Seq<u8>) -> Seq<Ins> {
    opening() + pushes(tapscript::data_chunks(framed)) + closing()
}

/// The witness script that carries a payload.
pub open spec fn data_script(framed: Seq<u8>) -> Seq<u8> {
    scripts::encode(envelope(framed))
}

/// Why a payload cannot be carried, if so.
pub open spec fn refusal(framed: Seq<u8>) -> Option<PackError> {
    if data_script(framed).len() > MAX_WITNESS_SCRIPT {
        Some(
            PackError::WitnessScriptTooLarge {
                payload: framed.len() as usize,
                script: data_script(framed).len() as usize,
                max: MAX_WITNESS_SCRIPT,
            },
        )
    } else {
        None
    }
}

/// The address to fund, or why there is none.
pub open spec fn commit_outcome(framed: Seq<u8>, network: Network) -> Result<AddressView, PackError> {
    match refusal(framed) {
        Some(e) => Err(e),
        None => Ok(addresses::p2wsh_of(data_script(framed), network)),
    }
}

/// The transaction that reveals a payload.
pub open spec fn reveal_view(framed: Seq<u8>, prevout: OutPointView, value: u64, to: Seq<u8>) -> TxView {
    tx::spending(prevout, seq![data_script(framed)], taproot_spend::payment(value, to))
}

/// The transaction that reveals a payload, or why there is none.
pub open spec fn reveal_outcome(
    framed: Seq<u8>,
    prevout: OutPointView,
    prevout_value: u64,
    to: Seq<u8>,
    fee: u64,
) -> Result<TxView, PackError> {
    match refusal(framed) {
        Some(e) => Err(e),
        None => if fee > prevout_value {
            Err(PackError::FeeExceedsValue { fee, value: prevout_value })
        } else {
            Ok(reveal_view(framed, prevout, (prevout_value - fee) as u64, to))
        },
    }
}

/// What is pushed behind the first `OP_IF` and before the first `OP_ENDIF`, and whether there is
/// such an `OP_ENDIF`. With `inside` set, an `OP_IF` has been seen before.
pub open spec fn enveloped(list: Seq<Ins>, inside: bool) -> (Seq<u8>, bool)
    decreases list.len(),
{
    if list.len() == 0 {
        (Seq::empty(), false)
    } else {
        match list[0] {
            Ins::Op(b) => if b == scripts::OP_ENDIF {
                (Seq::empty(), true)
            } else {
                enveloped(list.skip(1), inside || b == scripts::OP_IF)
            },
            Ins::Push(d) => {
                let rest = enveloped(list.skip(1), inside);
                (if inside {
                    d + rest.0
                } else {
                    rest.0
                }, rest.1)
            },
        }
    }
}

/// The payload that a transaction reveals, or why there is none. A script that is cut short behind
/// the end of the envelope does no harm.
pub open spec fn decoded(t: TxView) -> Result<Seq<u8>, PackError> {
    if t.input.len() == 0 {
        Err(PackError::NoInputs)
    } else if t.input[0].witness.len() == 0 {
        Err(PackError::EmptyWitness)
    } else {
        let parsed = scripts::parse(t.input[0].witness.last());
        let (payload, closed) = enveloped(parsed.0, false);
        if closed || parsed.1 {
            Ok(payload)
        } else {
            Err(PackError::MalformedScript)
        }
    }
}

proof fn lemma_enveloped_pushes(c: Seq<Seq<u8>>)
    ensures
        enveloped(pushes(c) + closing(), true) == (bytes::joined(c), true),
    decreases c.len(),
{
    let list = pushes(c) + closing();
    if c.len() == 0 {
        assert(list[0] == Ins::Op(scripts::OP_ENDIF));
        assert(bytes::joined(c) =~= Seq::<u8>::empty());
    } else {
        lemma_enveloped_pushes(c.skip(1));
        assert(list.skip(1) =~= pushes(c.skip(1)) + closing());
        assert(list[0] == Ins::Push(c[0]));
        bytes::lemma_joined_first(c);
    }
}

/// The witness script of a payload is read back to its instructions.
pub proof fn lemma_envelope_encodable(framed: Seq<u8>)
    ensures
        scripts::all_encodable(envelope(framed)),
        scripts::parse(data_script(framed)) == (envelope(framed), true),
{
    let c = tapscript::data_chunks(framed);
    bytes::law_chunk_sizes(framed, tapscript::CHUNK_SIZE as int);
    let list = envelope(framed);
    assert forall|i: int| 0 <= i < list.len() implies scripts::encodable(#[trigger] list[i]) by {
        if 2 <= i < 2 + c.len() {
            assert(list[i] == Ins::Push(c[i - 2]));
        }
    }
    scripts::law_parse_encode(list);
}

/// Reading a reveal gives the payload back.
pub proof fn law_roundtrip(framed: Seq<u8>, prevout: OutPointView, value: u64, to: Seq<u8>)
    ensures
        decoded(reveal_view(framed, prevout, value, to)) == Ok::<Seq<u8>, PackError>(framed),
{
    let t = reveal_view(framed, prevout, value, to);
    let c = tapscript::data_chunks(framed);
    let list = envelope(framed);
    lemma_envelope_encodable(framed);
    lemma_enveloped_pushes(c);
    bytes::law_chunks_join(framed, tapscript::CHUNK_SIZE as int);
    let l1 = list.skip(1);
    let l2 = l1.skip(1);
    assert(list[0] == Ins::Push(Seq::<u8>::empty()));
    assert(l1[0] == Ins::Op(scripts::OP_IF));
    assert(l2 =~= pushes(c) + closing());
    assert(enveloped(l1, false) == (framed, true));
    assert(enveloped(list, false) == (framed, true));
    assert(t.input[0].witness.last() == data_script(framed));
}

/// The size of the witness script of `len` bytes: the pushes and the four opcodes around them.
pub open spec fn data_script_size(len: int) -> int {
    tapscript::chunk_pushes_size(len) + 4
}

proof fn lemma_pushes_size(c: Seq<Seq<u8>>, n: int)
    requires
        0 <= n <= c.len(),
    ensures
        scripts::encode(pushes(c).take(n)).len() == tapscript::pushes_size(c, n),
    decreases n,
{
    if n > 0 {
        lemma_pushes_size(c, n - 1);
        assert(pushes(c).take(n) =~= pushes(c).take(n - 1).push(Ins::Push(c[n - 1])));
        scripts::lemma_encode_push(pushes(c).take(n - 1), Ins::Push(c[n - 1]));
    }
}

/// How many bytes the witness script of a payload takes.
pub proof fn law_data_script_size(framed: Seq<u8>)
    ensures
        data_script(framed).len() == data_script_size(framed.len() as int),
{
    let c = tapscript::data_chunks(framed);
    tapscript::law_chunk_pushes_size(framed);
    lemma_pushes_size(c, c.len() as int);
    assert(pushes(c).take(c.len() as int) =~= pushes(c));
    scripts::lemma_encode_add(opening() + pushes(c), closing());
    scripts::lemma_encode_add(opening(), pushes(c));
    let none = Seq::<Ins>::empty();
    assert(opening() =~= none.push(opening()[0]).push(opening()[1]));
    scripts::lemma_encode_push(none, opening()[0]);
    scripts::lemma_encode_push(none.push(opening()[0]), opening()[1]);
    assert(closing() =~= none.push(closing()[0]).push(closing()[1]));
    scripts::lemma_encode_push(none, closing()[0]);
    scripts::lemma_encode_push(none.push(closing()[0]), closing()[1]);
}

/// The channel takes payloads of up to 9,918 bytes.
pub proof fn law_capacity(framed: Seq<u8>)
    ensures
        refusal(framed) is None <==> framed.len() <= 9_918,
{
    law_data_script_size(framed);
    let len = framed.len() as int;
    let count = bytes::chunk_count(len, tapscript::CHUNK_SIZE as int);
    assert(count == (len + 254) / 255);
}

/// The scriptPubKey of the commit address is `OP_0` and the hash of the witness script: 34 bytes,
/// within the output cap, and the same on every network.
pub proof fn law_commit_spk(framed: Seq<u8>, network: Network)
    ensures
        commit_outcome(framed, network) matches Ok(a) ==> {
            &&& a.script_pubkey == seq![0u8, 32u8] + addresses::wscript_hash_of(
                data_script(framed),
            )@
            &&& a.script_pubkey.len() == 34
            &&& bip110::compliant_output(a.script_pubkey)
        },
{
    assert(addresses::wscript_hash_of(data_script(framed))@.len() == 32);
}

/// A reveal keeps every rule exactly where its witness script is within the item cap, given a
/// destination within the output cap.
pub proof fn law_reveal_compliant(framed: Seq<u8>, prevout: OutPointView, value: u64, to: Seq<u8>)
    requires
        bip110::compliant_output(to),
    ensures
        bip110::compliant(reveal_view(framed, prevout, value, to)) <==> data_script(framed).len()
            <= bip110::MAX_PUSH,
{
    let t = reveal_view(framed, prevout, value, to);
    let items = t.input[0].witness;
    assert(items[0] == data_script(framed));
    assert(bip110::compliant_witness(items) <==> data_script(framed).len() <= bip110::MAX_PUSH) by {
        if bip110::items_within_cap(items, 1) {
            assert(items[0].len() <= bip110::MAX_PUSH);
        }
    }
}

/// Every push in the witness script is within the cap.
pub proof fn law_pushes_within_cap(framed: Seq<u8>)
    ensures
        forall|i: int|
            0 <= i < envelope(framed).len() ==> (#[trigger] envelope(framed)[i] matches Ins::Push(d)
                ==> d.len() <= bip110::MAX_PUSH),
{
    let c = tapscript::data_chunks(framed);
    bytes::law_chunk_sizes(framed, tapscript::CHUNK_SIZE as int);
    assert forall|i: int| 0 <= i < envelope(framed).len() implies (
    #[trigger] envelope(framed)[i] matches Ins::Push(d) ==> d.len() <= bip110::MAX_PUSH) by {
        if 2 <= i < 2 + c.len() {
            assert(envelope(framed)[i] == Ins::Push(c[i - 2]));
        }
    }
}

/// The stack after a list of instructions, and whether a branch that is not taken is still open:
/// `OP_IF` on an empty element opens one, nothing in it is executed, `OP_ENDIF` ends it. Outside it the
/// instructions work as in a leaf.
pub open spec fn run(list: Seq<Ins>, start: Seq<Seq<u8>>) -> Option<(Seq<Seq<u8>>, bool)>
    decreases list.len(),
{
    if list.len() == 0 {
        Some((start, false))
    } else {
        match run(list.drop_last(), start) {
            None => None,
            Some((s, true)) => Some((s, list.last() != Ins::Op(scripts::OP_ENDIF))),
            Some((s, false)) => if list.last() == Ins::Op(scripts::OP_IF) && s.len() > 0
                && s.last().len() == 0 {
                Some((s.drop_last(), true))
            } else {
                match stack::step(s, list.last()) {
                    Some(next) => Some((next, false)),
                    None => None,
                }
            },
        }
    }
}

proof fn lemma_pushes_are_skipped(c: Seq<Seq<u8>>, n: int)
    requires
        0 <= n <= c.len(),
    ensures
        run(opening() + pushes(c).take(n), Seq::empty()) == Some((Seq::<Seq<u8>>::empty(), true)),
    decreases n,
{
    let none = Seq::<Seq<u8>>::empty();
    let list = opening() + pushes(c).take(n);
    if n == 0 {
        let first = list.drop_last();
        assert(list =~= opening());
        assert(first.drop_last() =~= Seq::<Ins>::empty());
        assert(run(first.drop_last(), none) == Some((none, false)));
        assert(first.last() == Ins::Push(Seq::<u8>::empty()));
        assert(run(first, none) == Some((none.push(Seq::<u8>::empty()), false)));
        assert(none.push(Seq::<u8>::empty()).drop_last() =~= none);
    } else {
        lemma_pushes_are_skipped(c, n - 1);
        assert(list.drop_last() =~= opening() + pushes(c).take(n - 1));
        assert(list.last() == Ins::Push(c[n - 1]));
    }
}

/// The witness script executes none of its data and leaves exactly one element, a one, on an empty
/// stack.
pub proof fn law_script_leaves_one(framed: Seq<u8>)
    ensures
        run(envelope(framed), Seq::empty()) == Some((seq![seq![1u8]], false)),
{
    let none = Seq::<Seq<u8>>::empty();
    let c = tapscript::data_chunks(framed);
    let list = envelope(framed);
    let n = c.len() as int;
    lemma_pushes_are_skipped(c, n);
    assert(pushes(c).take(n) =~= pushes(c));
    let l1 = list.drop_last();
    assert(l1.drop_last() =~= opening() + pushes(c));
    assert(l1.last() == Ins::Op(scripts::OP_ENDIF));
    assert(run(l1, none) == Some((none, false)));
    assert(list.last() == Ins::Op(scripts::OP_PUSHNUM_1));
    assert(none.push(seq![1u8]) =~= seq![seq![1u8]]);
}

/// A reveal pays out what it spends less the fee.
pub proof fn law_reveal_value(
    framed: Seq<u8>,
    prevout: OutPointView,
    prevout_value: u64,
    to: Seq<u8>,
    fee: u64,
)
    requires
        fee <= prevout_value,
    ensures
        ({
            let t = reveal_view(framed, prevout, (prevout_value - fee) as u64, to);
            compliance::total_value(t.output, t.output.len() as int) + fee == prevout_value
        }),
{
    reveal_with_fuel(compliance::total_value, 2);
}

/// The witness script that carries `framed`.
pub fn build_witness_script(framed: &[u8]) -> (r: Result<Vec<u8>, PackError>)
    ensures
        match r {
            Ok(s) => refusal(framed@) is None && s@ == data_script(framed@),
            Err(e) => refusal(framed@) == Some(e),
        },
{
    let chunks = bytes::split_chunks(framed, tapscript::CHUNK_SIZE);
    let ghost c = tapscript::data_chunks(framed@);
    let ghost none = Seq::<Ins>::empty();
    let mut b = scripts::push_opcode(scripts::new_builder(), 0);
    b = scripts::push_opcode(b, scripts::OP_IF);
    proof {
        bytes::law_chunk_sizes(framed@, tapscript::CHUNK_SIZE as int);
        assert(opening() =~= none.push(opening()[0]).push(opening()[1]));
        scripts::lemma_encode_push(none, opening()[0]);
        scripts::lemma_encode_push(none.push(opening()[0]), opening()[1]);
        assert(scripts::builder_bytes(b) =~= scripts::encode(opening()));
        assert(opening() + pushes(c).take(0) =~= opening());
    }
    let mut i: usize = 0;
    while i < chunks.len()
        invariant
            bytes::views(chunks@) == c,
            i <= chunks@.len(),
            forall|k: int| 0 <= k < c.len() ==> (#[trigger] c[k]).len() <= tapscript::CHUNK_SIZE,
            scripts::builder_bytes(b) == scripts::encode(opening() + pushes(c).take(i as int)),
        decreases chunks@.len() - i,
    {
        proof {
            assert(c[i as int] == chunks@[i as int]@);
            let l = opening() + pushes(c).take(i as int);
            scripts::lemma_encode_push(l, Ins::Push(c[i as int]));
            assert(opening() + pushes(c).take(i + 1) =~= l.push(Ins::Push(c[i as int])));
        }
        b = scripts::push_slice(b, chunks[i].as_slice());
        i = i + 1;
    }
    let ghost l = opening() + pushes(c);
    proof {
        assert(pushes(c).take(i as int) =~= pushes(c));
    }
    let ghost before = scripts::builder_bytes(b);
    b = scripts::push_opcode(b, scripts::OP_ENDIF);
    b = scripts::push_opcode(b, scripts::OP_PUSHNUM_1);
    proof {
        let l1 = l.push(closing()[0]);
        scripts::lemma_encode_push(l, closing()[0]);
        scripts::lemma_encode_push(l1, closing()[1]);
        assert(envelope(framed@) =~= l1.push(closing()[1]));
        assert(scripts::builder_bytes(b) =~= scripts::encode(l1.push(closing()[1])));
    }
    let script = scripts::into_bytes(b);
    if script.len() > MAX_WITNESS_SCRIPT {
        return Err(
            PackError::WitnessScriptTooLarge {
                payload: framed.len(),
                script: script.len(),
                max: MAX_WITNESS_SCRIPT,
            },
        );
    }
    Ok(script)
}

/// The address whose witness script will carry `framed`.
pub fn commit_address(framed: &[u8], network: Network) -> (r: Result<Address, PackError>)
    ensures
        error::outcome(r, commit_outcome(framed@, network)),
        r matches Ok(a) ==> addresses::parsed_address(a.text@, network) == Some(
            Some(a.script_pubkey@),
        ),
{
    match build_witness_script(framed) {
        Ok(s) => Ok(addresses::p2wsh(s.as_slice(), network)),
        Err(e) => Err(e),
    }
}

/// The transaction that spends `prevout`, reveals the witness script that carries `framed` and pays
/// `prevout_value - fee` to `to`. Anyone can make it.
pub fn build_reveal(
    framed: &[u8],
    prevout: OutPoint,
    prevout_value: u64,
    to: &[u8],
    fee: u64,
    network: Network,
) -> (r: Result<Transaction, PackError>)
    ensures
        error::outcome(r, reveal_outcome(framed@, prevout@, prevout_value, to@, fee)),
{
    // The transaction is the same on every network.
    let _ = network;
    let script = match build_witness_script(framed) {
        Ok(s) => s,
        Err(e) => {
            return Err(e);
        },
    };
    let value: u64 = match taproot_spend::after_fee(prevout_value, fee) {
        Ok(v) => v,
        Err(e) => {
            return Err(e);
        },
    };
    let mut witness: Vec<Vec<u8>> = Vec::new();
    witness.push(script);
    let mut out: Vec<TxOut> = Vec::new();
    out.push(TxOut { value, script_pubkey: bytes::copy_of(to) });
    proof {
        assert(tx::out_views(out@) =~= taproot_spend::payment(value, to@));
        assert(bytes::views(witness@) =~= seq![data_script(framed@)]);
    }
    Ok(tx::single_input_tx(2, prevout, tx::RBF_SEQUENCE, witness, out))
}

/// The payload that a transaction reveals in the witness script of its first input.
pub fn decode(t: &Transaction) -> (r: Result<Vec<u8>, PackError>)
    ensures
        error::outcome(r, decoded(t@)),
{
    if t.input.len() == 0 {
        return Err(PackError::NoInputs);
    }
    let witness = &t.input[0].witness;
    proof {
        assert(t@.input[0].witness == bytes::views(witness@));
    }
    if witness.len() == 0 {
        return Err(PackError::EmptyWitness);
    }
    let (list, complete) = scripts::instructions(witness[witness.len() - 1].as_slice());
    let ghost l = scripts::ins_views(list@);
    let ghost whole = enveloped(l, false);
    let mut out: Vec<u8> = Vec::new();
    let mut inside: bool = false;
    let mut i: usize = 0;
    proof {
        assert(l.skip(0) =~= l);
        assert(out@ + whole.0 =~= whole.0);
    }
    while i < list.len()
        invariant
            l == scripts::ins_views(list@),
            whole == enveloped(l, false),
            i <= list@.len(),
            out@ + enveloped(l.skip(i as int), inside).0 == whole.0,
            enveloped(l.skip(i as int), inside).1 == whole.1,
            (l, complete) == scripts::parse(t@.input[0].witness.last()),
            t@.input.len() > 0,
            t@.input[0].witness.len() > 0,
        decreases list@.len() - i,
    {
        let ghost rest = l.skip(i as int);
        let ghost before = out@;
        proof {
            assert(rest[0] == list@[i as int]@);
            assert(rest.skip(1) =~= l.skip(i + 1));
        }
        match &list[i] {
            Instruction::Op(op) => {
                let b: u8 = *op;
                if b == scripts::OP_IF {
                    inside = true;
                } else if b == scripts::OP_ENDIF {
                    proof {
                        assert(out@ + Seq::<u8>::empty() =~= out@);
                    }
                    return Ok(out);
                }
            },
            Instruction::PushBytes(d) => {
                if inside {
                    out.extend_from_slice(d.as_slice());
                    proof {
                        assert(out@ + enveloped(rest.skip(1), true).0 =~= before + enveloped(
                            rest,
                            true,
                        ).0);
                    }
                }
            },
        }
        i = i + 1;
    }
    proof {
        assert(l.skip(i as int) =~= Seq::<Ins>::empty());
        assert(out@ + Seq::<u8>::empty() =~= out@);
    }
    if complete {
        Ok(out)
    } else {
        Err(PackError::MalformedScript)
    }
}

} // verus!
