//! Data in `OP_RETURN` outputs.
//!
//! Each output holds one push of up to 80 bytes, which makes a scriptPubKey of at most 83, the cap
//! for such outputs. The change comes last. These bytes are no witness bytes, so each weighs four.
use crate::addresses::Network;
use crate::bip110;
use crate::bytes;
use crate::compliance;
use crate::error;
use crate::error::PackError;
use crate::scripts;
use crate::scripts::Ins;
use crate::taproot_spend;
use crate::tapscript;
use crate::tx;
use crate::tx::OutPoint;
use crate::tx::OutPointView;
use crate::tx::Transaction;
use crate::tx::TxOut;
use crate::tx::TxOutView;
use crate::tx::TxView;
use vstd::prelude::*;

verus! {

/// The most bytes that one output carries.
pub const MAX_OP_RETURN_PUSH: usize = 80;

/// The pieces of a payload.
pub open spec fn pieces(framed: Seq<u8>) -> Seq<Seq<u8>> {
    bytes::chunks(framed, MAX_OP_RETURN_PUSH as int)
}

/// The scriptPubKey that carries a piece.
pub open spec fn data_spk(piece: Seq<u8>) -> Seq<u8> {
    scripts::encode(seq![Ins::Op(scripts::OP_RETURN), Ins::Push(piece)])
}

/// The outputs that carry the pieces, without value.
pub open spec fn data_outputs(c: Seq<Seq<u8>>) -> Seq<TxOutView> {
    Seq::new(c.len(), |i: int| TxOutView { value: 0, script_pubkey: data_spk(c[i]) })
}

/// The transaction that carries a payload.
pub open spec fn data_view(framed: Seq<u8>, prevout: OutPointView, value: u64, to: Seq<u8>) -> TxView {
    tx::spending(
        prevout,
        Seq::empty(),
        data_outputs(pieces(framed)).push(TxOutView { value, script_pubkey: to }),
    )
}

/// The transaction that carries a payload, or why there is none.
pub open spec fn build_outcome(
    framed: Seq<u8>,
    prevout: OutPointView,
    prevout_value: u64,
    to: Seq<u8>,
    fee: u64,
) -> Result<TxView, PackError> {
    if fee > prevout_value {
        Err(PackError::FeeExceedsValue { fee, value: prevout_value })
    } else {
        Ok(data_view(framed, prevout, (prevout_value - fee) as u64, to))
    }
}

/// What the `OP_RETURN` outputs among the first `n` push; `None` where one of them is cut short.
pub open spec fn pushed(output: Seq<TxOutView>, n: int) -> Option<Seq<u8>>
    decreases n,
{
    if n <= 0 {
        Some(Seq::empty())
    } else {
        let spk = output[n - 1].script_pubkey;
        match pushed(output, n - 1) {
            None => None,
            Some(before) => if !scripts::op_return_script(spk) {
                Some(before)
            } else if scripts::parse(spk).1 {
                Some(before + scripts::script_pushes(spk))
            } else {
                None
            },
        }
    }
}

/// The payload that a transaction carries, or why there is none.
pub open spec fn decoded(t: TxView) -> Result<Seq<u8>, PackError> {
    match pushed(t.output, t.output.len() as int) {
        Some(payload) => Ok(payload),
        None => Err(PackError::MalformedScript),
    }
}

/// One data output reads back to its piece and is within the cap for such outputs.
proof fn lemma_data_spk(piece: Seq<u8>)
    requires
        piece.len() <= MAX_OP_RETURN_PUSH,
    ensures
        scripts::op_return_script(data_spk(piece)),
        scripts::parse(data_spk(piece)).1,
        scripts::script_pushes(data_spk(piece)) == piece,
        bip110::compliant_output(data_spk(piece)),
        piece.len() == MAX_OP_RETURN_PUSH ==> data_spk(piece).len() == bip110::MAX_OP_RETURN_SPK,
{
    let list = seq![Ins::Op(scripts::OP_RETURN), Ins::Push(piece)];
    let none = Seq::<Ins>::empty();
    let one = none.push(list[0]);
    scripts::law_parse_encode(list);
    assert(list =~= one.push(list[1]));
    scripts::lemma_encode_push(none, list[0]);
    scripts::lemma_encode_push(one, list[1]);
    scripts::lemma_pushed_push(none, list[0]);
    scripts::lemma_pushed_push(one, list[1]);
    assert(scripts::encode(none) =~= Seq::<u8>::empty());
    assert(scripts::pushed_bytes(none) =~= Seq::<u8>::empty());
    assert(Seq::<u8>::empty() + piece =~= piece);
    assert(data_spk(piece)[0] == scripts::OP_RETURN);
}

proof fn lemma_pushed_outputs(c: Seq<Seq<u8>>, output: Seq<TxOutView>, n: int)
    requires
        0 <= n <= c.len() <= output.len(),
        forall|i: int| 0 <= i < c.len() ==> (#[trigger] c[i]).len() <= MAX_OP_RETURN_PUSH,
        forall|i: int|
            0 <= i < c.len() ==> (#[trigger] output[i]).script_pubkey == data_spk(c[i]),
    ensures
        pushed(output, n) == Some(bytes::joined(c.take(n))),
    decreases n,
{
    if n == 0 {
        assert(bytes::joined(c.take(0)) =~= Seq::<u8>::empty());
    } else {
        lemma_pushed_outputs(c, output, n - 1);
        assert(c[n - 1].len() <= MAX_OP_RETURN_PUSH);
        assert(output[n - 1].script_pubkey == data_spk(c[n - 1]));
        lemma_data_spk(c[n - 1]);
        assert(c.take(n).drop_last() =~= c.take(n - 1));
    }
}

/// Reading a data transaction gives the payload back, where the change does not go to an `OP_RETURN`
/// script.
pub proof fn law_roundtrip(framed: Seq<u8>, prevout: OutPointView, value: u64, to: Seq<u8>)
    requires
        !scripts::op_return_script(to),
    ensures
        decoded(data_view(framed, prevout, value, to)) == Ok::<Seq<u8>, PackError>(framed),
{
    let t = data_view(framed, prevout, value, to);
    let c = pieces(framed);
    let n = c.len() as int;
    bytes::law_chunk_sizes(framed, MAX_OP_RETURN_PUSH as int);
    bytes::law_chunks_join(framed, MAX_OP_RETURN_PUSH as int);
    assert forall|i: int| 0 <= i < c.len() implies (#[trigger] t.output[i]).script_pubkey
        == data_spk(c[i]) by {}
    lemma_pushed_outputs(c, t.output, n);
    assert(c.take(n) =~= c);
    assert(t.output[n].script_pubkey == to);
    assert(pushed(t.output, n + 1) == pushed(t.output, n));
}

/// A data transaction keeps every rule where the change goes to a script within the output cap.
pub proof fn law_compliant(framed: Seq<u8>, prevout: OutPointView, value: u64, to: Seq<u8>)
    requires
        bip110::compliant_output(to),
    ensures
        bip110::compliant(data_view(framed, prevout, value, to)),
{
    let t = data_view(framed, prevout, value, to);
    let c = pieces(framed);
    bytes::law_chunk_sizes(framed, MAX_OP_RETURN_PUSH as int);
    assert forall|i: int| 0 <= i < t.output.len() implies bip110::compliant_output(
        (#[trigger] t.output[i]).script_pubkey,
    ) by {
        if i < c.len() {
            assert(c[i].len() <= MAX_OP_RETURN_PUSH);
            lemma_data_spk(c[i]);
        }
    }
}

proof fn lemma_no_value(output: Seq<TxOutView>, n: int)
    requires
        0 <= n <= output.len(),
        forall|i: int| 0 <= i < n ==> (#[trigger] output[i]).value == 0,
    ensures
        compliance::total_value(output, n) == 0,
    decreases n,
{
    if n > 0 {
        lemma_no_value(output, n - 1);
        assert(output[n - 1].value == 0);
    }
}

/// A data transaction pays out what it spends less the fee.
pub proof fn law_value(
    framed: Seq<u8>,
    prevout: OutPointView,
    prevout_value: u64,
    to: Seq<u8>,
    fee: u64,
)
    requires
        fee <= prevout_value,
    ensures
        ({
            let t = data_view(framed, prevout, (prevout_value - fee) as u64, to);
            compliance::total_value(t.output, t.output.len() as int) + fee == prevout_value
        }),
{
    let t = data_view(framed, prevout, (prevout_value - fee) as u64, to);
    let n = pieces(framed).len() as int;
    lemma_no_value(t.output, n);
    assert(t.output[n].value == prevout_value - fee);
    assert(compliance::total_value(t.output, n + 1) == compliance::total_value(t.output, n)
        + t.output[n].value);
}

/// The transaction that spends `prevout`, carries `framed` in `OP_RETURN` outputs and pays
/// `prevout_value - fee` to `change_to`.
pub fn build_tx(
    framed: &[u8],
    prevout: OutPoint,
    prevout_value: u64,
    change_to: &[u8],
    fee: u64,
    network: Network,
) -> (r: Result<Transaction, PackError>)
    ensures
        error::outcome(r, build_outcome(framed@, prevout@, prevout_value, change_to@, fee)),
{
    // The transaction is the same on every network.
    let _ = network;
    let value: u64 = match taproot_spend::after_fee(prevout_value, fee) {
        Ok(v) => v,
        Err(e) => {
            return Err(e);
        },
    };
    let chunks = bytes::split_chunks(framed, MAX_OP_RETURN_PUSH);
    let ghost c = pieces(framed@);
    let mut output: Vec<TxOut> = Vec::new();
    let mut i: usize = 0;
    proof {
        bytes::law_chunk_sizes(framed@, MAX_OP_RETURN_PUSH as int);
    }
    while i < chunks.len()
        invariant
            bytes::views(chunks@) == c,
            i <= chunks@.len(),
            forall|k: int| 0 <= k < c.len() ==> (#[trigger] c[k]).len() <= MAX_OP_RETURN_PUSH,
            tx::out_views(output@) == data_outputs(c).take(i as int),
        decreases chunks@.len() - i,
    {
        proof {
            assert(c[i as int] == chunks@[i as int]@);
        }
        let ghost before = tx::out_views(output@);
        let data_out = TxOut { value: 0, script_pubkey: scripts::new_op_return(chunks[i].as_slice()) };
        let ghost added = data_out@;
        output.push(data_out);
        proof {
            assert(tx::out_views(output@) =~= before.push(added));
            assert(added =~= data_outputs(c)[i as int]);
            assert(data_outputs(c).take(i + 1) =~= before.push(added));
        }
        i = i + 1;
    }
    let ghost before = tx::out_views(output@);
    output.push(TxOut { value, script_pubkey: bytes::copy_of(change_to) });
    proof {
        assert(data_outputs(c).take(i as int) =~= data_outputs(c));
        assert(tx::out_views(output@) =~= data_outputs(c).push(
            TxOutView { value, script_pubkey: change_to@ },
        ));
        assert(bytes::views(Seq::<Vec<u8>>::empty()) =~= Seq::<Seq<u8>>::empty());
    }
    Ok(tx::single_input_tx(2, prevout, tx::RBF_SEQUENCE, Vec::new(), output))
}

/// What the `OP_RETURN` outputs of a transaction push, in order; other outputs are passed over.
pub fn decode(t: &Transaction) -> (r: Result<Vec<u8>, PackError>)
    ensures
        error::outcome(r, decoded(t@)),
{
    let mut out: Vec<u8> = Vec::new();
    let mut i: usize = 0;
    while i < t.output.len()
        invariant
            i <= t.output@.len(),
            pushed(t@.output, i as int) == Some(out@),
        decreases t.output@.len() - i,
    {
        let spk = t.output[i].script_pubkey.as_slice();
        proof {
            assert(t@.output[i as int].script_pubkey == spk@);
        }
        if scripts::is_op_return(spk) {
            match tapscript::extract_data(spk) {
                Ok(d) => {
                    let ghost before = out@;
                    out.extend_from_slice(d.as_slice());
                    proof {
                        assert(out@ =~= before + d@);
                    }
                },
                Err(e) => {
                    proof {
                        lemma_pushed_stays_none(t@.output, i + 1, t@.output.len() as int);
                    }
                    return Err(e);
                },
            }
        }
        i = i + 1;
    }
    Ok(out)
}

proof fn lemma_pushed_stays_none(output: Seq<TxOutView>, k: int, n: int)
    requires
        0 <= k <= n,
        pushed(output, k) is None,
    ensures
        pushed(output, n) is None,
    decreases n,
{
    if k < n {
        lemma_pushed_stays_none(output, k, n - 1);
    }
}

} // verus!
