//! Data in place of the keys of taproot outputs.
//!
//! The payload, with its length in front, is cut into words of 32 bytes, the last one filled up with
//! zeros, and each word stands where `OP_1 <key>` has its key:
//!
//! ```text
//! output = OP_1 <word>            length = first four bytes, most significant first
//! ```
//!
//! The change comes last. Nobody holds such a key, so these outputs stay in the set of unspent ones
//! for good, and their bytes weigh four each: the costliest of the channels.
use crate::addresses::Network;
use crate::bip110;
use crate::bytes;
use crate::compliance;
use crate::error;
use crate::error::PackError;
use crate::scripts;
use crate::tx;
use crate::tx::OutPoint;
use crate::tx::OutPointView;
use crate::tx::Transaction;
use crate::tx::TxOut;
use crate::tx::TxOutView;
use crate::tx::TxView;
use vstd::prelude::*;

verus! {

/// The bytes that one output carries.
pub const WORD: usize = 32;

/// The value of each data output.
pub const DUST_PER_OUTPUT: u64 = 330;

/// The payload with its length in front.
pub open spec fn prefixed(framed: Seq<u8>) -> Seq<u8> {
    bytes::be_u32(framed.len() as u32) + framed
}

/// The words of a payload.
pub open spec fn words(framed: Seq<u8>) -> Seq<Seq<u8>> {
    bytes::padded_chunks(prefixed(framed), WORD as int)
}

/// The outputs that carry the words.
pub open spec fn data_outputs(w: Seq<Seq<u8>>) -> Seq<TxOutView> {
    Seq::new(
        w.len(),
        |i: int| TxOutView { value: DUST_PER_OUTPUT, script_pubkey: scripts::p2tr_of(w[i]) },
    )
}

/// The value of all data outputs.
pub open spec fn dust(framed: Seq<u8>) -> int {
    DUST_PER_OUTPUT * words(framed).len()
}

/// The transaction that carries a payload.
pub open spec fn data_view(framed: Seq<u8>, prevout: OutPointView, change: u64, to: Seq<u8>) -> TxView {
    tx::spending(
        prevout,
        Seq::empty(),
        data_outputs(words(framed)).push(TxOutView { value: change, script_pubkey: to }),
    )
}

/// The transaction that carries a payload, or why there is none.
pub open spec fn build_outcome(
    framed: Seq<u8>,
    prevout: OutPointView,
    prevout_value: u64,
    to: Seq<u8>,
    fee: u64,
) -> Result<TxView, PackError> {
    if framed.len() > u32::MAX {
        Err(PackError::LengthField(framed.len() as usize))
    } else if fee + dust(framed) > prevout_value {
        Err(PackError::ValueTooSmall { fee, value: prevout_value })
    } else {
        Ok(data_view(framed, prevout, (prevout_value - fee - dust(framed)) as u64, to))
    }
}

/// The words of the first `n` outputs, or the first output that holds none.
pub open spec fn gathered(output: Seq<TxOutView>, n: int) -> Result<Seq<u8>, PackError>
    decreases n,
{
    if n <= 0 {
        Ok(Seq::empty())
    } else {
        match gathered(output, n - 1) {
            Err(e) => Err(e),
            Ok(before) => if scripts::p2tr_script(output[n - 1].script_pubkey) {
                Ok(before + output[n - 1].script_pubkey.skip(2))
            } else {
                Err(PackError::NotADataOutput((n - 1) as usize))
            },
        }
    }
}

/// The payload behind its length.
pub open spec fn trimmed(all: Seq<u8>) -> Result<Seq<u8>, PackError> {
    let len = bytes::from_be_u32(all.take(4));
    if len > all.len() - 4 {
        Err(
            PackError::DeclaredLength {
                declared: len as usize,
                available: (all.len() - 4) as usize,
            },
        )
    } else {
        Ok(all.subrange(4, 4 + len))
    }
}

/// The payload that a transaction carries, or why there is none: the last output is the change, all
/// others hold words.
pub open spec fn decoded(t: TxView) -> Result<Seq<u8>, PackError> {
    if t.output.len() < 2 {
        Err(PackError::TooFewOutputs(t.output.len() as usize))
    } else {
        match gathered(t.output, t.output.len() - 1) {
            Err(e) => Err(e),
            Ok(all) => trimmed(all),
        }
    }
}

proof fn lemma_gathered_words(w: Seq<Seq<u8>>, output: Seq<TxOutView>, n: int)
    requires
        0 <= n <= w.len() <= output.len(),
        forall|i: int| 0 <= i < w.len() ==> (#[trigger] w[i]).len() == WORD,
        forall|i: int|
            0 <= i < w.len() ==> (#[trigger] output[i]).script_pubkey == scripts::p2tr_of(w[i]),
    ensures
        gathered(output, n) == Ok::<Seq<u8>, PackError>(bytes::joined(w.take(n))),
    decreases n,
{
    if n == 0 {
        assert(bytes::joined(w.take(0)) =~= Seq::<u8>::empty());
    } else {
        lemma_gathered_words(w, output, n - 1);
        assert(w[n - 1].len() == WORD);
        assert(output[n - 1].script_pubkey == scripts::p2tr_of(w[n - 1]));
        assert(scripts::p2tr_of(w[n - 1]).skip(2) =~= w[n - 1]);
        assert(w.take(n).drop_last() =~= w.take(n - 1));
    }
}

/// Reading a data transaction gives the payload back.
pub proof fn law_roundtrip(framed: Seq<u8>, prevout: OutPointView, change: u64, to: Seq<u8>)
    requires
        framed.len() <= u32::MAX,
    ensures
        decoded(data_view(framed, prevout, change, to)) == Ok::<Seq<u8>, PackError>(framed),
{
    let t = data_view(framed, prevout, change, to);
    let p = prefixed(framed);
    let w = words(framed);
    let n = w.len() as int;
    bytes::law_padded_chunks(p, WORD as int);
    assert forall|i: int| 0 <= i < w.len() implies (#[trigger] t.output[i]).script_pubkey
        == scripts::p2tr_of(w[i]) by {}
    lemma_gathered_words(w, t.output, n);
    assert(w.take(n) =~= w);
    let all = bytes::joined(w);
    assert(p.len() == framed.len() + 4);
    assert(n >= 1);
    assert(all.take(p.len() as int) == p);
    assert(all.take(4) =~= bytes::be_u32(framed.len() as u32)) by {
        assert forall|i: int| 0 <= i < 4 implies all[i] == p[i] by {
            assert(all.take(p.len() as int)[i] == all[i]);
        }
    }
    bytes::law_be_u32_roundtrip(framed.len() as u32);
    assert(all.subrange(4, 4 + framed.len() as int) =~= framed) by {
        assert forall|i: int| 0 <= i < framed.len() implies all[i + 4] == framed[i] by {
            assert(all.take(p.len() as int)[i + 4] == all[i + 4]);
            assert(p[i + 4] == framed[i]);
        }
    }
}

/// A data transaction keeps every rule where the change goes to a script within the output cap.
pub proof fn law_compliant(framed: Seq<u8>, prevout: OutPointView, change: u64, to: Seq<u8>)
    requires
        bip110::compliant_output(to),
    ensures
        bip110::compliant(data_view(framed, prevout, change, to)),
{
    let t = data_view(framed, prevout, change, to);
    let w = words(framed);
    bytes::law_padded_chunks(prefixed(framed), WORD as int);
    assert forall|i: int| 0 <= i < t.output.len() implies bip110::compliant_output(
        (#[trigger] t.output[i]).script_pubkey,
    ) by {
        if i < w.len() {
            assert(w[i].len() == WORD);
            assert(t.output[i].script_pubkey == scripts::p2tr_of(w[i]));
        }
    }
}

proof fn lemma_dust(output: Seq<TxOutView>, n: int)
    requires
        0 <= n <= output.len(),
        forall|i: int| 0 <= i < n ==> (#[trigger] output[i]).value == DUST_PER_OUTPUT,
    ensures
        compliance::total_value(output, n) == DUST_PER_OUTPUT * n,
    decreases n,
{
    if n > 0 {
        lemma_dust(output, n - 1);
        assert(output[n - 1].value == DUST_PER_OUTPUT);
    }
}

/// A data transaction pays out what it spends less the fee.
pub proof fn law_value(
    framed: Seq<u8>,
    prevout: OutPointView,
    prevout_value: u64,
    to: Seq<u8>,
    fee: u64,
)
    requires
        fee + dust(framed) <= prevout_value,
    ensures
        ({
            let t = data_view(framed, prevout, (prevout_value - fee - dust(framed)) as u64, to);
            compliance::total_value(t.output, t.output.len() as int) + fee == prevout_value
        }),
{
    let t = data_view(framed, prevout, (prevout_value - fee - dust(framed)) as u64, to);
    let n = words(framed).len() as int;
    lemma_dust(t.output, n);
    assert(t.output[n].value == prevout_value - fee - dust(framed));
    assert(compliance::total_value(t.output, n + 1) == compliance::total_value(t.output, n)
        + t.output[n].value);
}

/// The scriptPubKey `OP_1 <word>`.
fn fake_key_spk(word: &[u8; 32]) -> (r: Vec<u8>)
    ensures
        r@ == scripts::p2tr_of(word@),
{
    let mut v: Vec<u8> = Vec::new();
    v.push(scripts::OP_PUSHNUM_1);
    v.push(32);
    v.extend_from_slice(word.as_slice());
    proof {
        assert(v@ =~= scripts::p2tr_of(word@));
    }
    v
}

/// The transaction that spends `prevout`, carries `framed` in place of keys and pays what the fee and
/// the data outputs leave to `change_to`.
pub fn build_tx(
    framed: &[u8],
    prevout: OutPoint,
    prevout_value: u64,
    change_to: &[u8],
    fee: u64,
    network: Network,
) -> (r: Result<Transaction, PackError>)
    ensures
        error::outcome(r, build_outcome(framed@, prevout@, prevout_value, change_to@, fee)),
{
    // The transaction is the same on every network.
    let _ = network;
    if framed.len() > u32::MAX as usize {
        return Err(PackError::LengthField(framed.len()));
    }
    let mut payload: Vec<u8> = bytes::copy_of(bytes::be_bytes(framed.len() as u32).as_slice());
    payload.extend_from_slice(framed);
    proof {
        assert(payload@ =~= prefixed(framed@));
        bytes::law_chunk_sizes(payload@, WORD as int);
    }
    let list = bytes::split_words(payload.as_slice());
    let ghost w = words(framed@);
    let mut output: Vec<TxOut> = Vec::new();
    let mut i: usize = 0;
    while i < list.len()
        invariant
            bytes::word_views(list@) == w,
            i <= list@.len(),
            tx::out_views(output@) == data_outputs(w).take(i as int),
        decreases list@.len() - i,
    {
        proof {
            assert(w[i as int] == list@[i as int]@);
        }
        let ghost before = tx::out_views(output@);
        let data_out = TxOut { value: DUST_PER_OUTPUT, script_pubkey: fake_key_spk(&list[i]) };
        let ghost added = data_out@;
        output.push(data_out);
        proof {
            assert(tx::out_views(output@) =~= before.push(added));
            assert(added =~= data_outputs(w)[i as int]);
            assert(data_outputs(w).take(i + 1) =~= before.push(added));
        }
        i = i + 1;
    }
    proof {
        assert(list@.len() == w.len());
        assert(w.len() <= 0x1000_0000);
    }
    let dust_total: u64 = DUST_PER_OUTPUT * (list.len() as u64);
    let change: u64 = match prevout_value.checked_sub(fee) {
        Some(v) => match v.checked_sub(dust_total) {
            Some(c) => c,
            None => {
                return Err(PackError::ValueTooSmall { fee, value: prevout_value });
            },
        },
        None => {
            return Err(PackError::ValueTooSmall { fee, value: prevout_value });
        },
    };
    output.push(TxOut { value: change, script_pubkey: bytes::copy_of(change_to) });
    proof {
        assert(data_outputs(w).take(i as int) =~= data_outputs(w));
        assert(tx::out_views(output@) =~= data_outputs(w).push(
            TxOutView { value: change, script_pubkey: change_to@ },
        ));
        assert(bytes::views(Seq::<Vec<u8>>::empty()) =~= Seq::<Seq<u8>>::empty());
    }
    Ok(tx::single_input_tx(2, prevout, tx::RBF_SEQUENCE, Vec::new(), output))
}

proof fn lemma_gathered_stays_err(output: Seq<TxOutView>, k: int, n: int)
    requires
        0 <= k <= n,
        gathered(output, k) is Err,
    ensures
        gathered(output, n) == gathered(output, k),
    decreases n,
{
    if k < n {
        lemma_gathered_stays_err(output, k, n - 1);
    }
}

/// The payload that a transaction carries in all outputs but the last.
pub fn decode(t: &Transaction) -> (r: Result<Vec<u8>, PackError>)
    ensures
        error::outcome(r, decoded(t@)),
{
    let n: usize = t.output.len();
    if n < 2 {
        return Err(PackError::TooFewOutputs(n));
    }
    let mut all: Vec<u8> = Vec::new();
    let mut i: usize = 0;
    while i < n - 1
        invariant
            2 <= n == t.output@.len(),
            i <= n - 1,
            gathered(t@.output, i as int) == Ok::<Seq<u8>, PackError>(all@),
            i >= 1 ==> all@.len() >= 32,
        decreases n - i,
    {
        let spk = t.output[i].script_pubkey.as_slice();
        proof {
            assert(t@.output[i as int].script_pubkey == spk@);
        }
        if !scripts::is_p2tr(spk) {
            proof {
                lemma_gathered_stays_err(t@.output, i + 1, n - 1);
            }
            return Err(PackError::NotADataOutput(i));
        }
        let ghost before = all@;
        let word = vstd::slice::slice_subrange(spk, 2, spk.len());
        all.extend_from_slice(word);
        proof {
            assert(word@ =~= spk@.skip(2));
            assert(all@ =~= before + spk@.skip(2));
        }
        i = i + 1;
    }
    let len: usize = ((all[0] as u32) * 0x100_0000 + (all[1] as u32) * 0x1_0000 + (all[2] as u32)
        * 0x100 + (all[3] as u32)) as usize;
    proof {
        assert(all@.take(4)[0] == all@[0]);
        assert(all@.take(4)[1] == all@[1]);
        assert(all@.take(4)[2] == all@[2]);
        assert(all@.take(4)[3] == all@[3]);
        assert(len == bytes::from_be_u32(all@.take(4)));
    }
    if len > all.len() - 4 {
        return Err(PackError::DeclaredLength { declared: len, available: all.len() - 4 });
    }
    Ok(bytes::copy_range(all.as_slice(), 4, 4 + len))
}

} // verus!
