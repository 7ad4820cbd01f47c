//! Data in fields that no rule restricts: the sequence number and the output amounts.
//!
//! ```text
//! sequence of the input   = length of the payload
//! value of output i       = base value + two bytes, most significant first
//! ```
//!
//! The change comes last. All outputs go to the same script, so they can all be spent. The version is
//! 1, under which the sequence number has no meaning as a lock time. Two bytes for each output: a
//! channel for small marks.
use crate::addresses::Network;
use crate::bip110;
use crate::bytes;
use crate::compliance;
use crate::error;
use crate::error::PackError;
use crate::tx;
use crate::tx::OutPoint;
use crate::tx::OutPointView;
use crate::tx::Transaction;
use crate::tx::TxOut;
use crate::tx::TxOutView;
use crate::tx::TxView;
use vstd::prelude::*;

verus! {

/// The base value of each data output.
pub const DUST_BASE: u64 = 1_000;

/// The bytes that one output carries.
pub const BYTES_PER_OUTPUT: usize = 2;

/// The pairs of bytes of a payload, the last one filled up with a zero.
pub open spec fn pairs(framed: Seq<u8>) -> Seq<Seq<u8>> {
    bytes::padded_chunks(framed, BYTES_PER_OUTPUT as int)
}

/// The value that stands for a pair.
pub open spec fn amount(pair: Seq<u8>) -> int {
    DUST_BASE + pair[0] * 0x100 + pair[1]
}

/// The outputs that carry the pairs.
pub open spec fn data_outputs(p: Seq<Seq<u8>>, to: Seq<u8>) -> Seq<TxOutView> {
    Seq::new(p.len(), |i: int| TxOutView { value: amount(p[i]) as u64, script_pubkey: to })
}

/// The value of the first `n` pairs together.
pub open spec fn data_total(p: Seq<Seq<u8>>, n: int) -> int
    decreases n,
{
    if n <= 0 {
        0
    } else {
        data_total(p, n - 1) + amount(p[n - 1])
    }
}

/// The value of all data outputs.
pub open spec fn data_value(framed: Seq<u8>) -> int {
    data_total(pairs(framed), pairs(framed).len() as int)
}

/// The transaction that carries a payload.
pub open spec fn data_view(framed: Seq<u8>, prevout: OutPointView, change: u64, to: Seq<u8>) -> TxView {
    tx::single_input(
        1,
        prevout,
        framed.len() as u32,
        Seq::empty(),
        data_outputs(pairs(framed), to).push(TxOutView { value: change, script_pubkey: to }),
    )
}

/// The transaction that carries a payload, or why there is none.
pub open spec fn build_outcome(
    framed: Seq<u8>,
    prevout: OutPointView,
    prevout_value: u64,
    to: Seq<u8>,
    fee: u64,
) -> Result<TxView, PackError> {
    if framed.len() > u32::MAX {
        Err(PackError::LengthField(framed.len() as usize))
    } else if fee + data_value(framed) > prevout_value {
        Err(PackError::ValueTooSmall { fee, value: prevout_value })
    } else {
        Ok(data_view(framed, prevout, (prevout_value - fee - data_value(framed)) as u64, to))
    }
}

/// The bytes that the values of the first `n` outputs stand for, or the first value that stands for
/// none.
pub open spec fn read_amounts(output: Seq<TxOutView>, n: int) -> Result<Seq<u8>, PackError>
    decreases n,
{
    if n <= 0 {
        Ok(Seq::empty())
    } else {
        match read_amounts(output, n - 1) {
            Err(e) => Err(e),
            Ok(before) => {
                let piece = output[n - 1].value - DUST_BASE;
                if piece < 0 {
                    Err(PackError::BelowBase((n - 1) as usize))
                } else if piece > 0xffff {
                    Err(PackError::AmountTooLarge { output: (n - 1) as usize, piece: piece as u64 })
                } else {
                    Ok(before + seq![(piece / 0x100) as u8, (piece % 0x100) as u8])
                }
            },
        }
    }
}

/// The payload that a transaction carries, or why there is none.
pub open spec fn decoded(t: TxView) -> Result<Seq<u8>, PackError> {
    if t.input.len() == 0 {
        Err(PackError::NoInputs)
    } else {
        let len = t.input[0].sequence as int;
        let needed = bytes::chunk_count(len, BYTES_PER_OUTPUT as int);
        if t.output.len() < needed {
            Err(
                PackError::MissingOutputs {
                    declared: len as usize,
                    needed: needed as usize,
                    outputs: t.output.len() as usize,
                },
            )
        } else {
            match read_amounts(t.output, needed) {
                Err(e) => Err(e),
                Ok(all) => Ok(all.take(len)),
            }
        }
    }
}

proof fn lemma_read_pairs(p: Seq<Seq<u8>>, output: Seq<TxOutView>, n: int)
    requires
        0 <= n <= p.len() <= output.len(),
        forall|i: int| 0 <= i < p.len() ==> (#[trigger] p[i]).len() == BYTES_PER_OUTPUT,
        forall|i: int| 0 <= i < p.len() ==> (#[trigger] output[i]).value == amount(p[i]),
    ensures
        read_amounts(output, n) == Ok::<Seq<u8>, PackError>(bytes::joined(p.take(n))),
    decreases n,
{
    if n == 0 {
        assert(bytes::joined(p.take(0)) =~= Seq::<u8>::empty());
    } else {
        lemma_read_pairs(p, output, n - 1);
        let pair = p[n - 1];
        assert(pair.len() == BYTES_PER_OUTPUT);
        assert(output[n - 1].value == amount(pair));
        let piece = output[n - 1].value - DUST_BASE;
        assert(piece / 0x100 == pair[0] && piece % 0x100 == pair[1]);
        assert(seq![(piece / 0x100) as u8, (piece % 0x100) as u8] =~= pair);
        assert(p.take(n).drop_last() =~= p.take(n - 1));
    }
}

/// Reading a data transaction gives the payload back.
pub proof fn law_roundtrip(framed: Seq<u8>, prevout: OutPointView, change: u64, to: Seq<u8>)
    requires
        framed.len() <= u32::MAX,
    ensures
        decoded(data_view(framed, prevout, change, to)) == Ok::<Seq<u8>, PackError>(framed),
{
    let t = data_view(framed, prevout, change, to);
    let p = pairs(framed);
    let n = p.len() as int;
    bytes::law_chunk_sizes(framed, BYTES_PER_OUTPUT as int);
    bytes::law_padded_chunks(framed, BYTES_PER_OUTPUT as int);
    assert forall|i: int| 0 <= i < p.len() implies (#[trigger] t.output[i]).value == amount(p[i]) by {
        assert(t.output[i] == data_outputs(p, to)[i]);
    }
    lemma_read_pairs(p, t.output, n);
    assert(p.take(n) =~= p);
}

/// A data transaction keeps every rule where the outputs go to a script within the output cap.
pub proof fn law_compliant(framed: Seq<u8>, prevout: OutPointView, change: u64, to: Seq<u8>)
    requires
        bip110::compliant_output(to),
    ensures
        bip110::compliant(data_view(framed, prevout, change, to)),
{
}

proof fn lemma_total(p: Seq<Seq<u8>>, output: Seq<TxOutView>, n: int)
    requires
        0 <= n <= p.len() <= output.len(),
        forall|i: int| 0 <= i < p.len() ==> (#[trigger] output[i]).value == amount(p[i]),
    ensures
        compliance::total_value(output, n) == data_total(p, n),
    decreases n,
{
    if n > 0 {
        lemma_total(p, output, n - 1);
        assert(output[n - 1].value == amount(p[n - 1]));
    }
}

/// A data transaction pays out what it spends less the fee.
pub proof fn law_value(
    framed: Seq<u8>,
    prevout: OutPointView,
    prevout_value: u64,
    to: Seq<u8>,
    fee: u64,
)
    requires
        fee + data_value(framed) <= prevout_value,
    ensures
        ({
            let change = (prevout_value - fee - data_value(framed)) as u64;
            let t = data_view(framed, prevout, change, to);
            compliance::total_value(t.output, t.output.len() as int) + fee == prevout_value
        }),
{
    let change = (prevout_value - fee - data_value(framed)) as u64;
    let t = data_view(framed, prevout, change, to);
    let p = pairs(framed);
    let n = p.len() as int;
    lemma_total_bound(p, n);
    assert forall|i: int| 0 <= i < p.len() implies (#[trigger] t.output[i]).value == amount(p[i]) by {
        assert(t.output[i] == data_outputs(p, to)[i]);
    }
    lemma_total(p, t.output, n);
    assert(t.output[n].value == change);
    assert(compliance::total_value(t.output, n + 1) == compliance::total_value(t.output, n)
        + t.output[n].value);
}

proof fn lemma_total_bound(p: Seq<Seq<u8>>, n: int)
    requires
        0 <= n,
    ensures
        0 <= data_total(p, n) <= 66_535 * n,
    decreases n,
{
    if n > 0 {
        lemma_total_bound(p, n - 1);
    }
}

/// The transaction that spends `prevout`, carries `framed` in its sequence number and amounts, and
/// pays what the fee and the data outputs leave to `change_to`. It is not signed.
pub fn build_tx(
    framed: &[u8],
    prevout: OutPoint,
    prevout_value: u64,
    change_to: &[u8],
    fee: u64,
    network: Network,
) -> (r: Result<Transaction, PackError>)
    ensures
        error::outcome(r, build_outcome(framed@, prevout@, prevout_value, change_to@, fee)),
{
    // The transaction is the same on every network.
    let _ = network;
    if framed.len() > u32::MAX as usize {
        return Err(PackError::LengthField(framed.len()));
    }
    let parts = bytes::split_chunks(framed, BYTES_PER_OUTPUT);
    let ghost c = bytes::chunks(framed@, BYTES_PER_OUTPUT as int);
    let ghost p = pairs(framed@);
    proof {
        bytes::law_chunk_sizes(framed@, BYTES_PER_OUTPUT as int);
    }
    let mut output: Vec<TxOut> = Vec::new();
    let mut total: u64 = 0;
    let mut i: usize = 0;
    while i < parts.len()
        invariant
            bytes::views(parts@) == c,
            c == bytes::chunks(framed@, BYTES_PER_OUTPUT as int),
            p == pairs(framed@),
            parts@.len() <= 0x8000_0000,
            i <= parts@.len(),
            forall|k: int| 0 <= k < c.len() ==> 0 < #[trigger] c[k].len() <= BYTES_PER_OUTPUT,
            total == data_total(p, i as int),
            tx::out_views(output@) == data_outputs(p, change_to@).take(i as int),
        decreases parts@.len() - i,
    {
        proof {
            assert(c[i as int] == parts@[i as int]@);
            lemma_total_bound(p, i as int);
        }
        let high: u64 = parts[i][0] as u64;
        let low: u64 = if parts[i].len() == 2 {
            parts[i][1] as u64
        } else {
            0
        };
        let value: u64 = DUST_BASE + high * 0x100 + low;
        proof {
            assert(value == amount(p[i as int]));
        }
        total = total + value;
        let ghost before = tx::out_views(output@);
        let data_out = TxOut { value, script_pubkey: bytes::copy_of(change_to) };
        let ghost added = data_out@;
        output.push(data_out);
        proof {
            assert(tx::out_views(output@) =~= before.push(added));
            assert(added =~= data_outputs(p, change_to@)[i as int]);
            assert(data_outputs(p, change_to@).take(i + 1) =~= before.push(added));
        }
        i = i + 1;
    }
    let change: u64 = match prevout_value.checked_sub(fee) {
        Some(v) => match v.checked_sub(total) {
            Some(x) => x,
            None => {
                return Err(PackError::ValueTooSmall { fee, value: prevout_value });
            },
        },
        None => {
            proof {
                lemma_total_bound(p, p.len() as int);
            }
            return Err(PackError::ValueTooSmall { fee, value: prevout_value });
        },
    };
    output.push(TxOut { value: change, script_pubkey: bytes::copy_of(change_to) });
    proof {
        assert(data_outputs(p, change_to@).take(i as int) =~= data_outputs(p, change_to@));
        assert(tx::out_views(output@) =~= data_outputs(p, change_to@).push(
            TxOutView { value: change, script_pubkey: change_to@ },
        ));
        assert(bytes::views(Seq::<Vec<u8>>::empty()) =~= Seq::<Seq<u8>>::empty());
    }
    Ok(tx::single_input_tx(1, prevout, framed.len() as u32, Vec::new(), output))
}

proof fn lemma_read_stays_err(output: Seq<TxOutView>, k: int, n: int)
    requires
        0 <= k <= n,
        read_amounts(output, k) is Err,
    ensures
        read_amounts(output, n) == read_amounts(output, k),
    decreases n,
{
    if k < n {
        lemma_read_stays_err(output, k, n - 1);
    }
}

/// The payload that a transaction carries in the sequence number of its first input and in the
/// amounts of its first outputs.
pub fn decode(t: &Transaction) -> (r: Result<Vec<u8>, PackError>)
    ensures
        error::outcome(r, decoded(t@)),
{
    if t.input.len() == 0 {
        return Err(PackError::NoInputs);
    }
    let len: usize = t.input[0].sequence as usize;
    proof {
        assert(t@.input[0].sequence == len);
    }
    let needed: usize = len / BYTES_PER_OUTPUT + len % BYTES_PER_OUTPUT;
    if t.output.len() < needed {
        return Err(PackError::MissingOutputs { declared: len, needed, outputs: t.output.len() });
    }
    let mut out: Vec<u8> = Vec::new();
    let mut i: usize = 0;
    while i < needed
        invariant
            i <= needed <= t.output@.len(),
            t@.input.len() > 0,
            t@.input[0].sequence == len,
            needed == bytes::chunk_count(len as int, BYTES_PER_OUTPUT as int),
            out@.len() == 2 * i,
            read_amounts(t@.output, i as int) == Ok::<Seq<u8>, PackError>(out@),
        decreases needed - i,
    {
        let value: u64 = t.output[i].value;
        proof {
            assert(t@.output[i as int].value == value);
        }
        if value < DUST_BASE {
            proof {
                lemma_read_stays_err(t@.output, i + 1, needed as int);
            }
            return Err(PackError::BelowBase(i));
        }
        let piece: u64 = value - DUST_BASE;
        if piece > 0xffff {
            proof {
                lemma_read_stays_err(t@.output, i + 1, needed as int);
            }
            return Err(PackError::AmountTooLarge { output: i, piece });
        }
        let ghost before = out@;
        out.push((piece / 0x100) as u8);
        out.push((piece % 0x100) as u8);
        proof {
            assert(out@ =~= before + seq![(piece / 0x100) as u8, (piece % 0x100) as u8]);
        }
        i = i + 1;
    }
    let ghost all = out@;
    out.truncate(len);
    proof {
        assert(out@ =~= all.take(len as int));
    }
    Ok(out)
}

} // verus!
