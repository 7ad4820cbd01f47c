//! Transactions: their parts as plain values, their weight, and their byte encoding.
use crate::bytes;
use bitcoin::absolute::LockTime;
use bitcoin::consensus::encode;
use bitcoin::sighash::{Prevouts, SighashCache, TapSighashType};
use bitcoin::taproot::TapLeafHash;
use bitcoin::transaction::Version;
use bitcoin::{Amount, Sequence};
use vstd::prelude::*;

verus! {

/// The output that an input spends.
#[derive(Debug, Clone, Copy, PartialEq, Eq)]
pub struct OutPoint {
    /// The id of the transaction, in the byte order of its hash.
    pub txid: [u8; 32],
    /// The index of the output.
    pub vout: u32,
}

/// An input.
#[derive(Debug, Clone, PartialEq, Eq)]
pub struct TxIn {
    /// The output spent.
    pub previous_output: OutPoint,
    /// The scriptSig.
    pub script_sig: Vec<u8>,
    /// The sequence number.
    pub sequence: u32,
    /// The witness stack, bottom first.
    pub witness: Vec<Vec<u8>>,
}

/// An output.
#[derive(Debug, Clone, PartialEq, Eq)]
pub struct TxOut {
    /// The value in satoshi.
    pub value: u64,
    /// The scriptPubKey.
    pub script_pubkey: Vec<u8>,
}

/// A transaction.
#[derive(Debug, Clone, PartialEq, Eq)]
pub struct Transaction {
    /// The version.
    pub version: i32,
    /// The lock time.
    pub lock_time: u32,
    /// The inputs.
    pub input: Vec<TxIn>,
    /// The outputs.
    pub output: Vec<TxOut>,
}

/// A spent output as a mathematical value.
#[verifier::ext_equal]
pub struct OutPointView {
    pub txid: Seq<u8>,
    pub vout: u32,
}

/// An input as a mathematical value.
#[verifier::ext_equal]
pub struct TxInView {
    pub previous_output: OutPointView,
    pub script_sig: Seq<u8>,
    pub sequence: u32,
    pub witness: Seq<Seq<u8>>,
}

/// An output as a mathematical value.
#[verifier::ext_equal]
pub struct TxOutView {
    pub value: u64,
    pub script_pubkey: Seq<u8>,
}

/// A transaction as a mathematical value.
#[verifier::ext_equal]
pub struct TxView {
    pub version: i32,
    pub lock_time: u32,
    pub input: Seq<TxInView>,
    pub output: Seq<TxOutView>,
}

impl View for OutPoint {
    type V = OutPointView;

    open spec fn view(&self) -> OutPointView {
        OutPointView { txid: self.txid@, vout: self.vout }
    }
}

impl View for TxIn {
    type V = TxInView;

    open spec fn view(&self) -> TxInView {
        TxInView {
            previous_output: self.previous_output@,
            script_sig: self.script_sig@,
            sequence: self.sequence,
            witness: bytes::views(self.witness@),
        }
    }
}

impl View for TxOut {
    type V = TxOutView;

    open spec fn view(&self) -> TxOutView {
        TxOutView { value: self.value, script_pubkey: self.script_pubkey@ }
    }
}

impl View for Transaction {
    type V = TxView;

    open spec fn view(&self) -> TxView {
        TxView {
            version: self.version,
            lock_time: self.lock_time,
            input: Seq::new(self.input@.len(), |i: int| self.input@[i]@),
            output: out_views(self.output@),
        }
    }
}

/// The outputs held by a sequence of executable ones.
pub open spec fn out_views(s: Seq<TxOut>) -> Seq<TxOutView> {
    Seq::new(s.len(), |i: int| s[i]@)
}

/// The sequence number that signals replaceability and leaves the lock time off.
pub const RBF_SEQUENCE: u32 = 0xffff_fffd;

/// The transaction with one input, an empty scriptSig and no lock time.
pub open spec fn single_input(
    version: i32,
    prevout: OutPointView,
    sequence: u32,
    witness: Seq<Seq<u8>>,
    output: Seq<TxOutView>,
) -> TxView {
    TxView {
        version,
        lock_time: 0,
        input: seq![
            TxInView {
                previous_output: prevout,
                script_sig: Seq::empty(),
                sequence,
                witness,
            },
        ],
        output,
    }
}

/// The version 2 transaction that spends `prevout` with this witness into these outputs.
pub open spec fn spending(
    prevout: OutPointView,
    witness: Seq<Seq<u8>>,
    output: Seq<TxOutView>,
) -> TxView {
    single_input(2, prevout, RBF_SEQUENCE, witness, output)
}

/// The transaction with one input, an empty scriptSig and no lock time.
pub fn single_input_tx(
    version: i32,
    prevout: OutPoint,
    sequence: u32,
    witness: Vec<Vec<u8>>,
    output: Vec<TxOut>,
) -> (r: Transaction)
    ensures
        r@ == single_input(
            version,
            prevout@,
            sequence,
            bytes::views(witness@),
            out_views(output@),
        ),
        r.version == version,
        r.lock_time == 0,
        r.input@.len() == 1,
        r.input@[0].previous_output == prevout,
        r.input@[0].script_sig@.len() == 0,
        r.input@[0].sequence == sequence,
        r.input@[0].witness == witness,
        r.output == output,
{
    let ghost expected = single_input(
        version,
        prevout@,
        sequence,
        bytes::views(witness@),
        out_views(output@),
    );
    let mut input: Vec<TxIn> = Vec::new();
    input.push(TxIn { previous_output: prevout, script_sig: Vec::new(), sequence, witness });
    let r = Transaction { version, lock_time: 0, input, output };
    proof {
        assert(r@.input[0] =~= expected.input[0]);
        assert(r@ =~= expected);
    }
    r
}

/// The transaction that spends an output with a witness into outputs has one input, which spends just
/// that output and has just that witness, and just those outputs.
pub proof fn law_spending(prevout: OutPointView, witness: Seq<Seq<u8>>, output: Seq<TxOutView>)
    ensures
        ({
            let t = spending(prevout, witness, output);
            &&& t.version == 2
            &&& t.lock_time == 0
            &&& t.input.len() == 1
            &&& t.input[0].previous_output.txid == prevout.txid
            &&& t.input[0].previous_output.vout == prevout.vout
            &&& t.input[0].script_sig.len() == 0
            &&& t.input[0].sequence == 0xffff_fffd
            &&& t.input[0].witness == witness
            &&& t.output == output
        }),
{
}

/// The mathematical value of a transaction holds each of its fields, each input, each witness item and
/// each output.
pub proof fn law_view_holds_every_field(t: Transaction)
    ensures
        t@.version == t.version,
        t@.lock_time == t.lock_time,
        t@.input.len() == t.input@.len(),
        forall|i: int|
            0 <= i < t.input@.len() ==> {
                &&& (#[trigger] t@.input[i]).previous_output.txid == t.input@[i].previous_output.txid@
                &&& t@.input[i].previous_output.vout == t.input@[i].previous_output.vout
                &&& t@.input[i].script_sig == t.input@[i].script_sig@
                &&& t@.input[i].sequence == t.input@[i].sequence
                &&& t@.input[i].witness.len() == t.input@[i].witness@.len()
                &&& forall|k: int|
                    0 <= k < t.input@[i].witness@.len() ==> #[trigger] t@.input[i].witness[k]
                        == t.input@[i].witness@[k]@
            },
        t@.output.len() == t.output@.len(),
        forall|i: int|
            0 <= i < t.output@.len() ==> (#[trigger] t@.output[i]).value == t.output@[i].value
                && t@.output[i].script_pubkey == t.output@[i].script_pubkey@,
{
}

/// The bytes of a length prefix for `n`.
pub open spec fn compact_size(n: int) -> int {
    if n < 0xfd {
        1
    } else if n <= 0xffff {
        3
    } else if n <= 0xffff_ffff {
        5
    } else {
        9
    }
}

/// A byte string with its length prefix.
pub open spec fn prefixed_size(s: Seq<u8>) -> int {
    compact_size(s.len() as int) + s.len()
}

/// The first `n` witness items, each with its length prefix.
pub open spec fn items_size(items: Seq<Seq<u8>>, n: int) -> int
    decreases n,
{
    if n <= 0 {
        0
    } else {
        items_size(items, n - 1) + prefixed_size(items[n - 1])
    }
}

/// A witness stack: the number of its items, and the items.
pub open spec fn witness_size(items: Seq<Seq<u8>>) -> int {
    compact_size(items.len() as int) + items_size(items, items.len() as int)
}

/// The first `n` inputs without their witnesses.
pub open spec fn inputs_size(input: Seq<TxInView>, n: int) -> int
    decreases n,
{
    if n <= 0 {
        0
    } else {
        inputs_size(input, n - 1) + 36 + prefixed_size(input[n - 1].script_sig) + 4
    }
}

/// The witnesses of the first `n` inputs.
pub open spec fn witnesses_size(input: Seq<TxInView>, n: int) -> int
    decreases n,
{
    if n <= 0 {
        0
    } else {
        witnesses_size(input, n - 1) + witness_size(input[n - 1].witness)
    }
}

/// The first `n` outputs.
pub open spec fn outputs_size(output: Seq<TxOutView>, n: int) -> int
    decreases n,
{
    if n <= 0 {
        0
    } else {
        outputs_size(output, n - 1) + 8 + prefixed_size(output[n - 1].script_pubkey)
    }
}

/// The transaction without its witness part.
pub open spec fn base_size(tx: TxView) -> int {
    4 + compact_size(tx.input.len() as int) + inputs_size(tx.input, tx.input.len() as int)
        + compact_size(tx.output.len() as int) + outputs_size(tx.output, tx.output.len() as int) + 4
}

/// Whether the transaction is encoded with a marker, a flag and witnesses.
pub open spec fn uses_segwit(tx: TxView) -> bool {
    ||| tx.input.len() == 0
    ||| exists|i: int| 0 <= i < tx.input.len() && (#[trigger] tx.input[i]).witness.len() > 0
}

/// The witness part of the transaction: marker, flag and witnesses.
pub open spec fn witness_part_size(tx: TxView) -> int {
    if uses_segwit(tx) {
        2 + witnesses_size(tx.input, tx.input.len() as int)
    } else {
        0
    }
}

/// The weight of a transaction: four for each byte outside the witness part, one for each byte in
/// it.
pub open spec fn tx_weight(tx: TxView) -> int {
    4 * base_size(tx) + witness_part_size(tx)
}

/// Whether every witness stack is small enough to be held by a `bitcoin::Witness`.
pub open spec fn witnesses_fit(tx: TxView) -> bool {
    forall|i: int|
        0 <= i < tx.input.len() ==> witness_size((#[trigger] tx.input[i]).witness) <= u32::MAX
}

/// Whether the transaction is small enough for the outside encoder, and its weight for a machine
/// word.
pub open spec fn encodable(tx: TxView) -> bool {
    witnesses_fit(tx) && tx_weight(tx) <= usize::MAX
}

/// The size of the whole encoding.
pub open spec fn tx_size(tx: TxView) -> int {
    base_size(tx) + witness_part_size(tx)
}

/// The most bytes that the items of one witness stack, with their length prefixes, may take in an
/// encoding that is read back.
pub const MAX_WITNESS_BYTES: u64 = 4_000_000;

/// Whether the encoding of the transaction can be read back.
pub open spec fn readable(tx: TxView) -> bool {
    forall|i: int|
        0 <= i < tx.input.len() ==> items_size(
            (#[trigger] tx.input[i]).witness,
            tx.input[i].witness.len() as int,
        ) <= MAX_WITNESS_BYTES
}

proof fn lemma_items_size_grows(items: Seq<Seq<u8>>, k: int, n: int)
    requires
        0 <= k <= n,
    ensures
        0 <= items_size(items, k) <= items_size(items, n),
    decreases n,
{
    if k < n {
        lemma_items_size_grows(items, k, n - 1);
    } else if n > 0 {
        lemma_items_size_grows(items, n - 1, n - 1);
    }
}

proof fn lemma_inputs_size_grows(input: Seq<TxInView>, k: int, n: int)
    requires
        0 <= k <= n,
    ensures
        0 <= inputs_size(input, k) <= inputs_size(input, n),
        0 <= witnesses_size(input, k) <= witnesses_size(input, n),
    decreases n,
{
    if k < n {
        lemma_inputs_size_grows(input, k, n - 1);
        lemma_items_size_grows(input[n - 1].witness, 0, input[n - 1].witness.len() as int);
    } else if n > 0 {
        lemma_inputs_size_grows(input, n - 1, n - 1);
        lemma_items_size_grows(input[n - 1].witness, 0, input[n - 1].witness.len() as int);
    }
}

proof fn lemma_outputs_size_grows(output: Seq<TxOutView>, k: int, n: int)
    requires
        0 <= k <= n,
    ensures
        0 <= outputs_size(output, k) <= outputs_size(output, n),
    decreases n,
{
    if k < n {
        lemma_outputs_size_grows(output, k, n - 1);
    } else if n > 0 {
        lemma_outputs_size_grows(output, n - 1, n - 1);
    }
}

proof fn lemma_witness_within_total(input: Seq<TxInView>, i: int, n: int)
    requires
        0 <= i < n,
    ensures
        items_size(input[i].witness, input[i].witness.len() as int) <= witnesses_size(input, n),
    decreases n,
{
    lemma_items_size_grows(input[i].witness, 0, input[i].witness.len() as int);
    lemma_inputs_size_grows(input, 0, n - 1);
    if i < n - 1 {
        lemma_witness_within_total(input, i, n - 1);
        lemma_items_size_grows(input[n - 1].witness, 0, input[n - 1].witness.len() as int);
    }
}

/// A transaction that fits into a block can be read back from its encoding.
pub proof fn law_what_fits_a_block_is_readable(t: TxView)
    requires
        tx_weight(t) <= 4_000_000,
    ensures
        readable(t),
{
    let n = t.input.len() as int;
    lemma_inputs_size_grows(t.input, 0, n);
    lemma_outputs_size_grows(t.output, 0, t.output.len() as int);
    assert forall|i: int| 0 <= i < n implies items_size(
        (#[trigger] t.input[i]).witness,
        t.input[i].witness.len() as int,
    ) <= MAX_WITNESS_BYTES by {
        if t.input[i].witness.len() > 0 {
            assert(uses_segwit(t));
            lemma_witness_within_total(t.input, i, n);
        }
    }
}

/// A transaction can be encoded exactly where its weight fits a machine word and no witness stack, with
/// its length prefixes, takes more than 32 bits can count; every one that fits into a block can.
pub proof fn law_encodable_exactly(t: TxView)
    ensures
        encodable(t) <==> tx_weight(t) <= usize::MAX && forall|i: int|
            0 <= i < t.input.len() ==> compact_size((#[trigger] t.input[i]).witness.len() as int)
                + items_size(t.input[i].witness, t.input[i].witness.len() as int) <= 0xffff_ffff,
        tx_weight(t) <= 4_000_000 ==> encodable(t),
{
    if tx_weight(t) <= 4_000_000 {
        law_what_fits_a_block_is_readable(t);
    }
}

/// The bytes of a length prefix for `n`.
fn compact_len(n: usize) -> (r: u128)
    ensures
        r == compact_size(n as int),
{
    if n < 0xfd {
        1
    } else if n <= 0xffff {
        3
    } else if n as u64 <= 0xffff_ffff {
        5
    } else {
        9
    }
}

/// The size of a witness stack; `None` where it is more than a `bitcoin::Witness` holds.
fn witness_len(items: &Vec<Vec<u8>>) -> (r: Option<u128>)
    ensures
        match r {
            Some(n) => n == witness_size(bytes::views(items@)) && n <= u32::MAX,
            None => witness_size(bytes::views(items@)) > u32::MAX,
        },
{
    let ghost v = bytes::views(items@);
    let count: u128 = compact_len(items.len());
    let mut total: u128 = 0;
    let mut i: usize = 0;
    while i < items.len()
        invariant
            v == bytes::views(items@),
            i <= items@.len(),
            total == items_size(v, i as int),
            count == compact_size(v.len() as int),
            1 <= count <= 9,
            total <= u32::MAX,
        decreases items@.len() - i,
    {
        proof {
            assert(v[i as int] == items@[i as int]@);
        }
        let len: usize = items[i].len();
        total = total + compact_len(len) + len as u128;
        if total > u32::MAX as u128 {
            proof {
                lemma_items_size_grows(v, i + 1, v.len() as int);
            }
            return None;
        }
        i = i + 1;
    }
    if total + count > u32::MAX as u128 {
        None
    } else {
        Some(total + count)
    }
}

/// Whether the transaction is small enough for the outside encoder, and its weight for a machine
/// word.
pub fn is_encodable(tx: &Transaction) -> (r: bool)
    ensures
        r == encodable(tx@),
{
    let ghost t = tx@;
    let max: u128 = usize::MAX as u128;
    let mut base: u128 = 8 + compact_len(tx.input.len()) + compact_len(tx.output.len());
    let fixed: u128 = base;
    let mut witnesses: u128 = 0;
    let mut segwit: bool = tx.input.len() == 0;
    let mut i: usize = 0;
    while i < tx.input.len()
        invariant
            t == tx@,
            i <= tx.input@.len(),
            max == usize::MAX,
            10 <= fixed <= 26,
            fixed == 8 + compact_size(t.input.len() as int) + compact_size(t.output.len() as int),
            base == fixed + inputs_size(t.input, i as int),
            base <= max + 26,
            witnesses == witnesses_size(t.input, i as int),
            witnesses <= u32::MAX * i,
            segwit <==> (t.input.len() == 0 || exists|k: int|
                0 <= k < i && (#[trigger] t.input[k]).witness.len() > 0),
            forall|k: int| 0 <= k < i ==> witness_size((#[trigger] t.input[k]).witness) <= u32::MAX,
        decreases tx.input@.len() - i,
    {
        proof {
            assert(t.input[i as int] == tx.input@[i as int]@);
        }
        let len: usize = tx.input[i].script_sig.len();
        base = base + 40 + compact_len(len) + len as u128;
        match witness_len(&tx.input[i].witness) {
            Some(n) => {
                witnesses = witnesses + n;
            },
            None => {
                return false;
            },
        }
        if tx.input[i].witness.len() > 0 {
            proof {
                assert(t.input[i as int].witness.len() > 0);
            }
            segwit = true;
        }
        if base > max {
            proof {
                lemma_inputs_size_grows(t.input, i + 1, t.input.len() as int);
                lemma_inputs_size_grows(t.input, 0, t.input.len() as int);
                lemma_outputs_size_grows(t.output, 0, t.output.len() as int);
            }
            return false;
        }
        i = i + 1;
    }
    let mut j: usize = 0;
    let ghost with_inputs = base;
    while j < tx.output.len()
        invariant
            t == tx@,
            j <= tx.output@.len(),
            max == usize::MAX,
            with_inputs <= max + 26,
            with_inputs == 8 + compact_size(t.input.len() as int) + compact_size(
                t.output.len() as int,
            ) + inputs_size(t.input, t.input.len() as int),
            base == with_inputs + outputs_size(t.output, j as int),
            base <= max + 26,
        decreases tx.output@.len() - j,
    {
        proof {
            assert(t.output[j as int] == tx.output@[j as int]@);
        }
        let len: usize = tx.output[j].script_pubkey.len();
        base = base + 8 + compact_len(len) + len as u128;
        if base > max {
            proof {
                lemma_outputs_size_grows(t.output, j + 1, t.output.len() as int);
                lemma_inputs_size_grows(t.input, 0, t.input.len() as int);
            }
            return false;
        }
        j = j + 1;
    }
    let part: u128 = if segwit {
        2 + witnesses
    } else {
        0
    };
    4 * base + part <= max
}

/// `bitcoin::Transaction::weight`: four times the size without witnesses plus the size of marker,
/// flag and witnesses.
#[verifier::external_body]
pub(crate) fn weight(tx: &Transaction) -> (r: u64)
    requires
        witnesses_fit(tx@),
        tx_weight(tx@) <= usize::MAX,
    ensures
        r == tx_weight(tx@),
{
    let input = tx.input.iter().map(|i| bitcoin::TxIn {
        previous_output: bitcoin::OutPoint::new(
            bitcoin::hashes::Hash::from_byte_array(i.previous_output.txid), i.previous_output.vout),
        script_sig: i.script_sig.clone().into(),
        sequence: Sequence(i.sequence),
        witness: bitcoin::Witness::from_slice(&i.witness),
    }).collect();
    let output = tx.output.iter().map(|o| bitcoin::TxOut {
        value: Amount::from_sat(o.value), script_pubkey: o.script_pubkey.clone().into() }).collect();
    let (version, lock_time) = (Version(tx.version), LockTime::from_consensus(tx.lock_time));
    bitcoin::Transaction { version, lock_time, input, output }.weight().to_wu()
}

/// The bytes that `bitcoin::consensus::encode::serialize` gives for a transaction.
pub uninterp spec fn tx_encoding(tx: TxView) -> Seq<u8>;

/// The transaction that `bitcoin::consensus::encode::deserialize` reads from these bytes.
pub uninterp spec fn tx_decoding(raw: Seq<u8>) -> Option<TxView>;

/// `bitcoin::consensus::encode::serialize`: the consensus encoding of the transaction. It has the
/// size of its parts, and where no witness stack is too large to be read, `deserialize` reads the
/// transaction back from it.
#[verifier::external_body]
pub(crate) fn serialize(tx: &Transaction) -> (r: Vec<u8>)
    requires
        witnesses_fit(tx@),
    ensures
        r@ == tx_encoding(tx@),
        r@.len() == tx_size(tx@),
        readable(tx@) ==> tx_decoding(r@) == Some(tx@),
{
    let input = tx.input.iter().map(|i| bitcoin::TxIn {
        previous_output: bitcoin::OutPoint::new(
            bitcoin::hashes::Hash::from_byte_array(i.previous_output.txid), i.previous_output.vout),
        script_sig: i.script_sig.clone().into(),
        sequence: Sequence(i.sequence),
        witness: bitcoin::Witness::from_slice(&i.witness),
    }).collect();
    let output = tx.output.iter().map(|o| bitcoin::TxOut {
        value: Amount::from_sat(o.value), script_pubkey: o.script_pubkey.clone().into() }).collect();
    let (version, lock_time) = (Version(tx.version), LockTime::from_consensus(tx.lock_time));
    encode::serialize(&bitcoin::Transaction { version, lock_time, input, output })
}

/// The error of `bitcoin::consensus::encode`; nothing in it is looked at.
#[verifier::external_type_specification]
#[verifier::external_body]
pub struct ExEncodeError(bitcoin::consensus::encode::Error);

/// `bitcoin::consensus::encode::deserialize` of a transaction: a function of the bytes.
#[verifier::external_body]
pub(crate) fn deserialize(raw: &[u8]) -> (r: Result<Transaction, bitcoin::consensus::encode::Error>)
    ensures
        match r {
            Ok(tx) => tx_decoding(raw@) == Some(tx@),
            Err(_) => tx_decoding(raw@) is None,
        },
{
    encode::deserialize::<bitcoin::Transaction>(raw).map(|t| Transaction {
        version: t.version.0,
        lock_time: t.lock_time.to_consensus_u32(),
        input: t.input.iter().map(|i| TxIn {
            previous_output: OutPoint {
                txid: bitcoin::hashes::Hash::to_byte_array(i.previous_output.txid),
                vout: i.previous_output.vout },
            script_sig: i.script_sig.to_bytes(),
            sequence: i.sequence.0,
            witness: i.witness.to_vec() }).collect(),
        output: t.output.iter().map(|o| TxOut {
            value: o.value.to_sat(), script_pubkey: o.script_pubkey.to_bytes() }).collect(),
    })
}

/// The text of the id that `bitcoin::Transaction::compute_txid` gives a transaction.
pub uninterp spec fn txid_text(tx: TxView) -> Seq<char>;

/// `bitcoin::Transaction::compute_txid`, as text.
#[verifier::external_body]
pub(crate) fn txid(tx: &Transaction) -> (r: String)
    requires
        witnesses_fit(tx@),
    ensures
        r@ == txid_text(tx@),
{
    let input = tx.input.iter().map(|i| bitcoin::TxIn {
        previous_output: bitcoin::OutPoint::new(
            bitcoin::hashes::Hash::from_byte_array(i.previous_output.txid), i.previous_output.vout),
        script_sig: i.script_sig.clone().into(),
        sequence: Sequence(i.sequence),
        witness: bitcoin::Witness::from_slice(&i.witness),
    }).collect();
    let output = tx.output.iter().map(|o| bitcoin::TxOut {
        value: Amount::from_sat(o.value), script_pubkey: o.script_pubkey.clone().into() }).collect();
    let (version, lock_time) = (Version(tx.version), LockTime::from_consensus(tx.lock_time));
    bitcoin::Transaction { version, lock_time, input, output }.compute_txid().to_string()
}

/// The BIP341 script-path signature hash that `SighashCache::taproot_script_spend_signature_hash`
/// gives for the only input of a transaction, the output it spends and its leaf, under the default
/// hash type.
pub uninterp spec fn sighash_of(tx: TxView, prevout: TxOutView, leaf_hash: Seq<u8>) -> [u8; 32];

/// `bitcoin::sighash::SighashCache::taproot_script_spend_signature_hash` for the only input of an
/// encoded transaction, with `TapSighashType::Default`: a function of the transaction that
/// `deserialize` reads, the spent output and the leaf hash. With one input and one spent output it
/// does not fail.
#[verifier::external_body]
pub(crate) fn sighash(raw: &[u8], prevout: &TxOut, leaf_hash: &[u8; 32]) -> (r: [u8; 32])
    requires
        tx_decoding(raw@) is Some,
        tx_decoding(raw@)->Some_0.input.len() == 1,
    ensures
        r == sighash_of(tx_decoding(raw@)->Some_0, prevout@, leaf_hash@),
{
    let tx: bitcoin::Transaction = encode::deserialize(raw).expect("an encoded transaction");
    let value = Amount::from_sat(prevout.value);
    let spent = bitcoin::TxOut { value, script_pubkey: prevout.script_pubkey.clone().into() };
    let leaf = <TapLeafHash as bitcoin::hashes::Hash>::from_byte_array(*leaf_hash);
    let hash = SighashCache::new(tx).taproot_script_spend_signature_hash(
        0, &Prevouts::All(&[spent]), leaf, TapSighashType::Default);
    bitcoin::hashes::Hash::to_byte_array(hash.expect("one spent output"))
}

} // verus!
