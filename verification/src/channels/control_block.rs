//! Data in the control block of a taproot script-path spend.
//!
//! The leaf is a bare `OP_1` and holds no data. The bytes ride in what consensus does not constrain:
//! 31 in the internal key, whose last byte is ground until the 32 are a valid key, and 32 in each of
//! up to seven sibling hashes. A length byte in front says how much of it is payload:
//!
//! ```text
//! [len] framed 0...0  =  key[0..31]  sibling  sibling ...
//! ```
//!
//! With seven siblings the control block has 257 bytes, the most that is allowed. The order in which
//! a sibling is hashed with its node does not matter to the reader: siblings are stored leaf to root.
use crate::addresses;
use crate::addresses::Address;
use crate::addresses::AddressView;
use crate::addresses::Network;
use crate::bip110;
use crate::bytes;
use crate::compliance;
use crate::error;
use crate::error::PackError;
use crate::scripts;
use crate::scripts::Ins;
use crate::taproot;
use crate::taproot_spend;
use crate::tx;
use crate::tx::OutPoint;
use crate::tx::OutPointView;
use crate::tx::Transaction;
use crate::tx::TxView;
use vstd::prelude::*;

verus! {

/// The data bytes of the internal key; its last byte is ground.
pub const IK_DATA: usize = 31;

/// The most siblings that a control block may hold.
pub const MAX_SIBLINGS: usize = 7;

/// The most bytes that the channel carries: key and siblings less the length byte.
pub const MAX_PAYLOAD: usize = 254;

/// What a payload is committed to with.
#[derive(Debug, Clone, PartialEq, Eq)]
pub struct Commitment {
    /// The leaf, a bare `OP_1`.
    pub script: Vec<u8>,
    /// The control block, which carries the payload.
    pub control_block: Vec<u8>,
    /// The internal key.
    pub internal_key: [u8; 32],
    /// The root over the leaf and the siblings.
    pub merkle_root: [u8; 32],
}

/// The leaf, a bare `OP_1`.
pub open spec fn leaf() -> Seq<u8> {
    seq![scripts::OP_PUSHNUM_1]
}

/// The payload with its length byte.
pub open spec fn embedded(framed: Seq<u8>) -> Seq<u8> {
    seq![framed.len() as u8] + framed
}

/// The part of it that the internal key carries.
pub open spec fn key_part(framed: Seq<u8>) -> Seq<u8> {
    if embedded(framed).len() <= IK_DATA {
        embedded(framed)
    } else {
        embedded(framed).take(IK_DATA as int)
    }
}

/// The siblings, which carry the rest.
pub open spec fn siblings(framed: Seq<u8>) -> Seq<Seq<u8>> {
    if embedded(framed).len() <= IK_DATA {
        Seq::empty()
    } else {
        bytes::padded_chunks(embedded(framed).skip(IK_DATA as int), 32)
    }
}

/// The internal key with this last byte.
pub open spec fn candidate(framed: Seq<u8>, last: u8) -> Seq<u8> {
    bytes::zero_padded(key_part(framed), IK_DATA as int).push(last)
}

/// Whether some last byte makes a valid internal key.
pub open spec fn grindable(framed: Seq<u8>) -> bool {
    exists|g: u8| taproot::valid_xonly(#[trigger] candidate(framed, g))
}

/// Whether `g` is the least byte that makes a valid internal key.
pub open spec fn least_valid(framed: Seq<u8>, g: u8) -> bool {
    &&& taproot::valid_xonly(candidate(framed, g))
    &&& forall|h: u8| h < g ==> !taproot::valid_xonly(#[trigger] candidate(framed, h))
}

/// The internal key, ground to the least last byte that makes it valid.
pub open spec fn data_key(framed: Seq<u8>) -> Seq<u8> {
    candidate(framed, choose|g: u8| least_valid(framed, g))
}

/// The root over the leaf and the siblings.
pub open spec fn data_root(framed: Seq<u8>) -> Seq<u8> {
    taproot::folded(taproot::leaf_hash_of(leaf())@, siblings(framed))
}

/// The control block that carries a payload next to this internal key, whose output key has this
/// parity.
pub open spec fn block_with(framed: Seq<u8>, key: Seq<u8>, odd: bool) -> Seq<u8> {
    seq![taproot::version_byte(odd)] + key + bytes::joined(siblings(framed))
}

/// The control block that carries a payload.
pub open spec fn data_block(framed: Seq<u8>) -> Seq<u8> {
    block_with(
        framed,
        data_key(framed),
        taproot::tap_tweak_of(data_key(framed), data_root(framed)).1,
    )
}

/// Why a payload cannot be committed to, if so.
pub open spec fn refusal(framed: Seq<u8>) -> Option<PackError> {
    if framed.len() > MAX_PAYLOAD {
        Some(PackError::PayloadTooLarge { size: framed.len() as usize, max: MAX_PAYLOAD })
    } else if !grindable(framed) {
        Some(PackError::NoValidKey)
    } else {
        None
    }
}

/// The address to fund, or why there is none.
pub open spec fn commit_outcome(framed: Seq<u8>, network: Network) -> Result<AddressView, PackError> {
    match refusal(framed) {
        Some(e) => Err(e),
        None => Ok(addresses::p2tr_of(data_key(framed), data_root(framed), network)),
    }
}

/// The transaction that reveals a payload.
pub open spec fn reveal_view(framed: Seq<u8>, prevout: OutPointView, value: u64, to: Seq<u8>) -> TxView {
    tx::spending(prevout, seq![leaf(), data_block(framed)], taproot_spend::payment(value, to))
}

/// The transaction that reveals a payload, or why there is none.
pub open spec fn reveal_outcome(
    framed: Seq<u8>,
    prevout: OutPointView,
    prevout_value: u64,
    to: Seq<u8>,
    fee: u64,
) -> Result<TxView, PackError> {
    match refusal(framed) {
        Some(e) => Err(e),
        None => if fee > prevout_value {
            Err(PackError::FeeExceedsValue { fee, value: prevout_value })
        } else {
            Ok(reveal_view(framed, prevout, (prevout_value - fee) as u64, to))
        },
    }
}

/// The bytes of a control block that may carry data: all but the first and the ground one.
pub open spec fn carried(block: Seq<u8>) -> Seq<u8> {
    block.subrange(1, 1 + IK_DATA as int) + block.skip(33)
}

/// The payload that a transaction reveals, or why there is none.
pub open spec fn decoded(t: TxView) -> Result<Seq<u8>, PackError> {
    if t.input.len() == 0 {
        Err(PackError::NoInputs)
    } else if t.input[0].witness.len() == 0 {
        Err(PackError::EmptyWitness)
    } else {
        let block = t.input[0].witness.last();
        if block.len() < 33 {
            Err(PackError::ControlBlockTooShort(block.len() as usize))
        } else if (block.len() - 33) % 32 != 0 {
            Err(PackError::ControlBlockLength(block.len() as usize))
        } else if carried(block)[0] >= carried(block).len() {
            Err(
                PackError::DeclaredLength {
                    declared: carried(block)[0] as usize,
                    available: (carried(block).len() - 1) as usize,
                },
            )
        } else {
            Ok(carried(block).subrange(1, 1 + carried(block)[0] as int))
        }
    }
}

proof fn lemma_least_valid_unique(framed: Seq<u8>, g: u8)
    requires
        least_valid(framed, g),
    ensures
        data_key(framed) == candidate(framed, g),
        grindable(framed),
{
    let k = choose|k: u8| least_valid(framed, k);
    assert(least_valid(framed, k));
    if k < g {
        assert(!taproot::valid_xonly(candidate(framed, k)));
    }
    if g < k {
        assert(!taproot::valid_xonly(candidate(framed, g)));
    }
}

/// The siblings are whole hashes, few enough, and joined they carry on where the key stops.
proof fn lemma_siblings(framed: Seq<u8>)
    requires
        framed.len() <= MAX_PAYLOAD,
    ensures
        siblings(framed).len() <= MAX_SIBLINGS,
        forall|i: int| 0 <= i < siblings(framed).len() ==> (#[trigger] siblings(framed)[i]).len() == 32,
        bytes::joined(siblings(framed)).len() == 32 * siblings(framed).len(),
        bytes::chunks(bytes::joined(siblings(framed)), 32) == siblings(framed),
        embedded(framed).len() > IK_DATA ==> ({
            let rest = embedded(framed).skip(IK_DATA as int);
            &&& rest.len() <= bytes::joined(siblings(framed)).len()
            &&& bytes::joined(siblings(framed)).take(rest.len() as int) == rest
        }),
{
    let rest = embedded(framed).skip(IK_DATA as int);
    if embedded(framed).len() > IK_DATA {
        bytes::law_padded_chunks(rest, 32);
        bytes::law_chunk_sizes(rest, 32);
    }
    bytes::law_chunks_of_joined(siblings(framed), 32);
}

/// The control block has the allowed shape and size.
pub proof fn law_data_block_shape(framed: Seq<u8>)
    requires
        framed.len() <= MAX_PAYLOAD,
    ensures
        data_block(framed).len() == 33 + 32 * siblings(framed).len(),
        data_block(framed).len() <= bip110::MAX_CONTROL_BLOCK,
        bip110::control_block(data_block(framed)),
        data_block(framed).subrange(1, 33) == data_key(framed),
        data_block(framed).skip(33) == bytes::joined(siblings(framed)),
        framed.len() == MAX_PAYLOAD ==> data_block(framed).len() == 257,
{
    lemma_siblings(framed);
    assert(data_key(framed).len() == 32);
    assert(data_block(framed).subrange(1, 33) =~= data_key(framed));
    assert(data_block(framed).skip(33) =~= bytes::joined(siblings(framed)));
    if framed.len() == MAX_PAYLOAD {
        bytes::law_chunk_sizes(embedded(framed).skip(IK_DATA as int), 32);
    }
}

/// Reading a reveal gives the payload back.
pub proof fn law_roundtrip(framed: Seq<u8>, prevout: OutPointView, value: u64, to: Seq<u8>)
    requires
        framed.len() <= MAX_PAYLOAD,
    ensures
        decoded(reveal_view(framed, prevout, value, to)) == Ok::<Seq<u8>, PackError>(framed),
{
    let t = reveal_view(framed, prevout, value, to);
    let block = data_block(framed);
    let e = embedded(framed);
    law_data_block_shape(framed);
    lemma_siblings(framed);
    assert(t.input[0].witness.last() == block);
    let key = data_key(framed);
    let c = carried(block);
    assert(block.subrange(1, 32) =~= key.take(31));
    assert(key.take(31) =~= bytes::zero_padded(key_part(framed), 31));
    assert(c =~= key.take(31) + bytes::joined(siblings(framed)));
    assert(e.len() <= c.len());
    assert(c.take(e.len() as int) =~= e) by {
        if e.len() <= IK_DATA {
            assert forall|i: int| 0 <= i < e.len() implies c[i] == e[i] by {}
        } else {
            let rest = e.skip(31);
            let tail = bytes::joined(siblings(framed));
            assert(tail.take(rest.len() as int) == rest);
            assert forall|i: int| 0 <= i < e.len() implies c[i] == e[i] by {
                if i >= 31 {
                    assert(c[i] == tail[i - 31]);
                    assert(tail[i - 31] == tail.take(rest.len() as int)[i - 31]);
                    assert(rest[i - 31] == e[i]);
                }
            }
        }
    }
    assert(c[0] == c.take(e.len() as int)[0]);
    assert(c[0] == framed.len());
    assert(c.subrange(1, 1 + c[0] as int) =~= framed) by {
        assert forall|i: int| 0 <= i < framed.len() implies c[i + 1] == framed[i] by {
            assert(c[i + 1] == c.take(e.len() as int)[i + 1]);
            assert(e[i + 1] == framed[i]);
        }
    }
}

/// A reveal keeps every rule where the destination is within the output cap.
pub proof fn law_reveal_compliant(framed: Seq<u8>, prevout: OutPointView, value: u64, to: Seq<u8>)
    requires
        framed.len() <= MAX_PAYLOAD,
        bip110::compliant_output(to),
    ensures
        bip110::compliant(reveal_view(framed, prevout, value, to)),
{
    let t = reveal_view(framed, prevout, value, to);
    law_data_block_shape(framed);
    let one = seq![Ins::Op(scripts::OP_PUSHNUM_1)];
    scripts::lemma_encode_one(one[0]);
    scripts::law_parse_encode(one);
    assert(bip110::compliant_script(leaf()));
    assert(bip110::compliant_witness(t.input[0].witness));
}

/// A reveal pays out what it spends less the fee.
pub proof fn law_reveal_value(
    framed: Seq<u8>,
    prevout: OutPointView,
    prevout_value: u64,
    to: Seq<u8>,
    fee: u64,
)
    requires
        fee <= prevout_value,
    ensures
        ({
            let t = reveal_view(framed, prevout, (prevout_value - fee) as u64, to);
            compliance::total_value(t.output, t.output.len() as int) + fee == prevout_value
        }),
{
    reveal_with_fuel(compliance::total_value, 2);
}

/// The control block commits to the leaf under the output key of the commit address.
pub proof fn law_data_block_commits(framed: Seq<u8>, network: Network)
    requires
        framed.len() <= MAX_PAYLOAD,
    ensures
        ({
            let block = data_block(framed);
            let root = taproot::folded(
                taproot::leaf_hash_of(leaf())@,
                bytes::chunks(block.skip(33), 32),
            );
            let output = taproot::tap_tweak_of(block.subrange(1, 33), root);
            &&& output.1 == (block[0] == 0xc1)
            &&& addresses::p2tr_of(data_key(framed), data_root(framed), network).script_pubkey
                == scripts::p2tr_of(output.0@)
        }),
{
    law_data_block_shape(framed);
    lemma_siblings(framed);
}

/// The payload with its length byte.
fn embed(framed: &[u8]) -> (r: Vec<u8>)
    requires
        framed@.len() <= MAX_PAYLOAD,
    ensures
        r@ == embedded(framed@),
{
    let mut buf: Vec<u8> = Vec::new();
    buf.push(framed.len() as u8);
    buf.extend_from_slice(framed);
    proof {
        assert(buf@ =~= embedded(framed@));
    }
    buf
}

/// The internal key that carries the front of `framed` and has this last byte.
pub fn key_candidate(framed: &[u8], last: u8) -> (r: [u8; 32])
    requires
        framed@.len() <= MAX_PAYLOAD,
    ensures
        r@ == candidate(framed@, last),
        r@[0] == framed@.len(),
        forall|j: int|
            1 <= j < 31 ==> #[trigger] r@[j] == (if j <= framed@.len() {
                framed@[j - 1]
            } else {
                0u8
            }),
        r@[31] == last,
{
    let buf = embed(framed);
    let split: usize = if buf.len() <= IK_DATA {
        buf.len()
    } else {
        IK_DATA
    };
    let head = vstd::slice::slice_subrange(buf.as_slice(), 0, split);
    let mut key: [u8; 32] = bytes::padded_word(head);
    key[31] = last;
    proof {
        assert(head@ =~= key_part(framed@));
        assert(key@ =~= candidate(framed@, last));
        assert forall|j: int| 1 <= j < 31 implies #[trigger] key@[j] == (if j <= framed@.len() {
            framed@[j - 1]
        } else {
            0u8
        }) by {
            if j <= framed@.len() {
                assert(buf@[j] == framed@[j - 1]);
            }
        }
    }
    key
}

/// The sibling hashes that carry the rest of `framed`.
pub fn sibling_words(framed: &[u8]) -> (r: Vec<[u8; 32]>)
    requires
        framed@.len() <= MAX_PAYLOAD,
    ensures
        bytes::word_views(r@) == siblings(framed@),
        r@.len() == (framed@.len() + 1) / 32,
        forall|i: int, j: int|
            0 <= i < r@.len() && 0 <= j < 32 ==> #[trigger] r@[i]@[j] == (if 30 + 32 * i + j
                < framed@.len() {
                framed@[30 + 32 * i + j]
            } else {
                0u8
            }),
{
    let buf = embed(framed);
    let split: usize = if buf.len() <= IK_DATA {
        buf.len()
    } else {
        IK_DATA
    };
    let rest = vstd::slice::slice_subrange(buf.as_slice(), split, buf.len());
    proof {
        if buf@.len() <= IK_DATA {
            assert(rest@ =~= Seq::<u8>::empty());
            assert(bytes::padded_chunks(rest@, 32) =~= siblings(framed@));
        } else {
            assert(rest@ =~= embedded(framed@).skip(IK_DATA as int));
        }
    }
    let words = bytes::split_words(rest);
    proof {
        let w = bytes::word_views(words@);
        bytes::law_chunk_sizes(rest@, 32);
        assert(w.len() == (rest@.len() + 31) / 32);
        assert forall|i: int, j: int| 0 <= i < words@.len() && 0 <= j < 32 implies #[trigger] words@[i]@[j]
            == (if 30 + 32 * i + j < framed@.len() {
            framed@[30 + 32 * i + j]
        } else {
            0u8
        }) by {
            assert(w[i] == words@[i]@);
            bytes::law_padded_chunk_bytes(rest@, 32, i, j);
            if 32 * i + j < rest@.len() {
                assert(rest@[32 * i + j] == buf@[31 + 32 * i + j]);
                assert(buf@[31 + 32 * i + j] == framed@[30 + 32 * i + j]);
            }
        }
    }
    words
}

/// The control block with this internal key and these siblings, whose output key has this parity.
pub fn assemble_block(key: &[u8; 32], odd: bool, words: &Vec<[u8; 32]>) -> (r: Vec<u8>)
    ensures
        r@ == seq![taproot::version_byte(odd)] + key@ + bytes::joined(bytes::word_views(words@)),
{
    let parity: u8 = if odd {
        1
    } else {
        0
    };
    proof {
        assert(0xc0u8 | 1u8 == 0xc1u8) by (bit_vector);
        assert(0xc0u8 | 0u8 == 0xc0u8) by (bit_vector);
    }
    let ghost w = bytes::word_views(words@);
    let mut block: Vec<u8> = Vec::new();
    block.push(0xc0u8 | parity);
    block.extend_from_slice(key.as_slice());
    let ghost front = seq![taproot::version_byte(odd)] + key@;
    let mut i: usize = 0;
    proof {
        assert(w.take(0) =~= Seq::<Seq<u8>>::empty());
        assert(block@ =~= front + bytes::joined(w.take(0)));
    }
    while i < words.len()
        invariant
            w == bytes::word_views(words@),
            i <= words@.len(),
            block@ == front + bytes::joined(w.take(i as int)),
        decreases words@.len() - i,
    {
        block.extend_from_slice(words[i].as_slice());
        proof {
            assert(w.take(i + 1).drop_last() =~= w.take(i as int));
            assert(w.take(i + 1).last() == words@[i as int]@);
            assert(block@ =~= front + bytes::joined(w.take(i + 1)));
        }
        i = i + 1;
    }
    proof {
        assert(w.take(i as int) =~= w);
    }
    block
}

/// The internal key that carries the front of `framed`, ground to the least last byte that makes it
/// valid.
fn grind_internal_key(framed: &[u8]) -> (r: Result<[u8; 32], PackError>)
    requires
        framed@.len() <= MAX_PAYLOAD,
    ensures
        match r {
            Ok(k) => grindable(framed@) && k@ == data_key(framed@) && taproot::valid_xonly(k@),
            Err(e) => !grindable(framed@) && e == PackError::NoValidKey,
        },
{
    let mut g: u16 = 0;
    while g < 256
        invariant
            g <= 256,
            framed@.len() <= MAX_PAYLOAD,
            forall|h: u8| h < g ==> !taproot::valid_xonly(#[trigger] candidate(framed@, h)),
        decreases 256 - g,
    {
        let last: u8 = g as u8;
        let key = key_candidate(framed, last);
        if taproot::is_xonly(&key) {
            proof {
                assert(least_valid(framed@, last));
                lemma_least_valid_unique(framed@, last);
            }
            return Ok(key);
        }
        g = g + 1;
    }
    Err(PackError::NoValidKey)
}

/// What `framed` is committed to with. It depends on `framed` alone, so the address and the reveal
/// agree.
pub fn commitment(framed: &[u8]) -> (r: Result<Commitment, PackError>)
    ensures
        match r {
            Ok(c) => {
                &&& refusal(framed@) is None
                &&& c.script@ == leaf()
                &&& c.control_block@ == data_block(framed@)
                &&& c.internal_key@ == data_key(framed@)
                &&& c.merkle_root@ == data_root(framed@)
                &&& taproot::valid_xonly(c.internal_key@)
            },
            Err(e) => refusal(framed@) == Some(e),
        },
{
    if framed.len() > MAX_PAYLOAD {
        return Err(PackError::PayloadTooLarge { size: framed.len(), max: MAX_PAYLOAD });
    }
    let ghost f = framed@;
    proof {
        lemma_siblings(f);
        law_data_block_shape(f);
    }
    let internal_key = match grind_internal_key(framed) {
        Ok(k) => k,
        Err(e) => {
            return Err(e);
        },
    };
    let words = sibling_words(framed);
    let empty = scripts::new_builder();
    let script = scripts::into_bytes(scripts::push_opcode(empty, scripts::OP_PUSHNUM_1));
    proof {
        assert(script@ =~= leaf());
        assert(siblings(f).take(0) =~= Seq::<Seq<u8>>::empty());
    }
    let mut node: [u8; 32] = taproot::leaf_hash(script.as_slice());
    let mut i: usize = 0;
    while i < words.len()
        invariant
            bytes::word_views(words@) == siblings(f),
            i <= words@.len(),
            node@ == taproot::folded(taproot::leaf_hash_of(leaf())@, siblings(f).take(i as int)),
        decreases words@.len() - i,
    {
        proof {
            assert(siblings(f)[i as int] == words@[i as int]@);
            assert(siblings(f).take(i + 1).drop_last() =~= siblings(f).take(i as int));
        }
        node = taproot::branch_hash(&node, &words[i]);
        i = i + 1;
    }
    proof {
        assert(siblings(f).take(i as int) =~= siblings(f));
    }
    let (output_key, odd) = taproot::tap_tweak(&internal_key, &node);
    let control_block = assemble_block(&internal_key, odd, &words);
    if !taproot::verify_commitment(control_block.as_slice(), &output_key, script.as_slice()) {
        return Err(PackError::CommitmentMismatch);
    }
    Ok(Commitment { script, control_block, internal_key, merkle_root: node })
}

/// The address whose spend will carry `framed` in its control block.
pub fn commit_address(framed: &[u8], network: Network) -> (r: Result<Address, PackError>)
    ensures
        error::outcome(r, commit_outcome(framed@, network)),
        r matches Ok(a) ==> addresses::parsed_address(a.text@, network) == Some(
            Some(a.script_pubkey@),
        ),
{
    match commitment(framed) {
        Ok(c) => Ok(addresses::p2tr(&c.internal_key, &c.merkle_root, network)),
        Err(e) => Err(e),
    }
}

/// The transaction that spends `prevout`, carries `framed` in its control block and pays
/// `prevout_value - fee` to `to`. Anyone can make it.
pub fn build_reveal(
    framed: &[u8],
    prevout: OutPoint,
    prevout_value: u64,
    to: &[u8],
    fee: u64,
    network: Network,
) -> (r: Result<Transaction, PackError>)
    ensures
        error::outcome(r, reveal_outcome(framed@, prevout@, prevout_value, to@, fee)),
{
    // The transaction is the same on every network.
    let _ = network;
    let c = match commitment(framed) {
        Ok(c) => c,
        Err(e) => {
            return Err(e);
        },
    };
    let value: u64 = match taproot_spend::after_fee(prevout_value, fee) {
        Ok(v) => v,
        Err(e) => {
            return Err(e);
        },
    };
    Ok(taproot_spend::assemble_spend(None, c.script, c.control_block, prevout, value, to))
}

/// The payload that a transaction reveals in the control block of its first input.
pub fn decode(t: &Transaction) -> (r: Result<Vec<u8>, PackError>)
    ensures
        error::outcome(r, decoded(t@)),
{
    if t.input.len() == 0 {
        return Err(PackError::NoInputs);
    }
    let witness = &t.input[0].witness;
    proof {
        assert(t@.input[0].witness == bytes::views(witness@));
    }
    if witness.len() == 0 {
        return Err(PackError::EmptyWitness);
    }
    let block = &witness[witness.len() - 1];
    if block.len() < 33 {
        return Err(PackError::ControlBlockTooShort(block.len()));
    }
    if (block.len() - 33) % 32 != 0 {
        return Err(PackError::ControlBlockLength(block.len()));
    }
    let mut buf: Vec<u8> = bytes::copy_range(block.as_slice(), 1, 1 + IK_DATA);
    let siblings = vstd::slice::slice_subrange(block.as_slice(), 33, block.len());
    buf.extend_from_slice(siblings);
    proof {
        assert(buf@ =~= carried(block@));
    }
    let len: usize = buf[0] as usize;
    if len >= buf.len() {
        return Err(PackError::DeclaredLength { declared: len, available: buf.len() - 1 });
    }
    Ok(bytes::copy_range(buf.as_slice(), 1, 1 + len))
}

} // verus!
