//! Taproot outputs that carry data in their only leaf, and the transactions that spend them. The
//! keys are fixed, so everything is reproducible.
use crate::addresses;
use crate::addresses::Address;
use crate::addresses::AddressView;
use crate::addresses::Network;
use crate::bytes;
use crate::error;
use crate::error::PackError;
use crate::scripts;
use crate::taproot;
use crate::taproot::SpendInfo;
use crate::tapscript;
use crate::tapscript::Auth;
use crate::tapscript::Violate;
use crate::tx;
use crate::tx::OutPoint;
use crate::tx::OutPointView;
use crate::tx::Transaction;
use crate::tx::TxOut;
use crate::tx::TxOutView;
use crate::tx::TxView;
use vstd::prelude::*;

verus! {

/// The secret of the internal key.
pub const INTERNAL_KEY_SECRET: [u8; 32] = [
    1, 1, 1, 1, 1, 1, 1, 1, 1, 1, 1, 1, 1, 1, 1, 1, 1, 1, 1, 1, 1, 1, 1, 1, 1, 1, 1, 1, 1, 1, 1, 1,
];

/// The secret of the reveal key, which signs the spends of `Auth::Checksig`.
pub const REVEAL_KEY_SECRET: [u8; 32] = [
    2, 2, 2, 2, 2, 2, 2, 2, 2, 2, 2, 2, 2, 2, 2, 2, 2, 2, 2, 2, 2, 2, 2, 2, 2, 2, 2, 2, 2, 2, 2, 2,
];

/// The size of the scriptPubKey that breaks the output cap on purpose.
pub const OVERSIZE_SPK: usize = 40;

/// A secret and its x-only public key.
#[derive(Debug, Clone, Copy, PartialEq, Eq)]
pub struct RevealKeypair {
    /// The secret.
    pub secret: [u8; 32],
    /// The x-only public key.
    pub public_key: [u8; 32],
}

/// What it takes to build and spend an output with one leaf.
#[derive(Debug, Clone, PartialEq, Eq)]
pub struct SpendBundle {
    /// The leaf script, which carries the data.
    pub script: Vec<u8>,
    /// The control block of the script-path spend.
    pub control_block: Vec<u8>,
    /// The scriptPubKey of the output.
    pub spk: Vec<u8>,
    /// The keys and the root of the output.
    pub spend_info: SpendInfo,
}

/// The x-only public key of the reveal key.
pub open spec fn reveal_key() -> Seq<u8> {
    taproot::public_key_of(REVEAL_KEY_SECRET@)@
}

/// The x-only internal key.
pub open spec fn internal_xonly() -> Seq<u8> {
    taproot::public_key_of(INTERNAL_KEY_SECRET@)@
}

/// The output key of the output whose only leaf is `script`, and whether it is odd.
pub open spec fn leaf_output_key(script: Seq<u8>) -> ([u8; 32], bool) {
    taproot::tap_tweak_of(internal_xonly(), taproot::leaf_hash_of(script)@)
}

/// The scriptPubKey of the output whose only leaf is `script`.
pub open spec fn leaf_spk(script: Seq<u8>) -> Seq<u8> {
    scripts::p2tr_of(leaf_output_key(script).0@)
}

/// The control block that reveals `script` as the only leaf.
pub open spec fn leaf_control_block(script: Seq<u8>) -> Seq<u8> {
    seq![taproot::version_byte(leaf_output_key(script).1)] + internal_xonly()
}

/// The bundle for the output whose only leaf is `script`.
pub open spec fn bundle_for(b: SpendBundle, script: Seq<u8>) -> bool {
    &&& b.script@ == script
    &&& b.control_block@ == leaf_control_block(script)
    &&& b.spk@ == leaf_spk(script)
    &&& b.spend_info.internal_key@ == internal_xonly()
    &&& b.spend_info.merkle_root == taproot::leaf_hash_of(script)
    &&& (b.spend_info.output_key, b.spend_info.output_key_odd) == leaf_output_key(script)
}

/// The address of the output whose only leaf is `script`.
pub open spec fn leaf_address(script: Seq<u8>, network: Network) -> AddressView {
    addresses::p2tr_of(internal_xonly(), taproot::leaf_hash_of(script)@, network)
}

/// The only output of a spend: `value` to `to`.
pub open spec fn payment(value: u64, to: Seq<u8>) -> Seq<TxOutView> {
    seq![TxOutView { value, script_pubkey: to }]
}

/// The signature of the reveal key over a spend of the output whose only leaf is `script`.
pub open spec fn reveal_signature(
    script: Seq<u8>,
    prevout: OutPointView,
    prevout_value: u64,
    output: Seq<TxOutView>,
) -> Seq<u8> {
    taproot::signature_of(
        REVEAL_KEY_SECRET@,
        tx::sighash_of(
            tx::spending(prevout, Seq::empty(), output),
            TxOutView { value: prevout_value, script_pubkey: leaf_spk(script) },
            taproot::leaf_hash_of(script)@,
        )@,
    )@
}

/// A signature, where there is one, and the items of a script-path spend.
pub open spec fn spend_items(
    signature: Option<Seq<u8>>,
    script: Seq<u8>,
    control_block: Seq<u8>,
) -> Seq<Seq<u8>> {
    match signature {
        Some(s) => seq![s, script, control_block],
        None => seq![script, control_block],
    }
}

/// The witness that spends the output whose only leaf is `script`, under `auth`.
pub open spec fn leaf_witness(
    script: Seq<u8>,
    auth: Auth,
    prevout: OutPointView,
    prevout_value: u64,
    output: Seq<TxOutView>,
) -> Seq<Seq<u8>> {
    match auth {
        Auth::Anyone => spend_items(None, script, leaf_control_block(script)),
        Auth::Checksig => spend_items(
            Some(reveal_signature(script, prevout, prevout_value, output)),
            script,
            leaf_control_block(script),
        ),
    }
}

/// The transaction that reveals `data` under `auth` and pays what the fee leaves to `to`.
pub open spec fn signed_spend(
    data: Seq<u8>,
    auth: Auth,
    prevout: OutPointView,
    prevout_value: u64,
    to: Seq<u8>,
    fee: u64,
) -> TxView {
    let script = scripts::encode(tapscript::auth_leaf(data, auth));
    let output = payment((prevout_value - fee) as u64, to);
    tx::spending(prevout, leaf_witness(script, auth, prevout, prevout_value, output), output)
}

/// The transaction that reveals `data` under `auth`, or why there is none.
pub open spec fn signed_outcome(
    data: Seq<u8>,
    auth: Auth,
    prevout: OutPointView,
    prevout_value: u64,
    to: Seq<u8>,
    fee: u64,
) -> Result<TxView, PackError> {
    if fee > prevout_value {
        Err(PackError::FeeExceedsValue { fee, value: prevout_value })
    } else {
        Ok(signed_spend(data, auth, prevout, prevout_value, to, fee))
    }
}

/// The outputs of a violating spend: the payment, and the oversize output where it is asked for.
pub open spec fn violation_outputs(value: u64, to: Seq<u8>, oversize_output: bool) -> Seq<TxOutView> {
    if oversize_output {
        payment(value, to).push(
            TxOutView { value: 0, script_pubkey: Seq::new(OVERSIZE_SPK as nat, |i: int| 0u8) },
        )
    } else {
        payment(value, to)
    }
}

/// The transaction that reveals `data` in a leaf that breaks the rule `violate` names.
pub open spec fn violating_spend(
    data: Seq<u8>,
    violate: Violate,
    prevout: OutPointView,
    prevout_value: u64,
    to: Seq<u8>,
    fee: u64,
    oversize_output: bool,
) -> TxView {
    let script = scripts::encode(tapscript::violation_leaf(data, violate));
    tx::spending(
        prevout,
        seq![script, leaf_control_block(script)],
        violation_outputs((prevout_value - fee) as u64, to, oversize_output),
    )
}

/// The transaction that reveals `data` in a violating leaf, or why there is none.
pub open spec fn violating_outcome(
    data: Seq<u8>,
    violate: Violate,
    prevout: OutPointView,
    prevout_value: u64,
    to: Seq<u8>,
    fee: u64,
    oversize_output: bool,
) -> Result<TxView, PackError> {
    if fee > prevout_value {
        Err(PackError::FeeExceedsValue { fee, value: prevout_value })
    } else {
        Ok(violating_spend(data, violate, prevout, prevout_value, to, fee, oversize_output))
    }
}

/// The transaction that carries `data` in plain chunks into an output of its own kind.
pub open spec fn data_tx(data: Seq<u8>, prevout: OutPointView) -> TxView {
    let script = scripts::encode(tapscript::plain_leaf(data));
    tx::spending(
        prevout,
        seq![script, leaf_control_block(script)],
        payment(0, leaf_spk(script)),
    )
}

/// The internal key.
pub fn internal_key() -> (r: [u8; 32])
    ensures
        r@ == internal_xonly(),
        taproot::valid_xonly(r@),
{
    taproot::public_key(&INTERNAL_KEY_SECRET)
}

/// The key pair that signs the spends of `Auth::Checksig`.
pub fn reveal_keypair() -> (r: RevealKeypair)
    ensures
        r.secret@ == REVEAL_KEY_SECRET@,
        r.public_key@ == reveal_key(),
{
    RevealKeypair {
        secret: REVEAL_KEY_SECRET,
        public_key: taproot::public_key(&REVEAL_KEY_SECRET),
    }
}

/// The bundle for a leaf script.
fn bundle_of(script: Vec<u8>) -> (r: SpendBundle)
    ensures
        bundle_for(r, script@),
{
    let key = internal_key();
    let (spend_info, control_block) = taproot::single_leaf(script.as_slice(), &key);
    let spk = taproot::new_p2tr(&key, &spend_info.merkle_root);
    SpendBundle { script, control_block, spk, spend_info }
}

/// The output that carries `data` in plain chunks.
pub fn build_spend(data: &[u8]) -> (r: Result<SpendBundle, PackError>)
    ensures
        r is Ok,
        bundle_for(r->Ok_0, scripts::encode(tapscript::plain_leaf(data@))),
        r->Ok_0.script@ == scripts::encode(tapscript::plain_leaf(data@)),
        r->Ok_0.spend_info.merkle_root == taproot::leaf_hash_of(r->Ok_0.script@),
        (r->Ok_0.spend_info.output_key, r->Ok_0.spend_info.output_key_odd) == taproot::tap_tweak_of(
            r->Ok_0.spend_info.internal_key@,
            r->Ok_0.spend_info.merkle_root@,
        ),
        r->Ok_0.spk@ == seq![0x51u8, 32u8] + r->Ok_0.spend_info.output_key@,
{
    Ok(bundle_of(tapscript::build_tapscript(data)))
}

/// The output that carries `data` in an envelope under `auth`.
pub fn build_spend_auth(data: &[u8], auth: Auth) -> (r: Result<SpendBundle, PackError>)
    ensures
        r is Ok,
        bundle_for(r->Ok_0, scripts::encode(tapscript::auth_leaf(data@, auth))),
        r->Ok_0.script@ == scripts::encode(tapscript::auth_leaf(data@, auth)),
        r->Ok_0.spend_info.merkle_root == taproot::leaf_hash_of(r->Ok_0.script@),
        (r->Ok_0.spend_info.output_key, r->Ok_0.spend_info.output_key_odd) == taproot::tap_tweak_of(
            r->Ok_0.spend_info.internal_key@,
            r->Ok_0.spend_info.merkle_root@,
        ),
        r->Ok_0.spk@ == seq![0x51u8, 32u8] + r->Ok_0.spend_info.output_key@,
{
    Ok(bundle_of(tapscript::build_tapscript_auth(data, auth)))
}

/// The address to fund so that `data` can be revealed by spending it under `auth`.
pub fn commit_address(data: &[u8], auth: Auth, network: Network) -> (r: Result<Address, PackError>)
    ensures
        r is Ok,
        r->Ok_0@ == leaf_address(scripts::encode(tapscript::auth_leaf(data@, auth)), network),
        r matches Ok(a) ==> addresses::parsed_address(a.text@, network) == Some(
            Some(a.script_pubkey@),
        ),
{
    let key = internal_key();
    match build_spend_auth(data, auth) {
        Ok(bundle) => Ok(addresses::p2tr(&key, &bundle.spend_info.merkle_root, network)),
        Err(e) => Err(e),
    }
}

/// The address to fund so that `data` can be revealed in a leaf that breaks the rule `violate`
/// names.
pub fn commit_address_violation(data: &[u8], violate: Violate, network: Network) -> (r: Result<
    Address,
    PackError,
>)
    ensures
        r is Ok,
        r->Ok_0@ == leaf_address(
            scripts::encode(tapscript::violation_leaf(data@, violate)),
            network,
        ),
        r matches Ok(a) ==> addresses::parsed_address(a.text@, network) == Some(
            Some(a.script_pubkey@),
        ),
{
    let key = internal_key();
    let bundle = bundle_of(tapscript::build_tapscript_violation(data, violate));
    Ok(addresses::p2tr(&key, &bundle.spend_info.merkle_root, network))
}

/// What a fee leaves of a value.
pub fn after_fee(value: u64, fee: u64) -> (r: Result<u64, PackError>)
    ensures
        match r {
            Ok(v) => fee <= value && v == value - fee,
            Err(e) => fee > value && e == (PackError::FeeExceedsValue { fee, value }),
        },
{
    match value.checked_sub(fee) {
        Some(v) => Ok(v),
        None => Err(PackError::FeeExceedsValue { fee, value }),
    }
}

/// The transaction that spends `prevout` with these items, the signature first where there is one,
/// and pays `value` to `to`.
pub fn assemble_spend(
    signature: Option<Vec<u8>>,
    script: Vec<u8>,
    control_block: Vec<u8>,
    prevout: OutPoint,
    value: u64,
    to: &[u8],
) -> (r: Transaction)
    ensures
        r@ == tx::spending(
            prevout@,
            spend_items(bytes::opt_view(signature), script@, control_block@),
            payment(value, to@),
        ),
        r@.input.len() == 1,
        r@.input[0].previous_output == prevout@,
        r@.input[0].witness == (match signature {
            Some(s) => seq![s@, script@, control_block@],
            None => seq![script@, control_block@],
        }),
        r@.output == seq![TxOutView { value, script_pubkey: to@ }],
{
    let ghost items = spend_items(bytes::opt_view(signature), script@, control_block@);
    let mut witness: Vec<Vec<u8>> = Vec::new();
    match signature {
        Some(s) => {
            witness.push(s);
        },
        None => {},
    }
    witness.push(script);
    witness.push(control_block);
    let mut out: Vec<TxOut> = Vec::new();
    out.push(TxOut { value, script_pubkey: bytes::copy_of(to) });
    proof {
        assert(tx::out_views(out@) =~= payment(value, to@));
        assert(bytes::views(witness@) =~= items);
    }
    tx::single_input_tx(2, prevout, tx::RBF_SEQUENCE, witness, out)
}

/// The transaction that spends `prevout` by revealing `data` under `auth` and pays
/// `prevout_value - fee` to `to`. Under `Auth::Checksig` the first witness item is the reveal key's
/// signature over the script-path signature hash.
pub fn build_signed_spend(
    data: &[u8],
    auth: Auth,
    prevout: OutPoint,
    prevout_value: u64,
    to: &[u8],
    fee: u64,
    network: Network,
) -> (r: Result<Transaction, PackError>)
    ensures
        error::outcome(r, signed_outcome(data@, auth, prevout@, prevout_value, to@, fee)),
{
    // The transaction is the same on every network.
    let _ = network;
    let bundle = bundle_of(tapscript::build_tapscript_auth(data, auth));
    let value: u64 = match after_fee(prevout_value, fee) {
        Ok(v) => v,
        Err(e) => {
            return Err(e);
        },
    };
    let ghost output = payment(value, to@);
    let signature: Option<Vec<u8>> = match auth {
        Auth::Anyone => None,
        Auth::Checksig => {
            let mut out: Vec<TxOut> = Vec::new();
            out.push(TxOut { value, script_pubkey: bytes::copy_of(to) });
            let unsigned = tx::single_input_tx(2, prevout, tx::RBF_SEQUENCE, Vec::new(), out);
            proof {
                assert(tx::out_views(out@) =~= output);
                assert(bytes::views(Seq::<Vec<u8>>::empty()) =~= Seq::<Seq<u8>>::empty());
                assert(unsigned@ =~= tx::spending(prevout@, Seq::empty(), output));
                assert(unsigned@.input[0].witness.len() == 0);
            }
            let raw = tx::serialize(&unsigned);
            let spent = TxOut {
                value: prevout_value,
                script_pubkey: bytes::copy_of(bundle.spk.as_slice()),
            };
            let leaf = taproot::leaf_hash(bundle.script.as_slice());
            let digest = tx::sighash(raw.as_slice(), &spent, &leaf);
            let sig = taproot::sign(&reveal_keypair().secret, &digest);
            Some(bytes::copy_of(sig.as_slice()))
        },
    };
    Ok(assemble_spend(signature, bundle.script, bundle.control_block, prevout, value, to))
}

/// The transaction that spends `prevout` by revealing `data` in a leaf that breaks the rule
/// `violate` names, pays `prevout_value - fee` to `to`, and where `oversize_output` is set appends an
/// output that breaks the output cap. Anyone can spend such a leaf, so nothing is signed.
pub fn build_spend_violation(
    data: &[u8],
    violate: Violate,
    prevout: OutPoint,
    prevout_value: u64,
    to: &[u8],
    fee: u64,
    network: Network,
    oversize_output: bool,
) -> (r: Result<Transaction, PackError>)
    ensures
        error::outcome(
            r,
            violating_outcome(
                data@,
                violate,
                prevout@,
                prevout_value,
                to@,
                fee,
                oversize_output,
            ),
        ),
{
    // The transaction is the same on every network.
    let _ = network;
    let bundle = bundle_of(tapscript::build_tapscript_violation(data, violate));
    let value: u64 = match after_fee(prevout_value, fee) {
        Ok(v) => v,
        Err(e) => {
            return Err(e);
        },
    };
    let ghost script = bundle.script@;
    let mut witness: Vec<Vec<u8>> = Vec::new();
    witness.push(bundle.script);
    witness.push(bundle.control_block);
    let mut out: Vec<TxOut> = Vec::new();
    out.push(TxOut { value, script_pubkey: bytes::copy_of(to) });
    if oversize_output {
        let spk: Vec<u8> = vec![0u8; OVERSIZE_SPK];
        proof {
            assert(spk@ =~= Seq::new(OVERSIZE_SPK as nat, |i: int| 0u8));
        }
        out.push(TxOut { value: 0, script_pubkey: spk });
    }
    proof {
        assert(tx::out_views(out@) =~= violation_outputs(value, to@, oversize_output));
        assert(bytes::views(witness@) =~= seq![script, leaf_control_block(script)]);
    }
    Ok(tx::single_input_tx(2, prevout, tx::RBF_SEQUENCE, witness, out))
}

/// The id of the made-up output that the transaction numbered `i` of a block spends: `i`, least
/// significant byte first, zeros, and a last byte that keeps it off the null id.
pub open spec fn dummy_txid(i: u32) -> Seq<u8> {
    bytes::le_u32(i) + Seq::new(27, |k: int| 0u8) + seq![0xa5u8]
}

/// The made-up output that the transaction numbered `i` of a block spends.
pub open spec fn dummy_outpoint(i: u32) -> OutPointView {
    OutPointView { txid: dummy_txid(i), vout: 0 }
}

/// A made-up output for the transaction numbered `i` of a block to spend.
pub fn dummy_prevout(i: u32) -> (r: OutPoint)
    ensures
        r@ == dummy_outpoint(i),
{
    let be = bytes::be_bytes(i);
    let mut txid: [u8; 32] = [0u8; 32];
    txid[0] = be[3];
    txid[1] = be[2];
    txid[2] = be[1];
    txid[3] = be[0];
    txid[31] = 0xa5;
    proof {
        assert(txid@ =~= dummy_txid(i));
    }
    OutPoint { txid, vout: 0 }
}

/// The transaction that carries `data` in plain chunks: one script-path spend, one output of its own
/// kind without value.
pub fn build_tx(data: &[u8], prevout: OutPoint) -> (r: Result<Transaction, PackError>)
    ensures
        r is Ok,
        r->Ok_0@ == data_tx(data@, prevout@),
{
    match build_spend(data) {
        Err(e) => Err(e),
        Ok(bundle) => {
            let ghost script = bundle.script@;
            let mut witness: Vec<Vec<u8>> = Vec::new();
            witness.push(bundle.script);
            witness.push(bundle.control_block);
            let mut out: Vec<TxOut> = Vec::new();
            out.push(TxOut { value: 0, script_pubkey: bundle.spk });
            proof {
                assert(tx::out_views(out@) =~= payment(0, leaf_spk(script)));
                assert(bytes::views(witness@) =~= seq![script, leaf_control_block(script)]);
            }
            Ok(tx::single_input_tx(2, prevout, tx::RBF_SEQUENCE, witness, out))
        },
    }
}

} // verus!
