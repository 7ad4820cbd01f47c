//! Taproot as far as it is computed on curve points and tagged hashes: keys, trees, tweaks and
//! signatures, each a call from plain bytes to plain bytes.
use bitcoin::key::{Keypair, Secp256k1, TapTweak, UntweakedPublicKey};
use bitcoin::secp256k1::{Message, Parity, SecretKey};
use bitcoin::taproot::{ControlBlock, LeafVersion, TapLeafHash, TapNodeHash, TaprootBuilder};
use vstd::prelude::*;

verus! {

/// What a single-leaf taproot output is made of.
#[derive(Debug, Clone, PartialEq, Eq)]
pub struct SpendInfo {
    /// The untweaked internal key.
    pub internal_key: [u8; 32],
    /// The root of the script tree.
    pub merkle_root: [u8; 32],
    /// The tweaked output key.
    pub output_key: [u8; 32],
    /// Whether the output key has an odd y coordinate.
    pub output_key_odd: bool,
}

/// Secrets whose number is certainly in range: neither zero nor near the order of the curve.
pub open spec fn usable_secret(secret: Seq<u8>) -> bool {
    secret.len() == 32 && 0 < secret[0] < 0xff
}

/// The x-only public key that `Keypair::from_secret_key` and `Keypair::x_only_public_key` give for
/// a secret.
pub uninterp spec fn public_key_of(secret: Seq<u8>) -> [u8; 32];

/// Whether `XOnlyPublicKey::from_slice` accepts these bytes: whether they are the x coordinate of a
/// point on the curve.
pub uninterp spec fn valid_xonly(key: Seq<u8>) -> bool;

/// The hash that `TapLeafHash::from_script` gives for a script under the tapscript leaf version.
pub uninterp spec fn leaf_hash_of(script: Seq<u8>) -> [u8; 32];

/// The hash that `TapNodeHash::from_node_hashes` gives for two children.
pub uninterp spec fn branch_hash_of(a: Seq<u8>, b: Seq<u8>) -> [u8; 32];

/// The output key that `TapTweak::tap_tweak` gives for an internal key and a merkle root, and
/// whether its y coordinate is odd.
pub uninterp spec fn tap_tweak_of(key: Seq<u8>, root: Seq<u8>) -> ([u8; 32], bool);

/// The signature that `Secp256k1::sign_schnorr_no_aux_rand` gives for a digest under a secret.
pub uninterp spec fn signature_of(secret: Seq<u8>, digest: Seq<u8>) -> [u8; 64];

/// The first byte of a control block: the tapscript leaf version and the parity of the output key.
pub open spec fn version_byte(odd: bool) -> u8 {
    if odd {
        0xc1
    } else {
        0xc0
    }
}

/// The hash of a leaf combined with one sibling hash after the other, up to the root.
pub open spec fn folded(leaf: Seq<u8>, siblings: Seq<Seq<u8>>) -> Seq<u8>
    decreases siblings.len(),
{
    if siblings.len() == 0 {
        leaf
    } else {
        branch_hash_of(folded(leaf, siblings.drop_last()), siblings.last())@
    }
}

/// `Keypair::from_secret_key` and `Keypair::x_only_public_key`: the x-only public key of a secret,
/// which is a valid one.
#[verifier::external_body]
pub(crate) fn public_key(secret: &[u8; 32]) -> (r: [u8; 32])
    requires
        usable_secret(secret@),
    ensures
        r == public_key_of(secret@),
        valid_xonly(r@),
{
    let sk = SecretKey::from_slice(secret).expect("secret in range");
    Keypair::from_secret_key(&Secp256k1::new(), &sk).x_only_public_key().0.serialize()
}

/// `XOnlyPublicKey::from_slice`: whether the bytes are a valid x-only key.
#[verifier::external_body]
pub(crate) fn is_xonly(key: &[u8; 32]) -> (r: bool)
    ensures
        r == valid_xonly(key@),
{
    UntweakedPublicKey::from_slice(key).is_ok()
}

/// `TapLeafHash::from_script` under `LeafVersion::TapScript`. As a node of the tree, the leaf has
/// the same hash.
#[verifier::external_body]
pub(crate) fn leaf_hash(script: &[u8]) -> (r: [u8; 32])
    ensures
        r == leaf_hash_of(script@),
{
    let script = bitcoin::Script::from_bytes(script);
    bitcoin::hashes::Hash::to_byte_array(TapLeafHash::from_script(script, LeafVersion::TapScript))
}

/// `TapNodeHash::from_node_hashes`: the hash of the branch over two nodes.
#[verifier::external_body]
pub(crate) fn branch_hash(a: &[u8; 32], b: &[u8; 32]) -> (r: [u8; 32])
    ensures
        r == branch_hash_of(a@, b@),
{
    let a = bitcoin::hashes::Hash::from_byte_array(*a);
    let b = bitcoin::hashes::Hash::from_byte_array(*b);
    bitcoin::hashes::Hash::to_byte_array(TapNodeHash::from_node_hashes(a, b))
}

/// `TapTweak::tap_tweak`: the output key for an internal key and a merkle root, itself a valid key,
/// and whether its y coordinate is odd. Nothing is said of a tweak hash that is no scalar of the
/// curve, on which the call panics: no input with such a hash is known.
#[verifier::external_body]
pub(crate) fn tap_tweak(key: &[u8; 32], root: &[u8; 32]) -> (r: ([u8; 32], bool))
    requires
        valid_xonly(key@),
    ensures
        r == tap_tweak_of(key@, root@),
        valid_xonly(r.0@),
{
    let key = UntweakedPublicKey::from_slice(key).expect("a valid key");
    let root = bitcoin::hashes::Hash::from_byte_array(*root);
    let (output_key, parity) = key.tap_tweak(&Secp256k1::new(), Some(root));
    (output_key.serialize(), parity == Parity::Odd)
}

/// `TaprootBuilder::add_leaf` of one script at depth zero, `finalize`, and `control_block` of what
/// comes out: the root is the leaf's hash, the output key is the tweak by it, and the control block
/// is the version byte and the internal key. As to the tweak, see `tap_tweak`.
#[verifier::external_body]
pub(crate) fn single_leaf(script: &[u8], key: &[u8; 32]) -> (r: (SpendInfo, Vec<u8>))
    requires
        valid_xonly(key@),
    ensures
        r.0.internal_key == *key,
        r.0.merkle_root == leaf_hash_of(script@),
        (r.0.output_key, r.0.output_key_odd) == tap_tweak_of(key@, leaf_hash_of(script@)@),
        r.1@ == seq![version_byte(r.0.output_key_odd)] + key@,
{
    let script = bitcoin::ScriptBuf::from(script.to_vec());
    let ik = UntweakedPublicKey::from_slice(key).expect("a valid key");
    let tree = TaprootBuilder::new().add_leaf(0, script.clone()).expect("room for one leaf");
    let info = tree.finalize(&Secp256k1::new(), ik).expect("a complete tree");
    let block = info.control_block(&(script, LeafVersion::TapScript)).expect("a leaf of the tree");
    let root = info.merkle_root().expect("a tree with a leaf");
    (SpendInfo {
        internal_key: info.internal_key().serialize(),
        merkle_root: bitcoin::hashes::Hash::to_byte_array(root),
        output_key: info.output_key().serialize(),
        output_key_odd: info.output_key_parity() == Parity::Odd,
    }, block.serialize())
}

/// `bitcoin::ScriptBuf::new_p2tr`: `OP_1` and a push of the tweaked output key. As to the tweak, see
/// `tap_tweak`.
#[verifier::external_body]
pub(crate) fn new_p2tr(key: &[u8; 32], root: &[u8; 32]) -> (r: Vec<u8>)
    requires
        valid_xonly(key@),
    ensures
        r@ == crate::scripts::p2tr_of(tap_tweak_of(key@, root@).0@),
{
    let key = UntweakedPublicKey::from_slice(key).expect("a valid key");
    let root = bitcoin::hashes::Hash::from_byte_array(*root);
    bitcoin::ScriptBuf::new_p2tr(&Secp256k1::new(), key, Some(root)).into_bytes()
}

/// `ControlBlock::decode` and `ControlBlock::verify_taproot_commitment` on a control block of at
/// most 128 siblings with a tapscript leaf version and a valid internal key, which decodes: whether
/// the output key and its parity are the tweak of the internal key by the leaf hash folded with the
/// siblings.
#[verifier::external_body]
pub(crate) fn verify_commitment(block: &[u8], output_key: &[u8; 32], script: &[u8]) -> (r: bool)
    requires
        crate::bip110::control_block(block@),
        block@.len() <= 33 + 128 * 32,
        valid_xonly(block@.subrange(1, 33)),
        valid_xonly(output_key@),
    ensures
        r == (tap_tweak_of(
            block@.subrange(1, 33),
            folded(leaf_hash_of(script@)@, crate::bytes::chunks(block@.skip(33), 32)),
        ) == (*output_key, block@[0] == 0xc1)),
{
    let key = UntweakedPublicKey::from_slice(output_key).expect("a valid key");
    let block = ControlBlock::decode(block).expect("a well-formed control block");
    let script = bitcoin::Script::from_bytes(script);
    block.verify_taproot_commitment(&Secp256k1::new(), key, script)
}

/// `Secp256k1::sign_schnorr_no_aux_rand` over `Message::from_digest`: the signature is a function of
/// the secret and the digest.
#[verifier::external_body]
pub(crate) fn sign(secret: &[u8; 32], digest: &[u8; 32]) -> (r: [u8; 64])
    requires
        usable_secret(secret@),
    ensures
        r == signature_of(secret@, digest@),
{
    let secp = Secp256k1::new();
    let sk = SecretKey::from_slice(secret).expect("secret in range");
    let kp = Keypair::from_secret_key(&secp, &sk);
    secp.sign_schnorr_no_aux_rand(&Message::from_digest(*digest), &kp).serialize()
}

} // verus!
