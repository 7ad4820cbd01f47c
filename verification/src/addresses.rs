//! Networks and addresses.
use bitcoin::key::{Secp256k1, UntweakedPublicKey};
use crate::scripts;
use crate::taproot;
use vstd::prelude::*;

verus! {

/// A Bitcoin network.
#[derive(Debug, Clone, Copy, PartialEq, Eq, Structural)]
pub enum Network {
    /// The main network.
    Bitcoin,
    /// The test network.
    Testnet,
    /// The fourth test network.
    Testnet4,
    /// The test network whose blocks are signed.
    Signet,
    /// The local regression-test network.
    Regtest,
}

/// An address.
#[derive(Debug, Clone, PartialEq, Eq)]
pub struct Address {
    /// The address as it is written.
    pub text: String,
    /// The scriptPubKey that pays to it.
    pub script_pubkey: Vec<u8>,
}

/// An address as a mathematical value.
#[verifier::ext_equal]
pub struct AddressView {
    pub text: Seq<char>,
    pub script_pubkey: Seq<u8>,
}

impl View for Address {
    type V = AddressView;

    open spec fn view(&self) -> AddressView {
        AddressView { text: self.text@, script_pubkey: self.script_pubkey@ }
    }
}

/// The text of the address that `bitcoin::Address::p2tr` gives.
pub uninterp spec fn p2tr_text(key: Seq<u8>, root: Seq<u8>, network: Network) -> Seq<char>;

/// The text of the address that `bitcoin::Address::p2wsh` gives.
pub uninterp spec fn p2wsh_text(script: Seq<u8>, network: Network) -> Seq<char>;

/// The hash that `bitcoin::Script::wscript_hash` gives for a witness script.
pub uninterp spec fn wscript_hash_of(script: Seq<u8>) -> [u8; 32];

/// The address of the output that a witness script spends.
pub open spec fn p2wsh_of(script: Seq<u8>, network: Network) -> AddressView {
    AddressView {
        text: p2wsh_text(script, network),
        script_pubkey: seq![0u8, 32u8] + wscript_hash_of(script)@,
    }
}

/// The address of the taproot output with this internal key and merkle root.
pub open spec fn p2tr_of(key: Seq<u8>, root: Seq<u8>, network: Network) -> AddressView {
    AddressView {
        text: p2tr_text(key, root, network),
        script_pubkey: scripts::p2tr_of(taproot::tap_tweak_of(key, root).0@),
    }
}

/// `bitcoin::Address::p2tr`: an address that pays to `OP_1` and the tweaked output key; its text is a
/// function of the arguments, and `from_str` and `require_network` read the script back from it on
/// the same network. As to the tweak, see `taproot::tap_tweak`.
#[verifier::external_body]
pub(crate) fn p2tr(key: &[u8; 32], root: &[u8; 32], network: Network) -> (r: Address)
    requires
        taproot::valid_xonly(key@),
    ensures
        r.text@ == p2tr_text(key@, root@, network),
        r.script_pubkey@ == scripts::p2tr_of(taproot::tap_tweak_of(key@, root@).0@),
        parsed_address(r.text@, network) == Some(Some(r.script_pubkey@)),
{
    let key = UntweakedPublicKey::from_slice(key).expect("a valid key");
    let root = bitcoin::hashes::Hash::from_byte_array(*root);
    let network = match network {
        Network::Bitcoin => bitcoin::Network::Bitcoin,
        Network::Testnet => bitcoin::Network::Testnet,
        Network::Testnet4 => bitcoin::Network::Testnet4,
        Network::Signet => bitcoin::Network::Signet,
        Network::Regtest => bitcoin::Network::Regtest,
    };
    let a = bitcoin::Address::p2tr(&Secp256k1::new(), key, Some(root), network);
    Address { text: a.to_string(), script_pubkey: a.script_pubkey().into_bytes() }
}

/// `bitcoin::Address::p2wsh`: an address that pays to `OP_0` and the hash of the witness script, which
/// depends on the script alone; its text is a function of the arguments, and `from_str` and
/// `require_network` read the script back from it on the same network.
#[verifier::external_body]
pub(crate) fn p2wsh(script: &[u8], network: Network) -> (r: Address)
    ensures
        r.text@ == p2wsh_text(script@, network),
        r.script_pubkey@ == seq![0u8, 32u8] + wscript_hash_of(script@)@,
        parsed_address(r.text@, network) == Some(Some(r.script_pubkey@)),
{
    let network = match network {
        Network::Bitcoin => bitcoin::Network::Bitcoin,
        Network::Testnet => bitcoin::Network::Testnet,
        Network::Testnet4 => bitcoin::Network::Testnet4,
        Network::Signet => bitcoin::Network::Signet,
        Network::Regtest => bitcoin::Network::Regtest,
    };
    let a = bitcoin::Address::p2wsh(bitcoin::Script::from_bytes(script), network);
    Address { text: a.to_string(), script_pubkey: a.script_pubkey().into_bytes() }
}

/// The error of `bitcoin::Address`; nothing in it is looked at.
#[verifier::external_type_specification]
#[verifier::external_body]
pub struct ExParseError(bitcoin::address::ParseError);

/// The scriptPubKey of the address that `bitcoin::Address::from_str` reads from a text: `None` where
/// it reads none, `Some(None)` where `require_network` refuses the network.
pub uninterp spec fn parsed_address(text: Seq<char>, network: Network) -> Option<Option<Seq<u8>>>;

/// `bitcoin::Address::from_str`, `require_network` and `script_pubkey`: a function of the text and
/// the network. The outer error is that of the first, the inner one that of the second.
#[verifier::external_body]
pub(crate) fn parse_address(text: &str, network: Network) -> (r: Result<
    Result<Vec<u8>, bitcoin::address::ParseError>,
    bitcoin::address::ParseError,
>)
    ensures
        match r {
            Ok(Ok(spk)) => parsed_address(text@, network) == Some(Some(spk@)),
            Ok(Err(_)) => parsed_address(text@, network) == Some(None::<Seq<u8>>),
            Err(_) => parsed_address(text@, network) is None,
        },
{
    let network = match network {
        Network::Bitcoin => bitcoin::Network::Bitcoin,
        Network::Testnet => bitcoin::Network::Testnet,
        Network::Testnet4 => bitcoin::Network::Testnet4,
        Network::Signet => bitcoin::Network::Signet,
        Network::Regtest => bitcoin::Network::Regtest,
    };
    text.parse::<bitcoin::Address<bitcoin::address::NetworkUnchecked>>().map(|a| {
        a.require_network(network).map(|c| c.script_pubkey().into_bytes())
    })
}

} // verus!
