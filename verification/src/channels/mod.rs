//! Channels: the ways to carry a payload in a transaction that keeps every rule.
//!
//! A channel takes and gives framed bytes (see `framing`) and does not look into them. The channels
//! that commit and reveal fund an address first and carry the payload where they spend it; the
//! others carry it in the outputs of a single transaction.
use crate::addresses;
use crate::addresses::Address;
use crate::addresses::AddressView;
use crate::addresses::Network;
use crate::bip110;
use crate::bytes;
use crate::compliance;
use crate::error;
use crate::error::PackError;
use crate::scripts;
use crate::taproot;
use crate::taproot_spend;
use crate::tapscript;
use crate::tapscript::Auth;
use crate::tapscript::Violate;
use crate::tx::OutPoint;
use crate::tx::OutPointView;
use crate::tx::Transaction;
use crate::tx::TxView;
use vstd::prelude::*;

pub mod control_block;
pub mod fake_key;
pub mod op_return;
pub mod p2wsh_envelope;
pub mod stego;
pub mod witness_args;

verus! {

/// A way to carry a payload.
#[derive(Clone, Copy, PartialEq, Eq, Debug, Structural)]
pub enum Channel {
    /// In the pushes of a taproot leaf.
    Tapleaf,
    /// In the internal key and the siblings of a control block.
    ControlBlock,
    /// In the initial stack of a taproot leaf.
    WitnessArgs,
    /// In the witness script of a version 0 output.
    P2wshEnvelope,
    /// In `OP_RETURN` outputs.
    OpReturn,
    /// In place of the keys of taproot outputs.
    FakeKey,
    /// In the sequence number and the output amounts.
    Stego,
}

impl Channel {
    /// Whether the channel funds an address and carries the payload where it spends it.
    pub open spec fn commits(self) -> bool {
        match self {
            Channel::Tapleaf
            | Channel::ControlBlock
            | Channel::WitnessArgs
            | Channel::P2wshEnvelope => true,
            Channel::OpReturn | Channel::FakeKey | Channel::Stego => false,
        }
    }

    /// Whether the channel funds an address and carries the payload where it spends it.
    pub fn is_commit_reveal(self) -> (r: bool)
        ensures
            r == self.commits(),
            r == (self == Channel::Tapleaf || self == Channel::ControlBlock || self
                == Channel::WitnessArgs || self == Channel::P2wshEnvelope),
    {
        match self {
            Channel::Tapleaf
            | Channel::ControlBlock
            | Channel::WitnessArgs
            | Channel::P2wshEnvelope => true,
            Channel::OpReturn | Channel::FakeKey | Channel::Stego => false,
        }
    }
}

/// The documented capacity of a channel, for each input or each output that carries data; `None`
/// where there is no fixed one.
pub fn max_payload(channel: Channel) -> (r: Option<usize>)
    ensures
        r == (match channel {
            Channel::ControlBlock => Some(224usize),
            Channel::OpReturn => Some(80usize),
            Channel::FakeKey => Some(32usize),
            _ => None,
        }),
{
    match channel {
        Channel::Tapleaf => None,
        Channel::ControlBlock => Some(224),
        Channel::WitnessArgs => None,
        Channel::P2wshEnvelope => None,
        Channel::OpReturn => Some(80),
        Channel::FakeKey => Some(32),
        Channel::Stego => None,
    }
}

/// The address to fund on a channel, `None` where it has none, or why the payload is refused.
pub open spec fn commit_outcome(channel: Channel, framed: Seq<u8>, network: Network) -> Result<
    Option<AddressView>,
    PackError,
> {
    let address = match channel {
        Channel::Tapleaf => Ok(
            taproot_spend::leaf_address(
                scripts::encode(tapscript::auth_leaf(framed, Auth::Anyone)),
                network,
            ),
        ),
        Channel::ControlBlock => control_block::commit_outcome(framed, network),
        Channel::WitnessArgs => witness_args::commit_outcome(framed, network),
        _ => p2wsh_envelope::commit_outcome(framed, network),
    };
    if channel.commits() {
        match address {
            Ok(a) => Ok(Some(a)),
            Err(e) => Err(e),
        }
    } else {
        Ok(None)
    }
}

/// The transaction that carries a payload on a channel, or why there is none.
pub open spec fn build_outcome(
    channel: Channel,
    framed: Seq<u8>,
    prevout: OutPointView,
    prevout_value: u64,
    to: Seq<u8>,
    fee: u64,
) -> Result<TxView, PackError> {
    match channel {
        Channel::Tapleaf => taproot_spend::signed_outcome(
            framed,
            Auth::Anyone,
            prevout,
            prevout_value,
            to,
            fee,
        ),
        Channel::ControlBlock => control_block::reveal_outcome(
            framed,
            prevout,
            prevout_value,
            to,
            fee,
        ),
        Channel::WitnessArgs => witness_args::reveal_outcome(
            framed,
            prevout,
            prevout_value,
            to,
            fee,
        ),
        Channel::P2wshEnvelope => p2wsh_envelope::reveal_outcome(
            framed,
            prevout,
            prevout_value,
            to,
            fee,
        ),
        Channel::OpReturn => op_return::build_outcome(framed, prevout, prevout_value, to, fee),
        Channel::FakeKey => fake_key::build_outcome(framed, prevout, prevout_value, to, fee),
        Channel::Stego => stego::build_outcome(framed, prevout, prevout_value, to, fee),
    }
}

/// The payload in the leaf of the first input, or why there is none: the ord payload where it holds
/// anything, else all that the leaf pushes.
pub open spec fn decoded_tapleaf(t: TxView) -> Result<Seq<u8>, PackError> {
    if t.input.len() == 0 {
        Err(PackError::NoInputs)
    } else {
        let items = t.input[0].witness;
        if items.len() < 2 {
            Err(PackError::NoScriptPath(items.len() as usize))
        } else {
            let leaf = items[items.len() - 2];
            if tapscript::script_ord_payload(leaf).len() > 0 {
                Ok(tapscript::script_ord_payload(leaf))
            } else if scripts::parse(leaf).1 {
                Ok(scripts::script_pushes(leaf))
            } else {
                Err(PackError::MalformedScript)
            }
        }
    }
}

/// The payload that a transaction carries on a channel, or why there is none.
pub open spec fn decoded(channel: Channel, t: TxView) -> Result<Seq<u8>, PackError> {
    match channel {
        Channel::Tapleaf => decoded_tapleaf(t),
        Channel::ControlBlock => control_block::decoded(t),
        Channel::WitnessArgs => witness_args::decoded(t),
        Channel::P2wshEnvelope => p2wsh_envelope::decoded(t),
        Channel::OpReturn => op_return::decoded(t),
        Channel::FakeKey => fake_key::decoded(t),
        Channel::Stego => stego::decoded(t),
    }
}

/// Reading a tapleaf reveal gives the payload back under either authorization, unless the payload is
/// empty.
pub proof fn law_tapleaf_roundtrip(
    framed: Seq<u8>,
    auth: Auth,
    prevout: OutPointView,
    prevout_value: u64,
    to: Seq<u8>,
    fee: u64,
)
    requires
        framed.len() > 0,
    ensures
        decoded_tapleaf(
            taproot_spend::signed_spend(framed, auth, prevout, prevout_value, to, fee),
        ) == Ok::<Seq<u8>, PackError>(framed),
{
    let t = taproot_spend::signed_spend(framed, auth, prevout, prevout_value, to, fee);
    let script = scripts::encode(tapscript::auth_leaf(framed, auth));
    let items = t.input[0].witness;
    tapscript::law_auth_leaf_roundtrip(framed, auth);
    assert(items[items.len() - 2] == script);
}

/// Reading a violating reveal gives its data back, unless the data is empty.
pub proof fn law_violating_roundtrip(
    data: Seq<u8>,
    violate: Violate,
    prevout: OutPointView,
    prevout_value: u64,
    to: Seq<u8>,
    fee: u64,
    oversize_output: bool,
)
    requires
        data.len() > 0,
    ensures
        decoded_tapleaf(
            taproot_spend::violating_spend(
                data,
                violate,
                prevout,
                prevout_value,
                to,
                fee,
                oversize_output,
            ),
        ) == Ok::<Seq<u8>, PackError>(data),
{
    tapscript::law_violation_leaf_roundtrip(data, violate);
}

/// Reading on the tapleaf channel the transaction that carries data in plain chunks gives the data
/// back, however long it is and whatever it holds.
pub proof fn law_packed_data_reads_back(data: Seq<u8>, prevout: OutPointView)
    ensures
        decoded(Channel::Tapleaf, taproot_spend::data_tx(data, prevout)) == Ok::<
            Seq<u8>,
            PackError,
        >(data),
{
    let t = taproot_spend::data_tx(data, prevout);
    let items = t.input[0].witness;
    tapscript::law_plain_leaf_roundtrip(data);
    tapscript::law_plain_leaf_has_no_ord_payload(data);
    assert(items[items.len() - 2] == scripts::encode(tapscript::plain_leaf(data)));
}

/// What is built on a channel reads back, on that channel, to the payload. Left out are the empty
/// payload in a tapleaf, which no framed payload is, and change to an `OP_RETURN` script where such
/// outputs carry the data.
pub proof fn law_roundtrip(
    channel: Channel,
    framed: Seq<u8>,
    prevout: OutPointView,
    prevout_value: u64,
    to: Seq<u8>,
    fee: u64,
)
    requires
        channel == Channel::Tapleaf ==> framed.len() > 0,
        channel == Channel::OpReturn ==> !scripts::op_return_script(to),
    ensures
        build_outcome(channel, framed, prevout, prevout_value, to, fee) matches Ok(t) ==> decoded(
            channel,
            t,
        ) == Ok::<Seq<u8>, PackError>(framed),
{
    if build_outcome(channel, framed, prevout, prevout_value, to, fee) is Ok {
        let left = (prevout_value - fee) as u64;
        match channel {
            Channel::Tapleaf => {
                law_tapleaf_roundtrip(framed, Auth::Anyone, prevout, prevout_value, to, fee);
            },
            Channel::ControlBlock => {
                control_block::law_roundtrip(framed, prevout, left, to);
            },
            Channel::WitnessArgs => {
                witness_args::law_roundtrip(framed, prevout, left, to);
            },
            Channel::P2wshEnvelope => {
                p2wsh_envelope::law_roundtrip(framed, prevout, left, to);
            },
            Channel::OpReturn => {
                op_return::law_roundtrip(framed, prevout, left, to);
            },
            Channel::FakeKey => {
                let change = (prevout_value - fee - fake_key::dust(framed)) as u64;
                fake_key::law_roundtrip(framed, prevout, change, to);
            },
            Channel::Stego => {
                let change = (prevout_value - fee - stego::data_value(framed)) as u64;
                stego::law_roundtrip(framed, prevout, change, to);
            },
        }
    }
}

/// What is built on a channel keeps every rule where the destination is within the output cap; on
/// the witness script channel, where the script is within the item cap too.
pub proof fn law_built_is_compliant(
    channel: Channel,
    framed: Seq<u8>,
    prevout: OutPointView,
    prevout_value: u64,
    to: Seq<u8>,
    fee: u64,
)
    requires
        bip110::compliant_output(to),
        channel == Channel::P2wshEnvelope ==> p2wsh_envelope::data_script(framed).len()
            <= bip110::MAX_PUSH,
    ensures
        build_outcome(channel, framed, prevout, prevout_value, to, fee) matches Ok(t)
            ==> bip110::compliant(t),
{
    if build_outcome(channel, framed, prevout, prevout_value, to, fee) is Ok {
        let left = (prevout_value - fee) as u64;
        match channel {
            Channel::Tapleaf => {
                compliance::law_signed_spend_compliant(
                    framed,
                    Auth::Anyone,
                    prevout,
                    prevout_value,
                    to,
                    fee,
                );
            },
            Channel::ControlBlock => {
                control_block::law_reveal_compliant(framed, prevout, left, to);
            },
            Channel::WitnessArgs => {
                witness_args::law_reveal_compliant(framed, prevout, left, to);
            },
            Channel::P2wshEnvelope => {
                p2wsh_envelope::law_reveal_compliant(framed, prevout, left, to);
            },
            Channel::OpReturn => {
                op_return::law_compliant(framed, prevout, left, to);
            },
            Channel::FakeKey => {
                let change = (prevout_value - fee - fake_key::dust(framed)) as u64;
                fake_key::law_compliant(framed, prevout, change, to);
            },
            Channel::Stego => {
                let change = (prevout_value - fee - stego::data_value(framed)) as u64;
                stego::law_compliant(framed, prevout, change, to);
            },
        }
    }
}

/// What is built on a channel pays out what it spends less the fee.
pub proof fn law_value_is_kept(
    channel: Channel,
    framed: Seq<u8>,
    prevout: OutPointView,
    prevout_value: u64,
    to: Seq<u8>,
    fee: u64,
)
    ensures
        build_outcome(channel, framed, prevout, prevout_value, to, fee) matches Ok(t)
            ==> compliance::total_value(t.output, t.output.len() as int) + fee == prevout_value,
{
    if build_outcome(channel, framed, prevout, prevout_value, to, fee) is Ok {
        match channel {
            Channel::Tapleaf => {
                compliance::law_signed_spend_value(
                    framed,
                    Auth::Anyone,
                    prevout,
                    prevout_value,
                    to,
                    fee,
                );
            },
            Channel::ControlBlock => {
                control_block::law_reveal_value(framed, prevout, prevout_value, to, fee);
            },
            Channel::WitnessArgs => {
                witness_args::law_reveal_value(framed, prevout, prevout_value, to, fee);
            },
            Channel::P2wshEnvelope => {
                p2wsh_envelope::law_reveal_value(framed, prevout, prevout_value, to, fee);
            },
            Channel::OpReturn => {
                op_return::law_value(framed, prevout, prevout_value, to, fee);
            },
            Channel::FakeKey => {
                fake_key::law_value(framed, prevout, prevout_value, to, fee);
            },
            Channel::Stego => {
                stego::law_value(framed, prevout, prevout_value, to, fee);
            },
        }
    }
}

/// A channel that does not commit never has a commit address and never refuses to say so. One that
/// commits has one for every payload of up to 254 bytes, except that on the control block channel it
/// has one exactly where some last byte makes a valid key.
pub proof fn law_channels_that_commit_have_an_address(
    channel: Channel,
    framed: Seq<u8>,
    network: Network,
)
    requires
        framed.len() <= control_block::MAX_PAYLOAD,
    ensures
        !channel.commits() <==> commit_outcome(channel, framed, network) == Ok::<
            Option<AddressView>,
            PackError,
        >(None),
        channel != Channel::ControlBlock ==> (channel.commits() <==> commit_outcome(
            channel,
            framed,
            network,
        ) matches Ok(Some(_))),
        channel == Channel::ControlBlock ==> (control_block::grindable(framed) <==> commit_outcome(
            channel,
            framed,
            network,
        ) matches Ok(Some(_))),
        commit_outcome(channel, framed, network) matches Err(e) ==> channel == Channel::ControlBlock
            && e == PackError::NoValidKey,
{
    p2wsh_envelope::law_capacity(framed);
}

/// The address and the reveal agree on what a channel that commits can carry: a payload is refused
/// by one exactly where it is refused by the other, for the same reason, as long as the fee can be
/// paid.
pub proof fn law_commit_and_reveal_agree(
    channel: Channel,
    framed: Seq<u8>,
    network: Network,
    prevout: OutPointView,
    prevout_value: u64,
    to: Seq<u8>,
    fee: u64,
)
    requires
        channel.commits(),
        fee <= prevout_value,
    ensures
        commit_outcome(channel, framed, network) is Ok <==> build_outcome(
            channel,
            framed,
            prevout,
            prevout_value,
            to,
            fee,
        ) is Ok,
        commit_outcome(channel, framed, network) matches Err(e) ==> build_outcome(
            channel,
            framed,
            prevout,
            prevout_value,
            to,
            fee,
        ) == Err::<TxView, PackError>(e),
{
}

/// Whether a witness spends what an address pays to: it ends with a leaf and a control block that
/// commits to it under the output key of the address; on the witness script channel, with the script
/// that the address is the address of.
pub open spec fn spends_address(
    channel: Channel,
    items: Seq<Seq<u8>>,
    a: AddressView,
    network: Network,
) -> bool {
    if channel == Channel::P2wshEnvelope {
        a == addresses::p2wsh_of(items.last(), network)
    } else {
        let block = items.last();
        let root = taproot::folded(
            taproot::leaf_hash_of(items[items.len() - 2])@,
            bytes::chunks(block.skip(33), 32),
        );
        let output = taproot::tap_tweak_of(block.subrange(1, 33), root);
        &&& a.script_pubkey == scripts::p2tr_of(output.0@)
        &&& output.1 == (block[0] == 0xc1)
    }
}

/// What the commit address of a channel pays to is what the reveal spends.
pub proof fn law_reveal_spends_commit(
    channel: Channel,
    framed: Seq<u8>,
    network: Network,
    prevout: OutPointView,
    prevout_value: u64,
    to: Seq<u8>,
    fee: u64,
)
    requires
        channel.commits(),
    ensures
        build_outcome(channel, framed, prevout, prevout_value, to, fee) matches Ok(t) ==> {
            &&& commit_outcome(channel, framed, network) matches Ok(Some(a))
            &&& spends_address(channel, t.input[0].witness, a, network)
        },
{
    if build_outcome(channel, framed, prevout, prevout_value, to, fee) is Ok {
        match channel {
            Channel::Tapleaf => {
                compliance::law_leaf_commitment(
                    scripts::encode(tapscript::auth_leaf(framed, Auth::Anyone)),
                );
            },
            Channel::ControlBlock => {
                control_block::law_data_block_commits(framed, network);
            },
            Channel::WitnessArgs => {
                compliance::law_leaf_commitment(
                    witness_args::drop_leaf(witness_args::arg_count(framed)),
                );
            },
            _ => {},
        }
    }
}

/// The address to fund for `framed` on a channel; `None` on a channel that does not commit.
pub fn commit_address(channel: Channel, framed: &[u8], network: Network) -> (r: Result<
    Option<Address>,
    PackError,
>)
    ensures
        match r {
            Ok(Some(a)) => commit_outcome(channel, framed@, network) == Ok::<
                Option<AddressView>,
                PackError,
            >(Some(a@)),
            Ok(None) => commit_outcome(channel, framed@, network) == Ok::<
                Option<AddressView>,
                PackError,
            >(None),
            Err(e) => commit_outcome(channel, framed@, network) == Err::<
                Option<AddressView>,
                PackError,
            >(e),
        },
        r matches Ok(Some(a)) ==> addresses::parsed_address(a.text@, network) == Some(
            Some(a.script_pubkey@),
        ),
{
    let address = match channel {
        Channel::Tapleaf => taproot_spend::commit_address(framed, Auth::Anyone, network),
        Channel::ControlBlock => control_block::commit_address(framed, network),
        Channel::WitnessArgs => witness_args::commit_address(framed, network),
        Channel::P2wshEnvelope => p2wsh_envelope::commit_address(framed, network),
        Channel::OpReturn | Channel::FakeKey | Channel::Stego => {
            return Ok(None);
        },
    };
    match address {
        Ok(a) => Ok(Some(a)),
        Err(e) => Err(e),
    }
}

/// The transaction that carries `framed` on a channel. On a channel that commits it spends the
/// funded output and pays `prevout_value - fee` to `to`; on the others it spends any output and sends
/// the change to `to`.
pub fn build(
    channel: Channel,
    framed: &[u8],
    prevout: OutPoint,
    prevout_value: u64,
    to: &[u8],
    fee: u64,
    network: Network,
) -> (r: Result<Transaction, PackError>)
    ensures
        error::outcome(r, build_outcome(channel, framed@, prevout@, prevout_value, to@, fee)),
{
    match channel {
        Channel::Tapleaf => taproot_spend::build_signed_spend(
            framed,
            Auth::Anyone,
            prevout,
            prevout_value,
            to,
            fee,
            network,
        ),
        Channel::ControlBlock => control_block::build_reveal(
            framed,
            prevout,
            prevout_value,
            to,
            fee,
            network,
        ),
        Channel::WitnessArgs => witness_args::build_reveal(
            framed,
            prevout,
            prevout_value,
            to,
            fee,
            network,
        ),
        Channel::P2wshEnvelope => p2wsh_envelope::build_reveal(
            framed,
            prevout,
            prevout_value,
            to,
            fee,
            network,
        ),
        Channel::OpReturn => op_return::build_tx(framed, prevout, prevout_value, to, fee, network),
        Channel::FakeKey => fake_key::build_tx(framed, prevout, prevout_value, to, fee, network),
        Channel::Stego => stego::build_tx(framed, prevout, prevout_value, to, fee, network),
    }
}

/// The payload that a transaction carries on a channel.
pub fn decode(channel: Channel, t: &Transaction) -> (r: Result<Vec<u8>, PackError>)
    ensures
        error::outcome(r, decoded(channel, t@)),
{
    match channel {
        Channel::Tapleaf => decode_tapleaf(t),
        Channel::ControlBlock => control_block::decode(t),
        Channel::WitnessArgs => witness_args::decode(t),
        Channel::P2wshEnvelope => p2wsh_envelope::decode(t),
        Channel::OpReturn => op_return::decode(t),
        Channel::FakeKey => fake_key::decode(t),
        Channel::Stego => stego::decode(t),
    }
}

/// The payload in the leaf of the first input.
fn decode_tapleaf(t: &Transaction) -> (r: Result<Vec<u8>, PackError>)
    ensures
        error::outcome(r, decoded_tapleaf(t@)),
{
    if t.input.len() == 0 {
        return Err(PackError::NoInputs);
    }
    let witness = &t.input[0].witness;
    proof {
        assert(t@.input[0].witness == bytes::views(witness@));
    }
    let n: usize = witness.len();
    if n < 2 {
        return Err(PackError::NoScriptPath(n));
    }
    let leaf = witness[n - 2].as_slice();
    let data = tapscript::extract_ord_payload(leaf);
    if data.len() > 0 {
        Ok(data)
    } else {
        tapscript::extract_data(leaf)
    }
}

} // verus!
