//! What the commands that commit and build promise, stated on the fields of what they give: which
//! output is spent, what is paid to whom, where the data stands, what is signed, and which address is
//! funded.
use crate::addresses;
use crate::addresses::Address;
use crate::addresses::AddressView;
use crate::addresses::Network;
use crate::bip110;
use crate::bip110::Violation;
use crate::bytes;
use crate::channels;
use crate::channels::Channel;
use crate::channels::control_block;
use crate::channels::fake_key;
use crate::channels::op_return;
use crate::channels::p2wsh_envelope;
use crate::channels::stego;
use crate::channels::witness_args;
use crate::commands;
use crate::commands::SpendReport;
use crate::commands::TxSummary;
use crate::commands::ViolateArg;
use crate::compliance;
use crate::error;
use crate::error::PackError;
use crate::framing;
use crate::hextext;
use crate::scripts;
use crate::scripts::Ins;
use crate::taproot;
use crate::taproot_spend;
use crate::tapscript;
use crate::tapscript::Auth;
use crate::text;
use crate::tx;
use crate::tx::OutPointView;
use crate::tx::TxInView;
use crate::tx::TxOutView;
use crate::tx::TxView;
use vstd::prelude::*;

verus! {

/// On every channel, under every authorization and with every violation, a built transaction has
/// exactly one input, and it spends the output that was given: that id and that index. Its scriptSig is
/// empty and it has no lock time. Its version is 2 and its sequence number signals replaceability,
/// except where the sequence number is the length of the payload.
pub proof fn law_a_spend_spends_the_given_output(
    data: Seq<u8>,
    framed: Seq<u8>,
    auth: Auth,
    channel: Channel,
    prevout: OutPointView,
    prevout_value: u64,
    to: Seq<u8>,
    fee: u64,
    violate: ViolateArg,
)
    ensures
        commands::spend_outcome(
            data,
            framed,
            auth,
            channel,
            prevout,
            prevout_value,
            to,
            fee,
            violate,
        ) matches Ok(t) ==> {
            &&& t.input.len() == 1
            &&& t.input[0].previous_output.txid == prevout.txid
            &&& t.input[0].previous_output.vout == prevout.vout
            &&& t.input[0].script_sig.len() == 0
            &&& t.lock_time == 0
            &&& channel != Channel::Stego ==> t.version == 2 && t.input[0].sequence == 0xffff_fffd
            &&& channel == Channel::Stego ==> t.version == 1 && t.input[0].sequence == framed.len()
        },
        channels::build_outcome(channel, framed, prevout, prevout_value, to, fee) matches Ok(t) ==> {
            &&& t.input.len() == 1
            &&& t.input[0].previous_output.txid == prevout.txid
            &&& t.input[0].previous_output.vout == prevout.vout
            &&& t.input[0].script_sig.len() == 0
            &&& t.lock_time == 0
        },
{
}

/// The output that a text names: 64 hexadecimal digits, which are the id last byte first, a colon, and
/// the index in decimal.
pub proof fn law_an_output_is_named_by_id_and_index(id: Seq<u8>, vout: u32)
    requires
        id.len() == 32,
    ensures
        ({
            let t = hextext::hex_of(id.reverse()) + seq![':'] + text::decimal(vout as nat);
            &&& commands::last_colon(t, 64)
            &&& forall|k: int| #[trigger] commands::last_colon(t, k) ==> k == 64
            &&& commands::outpoint_of(t, 64) == Ok::<OutPointView, PackError>(
                OutPointView { txid: id, vout },
            )
        }),
{
    let h = hextext::hex_of(id.reverse());
    let d = text::decimal(vout as nat);
    let t = h + seq![':'] + d;
    hextext::law_txid_reads_back(id, h);
    hextext::law_decimal_reads_back(vout as nat);
    hextext::law_u32_of(d);
    assert(t.take(64) =~= h);
    assert(t.skip(65) =~= d);
    assert(t[64] == ':');
    assert forall|j: int| 64 < j < t.len() implies #[trigger] t[j] != ':' by {
        assert(t[j] == d[j - 65]);
    }
    assert forall|k: int| #[trigger] commands::last_colon(t, k) implies k == 64 by {
        if k < 64 {
            assert(t[64] == ':');
        } else if k > 64 {
            assert(t[k] != ':');
        }
    }
}

/// What stands in front of the last colon is the id, and what stands behind it the index: an output is
/// read exactly where both can be read, and it is made of what they stand for.
pub proof fn law_an_output_is_read_around_the_last_colon(t: Seq<char>, k: int)
    ensures
        commands::last_colon(t, k) <==> 0 <= k < t.len() && t[k] == ':' && forall|j: int|
            k < j < t.len() ==> #[trigger] t[j] != ':',
        match commands::outpoint_of(t, k) {
            Ok(p) => hextext::txid_of(t.take(k)) == Some(p.txid) && hextext::u32_of(t.skip(k + 1))
                == Some(p.vout),
            Err(e) => {
                ||| hextext::txid_of(t.take(k)) is None && e == PackError::BadTxid
                ||| hextext::txid_of(t.take(k)) is Some && hextext::u32_of(t.skip(k + 1)) is None && e
                    == PackError::BadVout
            },
        },
{
}

/// The destination is the script of the address, read on the network that was given.
pub proof fn law_a_destination_is_of_the_network(text: Seq<char>, network: Network)
    ensures
        commands::destination_of(text, network) == match addresses::parsed_address(text, network) {
            Some(Some(spk)) => Ok::<Seq<u8>, PackError>(spk),
            Some(None) => Err::<Seq<u8>, PackError>(PackError::WrongNetwork),
            None => Err::<Seq<u8>, PackError>(PackError::BadAddress),
        },
{
}

/// The value of outputs together, summed up one by one.
proof fn lemma_total_is_sum(output: Seq<TxOutView>, n: int)
    requires
        0 <= n <= output.len(),
    ensures
        compliance::total_value(output, n) == output.take(n).fold_left(
            0int,
            |sum: int, o: TxOutView| sum + o.value,
        ),
    decreases n,
{
    if n > 0 {
        lemma_total_is_sum(output, n - 1);
        assert(output.take(n).drop_last() =~= output.take(n - 1));
        assert(output.take(n).last() == output[n - 1]);
    }
}

/// No value is made or lost: what a built transaction pays out, output by output, and the fee are
/// together the value of the output that it spends.
pub proof fn law_a_spend_pays_out_all_but_the_fee(
    data: Seq<u8>,
    framed: Seq<u8>,
    auth: Auth,
    channel: Channel,
    prevout: OutPointView,
    prevout_value: u64,
    to: Seq<u8>,
    fee: u64,
    violate: ViolateArg,
)
    ensures
        commands::spend_outcome(
            data,
            framed,
            auth,
            channel,
            prevout,
            prevout_value,
            to,
            fee,
            violate,
        ) matches Ok(t) ==> t.output.fold_left(0int, |sum: int, o: TxOutView| sum + o.value) + fee
            == prevout_value,
{
    let outcome = commands::spend_outcome(
        data,
        framed,
        auth,
        channel,
        prevout,
        prevout_value,
        to,
        fee,
        violate,
    );
    if outcome is Ok {
        let t = outcome->Ok_0;
        if violate != ViolateArg::Nothing {
            compliance::law_violating_spend_value(
                data,
                violate.leaf(),
                prevout,
                prevout_value,
                to,
                fee,
                violate == ViolateArg::Output,
            );
        } else if channel == Channel::Tapleaf {
            compliance::law_signed_spend_value(framed, auth, prevout, prevout_value, to, fee);
        } else {
            channels::law_value_is_kept(channel, framed, prevout, prevout_value, to, fee);
        }
        lemma_total_is_sum(t.output, t.output.len() as int);
        assert(t.output.take(t.output.len() as int) =~= t.output);
    }
}

/// The destination is paid. On the channels that commit, the only output pays what the fee leaves to
/// it; an oversize output that was asked for stands behind it, 40 zero bytes without value. On the
/// others the last output pays the change to it.
pub proof fn law_a_spend_pays_the_destination(
    data: Seq<u8>,
    framed: Seq<u8>,
    auth: Auth,
    channel: Channel,
    prevout: OutPointView,
    prevout_value: u64,
    to: Seq<u8>,
    fee: u64,
    violate: ViolateArg,
)
    ensures
        commands::spend_outcome(
            data,
            framed,
            auth,
            channel,
            prevout,
            prevout_value,
            to,
            fee,
            violate,
        ) matches Ok(t) ==> {
            &&& fee <= prevout_value
            &&& channel == Channel::Tapleaf || channel == Channel::ControlBlock || channel
                == Channel::WitnessArgs || channel == Channel::P2wshEnvelope ==> {
                &&& t.output.len() == (if violate == ViolateArg::Output {
                    2nat
                } else {
                    1nat
                })
                &&& t.output[0].script_pubkey == to
                &&& t.output[0].value == prevout_value - fee
                &&& violate == ViolateArg::Output ==> {
                    &&& t.output[1].value == 0
                    &&& t.output[1].script_pubkey.len() == 40
                    &&& forall|i: int| 0 <= i < 40 ==> #[trigger] t.output[1].script_pubkey[i] == 0
                }
            }
            &&& t.output.len() >= 1
            &&& channel == Channel::OpReturn || channel == Channel::FakeKey || channel
                == Channel::Stego ==> t.output.last().script_pubkey == to
            &&& channel == Channel::OpReturn ==> t.output.last().value == prevout_value - fee
            &&& channel == Channel::FakeKey ==> t.output.last().value == prevout_value - fee - 330 * (
            t.output.len() - 1)
        },
{
    if channel == Channel::FakeKey {
        bytes::law_chunk_sizes(fake_key::prefixed(framed), 32);
    }
    if channel == Channel::Stego && framed.len() <= u32::MAX {
        lemma_stego_total(framed, stego::pairs(framed).len() as int);
    }
}

/// The data outputs of amounts hold no negative value.
proof fn lemma_stego_total(framed: Seq<u8>, n: int)
    requires
        0 <= n,
    ensures
        0 <= stego::data_total(stego::pairs(framed), n),
    decreases n,
{
    if n > 0 {
        lemma_stego_total(framed, n - 1);
    }
}

/// Where a signature is asked for, the witness is the signature, the leaf and its control block, and
/// the signature is that of the reveal key over the signature hash of this very transaction without
/// its witness, for the value given and the script of the commit address, and for this leaf.
pub proof fn law_a_checksig_spend_is_signed(
    data: Seq<u8>,
    framed: Seq<u8>,
    prevout: OutPointView,
    prevout_value: u64,
    to: Seq<u8>,
    fee: u64,
    network: Network,
)
    ensures
        commands::spend_outcome(
            data,
            framed,
            Auth::Checksig,
            Channel::Tapleaf,
            prevout,
            prevout_value,
            to,
            fee,
            ViolateArg::Nothing,
        ) matches Ok(t) ==> {
            &&& commands::commit_outcome(
                data,
                framed,
                Auth::Checksig,
                network,
                Channel::Tapleaf,
                ViolateArg::Nothing,
            ) matches Ok(Some(a))
            &&& t.input[0].witness.len() == 3
            &&& t.input[0].witness[0] == taproot::signature_of(
                Seq::new(32, |i: int| 2u8),
                tx::sighash_of(
                    TxView {
                        input: seq![TxInView { witness: Seq::empty(), ..t.input[0] }],
                        ..t
                    },
                    TxOutView { value: prevout_value, script_pubkey: a.script_pubkey },
                    taproot::leaf_hash_of(t.input[0].witness[1])@,
                )@,
            )@
        },
{
    let outcome = commands::spend_outcome(
        data,
        framed,
        Auth::Checksig,
        Channel::Tapleaf,
        prevout,
        prevout_value,
        to,
        fee,
        ViolateArg::Nothing,
    );
    if outcome is Ok {
        let t = outcome->Ok_0;
        let unsigned = TxView { input: seq![TxInView { witness: Seq::empty(), ..t.input[0] }], ..t };
        assert(unsigned.input =~= tx::spending(prevout, Seq::empty(), t.output).input);
        assert(unsigned =~= tx::spending(prevout, Seq::empty(), t.output));
        assert(taproot_spend::REVEAL_KEY_SECRET@ =~= Seq::new(32, |i: int| 2u8));
    }
}

/// The witness of a tapleaf spend ends with the leaf and its control block, 33 bytes with the internal
/// key; without a signature there is nothing else. The leaf is the envelope of the framed payload, or
/// for a violation that of the data itself, between what the authorization or the violation calls for.
pub proof fn law_a_tapleaf_spend_reveals_its_leaf(
    data: Seq<u8>,
    framed: Seq<u8>,
    auth: Auth,
    prevout: OutPointView,
    prevout_value: u64,
    to: Seq<u8>,
    fee: u64,
    violate: ViolateArg,
)
    ensures
        commands::spend_outcome(
            data,
            framed,
            auth,
            Channel::Tapleaf,
            prevout,
            prevout_value,
            to,
            fee,
            violate,
        ) matches Ok(t) ==> {
            let w = t.input[0].witness;
            &&& w.len() == (if violate == ViolateArg::Nothing && auth == Auth::Checksig {
                3nat
            } else {
                2nat
            })
            &&& w.last().len() == 33
            &&& w.last().subrange(1, 33) == taproot::public_key_of(Seq::new(32, |i: int| 1u8))@
            &&& w[w.len() - 2] == scripts::encode(scripts::parse(w[w.len() - 2]).0)
            &&& scripts::parse(w[w.len() - 2]) == (
                match violate {
                    ViolateArg::Nothing => tapscript::auth_leaf(framed, auth),
                    ViolateArg::Output => tapscript::auth_leaf(data, Auth::Anyone),
                    ViolateArg::Push => seq![
                        Ins::Push(Seq::new(300, |i: int| 0xeeu8)),
                        Ins::Op(0x75),
                    ] + tapscript::envelope(data).push(Ins::Op(0x51)),
                    ViolateArg::Opif => tapscript::envelope(data) + seq![
                        Ins::Op(0x51),
                        Ins::Op(0x63),
                        Ins::Op(0x51),
                        Ins::Op(0x68),
                    ],
                    ViolateArg::Opsuccess => tapscript::envelope(data) + seq![
                        Ins::Op(0x51),
                        Ins::Op(0x62),
                    ],
                },
                true,
            )
        },
{
    let outcome = commands::spend_outcome(
        data,
        framed,
        auth,
        Channel::Tapleaf,
        prevout,
        prevout_value,
        to,
        fee,
        violate,
    );
    if outcome is Ok {
        let w = outcome->Ok_0.input[0].witness;
        assert(taproot_spend::INTERNAL_KEY_SECRET@ =~= Seq::new(32, |i: int| 1u8));
        assert(taproot_spend::internal_xonly().len() == 32);
        assert(w.last().subrange(1, 33) =~= taproot_spend::internal_xonly());
        if violate == ViolateArg::Nothing {
            tapscript::law_auth_leaf_roundtrip(framed, auth);
        } else {
            tapscript::law_violation_leaf_roundtrip(data, violate.leaf());
            tapscript::law_leaves_around_the_envelope(data);
        }
    }
}

/// The transaction that carries data in plain chunks: one input, which spends the output given, with
/// the leaf and its control block as its witness, and one output without value, to the output key that
/// the control block commits to the leaf under.
pub proof fn law_a_data_transaction(data: Seq<u8>, prevout: OutPointView)
    ensures
        ({
            let t = taproot_spend::data_tx(data, prevout);
            let w = t.input[0].witness;
            let key = taproot::public_key_of(Seq::new(32, |i: int| 1u8))@;
            let output = taproot::tap_tweak_of(key, taproot::leaf_hash_of(w[0])@);
            &&& t.version == 2
            &&& t.lock_time == 0
            &&& t.input.len() == 1
            &&& t.input[0].previous_output.txid == prevout.txid
            &&& t.input[0].previous_output.vout == prevout.vout
            &&& t.input[0].script_sig.len() == 0
            &&& t.input[0].sequence == 0xffff_fffd
            &&& w.len() == 2
            &&& scripts::parse(w[0]) == (tapscript::plain_leaf(data), true)
            &&& w[0] == scripts::encode(scripts::parse(w[0]).0)
            &&& scripts::pushed_bytes(scripts::parse(w[0]).0) == data
            &&& w[1] == seq![
                if output.1 {
                    0xc1u8
                } else {
                    0xc0u8
                },
            ] + key
            &&& t.output.len() == 1
            &&& t.output[0].value == 0
            &&& t.output[0].script_pubkey == seq![0x51u8, 32u8] + output.0@
        }),
{
    tapscript::law_plain_leaf_roundtrip(data);
    assert(taproot_spend::INTERNAL_KEY_SECRET@ =~= Seq::new(32, |i: int| 1u8));
}

/// The made-up outputs that the transactions of a block spend have their number as an id, least
/// significant byte first, so they are all different; a last byte keeps them off the null id.
pub proof fn law_made_up_outputs_differ(i: u32, j: u32)
    ensures
        taproot_spend::dummy_outpoint(i).txid.len() == 32,
        taproot_spend::dummy_outpoint(i).txid[0] == i % 0x100,
        taproot_spend::dummy_outpoint(i).txid[1] == i / 0x100 % 0x100,
        taproot_spend::dummy_outpoint(i).txid[2] == i / 0x1_0000 % 0x100,
        taproot_spend::dummy_outpoint(i).txid[3] == i / 0x100_0000,
        forall|k: int|
            4 <= k < 31 ==> #[trigger] taproot_spend::dummy_outpoint(i).txid[k] == 0,
        taproot_spend::dummy_outpoint(i).txid[31] == 0xa5,
        taproot_spend::dummy_outpoint(i).vout == 0,
        taproot_spend::dummy_outpoint(i) == taproot_spend::dummy_outpoint(j) ==> i == j,
{
    let a = taproot_spend::dummy_txid(i);
    let b = taproot_spend::dummy_txid(j);
    assert(a[0] == i % 0x100 && b[0] == j % 0x100);
    assert(a[1] == i / 0x100 % 0x100 && b[1] == j / 0x100 % 0x100);
    assert(a[2] == i / 0x1_0000 % 0x100 && b[2] == j / 0x1_0000 % 0x100);
    assert(a[3] == i / 0x100_0000 && b[3] == j / 0x100_0000);
}

/// On the `OP_RETURN` channel every 80 bytes of the payload, and the rest, are one output without
/// value: `OP_RETURN`, the length, and the bytes.
pub proof fn law_op_return_outputs(
    framed: Seq<u8>,
    prevout: OutPointView,
    prevout_value: u64,
    to: Seq<u8>,
    fee: u64,
    i: int,
)
    ensures
        channels::build_outcome(
            Channel::OpReturn,
            framed,
            prevout,
            prevout_value,
            to,
            fee,
        ) matches Ok(t) ==> {
            let piece = framed.subrange(
                80 * i,
                if 80 * i + 80 <= framed.len() {
                    80 * i + 80
                } else {
                    framed.len() as int
                },
            );
            &&& t.input[0].witness.len() == 0
            &&& t.output.len() == (framed.len() + 79) / 80 + 1
            &&& 0 <= i && 80 * i < framed.len() ==> {
                &&& t.output[i].value == 0
                &&& t.output[i].script_pubkey == (if piece.len() < 76 {
                    seq![0x6au8, piece.len() as u8] + piece
                } else {
                    seq![0x6au8, 76u8, piece.len() as u8] + piece
                })
            }
        },
{
    bytes::law_chunk_sizes(framed, 80);
    assert(op_return::pieces(framed).len() == (framed.len() + 79) / 80);
    if 0 <= i && 80 * i < framed.len() {
        bytes::law_chunk_bytes(framed, 80, i);
        let piece = op_return::pieces(framed)[i];
        let a = seq![Ins::Op(0x6au8)];
        let b = seq![Ins::Push(piece)];
        scripts::law_encoding_adds_up(a, b, 0x6au8, piece);
        assert(a + b =~= seq![Ins::Op(scripts::OP_RETURN), Ins::Push(piece)]);
        assert(op_return::data_spk(piece) =~= (if piece.len() < 76 {
            seq![0x6au8, piece.len() as u8] + piece
        } else {
            seq![0x6au8, 76u8, piece.len() as u8] + piece
        }));
    }
}

/// On the fake key channel the length of the payload, in four bytes, most significant first, and the
/// payload itself fill the keys of taproot outputs of 330 satoshi, byte by byte, and zeros fill up the
/// last one.
pub proof fn law_fake_key_outputs(
    framed: Seq<u8>,
    prevout: OutPointView,
    prevout_value: u64,
    to: Seq<u8>,
    fee: u64,
    i: int,
    j: int,
)
    ensures
        channels::build_outcome(
            Channel::FakeKey,
            framed,
            prevout,
            prevout_value,
            to,
            fee,
        ) matches Ok(t) ==> {
            let n = framed.len() as int;
            let at = 32 * i + j;
            &&& t.input[0].witness.len() == 0
            &&& t.output.len() == (n + 35) / 32 + 1
            &&& 0 <= i < t.output.len() - 1 && 0 <= j < 32 ==> {
                &&& t.output[i].value == 330
                &&& t.output[i].script_pubkey.len() == 34
                &&& t.output[i].script_pubkey[0] == 0x51
                &&& t.output[i].script_pubkey[1] == 32
                &&& t.output[i].script_pubkey[2 + j] == (if at == 0 {
                    n / 0x100_0000
                } else if at == 1 {
                    n / 0x1_0000 % 0x100
                } else if at == 2 {
                    n / 0x100 % 0x100
                } else if at == 3 {
                    n % 0x100
                } else if at - 4 < n {
                    framed[at - 4] as int
                } else {
                    0
                })
            }
        },
{
    let p = fake_key::prefixed(framed);
    let w = fake_key::words(framed);
    bytes::law_chunk_sizes(p, 32);
    assert(p.len() == framed.len() + 4);
    assert(w.len() == (p.len() + 31) / 32);
    if framed.len() <= u32::MAX && 0 <= i < w.len() && 0 <= j < 32 {
        bytes::law_padded_chunk_bytes(p, 32, i, j);
        let spk = scripts::p2tr_of(w[i]);
        assert(spk[2 + j] == w[i][j]);
        let at = 32 * i + j;
        if 4 <= at < p.len() {
            assert(p[at] == framed[at - 4]);
        }
    }
}

/// On the amounts channel the sequence number is the length of the payload, and every two bytes of it
/// are the value of an output to the destination above 1,000 satoshi, most significant byte first; a
/// zero goes with a single last byte.
pub proof fn law_amount_outputs(
    framed: Seq<u8>,
    prevout: OutPointView,
    prevout_value: u64,
    to: Seq<u8>,
    fee: u64,
    i: int,
)
    ensures
        channels::build_outcome(
            Channel::Stego,
            framed,
            prevout,
            prevout_value,
            to,
            fee,
        ) matches Ok(t) ==> {
            &&& t.version == 1
            &&& t.input[0].sequence == framed.len()
            &&& t.input[0].witness.len() == 0
            &&& t.output.len() == (framed.len() + 1) / 2 + 1
            &&& 0 <= i < t.output.len() ==> t.output[i].script_pubkey == to
            &&& 0 <= i && 2 * i < framed.len() ==> t.output[i].value == 1_000 + 0x100
                * framed[2 * i] + (if 2 * i + 1 < framed.len() {
                framed[2 * i + 1] as int
            } else {
                0
            })
        },
{
    let p = stego::pairs(framed);
    bytes::law_chunk_sizes(framed, 2);
    assert(p.len() == (framed.len() + 1) / 2);
    if framed.len() <= u32::MAX && 0 <= i < p.len() {
        bytes::law_padded_chunk_bytes(framed, 2, i, 0);
        bytes::law_padded_chunk_bytes(framed, 2, i, 1);
        let o = stego::data_outputs(p, to);
        assert(o[i].value == stego::amount(p[i]));
    }
}

/// On the control block channel the witness is a bare `OP_1` and a control block. Its second byte is
/// the length of the payload, the next 30 and all from the 34th on are the payload, with zeros behind
/// it; the 33rd is the least that makes the 32 bytes a valid key. It has as many siblings as that
/// takes.
pub proof fn law_control_block_layout(
    framed: Seq<u8>,
    prevout: OutPointView,
    prevout_value: u64,
    to: Seq<u8>,
    fee: u64,
    i: int,
)
    ensures
        channels::build_outcome(
            Channel::ControlBlock,
            framed,
            prevout,
            prevout_value,
            to,
            fee,
        ) matches Ok(t) ==> {
            let w = t.input[0].witness;
            let block = w[1];
            &&& framed.len() <= 254
            &&& w.len() == 2
            &&& w[0] == seq![0x51u8]
            &&& block.len() == 33 + 32 * ((framed.len() + 1) / 32)
            &&& block.len() <= 257
            &&& block[0] == 0xc0 || block[0] == 0xc1
            &&& block[1] == framed.len()
            &&& 0 <= i < 30 ==> block[2 + i] == (if i < framed.len() {
                framed[i]
            } else {
                0u8
            })
            &&& 30 <= i < block.len() - 3 ==> block[3 + i] == (if i < framed.len() {
                framed[i]
            } else {
                0u8
            })
            &&& taproot::valid_xonly(block.subrange(1, 33))
            &&& forall|h: u8|
                h < block[32] ==> !taproot::valid_xonly(
                    #[trigger] block.subrange(1, 32).push(h),
                )
        },
{
    let outcome = channels::build_outcome(
        Channel::ControlBlock,
        framed,
        prevout,
        prevout_value,
        to,
        fee,
    );
    if outcome is Ok {
        let block = control_block::data_block(framed);
        let e = control_block::embedded(framed);
        let part = control_block::key_part(framed);
        control_block::law_data_block_shape(framed);
        let key = control_block::data_key(framed);
        let tail = bytes::joined(control_block::siblings(framed));
        assert(block =~= seq![block[0]] + key + tail);
        assert(key.len() == 32);
        assert forall|j: int| 0 <= j < 31 implies #[trigger] key[j] == (if j < e.len() {
            e[j]
        } else {
            0u8
        }) by {}
        assert(block[1] == key[0]);
        assert(e[0] == framed.len());
        if 0 <= i < 30 {
            assert(block[2 + i] == key[1 + i]);
            if i < framed.len() {
                assert(e[1 + i] == framed[i]);
            }
        }
        if e.len() > 31 {
            let rest = e.skip(31);
            let p = control_block::siblings(framed);
            bytes::law_chunk_sizes(rest, 32);
            bytes::law_padded_chunks(rest, 32);
            assert(p.len() == (rest.len() + 31) / 32);
            if 30 <= i < block.len() - 3 {
                let at = i - 30;
                assert(block[3 + i] == tail[at]);
                lemma_joined_byte(p, 32, at / 32, at % 32);
                assert(at == 32 * (at / 32) + at % 32);
                bytes::law_padded_chunk_bytes(rest, 32, at / 32, at % 32);
                if i < framed.len() {
                    assert(rest[at] == e[1 + i]);
                    assert(e[1 + i] == framed[i]);
                }
            }
        } else {
            assert(tail =~= Seq::<u8>::empty());
        }
        let g = choose|g: u8| control_block::least_valid(framed, g);
        let least = choose|g: u8| taproot::valid_xonly(#[trigger] control_block::candidate(framed, g));
        lemma_least_exists(framed, least as int);
        assert(control_block::least_valid(framed, g));
        assert(block.subrange(1, 33) =~= key);
        assert(block[32] == key[31]);
        assert(block[32] == g);
        assert forall|h: u8| h < block[32] implies !taproot::valid_xonly(
            #[trigger] block.subrange(1, 32).push(h),
        ) by {
            assert(block.subrange(1, 32).push(h) =~= control_block::candidate(framed, h));
        }
    }
}

/// Where some last byte makes a valid key, there is a least one.
proof fn lemma_least_exists(framed: Seq<u8>, g: int)
    requires
        0 <= g <= 255,
        taproot::valid_xonly(control_block::candidate(framed, g as u8)),
    ensures
        exists|h: u8| control_block::least_valid(framed, h),
    decreases g,
{
    if exists|h: u8|
        h < g && taproot::valid_xonly(#[trigger] control_block::candidate(framed, h)) {
        let h = choose|h: u8|
            h < g && taproot::valid_xonly(#[trigger] control_block::candidate(framed, h));
        lemma_least_exists(framed, h as int);
    } else {
        assert(control_block::least_valid(framed, g as u8));
    }
}

/// The bytes of joined parts of `n` bytes, found by part and place.
proof fn lemma_joined_byte(parts: Seq<Seq<u8>>, n: int, i: int, j: int)
    requires
        0 < n,
        forall|k: int| 0 <= k < parts.len() ==> (#[trigger] parts[k]).len() == n,
        0 <= i < parts.len(),
        0 <= j < n,
    ensures
        0 <= n * i + j < bytes::joined(parts).len(),
        bytes::joined(parts)[n * i + j] == parts[i][j],
{
    let s = bytes::joined(parts);
    bytes::law_chunks_of_joined(parts, n);
    bytes::law_chunk_bytes(s, n, i);
    assert(n * i + n <= n * parts.len()) by (nonlinear_arith)
        requires
            0 < n,
            i + 1 <= parts.len(),
    ;
}

/// On the witness arguments channel the items are the payload in pieces of 256 bytes, and the leaf
/// behind them is one `OP_2DROP` for each two of them, an `OP_DROP` for a single one, and `OP_1`.
pub proof fn law_witness_argument_items(
    framed: Seq<u8>,
    prevout: OutPointView,
    prevout_value: u64,
    to: Seq<u8>,
    fee: u64,
    i: int,
)
    ensures
        channels::build_outcome(
            Channel::WitnessArgs,
            framed,
            prevout,
            prevout_value,
            to,
            fee,
        ) matches Ok(t) ==> {
            let w = t.input[0].witness;
            let n = (framed.len() + 255) / 256;
            let leaf = w[w.len() - 2];
            &&& n <= 1_000
            &&& w.len() == n + 2
            &&& 0 <= i && 256 * i < framed.len() ==> w[i] == framed.subrange(
                256 * i,
                if 256 * i + 256 <= framed.len() {
                    256 * i + 256
                } else {
                    framed.len() as int
                },
            )
            &&& leaf.len() == (n + 1) / 2 + 1
            &&& leaf.last() == 0x51
            &&& 0 <= i < n / 2 ==> leaf[i] == 0x6d
            &&& n % 2 == 1 ==> leaf[n as int / 2] == 0x75
            &&& w.last().len() == 33
            &&& w.last().subrange(1, 33) == taproot::public_key_of(Seq::new(32, |i: int| 1u8))@
        },
{
    let outcome = channels::build_outcome(
        Channel::WitnessArgs,
        framed,
        prevout,
        prevout_value,
        to,
        fee,
    );
    if outcome is Ok {
        let w = outcome->Ok_0.input[0].witness;
        let n = witness_args::arg_count(framed);
        let c = witness_args::args(framed);
        bytes::law_chunk_sizes(framed, 256);
        assert(n == (framed.len() + 255) / 256);
        if 0 <= i && 256 * i < framed.len() {
            bytes::law_chunk_bytes(framed, 256, i);
            assert(w[i] == c[i]);
        }
        let list = witness_args::drops(n);
        lemma_opcodes_are_bytes(list);
        assert(taproot_spend::INTERNAL_KEY_SECRET@ =~= Seq::new(32, |i: int| 1u8));
        assert(taproot_spend::internal_xonly().len() == 32);
        assert(w.last().subrange(1, 33) =~= taproot_spend::internal_xonly());
        assert(w[w.len() - 2] == scripts::encode(list));
        assert(list.last() == Ins::Op(0x51u8));
        assert(0 <= i < n / 2 ==> list[i] == Ins::Op(0x6du8));
        assert(n % 2 == 1 ==> list[n / 2] == Ins::Op(0x75u8));
    }
}

/// A list of opcodes is encoded as their bytes.
proof fn lemma_opcodes_are_bytes(list: Seq<Ins>)
    requires
        forall|i: int| 0 <= i < list.len() ==> #[trigger] list[i] is Op,
    ensures
        scripts::encode(list).len() == list.len(),
        forall|i: int|
            0 <= i < list.len() ==> #[trigger] list[i] == Ins::Op(scripts::encode(list)[i]),
    decreases list.len(),
{
    if list.len() > 0 {
        let front = list.drop_last();
        assert forall|i: int| 0 <= i < front.len() implies #[trigger] front[i] is Op by {
            assert(front[i] == list[i]);
        }
        lemma_opcodes_are_bytes(front);
        assert(list.last() is Op);
        assert forall|i: int| 0 <= i < list.len() implies #[trigger] list[i] == Ins::Op(
            scripts::encode(list)[i],
        ) by {
            if i < front.len() {
                assert(front[i] == list[i]);
            }
        }
    }
}

/// On the witness script channel the witness is one script: `OP_FALSE OP_IF`, the payload in pushes of
/// 255 bytes, `OP_ENDIF OP_1`.
pub proof fn law_witness_script_layout(
    framed: Seq<u8>,
    prevout: OutPointView,
    prevout_value: u64,
    to: Seq<u8>,
    fee: u64,
    i: int,
)
    ensures
        channels::build_outcome(
            Channel::P2wshEnvelope,
            framed,
            prevout,
            prevout_value,
            to,
            fee,
        ) matches Ok(t) ==> {
            let w = t.input[0].witness;
            let n = (framed.len() as int + 254) / 255;
            let list = scripts::parse(w[0]).0;
            &&& w.len() == 1
            &&& w[0].len() <= 10_000
            &&& scripts::parse(w[0]).1
            &&& w[0] == scripts::encode(list)
            &&& list.len() == n + 4
            &&& list[0] == Ins::Push(Seq::<u8>::empty())
            &&& list[1] == Ins::Op(0x63)
            &&& 0 <= i && 255 * i < framed.len() ==> list[2 + i] == Ins::Push(
                framed.subrange(
                    255 * i,
                    if 255 * i + 255 <= framed.len() {
                        255 * i + 255
                    } else {
                        framed.len() as int
                    },
                ),
            )
            &&& list[n + 2] == Ins::Op(0x68)
            &&& list[n + 3] == Ins::Op(0x51)
        },
{
    let c = tapscript::data_chunks(framed);
    let list = p2wsh_envelope::envelope(framed);
    p2wsh_envelope::lemma_envelope_encodable(framed);
    bytes::law_chunk_sizes(framed, 255);
    assert(c.len() == (framed.len() + 254) / 255);
    if 0 <= i && 255 * i < framed.len() {
        bytes::law_chunk_bytes(framed, 255, i);
        assert(list[2 + i] == Ins::Push(c[i]));
    }
}

/// The hash of a leaf under no siblings is the root, and each sibling makes a branch with what is below
/// it.
pub proof fn law_siblings_are_folded_in(leaf: Seq<u8>, siblings: Seq<Seq<u8>>, sibling: Seq<u8>)
    ensures
        taproot::folded(leaf, Seq::empty()) == leaf,
        taproot::folded(leaf, siblings.push(sibling)) == taproot::branch_hash_of(
            taproot::folded(leaf, siblings),
            sibling,
        )@,
{
    assert(siblings.push(sibling).drop_last() =~= siblings);
}

/// The address to fund is the one on the network asked for, and it is what the spend spends: on a
/// taproot channel its text and its script are those of the internal key in the control block that the
/// spend shows and of the root over the leaf that it shows; on the witness script channel those of the
/// script that it shows. There is an address exactly where there is a spend, and where there is none
/// the reason is the same; a channel that does not commit has none and gives no reason.
pub proof fn law_the_commit_address_is_of_the_network_and_spendable(
    data: Seq<u8>,
    framed: Seq<u8>,
    auth: Auth,
    channel: Channel,
    prevout: OutPointView,
    prevout_value: u64,
    to: Seq<u8>,
    fee: u64,
    violate: ViolateArg,
    network: Network,
)
    requires
        fee <= prevout_value,
    ensures
        ({
            let spend = commands::spend_outcome(
                data,
                framed,
                auth,
                channel,
                prevout,
                prevout_value,
                to,
                fee,
                violate,
            );
            let address = commands::commit_outcome(data, framed, auth, network, channel, violate);
            if violate != ViolateArg::Nothing && channel != Channel::Tapleaf {
                &&& address == Err::<Option<AddressView>, PackError>(
                    PackError::ViolationNeedsTapleaf,
                )
                &&& spend == Err::<TxView, PackError>(PackError::ViolationNeedsTapleaf)
            } else if channel == Channel::OpReturn || channel == Channel::FakeKey || channel
                == Channel::Stego {
                address == Ok::<Option<AddressView>, PackError>(None)
            } else {
                match spend {
                    Err(e) => address == Err::<Option<AddressView>, PackError>(e),
                    Ok(t) => {
                        let w = t.input[0].witness;
                        let block = w.last();
                        let leaf = w[w.len() - 2];
                        &&& address matches Ok(Some(a))
                        &&& channel == Channel::P2wshEnvelope ==> {
                            &&& a.text == addresses::p2wsh_text(w.last(), network)
                            &&& a.script_pubkey == seq![0u8, 32u8] + addresses::wscript_hash_of(
                                w.last(),
                            )@
                        }
                        &&& channel != Channel::P2wshEnvelope ==> {
                            let root = if block.len() == 33 {
                                taproot::leaf_hash_of(leaf)@
                            } else {
                                taproot::folded(
                                    taproot::leaf_hash_of(leaf)@,
                                    bytes::chunks(block.skip(33), 32),
                                )
                            };
                            let key = block.subrange(1, 33);
                            let output = taproot::tap_tweak_of(key, root);
                            &&& block.len() >= 33
                            &&& a.text == addresses::p2tr_text(key, root, network)
                            &&& a.script_pubkey == seq![0x51u8, 32u8] + output.0@
                            &&& block[0] == (if output.1 {
                                0xc1u8
                            } else {
                                0xc0u8
                            })
                        }
                    },
                }
            }
        }),
{
    let outcome = commands::spend_outcome(
        data,
        framed,
        auth,
        channel,
        prevout,
        prevout_value,
        to,
        fee,
        violate,
    );
    if channel.commits() && outcome is Ok {
        let w = outcome->Ok_0.input[0].witness;
        let block = w.last();
        assert(taproot_spend::internal_xonly().len() == 32);
        if channel == Channel::ControlBlock {
            control_block::law_data_block_commits(framed, network);
            control_block::law_data_block_shape(framed);
            lemma_cut_again(framed);
            if block.len() == 33 {
                assert(block.skip(33) =~= Seq::<u8>::empty());
                assert(bytes::chunks(block.skip(33), 32) =~= Seq::<Seq<u8>>::empty());
            }
        } else if channel != Channel::P2wshEnvelope {
            assert(block.subrange(1, 33) =~= taproot_spend::internal_xonly());
        }
    }
}

/// The siblings of a control block are cut out of it again.
proof fn lemma_cut_again(framed: Seq<u8>)
    requires
        framed.len() <= 254,
    ensures
        bytes::chunks(control_block::data_block(framed).skip(33), 32) == control_block::siblings(
            framed,
        ),
{
    let e = control_block::embedded(framed);
    control_block::law_data_block_shape(framed);
    if e.len() > 31 {
        bytes::law_padded_chunks(e.skip(31), 32);
    }
    bytes::law_chunks_of_joined(control_block::siblings(framed), 32);
}

/// The address on one network and the address on another pay to the same script.
pub proof fn law_networks_share_the_script(
    data: Seq<u8>,
    framed: Seq<u8>,
    auth: Auth,
    channel: Channel,
    violate: ViolateArg,
    one: Network,
    other: Network,
)
    ensures
        match (
            commands::commit_outcome(data, framed, auth, one, channel, violate),
            commands::commit_outcome(data, framed, auth, other, channel, violate),
        ) {
            (Ok(Some(a)), Ok(Some(b))) => a.script_pubkey == b.script_pubkey,
            (Ok(None), Ok(None)) => true,
            (Err(e), Err(f)) => e == f,
            _ => false,
        },
{
}

/// A violation is refused on every channel but the tapleaf. There, and on the `OP_RETURN` channel, a
/// payload of any size is taken, and only a fee of more than the spent output holds is refused.
pub proof fn law_tapleaf_and_op_return_refusals(
    data: Seq<u8>,
    framed: Seq<u8>,
    auth: Auth,
    channel: Channel,
    prevout: OutPointView,
    prevout_value: u64,
    to: Seq<u8>,
    fee: u64,
    violate: ViolateArg,
)
    ensures
        ({
            let outcome = commands::spend_outcome(
                data,
                framed,
                auth,
                channel,
                prevout,
                prevout_value,
                to,
                fee,
                violate,
            );
            if violate != ViolateArg::Nothing && channel != Channel::Tapleaf {
                outcome == Err::<TxView, PackError>(PackError::ViolationNeedsTapleaf)
            } else if channel == Channel::Tapleaf || channel == Channel::OpReturn {
                if fee > prevout_value {
                    outcome == Err::<TxView, PackError>(
                        PackError::FeeExceedsValue { fee, value: prevout_value },
                    )
                } else {
                    outcome is Ok
                }
            } else {
                true
            }
        }),
{
}

/// On the control block channel a payload of more than 254 bytes is refused, then one that no last byte
/// makes a key of, then a fee of more than the spent output holds.
pub proof fn law_control_block_refusals(
    data: Seq<u8>,
    framed: Seq<u8>,
    auth: Auth,
    prevout: OutPointView,
    prevout_value: u64,
    to: Seq<u8>,
    fee: u64,
)
    requires
        framed.len() <= usize::MAX,
    ensures
        ({
            let n = framed.len() as int;
            let outcome = commands::spend_outcome(
                data,
                framed,
                auth,
                Channel::ControlBlock,
                prevout,
                prevout_value,
                to,
                fee,
                ViolateArg::Nothing,
            );
            if n > 254 {
                outcome == Err::<TxView, PackError>(
                    PackError::PayloadTooLarge { size: n as usize, max: 254 },
                )
            } else if forall|key: Seq<u8>|
                #[trigger] taproot::valid_xonly(key) ==> !(key.len() == 32 && key[0] == n && (forall|
                    j: int|
                    1 <= j < 31 ==> #[trigger] key[j] == (if j <= n {
                        framed[j - 1]
                    } else {
                        0u8
                    }))) {
                outcome == Err::<TxView, PackError>(PackError::NoValidKey)
            } else if fee > prevout_value {
                outcome == Err::<TxView, PackError>(
                    PackError::FeeExceedsValue { fee, value: prevout_value },
                )
            } else {
                outcome is Ok
            }
        }),
{
    let n = framed.len() as int;
    if n <= 254 {
        lemma_grindable(framed);
    }
}

/// On the witness arguments channel a payload of more than 256,000 bytes, which takes more than 1,000
/// items, is refused, then a fee of more than the spent output holds.
pub proof fn law_witness_argument_refusals(
    data: Seq<u8>,
    framed: Seq<u8>,
    auth: Auth,
    prevout: OutPointView,
    prevout_value: u64,
    to: Seq<u8>,
    fee: u64,
)
    requires
        framed.len() <= usize::MAX,
    ensures
        ({
            let n = framed.len() as int;
            let outcome = commands::spend_outcome(
                data,
                framed,
                auth,
                Channel::WitnessArgs,
                prevout,
                prevout_value,
                to,
                fee,
                ViolateArg::Nothing,
            );
            if n > 256_000 {
                outcome == Err::<TxView, PackError>(
                    PackError::TooManyArguments {
                        needed: ((n + 255) / 256) as usize,
                        max: 1_000,
                    },
                )
            } else if fee > prevout_value {
                outcome == Err::<TxView, PackError>(
                    PackError::FeeExceedsValue { fee, value: prevout_value },
                )
            } else {
                outcome is Ok
            }
        }),
{
    let n = framed.len() as int;
    assert(witness_args::arg_count(framed) == (n + 255) / 256);
}

/// On the witness script channel a payload of more than 9,918 bytes, whose script has more than 10,000, is
/// refused with both sizes, then a fee of more than the spent output holds.
pub proof fn law_witness_script_refusals(
    data: Seq<u8>,
    framed: Seq<u8>,
    auth: Auth,
    prevout: OutPointView,
    prevout_value: u64,
    to: Seq<u8>,
    fee: u64,
)
    requires
        framed.len() <= usize::MAX,
    ensures
        ({
            let n = framed.len() as int;
            let outcome = commands::spend_outcome(
                data,
                framed,
                auth,
                Channel::P2wshEnvelope,
                prevout,
                prevout_value,
                to,
                fee,
                ViolateArg::Nothing,
            );
            if n > 9_918 {
                outcome matches Err(PackError::WitnessScriptTooLarge { payload, script, max })
                    && payload == n && max == 10_000 && (n <= 0x7fff_ffff ==> script == n + 4 + 2 * ((n
                    + 254) / 255) - (if (n - 1) % 255 < 75 {
                    1int
                } else {
                    0int
                }))
            } else if fee > prevout_value {
                outcome == Err::<TxView, PackError>(
                    PackError::FeeExceedsValue { fee, value: prevout_value },
                )
            } else {
                outcome is Ok
            }
        }),
{
    let n = framed.len() as int;
    p2wsh_envelope::law_capacity(framed);
    p2wsh_envelope::law_data_script_size(framed);
    if n > 9_918 {
        lemma_script_size(n);
        let size = p2wsh_envelope::data_script(framed).len();
        assert(n <= 0x7fff_ffff ==> size <= u32::MAX);
    }
}

/// The size of the witness script of a payload of `n` bytes, in numbers alone.
proof fn lemma_script_size(n: int)
    requires
        0 < n,
    ensures
        p2wsh_envelope::data_script_size(n) == n + 4 + 2 * ((n + 254) / 255) - (if (n - 1) % 255
            < 75 {
            1int
        } else {
            0int
        }),
{
    let count = bytes::chunk_count(n, tapscript::CHUNK_SIZE as int);
    let q = (n - 1) / 255;
    assert(count == (n + 254) / 255);
    assert(n - 1 == 255 * q + (n - 1) % 255);
    assert(count == q + 1);
}

/// On the fake key channel a payload whose length does not fit 32 bits is refused, then an output that
/// does not hold the fee and 330 satoshi for each 32 bytes of the length and the payload.
pub proof fn law_fake_key_refusals(
    data: Seq<u8>,
    framed: Seq<u8>,
    auth: Auth,
    prevout: OutPointView,
    prevout_value: u64,
    to: Seq<u8>,
    fee: u64,
)
    requires
        framed.len() <= usize::MAX,
    ensures
        ({
            let n = framed.len() as int;
            let outcome = commands::spend_outcome(
                data,
                framed,
                auth,
                Channel::FakeKey,
                prevout,
                prevout_value,
                to,
                fee,
                ViolateArg::Nothing,
            );
            if n > 0xffff_ffff {
                outcome == Err::<TxView, PackError>(PackError::LengthField(n as usize))
            } else if fee + 330 * ((n + 35) / 32) > prevout_value {
                outcome == Err::<TxView, PackError>(
                    PackError::ValueTooSmall { fee, value: prevout_value },
                )
            } else {
                outcome is Ok
            }
        }),
{
    let n = framed.len() as int;
    lemma_fake_key_words(framed);
}

/// On the amounts channel a payload whose length does not fit 32 bits is refused, then an output that does
/// not hold the fee and the values that stand for the payload.
pub proof fn law_amount_refusals(
    data: Seq<u8>,
    framed: Seq<u8>,
    auth: Auth,
    prevout: OutPointView,
    prevout_value: u64,
    to: Seq<u8>,
    fee: u64,
)
    requires
        framed.len() <= usize::MAX,
    ensures
        ({
            let n = framed.len() as int;
            let outcome = commands::spend_outcome(
                data,
                framed,
                auth,
                Channel::Stego,
                prevout,
                prevout_value,
                to,
                fee,
                ViolateArg::Nothing,
            );
            if n > 0xffff_ffff {
                outcome == Err::<TxView, PackError>(PackError::LengthField(n as usize))
            } else if fee + Seq::new(
                ((n + 1) / 2) as nat,
                |i: int|
                    1_000 + 0x100 * framed[2 * i] + (if 2 * i + 1 < n {
                        framed[2 * i + 1] as int
                    } else {
                        0
                    }),
            ).fold_left(0int, |sum: int, v: int| sum + v) > prevout_value {
                outcome == Err::<TxView, PackError>(
                    PackError::ValueTooSmall { fee, value: prevout_value },
                )
            } else {
                outcome is Ok
            }
        }),
{
    let n = framed.len() as int;
    lemma_stego_value(framed);
}

/// A last byte that makes a valid key is there exactly where a valid key begins with the length and
/// the first bytes of the payload.
proof fn lemma_grindable(framed: Seq<u8>)
    requires
        framed.len() <= 254,
    ensures
        control_block::grindable(framed) <==> !(forall|key: Seq<u8>|
            #[trigger] taproot::valid_xonly(key) ==> !(key.len() == 32 && key[0] == framed.len() && (
            forall|j: int|
                1 <= j < 31 ==> #[trigger] key[j] == (if j <= framed.len() {
                    framed[j - 1]
                } else {
                    0u8
                })))),
{
    let n = framed.len() as int;
    let e = control_block::embedded(framed);
    assert(e[0] == n);
    assert forall|j: int| 1 <= j <= n implies #[trigger] e[j] == framed[j - 1] by {}
    if control_block::grindable(framed) {
        let g = choose|g: u8|
            taproot::valid_xonly(#[trigger] control_block::candidate(framed, g));
        let key = control_block::candidate(framed, g);
        assert(taproot::valid_xonly(key));
        assert(key[0] == e[0]);
        assert forall|j: int| 1 <= j < 31 implies #[trigger] key[j] == (if j <= n {
            framed[j - 1]
        } else {
            0u8
        }) by {
            if j <= n {
                assert(key[j] == e[j]);
            }
        }
    }
    assert forall|key: Seq<u8>|
        #[trigger] taproot::valid_xonly(key) && key.len() == 32 && key[0] == n && (forall|j: int|
            1 <= j < 31 ==> #[trigger] key[j] == (if j <= n {
                framed[j - 1]
            } else {
                0u8
            })) implies control_block::grindable(framed) by {
        let c = control_block::candidate(framed, key[31]);
        assert forall|j: int| 0 <= j < 32 implies #[trigger] key[j] == c[j] by {
            if 1 <= j <= n {
                assert(e[j] == framed[j - 1]);
            }
        }
        assert(key =~= c);
        assert(taproot::valid_xonly(control_block::candidate(framed, key[31])));
    }
}

/// How many words a payload with its length takes.
proof fn lemma_fake_key_words(framed: Seq<u8>)
    ensures
        fake_key::words(framed).len() == (framed.len() + 35) / 32,
{
    let p = fake_key::prefixed(framed);
    bytes::law_chunk_sizes(p, 32);
    assert(p.len() == framed.len() + 4);
}

/// The value of all outputs that carry pairs of bytes.
proof fn lemma_stego_value(framed: Seq<u8>)
    ensures
        ({
            let n = framed.len() as int;
            stego::data_value(framed) == Seq::new(
                ((n + 1) / 2) as nat,
                |i: int|
                    1_000 + 0x100 * framed[2 * i] + (if 2 * i + 1 < n {
                        framed[2 * i + 1] as int
                    } else {
                        0
                    }),
            ).fold_left(0int, |sum: int, v: int| sum + v)
        }),
{
    let n = framed.len() as int;
    let p = stego::pairs(framed);
    let v = Seq::new(
        ((n + 1) / 2) as nat,
        |i: int|
            1_000 + 0x100 * framed[2 * i] + (if 2 * i + 1 < n {
                framed[2 * i + 1] as int
            } else {
                0
            }),
    );
    bytes::law_chunk_sizes(framed, 2);
    assert(p.len() == (n + 1) / 2);
    assert forall|i: int| 0 <= i < p.len() implies #[trigger] v[i] == stego::amount(p[i]) by {
        bytes::law_padded_chunk_bytes(framed, 2, i, 0);
        bytes::law_padded_chunk_bytes(framed, 2, i, 1);
    }
    lemma_amounts_are_sum(p, v, p.len() as int);
    assert(v.take(p.len() as int) =~= v);
}

proof fn lemma_amounts_are_sum(p: Seq<Seq<u8>>, v: Seq<int>, n: int)
    requires
        0 <= n <= p.len() == v.len(),
        forall|i: int| 0 <= i < p.len() ==> #[trigger] v[i] == stego::amount(p[i]),
    ensures
        stego::data_total(p, n) == v.take(n).fold_left(0int, |sum: int, v: int| sum + v),
    decreases n,
{
    if n > 0 {
        lemma_amounts_are_sum(p, v, n - 1);
        assert(v.take(n).drop_last() =~= v.take(n - 1));
        assert(v.take(n).last() == v[n - 1]);
        assert(v[n - 1] == stego::amount(p[n - 1]));
    }
}

/// A violation that is asked for is the rule that the check finds broken, and where the destination is
/// within the limits for outputs it is all that the check finds. Without one, a spend to such a
/// destination keeps every rule, except that a witness script of more than 256 bytes is over the cap for
/// witness items: that of a payload of more than 250.
pub proof fn law_a_spend_breaks_what_was_asked_for(
    data: Seq<u8>,
    framed: Seq<u8>,
    auth: Auth,
    channel: Channel,
    prevout: OutPointView,
    prevout_value: u64,
    to: Seq<u8>,
    fee: u64,
    violate: ViolateArg,
)
    ensures
        commands::spend_outcome(
            data,
            framed,
            auth,
            channel,
            prevout,
            prevout_value,
            to,
            fee,
            violate,
        ) matches Ok(t) ==> {
            let within = to.len() <= 34 || (to[0] == 0x6a && to.len() <= 83);
            let found = bip110::tx_findings(t);
            &&& match violate {
                ViolateArg::Nothing => within && (channel == Channel::P2wshEnvelope ==> framed.len()
                    <= 250) ==> found.len() == 0 && bip110::compliant(t),
                ViolateArg::Push => bip110::names_rule(found, "C3"@) && !bip110::compliant(t),
                ViolateArg::Opif => bip110::names_rule(found, "C8"@) && !bip110::compliant(t),
                ViolateArg::Opsuccess => bip110::names_rule(found, "C7"@) && !bip110::compliant(t),
                ViolateArg::Output => bip110::names_rule(found, "C1"@) && !bip110::compliant(t),
            }
            &&& violate == ViolateArg::Nothing && channel == Channel::P2wshEnvelope && framed.len()
                > 250 ==> !bip110::compliant(t)
            &&& violate != ViolateArg::Nothing && within ==> found.len() == 1
        },
{
    let outcome = commands::spend_outcome(
        data,
        framed,
        auth,
        channel,
        prevout,
        prevout_value,
        to,
        fee,
        violate,
    );
    if outcome is Ok {
        let t = outcome->Ok_0;
        bip110::law_no_findings_means_compliant(t);
        let within = to.len() <= 34 || (to[0] == 0x6a && to.len() <= 83);
        assert(within == bip110::compliant_output(to));
        if violate != ViolateArg::Nothing {
            compliance::law_violation_is_rejected(
                data,
                violate.leaf(),
                prevout,
                prevout_value,
                to,
                fee,
                violate == ViolateArg::Output,
            );
            if within {
                compliance::law_violation_breaks_nothing_else(
                    data,
                    violate.leaf(),
                    prevout,
                    prevout_value,
                    to,
                    fee,
                    violate == ViolateArg::Output,
                );
            }
        } else if channel == Channel::Tapleaf {
            if within {
                compliance::law_signed_spend_compliant(
                    framed,
                    auth,
                    prevout,
                    prevout_value,
                    to,
                    fee,
                );
            }
        } else {
            if channel == Channel::P2wshEnvelope {
                lemma_small_script(framed);
            }
            if within && (channel == Channel::P2wshEnvelope ==> framed.len() <= 250) {
                channels::law_built_is_compliant(channel, framed, prevout, prevout_value, to, fee);
            }
            if channel == Channel::P2wshEnvelope && framed.len() > 250 {
                let w = t.input[0].witness;
                assert(w[0].len() > 256);
                assert(!bip110::items_within_cap(w, 1));
                assert(!bip110::compliant_witness(t.input[0].witness));
            }
        }
    }
}

/// The witness script of a payload is within the cap for witness items up to 250 bytes of payload.
proof fn lemma_small_script(framed: Seq<u8>)
    ensures
        p2wsh_envelope::data_script(framed).len() <= 256 <==> framed.len() <= 250,
{
    p2wsh_envelope::law_data_script_size(framed);
    let len = framed.len() as int;
    let count = bytes::chunk_count(len, tapscript::CHUNK_SIZE as int);
    assert(count == (len + 254) / 255);
}

/// What was put in is what comes out: extracting from a built transaction on its channel gives the data
/// whose frame it carries. A violating leaf holds the data without a frame, and that is what is read
/// from it. Left out are change to an `OP_RETURN` script where such outputs carry the data, and a
/// violating leaf without data.
pub proof fn law_what_is_spent_can_be_extracted(
    data: Seq<u8>,
    framed: Seq<u8>,
    auth: Auth,
    channel: Channel,
    prevout: OutPointView,
    prevout_value: u64,
    to: Seq<u8>,
    fee: u64,
    violate: ViolateArg,
)
    requires
        framing::unframed(framed) == Ok::<Seq<u8>, PackError>(data),
        channel == Channel::OpReturn ==> to.len() == 0 || to[0] != 0x6a,
    ensures
        commands::spend_outcome(
            data,
            framed,
            auth,
            channel,
            prevout,
            prevout_value,
            to,
            fee,
            violate,
        ) matches Ok(t) ==> {
            &&& violate == ViolateArg::Nothing ==> channels::decoded(channel, t) == Ok::<
                Seq<u8>,
                PackError,
            >(framed) && commands::extracted_from(t, channel) == Ok::<Seq<u8>, PackError>(data)
            &&& violate != ViolateArg::Nothing && data.len() > 0 ==> channels::decoded(channel, t)
                == Ok::<Seq<u8>, PackError>(data)
        },
{
    let outcome = commands::spend_outcome(
        data,
        framed,
        auth,
        channel,
        prevout,
        prevout_value,
        to,
        fee,
        violate,
    );
    if outcome is Ok {
        if violate != ViolateArg::Nothing {
            if data.len() > 0 {
                channels::law_violating_roundtrip(
                    data,
                    violate.leaf(),
                    prevout,
                    prevout_value,
                    to,
                    fee,
                    violate == ViolateArg::Output,
                );
            }
        } else if channel == Channel::Tapleaf {
            channels::law_tapleaf_roundtrip(framed, auth, prevout, prevout_value, to, fee);
        } else {
            channels::law_roundtrip(channel, framed, prevout, prevout_value, to, fee);
        }
    }
}

/// What is reported of a transaction is what it is: its id, how many inputs and outputs it has, its
/// weight, a quarter of it rounded up, and one line for each finding of the check, in order.
pub proof fn law_a_summary_tells_the_truth(s: TxSummary, t: TxView)
    requires
        commands::summary_of(s, t),
    ensures
        s.txid@ == tx::txid_text(t),
        s.inputs == t.input.len(),
        s.outputs == t.output.len(),
        s.weight == tx::tx_weight(t),
        4 * s.vsize >= tx::tx_weight(t) > 4 * s.vsize - 4,
        s.violations@.len() == bip110::tx_findings(t).len(),
        forall|i: int|
            0 <= i < s.violations@.len() ==> (#[trigger] s.violations@[i]).rule@
                == bip110::tx_findings(t)[i].rule && s.violations@[i].detail@ == bip110::tx_findings(
                t,
            )[i].detail,
        s.violations@.len() == 0 <==> bip110::compliant(t),
{
    let f = bip110::findings(s.violations@);
    assert forall|i: int| 0 <= i < s.violations@.len() implies (#[trigger] s.violations@[i]).rule@
        == bip110::tx_findings(t)[i].rule && s.violations@[i].detail@ == bip110::tx_findings(
        t,
    )[i].detail by {
        assert(f[i] == s.violations@[i]@);
    }
}

/// The findings held by violations are theirs, one for one.
pub proof fn law_findings_are_those_of_the_violations(v: Seq<Violation>)
    ensures
        bip110::findings(v).len() == v.len(),
        forall|i: int|
            0 <= i < v.len() ==> (#[trigger] bip110::findings(v)[i]).rule == v[i].rule@
                && bip110::findings(v)[i].detail == v[i].detail@,
{
}

/// An outcome is the expected one exactly where both succeed with the same value or both fail for the
/// same reason.
pub proof fn law_outcomes_are_exact<T: View>(
    r: Result<T, PackError>,
    expected: Result<T::V, PackError>,
)
    ensures
        error::outcome(r, expected) <==> match (r, expected) {
            (Ok(a), Ok(b)) => a@ == b,
            (Err(e), Err(f)) => e == f,
            _ => false,
        },
{
}

/// The same of an address, which may be missing: its text and its script are the expected ones.
pub proof fn law_address_outcomes_are_exact(
    r: Result<Option<Address>, PackError>,
    expected: Result<Option<AddressView>, PackError>,
)
    ensures
        commands::address_outcome(r, expected) <==> match (r, expected) {
            (Ok(Some(a)), Ok(Some(b))) => a.text@ == b.text && a.script_pubkey@ == b.script_pubkey,
            (Ok(None), Ok(None)) => true,
            (Err(e), Err(f)) => e == f,
            _ => false,
        },
{
    if let (Ok(Some(a)), Ok(Some(b))) = (r, expected) {
        if a.text@ == b.text && a.script_pubkey@ == b.script_pubkey {
            assert(a@ =~= b);
        }
    }
}

/// Reading a transaction, reporting on it and extracting from it go from the same text: the hexadecimal
/// digits in it, whatever white space is around them, and the bytes that they stand for. What is
/// extracted is what its frame holds, and the size reported with it is that of the frame.
pub proof fn law_reading_goes_by_the_text(txhex: Seq<char>, channel: Channel)
    ensures
        match hextext::unhexed(hextext::trimmed(txhex)) {
            None => commands::tx_of(txhex) == Err::<TxView, PackError>(PackError::BadHex),
            Some(raw) => match tx::tx_decoding(raw) {
                None => commands::tx_of(txhex) == Err::<TxView, PackError>(
                    PackError::BadTransaction,
                ),
                Some(t) => commands::tx_of(txhex) == Ok::<TxView, PackError>(t),
            },
        },
        match commands::tx_of(txhex) {
            Err(e) => commands::extracted(txhex, channel) == Err::<Seq<u8>, PackError>(e),
            Ok(t) => match channels::decoded(channel, t) {
                Err(e) => commands::extracted(txhex, channel) == Err::<Seq<u8>, PackError>(e),
                Ok(framed) => commands::extracted(txhex, channel) == framing::unframed(framed),
            },
        },
        forall|r: Result<(Vec<u8>, usize), PackError>|
            #![trigger commands::extract_outcome(r, txhex, channel)]
            commands::extract_outcome(r, txhex, channel) ==> match r {
                Ok((d, n)) => commands::extracted(txhex, channel) == Ok::<Seq<u8>, PackError>(d@)
                    && commands::tx_of(txhex) is Ok && channels::decoded(
                    channel,
                    commands::tx_of(txhex)->Ok_0,
                ) is Ok && channels::decoded(channel, commands::tx_of(txhex)->Ok_0)->Ok_0.len() == n,
                Err(e) => commands::extracted(txhex, channel) == Err::<Seq<u8>, PackError>(e),
            },
{
}

/// A report on a built transaction holds that transaction, its hexadecimal form, the report on it and
/// the size of the frame, and is a success exactly where the check finds nothing or breaking a rule was
/// asked for. What is too large to be encoded has none.
pub proof fn law_a_spend_report_tells_the_truth(
    r: Result<SpendReport, PackError>,
    expected: Result<TxView, PackError>,
    data: Seq<u8>,
    framed: Seq<u8>,
    channel: Channel,
    to: Seq<u8>,
    violate: ViolateArg,
)
    requires
        commands::build_report(r, expected, data, framed, channel, to, violate),
    ensures
        expected matches Err(e) ==> r == Err::<SpendReport, PackError>(e),
        expected matches Ok(t) ==> {
            &&& tx::encodable(t) <==> r is Ok
            &&& !tx::encodable(t) ==> r == Err::<SpendReport, PackError>(
                PackError::TransactionTooLarge,
            )
            &&& r matches Ok(rep) ==> {
                &&& rep.tx@ == t
                &&& hextext::unhexed(rep.hex@) == Some(tx::tx_encoding(t))
                &&& commands::summary_of(rep.summary, t)
                &&& rep.framed_len == framed.len()
                &&& rep.accepted == (violate != ViolateArg::Nothing || bip110::tx_findings(t).len()
                    == 0)
                &&& violate == ViolateArg::Nothing && tx::readable(t) && (channel
                    == Channel::OpReturn ==> to.len() == 0 || to[0] != 0x6a) ==> commands::extracted(
                    rep.hex@,
                    channel,
                ) == Ok::<Seq<u8>, PackError>(data)
            }
        },
{
    if let Ok(t) = expected {
        hextext::law_hex_roundtrip(tx::tx_encoding(t));
        bip110::law_no_findings_means_compliant(t);
    }
}

/// The leaf that drops `n` items is one `OP_2DROP` for each two, an `OP_DROP` for a single one, and
/// `OP_1`.
pub proof fn law_drop_leaf(n: int, i: int)
    requires
        0 <= n,
    ensures
        ({
            let leaf = witness_args::drop_leaf(n);
            &&& leaf.len() == (n + 1) / 2 + 1
            &&& leaf.last() == 0x51
            &&& 0 <= i < n / 2 ==> leaf[i] == 0x6d
            &&& n % 2 == 1 ==> leaf[n / 2] == 0x75
        }),
{
    let list = witness_args::drops(n);
    lemma_opcodes_are_bytes(list);
    assert(list.last() == Ins::Op(0x51u8));
    assert(0 <= i < n / 2 ==> list[i] == Ins::Op(0x6du8));
    assert(n % 2 == 1 ==> list[n / 2] == Ins::Op(0x75u8));
}

/// A channel on its own commits and builds what the commands do where anyone may spend and no rule is
/// to be broken.
pub proof fn law_channels_do_what_the_commands_do(
    data: Seq<u8>,
    framed: Seq<u8>,
    channel: Channel,
    network: Network,
    prevout: OutPointView,
    prevout_value: u64,
    to: Seq<u8>,
    fee: u64,
)
    ensures
        channels::commit_outcome(channel, framed, network) == commands::commit_outcome(
            data,
            framed,
            Auth::Anyone,
            network,
            channel,
            ViolateArg::Nothing,
        ),
        channels::build_outcome(channel, framed, prevout, prevout_value, to, fee)
            == commands::spend_outcome(
            data,
            framed,
            Auth::Anyone,
            channel,
            prevout,
            prevout_value,
            to,
            fee,
            ViolateArg::Nothing,
        ),
{
}

} // verus!
