//! What the program computes for its commands, from plain values to plain values.
use crate::addresses;
use crate::addresses::Address;
use crate::addresses::AddressView;
use crate::addresses::Network;
use crate::bip110;
use crate::bip110::Violation;
use crate::channels;
use crate::channels::Channel;
use crate::compliance;
use crate::error;
use crate::error::PackError;
use crate::framing;
use crate::guarantees;
use crate::hextext;
use crate::packer;
use crate::packer::PackResult;
use crate::scripts;
use crate::taproot_spend;
use crate::tapscript;
use crate::tapscript::Auth;
use crate::tapscript::Violate;
use crate::tx;
use crate::tx::OutPoint;
use crate::tx::OutPointView;
use crate::tx::Transaction;
use crate::tx::TxView;
use vstd::prelude::*;
use vstd::string::StrSliceExecFns;

verus! {

/// A rule to break on purpose.
#[derive(Clone, Copy, PartialEq, Eq, Debug, Structural)]
pub enum ViolateArg {
    /// None.
    Nothing,
    /// C3: a push of 300 bytes in the leaf.
    Push,
    /// C8: an `OP_IF` in the leaf that is executed.
    Opif,
    /// C7: an `OP_SUCCESS` opcode in the leaf.
    Opsuccess,
    /// C1: an output beyond the output cap.
    Output,
}

impl ViolateArg {
    /// The rule that the leaf breaks.
    pub open spec fn leaf(self) -> Violate {
        match self {
            ViolateArg::Nothing | ViolateArg::Output => Violate::Nothing,
            ViolateArg::Push => Violate::PushTooBig,
            ViolateArg::Opif => Violate::OpIf,
            ViolateArg::Opsuccess => Violate::OpSuccess,
        }
    }

    /// The rule that the leaf breaks.
    pub fn to_leaf(self) -> (r: Violate)
        ensures
            r == self.leaf(),
    {
        match self {
            ViolateArg::Nothing | ViolateArg::Output => Violate::Nothing,
            ViolateArg::Push => Violate::PushTooBig,
            ViolateArg::Opif => Violate::OpIf,
            ViolateArg::Opsuccess => Violate::OpSuccess,
        }
    }

    /// Whether an oversize output is appended.
    pub fn oversize_output(self) -> (r: bool)
        ensures
            r == (self == ViolateArg::Output),
    {
        match self {
            ViolateArg::Output => true,
            _ => false,
        }
    }

    /// Whether no rule is broken.
    pub fn is_none(self) -> (r: bool)
        ensures
            r == (self == ViolateArg::Nothing),
    {
        match self {
            ViolateArg::Nothing => true,
            _ => false,
        }
    }
}

/// Where the data of a command comes from.
#[derive(Debug, Clone, PartialEq, Eq)]
pub enum DataSource {
    /// From the input that was named.
    Input,
    /// From the command line: these bytes.
    Bytes(Vec<u8>),
}

/// Whether `r` is the outcome of giving data as the hexadecimal text `t`; white space around it does
/// not count.
pub open spec fn hex_source(r: Result<DataSource, PackError>, t: Seq<char>) -> bool {
    match hextext::unhexed(hextext::trimmed(t)) {
        Some(b) => r is Ok && r->Ok_0 is Bytes && r->Ok_0->Bytes_0@ == b,
        None => r == Err::<DataSource, PackError>(PackError::BadHex),
    }
}

/// Which of the two ways to give data was used, and the bytes where they were given as text, with or
/// without white space around it.
pub fn resolve_data(input_given: bool, data_hex: Option<&str>) -> (r: Result<DataSource, PackError>)
    ensures
        match (input_given, data_hex) {
            (true, Some(_)) => r == Err::<DataSource, PackError>(PackError::TwoSources),
            (false, None) => r == Err::<DataSource, PackError>(PackError::NoSource),
            (true, None) => r == Ok::<DataSource, PackError>(DataSource::Input),
            (false, Some(h)) => hex_source(r, h@),
        },
        !input_given && data_hex is Some ==> match hextext::unhexed(
            hextext::trimmed(data_hex->Some_0@),
        ) {
            Some(b) => r is Ok && r->Ok_0 is Bytes && r->Ok_0->Bytes_0@ == b,
            None => r == Err::<DataSource, PackError>(PackError::BadHex),
        },
{
    match (input_given, data_hex) {
        (true, Some(_)) => Err(PackError::TwoSources),
        (true, None) => Ok(DataSource::Input),
        (false, Some(h)) => match hextext::decode(hextext::trim(h)) {
            Ok(b) => Ok(DataSource::Bytes(b)),
            Err(_) => Err(PackError::BadHex),
        },
        (false, None) => Err(PackError::NoSource),
    }
}

/// Whether the last colon of a text stands at `k`.
pub open spec fn last_colon(t: Seq<char>, k: int) -> bool {
    0 <= k < t.len() && t[k] == ':' && forall|j: int| k < j < t.len() ==> #[trigger] t[j] != ':'
}

/// The spent output that a text stands for: what is before the last colon is the id, what is behind
/// it the index.
pub open spec fn outpoint_of(t: Seq<char>, k: int) -> Result<OutPointView, PackError> {
    match hextext::txid_of(t.take(k)) {
        None => Err(PackError::BadTxid),
        Some(txid) => match hextext::u32_of(t.skip(k + 1)) {
            None => Err(PackError::BadVout),
            Some(vout) => Ok(OutPointView { txid, vout }),
        },
    }
}

/// Reads a spent output from `txid:vout`.
pub fn parse_prevout(t: &str) -> (r: Result<OutPoint, PackError>)
    ensures
        (forall|k: int| !last_colon(t@, k)) ==> error::outcome(
            r,
            Err::<OutPointView, PackError>(PackError::BadPrevout),
        ),
        forall|k: int| #[trigger] last_colon(t@, k) ==> error::outcome(r, outpoint_of(t@, k)),
{
    let n: usize = t.unicode_len();
    let mut k: usize = n;
    while k > 0
        invariant
            n == t@.len(),
            k <= n,
            forall|j: int| k <= j < n ==> #[trigger] t@[j] != ':',
        decreases k,
    {
        k = k - 1;
        if t.get_char(k) == ':' {
            proof {
                assert(last_colon(t@, k as int));
                assert(t@.take(k as int) =~= t@.subrange(0, k as int));
                assert(t@.skip(k + 1) =~= t@.subrange(k + 1, n as int));
            }
            let id = t.substring_char(0, k);
            let txid = match hextext::read_txid(id) {
                Ok(id) => id,
                Err(_) => {
                    return Err(PackError::BadTxid);
                },
            };
            let index = t.substring_char(k + 1, n);
            return match hextext::read_u32(index) {
                Some(vout) => Ok(OutPoint { txid, vout }),
                None => Err(PackError::BadVout),
            };
        }
    }
    Err(PackError::BadPrevout)
}

/// The script that an address pays to on a network, or why there is none.
pub open spec fn destination_of(text: Seq<char>, network: Network) -> Result<Seq<u8>, PackError> {
    match addresses::parsed_address(text, network) {
        None => Err(PackError::BadAddress),
        Some(None) => Err(PackError::WrongNetwork),
        Some(Some(spk)) => Ok(spk),
    }
}

/// The script that an address pays to on a network.
pub fn parse_destination(text: &str, network: Network) -> (r: Result<Vec<u8>, PackError>)
    ensures
        error::outcome(r, destination_of(text@, network)),
{
    match addresses::parse_address(text, network) {
        Ok(Ok(spk)) => Ok(spk),
        Ok(Err(_)) => Err(PackError::WrongNetwork),
        Err(_) => Err(PackError::BadAddress),
    }
}

/// The transaction that a hexadecimal text stands for, or why there is none; white space around it
/// does not count.
pub open spec fn tx_of(txhex: Seq<char>) -> Result<TxView, PackError> {
    match hextext::unhexed(hextext::trimmed(txhex)) {
        None => Err(PackError::BadHex),
        Some(raw) => match tx::tx_decoding(raw) {
            None => Err(PackError::BadTransaction),
            Some(t) => Ok(t),
        },
    }
}

/// White space around the hexadecimal form of a transaction changes nothing: neither the transaction
/// read from it nor the data extracted from that.
pub proof fn law_white_space_is_ignored(
    before: Seq<char>,
    txhex: Seq<char>,
    after: Seq<char>,
    channel: Channel,
)
    requires
        hextext::all_white(before),
        hextext::all_white(after),
        hextext::all_hex(txhex),
    ensures
        tx_of(before + txhex + after) == tx_of(txhex),
        extracted(before + txhex + after, channel) == extracted(txhex, channel),
{
    hextext::law_hex_is_kept(before, txhex, after);
}

/// Reads a transaction from its hexadecimal form, with or without white space around it.
pub fn read_tx(txhex: &str) -> (r: Result<Transaction, PackError>)
    ensures
        error::outcome(r, tx_of(txhex@)),
{
    let raw = match hextext::decode(hextext::trim(txhex)) {
        Ok(b) => b,
        Err(_) => {
            return Err(PackError::BadHex);
        },
    };
    match tx::deserialize(raw.as_slice()) {
        Ok(t) => Ok(t),
        Err(_) => Err(PackError::BadTransaction),
    }
}

/// What is reported of a transaction.
#[derive(Debug, Clone, PartialEq, Eq)]
pub struct TxSummary {
    /// The id, as text.
    pub txid: String,
    /// The number of inputs.
    pub inputs: usize,
    /// The number of outputs.
    pub outputs: usize,
    /// The weight.
    pub weight: u64,
    /// The virtual size: a quarter of the weight, rounded up.
    pub vsize: u64,
    /// The rules that it breaks.
    pub violations: Vec<Violation>,
}

/// Whether `s` is what is to be reported of a transaction.
pub open spec fn summary_of(s: TxSummary, t: TxView) -> bool {
    &&& s.txid@ == tx::txid_text(t)
    &&& s.inputs == t.input.len()
    &&& s.outputs == t.output.len()
    &&& s.weight == tx::tx_weight(t)
    &&& s.vsize == (tx::tx_weight(t) + 3) / 4
    &&& bip110::findings(s.violations@) == bip110::tx_findings(t)
    &&& s.violations@.len() == 0 <==> bip110::compliant(t)
}

/// What is reported of a transaction; one that is too large to be encoded has no report.
pub fn summarize(t: &Transaction) -> (r: Result<TxSummary, PackError>)
    ensures
        match r {
            Ok(s) => tx::encodable(t@) && summary_of(s, t@),
            Err(e) => !tx::encodable(t@) && e == PackError::TransactionTooLarge,
        },
        r matches Ok(s) ==> {
            &&& s.txid@ == tx::txid_text(t@)
            &&& s.inputs == t.input@.len()
            &&& s.outputs == t.output@.len()
            &&& s.weight == tx::tx_weight(t@)
            &&& 4 * s.vsize >= s.weight > 4 * s.vsize - 4
            &&& s.violations@.len() == bip110::tx_findings(t@).len()
        },
{
    if !tx::is_encodable(t) {
        return Err(PackError::TransactionTooLarge);
    }
    let weight: u64 = tx::weight(t);
    let vsize: u64 = weight / 4 + (if weight % 4 == 0 {
        0u64
    } else {
        1u64
    });
    Ok(
        TxSummary {
            txid: tx::txid(t),
            inputs: t.input.len(),
            outputs: t.output.len(),
            weight,
            vsize,
            violations: bip110::check(t),
        },
    )
}

/// Whether `r` is the expected outcome of asking for a report.
pub open spec fn report_outcome(
    r: Result<TxSummary, PackError>,
    expected: Result<TxView, PackError>,
) -> bool {
    match expected {
        Err(e) => r == Err::<TxSummary, PackError>(e),
        Ok(t) => if tx::encodable(t) {
            r is Ok && summary_of(r->Ok_0, t)
        } else {
            r == Err::<TxSummary, PackError>(PackError::TransactionTooLarge)
        },
    }
}

/// The report on a transaction given in hexadecimal form.
pub fn verify(txhex: &str) -> (r: Result<TxSummary, PackError>)
    ensures
        report_outcome(r, tx_of(txhex@)),
        tx_of(txhex@) matches Err(e) ==> r == Err::<TxSummary, PackError>(e),
        tx_of(txhex@) matches Ok(t) ==> {
            &&& r is Ok <==> tx::encodable(t)
            &&& !tx::encodable(t) ==> r == Err::<TxSummary, PackError>(
                PackError::TransactionTooLarge,
            )
            &&& r matches Ok(s) ==> summary_of(s, t)
        },
{
    match read_tx(txhex) {
        Ok(t) => summarize(&t),
        Err(e) => Err(e),
    }
}

/// The data that a transaction carries on a channel, or why there is none.
pub open spec fn extracted_from(t: TxView, channel: Channel) -> Result<Seq<u8>, PackError> {
    match channels::decoded(channel, t) {
        Err(e) => Err(e),
        Ok(framed) => framing::unframed(framed),
    }
}

/// The data that a transaction given in hexadecimal form carries on a channel, or why there is none.
pub open spec fn extracted(txhex: Seq<char>, channel: Channel) -> Result<Seq<u8>, PackError> {
    match tx_of(txhex) {
        Err(e) => Err(e),
        Ok(t) => extracted_from(t, channel),
    }
}

/// Whether `r` is the expected outcome of recovering data: the data, and the size of its frame.
pub open spec fn extract_outcome(
    r: Result<(Vec<u8>, usize), PackError>,
    txhex: Seq<char>,
    channel: Channel,
) -> bool {
    match r {
        Ok((data, framed_len)) => {
            &&& extracted(txhex, channel) == Ok::<Seq<u8>, PackError>(data@)
            &&& channels::decoded(channel, tx_of(txhex)->Ok_0)->Ok_0.len() == framed_len
        },
        Err(e) => extracted(txhex, channel) == Err::<Seq<u8>, PackError>(e),
    }
}

/// Recovers the data that a transaction given in hexadecimal form carries on a channel, with the size
/// of its frame.
pub fn extract(txhex: &str, channel: Channel) -> (r: Result<(Vec<u8>, usize), PackError>)
    ensures
        extract_outcome(r, txhex@, channel),
{
    let t = match read_tx(txhex) {
        Ok(t) => t,
        Err(e) => {
            return Err(e);
        },
    };
    let framed = match channels::decode(channel, &t) {
        Ok(f) => f,
        Err(e) => {
            return Err(e);
        },
    };
    match framing::unframe(framed.as_slice()) {
        Ok(data) => Ok((data, framed.len())),
        Err(e) => Err(e),
    }
}

/// The address to fund for a framed payload, or why there is none. The tapleaf has an authorization,
/// the other channels have none.
pub open spec fn framed_commit_outcome(
    framed: Seq<u8>,
    auth: Auth,
    network: Network,
    channel: Channel,
) -> Result<Option<AddressView>, PackError> {
    if channel == Channel::Tapleaf {
        Ok(
            Some(
                taproot_spend::leaf_address(
                    scripts::encode(tapscript::auth_leaf(framed, auth)),
                    network,
                ),
            ),
        )
    } else {
        channels::commit_outcome(channel, framed, network)
    }
}

/// The address to fund for data, or why there is none. A violating leaf holds the data itself, without
/// a frame.
pub open spec fn commit_outcome(
    data: Seq<u8>,
    framed: Seq<u8>,
    auth: Auth,
    network: Network,
    channel: Channel,
    violate: ViolateArg,
) -> Result<Option<AddressView>, PackError> {
    if violate == ViolateArg::Nothing {
        framed_commit_outcome(framed, auth, network, channel)
    } else if channel != Channel::Tapleaf {
        Err(PackError::ViolationNeedsTapleaf)
    } else {
        Ok(
            Some(
                taproot_spend::leaf_address(
                    scripts::encode(tapscript::violation_leaf(data, violate.leaf())),
                    network,
                ),
            ),
        )
    }
}

/// Whether `r` is the expected outcome of asking for an address.
pub open spec fn address_outcome(
    r: Result<Option<Address>, PackError>,
    expected: Result<Option<AddressView>, PackError>,
) -> bool {
    match r {
        Ok(Some(a)) => expected == Ok::<Option<AddressView>, PackError>(Some(a@)),
        Ok(None) => expected == Ok::<Option<AddressView>, PackError>(None),
        Err(e) => expected == Err::<Option<AddressView>, PackError>(e),
    }
}

/// The address to fund for `data`, whose frame is `framed`; `None` on a channel that does not commit.
pub fn commit_framed(
    data: &[u8],
    framed: &[u8],
    auth: Auth,
    network: Network,
    channel: Channel,
    violate: ViolateArg,
) -> (r: Result<Option<Address>, PackError>)
    ensures
        address_outcome(r, commit_outcome(data@, framed@, auth, network, channel, violate)),
        r matches Ok(Some(a)) ==> addresses::parsed_address(a.text@, network) == Some(
            Some(a.script_pubkey@),
        ),
{
    if !violate.is_none() {
        if channel != Channel::Tapleaf {
            return Err(PackError::ViolationNeedsTapleaf);
        }
        return match taproot_spend::commit_address_violation(data, violate.to_leaf(), network) {
            Ok(a) => Ok(Some(a)),
            Err(e) => Err(e),
        };
    }
    if channel == Channel::Tapleaf {
        match taproot_spend::commit_address(framed, auth, network) {
            Ok(a) => Ok(Some(a)),
            Err(e) => Err(e),
        }
    } else {
        channels::commit_address(channel, framed, network)
    }
}

/// The address to fund for `data`, with the size of its frame; `None` on a channel that does not
/// commit.
pub fn commit(
    data: &[u8],
    auth: Auth,
    network: Network,
    channel: Channel,
    compress: bool,
    violate: ViolateArg,
) -> (r: Result<(Option<Address>, usize), PackError>)
    ensures
        ({
            let framed = framing::framed_of(data@, compress);
            let expected = commit_outcome(data@, framed, auth, network, channel, violate);
            match r {
                Ok((a, n)) => n == framed.len() && address_outcome(Ok(a), expected),
                Err(e) => expected == Err::<Option<AddressView>, PackError>(e),
            }
        }),
        r matches Ok((Some(a), _)) ==> addresses::parsed_address(a.text@, network) == Some(
            Some(a.script_pubkey@),
        ),
{
    let framed = framing::frame(data, compress);
    match commit_framed(data, framed.as_slice(), auth, network, channel, violate) {
        Ok(a) => Ok((a, framed.len())),
        Err(e) => Err(e),
    }
}

/// The transaction that carries data, whose frame is `framed`, or why there is none. A violating leaf
/// holds the data itself and is open to anyone; on the other channels than the tapleaf the
/// authorization has no meaning.
pub open spec fn spend_outcome(
    data: Seq<u8>,
    framed: Seq<u8>,
    auth: Auth,
    channel: Channel,
    prevout: OutPointView,
    prevout_value: u64,
    to: Seq<u8>,
    fee: u64,
    violate: ViolateArg,
) -> Result<TxView, PackError> {
    if violate != ViolateArg::Nothing {
        if channel != Channel::Tapleaf {
            Err(PackError::ViolationNeedsTapleaf)
        } else {
            taproot_spend::violating_outcome(
                data,
                violate.leaf(),
                prevout,
                prevout_value,
                to,
                fee,
                violate == ViolateArg::Output,
            )
        }
    } else if channel == Channel::Tapleaf {
        taproot_spend::signed_outcome(framed, auth, prevout, prevout_value, to, fee)
    } else {
        channels::build_outcome(channel, framed, prevout, prevout_value, to, fee)
    }
}

/// What is asked for as a commit address is what the transaction built for the same data spends, for
/// every authorization and every violation.
pub proof fn law_spend_spends_commit(
    data: Seq<u8>,
    framed: Seq<u8>,
    auth: Auth,
    network: Network,
    channel: Channel,
    prevout: OutPointView,
    prevout_value: u64,
    to: Seq<u8>,
    fee: u64,
    violate: ViolateArg,
)
    requires
        channel.commits(),
    ensures
        spend_outcome(data, framed, auth, channel, prevout, prevout_value, to, fee, violate) matches
        Ok(t) ==> {
            &&& commit_outcome(data, framed, auth, network, channel, violate) matches Ok(Some(a))
            &&& channels::spends_address(channel, t.input[0].witness, a, network)
        },
{
    let outcome = spend_outcome(
        data,
        framed,
        auth,
        channel,
        prevout,
        prevout_value,
        to,
        fee,
        violate,
    );
    if outcome is Ok {
        if violate != ViolateArg::Nothing {
            compliance::law_leaf_commitment(
                scripts::encode(tapscript::violation_leaf(data, violate.leaf())),
            );
        } else if channel == Channel::Tapleaf {
            compliance::law_leaf_commitment(scripts::encode(tapscript::auth_leaf(framed, auth)));
        } else {
            channels::law_reveal_spends_commit(
                channel,
                framed,
                network,
                prevout,
                prevout_value,
                to,
                fee,
            );
        }
    }
}

/// The transaction that carries `data`, whose frame is `framed`.
pub fn spend_framed(
    data: &[u8],
    framed: &[u8],
    auth: Auth,
    network: Network,
    channel: Channel,
    prevout: OutPoint,
    prevout_value: u64,
    to: &[u8],
    fee: u64,
    violate: ViolateArg,
) -> (r: Result<Transaction, PackError>)
    ensures
        error::outcome(
            r,
            spend_outcome(
                data@,
                framed@,
                auth,
                channel,
                prevout@,
                prevout_value,
                to@,
                fee,
                violate,
            ),
        ),
{
    if !violate.is_none() {
        if channel != Channel::Tapleaf {
            return Err(PackError::ViolationNeedsTapleaf);
        }
        return taproot_spend::build_spend_violation(
            data,
            violate.to_leaf(),
            prevout,
            prevout_value,
            to,
            fee,
            network,
            violate.oversize_output(),
        );
    }
    if channel == Channel::Tapleaf {
        taproot_spend::build_signed_spend(framed, auth, prevout, prevout_value, to, fee, network)
    } else {
        channels::build(channel, framed, prevout, prevout_value, to, fee, network)
    }
}

/// A built transaction and what is reported of it.
#[derive(Debug, Clone, PartialEq, Eq)]
pub struct SpendReport {
    /// The transaction.
    pub tx: Transaction,
    /// Its hexadecimal form.
    pub hex: String,
    /// The report on it.
    pub summary: TxSummary,
    /// The size of the framed payload.
    pub framed_len: usize,
    /// Whether it is handed out as a success: it keeps every rule, or breaking one was asked for.
    pub accepted: bool,
}

/// Whether a report is the one on the transaction `t` that carries `data` on a channel to `to`. Where
/// the destination is no `OP_RETURN` script and the transaction is small enough to be read back,
/// extracting from its hexadecimal form gives the data.
pub open spec fn spend_report(
    rep: SpendReport,
    t: TxView,
    data: Seq<u8>,
    framed: Seq<u8>,
    channel: Channel,
    to: Seq<u8>,
    violate: ViolateArg,
) -> bool {
    &&& rep.tx@ == t
    &&& rep.hex@ == hextext::hex_of(tx::tx_encoding(t))
    &&& hextext::all_hex(rep.hex@)
    &&& summary_of(rep.summary, t)
    &&& rep.framed_len == framed.len()
    &&& rep.accepted == (violate != ViolateArg::Nothing || bip110::compliant(t))
    &&& violate == ViolateArg::Nothing && tx::readable(t) && (channel == Channel::OpReturn
        ==> !scripts::op_return_script(to)) ==> extracted(rep.hex@, channel) == Ok::<
        Seq<u8>,
        PackError,
    >(data)
}

/// Whether `r` is the expected outcome of building the transaction that carries `data`.
pub open spec fn build_report(
    r: Result<SpendReport, PackError>,
    expected: Result<TxView, PackError>,
    data: Seq<u8>,
    framed: Seq<u8>,
    channel: Channel,
    to: Seq<u8>,
    violate: ViolateArg,
) -> bool {
    match expected {
        Err(e) => r == Err::<SpendReport, PackError>(e),
        Ok(t) => if tx::encodable(t) {
            r is Ok && spend_report(r->Ok_0, t, data, framed, channel, to, violate)
        } else {
            r == Err::<SpendReport, PackError>(PackError::TransactionTooLarge)
        },
    }
}

/// Builds the transaction that carries `data` to the scriptPubKey `to`, and reports on it.
pub fn build_spend_to(
    data: &[u8],
    auth: Auth,
    network: Network,
    channel: Channel,
    compress: bool,
    prevout: OutPoint,
    prevout_value: u64,
    to: &[u8],
    fee: u64,
    violate: ViolateArg,
) -> (r: Result<SpendReport, PackError>)
    ensures
        ({
            let framed = framing::framed_of(data@, compress);
            build_report(
                r,
                spend_outcome(
                    data@,
                    framed,
                    auth,
                    channel,
                    prevout@,
                    prevout_value,
                    to@,
                    fee,
                    violate,
                ),
                data@,
                framed,
                channel,
                to@,
                violate,
            )
        }),
        r matches Ok(rep) ==> {
            &&& rep.tx.input@.len() == 1
            &&& rep.tx.input@[0].previous_output.txid@ == prevout.txid@
            &&& rep.tx.input@[0].previous_output.vout == prevout.vout
            &&& rep.tx.output@.len() >= 1
            &&& channel.commits() ==> rep.tx.output@[0].script_pubkey@ == to@
                && rep.tx.output@[0].value == prevout_value - fee
            &&& !channel.commits() ==> rep.tx.output@.last().script_pubkey@ == to@
            &&& rep.accepted == (violate != ViolateArg::Nothing || bip110::tx_findings(
                rep.tx@,
            ).len() == 0)
        },
{
    let framed = framing::frame(data, compress);
    let t = match spend_framed(
        data,
        framed.as_slice(),
        auth,
        network,
        channel,
        prevout,
        prevout_value,
        to,
        fee,
        violate,
    ) {
        Ok(t) => t,
        Err(e) => {
            return Err(e);
        },
    };
    let summary = match summarize(&t) {
        Ok(s) => s,
        Err(e) => {
            return Err(e);
        },
    };
    let raw = tx::serialize(&t);
    let hex = hextext::encode(raw.as_slice());
    let accepted = !violate.is_none() || summary.violations.len() == 0;
    proof {
        guarantees::law_a_spend_spends_the_given_output(
            data@,
            framed@,
            auth,
            channel,
            prevout@,
            prevout_value,
            to@,
            fee,
            violate,
        );
        guarantees::law_a_spend_pays_the_destination(
            data@,
            framed@,
            auth,
            channel,
            prevout@,
            prevout_value,
            to@,
            fee,
            violate,
        );
        tx::law_view_holds_every_field(t);
        assert(t@.input[0].previous_output.vout == prevout.vout);
        assert(t@.output[0].script_pubkey == t.output@[0].script_pubkey@);
        assert(t@.output[t.output@.len() - 1].script_pubkey == t.output@.last().script_pubkey@);
        hextext::law_hex_roundtrip(raw@);
        hextext::law_hex_is_kept(Seq::empty(), hex@, Seq::empty());
        if violate == ViolateArg::Nothing {
            if channel == Channel::Tapleaf {
                channels::law_tapleaf_roundtrip(
                    framed@,
                    auth,
                    prevout@,
                    prevout_value,
                    to@,
                    fee,
                );
            } else if channel == Channel::OpReturn ==> !scripts::op_return_script(to@) {
                channels::law_roundtrip(channel, framed@, prevout@, prevout_value, to@, fee);
            }
        }
    }
    Ok(SpendReport { tx: t, hex, summary, framed_len: framed.len(), accepted })
}

/// Builds the transaction that carries `data` from and to what is written in `prevout` and `to`.
pub fn build_spend(
    data: &[u8],
    auth: Auth,
    network: Network,
    channel: Channel,
    compress: bool,
    prevout: &str,
    prevout_value: u64,
    fee: u64,
    to: &str,
    violate: ViolateArg,
) -> (r: Result<SpendReport, PackError>)
    ensures
        (forall|k: int| !last_colon(prevout@, k)) ==> r == Err::<SpendReport, PackError>(
            PackError::BadPrevout,
        ),
        forall|k: int| #[trigger]
            last_colon(prevout@, k) ==> {
                let framed = framing::framed_of(data@, compress);
                match outpoint_of(prevout@, k) {
                    Err(e) => r == Err::<SpendReport, PackError>(e),
                    Ok(p) => match destination_of(to@, network) {
                        Err(e) => r == Err::<SpendReport, PackError>(e),
                        Ok(spk) => build_report(
                            r,
                            spend_outcome(
                                data@,
                                framed,
                                auth,
                                channel,
                                p,
                                prevout_value,
                                spk,
                                fee,
                                violate,
                            ),
                            data@,
                            framed,
                            channel,
                            spk,
                            violate,
                        ),
                    },
                }
            },
        r matches Ok(rep) ==> {
            &&& rep.tx.input@.len() == 1
            &&& exists|k: int| #[trigger]
                last_colon(prevout@, k) && hextext::txid_of(prevout@.take(k)) == Some(
                    rep.tx.input@[0].previous_output.txid@,
                ) && hextext::u32_of(prevout@.skip(k + 1)) == Some(
                    rep.tx.input@[0].previous_output.vout,
                )
            &&& rep.tx.output@.len() >= 1
            &&& addresses::parsed_address(to@, network) == Some(
                Some(
                    if channel.commits() {
                        rep.tx.output@[0].script_pubkey@
                    } else {
                        rep.tx.output@.last().script_pubkey@
                    },
                ),
            )
            &&& channel.commits() ==> rep.tx.output@[0].value == prevout_value - fee
        },
{
    let outpoint = match parse_prevout(prevout) {
        Ok(p) => p,
        Err(e) => {
            return Err(e);
        },
    };
    let spk = match parse_destination(to, network) {
        Ok(s) => s,
        Err(e) => {
            return Err(e);
        },
    };
    build_spend_to(
        data,
        auth,
        network,
        channel,
        compress,
        outpoint,
        prevout_value,
        spk.as_slice(),
        fee,
        violate,
    )
}

/// A packed block and what is reported of it.
#[derive(Debug, Clone, PartialEq, Eq)]
pub struct PackReport {
    /// What was packed.
    pub packed: PackResult,
    /// How many bytes of data were left over.
    pub remaining: usize,
    /// The size of the transactions together.
    pub serialized: usize,
    /// Their hexadecimal forms.
    pub lines: Vec<String>,
    /// The reports on them.
    pub summaries: Vec<TxSummary>,
    /// Whether the rule check found nothing on any of them.
    pub accepted: bool,
}

/// The size of the first `n` transactions together.
pub open spec fn total_size(txs: Seq<Transaction>, n: int) -> int
    decreases n,
{
    if n <= 0 {
        0
    } else {
        total_size(txs, n - 1) + tx::tx_size(txs[n - 1]@)
    }
}

/// Packs `data` into a block, checks every transaction against the rules and reports on it. The check
/// finds nothing.
pub fn pack(data: &[u8]) -> (r: Result<PackReport, PackError>)
    ensures
        r is Ok,
        ({
            let p = r->Ok_0;
            let n = packer::packed_len(data@.len() as int);
            &&& p.packed.bytes_packed == n
            &&& p.packed.txs@.len() == (if data@.len() == 0 {
                0nat
            } else {
                1nat
            })
            &&& data@.len() > 0 ==> p.packed.txs@[0]@ == taproot_spend::data_tx(
                data@.take(n),
                taproot_spend::dummy_outpoint(0),
            )
            &&& p.packed.weight_used == packer::total_weight(
                p.packed.txs@,
                p.packed.txs@.len() as int,
            )
            &&& p.packed.weight_used <= p.packed.budget == packer::data_budget()
            &&& p.remaining == data@.len() - n
            &&& p.serialized == total_size(p.packed.txs@, p.packed.txs@.len() as int)
            &&& p.lines@.len() == p.packed.txs@.len()
            &&& forall|i: int|
                0 <= i < p.lines@.len() ==> (#[trigger] p.lines@[i])@ == hextext::hex_of(
                    tx::tx_encoding(p.packed.txs@[i]@),
                )
            &&& p.summaries@.len() == p.packed.txs@.len()
            &&& forall|i: int|
                0 <= i < p.summaries@.len() ==> summary_of(
                    #[trigger] p.summaries@[i],
                    p.packed.txs@[i]@,
                ) && p.summaries@[i].violations@.len() == 0
            &&& p.accepted
        }),
        ({
            let p = r->Ok_0;
            &&& data@.len() <= 3_958_620 ==> p.packed.bytes_packed == data@.len() && p.remaining == 0
            &&& data@.len() > 3_958_620 ==> p.packed.bytes_packed == 3_958_620 && p.remaining
                == data@.len() - 3_958_620
            &&& data@.len() == 0 ==> p.packed.txs@.len() == 0 && p.serialized == 0
            &&& data@.len() > 0 ==> {
                let t = p.packed.txs@[0]@;
                &&& p.packed.txs@.len() == 1
                &&& p.packed.weight_used == tx::tx_weight(t)
                &&& p.serialized == tx::tx_size(t)
                &&& t.input.len() == 1
                &&& t.input[0].witness.len() == 2
                &&& scripts::script_pushes(t.input[0].witness[0]) == data@.take(
                    p.packed.bytes_packed as int,
                )
                &&& channels::decoded(Channel::Tapleaf, t) == Ok::<Seq<u8>, PackError>(
                    data@.take(p.packed.bytes_packed as int),
                )
                &&& extracted(p.lines@[0]@, Channel::Tapleaf) == framing::unframed(
                    data@.take(p.packed.bytes_packed as int),
                )
            }
        }),
{
    let packed = match packer::pack(data) {
        Ok(p) => p,
        Err(e) => {
            return Err(e);
        },
    };
    let mut lines: Vec<String> = Vec::new();
    let mut summaries: Vec<TxSummary> = Vec::new();
    let mut accepted: bool = true;
    let mut serialized: usize = 0;
    let mut i: usize = 0;
    while i < packed.txs.len()
        invariant
            i <= packed.txs@.len() <= 1,
            lines@.len() == i,
            summaries@.len() == i,
            accepted,
            serialized == total_size(packed.txs@, i as int),
            i == 0 ==> serialized == 0,
            forall|k: int|
                0 <= k < packed.txs@.len() ==> bip110::compliant(#[trigger] packed.txs@[k]@)
                    && tx::encodable(packed.txs@[k]@),
            forall|k: int|
                0 <= k < i ==> (#[trigger] lines@[k])@ == hextext::hex_of(
                    tx::tx_encoding(packed.txs@[k]@),
                ),
            forall|k: int|
                0 <= k < i ==> summary_of(#[trigger] summaries@[k], packed.txs@[k]@)
                    && summaries@[k].violations@.len() == 0,
            forall|k: int|
                0 <= k < i && tx::readable(packed.txs@[k]@) ==> tx_of((#[trigger] lines@[k])@)
                    == Ok::<TxView, PackError>(packed.txs@[k]@),
        decreases packed.txs@.len() - i,
    {
        let summary = match summarize(&packed.txs[i]) {
            Ok(s) => s,
            Err(e) => {
                return Err(e);
            },
        };
        if summary.violations.len() > 0 {
            accepted = false;
        }
        summaries.push(summary);
        let raw = tx::serialize(&packed.txs[i]);
        serialized = serialized + raw.len();
        let line = hextext::encode(raw.as_slice());
        proof {
            hextext::law_hex_roundtrip(raw@);
            hextext::law_hex_is_kept(Seq::empty(), line@, Seq::empty());
        }
        lines.push(line);
        i = i + 1;
    }
    let remaining: usize = data.len() - packed.bytes_packed;
    proof {
        reveal_with_fuel(total_size, 2);
        let n = packer::packed_len(data@.len() as int);
        channels::law_packed_data_reads_back(data@.take(n), taproot_spend::dummy_outpoint(0));
        if data@.len() > 0 {
            tx::law_what_fits_a_block_is_readable(packed.txs@[0]@);
            assert(tx_of(lines@[0]@) == Ok::<TxView, PackError>(packed.txs@[0]@));
        }
    }
    Ok(PackReport { packed, remaining, serialized, lines, summaries, accepted })
}

} // verus!
