//! What can go wrong.
use vstd::prelude::*;

verus! {

/// Why a request was not carried out. Amounts are in satoshi, sizes in bytes.
#[derive(Debug, Clone, PartialEq, Eq)]
pub enum PackError {
    /// A script ends in the middle of an instruction.
    MalformedScript,
    /// A framed payload without a header byte.
    MissingHeader,
    /// A framed payload with this header byte, which means nothing.
    UnknownHeader(u8),
    /// A compressed payload that does not inflate.
    InflateFailed,
    /// The fee is more than the spent output holds.
    FeeExceedsValue {
        /// The fee asked for.
        fee: u64,
        /// The value of the spent output.
        value: u64,
    },
    /// The spent output does not hold the fee and the values of the data outputs.
    ValueTooSmall {
        /// The fee asked for.
        fee: u64,
        /// The value of the spent output.
        value: u64,
    },
    /// The payload is more than the channel carries.
    PayloadTooLarge {
        /// The size of the payload.
        size: usize,
        /// The most that the channel carries.
        max: usize,
    },
    /// No last byte makes the data a valid internal key.
    NoValidKey,
    /// The control block does not commit to its leaf.
    CommitmentMismatch,
    /// The payload takes more stack items than a script may start with.
    TooManyArguments {
        /// The items that it takes.
        needed: usize,
        /// The most that there may be.
        max: usize,
    },
    /// The witness script of the payload is larger than one may be.
    WitnessScriptTooLarge {
        /// The size of the payload.
        payload: usize,
        /// The size of the script.
        script: usize,
        /// The most that it may be.
        max: usize,
    },
    /// The size of the payload does not fit the 32-bit length field.
    LengthField(usize),
    /// The transaction has no input.
    NoInputs,
    /// The first input has no witness.
    EmptyWitness,
    /// The witness of the first input has this many items, which is no script-path spend.
    NoScriptPath(usize),
    /// A control block of this size is too short.
    ControlBlockTooShort(usize),
    /// A control block of this size does not end with whole siblings.
    ControlBlockLength(usize),
    /// The length recorded in front of the payload is more than there is.
    DeclaredLength {
        /// The length recorded.
        declared: usize,
        /// The bytes there are.
        available: usize,
    },
    /// The transaction has this many outputs, too few for data and change.
    TooFewOutputs(usize),
    /// The output with this index is no data output.
    NotADataOutput(usize),
    /// The transaction has fewer outputs than the length recorded calls for.
    MissingOutputs {
        /// The length recorded.
        declared: usize,
        /// The outputs that it calls for.
        needed: usize,
        /// The outputs there are.
        outputs: usize,
    },
    /// The value of the data output with this index is below the base value.
    BelowBase(usize),
    /// The value of a data output stands for more than two bytes.
    AmountTooLarge {
        /// The index of the output.
        output: usize,
        /// What its value stands for.
        piece: u64,
    },
    /// A text that is not made of pairs of hexadecimal digits.
    BadHex,
    /// Bytes that are no transaction.
    BadTransaction,
    /// A transaction that is too large to be encoded.
    TransactionTooLarge,
    /// Data was given both as an input and as text.
    TwoSources,
    /// No data was given.
    NoSource,
    /// A spent output that is not written as `txid:vout`.
    BadPrevout,
    /// The id of a spent output that is none.
    BadTxid,
    /// The index of a spent output that is none.
    BadVout,
    /// A destination that is no address.
    BadAddress,
    /// A destination on another network.
    WrongNetwork,
    /// A violation asked for on a channel other than the tapleaf.
    ViolationNeedsTapleaf,
}

/// Whether `r` is the expected outcome, its value taken by its view.
pub open spec fn outcome<T: View>(
    r: Result<T, PackError>,
    expected: Result<T::V, PackError>,
) -> bool {
    match r {
        Ok(t) => expected == Ok::<T::V, PackError>(t@),
        Err(e) => expected == Err::<T::V, PackError>(e),
    }
}

} // verus!
