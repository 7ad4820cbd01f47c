//! Arbitrary bytes in Bitcoin transactions that keep the limits of BIP-110 (reduced data).
//!
//! Data rides in a taproot script-path spend whose leaf pushes chunks of 255 bytes and drops them in
//! pairs, 510 bytes of data in 515 of script, and ends with `OP_1`; or in one of six other places
//! (see `channels`). A block of 4,000,000 weight units takes 3,958,620 bytes that way.
//!
//! `bip110` checks a transaction on its own account, `compliance` holds the proofs that what is built
//! here passes it, and `commands` is what the program computes. What all of it promises is stated on
//! bytes and fields: in `rules` what the check finds, in `guarantees` what is committed to and built,
//! and in `reading` what is read back.
pub mod addresses;
pub mod bip110;
pub mod bytes;
pub mod channels;
pub mod commands;
pub mod compliance;
pub mod error;
pub mod framing;
pub mod guarantees;
pub mod hextext;
pub mod packer;
pub mod reading;
pub mod rules;
pub mod scripts;
pub mod stack;
pub mod taproot;
pub mod taproot_spend;
pub mod tapscript;
pub mod text;
pub mod tx;
