//! A one-byte header in front of a payload that says whether it is compressed, so that the reader
//! needs nothing else to get the payload back.
use crate::bytes;
use crate::error;
use crate::error::PackError;
use vstd::prelude::*;

verus! {

/// The header of a payload as it is.
pub const HEADER_RAW: u8 = 0x00;

/// The header of a payload compressed with DEFLATE.
pub const HEADER_DEFLATE: u8 = 0x01;

/// The compression level.
pub const COMPRESSION_LEVEL: u8 = 6;

/// The bytes that `miniz_oxide::deflate::compress_to_vec` gives for data at a level.
pub uninterp spec fn deflated(data: Seq<u8>, level: u8) -> Seq<u8>;

/// The data that `miniz_oxide::inflate::decompress_to_vec` gets from bytes; `None` where it fails.
pub uninterp spec fn inflated(packed: Seq<u8>) -> Option<Seq<u8>>;

/// The frame around data as it is.
pub open spec fn raw_frame(data: Seq<u8>) -> Seq<u8> {
    seq![HEADER_RAW] + data
}

/// The frame around data whose compressed form is `packed`: that form where it is strictly smaller,
/// else the data as it is.
pub open spec fn smaller_frame(data: Seq<u8>, packed: Seq<u8>) -> Seq<u8> {
    if packed.len() < data.len() {
        seq![HEADER_DEFLATE] + packed
    } else {
        raw_frame(data)
    }
}

/// The frame around data.
pub open spec fn framed_of(data: Seq<u8>, compress: bool) -> Seq<u8> {
    if compress {
        smaller_frame(data, deflated(data, COMPRESSION_LEVEL))
    } else {
        raw_frame(data)
    }
}

/// What a frame holds, where `inner` is what the bytes behind its header inflate to.
pub open spec fn unframed_with(framed: Seq<u8>, inner: Option<Seq<u8>>) -> Result<
    Seq<u8>,
    PackError,
> {
    if framed.len() == 0 {
        Err(PackError::MissingHeader)
    } else if framed[0] == HEADER_RAW {
        Ok(framed.skip(1))
    } else if framed[0] == HEADER_DEFLATE {
        match inner {
            Some(d) => Ok(d),
            None => Err(PackError::InflateFailed),
        }
    } else {
        Err(PackError::UnknownHeader(framed[0]))
    }
}

/// What a frame holds.
pub open spec fn unframed(framed: Seq<u8>) -> Result<Seq<u8>, PackError> {
    unframed_with(framed, inflated(framed.skip(1)))
}

/// A frame is a zero and the data, or where compressing was asked for and makes it strictly smaller, a
/// one and the compressed data.
pub proof fn law_frames(data: Seq<u8>)
    ensures
        framed_of(data, false) == seq![0u8] + data,
        framed_of(data, true) == (if deflated(data, 6).len() < data.len() {
            seq![1u8] + deflated(data, 6)
        } else {
            seq![0u8] + data
        }),
{
}

/// What a frame holds is what stands behind a zero, or what the bytes behind a one inflate to. Any other
/// first byte is refused with its value, and so is a frame without one.
pub proof fn law_unframing(rest: Seq<u8>, header: u8)
    ensures
        unframed(seq![0u8] + rest) == Ok::<Seq<u8>, PackError>(rest),
        match inflated(rest) {
            Some(d) => unframed(seq![1u8] + rest) == Ok::<Seq<u8>, PackError>(d),
            None => unframed(seq![1u8] + rest) == Err::<Seq<u8>, PackError>(
                PackError::InflateFailed,
            ),
        },
        header > 1 ==> unframed(seq![header] + rest) == Err::<Seq<u8>, PackError>(
            PackError::UnknownHeader(header),
        ),
        unframed(Seq::empty()) == Err::<Seq<u8>, PackError>(PackError::MissingHeader),
{
    assert((seq![0u8] + rest).skip(1) =~= rest);
    assert((seq![1u8] + rest).skip(1) =~= rest);
}

/// `miniz_oxide::deflate::compress_to_vec`: a function of the data and the level, and
/// `miniz_oxide::inflate::decompress_to_vec` gets the data back from it.
#[verifier::external_body]
fn compress_to_vec(data: &[u8], level: u8) -> (r: Vec<u8>)
    requires
        level <= 10,
    ensures
        r@ == deflated(data@, level),
        inflated(r@) == Some(data@),
{
    miniz_oxide::deflate::compress_to_vec(data, level)
}

/// The error of `miniz_oxide::inflate`; nothing in it is looked at.
#[verifier::external_type_specification]
#[verifier::external_body]
pub struct ExDecompressError(miniz_oxide::inflate::DecompressError);

/// `miniz_oxide::inflate::decompress_to_vec`: a function of the bytes.
#[verifier::external_body]
fn decompress_to_vec(packed: &[u8]) -> (r: Result<Vec<u8>, miniz_oxide::inflate::DecompressError>)
    ensures
        match r {
            Ok(d) => inflated(packed@) == Some(d@),
            Err(_) => inflated(packed@) is None,
        },
{
    miniz_oxide::inflate::decompress_to_vec(packed)
}

/// The frame around `data`, whose compressed form is `packed`.
pub fn frame_smaller(data: &[u8], packed: &[u8]) -> (r: Vec<u8>)
    ensures
        r@ == smaller_frame(data@, packed@),
        packed@.len() < data@.len() ==> r@ == seq![1u8] + packed@,
        packed@.len() >= data@.len() ==> r@ == seq![0u8] + data@,
{
    let mut out: Vec<u8> = Vec::new();
    if packed.len() < data.len() {
        out.push(HEADER_DEFLATE);
        out.extend_from_slice(packed);
    } else {
        out.push(HEADER_RAW);
        out.extend_from_slice(data);
    }
    proof {
        assert(out@ =~= smaller_frame(data@, packed@));
    }
    out
}

/// Frames `data`. With `compress` set it is compressed where that makes it strictly smaller, so a
/// frame is never more than one byte longer than its data. Reading the frame gives the data back.
pub fn frame(data: &[u8], compress: bool) -> (r: Vec<u8>)
    ensures
        r@ == framed_of(data@, compress),
        unframed(r@) == Ok::<Seq<u8>, PackError>(data@),
        0 < r@.len() <= data@.len() + 1,
        !compress || deflated(data@, 6).len() >= data@.len() ==> r@ == seq![0u8] + data@,
        compress && deflated(data@, 6).len() < data@.len() ==> r@ == seq![1u8] + deflated(data@, 6),
{
    if compress {
        let packed = compress_to_vec(data, COMPRESSION_LEVEL);
        let out = frame_smaller(data, packed.as_slice());
        proof {
            assert((seq![HEADER_DEFLATE] + packed@).skip(1) =~= packed@);
            assert(raw_frame(data@).skip(1) =~= data@);
        }
        out
    } else {
        let mut out: Vec<u8> = Vec::new();
        out.push(HEADER_RAW);
        out.extend_from_slice(data);
        proof {
            assert(out@ =~= raw_frame(data@));
            assert(raw_frame(data@).skip(1) =~= data@);
        }
        out
    }
}

/// What a frame holds, where `inner` is what the bytes behind its header inflate to, as far as the
/// header asks for that.
pub fn unframe_with(framed: &[u8], inner: Option<Vec<u8>>) -> (r: Result<Vec<u8>, PackError>)
    ensures
        error::outcome(r, unframed_with(framed@, bytes::opt_view(inner))),
        framed@.len() == 0 ==> r == Err::<Vec<u8>, PackError>(PackError::MissingHeader),
        framed@.len() > 0 && framed@[0] == 0 ==> r is Ok && r->Ok_0@ == framed@.skip(1),
        framed@.len() > 0 && framed@[0] == 1 ==> r == (match inner {
            Some(d) => Ok::<Vec<u8>, PackError>(d),
            None => Err::<Vec<u8>, PackError>(PackError::InflateFailed),
        }),
        framed@.len() > 0 && framed@[0] > 1 ==> r == Err::<Vec<u8>, PackError>(
            PackError::UnknownHeader(framed@[0]),
        ),
{
    if framed.len() == 0 {
        return Err(PackError::MissingHeader);
    }
    let header: u8 = framed[0];
    if header == HEADER_RAW {
        proof {
            assert(framed@.skip(1) =~= framed@.subrange(1, framed@.len() as int));
        }
        Ok(bytes::copy_range(framed, 1, framed.len()))
    } else if header == HEADER_DEFLATE {
        match inner {
            Some(d) => Ok(d),
            None => Err(PackError::InflateFailed),
        }
    } else {
        Err(PackError::UnknownHeader(header))
    }
}

/// What a frame holds.
pub fn unframe(framed: &[u8]) -> (r: Result<Vec<u8>, PackError>)
    ensures
        error::outcome(r, unframed(framed@)),
{
    if framed.len() > 0 && framed[0] == HEADER_DEFLATE {
        let rest = vstd::slice::slice_subrange(framed, 1, framed.len());
        proof {
            assert(rest@ =~= framed@.skip(1));
        }
        match decompress_to_vec(rest) {
            Ok(d) => unframe_with(framed, Some(d)),
            Err(_) => unframe_with(framed, None),
        }
    } else {
        unframe_with(framed, None)
    }
}

} // verus!
