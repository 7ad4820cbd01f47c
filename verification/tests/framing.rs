use bip110_packer::error::PackError;
use bip110_packer::framing::{
    frame, frame_smaller, unframe, unframe_with, HEADER_DEFLATE, HEADER_RAW,
};

fn roundtrip(data: &[u8], compress: bool) {
    let framed = frame(data, compress);
    let back = unframe(&framed).expect("unframe");
    assert_eq!(back, data, "round-trip failed (compress={compress})");
}

#[test]
fn roundtrip_raw_and_compressed_empty_small_and_10k() {
    let empty: &[u8] = &[];
    let small: &[u8] = b"the quick brown fox";
    let big: Vec<u8> = (0..10_000u32).map(|i| (i % 251) as u8).collect();
    for compress in [false, true] {
        roundtrip(empty, compress);
        roundtrip(small, compress);
        roundtrip(&big, compress);
    }
}

#[test]
fn compressible_input_shrinks_and_uses_deflate_header() {
    let zeros = vec![0u8; 10_000];
    let framed = frame(&zeros, true);
    assert_eq!(framed[0], HEADER_DEFLATE, "compressible payload must deflate");
    assert!(framed.len() < zeros.len(), "compression must shrink zeros");
    assert_eq!(unframe(&framed).unwrap(), zeros);
}

#[test]
fn incompressible_input_falls_back_to_raw() {
    let data = b"abc";
    let framed = frame(data, true);
    assert_eq!(framed[0], HEADER_RAW, "tiny payload must fall back to raw");
    assert_eq!(unframe(&framed).unwrap(), data);
}

#[test]
fn raw_framing_prepends_zero_header() {
    let framed = frame(b"abc", false);
    assert_eq!(framed, vec![HEADER_RAW, b'a', b'b', b'c']);
}

#[test]
fn unframe_rejects_empty_and_unknown_header() {
    assert!(unframe(&[]).is_err());
    assert!(unframe(&[0xFF, 0x00]).is_err());
}

#[test]
fn unframe_errors_say_why() {
    assert_eq!(unframe(&[]), Err(PackError::MissingHeader));
    assert_eq!(unframe(&[0xff, 0x00]), Err(PackError::UnknownHeader(0xff)));
    assert_eq!(unframe(&[HEADER_DEFLATE, 0xff, 0xff]), Err(PackError::InflateFailed));
    assert_eq!(unframe(&[HEADER_DEFLATE]), Err(PackError::InflateFailed));
    assert_eq!(unframe(&[HEADER_RAW]), Ok(vec![]));
}

#[test]
fn compressed_frame_is_what_the_compressor_gives_at_level_six() {
    let data = vec![7u8; 500];
    let mut expected = vec![HEADER_DEFLATE];
    expected.extend_from_slice(&miniz_oxide::deflate::compress_to_vec(&data, 6));
    assert_eq!(frame(&data, true), expected);
}

#[test]
fn the_smaller_form_is_framed() {
    assert_eq!(frame_smaller(b"abc", b"xy"), vec![HEADER_DEFLATE, b'x', b'y']);
    assert_eq!(frame_smaller(b"abc", b"xyz"), vec![HEADER_RAW, b'a', b'b', b'c']);
    assert_eq!(unframe_with(&[HEADER_DEFLATE, 1], Some(vec![5])), Ok(vec![5]));
    assert_eq!(unframe_with(&[HEADER_DEFLATE, 1], None), Err(PackError::InflateFailed));
    assert_eq!(unframe_with(&[HEADER_RAW, 1], Some(vec![5])), Ok(vec![1]));
}
