use bip110_packer::bytes::{
    be_bytes, copy_of, copy_range, padded_word, split_chunks, split_words,
};
use bip110_packer::text::{push_decimal, push_hex_byte};

#[test]
fn chunks_are_full_but_for_the_last_and_join_again() {
    let data: Vec<u8> = (0..10u8).collect();
    assert_eq!(split_chunks(&data, 4), vec![vec![0, 1, 2, 3], vec![4, 5, 6, 7], vec![8, 9]]);
    assert_eq!(split_chunks(&data, 5), vec![vec![0, 1, 2, 3, 4], vec![5, 6, 7, 8, 9]]);
    assert_eq!(split_chunks(&data, 100), vec![data.clone()]);
    assert_eq!(split_chunks(&[], 3), Vec::<Vec<u8>>::new());
    assert_eq!(split_chunks(&data, 3).concat(), data);
}

#[test]
fn words_are_padded_with_zeros() {
    let words = split_words(&[7u8; 33]);
    assert_eq!(words.len(), 2);
    assert_eq!(words[0], [7u8; 32]);
    assert_eq!(words[1][0], 7);
    assert_eq!(words[1][1..], [0u8; 31]);
    assert_eq!(padded_word(&[1, 2])[..3], [1, 2, 0]);
    assert_eq!(padded_word(&[]), [0u8; 32]);
}

#[test]
fn numbers_are_big_endian() {
    assert_eq!(be_bytes(0x0102_0304), [1, 2, 3, 4]);
    assert_eq!(be_bytes(u32::MAX), [255; 4]);
    assert_eq!(copy_of(&[1, 2]), vec![1, 2]);
    assert_eq!(copy_range(&[1, 2, 3, 4], 1, 3), vec![2, 3]);
}

#[test]
fn numbers_are_written_without_leading_zeros() {
    let mut s = String::from("n=");
    push_decimal(&mut s, 0);
    push_decimal(&mut s, 1_048_576);
    assert_eq!(s, "n=01048576");
    let mut h = String::new();
    push_hex_byte(&mut h, 0x0a);
    push_hex_byte(&mut h, 0xf9);
    assert_eq!(h, "0af9");
}
