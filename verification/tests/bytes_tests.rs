use lzw::bytes::{
    bytes_to_words, count_of_bytes, count_to_bytes, is_big_endian_image, table_from_bytes,
    table_to_bytes, word_of_bytes, words_to_bytes,
};

#[test]
fn u8_to_usize_test() {
    let inp: &[u8] = &[
        0b0000_0001, 0b0000_0000, 0b0000_0011, 0b0000_0000, 0b0000_0111, 0b0000_0000, 0b0000_1111,
        0b0000_0000,
    ];
    let output = bytes_to_words(inp.to_vec());
    let target =
        &[0b0000_0001_0000_0000_0000_0011_0000_0000_0000_0111_0000_0000_0000_1111_0000_0000u64];

    assert_eq!(*target, *output);
}

#[test]
fn usize_to_u8_test() {
    let inp = [0b0000_0001_0000_0000_0000_0011_0000_0000_0000_0011_0000_0000_0000_1001_0000_0000u64];
    let output = words_to_bytes(&inp);
    let target: &[u8] = &[
        0b0000_0001, 0b0000_0000, 0b0000_0011, 0b0000_0000, 0b0000_0011, 0b0000_0000, 0b0000_1001,
        0b0000_0000,
    ];

    assert_eq!(target, &output);
}

#[test]
fn words_to_bytes_is_big_endian() {
    assert_eq!(
        words_to_bytes(&[0x0102_0304_0506_0708, 0xff00_0000_0000_0000]),
        vec![1, 2, 3, 4, 5, 6, 7, 8, 0xff, 0, 0, 0, 0, 0, 0, 0]
    );
    assert_eq!(words_to_bytes(&[]), Vec::<u8>::new());
}

#[test]
fn bytes_to_words_pads_the_last_word() {
    assert_eq!(bytes_to_words(vec![1, 2, 3]), vec![0x0102_0300_0000_0000]);
    assert_eq!(
        bytes_to_words(vec![1, 2, 3, 4, 5, 6, 7, 8, 9]),
        vec![0x0102_0304_0506_0708, 0x0900_0000_0000_0000]
    );
    assert_eq!(bytes_to_words(vec![]), Vec::<u64>::new());
}

#[test]
fn words_survive_the_trip_through_bytes() {
    let words = vec![0u64, 1, u64::MAX, 0x8000_0000_0000_0000, 0x0123_4567_89ab_cdef];
    assert_eq!(bytes_to_words(words_to_bytes(&words)), words);
}

#[test]
fn bytes_survive_the_trip_through_words_with_padding() {
    let bytes = vec![9u8, 8, 7, 6, 5, 4, 3, 2, 1, 0, 255];
    let back = words_to_bytes(&bytes_to_words(bytes.clone()));
    assert_eq!(back, vec![9u8, 8, 7, 6, 5, 4, 3, 2, 1, 0, 255, 0, 0, 0, 0, 0]);
}

#[test]
fn word_of_bytes_reads_most_significant_first() {
    assert_eq!(word_of_bytes(&[0x12, 0x34, 0x56, 0x78, 0x9a, 0xbc, 0xde, 0xf0]), 0x1234_5678_9abc_def0);
    assert_eq!(word_of_bytes(&[0, 0, 0, 0, 0, 0, 0, 1]), 1);
}

#[test]
fn big_endian_image_is_recognised() {
    assert!(is_big_endian_image(0x0102_0304_0506_0708, &[1, 2, 3, 4, 5, 6, 7, 8]));
    assert!(!is_big_endian_image(0x0102_0304_0506_0708, &[8, 7, 6, 5, 4, 3, 2, 1]));
}

#[test]
fn counts_are_written_low_byte_first() {
    assert_eq!(count_to_bytes(0x0102), [2, 1]);
    assert_eq!(count_of_bytes(2, 1), 0x0102);
    assert_eq!(table_to_bytes(&vec![3, 0x0102, 0xffff]), vec![3, 0, 2, 1, 255, 255]);
    assert_eq!(table_from_bytes(&[3, 0, 2, 1, 255, 255, 9], 3), vec![3, 0x0102, 0xffff]);
}
