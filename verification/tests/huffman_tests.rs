use lzw::bits::Bits;
use lzw::huffman::{
    code_lengths, construct_tree, count_bytes, lightest, make_leaves, sum_counts, HuffmanDecoder,
    HuffmanEncoder, HuffmanError,
};

fn table(pairs: &[(u8, u16)]) -> Vec<u16> {
    let mut t = vec![0u16; 256];
    for (b, n) in pairs {
        t[*b as usize] = *n;
    }
    t
}

#[test]
fn histogram_counts_every_byte_value() {
    let h = count_bytes(&[0, 0, 0, 1, 255]);
    assert_eq!(h.len(), 256);
    assert_eq!(h[0], 3);
    assert_eq!(h[1], 1);
    assert_eq!(h[2], 0);
    assert_eq!(h[255], 1);
    assert_eq!(sum_counts(&h), 5);
}

#[test]
fn leaves_start_lightest_first_and_stable() {
    let leaves = make_leaves(&table(&[(10, 5), (20, 1), (30, 5), (40, 1), (50, 9)]));
    let order: Vec<(u8, u32)> = leaves.iter().map(|l| (l.byte_value, l.subtree_weight)).collect();
    assert_eq!(order, vec![(20, 1), (40, 1), (10, 5), (30, 5), (50, 9)]);
    assert!(leaves.iter().all(|l| l.subtree_id == l.byte_value && l.codeword.size == 0));
}

#[test]
fn scan_finds_the_two_lightest_subtrees() {
    let leaves = make_leaves(&table(&[(1, 4), (2, 3), (3, 7)]));
    assert_eq!(lightest(&leaves), ((2, 3), Some((1, 4))));
    let one = make_leaves(&table(&[(9, 2)]));
    assert_eq!(lightest(&one), ((9, 2), None));
}

#[test]
fn skewed_counts_give_the_frequent_byte_the_shorter_code() {
    let counts = count_bytes(&[0, 0, 0, 0, 1, 2]);
    let tree = construct_tree(&counts).unwrap();
    let code = |b: u8| tree.iter().find(|l| l.byte_value == b).unwrap().codeword.size;
    assert_eq!(code(0), 1);
    assert_eq!(code(1), 2);
    assert_eq!(code(2), 2);
    assert_eq!(code_lengths(&tree), (1, 2));
    assert!(tree.iter().all(|l| l.subtree_weight == 6));
}

#[test]
fn two_values_get_one_bit_each() {
    let counts = count_bytes(&[0, 0, 0, 1]);
    let tree = construct_tree(&counts).unwrap();
    assert_eq!(tree.len(), 2);
    // the lighter subtree takes bit 0
    assert_eq!(tree[0].byte_value, 1);
    assert_eq!(tree[0].codeword, Bits { bits: vec![0], size: 1 });
    assert_eq!(tree[1].byte_value, 0);
    assert_eq!(tree[1].codeword, Bits { bits: vec![1], size: 1 });
    assert!(tree[1].codeword.size <= tree[0].codeword.size);
}

#[test]
fn construction_is_deterministic() {
    let counts = count_bytes(b"abracadabra alakazam");
    let one = construct_tree(&counts).unwrap();
    let two = construct_tree(&counts).unwrap();
    assert_eq!(one.len(), two.len());
    for (x, y) in one.iter().zip(two.iter()) {
        assert_eq!(x.byte_value, y.byte_value);
        assert_eq!(x.codeword, y.codeword);
        assert_eq!(x.subtree_id, y.subtree_id);
        assert_eq!(x.subtree_weight, y.subtree_weight);
    }
}

#[test]
fn degenerate_inputs_are_rejected() {
    assert!(matches!(construct_tree(&table(&[])), Err(HuffmanError::DegenerateTree)));
    assert!(matches!(construct_tree(&table(&[(7, 3)])), Err(HuffmanError::DegenerateTree)));
    assert_eq!(HuffmanEncoder::new().encode(&[]), Err(HuffmanError::DegenerateTree));
    assert_eq!(HuffmanEncoder::new().encode(&[5, 5, 5]), Err(HuffmanError::DegenerateTree));
    let mut container = vec![0u8; 512];
    container[10] = 3;
    container.extend([0xffu8; 8]);
    assert_eq!(HuffmanDecoder::new().decode(&container), Err(HuffmanError::DegenerateTree));
}

#[test]
fn encode_0001_writes_table_then_codes() {
    let out = HuffmanEncoder::new().encode(&[0, 0, 0, 1]).unwrap();
    assert_eq!(out.len(), 512 + 8);
    let mut expected = vec![0u8; 520];
    expected[0] = 3;
    expected[2] = 1;
    expected[512] = 0b1110_0000;
    assert_eq!(out, expected);
}

#[test]
fn decode_0001_gives_back_the_four_bytes() {
    let out = HuffmanEncoder::new().encode(&[0, 0, 0, 1]).unwrap();
    let back = HuffmanDecoder::new().decode(&out).unwrap();
    // the table counts four bytes, so the zero bits behind the codes are not read
    assert_eq!(back, vec![0, 0, 0, 1]);
}

#[test]
fn table_counts_above_one_byte_are_low_byte_first() {
    let mut input = vec![7u8; 258];
    input.extend([9u8; 3]);
    let out = HuffmanEncoder::new().encode(&input).unwrap();
    assert_eq!(&out[14..16], &[2, 1]);
    assert_eq!(&out[18..20], &[3, 0]);
    // 261 one-bit codes take five words
    assert_eq!(out.len(), 512 + 40);
    let back = HuffmanDecoder::new().decode(&out).unwrap();
    assert_eq!(back, input);
}

#[test]
fn decode_gives_back_the_encoded_bytes() {
    let texts: [&[u8]; 5] = [
        b"it was the best of times, it was the worst of times",
        b"ab",
        b"abracadabra alakazam",
        b"aaaaaaaaaaaaaaaaaaaaaaaaaaaaaaaaaaaaaaaaaaaaaaaaaaaaaaaaaaaaaaaab",
        b"\x00\xff\x00\xff\x80",
    ];
    for text in texts {
        let out = HuffmanEncoder::new().encode(text).unwrap();
        assert_eq!((out.len() - 512) % 8, 0);
        let back = HuffmanDecoder::new().decode(&out).unwrap();
        assert_eq!(back, text.to_vec());
    }
}

#[test]
fn decode_of_all_byte_values() {
    let input: Vec<u8> = (0..=255u8).collect();
    let out = HuffmanEncoder::new().encode(&input).unwrap();
    // 256 codes of eight bits fill the payload to its last bit
    assert_eq!(out.len(), 512 + 256);
    let back = HuffmanDecoder::new().decode(&out).unwrap();
    assert_eq!(back, input);
}

#[test]
fn decode_of_table_without_payload_is_empty() {
    let mut container = vec![0u8; 512];
    container[0] = 1;
    container[2] = 1;
    assert_eq!(HuffmanDecoder::new().decode(&container), Ok(vec![]));
}

#[test]
fn decode_reads_no_more_codes_than_the_table_counts() {
    // byte 0 has code 0 and byte 1 has code 1; the table counts two bytes
    let mut container = vec![0u8; 512];
    container[0] = 1;
    container[2] = 1;
    container.push(0b0101_0101);
    assert_eq!(HuffmanDecoder::new().decode(&container), Ok(vec![0, 1]));
}

#[test]
fn decode_ends_with_the_payload_when_the_table_counts_more() {
    let mut container = vec![0u8; 512];
    container[0] = 100;
    container[2] = 100;
    container.push(0b0101_0101);
    assert_eq!(HuffmanDecoder::new().decode(&container), Ok(vec![0, 1, 0, 1, 0, 1, 0, 1]));
}

#[test]
fn round_trip_of_codes_that_stop_short_of_the_last_byte() {
    // 56 one-bit codes fill all but the last byte of one word
    let mut input = vec![4u8; 30];
    input.extend([200u8; 26]);
    let out = HuffmanEncoder::new().encode(&input).unwrap();
    assert_eq!(out.len(), 512 + 8);
    assert_eq!(HuffmanDecoder::new().decode(&out).unwrap(), input);
}

#[test]
fn round_trip_with_codes_of_several_lengths() {
    // codes of 1, 2, 3 and 3 bits: 20 + 20 + 12 + 12 bits fill one word
    let mut input = vec![b'a'; 20];
    input.extend([b'b'; 10]);
    input.extend([b'c'; 4]);
    input.extend([b'd'; 4]);
    let counts = count_bytes(&input);
    let tree = construct_tree(&counts).unwrap();
    let bits: usize = input
        .iter()
        .map(|b| tree.iter().find(|l| l.byte_value == *b).unwrap().codeword.size)
        .sum();
    assert_eq!(bits, 64);
    let out = HuffmanEncoder::new().encode(&input).unwrap();
    assert_eq!(out.len(), 512 + 8);
    assert_eq!(HuffmanDecoder::new().decode(&out).unwrap(), input);
}

#[test]
fn round_trip_of_a_long_mixed_buffer() {
    let input: Vec<u8> = (0..5000u32).map(|i| ((i * i + 7 * i) % 251) as u8).collect();
    let out = HuffmanEncoder::new().encode(&input).unwrap();
    assert_eq!(HuffmanDecoder::new().decode(&out).unwrap(), input);
}
