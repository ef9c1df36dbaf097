use lzw::bits::Bits;

#[test]
fn concat_test() {
    let input1 = Bits {
        bits: vec![0b10000000_00000000_00000000_00000000_00000000_00000000_00000000_00000000],
        size: 1,
    };
    let input2 = Bits { bits: vec![1], size: 1 };

    let target = Bits {
        bits: vec![0b11000000_00000000_00000000_00000000_00000000_00000000_00000000_00000000],
        size: 2,
    };

    assert_eq!(input1.concat(input2), target);

    let input1 = Bits {
        bits: vec![0b10000000_00000000_00000000_00000000_00000000_00000000_00000000_00000000],
        size: 1,
    };
    let input2 = Bits {
        bits: vec![
            0b00000000_00000000_00000000_00000000_00000000_00000000_00000000_00000001,
            0b00000000_00000000_00000000_00000000_00000000_00000000_00000000_00000001,
        ],
        size: 65,
    };

    let target = Bits {
        bits: vec![
            0b11000000_00000000_00000000_00000000_00000000_00000000_00000000_00000000,
            0b01000000_00000000_00000000_00000000_00000000_00000000_00000000_00000000,
        ],
        size: 66,
    };

    assert_eq!(input1.concat(input2), target);
}

#[test]
fn left_shift_test() {
    let input = Bits { bits: vec![1], size: 1 };
    let target = Bits {
        bits: vec![0b10000000_00000000_00000000_00000000_00000000_00000000_00000000_00000000],
        size: 1,
    };

    assert_eq!(input.shift_left(), target);
}

#[test]
fn new_pads_with_leading_zero_words() {
    let b = Bits::new(vec![5], 3);
    assert_eq!(b, Bits { bits: vec![5], size: 3 });
    let wide = Bits::new(vec![5], 65);
    assert_eq!(wide, Bits { bits: vec![0, 5], size: 65 });
    let empty = Bits::new(vec![], 70);
    assert_eq!(empty, Bits { bits: vec![0, 0], size: 70 });
    let none = Bits::new(vec![], 0);
    assert_eq!(none, Bits { bits: vec![], size: 0 });
}

#[test]
fn unused_counts_spare_bits() {
    assert_eq!(Bits { bits: vec![1], size: 1 }.unused(), 63);
    assert_eq!(Bits { bits: vec![1, 2], size: 128 }.unused(), 0);
    assert_eq!(Bits { bits: vec![], size: 0 }.unused(), 0);
}

#[test]
fn shift_left_of_full_word_is_identity() {
    let input = Bits { bits: vec![0xdead_beef_0000_0001], size: 64 };
    assert_eq!(input.shift_left(), Bits { bits: vec![0xdead_beef_0000_0001], size: 64 });
}

#[test]
fn shift_left_across_words() {
    let input = Bits { bits: vec![0b1, 0x8000_0000_0000_0001], size: 65 };
    let target = Bits { bits: vec![0xc000_0000_0000_0000, 0x8000_0000_0000_0000], size: 65 };
    assert_eq!(input.shift_left(), target);
}

#[test]
fn concat_onto_empty_stream() {
    let empty = Bits { bits: vec![], size: 0 };
    let value = Bits { bits: vec![0b101], size: 3 };
    assert_eq!(empty.concat(value), Bits { bits: vec![0xa000_0000_0000_0000], size: 3 });
}

#[test]
fn concat_fills_word_exactly() {
    let stream = Bits { bits: vec![0xffff_ffff_0000_0000], size: 32 };
    let value = Bits { bits: vec![0x1234_5678], size: 32 };
    assert_eq!(stream.concat(value), Bits { bits: vec![0xffff_ffff_1234_5678], size: 64 });
}

#[test]
fn concat_is_associative_on_bits() {
    let a = Bits { bits: vec![0xa000_0000_0000_0000], size: 3 };
    let b = Bits { bits: vec![0b11], size: 2 };
    let c = Bits { bits: vec![0b0110_1], size: 5 };
    let bc = Bits { bits: vec![0b11_0110_1], size: 7 };
    let left = a.copy().concat(b).concat(c);
    let right = a.concat(bc);
    assert_eq!(left, right);
    assert_eq!(left, Bits { bits: vec![0b1011_1011_01 << 54], size: 10 });
}

#[test]
fn push_from_left_grows_at_the_front() {
    let mut v = Bits::new(vec![], 0);
    v.push_from_left(1);
    assert_eq!(v, Bits { bits: vec![1], size: 1 });
    v.push_from_left(0);
    assert_eq!(v, Bits { bits: vec![1], size: 2 });
    v.push_from_left(1);
    assert_eq!(v, Bits { bits: vec![0b101], size: 3 });
    let mut full = Bits { bits: vec![7], size: 64 };
    full.push_from_left(1);
    assert_eq!(full, Bits { bits: vec![1, 7], size: 65 });
}

#[test]
fn value_bit_reads_from_the_most_significant_end() {
    let v = Bits { bits: vec![0b101], size: 3 };
    assert!(v.value_bit(0));
    assert!(!v.value_bit(1));
    assert!(v.value_bit(2));
}

#[test]
fn read_bits_within_and_across_words() {
    let words = vec![0xf000_0000_0000_0001u64, 0x8000_0000_0000_0000];
    assert_eq!(lzw::bits::read_bits(&words, 0, 4), 0xf);
    assert_eq!(lzw::bits::read_bits(&words, 2, 3), 0b110);
    assert_eq!(lzw::bits::read_bits(&words, 63, 2), 0b11);
    assert_eq!(lzw::bits::read_bits(&words, 0, 64), 0xf000_0000_0000_0001);
    assert_eq!(lzw::bits::read_bits(&words, 60, 64), 0x1800_0000_0000_0000);
}
