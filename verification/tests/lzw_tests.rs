use lzw::bits::Bits;
use lzw::counter::advance;
use lzw::lzw::{alphabet, width_for, LzwDecoder, LzwEncoder, LzwError};
use lzw::numeral::bit_length_of;

fn chars(s: &str) -> Vec<char> {
    s.chars().collect()
}

#[test]
fn counter_ripples_and_grows() {
    let mut c = vec![0u64];
    assert_eq!(advance(&mut c), vec![0]);
    assert_eq!(c, vec![1]);
    let mut c = vec![u64::MAX];
    assert_eq!(advance(&mut c), vec![u64::MAX]);
    assert_eq!(c, vec![1, 0]);
    let mut c = vec![7, u64::MAX, u64::MAX];
    advance(&mut c);
    assert_eq!(c, vec![8, 0, 0]);
    let mut c = vec![u64::MAX, u64::MAX];
    advance(&mut c);
    assert_eq!(c, vec![1, 0, 0]);
    let mut c = vec![1, 5];
    advance(&mut c);
    assert_eq!(c, vec![1, 6]);
}

#[test]
fn bit_length_counts_binary_digits() {
    assert_eq!(bit_length_of(0), 0);
    assert_eq!(bit_length_of(1), 1);
    assert_eq!(bit_length_of(2), 2);
    assert_eq!(bit_length_of(3), 2);
    assert_eq!(bit_length_of(4), 3);
    assert_eq!(bit_length_of(29), 5);
    assert_eq!(bit_length_of(32), 6);
    assert_eq!(width_for(0), 1);
    assert_eq!(width_for(31), 5);
}

#[test]
fn default_alphabet_has_thirty_symbols() {
    let a = alphabet();
    assert_eq!(a.len(), 30);
    assert_eq!(a[0], ' ');
    assert_eq!(a[1], 'a');
    assert_eq!(a[26], 'z');
    assert_eq!(a[29], 'å');
}

#[test]
fn encoder_is_seeded_in_alphabet_order() {
    let e = LzwEncoder::new();
    assert_eq!(e.len(), 30);
    assert_eq!(e.word_size(), 5);
    assert_eq!(e.find(&chars(" ")), Some(0));
    assert_eq!(e.find(&chars("a")), Some(1));
    assert_eq!(e.find(&chars("å")), Some(29));
    assert_eq!(e.find(&chars("ab")), None);
    let small = LzwEncoder::with_alphabet(&chars(" ab"));
    assert_eq!(small.len(), 3);
    assert_eq!(small.word_size(), 2);
    let doubled = LzwEncoder::with_alphabet(&chars("abab"));
    assert_eq!(doubled.len(), 2);
    let none = LzwEncoder::with_alphabet(&chars(""));
    assert_eq!(none.len(), 0);
    assert_eq!(none.word_size(), 0);
}

#[test]
fn encoder_width_follows_dictionary_size() {
    let mut e = LzwEncoder::with_alphabet(&chars("a"));
    assert_eq!((e.len(), e.word_size()), (1, 1));
    assert!(e.insert(chars("b")));
    assert_eq!((e.len(), e.word_size()), (2, 1));
    assert!(e.insert(chars("c")));
    assert_eq!((e.len(), e.word_size()), (3, 2));
    assert!(e.insert(chars("d")));
    assert_eq!((e.len(), e.word_size()), (4, 2));
    assert!(e.insert(chars("e")));
    assert_eq!((e.len(), e.word_size()), (5, 3));
    assert!(!e.insert(chars("e")));
    assert_eq!((e.len(), e.word_size()), (5, 3));
    assert_eq!(e.next_word(), vec![5]);
    assert_eq!(e.next_word(), vec![6]);
}

#[test]
fn decoder_width_is_one_entry_ahead() {
    let mut d = LzwDecoder::with_alphabet(&chars(" ab"));
    assert_eq!((d.len(), d.word_size()), (3, 2));
    assert!(d.insert(chars("ab")));
    assert_eq!((d.len(), d.word_size()), (4, 3));
    assert!(d.insert(chars("ba")));
    assert_eq!((d.len(), d.word_size()), (5, 3));
    d.insert(chars("x"));
    d.insert(chars("y"));
    assert_eq!((d.len(), d.word_size()), (7, 3));
    d.insert(chars("z"));
    assert_eq!((d.len(), d.word_size()), (8, 4));
    assert_eq!(d.next_word(), vec![8]);
    let fresh = LzwDecoder::new();
    assert_eq!((fresh.len(), fresh.word_size()), (30, 5));
}

#[test]
fn encode_abab_over_three_symbols() {
    let e = LzwEncoder::with_alphabet(&chars(" ab"));
    let out = e.encode(chars("abab")).unwrap();
    // codes: a = 1 and b = 2 at two bits, then "ab" = 3 at three bits
    assert_eq!(out, Bits { bits: vec![0b01_10_011 << 57], size: 7 });
}

#[test]
fn decode_abab_over_three_symbols() {
    let d = LzwDecoder::with_alphabet(&chars(" ab"));
    let text = d.decode(vec![0b01_10_011 << 57]).unwrap();
    assert!(text.starts_with("abab"));
    // the zero bits that pad the word are codes of the first symbol
    assert!(text[4..].chars().all(|c| c == ' '));
}

#[test]
fn decode_synthesises_the_phrase_one_step_ahead() {
    let e = LzwEncoder::with_alphabet(&chars(" ab"));
    let out = e.encode(chars("aaa")).unwrap();
    assert_eq!(out, Bits { bits: vec![0b01_11 << 60], size: 4 });
    let d = LzwDecoder::with_alphabet(&chars(" ab"));
    let text = d.decode(out.bits).unwrap();
    assert!(text.starts_with("aaa"));
}

#[test]
fn encode_empty_input_is_empty_stream() {
    let out = LzwEncoder::new().encode(vec![]).unwrap();
    assert_eq!(out, Bits { bits: vec![], size: 0 });
    assert_eq!(LzwDecoder::new().decode(vec![]).unwrap(), "");
}

#[test]
fn encode_single_symbol() {
    let out = LzwEncoder::new().encode(chars("b")).unwrap();
    assert_eq!(out, Bits { bits: vec![0b00010 << 59], size: 5 });
}

#[test]
fn encode_rejects_symbol_outside_alphabet() {
    assert_eq!(LzwEncoder::new().encode(chars("A")), Err(LzwError::AlphabetCoverage));
    assert_eq!(LzwEncoder::new().encode(chars("abc?")), Err(LzwError::AlphabetCoverage));
    assert_eq!(LzwEncoder::new().encode(chars("ab?c")), Err(LzwError::AlphabetCoverage));
    assert_eq!(
        LzwEncoder::with_alphabet(&chars("")).encode(chars("a")),
        Err(LzwError::AlphabetCoverage)
    );
}

#[test]
fn decode_rejects_code_beyond_dictionary() {
    // 11111 = 31 is no code of a dictionary of thirty phrases
    assert_eq!(LzwDecoder::new().decode(vec![0b11111 << 59]), Err(LzwError::CorruptStream));
    // 11110 = 30 is the next code, but nothing was decoded before it
    assert_eq!(LzwDecoder::new().decode(vec![0b11110 << 59]), Err(LzwError::CorruptStream));
    // a = 1, then 31 where only 30 could follow
    assert_eq!(
        LzwDecoder::new().decode(vec![0b00001_11111 << 54]),
        Err(LzwError::CorruptStream)
    );
    assert_eq!(
        LzwDecoder::with_alphabet(&chars("")).decode(vec![0]),
        Err(LzwError::CorruptStream)
    );
}

#[test]
fn decode_restores_the_encoded_text_before_the_padding() {
    for text in ["abab", "hello world", "to be or not to be that is the question", "aaaaaaaaaaaaaaaa", "æøå blåbærsyltetøy"] {
        let out = LzwEncoder::new().encode(chars(text)).unwrap();
        let back = LzwDecoder::new().decode(out.bits).unwrap();
        assert!(back.starts_with(text));
        assert!(back[text.len()..].chars().all(|c| c == ' '));
    }
}

#[test]
fn decode_reads_codes_across_word_boundaries() {
    let text = "the quick brown fox jumps over the lazy dog and keeps running through the forest";
    let out = LzwEncoder::new().encode(chars(text)).unwrap();
    assert!(out.size > 128);
    assert_eq!(out.bits.len(), (out.size + 63) / 64);
    let back = LzwDecoder::new().decode(out.bits).unwrap();
    assert!(back.starts_with(text));
}

#[test]
fn round_trip_is_exact_when_the_stream_fills_its_words() {
    // no pair of neighbours repeats, so every symbol is a code of its own:
    // 3 codes of 5 bits, 32 of 6 and 7 of 7 make 256 bits
    let text = "abcdefghijklmnopqrstuvwxyz acegikmoqsuwy b";
    let out = LzwEncoder::new().encode(chars(text)).unwrap();
    assert_eq!(out.size, 256);
    assert_eq!(out.bits.len(), 4);
    assert_eq!(LzwDecoder::new().decode(out.bits).unwrap(), text);
}

#[test]
fn alphabet_of_two_symbols_widens_the_second_code_too_early() {
    let e = LzwEncoder::with_alphabet(&chars("ab"));
    let out = e.encode(chars("ab")).unwrap();
    // a = 0 at one bit, then b = 1 at two bits
    assert_eq!(out, Bits { bits: vec![0b0_01 << 61], size: 3 });
    let d = LzwDecoder::with_alphabet(&chars("ab"));
    // the decoder still reads one bit for the second code
    let text = d.decode(out.bits).unwrap();
    assert!(text.starts_with("aa"));
    assert_ne!(&text[..2], "ab");
}

#[test]
fn round_trip_is_exact_when_less_than_a_code_is_left() {
    // a text in which no pair of neighbours repeats: every symbol is a code
    let symbols = alphabet();
    let mut used = std::collections::HashSet::new();
    let mut text: Vec<char> = vec!['a'];
    while text.len() < 78 {
        let last = *text.last().unwrap();
        let next = *symbols.iter().find(|s| !used.contains(&(last, **s))).unwrap();
        used.insert((last, next));
        text.push(next);
    }
    let out = LzwEncoder::new().encode(text.clone()).unwrap();
    // 3 codes of 5 bits, 32 of 6 and 43 of 7: four bits short of eight words
    assert_eq!(out.size, 508);
    assert_eq!(out.bits.len(), 8);
    let back = LzwDecoder::new().decode(out.bits).unwrap();
    assert_eq!(back, text.iter().collect::<String>());
}
