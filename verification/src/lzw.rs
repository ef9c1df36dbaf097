//! The LZW coder: an encoder and a decoder that grow the same dictionary of
//! phrases, one entry per emitted code, and agree on the width of every code
//! without storing it in the stream.
use crate::bits::Bits;
use crate::counter::{advance, counter_words, lemma_counter_step, ripple};
use crate::bits::{bits_from, read_bits, zero_words};
use crate::counter::lemma_counter_single;
use crate::numeral::{
    bit_length, bit_length_of, bits_value, lemma_bit_length_below, lemma_bit_length_bounds,
    lemma_low_bits_numeral, lemma_word_value, numeral,
};
use vstd::arithmetic::power2::pow2;
use vstd::prelude::*;

verus! {

/// Why an LZW operation stopped without a result.
#[derive(Debug, Clone, Copy, PartialEq, Eq)]
pub enum LzwError {
    /// The input holds a symbol that is not in the seed alphabet.
    AlphabetCoverage,
    /// The stream names a code that the dictionary cannot hold at that point.
    CorruptStream,
}

/// The symbols that a codec made by `new` is seeded with, in seeding order.
pub open spec fn default_alphabet() -> Seq<char> {
    seq![
        ' ', 'a', 'b', 'c', 'd', 'e', 'f', 'g', 'h', 'i', 'j', 'k', 'l', 'm', 'n', 'o', 'p', 'q',
        'r', 's', 't', 'u', 'v', 'w', 'x', 'y', 'z', 'æ', 'ø', 'å',
    ]
}

/// The symbols that a codec made by `new` is seeded with, in seeding order.
pub fn alphabet() -> (r: Vec<char>)
    ensures
        r@ == default_alphabet(),
{
    let r: Vec<char> = vec![
        ' ', 'a', 'b', 'c', 'd', 'e', 'f', 'g', 'h', 'i', 'j', 'k', 'l', 'm', 'n', 'o', 'p', 'q',
        'r', 's', 't', 'u', 'v', 'w', 'x', 'y', 'z', 'æ', 'ø', 'å',
    ];
    assert(r@ =~= default_alphabet());
    r
}

/// The dictionary after seeding with `alphabet`: one single-symbol phrase per
/// distinct symbol, in order of first occurrence.
pub open spec fn seed_phrases(alphabet: Seq<char>) -> Seq<Seq<char>>
    decreases alphabet.len(),
{
    if alphabet.len() == 0 {
        Seq::empty()
    } else {
        let rest = seed_phrases(alphabet.drop_last());
        let p = seq![alphabet.last()];
        if rest.contains(p) {
            rest
        } else {
            rest.push(p)
        }
    }
}

/// The code width of an encoder whose dictionary holds `n` phrases: the bit
/// length of the largest code in use, and at least one bit once a phrase is held.
pub open spec fn enc_width(n: nat) -> nat {
    if n == 0 {
        0
    } else if n == 1 {
        1
    } else {
        bit_length((n - 1) as nat)
    }
}

/// The bits of the code of `phrase` in the dictionary `dict`: its position as
/// a binary numeral of the encoder's width at that dictionary size.
pub open spec fn code_bits(dict: Seq<Seq<char>>, phrase: Seq<char>) -> Seq<bool> {
    numeral(dict.index_of(phrase) as nat, enc_width(dict.len()))
}

/// The bits that encoding emits from symbol `i` of `input` on, when the
/// dictionary is `dict` and `phrase` is the phrase matched so far. Each symbol
/// extends the phrase; when the extended phrase is new it enters the
/// dictionary, the code of the phrase before it is emitted at the width in
/// force before that insertion, and matching restarts at the symbol. At the
/// end of the input the code of the pending phrase is emitted.
pub open spec fn lzw_bits(
    dict: Seq<Seq<char>>,
    phrase: Seq<char>,
    input: Seq<char>,
    i: int,
) -> Seq<bool>
    decreases input.len() - i,
{
    if i < 0 || i >= input.len() {
        if phrase.len() == 0 {
            Seq::empty()
        } else {
            code_bits(dict, phrase)
        }
    } else {
        let grown = phrase.push(input[i]);
        if dict.contains(grown) {
            lzw_bits(dict, grown, input, i + 1)
        } else {
            code_bits(dict, phrase) + lzw_bits(dict.push(grown), seq![input[i]], input, i + 1)
        }
    }
}

/// Every symbol of `input` is a single-symbol phrase of `dict`.
pub open spec fn covered(dict: Seq<Seq<char>>, input: Seq<char>) -> bool {
    forall|j: int| 0 <= j < input.len() ==> dict.contains(seq![#[trigger] input[j]])
}

/// Every phrase of `dict` is a single symbol, as it is right after seeding.
pub open spec fn seeded(dict: Seq<Seq<char>>) -> bool {
    forall|k: int| 0 <= k < dict.len() ==> (#[trigger] dict[k]).len() == 1
}

/// An encoder that holds a phrase uses between one and 64 bits per code.
pub proof fn lemma_enc_width_bounds(n: nat)
    requires
        1 <= n <= usize::MAX,
    ensures
        1 <= enc_width(n) <= 64,
{
    if n >= 2 {
        vstd::arithmetic::power2::lemma2_to64();
        vstd::arithmetic::power2::lemma2_to64_rest();
        lemma_bit_length_below((n - 1) as nat, 64);
    }
}

/// The code width of a decoder after an insertion that brought its dictionary
/// to `n` phrases: the bit length of the next code to be given.
pub open spec fn dec_width(n: nat) -> nat {
    if n == 0 {
        1
    } else {
        bit_length(n)
    }
}

/// A decoder uses between one and 64 bits per code after an insertion.
pub proof fn lemma_dec_width_bounds(n: nat)
    requires
        n <= usize::MAX,
    ensures
        1 <= dec_width(n) <= 64,
{
    if n >= 1 {
        vstd::arithmetic::power2::lemma2_to64();
        vstd::arithmetic::power2::lemma2_to64_rest();
        lemma_bit_length_below(n, 64);
    }
}

/// The encoder's width law: with `n` phrases in the dictionary, two or more,
/// the width is the least number of bits that can tell `n` codes apart, the
/// base-two logarithm of `n` rounded up. This is the width of the code that
/// is emitted when the next phrase is inserted.
pub proof fn lemma_encoder_width_law(n: nat)
    requires
        n >= 2,
    ensures
        enc_width(n) >= 1,
        pow2((enc_width(n) - 1) as nat) < n <= pow2(enc_width(n)),
{
    lemma_bit_length_bounds((n - 1) as nat);
}

/// The decoder's width law: after the insertion that brings its dictionary
/// to `n` phrases, the width is the bit length of `n`, which is the width of
/// an encoder that holds one phrase more.
pub proof fn lemma_decoder_width_law(n: nat)
    requires
        n >= 1,
    ensures
        dec_width(n) >= 1,
        pow2((dec_width(n) - 1) as nat) <= n < pow2(dec_width(n)),
        dec_width(n) == enc_width(n + 1),
{
    lemma_bit_length_bounds(n);
}

/// The stream as the decoder reads it: followed by the fewest zero words that
/// make its length a multiple of eight.
pub open spec fn pad_stream(words: Seq<u64>) -> Seq<u64> {
    words + zero_words(((8 - words.len() % 8) % 8) as nat)
}

/// `head` followed by the rest of a decoding, if that rest exists.
pub open spec fn prepend(head: Seq<char>, rest: Option<Seq<char>>) -> Option<Seq<char>> {
    match rest {
        Some(t) => Some(head + t),
        None => None,
    }
}

/// The text that decoding yields from bit position `p` of `words` on, or
/// `None` for a corrupt stream. `dict` is the dictionary, `prev` the phrase
/// decoded last (empty before the first code) and `width` the code width.
/// Decoding stops at the bit position `limit` and where fewer than `width`
/// bits are left in `words`. A code below the dictionary size names its
/// phrase; the code equal to the dictionary size names the last phrase
/// followed by its own first symbol; any other code is corrupt. After every
/// code but the first, the last phrase extended by the first symbol of the new
/// one enters the dictionary and the width is set for the new size.
pub open spec fn lzw_text(
    dict: Seq<Seq<char>>,
    prev: Seq<char>,
    width: nat,
    words: Seq<u64>,
    limit: int,
    p: int,
) -> Option<Seq<char>>
    decreases (if p < limit { limit - p } else { 0 }),
{
    if p < 0 || p >= limit || p + width > words.len() * 64 {
        Some(Seq::empty())
    } else if width == 0 {
        None
    } else {
        let code = bits_value(bits_from(words, p, width));
        let next = p + width;
        if code < dict.len() && prev.len() == 0 {
            let s = dict[code as int];
            prepend(s, lzw_text(dict, s, width, words, limit, next))
        } else if code <= dict.len() && prev.len() > 0 {
            let s = if code < dict.len() {
                dict[code as int]
            } else {
                prev.push(prev[0])
            };
            let grown = dict.push(prev + s.take(1));
            prepend(s, lzw_text(grown, s, dec_width(grown.len()), words, limit, next))
        } else {
            None
        }
    }
}

/// The string that holds the symbols of `chars`, collected by `String::from_iter`.
#[verifier::external_body]
fn string_of_chars(chars: &Vec<char>) -> (s: String)
    ensures
        s@ == chars@,
{
    String::from_iter(chars.iter())
}

/// The width that `m` calls for: its bit length, and at least one bit.
pub fn width_for(m: usize) -> (r: usize)
    ensures
        r == if m == 0 { 1 } else { bit_length(m as nat) },
        1 <= r <= 64,
{
    if m == 0 {
        1
    } else {
        let r = bit_length_of(m);
        assert(bit_length(m as nat) >= 1);
        r
    }
}

/// Whether two symbol sequences are equal.
pub fn same_chars(a: &Vec<char>, b: &Vec<char>) -> (r: bool)
    ensures
        r == (a@ == b@),
{
    if a.len() != b.len() {
        return false;
    }
    let mut i: usize = 0;
    while i < a.len()
        invariant
            i <= a@.len(),
            a@.len() == b@.len(),
            forall|j: int| 0 <= j < i ==> a@[j] == b@[j],
        decreases a@.len() - i,
    {
        if a[i] != b[i] {
            return false;
        }
        i += 1;
    }
    assert(a@ =~= b@);
    true
}

/// One dictionary entry: a phrase and the code it was given.
pub struct Entry {
    pub phrase: Vec<char>,
    pub code: Vec<u64>,
}

/// The LZW encoder: its dictionary, its current code width and its code counter.
pub struct LzwEncoder {
    dict: Vec<Entry>,
    word_size: usize,
    next_word: Vec<u64>,
}

impl LzwEncoder {
    /// The phrases of the dictionary, in the order in which they were inserted.
    pub closed spec fn phrases(&self) -> Seq<Seq<char>> {
        Seq::new(self.dict@.len(), |i: int| self.dict@[i].phrase@)
    }

    /// The codes of the dictionary, in the order in which they were given.
    pub closed spec fn codes(&self) -> Seq<Seq<u64>> {
        Seq::new(self.dict@.len(), |i: int| self.dict@[i].code@)
    }

    /// The digits of the next code to give.
    pub closed spec fn counter(&self) -> Seq<u64> {
        self.next_word@
    }

    /// The current code width in bits.
    pub closed spec fn width(&self) -> nat {
        self.word_size as nat
    }

    /// The encoder is consistent: no phrase occurs twice, phrase number `i`
    /// has the code `i`, the counter holds the number of phrases, and the
    /// width is the one that this number calls for.
    pub open spec fn wf(&self) -> bool {
        &&& self.phrases().no_duplicates()
        &&& self.codes().len() == self.phrases().len()
        &&& forall|i: int| 0 <= i < self.codes().len() ==> #[trigger] self.codes()[i] == counter_words(i as nat)
        &&& self.counter() == counter_words(self.phrases().len())
        &&& self.width() == enc_width(self.phrases().len())
    }

    /// The current code width in bits.
    pub fn word_size(&self) -> (r: usize)
        ensures
            r == self.width(),
    {
        self.word_size
    }

    /// The number of phrases in the dictionary.
    pub fn len(&self) -> (r: usize)
        ensures
            r == self.phrases().len(),
    {
        self.dict.len()
    }

    /// Takes the next code from the counter and increments the counter.
    pub fn next_word(&mut self) -> (r: Vec<u64>)
        ensures
            r@ == old(self).counter(),
            final(self).counter() == ripple(old(self).counter()),
            final(self).phrases() == old(self).phrases(),
            final(self).codes() == old(self).codes(),
            final(self).width() == old(self).width(),
    {
        advance(&mut self.next_word)
    }

    /// The position of `phrase` in the dictionary, if it is there.
    pub fn find(&self, phrase: &Vec<char>) -> (r: Option<usize>)
        ensures
            match r {
                Some(i) => i < self.phrases().len() && self.phrases()[i as int] == phrase@
                    && forall|j: int| 0 <= j < i ==> self.phrases()[j] != phrase@,
                None => !self.phrases().contains(phrase@),
            },
    {
        let mut i: usize = 0;
        while i < self.dict.len()
            invariant
                i <= self.dict@.len(),
                forall|j: int| 0 <= j < i ==> self.phrases()[j] != phrase@,
            decreases self.dict@.len() - i,
        {
            if same_chars(&self.dict[i].phrase, phrase) {
                return Some(i);
            }
            i += 1;
        }
        None
    }

    /// Inserts `sequence` with the next code unless the dictionary holds it
    /// already, and says whether it was inserted.
    pub fn insert(&mut self, sequence: Vec<char>) -> (r: bool)
        requires
            old(self).wf(),
            old(self).phrases().len() < usize::MAX,
        ensures
            final(self).wf(),
            r == !old(self).phrases().contains(sequence@),
            final(self).phrases() == if r {
                old(self).phrases().push(sequence@)
            } else {
                old(self).phrases()
            },
    {
        if self.find(&sequence).is_some() {
            return false;
        }
        let ghost before = self.phrases();
        let ghost codes_before = self.codes();
        let ghost n = before.len();
        let codeword: Vec<u64> = self.next_word();
        self.dict.push(Entry { phrase: sequence, code: codeword });
        self.word_size = width_for(self.dict.len() - 1);
        proof {
            lemma_counter_step(n);
            assert(self.phrases() =~= before.push(sequence@));
            assert(self.codes() =~= codes_before.push(counter_words(n)));
            assert forall|i: int| 0 <= i < self.codes().len() implies #[trigger] self.codes()[i]
                == counter_words(i as nat) by {
                if i < n {
                    assert(codes_before[i] == counter_words(i as nat));
                }
            }
            assert(bit_length(0) == 0);
        }
        true
    }

    /// Appends the code of phrase number `k` to `output` at `width` bits.
    fn emit(&self, output: Bits, k: usize, width: usize) -> (r: Bits)
        requires
            self.wf(),
            k < self.phrases().len(),
            1 <= width <= 64,
            output.is_stream(),
            output.size + 256 <= usize::MAX,
        ensures
            r.is_stream(),
            r.size == output.size + width,
            r.stream_bits() == output.stream_bits() + numeral(k as nat, width as nat),
    {
        let codeword: Vec<u64> = self.dict[k].code.clone();
        proof {
            assert(self.codes()[k as int] == counter_words(k as nat));
            lemma_counter_single(k as nat);
            assert(codeword@ =~= seq![k as u64]);
            lemma_low_bits_numeral(k as u64, width as nat);
        }
        let value = Bits::new(codeword, width);
        assert(zero_words(0) + codeword@ =~= codeword@);
        output.concat(value)
    }

    /// Encodes `input` into a stream of codes. Fails when `input` holds a
    /// symbol that is not a single-symbol phrase of the dictionary.
    pub fn encode(self, input: Vec<char>) -> (r: Result<Bits, LzwError>)
        requires
            self.wf(),
            seeded(self.phrases()),
            (self.phrases().len() + input@.len() + 4) * 64 <= usize::MAX,
        ensures
            r is Ok <==> covered(self.phrases(), input@),
            r is Err ==> r == Err::<Bits, LzwError>(LzwError::AlphabetCoverage),
            r is Ok ==> r->Ok_0.is_stream() && r->Ok_0.stream_bits() == lzw_bits(
                self.phrases(),
                Seq::empty(),
                input@,
                0,
            ),
    {
        let mut enc = self;
        let ghost seed = enc.phrases();
        let ghost inp = input@;
        let mut output = Bits { bits: Vec::new(), size: 0 };
        let mut sequence: Vec<char> = Vec::new();
        assert(output.stream_bits() =~= Seq::<bool>::empty());
        assert(Seq::<bool>::empty() + lzw_bits(seed, Seq::empty(), inp, 0) =~= lzw_bits(
            seed,
            Seq::empty(),
            inp,
            0,
        ));
        let mut i: usize = 0;
        while i < input.len()
            invariant
                i <= inp.len(),
                inp == input@,
                seed == self.phrases(),
                (seed.len() + inp.len() + 4) * 64 <= usize::MAX,
                enc.wf(),
                seed.len() <= enc.phrases().len() <= seed.len() + i,
                enc.phrases().subrange(0, seed.len() as int) == seed,
                sequence@.len() == 0 ==> i == 0,
                sequence@.len() > 0 ==> enc.phrases().contains(sequence@),
                seeded(seed),
                forall|k: int|
                    seed.len() <= k < enc.phrases().len() ==> (#[trigger] enc.phrases()[k]).len() >= 2
                        && seed.contains(seq![enc.phrases()[k].last()]),
                forall|j: int| 0 <= j < i ==> seed.contains(seq![#[trigger] inp[j]]),
                output.is_stream(),
                output.size <= 64 * i,
                lzw_bits(seed, Seq::empty(), inp, 0) == output.stream_bits() + lzw_bits(
                    enc.phrases(),
                    sequence@,
                    inp,
                    i as int,
                ),
            decreases inp.len() - i,
        {
            let current_word_size: usize = enc.word_size;
            let s: char = input[i];
            let ghost dict = enc.phrases();
            let ghost phrase = sequence@;
            let ghost grown = phrase.push(s);
            sequence.push(s);
            let candidate: Vec<char> = sequence.clone();
            assert(candidate@ =~= grown);
            if enc.insert(candidate) {
                sequence.pop();
                assert(sequence@ =~= phrase);
                if sequence.len() == 0 {
                    proof {
                        assert(dict =~= seed);
                        assert(grown =~= seq![inp[i as int]]);
                        assert(!seed.contains(seq![inp[i as int]]));
                        assert(!covered(seed, inp));
                    }
                    return Err(LzwError::AlphabetCoverage);
                }
                let found: Option<usize> = enc.find(&sequence);
                proof {
                    let at = dict.index_of(phrase);
                    assert(enc.phrases()[at] == phrase);
                }
                let k: usize = match found {
                    Some(k) => k,
                    None => {
                        return Err(LzwError::AlphabetCoverage);
                    },
                };
                proof {
                    assert(k < dict.len()) by {
                        if k == dict.len() {
                            assert(enc.phrases()[k as int] == grown);
                        }
                    }
                    assert(dict[k as int] == phrase);
                    assert(dict.index_of(phrase) == k);
                    lemma_enc_width_bounds(dict.len());
                }
                output = enc.emit(output, k, current_word_size);
                sequence.clear();
                sequence.push(s);
                assert(sequence@ =~= seq![s]);
                let reset: Option<usize> = enc.find(&sequence);
                if reset.is_none() {
                    proof {
                        if seed.contains(seq![s]) {
                            let at = seed.index_of(seq![s]);
                            assert(enc.phrases().subrange(0, seed.len() as int)[at] == seq![s]);
                            assert(enc.phrases()[at] == seq![s]);
                        }
                        assert(!seed.contains(seq![inp[i as int]]));
                        assert(!covered(seed, inp));
                    }
                    return Err(LzwError::AlphabetCoverage);
                }
                proof {
                    let k1 = reset->Some_0 as int;
                    assert(enc.phrases()[k1] == seq![s]);
                    assert(enc.phrases()[k1].len() == 1);
                    assert(k1 < seed.len()) by {
                        if k1 >= seed.len() {
                            if k1 < dict.len() {
                                assert(dict[k1].len() >= 2);
                            } else {
                                assert(enc.phrases()[k1] == grown);
                            }
                        }
                    }
                    assert(seed[k1] == dict.subrange(0, seed.len() as int)[k1]);
                    assert(seed.contains(seq![s]));
                    assert(enc.phrases().subrange(0, seed.len() as int) =~= seed) by {
                        assert(dict.subrange(0, seed.len() as int) == seed);
                    }
                    assert(grown.last() == s);
                    assert forall|k: int| seed.len() <= k < enc.phrases().len() implies (
                    #[trigger] enc.phrases()[k]).len() >= 2 && seed.contains(
                        seq![enc.phrases()[k].last()],
                    ) by {
                        if k < dict.len() {
                            assert(enc.phrases()[k] == dict[k]);
                        }
                    }
                }
            } else {
                proof {
                    let at = dict.index_of(grown);
                    assert(dict[at] == grown);
                    assert(grown.last() == s);
                    if at < seed.len() {
                        assert(seed[at] == dict.subrange(0, seed.len() as int)[at]);
                        assert(grown =~= seq![s]);
                    }
                    assert(seed.contains(seq![s]));
                }
            }
            i += 1;
        }
        if !sequence.is_empty() {
            let found: Option<usize> = enc.find(&sequence);
            let k: usize = match found {
                Some(k) => k,
                None => {
                    return Err(LzwError::AlphabetCoverage);
                },
            };
            proof {
                assert(enc.phrases().index_of(sequence@) == k);
            }
            let width: usize = enc.word_size;
            proof {
                lemma_enc_width_bounds(enc.phrases().len());
            }
            output = enc.emit(output, k, width);
        } else {
            assert(output.stream_bits() + Seq::<bool>::empty() =~= output.stream_bits());
        }
        Ok(output)
    }

    /// An encoder seeded with the symbols of `alphabet`, each inserted once.
    pub fn with_alphabet(alphabet: &Vec<char>) -> (r: LzwEncoder)
        ensures
            r.wf(),
            r.phrases() == seed_phrases(alphabet@),
            seeded(r.phrases()),
            r.phrases().len() <= alphabet@.len(),
    {
        let mut encoder = LzwEncoder { dict: Vec::new(), word_size: 0, next_word: vec![0u64] };
        assert(encoder.phrases() =~= Seq::<Seq<char>>::empty());
        assert(encoder.counter() =~= counter_words(0));
        let mut i: usize = 0;
        while i < alphabet.len()
            invariant
                i <= alphabet@.len(),
                encoder.wf(),
                seeded(encoder.phrases()),
                encoder.phrases().len() <= i,
                encoder.phrases() == seed_phrases(alphabet@.subrange(0, i as int)),
            decreases alphabet@.len() - i,
        {
            let c: char = alphabet[i];
            let single: Vec<char> = vec![c];
            assert(single@ =~= seq![c]);
            proof {
                let upto = alphabet@.subrange(0, i + 1);
                assert(upto.drop_last() =~= alphabet@.subrange(0, i as int));
                assert(upto.last() == c);
            }
            encoder.insert(single);
            i += 1;
        }
        assert(alphabet@.subrange(0, alphabet@.len() as int) =~= alphabet@);
        encoder
    }

    /// An encoder seeded with the default alphabet.
    pub fn new() -> (r: LzwEncoder)
        ensures
            r.wf(),
            r.phrases() == seed_phrases(default_alphabet()),
            seeded(r.phrases()),
            r.phrases().len() <= 30,
    {
        let symbols = alphabet();
        LzwEncoder::with_alphabet(&symbols)
    }
}

/// The LZW decoder: its dictionary, its current code width and its code counter.
pub struct LzwDecoder {
    dict: Vec<Entry>,
    word_size: usize,
    next_word: Vec<u64>,
}

impl LzwDecoder {
    /// The phrases of the dictionary, in the order of their codes.
    pub closed spec fn phrases(&self) -> Seq<Seq<char>> {
        Seq::new(self.dict@.len(), |i: int| self.dict@[i].phrase@)
    }

    /// The codes of the dictionary, in the order in which they were given.
    pub closed spec fn codes(&self) -> Seq<Seq<u64>> {
        Seq::new(self.dict@.len(), |i: int| self.dict@[i].code@)
    }

    /// The digits of the next code to give.
    pub closed spec fn counter(&self) -> Seq<u64> {
        self.next_word@
    }

    /// The current code width in bits.
    pub closed spec fn width(&self) -> nat {
        self.word_size as nat
    }

    /// The decoder is consistent: phrase number `i` has the code `i`, and the
    /// counter holds the number of phrases.
    pub open spec fn wf(&self) -> bool {
        &&& self.codes().len() == self.phrases().len()
        &&& forall|i: int| 0 <= i < self.codes().len() ==> #[trigger] self.codes()[i] == counter_words(i as nat)
        &&& self.counter() == counter_words(self.phrases().len())
    }

    /// The decoder is as seeding left it: consistent, every phrase a single
    /// symbol, and the width the one an encoder has with the same dictionary.
    pub open spec fn fresh(&self) -> bool {
        &&& self.wf()
        &&& seeded(self.phrases())
        &&& self.width() == enc_width(self.phrases().len())
    }

    /// The current code width in bits.
    pub fn word_size(&self) -> (r: usize)
        ensures
            r == self.width(),
    {
        self.word_size
    }

    /// The number of phrases in the dictionary.
    pub fn len(&self) -> (r: usize)
        ensures
            r == self.phrases().len(),
    {
        self.dict.len()
    }

    /// Takes the next code from the counter and increments the counter.
    pub fn next_word(&mut self) -> (r: Vec<u64>)
        ensures
            r@ == old(self).counter(),
            final(self).counter() == ripple(old(self).counter()),
            final(self).phrases() == old(self).phrases(),
            final(self).codes() == old(self).codes(),
            final(self).width() == old(self).width(),
    {
        advance(&mut self.next_word)
    }

    /// Gives `sequence` the next code and sets the width for the new
    /// dictionary size. Always inserts, and says so.
    pub fn insert(&mut self, sequence: Vec<char>) -> (r: bool)
        requires
            old(self).wf(),
            old(self).phrases().len() < usize::MAX,
        ensures
            r,
            final(self).wf(),
            final(self).phrases() == old(self).phrases().push(sequence@),
            final(self).width() == dec_width(final(self).phrases().len()),
    {
        let ghost before = self.phrases();
        let ghost codes_before = self.codes();
        let ghost n = before.len();
        let codeword: Vec<u64> = self.next_word();
        self.dict.push(Entry { phrase: sequence, code: codeword });
        self.word_size = width_for(self.dict.len());
        proof {
            lemma_counter_step(n);
            assert(self.phrases() =~= before.push(sequence@));
            assert(self.codes() =~= codes_before.push(counter_words(n)));
            assert forall|i: int| 0 <= i < self.codes().len() implies #[trigger] self.codes()[i]
                == counter_words(i as nat) by {
                if i < n {
                    assert(codes_before[i] == counter_words(i as nat));
                }
            }
        }
        true
    }

    /// Whether the dictionary holds `phrase`.
    fn holds(&self, phrase: &Vec<char>) -> (r: bool)
        ensures
            r == self.phrases().contains(phrase@),
    {
        let mut i: usize = 0;
        while i < self.dict.len()
            invariant
                i <= self.dict@.len(),
                forall|j: int| 0 <= j < i ==> self.phrases()[j] != phrase@,
            decreases self.dict@.len() - i,
        {
            if same_chars(&self.dict[i].phrase, phrase) {
                assert(self.phrases()[i as int] == phrase@);
                return true;
            }
            i += 1;
        }
        false
    }

    /// A decoder seeded with the symbols of `alphabet` as an encoder is: each
    /// distinct symbol once, in order of first occurrence.
    pub fn with_alphabet(alphabet: &Vec<char>) -> (r: LzwDecoder)
        ensures
            r.fresh(),
            r.phrases() == seed_phrases(alphabet@),
            r.phrases().len() <= alphabet@.len(),
    {
        let mut decoder = LzwDecoder { dict: Vec::new(), word_size: 0, next_word: vec![0u64] };
        assert(decoder.phrases() =~= Seq::<Seq<char>>::empty());
        assert(decoder.counter() =~= counter_words(0));
        let mut i: usize = 0;
        while i < alphabet.len()
            invariant
                i <= alphabet@.len(),
                decoder.wf(),
                decoder.width() == 0,
                seeded(decoder.phrases()),
                decoder.phrases().len() <= i,
                decoder.phrases() == seed_phrases(alphabet@.subrange(0, i as int)),
            decreases alphabet@.len() - i,
        {
            let c: char = alphabet[i];
            let single: Vec<char> = vec![c];
            assert(single@ =~= seq![c]);
            proof {
                let upto = alphabet@.subrange(0, i + 1);
                assert(upto.drop_last() =~= alphabet@.subrange(0, i as int));
                assert(upto.last() == c);
            }
            if !decoder.holds(&single) {
                let ghost before = decoder.phrases();
                let ghost codes_before = decoder.codes();
                let ghost n = before.len();
                let codeword: Vec<u64> = decoder.next_word();
                decoder.dict.push(Entry { phrase: single, code: codeword });
                proof {
                    lemma_counter_step(n);
                    assert(decoder.phrases() =~= before.push(seq![c]));
                    assert(decoder.codes() =~= codes_before.push(counter_words(n)));
                    assert forall|k: int| 0 <= k < decoder.codes().len() implies
                        #[trigger] decoder.codes()[k] == counter_words(k as nat) by {
                        if k < n {
                            assert(codes_before[k] == counter_words(k as nat));
                        }
                    }
                    assert forall|k: int| 0 <= k < decoder.phrases().len() implies (
                    #[trigger] decoder.phrases()[k]).len() == 1 by {
                        if k < n {
                            assert(before[k].len() == 1);
                        }
                    }
                }
            }
            i += 1;
        }
        assert(alphabet@.subrange(0, alphabet@.len() as int) =~= alphabet@);
        let ghost seeds = decoder.phrases();
        let ghost codes = decoder.codes();
        if decoder.dict.len() > 0 {
            decoder.word_size = width_for(decoder.dict.len() - 1);
            assert(bit_length(0) == 0);
        }
        assert(decoder.phrases() == seeds);
        assert(decoder.codes() == codes);
        decoder
    }

    /// Decodes a stream of codes into text. Fails when a code is neither in
    /// the dictionary nor the one code that the next insertion will give.
    pub fn decode(self, input: Vec<u64>) -> (r: Result<String, LzwError>)
        requires
            self.fresh(),
            self.phrases().len() + (input@.len() + 8) * 64 <= usize::MAX,
        ensures
            match lzw_text(
                self.phrases(),
                Seq::empty(),
                self.width(),
                pad_stream(input@),
                64 * (input@.len() as int),
                0,
            ) {
                Some(text) => r is Ok && r->Ok_0@ == text,
                None => r == Err::<String, LzwError>(LzwError::CorruptStream),
            },
    {
        let mut dec = self;
        let true_length: usize = input.len();
        let limit: usize = 64 * true_length;
        let mut words: Vec<u64> = input;
        let ghost given = words@;
        let pad: usize = (8 - true_length % 8) % 8;
        let mut added: usize = 0;
        while added < pad
            invariant
                added <= pad < 8,
                words@ == given + zero_words(added as nat),
                (given.len() + 8) * 64 <= usize::MAX,
            decreases pad - added,
        {
            words.push(0u64);
            added += 1;
            assert(words@ =~= given + zero_words(added as nat));
        }
        let ghost d0 = dec.phrases();
        let ghost w0 = dec.width();
        let ghost whole = lzw_text(d0, Seq::empty(), w0, words@, limit as int, 0);
        let mut out: Vec<char> = Vec::new();
        let mut prev: Vec<char> = Vec::new();
        let mut pos: usize = 0;
        proof {
            assert(prepend(out@, lzw_text(d0, prev@, w0, words@, limit as int, 0)) == whole) by {
                let rest = lzw_text(d0, prev@, w0, words@, limit as int, 0);
                if rest is Some {
                    assert(out@ + rest->Some_0 =~= rest->Some_0);
                }
            }
            if d0.len() > 0 {
                lemma_enc_width_bounds(d0.len());
            }
        }
        while pos < limit
            invariant
                limit == 64 * true_length,
                true_length <= words@.len(),
                whole == lzw_text(
                    self.phrases(),
                    Seq::empty(),
                    self.width(),
                    pad_stream(input@),
                    64 * (input@.len() as int),
                    0,
                ),
                words@.len() * 64 <= usize::MAX,
                d0.len() + (true_length + 8) * 64 <= usize::MAX,
                pos <= limit + 64,
                dec.wf(),
                d0.len() <= dec.phrases().len() <= d0.len() + pos,
                dec.width() <= 64,
                dec.phrases().len() > 0 ==> dec.width() >= 1,
                forall|k: int| 0 <= k < dec.phrases().len() ==> (#[trigger] dec.phrases()[k]).len() > 0,
                prev@.len() == 0 ==> dec.phrases() == d0 && dec.width() == w0,
                whole == prepend(
                    out@,
                    lzw_text(dec.phrases(), prev@, dec.width(), words@, limit as int, pos as int),
                ),
            decreases limit + 64 - pos,
        {
            let w: usize = dec.word_size;
            let ghost dict = dec.phrases();
            let ghost last = prev@;
            let ghost sofar = out@;
            let ghost rest0 = lzw_text(dict, last, w as nat, words@, limit as int, pos as int);
            if pos + w > words.len() * 64 {
                assert(sofar + Seq::<char>::empty() =~= sofar);
                return Ok(string_of_chars(&out));
            }
            if w == 0 {
                return Err(LzwError::CorruptStream);
            }
            let code: u64 = read_bits(&words, pos, w);
            proof {
                lemma_word_value(code, w as nat);
            }
            let n: usize = dec.dict.len();
            let mut s: Vec<char>;
            if code < n as u64 {
                s = dec.dict[code as usize].phrase.clone();
                assert(s@ =~= dict[code as int]);
            } else if code == n as u64 && prev.len() > 0 {
                s = prev.clone();
                s.push(prev[0]);
                assert(s@ =~= last.push(last[0]));
            } else {
                return Err(LzwError::CorruptStream);
            }
            let mut j: usize = 0;
            while j < s.len()
                invariant
                    j <= s@.len(),
                    out@ == sofar + s@.subrange(0, j as int),
                decreases s@.len() - j,
            {
                out.push(s[j]);
                j += 1;
                assert(out@ =~= sofar + s@.subrange(0, j as int));
            }
            assert(s@.subrange(0, s@.len() as int) =~= s@);
            if prev.len() > 0 {
                let mut entry: Vec<char> = prev;
                entry.push(s[0]);
                assert(entry@ =~= last + s@.take(1));
                dec.insert(entry);
                proof {
                    lemma_dec_width_bounds(dec.phrases().len());
                    assert forall|k: int| 0 <= k < dec.phrases().len() implies (
                    #[trigger] dec.phrases()[k]).len() > 0 by {
                        if k < dict.len() {
                            assert(dec.phrases()[k] == dict[k]);
                        }
                    }
                }
            }
            proof {
                let rest1 = lzw_text(
                    dec.phrases(),
                    s@,
                    dec.width(),
                    words@,
                    limit as int,
                    pos + w,
                );
                assert(rest0 == prepend(s@, rest1));
                if rest1 is Some {
                    assert((sofar + s@) + rest1->Some_0 =~= sofar + (s@ + rest1->Some_0));
                }
            }
            prev = s;
            pos += w;
        }
        assert(out@ + Seq::<char>::empty() =~= out@);
        Ok(string_of_chars(&out))
    }

    /// A decoder seeded with the default alphabet.
    pub fn new() -> (r: LzwDecoder)
        ensures
            r.fresh(),
            r.phrases() == seed_phrases(default_alphabet()),
            r.phrases().len() <= 30,
    {
        let symbols = alphabet();
        LzwDecoder::with_alphabet(&symbols)
    }
}

} // verus!
