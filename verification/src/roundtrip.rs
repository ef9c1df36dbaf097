//! What decoding gives back of what encoding wrote.
use crate::bits::{bits_from, lemma_packing, lemma_zero_word, packed_words, word_bit, Bits};
use crate::bytes::{
    be_byte, lemma_bit_of_byte, lemma_table_round_trip, table_bytes, table_counts, words_be_bytes,
};
use crate::huffman::{
    byte_bit, byte_bits, code_of, count_in, countable, decoded, encoded, histogram, huff_text,
    huffman_bits, huffman_tree, initial_leaves, lemma_input_has_code, lemma_slot, longest,
    match_slot, shortest, slot, total_count, LeafModel,
};
use crate::lzw::{
    code_bits, covered, dec_width, enc_width, lzw_bits, lzw_text, pad_stream, prepend, seeded,
};
use crate::numeral::{
    bit_length, bits_value, fits, lemma_fits_bit_length, lemma_fits_monotone, lemma_numeral_len,
    lemma_value_of_numeral, numeral,
};
use crate::prefix::{lemma_finished_tree, prefix_free};
use vstd::prelude::*;

verus! {

/// The size of the encoder's dictionary once the input from symbol `i` on is
/// encoded, when the dictionary is `dict` and `phrase` is the phrase matched
/// so far.
pub open spec fn final_size(dict: Seq<Seq<char>>, phrase: Seq<char>, input: Seq<char>, i: int) -> nat
    decreases input.len() - i,
{
    if i < 0 || i >= input.len() {
        dict.len()
    } else {
        let grown = phrase.push(input[i]);
        if dict.contains(grown) {
            final_size(dict, grown, input, i + 1)
        } else {
            final_size(dict.push(grown), seq![input[i]], input, i + 1)
        }
    }
}

/// A code below the dictionary size fits the encoder's width for that size.
pub proof fn lemma_code_fits(k: nat, n: nat)
    requires
        k < n,
    ensures
        fits(k, enc_width(n)),
{
    if n == 1 {
        assert(fits(0, 1)) by {
            assert(fits(0, 0));
        }
    } else {
        lemma_fits_bit_length((n - 1) as nat);
        lemma_fits_monotone(k, (n - 1) as nat, bit_length((n - 1) as nat), bit_length((n - 1) as nat));
    }
}

/// The encoder's dictionary never shrinks.
pub proof fn lemma_final_size_grows(dict: Seq<Seq<char>>, phrase: Seq<char>, input: Seq<char>, i: int)
    ensures
        final_size(dict, phrase, input, i) >= dict.len(),
    decreases input.len() - i,
{
    if 0 <= i < input.len() {
        let grown = phrase.push(input[i]);
        if dict.contains(grown) {
            lemma_final_size_grows(dict, grown, input, i + 1);
        } else {
            lemma_final_size_grows(dict.push(grown), seq![input[i]], input, i + 1);
        }
    }
}

/// The decoder's dictionary `behind` and last phrase `prev` are where they
/// should be when the encoder holds `dict` and has matched `phrase`: before the
/// first code the two dictionaries are the seeded one; afterwards the
/// encoder's has one phrase more, the decoder's last phrase extended by the
/// first symbol of the phrase being matched.
pub open spec fn in_step(
    dict: Seq<Seq<char>>,
    phrase: Seq<char>,
    behind: Seq<Seq<char>>,
    prev: Seq<char>,
    seeds: nat,
) -> bool {
    if prev.len() == 0 {
        behind == dict && dict.len() == seeds
    } else {
        phrase.len() > 0 && dict.len() > seeds && dict == behind.push(prev.push(phrase[0]))
    }
}

/// The decoder's dictionary once it has read the code of `phrase`.
pub open spec fn caught_up(
    dict: Seq<Seq<char>>,
    behind: Seq<Seq<char>>,
    prev: Seq<char>,
) -> Seq<Seq<char>> {
    if prev.len() == 0 {
        behind
    } else {
        dict
    }
}

/// The decoder's width once it has read a code at the encoder's dictionary `dict`.
pub open spec fn next_width(dict: Seq<Seq<char>>, prev: Seq<char>) -> nat {
    if prev.len() == 0 {
        enc_width(dict.len())
    } else {
        dec_width(dict.len())
    }
}

/// Reading one code: where the words hold the code of `phrase` at position
/// `p`, a decoder in step with the encoder decodes `phrase`, also when the
/// code is the one that it is about to insert itself.
pub proof fn lemma_read_code(
    dict: Seq<Seq<char>>,
    phrase: Seq<char>,
    behind: Seq<Seq<char>>,
    prev: Seq<char>,
    seeds: nat,
    words: Seq<u64>,
    limit: int,
    p: int,
)
    requires
        dict.no_duplicates(),
        forall|k: int| 0 <= k < dict.len() ==> (#[trigger] dict[k]).len() > 0,
        dict.contains(phrase),
        in_step(dict, phrase, behind, prev, seeds),
        0 <= p < limit,
        p + enc_width(dict.len()) <= words.len() * 64,
        bits_from(words, p, enc_width(dict.len())) == code_bits(dict, phrase),
    ensures
        enc_width(dict.len()) >= 1,
        lzw_text(behind, prev, enc_width(dict.len()), words, limit, p) == prepend(
            phrase,
            lzw_text(
                caught_up(dict, behind, prev),
                phrase,
                next_width(dict, prev),
                words,
                limit,
                p + enc_width(dict.len()),
            ),
        ),
{
    let w = enc_width(dict.len());
    let k = dict.index_of(phrase);
    assert(0 <= k < dict.len() && dict[k] == phrase);
    assert(phrase.len() > 0);
    lemma_code_fits(k as nat, dict.len());
    lemma_value_of_numeral(k as nat, w);
    let code = bits_value(bits_from(words, p, w));
    assert(code == k);
    if prev.len() == 0 {
        assert(behind[k] == phrase);
    } else {
        let pending = prev.push(phrase[0]);
        assert(dict == behind.push(pending));
        assert(behind.len() == dict.len() - 1);
        let s = if code < behind.len() {
            behind[code as int]
        } else {
            prev.push(prev[0])
        };
        if k < behind.len() {
            assert(behind[k] == dict[k]);
        } else {
            assert(dict[k] == pending);
            assert(phrase[0] == pending[0]);
            assert(pending[0] == prev[0]);
        }
        assert(s == phrase);
        assert(prev + s.take(1) =~= pending);
        assert(behind.push(prev + s.take(1)) == dict);
    }
}

/// What a decoder holds: its dictionary, the phrase it decoded last, and its width.
pub ghost struct DecoderState {
    pub dict: Seq<Seq<char>>,
    pub prev: Seq<char>,
    pub width: nat,
}

/// The state of a decoder in step with the encoder once it has read the codes
/// that the encoder emits from symbol `i` on.
pub open spec fn after_stream(
    dict: Seq<Seq<char>>,
    phrase: Seq<char>,
    input: Seq<char>,
    i: int,
    behind: Seq<Seq<char>>,
    prev: Seq<char>,
) -> DecoderState
    decreases input.len() - i,
{
    if i < 0 || i >= input.len() {
        if phrase.len() == 0 {
            DecoderState { dict: behind, prev, width: enc_width(dict.len()) }
        } else {
            DecoderState {
                dict: caught_up(dict, behind, prev),
                prev: phrase,
                width: next_width(dict, prev),
            }
        }
    } else {
        let grown = phrase.push(input[i]);
        if dict.contains(grown) {
            after_stream(dict, grown, input, i + 1, behind, prev)
        } else {
            after_stream(
                dict.push(grown),
                seq![input[i]],
                input,
                i + 1,
                caught_up(dict, behind, prev),
                phrase,
            )
        }
    }
}

/// `unit` written `k` times.
pub open spec fn repeated(unit: Seq<char>, k: nat) -> Seq<char>
    decreases k,
{
    if k == 0 {
        Seq::empty()
    } else {
        unit + repeated(unit, (k - 1) as nat)
    }
}

/// Putting two runs in front of a decoding, one after the other, is putting
/// their concatenation in front of it.
pub proof fn lemma_prepend_twice(a: Seq<char>, b: Seq<char>, rest: Option<Seq<char>>)
    ensures
        prepend(a, prepend(b, rest)) == prepend(a + b, rest),
        prepend(Seq::empty(), rest) == rest,
{
    if rest is Some {
        assert(a + (b + rest->Some_0) =~= (a + b) + rest->Some_0);
        assert(Seq::<char>::empty() + rest->Some_0 =~= rest->Some_0);
    }
}

/// A decoder in step with the encoder decodes from position `p` what the
/// encoder encoded from symbol `i` on, the phrase matched so far and the
/// rest of the input, and goes on from behind the stream in the state that
/// the stream leaves it in.
#[verifier::rlimit(40)]
pub proof fn lemma_decode_through(
    dict: Seq<Seq<char>>,
    phrase: Seq<char>,
    input: Seq<char>,
    i: int,
    behind: Seq<Seq<char>>,
    prev: Seq<char>,
    seeds: nat,
    words: Seq<u64>,
    limit: int,
    p: int,
)
    requires
        0 <= i <= input.len(),
        dict.no_duplicates(),
        forall|k: int| 0 <= k < dict.len() ==> (#[trigger] dict[k]).len() > 0,
        forall|j: int| i <= j < input.len() ==> dict.contains(seq![#[trigger] input[j]]),
        phrase.len() > 0 ==> dict.contains(phrase),
        phrase.len() == 0 ==> prev.len() == 0,
        in_step(dict, phrase, behind, prev, seeds),
        enc_width(seeds + 1) == enc_width(seeds) || final_size(dict, phrase, input, i) == seeds,
        0 <= p,
        bits_from(words, p, lzw_bits(dict, phrase, input, i).len()) == lzw_bits(dict, phrase, input, i),
        p + lzw_bits(dict, phrase, input, i).len() <= limit,
        p + lzw_bits(dict, phrase, input, i).len() <= words.len() * 64,
    ensures
        lzw_text(behind, prev, enc_width(dict.len()), words, limit, p) == prepend(
            phrase + input.subrange(i, input.len() as int),
            lzw_text(
                after_stream(dict, phrase, input, i, behind, prev).dict,
                after_stream(dict, phrase, input, i, behind, prev).prev,
                after_stream(dict, phrase, input, i, behind, prev).width,
                words,
                limit,
                p + lzw_bits(dict, phrase, input, i).len(),
            ),
        ),
        after_stream(dict, phrase, input, i, behind, prev).width >= 1 || dict.len() == 0,
        seeds >= 1 ==> after_stream(dict, phrase, input, i, behind, prev).dict.len() >= 1
            && after_stream(dict, phrase, input, i, behind, prev).dict[0] == dict[0],
    decreases input.len() - i,
{
    let w = enc_width(dict.len());
    let bits = lzw_bits(dict, phrase, input, i);
    let rest = input.subrange(i, input.len() as int);
    let end = after_stream(dict, phrase, input, i, behind, prev);
    let beyond = lzw_text(end.dict, end.prev, end.width, words, limit, p + bits.len());
    if dict.len() >= 1 {
        assert(bit_length(0) == 0);
        assert(enc_width(dict.len()) >= 1 && dec_width(dict.len()) >= 1);
    }
    if i == input.len() {
        assert(phrase + rest =~= phrase);
        if phrase.len() == 0 {
            assert(bits.len() == 0);
            lemma_prepend_twice(phrase, phrase, beyond);
        } else {
            assert(bits == code_bits(dict, phrase));
            lemma_numeral_len(dict.index_of(phrase) as nat, w);
            lemma_read_code(dict, phrase, behind, prev, seeds, words, limit, p);
        }
    } else {
        let s = input[i];
        let grown = phrase.push(s);
        let tail = input.subrange(i + 1, input.len() as int);
        assert(rest =~= seq![s] + tail);
        assert(dict.contains(seq![input[i]]));
        if dict.contains(grown) {
            assert(grown[0] == if phrase.len() > 0 {
                phrase[0]
            } else {
                s
            });
            lemma_decode_through(dict, grown, input, i + 1, behind, prev, seeds, words, limit, p);
            assert(grown + tail =~= phrase + rest);
        } else {
            if phrase.len() == 0 {
                assert(grown =~= seq![s]);
            }
            assert(phrase.len() > 0);
            let bigger = dict.push(grown);
            lemma_final_size_grows(bigger, seq![s], input, i + 1);
            let later = lzw_bits(bigger, seq![s], input, i + 1);
            assert(bits == code_bits(dict, phrase) + later);
            lemma_numeral_len(dict.index_of(phrase) as nat, w);
            assert(bits_from(words, p, w) =~= code_bits(dict, phrase)) by {
                assert forall|j: int| 0 <= j < w implies bits_from(words, p, w)[j] == code_bits(
                    dict,
                    phrase,
                )[j] by {
                    assert(bits_from(words, p, bits.len())[j] == bits[j]);
                }
            }
            assert(bits_from(words, p + w, later.len()) =~= later) by {
                assert forall|j: int| 0 <= j < later.len() implies bits_from(
                    words,
                    p + w,
                    later.len(),
                )[j] == later[j] by {
                    assert(bits_from(words, p, bits.len())[w + j] == bits[w + j]);
                }
            }
            lemma_read_code(dict, phrase, behind, prev, seeds, words, limit, p);
            let caught = caught_up(dict, behind, prev);
            assert(caught == dict);
            assert(next_width(dict, prev) == enc_width(bigger.len()));
            assert(bigger.no_duplicates());
            assert forall|j: int| i + 1 <= j < input.len() implies bigger.contains(
                seq![#[trigger] input[j]],
            ) by {
                let at = dict.index_of(seq![input[j]]);
                assert(dict.contains(seq![input[j]]));
                assert(bigger[at] == seq![input[j]]);
            }
            assert(bigger.contains(seq![s])) by {
                let at = dict.index_of(seq![s]);
                assert(bigger[at] == seq![s]);
            }
            assert(in_step(bigger, seq![s], caught, phrase, seeds)) by {
                assert(seq![s][0] == s);
            }
            lemma_decode_through(
                bigger,
                seq![s],
                input,
                i + 1,
                caught,
                phrase,
                seeds,
                words,
                limit,
                p + w,
            );
            lemma_prepend_twice(phrase, seq![s] + tail, beyond);
            assert(phrase + (seq![s] + tail) =~= phrase + rest);
            assert(bigger[0] == dict[0]);
        }
    }
}

/// Round trip: a decoder seeded as the encoder was gives back the encoded
/// text, for every text over the seed alphabet, where one more phrase than
/// the seeds does not widen the codes or the encoder inserted no phrase, and
/// where decoding ends with the stream: the stream ends at the limit, or
/// fewer bits than the next code would need are left in the words behind it.
pub proof fn lemma_lzw_round_trip(dict: Seq<Seq<char>>, input: Seq<char>, words: Seq<u64>, limit: int)
    requires
        seeded(dict),
        dict.no_duplicates(),
        covered(dict, input),
        enc_width(dict.len() + 1) == enc_width(dict.len()) || final_size(
            dict,
            Seq::empty(),
            input,
            0,
        ) == dict.len(),
        bits_from(words, 0, lzw_bits(dict, Seq::empty(), input, 0).len()) == lzw_bits(
            dict,
            Seq::empty(),
            input,
            0,
        ),
        lzw_bits(dict, Seq::empty(), input, 0).len() <= limit,
        lzw_bits(dict, Seq::empty(), input, 0).len() <= words.len() * 64,
        lzw_bits(dict, Seq::empty(), input, 0).len() == limit || lzw_bits(
            dict,
            Seq::empty(),
            input,
            0,
        ).len() + after_stream(dict, Seq::empty(), input, 0, dict, Seq::empty()).width > words.len()
            * 64,
    ensures
        lzw_text(dict, Seq::empty(), enc_width(dict.len()), words, limit, 0) == Some(input),
{
    lemma_decode_through(dict, Seq::empty(), input, 0, dict, Seq::empty(), dict.len(), words, limit, 0);
    assert(Seq::<char>::empty() + input.subrange(0, input.len() as int) =~= input);
    assert(input + Seq::<char>::empty() =~= input);
}

/// The words of a stream, padded as the decoder pads them, hold the bits of
/// the stream and nothing but zeros behind them.
pub proof fn lemma_padded_stream(stream: Bits)
    requires
        stream.is_stream(),
    ensures
        bits_from(pad_stream(stream.bits@), 0, stream.size as nat) == stream.stream_bits(),
        forall|q: int|
            stream.size <= q < pad_stream(stream.bits@).len() * 64 ==> !word_bit(
                pad_stream(stream.bits@),
                q,
            ),
{
    let words = pad_stream(stream.bits@);
    assert(bits_from(words, 0, stream.size as nat) =~= stream.stream_bits()) by {
        assert forall|j: int| 0 <= j < stream.size implies bits_from(words, 0, stream.size as nat)[j]
            == stream.stream_bits()[j] by {
            assert(words[j / 64] == stream.bits@[j / 64]);
        }
    }
    assert forall|q: int| stream.size <= q < words.len() * 64 implies !word_bit(words, q) by {
        if q < stream.bits@.len() * 64 {
            assert(words[q / 64] == stream.bits@[q / 64]);
            assert(!word_bit(stream.bits@, q));
        } else {
            assert(words[q / 64] == 0u64);
            lemma_zero_word((q % 64) as u64);
        }
    }
}

/// Round trip through the codecs: where `stream` is what an encoder seeded
/// with `dict` makes of `input`, a decoder seeded with `dict` makes `input` of
/// the words of `stream`, provided that one more phrase than the seeds does
/// not widen the codes or the encoder inserted no phrase, and that decoding
/// ends with the stream: the stream fills its last word, or the words,
/// padded as the decoder pads them, hold fewer bits behind the stream than
/// the next code would need.
pub proof fn lemma_decode_of_encode(dict: Seq<Seq<char>>, input: Seq<char>, stream: Bits)
    requires
        seeded(dict),
        dict.no_duplicates(),
        covered(dict, input),
        enc_width(dict.len() + 1) == enc_width(dict.len()) || final_size(
            dict,
            Seq::empty(),
            input,
            0,
        ) == dict.len(),
        stream.is_stream(),
        stream.stream_bits() == lzw_bits(dict, Seq::empty(), input, 0),
        stream.size == 64 * stream.bits@.len() || stream.size + after_stream(
            dict,
            Seq::empty(),
            input,
            0,
            dict,
            Seq::empty(),
        ).width > 64 * pad_stream(stream.bits@).len(),
    ensures
        lzw_text(
            dict,
            Seq::empty(),
            enc_width(dict.len()),
            pad_stream(stream.bits@),
            64 * (stream.bits@.len() as int),
            0,
        ) == Some(input),
{
    let bits = lzw_bits(dict, Seq::empty(), input, 0);
    assert(bits.len() == stream.size);
    lemma_padded_stream(stream);
    lemma_lzw_round_trip(dict, input, pad_stream(stream.bits@), 64 * (stream.bits@.len() as int));
}

/// A run of zero bits spells zero.
pub proof fn lemma_zero_value(bits: Seq<bool>)
    requires
        forall|j: int| 0 <= j < bits.len() ==> !bits[j],
    ensures
        bits_value(bits) == 0,
    decreases bits.len(),
{
    if bits.len() > 0 {
        lemma_zero_value(bits.drop_last());
    }
}

/// Decoding zeros: where every bit from position `p` on is zero, every code
/// read is the first code, so what is decoded is the first phrase of the
/// dictionary, again and again.
pub proof fn lemma_padding_decodes(
    dict: Seq<Seq<char>>,
    prev: Seq<char>,
    width: nat,
    words: Seq<u64>,
    limit: int,
    p: int,
)
    requires
        dict.len() >= 1,
        width >= 1,
        0 <= p,
        forall|q: int| p <= q < words.len() * 64 ==> !word_bit(words, q),
    ensures
        exists|k: nat| lzw_text(dict, prev, width, words, limit, p) == Some(#[trigger] repeated(dict[0], k)),
    decreases (if p < limit {
            limit - p
        } else {
            0
        }),
{
    if p >= limit || p + width > words.len() * 64 {
        assert(lzw_text(dict, prev, width, words, limit, p) == Some(repeated(dict[0], 0)));
    } else {
        let read = bits_from(words, p, width);
        assert forall|j: int| 0 <= j < read.len() implies !read[j] by {
            assert(!word_bit(words, p + j));
        }
        lemma_zero_value(read);
        let s = dict[0];
        let next = p + width;
        if prev.len() == 0 {
            lemma_padding_decodes(dict, s, width, words, limit, next);
            let k = choose|k: nat|
                lzw_text(dict, s, width, words, limit, next) == Some(#[trigger] repeated(dict[0], k));
            assert(lzw_text(dict, prev, width, words, limit, p) == Some(repeated(dict[0], k + 1)));
        } else {
            let grown = dict.push(prev + s.take(1));
            assert(bit_length(0) == 0);
            lemma_padding_decodes(grown, s, dec_width(grown.len()), words, limit, next);
            let k = choose|k: nat|
                lzw_text(grown, s, dec_width(grown.len()), words, limit, next) == Some(
                    #[trigger] repeated(grown[0], k),
                );
            assert(grown[0] == dict[0]);
            assert(lzw_text(dict, prev, width, words, limit, p) == Some(repeated(dict[0], k + 1)));
        }
    }
}

/// What decoding gives back of any text: where `stream` is what an encoder
/// seeded with `dict` makes of `input`, a decoder seeded with `dict` makes of
/// the words of `stream` the text `input`, followed only by what the zero
/// bits behind the stream spell: the first seed phrase, some number of times.
pub proof fn lemma_decode_starts_with_input(dict: Seq<Seq<char>>, input: Seq<char>, stream: Bits)
    requires
        seeded(dict),
        dict.no_duplicates(),
        dict.len() >= 1,
        covered(dict, input),
        enc_width(dict.len() + 1) == enc_width(dict.len()) || final_size(
            dict,
            Seq::empty(),
            input,
            0,
        ) == dict.len(),
        stream.is_stream(),
        stream.stream_bits() == lzw_bits(dict, Seq::empty(), input, 0),
    ensures
        exists|k: nat|
            lzw_text(
                dict,
                Seq::empty(),
                enc_width(dict.len()),
                pad_stream(stream.bits@),
                64 * (stream.bits@.len() as int),
                0,
            ) == Some(input + #[trigger] repeated(dict[0], k)),
{
    let words = pad_stream(stream.bits@);
    let limit = 64 * (stream.bits@.len() as int);
    let bits = lzw_bits(dict, Seq::empty(), input, 0);
    let end = after_stream(dict, Seq::empty(), input, 0, dict, Seq::empty());
    assert(bits.len() == stream.size);
    lemma_padded_stream(stream);
    lemma_decode_through(dict, Seq::empty(), input, 0, dict, Seq::empty(), dict.len(), words, limit, 0);
    assert(Seq::<char>::empty() + input.subrange(0, input.len() as int) =~= input);
    lemma_padding_decodes(end.dict, end.prev, end.width, words, limit, bits.len() as int);
    let k = choose|k: nat|
        lzw_text(end.dict, end.prev, end.width, words, limit, bits.len() as int) == Some(
            #[trigger] repeated(end.dict[0], k),
        );
    assert(lzw_text(dict, Seq::empty(), enc_width(dict.len()), words, limit, 0) == Some(
        input + repeated(dict[0], k),
    ));
}

/// The match for a run of bits is the place of a leaf with that code,
/// whenever there is such a leaf.
pub proof fn lemma_match_slot(tree: Seq<LeafModel>, bits: Seq<bool>, k: nat)
    requires
        k <= tree.len(),
    ensures
        -1 <= match_slot(tree, bits, k) < k,
        match_slot(tree, bits, k) >= 0 ==> tree[match_slot(tree, bits, k)].code == bits,
        (exists|i: int| 0 <= i < k && (#[trigger] tree[i]).code == bits) ==> match_slot(tree, bits, k)
            >= 0,
    decreases k,
{
    if k > 0 {
        lemma_match_slot(tree, bits, (k - 1) as nat);
        if tree[k - 1].code != bits {
            if exists|i: int| 0 <= i < k && (#[trigger] tree[i]).code == bits {
                let i = choose|i: int| 0 <= i < k && (#[trigger] tree[i]).code == bits;
                assert(0 <= i < k - 1 && tree[i].code == bits);
            }
        }
    }
}

/// Every code among the first `k` is no shorter than the shortest and no
/// longer than the longest.
pub proof fn lemma_length_bounds(tree: Seq<LeafModel>, i: int, k: nat)
    requires
        0 <= i < k <= tree.len(),
    ensures
        shortest(tree, k) <= tree[i].code.len() <= longest(tree, k),
    decreases k,
{
    if k > 1 {
        if i < k - 1 {
            lemma_length_bounds(tree, i, (k - 1) as nat);
        }
    }
}

/// Trying lengths at the start of a code: in a tree where no code begins
/// another, every length below the code's misses, and the code's own length
/// hits its leaf.
pub proof fn lemma_trials(
    tree: Seq<LeafModel>,
    payload: Seq<u8>,
    lo: nat,
    hi: nat,
    p: int,
    trial: nat,
    k: int,
    owed: nat,
)
    requires
        prefix_free(tree),
        0 <= k < tree.len(),
        1 <= lo <= trial <= tree[k].code.len() <= hi,
        0 <= p,
        p + tree[k].code.len() <= 8 * payload.len(),
        byte_bits(payload, p, tree[k].code.len()) == tree[k].code,
        owed >= 1,
    ensures
        huff_text(tree, payload, lo, hi, p, trial, owed) == seq![tree[k].symbol] + huff_text(
            tree,
            payload,
            lo,
            hi,
            p + tree[k].code.len(),
            lo,
            (owed - 1) as nat,
        ),
    decreases tree[k].code.len() - trial,
{
    let code = tree[k].code;
    let tried = byte_bits(payload, p, trial);
    let m = match_slot(tree, tried, tree.len());
    lemma_match_slot(tree, tried, tree.len());
    assert(tried =~= code.subrange(0, trial as int)) by {
        assert forall|t: int| 0 <= t < trial implies tried[t] == code[t] by {
            assert(byte_bits(payload, p, code.len())[t] == code[t]);
        }
    }
    if trial < code.len() {
        if m >= 0 {
            assert(tree[m].code.is_prefix_of(code));
            assert(m != k);
        }
        lemma_trials(tree, payload, lo, hi, p, trial + 1, k, owed);
    } else {
        assert(tried =~= code);
        assert(m >= 0);
        if m != k {
            assert(tree[m].code =~= code.subrange(0, code.len() as int));
            assert(tree[m].code.is_prefix_of(tree[k].code));
        }
    }
}

/// The codes of the first `j` bytes of the input begin the codes of all of it.
pub proof fn lemma_bits_prefix(tree: Seq<LeafModel>, input: Seq<u8>, j: int)
    requires
        0 <= j <= input.len(),
    ensures
        huffman_bits(tree, input.subrange(0, j)).len() <= huffman_bits(tree, input).len(),
        huffman_bits(tree, input).subrange(0, huffman_bits(tree, input.subrange(0, j)).len() as int)
            == huffman_bits(tree, input.subrange(0, j)),
    decreases input.len() - j,
{
    let whole = huffman_bits(tree, input);
    if j == input.len() {
        assert(input.subrange(0, j) =~= input);
        assert(whole.subrange(0, whole.len() as int) =~= whole);
    } else {
        lemma_bits_prefix(tree, input.drop_last(), j);
        assert(input.drop_last().subrange(0, j) =~= input.subrange(0, j));
        let part = huffman_bits(tree, input.subrange(0, j));
        let shorter = huffman_bits(tree, input.drop_last());
        assert(whole == shorter + code_of(tree, input.last()));
        assert(whole.subrange(0, part.len() as int) =~= shorter.subrange(0, part.len() as int));
    }
}

/// Decoding from the end of the codes of the first `j` bytes, with the
/// bytes from `j` on still owed, gives these bytes.
pub proof fn lemma_huff_decode(
    tree: Seq<LeafModel>,
    input: Seq<u8>,
    j: int,
    payload: Seq<u8>,
    lo: nat,
    hi: nat,
)
    requires
        0 <= j <= input.len(),
        prefix_free(tree),
        lo == shortest(tree, tree.len()),
        hi == longest(tree, tree.len()),
        forall|i: int| 0 <= i < tree.len() ==> (#[trigger] tree[i]).code.len() >= 1,
        forall|t: int| 0 <= t < input.len() ==> 0 <= slot(tree, #[trigger] input[t], tree.len()),
        byte_bits(payload, 0, huffman_bits(tree, input).len()) == huffman_bits(tree, input),
        huffman_bits(tree, input).len() <= 8 * payload.len(),
    ensures
        huff_text(
            tree,
            payload,
            lo,
            hi,
            huffman_bits(tree, input.subrange(0, j)).len() as int,
            lo,
            (input.len() - j) as nat,
        ) == input.subrange(j, input.len() as int),
    decreases input.len() - j,
{
    let whole = huffman_bits(tree, input);
    let done = huffman_bits(tree, input.subrange(0, j));
    let p = done.len() as int;
    if j == input.len() {
        assert(input.subrange(j, input.len() as int) =~= Seq::<u8>::empty());
    } else {
        let b = input[j];
        let k = slot(tree, b, tree.len());
        lemma_slot(tree, b, tree.len());
        let code = tree[k].code;
        let upto = input.subrange(0, j + 1);
        assert(upto.drop_last() =~= input.subrange(0, j));
        assert(upto.last() == b);
        let next = huffman_bits(tree, upto);
        assert(next == done + code);
        lemma_bits_prefix(tree, input, j + 1);
        lemma_length_bounds(tree, k, tree.len());
        assert(tree[k].code.len() >= 1);
        assert(byte_bits(payload, p, code.len()) =~= code) by {
            assert forall|t: int| 0 <= t < code.len() implies byte_bits(payload, p, code.len())[t]
                == code[t] by {
                assert(byte_bits(payload, 0, whole.len())[p + t] == whole[p + t]);
                assert(whole.subrange(0, next.len() as int)[p + t] == next[p + t]);
            }
        }
        assert(lo >= 1) by {
            lemma_shortest_is_some(tree, tree.len());
        }
        lemma_trials(tree, payload, lo, hi, p, lo, k, (input.len() - j) as nat);
        lemma_huff_decode(tree, input, j + 1, payload, lo, hi);
        assert(seq![b] + input.subrange(j + 1, input.len() as int) =~= input.subrange(
            j,
            input.len() as int,
        ));
    }
}

/// The shortest code length among the first `k` leaves is the length of one of them.
pub proof fn lemma_shortest_is_some(tree: Seq<LeafModel>, k: nat)
    requires
        1 <= k <= tree.len(),
    ensures
        exists|i: int| 0 <= i < k && shortest(tree, k) == (#[trigger] tree[i]).code.len(),
    decreases k,
{
    if k <= 1 {
        assert(shortest(tree, k) == tree[0].code.len());
    } else {
        lemma_shortest_is_some(tree, (k - 1) as nat);
        let i = choose|i: int|
            0 <= i < k - 1 && shortest(tree, (k - 1) as nat) == (#[trigger] tree[i]).code.len();
        if tree[k - 1].code.len() < shortest(tree, (k - 1) as nat) {
            assert(shortest(tree, k) == tree[k - 1].code.len());
        } else {
            assert(shortest(tree, k) == tree[i].code.len());
        }
    }
}

/// The number of bytes of `input` whose value is below `k`.
pub open spec fn count_below(input: Seq<u8>, k: nat) -> nat
    decreases k,
{
    if k == 0 {
        0
    } else {
        count_below(input, (k - 1) as nat) + count_in(input, (k - 1) as u8)
    }
}

/// One more byte at the end is one more byte below `k` exactly when its value is.
pub proof fn lemma_count_below_step(input: Seq<u8>, k: nat)
    requires
        input.len() > 0,
        k <= 256,
    ensures
        count_below(input, k) == count_below(input.drop_last(), k) + if input.last() < k {
            1nat
        } else {
            0nat
        },
    decreases k,
{
    if k > 0 {
        lemma_count_below_step(input, (k - 1) as nat);
    }
}

/// Every byte has a value below 256.
pub proof fn lemma_count_below_all(input: Seq<u8>)
    ensures
        count_below(input, 256) == input.len(),
    decreases input.len(),
{
    if input.len() == 0 {
        lemma_count_below_none(input, 256);
    } else {
        lemma_count_below_all(input.drop_last());
        lemma_count_below_step(input, 256);
    }
}

/// An empty input has no byte below anything.
pub proof fn lemma_count_below_none(input: Seq<u8>, k: nat)
    requires
        input.len() == 0,
    ensures
        count_below(input, k) == 0,
    decreases k,
{
    if k > 0 {
        lemma_count_below_none(input, (k - 1) as nat);
    }
}

/// The first `k` counts of the table of `input` add up to the number of its
/// bytes with a value below `k`.
pub proof fn lemma_histogram_prefix(input: Seq<u8>, k: nat)
    requires
        countable(input),
        k <= 256,
    ensures
        total_count(histogram(input).subrange(0, k as int)) == count_below(input, k),
    decreases k,
{
    let part = histogram(input).subrange(0, k as int);
    if k > 0 {
        lemma_histogram_prefix(input, (k - 1) as nat);
        assert(part.drop_last() =~= histogram(input).subrange(0, k - 1));
        assert(part.last() == count_in(input, (k - 1) as u8) as u16);
        assert(count_in(input, (k - 1) as u8) <= 0xffff);
    }
}

/// The counts of the table of `input` add up to the length of `input`.
pub proof fn lemma_histogram_total(input: Seq<u8>)
    requires
        countable(input),
    ensures
        total_count(histogram(input)) == input.len(),
{
    lemma_histogram_prefix(input, 256);
    lemma_count_below_all(input);
    assert(histogram(input).subrange(0, 256) =~= histogram(input));
}

/// The bits of the bytes of a word sequence are the bits of the words.
pub proof fn lemma_bytes_hold_bits(words: Seq<u64>, q: int)
    requires
        0 <= q < 64 * words.len(),
    ensures
        byte_bit(words_be_bytes(words), q) == word_bit(words, q),
{
    let w = words[q / 64];
    let k = (q % 64) as u64;
    lemma_bit_of_byte(w, k);
    let bytes = words_be_bytes(words);
    assert(bytes[q / 8] == be_byte(words[(q / 8) / 8], ((q / 8) % 8) as u64));
    assert((q / 8) / 8 == q / 64);
    assert((q / 8) % 8 == k / 8);
    assert(q % 8 == k % 8);
}

/// Round trip: the container that an input encodes to decodes to that input,
/// for every input in which at least two byte values occur and none more
/// often than a count can hold. The table of the container is the table of
/// the input, so the decoder builds the encoder's tree and reads as many
/// codes as the input has bytes; the zero bits behind the codes are not read.
pub proof fn lemma_huffman_round_trip(input: Seq<u8>)
    requires
        countable(input),
        initial_leaves(histogram(input)).len() >= 2,
    ensures
        encoded(input).len() >= 512,
        table_counts(encoded(input).subrange(0, 512)) == histogram(input),
        decoded(encoded(input)) == input,
{
    let table = histogram(input);
    let tree = huffman_tree(table);
    let bits = huffman_bits(tree, input);
    let words = packed_words(bits);
    let payload = words_be_bytes(words);
    let container = encoded(input);
    let lo = shortest(tree, tree.len());
    let hi = longest(tree, tree.len());
    assert(table_bytes(table).len() == 512);
    assert(container.subrange(0, 512) =~= table_bytes(table));
    assert(container.subrange(512, container.len() as int) =~= payload);
    lemma_table_round_trip(table);
    lemma_histogram_total(input);
    lemma_packing(bits);
    assert(byte_bits(payload, 0, bits.len()) =~= bits) by {
        assert forall|q: int| 0 <= q < bits.len() implies byte_bits(payload, 0, bits.len())[q]
            == bits[q] by {
            lemma_bytes_hold_bits(words, q);
            assert(bits_from(words, 0, bits.len())[q] == word_bit(words, q));
        }
    }
    lemma_finished_tree(table);
    assert forall|t: int| 0 <= t < input.len() implies 0 <= slot(tree, #[trigger] input[t], tree.len()) by {
        lemma_input_has_code(input, t);
    }
    lemma_huff_decode(tree, input, 0, payload, lo, hi);
    assert(input.subrange(0, 0) =~= Seq::<u8>::empty());
    assert(input.subrange(0, input.len() as int) =~= input);
}

} // verus!
