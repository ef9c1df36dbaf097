//! Conversion between storage words and bytes, big-endian within each word.
use vstd::prelude::*;

verus! {

/// Byte `i` of `w`, counted from the most significant byte.
pub open spec fn be_byte(w: u64, i: u64) -> u8 {
    ((w >> ((56 - 8 * i) as u64)) & 0xff) as u8
}

/// The eight bytes of `w`, most significant first.
pub open spec fn word_be_bytes(w: u64) -> Seq<u8> {
    Seq::new(8, |i: int| be_byte(w, i as u64))
}

/// The eight bytes of `w`, least significant first.
pub open spec fn word_le_bytes(w: u64) -> Seq<u8> {
    Seq::new(8, |i: int| be_byte(w, (7 - i) as u64))
}

/// The word whose bytes, most significant first, are `b0` to `b7`.
pub open spec fn join8(b0: u8, b1: u8, b2: u8, b3: u8, b4: u8, b5: u8, b6: u8, b7: u8) -> u64 {
    (b0 as u64) << 56 | (b1 as u64) << 48 | (b2 as u64) << 40 | (b3 as u64) << 32 | (b4 as u64)
        << 24 | (b5 as u64) << 16 | (b6 as u64) << 8 | (b7 as u64)
}

/// The word spelled big-endian by the eight bytes of `bytes` from index `at`.
pub open spec fn be_word(bytes: Seq<u8>, at: int) -> u64 {
    join8(
        bytes[at],
        bytes[at + 1],
        bytes[at + 2],
        bytes[at + 3],
        bytes[at + 4],
        bytes[at + 5],
        bytes[at + 6],
        bytes[at + 7],
    )
}

/// The bytes of a word sequence, big-endian within each word.
pub open spec fn words_be_bytes(words: Seq<u64>) -> Seq<u8> {
    Seq::new(8 * words.len(), |i: int| be_byte(words[i / 8], (i % 8) as u64))
}

/// `bytes` followed by the fewest zero bytes that make its length a multiple of eight.
pub open spec fn pad_to_words(bytes: Seq<u8>) -> Seq<u8> {
    bytes + Seq::new(((8 - bytes.len() % 8) % 8) as nat, |i: int| 0u8)
}

/// The words spelled big-endian by a byte sequence, zero-padded to whole words.
pub open spec fn be_words(bytes: Seq<u8>) -> Seq<u64> {
    Seq::new(((bytes.len() + 7) / 8) as nat, |i: int| be_word(pad_to_words(bytes), 8 * i))
}

/// A bit of a word is the bit of the byte that holds it, both counted from
/// the most significant end.
pub proof fn lemma_bit_of_byte(w: u64, k: u64)
    by (bit_vector)
    requires
        k < 64,
    ensures
        ((w >> ((63 - k) as u64)) & 1 == 1) == ((be_byte(w, k / 8) >> ((7 - k % 8) as u8)) & 1 == 1),
{
}

/// Splitting a word into its bytes and joining them again gives the word back.
pub proof fn lemma_join_of_bytes(w: u64)
    by (bit_vector)
    ensures
        join8(
            be_byte(w, 0),
            be_byte(w, 1),
            be_byte(w, 2),
            be_byte(w, 3),
            be_byte(w, 4),
            be_byte(w, 5),
            be_byte(w, 6),
            be_byte(w, 7),
        ) == w,
{
}

/// Joining eight bytes into a word and splitting it again gives the bytes back.
pub proof fn lemma_bytes_of_join(b0: u8, b1: u8, b2: u8, b3: u8, b4: u8, b5: u8, b6: u8, b7: u8)
    by (bit_vector)
    ensures
        be_byte(join8(b0, b1, b2, b3, b4, b5, b6, b7), 0) == b0,
        be_byte(join8(b0, b1, b2, b3, b4, b5, b6, b7), 1) == b1,
        be_byte(join8(b0, b1, b2, b3, b4, b5, b6, b7), 2) == b2,
        be_byte(join8(b0, b1, b2, b3, b4, b5, b6, b7), 3) == b3,
        be_byte(join8(b0, b1, b2, b3, b4, b5, b6, b7), 4) == b4,
        be_byte(join8(b0, b1, b2, b3, b4, b5, b6, b7), 5) == b5,
        be_byte(join8(b0, b1, b2, b3, b4, b5, b6, b7), 6) == b6,
        be_byte(join8(b0, b1, b2, b3, b4, b5, b6, b7), 7) == b7,
{
}

/// The bytes that `bytemuck::cast` gives for a word: the word's own eight
/// bytes, in the byte order of the machine, which is one of the two orders.
#[verifier::external_body]
fn native_word_bytes(w: u64) -> (r: [u8; 8])
    ensures
        r@ == word_be_bytes(w) || r@ == word_le_bytes(w),
{
    bytemuck::cast::<u64, [u8; 8]>(w)
}

/// Byte `i` of `w`, counted from the most significant byte.
fn byte_of_word(w: u64, i: usize) -> (r: u8)
    requires
        i < 8,
    ensures
        r == be_byte(w, i as u64),
{
    let sh: u64 = (56 - 8 * i) as u64;
    let v: u64 = (w >> sh) & 0xff;
    assert(v <= 0xff) by (bit_vector)
        requires
            v == (w >> sh) & 0xff,
    ;
    v as u8
}

/// Whether `image` holds the bytes of `w` most significant first.
pub fn is_big_endian_image(w: u64, image: &[u8; 8]) -> (r: bool)
    ensures
        r == (image@ == word_be_bytes(w)),
{
    let mut i: usize = 0;
    while i < 8
        invariant
            i <= 8,
            forall|j: int| 0 <= j < i ==> image@[j] == be_byte(w, j as u64),
        decreases 8 - i,
    {
        if image[i] != byte_of_word(w, i) {
            assert(image@[i as int] != word_be_bytes(w)[i as int]);
            return false;
        }
        i += 1;
    }
    assert(image@ =~= word_be_bytes(w));
    true
}

/// The bytes of `words`, big-endian within each word.
pub fn words_to_bytes(words: &[u64]) -> (r: Vec<u8>)
    requires
        words@.len() * 8 <= usize::MAX,
    ensures
        r@ == words_be_bytes(words@),
        r@.len() == 8 * words@.len(),
        be_words(r@) == words@,
{
    let mut out: Vec<u8> = Vec::new();
    let mut x: usize = 0;
    while x < words.len()
        invariant
            x <= words@.len(),
            words@.len() * 8 <= usize::MAX,
            out@ == words_be_bytes(words@.subrange(0, x as int)),
        decreases words@.len() - x,
    {
        let w: u64 = words[x];
        let image: [u8; 8] = native_word_bytes(w);
        let forward: bool = is_big_endian_image(w, &image);
        let ghost before = out@;
        let mut i: usize = 0;
        while i < 8
            invariant
                i <= 8,
                forward == (image@ == word_be_bytes(w)),
                image@ == word_be_bytes(w) || image@ == word_le_bytes(w),
                out@ == before + word_be_bytes(w).subrange(0, i as int),
            decreases 8 - i,
        {
            let b: u8 = if forward {
                image[i]
            } else {
                image[7 - i]
            };
            assert(b == word_be_bytes(w)[i as int]) by {
                if !forward {
                    assert(image@[7 - i] == word_le_bytes(w)[7 - i]);
                }
            }
            out.push(b);
            i += 1;
            assert(out@ =~= before + word_be_bytes(w).subrange(0, i as int));
        }
        x += 1;
        assert(out@ =~= words_be_bytes(words@.subrange(0, x as int))) by {
            let cur = words@.subrange(0, x as int);
            let prev = words@.subrange(0, x - 1);
            assert forall|q: int| 0 <= q < 8 * x implies out@[q] == words_be_bytes(cur)[q] by {
                if q < 8 * (x - 1) {
                    assert(out@[q] == words_be_bytes(prev)[q]);
                    assert(prev[q / 8] == cur[q / 8]);
                } else {
                    assert(out@[q] == word_be_bytes(w)[q - 8 * (x - 1)]);
                    assert(cur[q / 8] == w);
                }
            }
        }
    }
    assert(words@.subrange(0, words@.len() as int) =~= words@);
    proof {
        lemma_words_round_trip(words@);
    }
    out
}

/// The word that `bytemuck::cast` gives for eight bytes: the word that has
/// them as its own bytes in the byte order of the machine, which is one of the
/// two orders.
#[verifier::external_body]
fn native_word_of_bytes(image: [u8; 8]) -> (r: u64)
    ensures
        word_be_bytes(r) == image@ || word_le_bytes(r) == image@,
{
    bytemuck::cast::<[u8; 8], u64>(image)
}

/// Byte `b` moved to byte position `i`, counted from the most significant byte.
fn place_byte(b: u8, i: usize) -> (r: u64)
    requires
        i < 8,
    ensures
        r == (b as u64) << ((56 - 8 * i) as u64),
{
    (b as u64) << ((56 - 8 * i) as u64)
}

/// The word spelled big-endian by `image`, assembled byte by byte.
fn join_bytes(image: &[u8; 8]) -> (r: u64)
    ensures
        r == be_word(image@, 0),
{
    let r: u64 = place_byte(image[0], 0) | place_byte(image[1], 1) | place_byte(image[2], 2)
        | place_byte(image[3], 3) | place_byte(image[4], 4) | place_byte(image[5], 5) | place_byte(
        image[6],
        6,
    ) | place_byte(image[7], 7);
    assert(r == be_word(image@, 0)) by {
        let b7 = image@[7];
        assert((b7 as u64) << 0u64 == b7 as u64) by (bit_vector);
    }
    r
}

/// The word spelled big-endian by `image`.
pub fn word_of_bytes(image: &[u8; 8]) -> (r: u64)
    ensures
        r == be_word(image@, 0),
{
    let reversed: [u8; 8] = [
        image[7],
        image[6],
        image[5],
        image[4],
        image[3],
        image[2],
        image[1],
        image[0],
    ];
    let w: u64 = native_word_of_bytes(reversed);
    if is_big_endian_image(w, image) {
        proof {
            lemma_join_of_bytes(w);
            assert forall|i: int| 0 <= i < 8 implies image@[i] == be_byte(w, i as u64) by {
                assert(image@[i] == word_be_bytes(w)[i]);
            }
        }
        w
    } else {
        join_bytes(image)
    }
}

/// The words spelled big-endian by `bytes`, after zero-padding to whole words.
pub fn bytes_to_words(bytes: Vec<u8>) -> (r: Vec<u64>)
    ensures
        r@ == be_words(bytes@),
        r@.len() == (bytes@.len() + 7) / 8,
        words_be_bytes(r@) == pad_to_words(bytes@),
{
    let len: usize = bytes.len();
    let full: usize = len / 8;
    let n: usize = if len % 8 == 0 {
        full
    } else {
        full + 1
    };
    let ghost padded = pad_to_words(bytes@);
    let mut out: Vec<u64> = Vec::new();
    let mut x: usize = 0;
    while x < n
        invariant
            x <= n,
            len == bytes@.len(),
            n == (len + 7) / 8,
            padded == pad_to_words(bytes@),
            out@.len() == x,
            forall|j: int| 0 <= j < x ==> out@[j] == be_word(padded, 8 * j),
        decreases n - x,
    {
        let mut image: [u8; 8] = [0u8; 8];
        let mut i: usize = 0;
        while i < 8
            invariant
                i <= 8,
                x < n,
                len == bytes@.len(),
                n == (len + 7) / 8,
                padded == pad_to_words(bytes@),
                forall|j: int| 0 <= j < i ==> image@[j] == padded[8 * x + j],
            decreases 8 - i,
        {
            let b: u8 = if 8 * x + i < len {
                bytes[8 * x + i]
            } else {
                0u8
            };
            image[i] = b;
            i += 1;
        }
        let w: u64 = word_of_bytes(&image);
        out.push(w);
        x += 1;
    }
    assert(out@ =~= be_words(bytes@));
    proof {
        lemma_bytes_round_trip(bytes@);
    }
    out
}

/// Writing words out as bytes and reading the bytes back gives the same
/// words, whatever number of their bits is in use.
pub proof fn lemma_words_round_trip(words: Seq<u64>)
    ensures
        be_words(words_be_bytes(words)) == words,
{
    let bytes = words_be_bytes(words);
    assert(pad_to_words(bytes) =~= bytes);
    assert forall|i: int| 0 <= i < words.len() implies be_words(bytes)[i] == words[i] by {
        let w = words[i];
        lemma_join_of_bytes(w);
        assert(bytes[8 * i] == be_byte(w, 0));
        assert(bytes[8 * i + 1] == be_byte(w, 1));
        assert(bytes[8 * i + 2] == be_byte(w, 2));
        assert(bytes[8 * i + 3] == be_byte(w, 3));
        assert(bytes[8 * i + 4] == be_byte(w, 4));
        assert(bytes[8 * i + 5] == be_byte(w, 5));
        assert(bytes[8 * i + 6] == be_byte(w, 6));
        assert(bytes[8 * i + 7] == be_byte(w, 7));
    }
    assert(be_words(bytes) =~= words);
}

/// Reading bytes in as words and writing the words back gives the bytes
/// again, followed by the zero bytes that filled the last word.
pub proof fn lemma_bytes_round_trip(bytes: Seq<u8>)
    ensures
        words_be_bytes(be_words(bytes)) == pad_to_words(bytes),
{
    let padded = pad_to_words(bytes);
    let words = be_words(bytes);
    assert forall|q: int| 0 <= q < 8 * words.len() implies words_be_bytes(words)[q] == padded[q] by {
        let i = q / 8;
        lemma_bytes_of_join(
            padded[8 * i],
            padded[8 * i + 1],
            padded[8 * i + 2],
            padded[8 * i + 3],
            padded[8 * i + 4],
            padded[8 * i + 5],
            padded[8 * i + 6],
            padded[8 * i + 7],
        );
    }
    assert(words_be_bytes(words) =~= padded);
}

/// The less significant byte of a count.
pub open spec fn low_byte(n: u16) -> u8 {
    (n & 0xff) as u8
}

/// The more significant byte of a count.
pub open spec fn high_byte(n: u16) -> u8 {
    (n >> 8) as u8
}

/// The count with less significant byte `lo` and more significant byte `hi`.
pub open spec fn join2(lo: u8, hi: u8) -> u16 {
    (hi as u16) << 8 | (lo as u16)
}

/// The bytes of a table of counts, each count as two bytes with the less
/// significant byte first.
pub open spec fn table_bytes(counts: Seq<u16>) -> Seq<u8> {
    Seq::new(
        2 * counts.len(),
        |i: int|
            if i % 2 == 0 {
                low_byte(counts[i / 2])
            } else {
                high_byte(counts[i / 2])
            },
    )
}

/// The counts that a run of bytes spells, two bytes to a count with the less
/// significant byte first.
pub open spec fn table_counts(bytes: Seq<u8>) -> Seq<u16> {
    Seq::new(bytes.len() / 2, |i: int| join2(bytes[2 * i], bytes[2 * i + 1]))
}

/// Splitting a count into two bytes and joining them gives the count back,
/// and the other way round.
pub proof fn lemma_count_bytes(n: u16, lo: u8, hi: u8)
    by (bit_vector)
    ensures
        join2(low_byte(n), high_byte(n)) == n,
        low_byte(join2(lo, hi)) == lo,
        high_byte(join2(lo, hi)) == hi,
{
}

/// A table that is written out as bytes and read back is the same table.
pub proof fn lemma_table_round_trip(counts: Seq<u16>)
    ensures
        table_counts(table_bytes(counts)) == counts,
{
    let bytes = table_bytes(counts);
    assert forall|i: int| 0 <= i < counts.len() implies table_counts(bytes)[i] == counts[i] by {
        lemma_count_bytes(counts[i], 0, 0);
        assert(bytes[2 * i] == low_byte(counts[i]));
        assert(bytes[2 * i + 1] == high_byte(counts[i]));
    }
    assert(table_counts(bytes) =~= counts);
}

/// The bytes that `bytemuck::cast` gives for a count: its own two bytes, in
/// the byte order of the machine, which is one of the two orders.
#[verifier::external_body]
fn native_count_bytes(n: u16) -> (r: [u8; 2])
    ensures
        r@ == seq![low_byte(n), high_byte(n)] || r@ == seq![high_byte(n), low_byte(n)],
{
    bytemuck::cast::<u16, [u8; 2]>(n)
}

/// The count that `bytemuck::cast` gives for two bytes: the count that has
/// them as its own bytes in the byte order of the machine, which is one of
/// the two orders.
#[verifier::external_body]
fn native_count_of_bytes(image: [u8; 2]) -> (r: u16)
    ensures
        (low_byte(r) == image@[0] && high_byte(r) == image@[1]) || (high_byte(r) == image@[0]
            && low_byte(r) == image@[1]),
{
    bytemuck::cast::<[u8; 2], u16>(image)
}

/// The two bytes of a count.
fn split_count(n: u16) -> (r: (u8, u8))
    ensures
        r.0 == low_byte(n),
        r.1 == high_byte(n),
{
    let lo: u16 = n & 0xff;
    let hi: u16 = n >> 8;
    assert(lo <= 0xff && hi <= 0xff) by (bit_vector)
        requires
            lo == n & 0xff,
            hi == n >> 8,
    ;
    (lo as u8, hi as u8)
}

/// The two bytes of a count, less significant byte first.
pub fn count_to_bytes(n: u16) -> (r: [u8; 2])
    ensures
        r@ == seq![low_byte(n), high_byte(n)],
{
    let image: [u8; 2] = native_count_bytes(n);
    let parts = split_count(n);
    if image[0] == parts.0 && image[1] == parts.1 {
        assert(image@ =~= seq![low_byte(n), high_byte(n)]);
        image
    } else {
        let swapped: [u8; 2] = [image[1], image[0]];
        assert(swapped@ =~= seq![low_byte(n), high_byte(n)]);
        swapped
    }
}

/// The count spelled by two bytes, less significant byte first.
pub fn count_of_bytes(lo: u8, hi: u8) -> (r: u16)
    ensures
        r == join2(lo, hi),
{
    let n: u16 = native_count_of_bytes([lo, hi]);
    let parts = split_count(n);
    if parts.0 == lo && parts.1 == hi {
        proof {
            lemma_count_bytes(n, lo, hi);
        }
        n
    } else {
        (hi as u16) << 8 | (lo as u16)
    }
}

/// The bytes of a table of counts.
pub fn table_to_bytes(counts: &Vec<u16>) -> (r: Vec<u8>)
    requires
        counts@.len() * 2 <= usize::MAX,
    ensures
        r@ == table_bytes(counts@),
{
    let mut out: Vec<u8> = Vec::new();
    let mut i: usize = 0;
    while i < counts.len()
        invariant
            i <= counts@.len(),
            out@.len() == 2 * i,
            forall|q: int| 0 <= q < 2 * i ==> out@[q] == table_bytes(counts@)[q],
        decreases counts@.len() - i,
    {
        let pair: [u8; 2] = count_to_bytes(counts[i]);
        out.push(pair[0]);
        out.push(pair[1]);
        i += 1;
    }
    assert(out@ =~= table_bytes(counts@));
    out
}

/// The table of counts spelled by the first `2 * n` bytes of `bytes`.
pub fn table_from_bytes(bytes: &[u8], n: usize) -> (r: Vec<u16>)
    requires
        2 * n <= bytes@.len(),
    ensures
        r@ == table_counts(bytes@.subrange(0, 2 * n)),
{
    let mut out: Vec<u16> = Vec::new();
    let mut i: usize = 0;
    let ghost table = bytes@.subrange(0, 2 * n);
    let len: usize = bytes.len();
    while i < n
        invariant
            i <= n,
            2 * n <= bytes@.len(),
            len == bytes@.len(),
            table == bytes@.subrange(0, 2 * n),
            out@.len() == i,
            forall|q: int| 0 <= q < i ==> out@[q] == table_counts(table)[q],
        decreases n - i,
    {
        let c: u16 = count_of_bytes(bytes[2 * i], bytes[2 * i + 1]);
        out.push(c);
        i += 1;
    }
    assert(out@ =~= table_counts(table));
    out
}

} // verus!
