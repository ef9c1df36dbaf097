//! A packed-bit container over 64-bit words.
//!
//! One buffer type serves two layouts. A *value* holds its bits right-justified,
//! as an ordinary big integer with the most significant word first. A *stream*
//! holds its bits left-justified, packed from the most significant bit of the
//! first word. In both layouts bit positions are counted from the most
//! significant bit of the first word.
use vstd::prelude::*;

verus! {

/// Number of bits in one storage word.
pub const WORD_BITS: usize = 64;

/// The bit of `w` at position `k`, counted from the most significant bit.
pub open spec fn bit_at(w: u64, k: u64) -> bool {
    (w >> ((63 - k) as u64)) & 1 == 1
}

/// The bit at position `p` of a word sequence read as one long bit string.
pub open spec fn word_bit(words: Seq<u64>, p: int) -> bool {
    bit_at(words[p / 64], (p % 64) as u64)
}

/// The `n` bits of `words` that start at position `start`.
pub open spec fn bits_from(words: Seq<u64>, start: int, n: nat) -> Seq<bool> {
    Seq::new(n, |i: int| word_bit(words, start + i))
}

/// A run of `n` zero words.
pub open spec fn zero_words(n: nat) -> Seq<u64> {
    Seq::new(n, |i: int| 0u64)
}

/// How many zero words must lead `len` stored words to hold `bit_count` bits.
pub open spec fn pad_words(len: nat, bit_count: nat) -> nat {
    if bit_count > len * 64 {
        ((bit_count - len * 64 + 63) / 64) as nat
    } else {
        0
    }
}

/// Joining the high part of `a` with the low part of `b` moves every bit `d`
/// positions toward the front.
pub proof fn lemma_shift_join(a: u64, b: u64, d: u64, k: u64)
    by (bit_vector)
    requires
        0 < d < 64,
        k < 64,
    ensures
        bit_at((a << d) | (b >> ((64 - d) as u64)), k) == (if k + d < 64 {
            bit_at(a, (k + d) as u64)
        } else {
            bit_at(b, (k + d - 64) as u64)
        }),
{
}

/// No bit of the zero word is set.
pub proof fn lemma_zero_word(k: u64)
    by (bit_vector)
    requires
        k < 64,
    ensures
        !bit_at(0u64, k),
{
}

/// Or-ing a right-shifted word into another sets exactly the shifted bits.
pub proof fn lemma_or_shifted(last: u64, w: u64, f: u64, k: u64)
    by (bit_vector)
    requires
        0 < f < 64,
        k < 64,
    ensures
        bit_at(last | (w >> f), k) == (bit_at(last, k) || (k >= f && bit_at(w, (k - f) as u64))),
{
}

/// Or-ing a single shifted bit into a word sets at most that one bit.
pub proof fn lemma_or_bit(w: u64, v: u64, sh: u64, k: u64)
    by (bit_vector)
    requires
        v <= 1,
        sh < 64,
        k < 64,
    ensures
        bit_at(w | (v << sh), k) == (bit_at(w, k) || (v == 1 && k == 63 - sh)),
{
}

/// A right shift moves every bit toward the end and clears the front.
pub proof fn lemma_shifted_right(w: u64, d: u64, k: u64)
    by (bit_vector)
    requires
        d < 64,
        k < 64,
    ensures
        bit_at(w >> d, k) == (k >= d && bit_at(w, (k - d) as u64)),
{
}

/// A left shift by any amount below the word size moves every bit toward the front.
pub proof fn lemma_shifted_front(w: u64, d: u64, k: u64)
    by (bit_vector)
    requires
        d < 64,
        k < 64,
    ensures
        bit_at(w << d, k) == (k + d < 64 && bit_at(w, (k + d) as u64)),
{
}

/// A bit of the union of two words is set when it is set in either.
pub proof fn lemma_or_bits(a: u64, b: u64, k: u64)
    by (bit_vector)
    requires
        k < 64,
    ensures
        bit_at(a | b, k) == (bit_at(a, k) || bit_at(b, k)),
{
}

/// The bit at position `p` once the first `placed` bits of `back` follow the
/// first `a` bits of `front`.
pub open spec fn merged_bit(front: Seq<u64>, back: Seq<u64>, a: int, placed: int, p: int) -> bool {
    if p < a {
        word_bit(front, p)
    } else {
        p - a < placed && word_bit(back, p - a)
    }
}

/// Two words that agree in every bit are the same word.
pub proof fn lemma_word_by_bits(a: u64, b: u64)
    by (bit_vector)
    requires
        bit_at(a, 0) == bit_at(b, 0) && bit_at(a, 1) == bit_at(b, 1) && bit_at(a, 2) == bit_at(b, 2) && bit_at(a, 3) == bit_at(b, 3) && bit_at(a, 4) == bit_at(b, 4) && bit_at(a, 5) == bit_at(b, 5) && bit_at(a, 6) == bit_at(b, 6) && bit_at(a, 7) == bit_at(b, 7) && bit_at(a, 8) == bit_at(b, 8) && bit_at(a, 9) == bit_at(b, 9) && bit_at(a, 10) == bit_at(b, 10) && bit_at(a, 11) == bit_at(b, 11) && bit_at(a, 12) == bit_at(b, 12) && bit_at(a, 13) == bit_at(b, 13) && bit_at(a, 14) == bit_at(b, 14) && bit_at(a, 15) == bit_at(b, 15) && bit_at(a, 16) == bit_at(b, 16) && bit_at(a, 17) == bit_at(b, 17) && bit_at(a, 18) == bit_at(b, 18) && bit_at(a, 19) == bit_at(b, 19) && bit_at(a, 20) == bit_at(b, 20) && bit_at(a, 21) == bit_at(b, 21) && bit_at(a, 22) == bit_at(b, 22) && bit_at(a, 23) == bit_at(b, 23) && bit_at(a, 24) == bit_at(b, 24) && bit_at(a, 25) == bit_at(b, 25) && bit_at(a, 26) == bit_at(b, 26) && bit_at(a, 27) == bit_at(b, 27) && bit_at(a, 28) == bit_at(b, 28) && bit_at(a, 29) == bit_at(b, 29) && bit_at(a, 30) == bit_at(b, 30) && bit_at(a, 31) == bit_at(b, 31) && bit_at(a, 32) == bit_at(b, 32) && bit_at(a, 33) == bit_at(b, 33) && bit_at(a, 34) == bit_at(b, 34) && bit_at(a, 35) == bit_at(b, 35) && bit_at(a, 36) == bit_at(b, 36) && bit_at(a, 37) == bit_at(b, 37) && bit_at(a, 38) == bit_at(b, 38) && bit_at(a, 39) == bit_at(b, 39) && bit_at(a, 40) == bit_at(b, 40) && bit_at(a, 41) == bit_at(b, 41) && bit_at(a, 42) == bit_at(b, 42) && bit_at(a, 43) == bit_at(b, 43) && bit_at(a, 44) == bit_at(b, 44) && bit_at(a, 45) == bit_at(b, 45) && bit_at(a, 46) == bit_at(b, 46) && bit_at(a, 47) == bit_at(b, 47) && bit_at(a, 48) == bit_at(b, 48) && bit_at(a, 49) == bit_at(b, 49) && bit_at(a, 50) == bit_at(b, 50) && bit_at(a, 51) == bit_at(b, 51) && bit_at(a, 52) == bit_at(b, 52) && bit_at(a, 53) == bit_at(b, 53) && bit_at(a, 54) == bit_at(b, 54) && bit_at(a, 55) == bit_at(b, 55) && bit_at(a, 56) == bit_at(b, 56) && bit_at(a, 57) == bit_at(b, 57) && bit_at(a, 58) == bit_at(b, 58) && bit_at(a, 59) == bit_at(b, 59) && bit_at(a, 60) == bit_at(b, 60) && bit_at(a, 61) == bit_at(b, 61) && bit_at(a, 62) == bit_at(b, 62) && bit_at(a, 63) == bit_at(b, 63),
    ensures
        a == b,
{
}

/// A packed sequence of bits: storage words and the number of bits in use.
#[derive(Debug, Clone, PartialEq, Eq)]
pub struct Bits {
    pub bits: Vec<u64>,
    pub size: usize,
}

impl Bits {
    /// The storage holds at least `size` bits and its bit capacity is addressable.
    pub open spec fn wf(&self) -> bool {
        self.size <= self.bits@.len() * 64 <= usize::MAX
    }

    /// Number of storage bits that are not in use.
    pub open spec fn spare(&self) -> int {
        self.bits@.len() * 64 - self.size
    }

    /// The bits of a left-justified buffer, first bit first.
    pub open spec fn stream_bits(&self) -> Seq<bool> {
        bits_from(self.bits@, 0, self.size as nat)
    }

    /// The bits of a right-justified buffer, most significant bit first.
    pub open spec fn value_bits(&self) -> Seq<bool> {
        bits_from(self.bits@, self.spare(), self.size as nat)
    }

    /// Every storage bit past the first `size` bits is zero.
    pub open spec fn tail_clear(&self) -> bool {
        forall|p: int| self.size <= p < self.bits@.len() * 64 ==> !word_bit(self.bits@, p)
    }

    /// Every storage bit ahead of the last `size` bits is zero.
    pub open spec fn head_clear(&self) -> bool {
        forall|p: int| 0 <= p < self.spare() ==> !word_bit(self.bits@, p)
    }

    /// A right-justified buffer with less than one spare word.
    pub open spec fn is_value(&self) -> bool {
        self.wf() && self.spare() < 64
    }

    /// A left-justified buffer with less than one spare word and clear padding.
    pub open spec fn is_stream(&self) -> bool {
        self.wf() && self.spare() < 64 && self.tail_clear()
    }

    /// `self` is the stream that holds the bits of the stream `front` followed
    /// by the bits of the value `back`.
    pub open spec fn appends(&self, front: Bits, back: Bits) -> bool {
        &&& self.size == front.size + back.size
        &&& self.stream_bits() == front.stream_bits() + back.value_bits()
        &&& self.is_stream()
    }

    /// Builds a right-justified value of `word_size` bits from `val`, adding
    /// leading zero words when `val` alone is too short to hold that many bits.
    pub fn new(val: Vec<u64>, word_size: usize) -> (r: Bits)
        requires
            val@.len() * 64 <= usize::MAX,
            word_size + 63 <= usize::MAX,
        ensures
            r.size == word_size,
            r.bits@ == zero_words(pad_words(val@.len(), word_size as nat)) + val@,
            r.wf(),
    {
        let available: usize = val.len() * WORD_BITS;
        if word_size <= available {
            proof {
                assert(zero_words(0) + val@ =~= val@);
            }
            return Bits { bits: val, size: word_size };
        }
        let pad: usize = (word_size - available + (WORD_BITS - 1)) / WORD_BITS;
        let mut padded: Vec<u64> = Vec::new();
        let mut i: usize = 0;
        while i < pad
            invariant
                i <= pad,
                padded@ == zero_words(i as nat),
            decreases pad - i,
        {
            padded.push(0u64);
            i += 1;
            proof {
                assert(padded@ =~= zero_words(i as nat));
            }
        }
        let mut j: usize = 0;
        while j < val.len()
            invariant
                j <= val.len(),
                padded@ == zero_words(pad as nat) + val@.subrange(0, j as int),
            decreases val.len() - j,
        {
            padded.push(val[j]);
            j += 1;
            proof {
                assert(padded@ =~= zero_words(pad as nat) + val@.subrange(0, j as int));
            }
        }
        proof {
            assert(val@.subrange(0, val@.len() as int) =~= val@);
        }
        Bits { bits: padded, size: word_size }
    }

    /// Realigns a right-justified value into left-justified form: every bit
    /// moves `unused()` positions toward the front and the freed tail is zero.
    pub fn shift_left(self) -> (r: Bits)
        requires
            self.is_value(),
        ensures
            r.size == self.size,
            r.bits@.len() == self.bits@.len(),
            r.stream_bits() == self.value_bits(),
            r.is_stream(),
    {
        let d: usize = self.unused();
        if d == 0 {
            assert(self.stream_bits() =~= self.value_bits());
            return self;
        }
        let n: usize = self.bits.len();
        let mut out: Vec<u64> = Vec::new();
        let mut i: usize = 0;
        while i < n
            invariant
                0 < d < 64,
                n == self.bits@.len(),
                n * 64 <= usize::MAX,
                i <= n,
                out@.len() == i,
                forall|w: int, k: u64|
                    0 <= w < i && k < 64 ==> #[trigger] bit_at(out@[w], k) == (64 * w + k + d < 64 * n
                        && word_bit(self.bits@, 64 * w + k + d)),
            decreases n - i,
        {
            let a: u64 = self.bits[i];
            let b: u64 = if i + 1 < n {
                self.bits[i + 1]
            } else {
                0u64
            };
            let joined: u64 = (a << (d as u64)) | (b >> ((64 - d) as u64));
            proof {
                assert forall|k: u64| k < 64 implies #[trigger] bit_at(joined, k) == (64 * i + k + d
                    < 64 * n && word_bit(self.bits@, 64 * i + k + d)) by {
                    lemma_shift_join(a, b, d as u64, k);
                    if k + d >= 64 {
                        lemma_zero_word((k + d - 64) as u64);
                    }
                }
            }
            out.push(joined);
            i += 1;
        }
        let r = Bits { bits: out, size: self.size };
        proof {
            assert forall|p: int| 0 <= p < n * 64 implies #[trigger] word_bit(r.bits@, p) == (p + d
                < 64 * n && word_bit(self.bits@, p + d)) by {
                let w = p / 64;
                let k = (p % 64) as u64;
                assert(bit_at(r.bits@[w], k) == (64 * w + k + d < 64 * n && word_bit(
                    self.bits@,
                    64 * w + k + d,
                )));
            }
            assert(r.stream_bits() =~= self.value_bits());
        }
        r
    }

    /// Appends the right-justified value `other` to the left-justified stream
    /// `self`. The result is a left-justified stream of the combined width.
    pub fn concat(self, other: Bits) -> (r: Bits)
        requires
            self.is_stream(),
            other.is_value(),
            self.size + other.size + 128 <= usize::MAX,
        ensures
            r.appends(self, other),
    {
        let combined: usize = self.size + other.size;
        let rem: usize = self.unused();
        let ghost front = self.bits@;
        let ghost a = self.size as int;
        let ghost head = self.stream_bits();
        let ghost tail = other.value_bits();
        let s = other.shift_left();
        let m: usize = s.bits.len();
        let mut words: Vec<u64> = self.bits;
        let len0: usize = words.len();
        if rem == 0 {
            let mut j: usize = 0;
            while j < m
                invariant
                    j <= m,
                    m == s.bits@.len(),
                    words@ == front + s.bits@.subrange(0, j as int),
                decreases m - j,
            {
                words.push(s.bits[j]);
                j += 1;
                proof {
                    assert(words@ =~= front + s.bits@.subrange(0, j as int));
                }
            }
            let r = Bits { bits: words, size: combined };
            proof {
                assert(s.bits@.subrange(0, m as int) =~= s.bits@);
                assert forall|p: int| 0 <= p < (len0 + m) * 64 implies #[trigger] word_bit(
                    r.bits@,
                    p,
                ) == merged_bit(front, s.bits@, a, 64 * m, p) by {
                    if p >= a {
                        assert(r.bits@[p / 64] == s.bits@[(p - a) / 64]);
                    }
                }
                assert(r.stream_bits() =~= head + tail);
            }
            return r;
        }
        let f: usize = 64 - rem;
        let mut j: usize = 0;
        proof {
            assert forall|x: int, k: u64| 0 <= x < len0 && k < 64 implies #[trigger] bit_at(
                words@[x],
                k,
            ) == merged_bit(front, s.bits@, a, 0, 64 * x + k) by {
                let p = 64 * x + k;
                assert(p / 64 == x && p % 64 == k);
                assert(word_bit(front, p) == bit_at(front[x], k));
            }
        }
        while j < m
            invariant
                0 < rem < 64,
                f == 64 - rem,
                j <= m,
                m == s.bits@.len(),
                len0 == front.len(),
                len0 > 0,
                a == 64 * len0 - rem,
                (len0 + m) * 64 <= usize::MAX,
                words@.len() == len0 + j,
                forall|x: int, k: u64|
                    0 <= x < len0 + j && k < 64 ==> #[trigger] bit_at(words@[x], k) == merged_bit(
                        front,
                        s.bits@,
                        a,
                        64 * j,
                        64 * x + k,
                    ),
            decreases m - j,
        {
            let w: u64 = s.bits[j];
            let last: u64 = words[len0 + j - 1];
            let joined: u64 = last | (w >> (f as u64));
            let pushed: u64 = w << (rem as u64);
            let ghost before = words@;
            words.set(len0 + j - 1, joined);
            words.push(pushed);
            proof {
                assert forall|x: int, k: u64| 0 <= x < len0 + j + 1 && k < 64 implies #[trigger] bit_at(
                    words@[x],
                    k,
                ) == merged_bit(front, s.bits@, a, 64 * (j + 1), 64 * x + k) by {
                    if x == len0 + j - 1 {
                        lemma_or_shifted(last, w, f as u64, k);
                        assert(bit_at(before[x], k) == merged_bit(front, s.bits@, a, 64 * j, 64 * x + k));
                    } else if x == len0 + j {
                        lemma_shifted_front(w, rem as u64, k);
                    } else {
                        assert(bit_at(before[x], k) == merged_bit(front, s.bits@, a, 64 * j, 64 * x + k));
                    }
                }
            }
            j += 1;
        }
        proof {
            assert forall|p: int| 0 <= p < (len0 + m) * 64 implies #[trigger] word_bit(words@, p)
                == merged_bit(front, s.bits@, a, 64 * m, p) by {
                let x = p / 64;
                let k = (p % 64) as u64;
                assert(bit_at(words@[x], k) == merged_bit(front, s.bits@, a, 64 * m, 64 * x + k));
            }
        }
        let ghost full = words@;
        if (len0 + m) * 64 - combined >= 64 {
            words.pop();
            proof {
                assert forall|p: int| 0 <= p < (len0 + m - 1) * 64 implies #[trigger] word_bit(
                    words@,
                    p,
                ) == word_bit(full, p) by {}
            }
        }
        let r = Bits { bits: words, size: combined };
        proof {
            assert(r.stream_bits() =~= head + tail);
        }
        r
    }

    /// Extends a right-justified value by one new most significant bit. A new
    /// leading word is allocated when the current leading word is full.
    pub fn push_from_left(&mut self, value: u64)
        requires
            old(self).is_value(),
            old(self).head_clear(),
            value <= 1,
            old(self).size + 64 <= usize::MAX,
        ensures
            final(self).size == old(self).size + 1,
            final(self).value_bits() == seq![value == 1] + old(self).value_bits(),
            final(self).is_value(),
            final(self).head_clear(),
    {
        let ghost before = self.bits@;
        let ghost spare0 = self.spare();
        let shift: usize = self.size % 64;
        if shift == 0 {
            self.bits.insert(0, 0u64);
        }
        let ghost grown = self.bits@;
        let ghost spare1 = grown.len() * 64 - self.size;
        proof {
            assert forall|p: int| 0 <= p < grown.len() * 64 implies #[trigger] word_bit(grown, p)
                == (p >= spare1 && word_bit(before, p - spare1 + spare0)) by {
                if shift == 0 {
                    if p < 64 {
                        lemma_zero_word((p % 64) as u64);
                    } else {
                        assert(grown[p / 64] == before[(p - 64) / 64]);
                    }
                } else if p < spare1 {
                    assert(!word_bit(before, p));
                }
            }
        }
        let first: u64 = self.bits[0];
        let marked: u64 = first | (value << (shift as u64));
        self.bits.set(0, marked);
        self.size += 1;
        proof {
            let after = self.bits@;
            assert(spare1 == 64 - shift) by {
                if shift == 0 {
                    assert(spare0 == 0);
                } else {
                    assert(spare0 == 64 - shift);
                }
            }
            assert(!word_bit(grown, spare1 - 1));
            assert forall|p: int| 0 <= p < after.len() * 64 implies #[trigger] word_bit(after, p)
                == (if p == spare1 - 1 {
                value == 1
            } else {
                word_bit(grown, p)
            }) by {
                if p < 64 {
                    lemma_or_bit(first, value, shift as u64, (p % 64) as u64);
                }
            }
            assert(self.value_bits() =~= seq![value == 1] + old(self).value_bits());
        }
    }

    /// Bit `j` of a right-justified value, counted from its most significant bit.
    pub fn value_bit(&self, j: usize) -> (r: bool)
        requires
            self.wf(),
            j < self.size,
        ensures
            r == self.value_bits()[j as int],
    {
        let q: usize = self.bits.len() * 64 - self.size + j;
        let w: u64 = self.bits[q / 64];
        let sh: u64 = (63 - q % 64) as u64;
        (w >> sh) & 1 == 1
    }

    /// A buffer with the same storage words and the same size.
    pub fn copy(&self) -> (r: Bits)
        ensures
            r.bits@ == self.bits@,
            r.size == self.size,
    {
        Bits { bits: self.bits.clone(), size: self.size }
    }

    /// Number of storage bits that are not in use.
    pub fn unused(&self) -> (r: usize)
        requires
            self.wf(),
        ensures
            r == self.spare(),
    {
        self.bits.len() * WORD_BITS - self.size
    }
}

/// `words` holds exactly `bits`, packed from the front, in as few words as
/// they need and with zeros behind them.
pub open spec fn is_packing(words: Seq<u64>, bits: Seq<bool>) -> bool {
    &&& 0 <= words.len() * 64 - bits.len() < 64
    &&& bits_from(words, 0, bits.len()) == bits
    &&& forall|p: int| bits.len() <= p < words.len() * 64 ==> !word_bit(words, p)
}

/// The bit of `bits` at position `q`, zero where `bits` has none.
pub open spec fn padded_bit(bits: Seq<bool>, q: int) -> bool {
    0 <= q < bits.len() && bits[q]
}

/// The word whose last `k` bits are the `k` bits of `bits` from position
/// `start` on, with zeros ahead of them.
pub open spec fn gather(bits: Seq<bool>, start: int, k: nat) -> u64
    decreases k,
{
    if k == 0 {
        0
    } else {
        (gather(bits, start, (k - 1) as nat) << 1) | (if padded_bit(bits, start + k - 1) {
            1u64
        } else {
            0u64
        })
    }
}

/// The words that hold `bits` packed from the front: as few words as the
/// bits need, each gathered from its 64 bits, with zeros behind the last bit.
pub open spec fn packed_words(bits: Seq<bool>) -> Seq<u64> {
    Seq::new(((bits.len() + 63) / 64) as nat, |i: int| gather(bits, 64 * i, 64))
}

/// Shifting a bit in at the end moves every bit one position toward the front.
pub proof fn lemma_shift_in(x: u64, c: u64, m: u64)
    by (bit_vector)
    requires
        c <= 1,
        m < 64,
    ensures
        bit_at((x << 1) | c, m) == (if m == 63 {
            c == 1
        } else {
            bit_at(x, (m + 1) as u64)
        }),
{
}

/// The bits of a gathered word are the bits it was gathered from.
pub proof fn lemma_gather(bits: Seq<bool>, start: int, k: nat, m: u64)
    requires
        k <= 64,
        m < 64,
    ensures
        bit_at(gather(bits, start, k), m) == (m >= 64 - k && padded_bit(bits, start + m - (64 - k))),
    decreases k,
{
    if k == 0 {
        lemma_zero_word(m);
    } else {
        let before = gather(bits, start, (k - 1) as nat);
        let c: u64 = if padded_bit(bits, start + k - 1) {
            1u64
        } else {
            0u64
        };
        lemma_shift_in(before, c, m);
        if m < 63 {
            lemma_gather(bits, start, (k - 1) as nat, (m + 1) as u64);
        }
    }
}

/// Every run of bits has a packing: its packed words.
pub proof fn lemma_packing(bits: Seq<bool>)
    ensures
        is_packing(packed_words(bits), bits),
        packed_words(bits).len() == (bits.len() + 63) / 64,
{
    let words = packed_words(bits);
    assert forall|q: int| 0 <= q < words.len() * 64 implies word_bit(words, q) == padded_bit(
        bits,
        q,
    ) by {
        lemma_gather(bits, 64 * (q / 64), 64, (q % 64) as u64);
    }
    assert(bits_from(words, 0, bits.len()) =~= bits);
}

/// A run of bits has one packing only.
pub proof fn lemma_packing_unique(x: Seq<u64>, y: Seq<u64>, bits: Seq<bool>)
    requires
        is_packing(x, bits),
        is_packing(y, bits),
    ensures
        x == y,
{
    let lx = x.len() as int;
    let ly = y.len() as int;
    assert(lx == ly);
    assert forall|p: int| 0 <= p < x.len() * 64 implies word_bit(x, p) == word_bit(y, p) by {
        if p < bits.len() {
            assert(bits_from(x, 0, bits.len())[p] == word_bit(x, p));
            assert(bits_from(y, 0, bits.len())[p] == word_bit(y, p));
        } else {
            assert(!word_bit(x, p));
            assert(!word_bit(y, p));
        }
    }
    assert forall|i: int| 0 <= i < x.len() implies x[i] == y[i] by {
        assert forall|k: u64| k < 64 implies bit_at(x[i], k) == bit_at(y[i], k) by {
            let p = 64 * i + k;
            assert(p / 64 == i && p % 64 == k);
            assert(word_bit(x, p) == word_bit(y, p));
        }
        lemma_word_by_bits(x[i], y[i]);
    }
    assert(x =~= y);
}

/// The storage of a stream is the packing of its bits.
pub proof fn lemma_packed(x: Bits)
    requires
        x.is_stream(),
    ensures
        is_packing(x.bits@, x.stream_bits()),
        packed_words(x.stream_bits()) == x.bits@,
{
    assert(x.stream_bits().len() == x.size);
    assert(is_packing(x.bits@, x.stream_bits()));
    lemma_packing(x.stream_bits());
    lemma_packing_unique(packed_words(x.stream_bits()), x.bits@, x.stream_bits());
}

/// A stream is determined by its bits: two streams with the same bits have
/// the same storage words.
pub proof fn lemma_stream_determined(x: Bits, y: Bits)
    requires
        x.is_stream(),
        y.is_stream(),
        x.stream_bits() == y.stream_bits(),
    ensures
        x.size == y.size,
        x.bits@ == y.bits@,
{
    assert(x.stream_bits().len() == x.size);
    assert(y.stream_bits().len() == y.size);
    lemma_packed(x);
    lemma_packed(y);
}

/// A value with nothing ahead of its bits is determined by its bits: two such
/// values with the same bits have the same storage words.
pub proof fn lemma_value_determined(x: Bits, y: Bits)
    requires
        x.is_value(),
        x.head_clear(),
        y.is_value(),
        y.head_clear(),
        x.value_bits() == y.value_bits(),
    ensures
        x.size == y.size,
        x.bits@ == y.bits@,
{
    assert(x.value_bits().len() == x.size);
    assert(y.value_bits().len() == y.size);
    let lx = x.bits@.len() as int;
    let ly = y.bits@.len() as int;
    assert(lx == ly);
    let spare = x.spare();
    assert forall|i: int| 0 <= i < x.bits@.len() implies x.bits@[i] == y.bits@[i] by {
        assert forall|k: u64| k < 64 implies bit_at(x.bits@[i], k) == bit_at(y.bits@[i], k) by {
            let p = 64 * i + k;
            assert(p / 64 == i && p % 64 == k);
            if p < spare {
                assert(!word_bit(x.bits@, p));
                assert(!word_bit(y.bits@, p));
            } else {
                assert(x.value_bits()[p - spare] == word_bit(x.bits@, p));
                assert(y.value_bits()[p - spare] == word_bit(y.bits@, p));
            }
        }
        lemma_word_by_bits(x.bits@[i], y.bits@[i]);
    }
    assert(x.bits@ =~= y.bits@);
}

/// Appending is associative on bit content: appending `b` and then `c` to the
/// stream `a` gives the same stream, word for word, as appending in one step a
/// value `bc` that holds the bits of `b` followed by the bits of `c`.
pub proof fn lemma_concat_associative(
    a: Bits,
    b: Bits,
    c: Bits,
    bc: Bits,
    ab: Bits,
    left: Bits,
    right: Bits,
)
    requires
        ab.appends(a, b),
        left.appends(ab, c),
        bc.size == b.size + c.size,
        bc.value_bits() == b.value_bits() + c.value_bits(),
        right.appends(a, bc),
    ensures
        left.stream_bits() == right.stream_bits(),
        left.size == right.size,
        left.bits@ == right.bits@,
{
    assert(left.stream_bits() =~= right.stream_bits());
    lemma_stream_determined(left, right);
}

/// Reads the `w` bits of `words` that start at bit position `pos` as one
/// right-justified word.
pub fn read_bits(words: &Vec<u64>, pos: usize, w: usize) -> (r: u64)
    requires
        1 <= w <= 64,
        pos + w <= words@.len() * 64,
        words@.len() * 64 <= usize::MAX,
    ensures
        bits_from(seq![r], 64 - w, w as nat) == bits_from(words@, pos as int, w as nat),
        forall|k: u64| k < 64 - w ==> !#[trigger] bit_at(r, k),
{
    let idx: usize = pos / 64;
    let off: usize = pos % 64;
    let s: usize = 64 - w;
    let hi: u64 = words[idx];
    let front: u64 = hi << (off as u64);
    let high: u64 = front >> (s as u64);
    let low: u64 = if off + w <= 64 {
        0u64
    } else {
        words[idx + 1] >> ((128 - off - w) as u64)
    };
    let r: u64 = high | low;
    proof {
        assert forall|k: u64| k < 64 implies #[trigger] bit_at(r, k) == (k >= s && word_bit(
            words@,
            pos + k - s,
        )) by {
            lemma_or_bits(high, low, k);
            lemma_shifted_right(front, s as u64, k);
            if k >= s {
                lemma_shifted_front(hi, off as u64, (k - s) as u64);
            }
            let q = pos + k - s;
            if off + w <= 64 {
                lemma_zero_word(k);
                if k >= s {
                    assert(q / 64 == idx && q % 64 == off + k - s);
                }
            } else {
                let t = (128 - off - w) as u64;
                lemma_shifted_right(words@[idx + 1], t, k);
                if k >= s {
                    if off + k - s < 64 {
                        assert(q / 64 == idx && q % 64 == off + k - s);
                    } else {
                        assert(q / 64 == idx + 1 && q % 64 == off + k - s - 64);
                    }
                }
            }
        }
        assert forall|j: int| 0 <= j < w implies bits_from(seq![r], 64 - w, w as nat)[j]
            == bits_from(words@, pos as int, w as nat)[j] by {
            assert(bit_at(r, (s + j) as u64) == word_bit(words@, pos + j));
        }
        assert(bits_from(seq![r], 64 - w, w as nat) =~= bits_from(words@, pos as int, w as nat));
    }
    r
}

} // verus!
