//! The code counter: a number of any size, held as 64-bit digits with the most
//! significant digit first, that grows by one digit exactly when it overflows.
use crate::bits::zero_words;
use vstd::prelude::*;

verus! {

/// The number of values that one digit can take.
pub open spec fn base() -> nat {
    0x1_0000_0000_0000_0000
}

/// The digits of `n`, most significant first, with no leading zero digit
/// (zero itself is the single digit zero).
pub open spec fn counter_words(n: nat) -> Seq<u64>
    decreases n,
{
    if n < base() {
        seq![n as u64]
    } else {
        counter_words(n / base()).push((n % base()) as u64)
    }
}

/// The digits after a ripple-carry increment: the last digit that is not at its
/// maximum goes up by one and every digit behind it falls to zero; if every
/// digit is at its maximum, a new leading digit one is added.
pub open spec fn ripple(s: Seq<u64>) -> Seq<u64>
    decreases s.len(),
{
    if s.len() == 0 {
        seq![1u64]
    } else if s.last() != u64::MAX {
        s.drop_last().push((s.last() + 1) as u64)
    } else {
        ripple(s.drop_last()).push(0u64)
    }
}

/// Counting up by one is a ripple-carry increment of the digits.
pub proof fn lemma_counter_step(n: nat)
    ensures
        counter_words(n + 1) == ripple(counter_words(n)),
    decreases n,
{
    let s = counter_words(n);
    if n + 1 < base() {
        assert(s.drop_last() =~= Seq::<u64>::empty());
        assert(ripple(s) =~= seq![(n + 1) as u64]);
    } else if n < base() {
        assert(s.drop_last() =~= Seq::<u64>::empty());
        assert(ripple(Seq::<u64>::empty()) =~= seq![1u64]);
        assert((n + 1) / base() == 1 && (n + 1) % base() == 0);
        assert(counter_words(1) =~= seq![1u64]);
        assert(counter_words(n + 1) =~= seq![1u64].push(0u64));
    } else {
        let q = n / base();
        let r = n % base();
        assert(s.drop_last() =~= counter_words(q));
        if r + 1 < base() {
            assert((n + 1) / base() == q && (n + 1) % base() == r + 1);
        } else {
            assert((n + 1) / base() == q + 1 && (n + 1) % base() == 0);
            lemma_counter_step(q);
        }
    }
}

/// Below the base a counter is its own single digit.
pub proof fn lemma_counter_single(n: nat)
    requires
        n < base(),
    ensures
        counter_words(n) == seq![n as u64],
{
}

/// When the digits from `i` on are all at their maximum, the increment carries
/// through them: they fall to zero and the digits ahead of them are incremented.
pub proof fn lemma_ripple_carries(s: Seq<u64>, i: int)
    requires
        0 <= i <= s.len(),
        forall|j: int| i <= j < s.len() ==> s[j] == u64::MAX,
    ensures
        ripple(s) == ripple(s.subrange(0, i)) + zero_words((s.len() - i) as nat),
    decreases s.len() - i,
{
    if i == s.len() {
        assert(s.subrange(0, i) =~= s);
        assert(ripple(s) + zero_words(0) =~= ripple(s));
    } else {
        let t = s.drop_last();
        lemma_ripple_carries(t, i);
        assert(t.subrange(0, i) =~= s.subrange(0, i));
        assert(ripple(t).push(0u64) =~= ripple(s.subrange(0, i)) + zero_words((s.len() - i) as nat));
    }
}

/// Increments the counter in place and returns the digits it had before.
pub fn advance(words: &mut Vec<u64>) -> (r: Vec<u64>)
    ensures
        r@ == old(words)@,
        final(words)@ == ripple(old(words)@),
{
    let before: Vec<u64> = words.clone();
    let ghost start = words@;
    let n: usize = words.len();
    let mut i: usize = n;
    let mut carry: bool = true;
    while carry && i > 0
        invariant
            i <= n,
            n == start.len(),
            words@.len() == n,
            carry ==> forall|j: int| 0 <= j < i ==> #[trigger] words@[j] == start[j],
            carry ==> forall|j: int| i <= j < n ==> #[trigger] start[j] == u64::MAX,
            carry ==> forall|j: int| i <= j < n ==> #[trigger] words@[j] == 0,
            !carry ==> words@ == ripple(start),
        decreases i + if carry { 1int } else { 0int },
    {
        i -= 1;
        let d: u64 = words[i];
        let ghost prev = words@;
        if d == u64::MAX {
            words.set(i, 0u64);
            assert forall|j: int| i <= j < n implies #[trigger] words@[j] == 0 by {
                if j > i {
                    assert(prev[j] == 0);
                }
            }
        } else {
            words.set(i, d + 1);
            carry = false;
            proof {
                lemma_ripple_carries(start, i + 1);
                let head = start.subrange(0, i + 1);
                assert(head.last() == d);
                assert(head.drop_last() =~= start.subrange(0, i as int));
                assert(ripple(head) =~= start.subrange(0, i as int).push((d + 1) as u64));
                let target = ripple(head) + zero_words((n - i - 1) as nat);
                assert forall|j: int| 0 <= j < n implies words@[j] == target[j] by {
                    if j > i {
                        assert(prev[j] == 0);
                        assert(target[j] == zero_words((n - i - 1) as nat)[j - i - 1]);
                    } else if j < i {
                        assert(prev[j] == start[j]);
                    }
                }
                assert(words@ =~= target);
            }
        }
    }
    if carry {
        proof {
            lemma_ripple_carries(start, 0);
            assert(start.subrange(0, 0) =~= Seq::<u64>::empty());
        }
        let ghost zeroed = words@;
        words.insert(0, 1u64);
        proof {
            let target = seq![1u64] + zero_words(n as nat);
            assert forall|j: int| 0 <= j < n + 1 implies words@[j] == target[j] by {
                if j > 0 {
                    assert(zeroed[j - 1] == 0);
                    assert(words@[j] == zeroed[j - 1]);
                    assert(target[j] == zero_words(n as nat)[j - 1]);
                }
            }
            assert(words@ =~= target);
        }
    }
    before
}

} // verus!
