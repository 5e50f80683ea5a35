//! Frequency analysis: counting byte occurrences in an input buffer.

use vstd::prelude::*;

use crate::container::be64;

verus! {

/// How often the byte `b` occurs in `s`.
pub open spec fn count_of(s: Seq<u8>, b: u8) -> nat
    decreases s.len(),
{
    if s.len() == 0 {
        0
    } else {
        count_of(s.drop_last(), b) + (if s.last() == b {
            1nat
        } else {
            0nat
        })
    }
}

/// The frequency table of `s`: one count per byte value.
pub open spec fn spec_freqs(s: Seq<u8>) -> Seq<u64> {
    Seq::new(256, |b: int| count_of(s, b as u8) as u64)
}

/// The sum of all counts in a table.
pub open spec fn sum_counts(f: Seq<u64>) -> int
    decreases f.len(),
{
    if f.len() == 0 {
        0
    } else {
        sum_counts(f.drop_last()) + f.last()
    }
}

/// A count never exceeds the length of the buffer it was taken from.
pub proof fn lemma_count_le_len(s: Seq<u8>, b: u8)
    ensures
        count_of(s, b) <= s.len(),
    decreases s.len(),
{
    if s.len() > 0 {
        lemma_count_le_len(s.drop_last(), b);
    }
}

/// Every byte of a buffer has a positive count.
pub proof fn lemma_count_positive(s: Seq<u8>, i: int)
    requires
        0 <= i < s.len(),
    ensures
        count_of(s, s[i]) > 0,
    decreases s.len(),
{
    if i < s.len() - 1 {
        lemma_count_positive(s.drop_last(), i);
        assert(s.drop_last()[i] == s[i]);
    }
}

/// A byte that occurs nowhere in a buffer has count zero.
pub proof fn lemma_count_absent(s: Seq<u8>, b: u8)
    requires
        forall|k: int| 0 <= k < s.len() ==> s[k] != b,
    ensures
        count_of(s, b) == 0,
    decreases s.len(),
{
    if s.len() > 0 {
        lemma_count_absent(s.drop_last(), b);
    }
}

/// Raising one entry of a table raises the sum by the same amount.
proof fn lemma_sum_update(f: Seq<u64>, i: int, v: u64)
    requires
        0 <= i < f.len(),
    ensures
        sum_counts(f.update(i, v)) == sum_counts(f) - f[i] + v,
    decreases f.len(),
{
    if i == f.len() - 1 {
        assert(f.update(i, v).drop_last() =~= f.drop_last());
    } else {
        assert(f.update(i, v).drop_last() =~= f.drop_last().update(i, v));
        lemma_sum_update(f.drop_last(), i, v);
    }
}

/// The counts of a buffer partition it: they sum to its length.
pub proof fn lemma_sum_freqs(s: Seq<u8>)
    requires
        s.len() <= u64::MAX,
    ensures
        sum_counts(spec_freqs(s)) == s.len(),
    decreases s.len(),
{
    if s.len() == 0 {
        assert forall|b: int| 0 <= b < 256 implies spec_freqs(s)[b] == 0u64 by {}
        lemma_sum_zero(spec_freqs(s));
    } else {
        let t = s.drop_last();
        let x = s.last();
        lemma_sum_freqs(t);
        assert forall|b: int| 0 <= b < 256 && b != x implies spec_freqs(s)[b] == spec_freqs(t)[b] by {
            lemma_count_le_len(t, b as u8);
        }
        lemma_count_le_len(t, x);
        assert(spec_freqs(s)[x as int] == spec_freqs(t)[x as int] + 1);
        assert(spec_freqs(s) =~= spec_freqs(t).update(x as int, (count_of(t, x) + 1) as u64));
        lemma_sum_update(spec_freqs(t), x as int, (count_of(t, x) + 1) as u64);
    }
}

/// An all-zero table sums to zero.
proof fn lemma_sum_zero(f: Seq<u64>)
    requires
        forall|b: int| 0 <= b < f.len() ==> f[b] == 0u64,
    ensures
        sum_counts(f) == 0,
    decreases f.len(),
{
    if f.len() > 0 {
        lemma_sum_zero(f.drop_last());
    }
}

/// A table of byte-occurrence counts, indexed by byte value.
pub struct FrequencyTable {
    counts: Vec<u64>,
}

impl View for FrequencyTable {
    type V = Seq<u64>;

    closed spec fn view(&self) -> Seq<u64> {
        self.counts@
    }
}

impl FrequencyTable {
    /// The table holds one entry per byte value.
    pub open spec fn wf(&self) -> bool {
        self@.len() == 256
    }

    /// Count the occurrences of every byte value in `input`.
    pub fn count(input: &Vec<u8>) -> (r: FrequencyTable)
        ensures
            r.wf(),
            r@ == spec_freqs(input@),
            sum_counts(r@) == input@.len(),
    {
        let mut counts: Vec<u64> = Vec::new();
        let mut b: usize = 0;
        while b < 256
            invariant
                b <= 256,
                counts@.len() == b,
                forall|j: int| 0 <= j < b ==> counts@[j] == 0u64,
            decreases 256 - b,
        {
            counts.push(0);
            b = b + 1;
        }
        let mut i: usize = 0;
        while i < input.len()
            invariant
                i <= input@.len(),
                counts@.len() == 256,
                counts@ == spec_freqs(input@.take(i as int)),
            decreases input@.len() - i,
        {
            let x = input[i];
            proof {
                lemma_count_le_len(input@.take(i as int), x);
            }
            let c = counts[x as usize];
            counts[x as usize] = c + 1;
            proof {
                let pre = input@.take(i as int);
                let post = input@.take(i + 1);
                assert(post.drop_last() =~= pre);
                assert(post.last() == x);
                assert forall|b2: int| 0 <= b2 < 256 implies spec_freqs(post)[b2] == (if b2
                    == x as int {
                    spec_freqs(pre)[b2] + 1
                } else {
                    spec_freqs(pre)[b2] as int
                }) by {
                    lemma_count_le_len(pre, b2 as u8);
                }
                assert(counts@ =~= spec_freqs(post));
            }
            i = i + 1;
        }
        proof {
            assert(input@.take(input@.len() as int) =~= input@);
            lemma_sum_freqs(input@);
        }
        FrequencyTable { counts }
    }

    /// The recorded count for the byte `b`.
    pub fn get(&self, b: u8) -> (r: u64)
        requires
            self.wf(),
        ensures
            r == self@[b as int],
    {
        self.counts[b as usize]
    }
}

/// The serialized form of a table: for each byte value with a nonzero count,
/// in ascending byte order, the byte followed by its count, big-endian.
pub open spec fn book_bytes(f: Seq<u64>, b: int) -> Seq<u8>
    decreases b,
{
    if b <= 0 {
        Seq::empty()
    } else {
        book_bytes(f, b - 1) + (if f[b - 1] > 0 {
            seq![(b - 1) as u8] + be64(f[b - 1])
        } else {
            Seq::empty()
        })
    }
}

/// Serialize a frequency table: each byte value with a nonzero count, in
/// ascending order, followed by its big-endian count.
pub fn encodeBook(cb: &FrequencyTable) -> (r: Vec<u8>)
    requires
        cb.wf(),
    ensures
        r@ == book_bytes(cb@, 256),
{
    let mut out: Vec<u8> = Vec::new();
    let mut b: usize = 0;
    while b < 256
        invariant
            cb.wf(),
            b <= 256,
            out@ == book_bytes(cb@, b as int),
        decreases 256 - b,
    {
        let c = cb.get(b as u8);
        if c > 0 {
            out.push(b as u8);
            crate::container::push_be64(&mut out, c);
        }
        b = b + 1;
    }
    out
}

} // verus!
