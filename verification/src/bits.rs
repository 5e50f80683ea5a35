//! Bit-level packing: a sequence of bits is stored MSB-first in bytes, the
//! final byte zero-padded.

use vstd::prelude::*;

verus! {

/// Bit `j` (0 = most significant) of the byte `x`.
pub open spec fn u8_bit(x: u8, j: int) -> bool {
    (x >> ((7 - j) as u8)) & 1 == 1
}

/// The bit at position `i` of a byte sequence, MSB-first within each byte.
pub open spec fn bit_at(bytes: Seq<u8>, i: int) -> bool {
    u8_bit(bytes[i / 8], i % 8)
}

/// The first `n` bits of a byte sequence, MSB-first.
pub open spec fn unpacked_bits(bytes: Seq<u8>, n: nat) -> Seq<bool> {
    Seq::new(n, |i: int| bit_at(bytes, i))
}

/// The eight bits of `x`, most significant first.
pub open spec fn byte_bits(x: u8) -> Seq<bool> {
    Seq::new(8, |j: int| u8_bit(x, j))
}

/// 1 if bit `i` of `bits` exists and is set, 0 otherwise.
pub open spec fn bitv(bits: Seq<bool>, i: int) -> u8 {
    if 0 <= i < bits.len() && bits[i] {
        1
    } else {
        0
    }
}

/// The byte formed from the first eight bits of `bits` (MSB first);
/// missing bits read as 0, so a short tail is zero-padded.
pub open spec fn byte_of_bits(bits: Seq<bool>) -> u8 {
    (128 * bitv(bits, 0) + 64 * bitv(bits, 1) + 32 * bitv(bits, 2) + 16 * bitv(bits, 3) + 8 * bitv(
        bits,
        4,
    ) + 4 * bitv(bits, 5) + 2 * bitv(bits, 6) + bitv(bits, 7)) as u8
}

/// Packing a bit sequence: `ceil(len / 8)` bytes, MSB-first, the final byte
/// zero-padded.
pub open spec fn spec_pack(bits: Seq<bool>) -> Seq<u8> {
    Seq::new(((bits.len() + 7) / 8) as nat, |k: int| byte_of_bits(bits.skip(8 * k)))
}

/// Reassembling a byte from its eight extracted bits gives the byte back.
proof fn lemma_byte_extract(c0: u8, c1: u8, c2: u8, c3: u8, c4: u8, c5: u8, c6: u8, c7: u8, x: u8)
    requires
        c0 <= 1 && c1 <= 1 && c2 <= 1 && c3 <= 1 && c4 <= 1 && c5 <= 1 && c6 <= 1 && c7 <= 1,
        x == (128 * c0 + 64 * c1 + 32 * c2 + 16 * c3 + 8 * c4 + 4 * c5 + 2 * c6 + c7) as u8,
    ensures
        (x >> 7u8) & 1 == c0,
        (x >> 6u8) & 1 == c1,
        (x >> 5u8) & 1 == c2,
        (x >> 4u8) & 1 == c3,
        (x >> 3u8) & 1 == c4,
        (x >> 2u8) & 1 == c5,
        (x >> 1u8) & 1 == c6,
        (x >> 0u8) & 1 == c7,
{
    assert((x >> 7u8) & 1 == c0 && (x >> 6u8) & 1 == c1 && (x >> 5u8) & 1 == c2 && (x >> 4u8) & 1
        == c3 && (x >> 3u8) & 1 == c4 && (x >> 2u8) & 1 == c5 && (x >> 1u8) & 1 == c6 && (x >> 0u8)
        & 1 == c7) by (bit_vector)
        requires
            c0 <= 1 && c1 <= 1 && c2 <= 1 && c3 <= 1 && c4 <= 1 && c5 <= 1 && c6 <= 1 && c7 <= 1,
            x == (128 * c0 + 64 * c1 + 32 * c2 + 16 * c3 + 8 * c4 + 4 * c5 + 2 * c6 + c7) as u8,
    ;
}

/// Extracting bit `j` of the byte formed from up to eight bits gives bit `j`.
pub proof fn lemma_byte_of_bits_bit(bits: Seq<bool>, j: int)
    requires
        0 <= j < 8,
        j < bits.len(),
    ensures
        u8_bit(byte_of_bits(bits), j) == bits[j],
{
    let x = byte_of_bits(bits);
    lemma_byte_extract(
        bitv(bits, 0),
        bitv(bits, 1),
        bitv(bits, 2),
        bitv(bits, 3),
        bitv(bits, 4),
        bitv(bits, 5),
        bitv(bits, 6),
        bitv(bits, 7),
        x,
    );
    assert((7 - j) as u8 == 7 - j);
}

/// Reassembling a byte from its own eight bits gives the byte back.
pub proof fn lemma_byte_of_byte_bits(x: u8)
    ensures
        byte_of_bits(byte_bits(x)) == x,
{
    let b = byte_bits(x);
    assert forall|j: int| 0 <= j < 8 implies bitv(b, j) == (x >> ((7 - j) as u8)) & 1 by {
        let sh = (7 - j) as u8;
        assert((x >> sh) & 1 <= 1) by (bit_vector);
    }
    assert((7 - 0) as u8 == 7u8 && (7 - 1) as u8 == 6u8 && (7 - 2) as u8 == 5u8 && (7 - 3) as u8
        == 4u8 && (7 - 4) as u8 == 3u8 && (7 - 5) as u8 == 2u8 && (7 - 6) as u8 == 1u8 && (7
        - 7) as u8 == 0u8);
    assert(128 * ((x >> 7u8) & 1) + 64 * ((x >> 6u8) & 1) + 32 * ((x >> 5u8) & 1) + 16 * ((x >> 4u8)
        & 1) + 8 * ((x >> 3u8) & 1) + 4 * ((x >> 2u8) & 1) + 2 * ((x >> 1u8) & 1) + ((x >> 0u8) & 1)
        == x) by (bit_vector);
}

/// Packing then reading bit `i` gives bit `i` back.
pub proof fn lemma_pack_bit_at(bits: Seq<bool>, i: int)
    requires
        0 <= i < bits.len(),
    ensures
        spec_pack(bits).len() == (bits.len() + 7) / 8,
        0 <= i / 8 < spec_pack(bits).len(),
        bit_at(spec_pack(bits), i) == bits[i],
{
    let k = i / 8;
    let r = i % 8;
    assert(8 * k + r == i && 0 <= r < 8);
    assert(k < (bits.len() + 7) / 8);
    let chunk = bits.skip(8 * k);
    assert(chunk[r] == bits[i]);
    lemma_byte_of_bits_bit(chunk, r);
    assert(spec_pack(bits)[k] == byte_of_bits(chunk));
}

/// The whole prefix comes back: unpacking a packed sequence restores it.
pub proof fn lemma_unpack_pack(bits: Seq<bool>, n: nat)
    requires
        bits.len() <= n,
        n <= 8 * spec_pack(bits).len(),
    ensures
        unpacked_bits(spec_pack(bits), n).subrange(0, bits.len() as int) == bits,
{
    let u = unpacked_bits(spec_pack(bits), n).subrange(0, bits.len() as int);
    assert forall|i: int| 0 <= i < bits.len() implies u[i] == bits[i] by {
        lemma_pack_bit_at(bits, i);
    }
    assert(u =~= bits);
}

/// 1 if bit `base + j` of `bits` exists and is set, 0 otherwise.
fn bit_in(bits: &Vec<bool>, base: u64, j: u64) -> (r: u8)
    requires
        j < 8,
    ensures
        r == bitv(bits@, base + j),
        r <= 1,
{
    let n: u64 = bits.len() as u64;
    if base < n && j < n - base {
        if bits[(base + j) as usize] {
            1
        } else {
            0
        }
    } else {
        0
    }
}

/// Pack a bit sequence into bytes, MSB-first, zero-padding the final byte.
pub fn pack_bits(bits: &Vec<bool>) -> (r: Vec<u8>)
    ensures
        r@ == spec_pack(bits@),
{
    let n: u64 = bits.len() as u64;
    let nbytes: u64 = n / 8 + (if n % 8 == 0 {
        0
    } else {
        1
    });
    assert(nbytes == (bits@.len() + 7) / 8);
    let mut out: Vec<u8> = Vec::new();
    let mut k: u64 = 0;
    while k < nbytes
        invariant
            nbytes == (bits@.len() + 7) / 8,
            n == bits@.len(),
            k <= nbytes,
            out@.len() == k,
            forall|m: int| 0 <= m < k ==> out@[m] == byte_of_bits(bits@.skip(8 * m)),
        decreases nbytes - k,
    {
        assert(8 * k <= n - 1) by {
            assert(8 * nbytes <= n + 7);
        }
        let base: u64 = 8 * k;
        let c0 = bit_in(bits, base, 0);
        let c1 = bit_in(bits, base, 1);
        let c2 = bit_in(bits, base, 2);
        let c3 = bit_in(bits, base, 3);
        let c4 = bit_in(bits, base, 4);
        let c5 = bit_in(bits, base, 5);
        let c6 = bit_in(bits, base, 6);
        let c7 = bit_in(bits, base, 7);
        let x: u8 = 128 * c0 + 64 * c1 + 32 * c2 + 16 * c3 + 8 * c4 + 4 * c5 + 2 * c6 + c7;
        proof {
            let chunk = bits@.skip(8 * k);
            assert forall|j: int| 0 <= j < 8 implies bitv(chunk, j) == bitv(bits@, 8 * k + j) by {
                if 0 <= 8 * k + j < bits@.len() {
                    assert(chunk[j] == bits@[8 * k + j]);
                }
            }
            assert(x == byte_of_bits(chunk));
        }
        out.push(x);
        k = k + 1;
    }
    proof {
        assert(out@ =~= spec_pack(bits@));
    }
    out
}

/// Unpack the bits of `bytes[start..end]`, MSB-first.
pub fn unpack_range(bytes: &Vec<u8>, start: usize, end: usize) -> (r: Vec<bool>)
    requires
        start <= end <= bytes@.len(),
    ensures
        r@ == unpacked_bits(bytes@.subrange(start as int, end as int), 8 * ((end - start) as nat)),
{
    let section = Ghost(bytes@.subrange(start as int, end as int));
    let mut out: Vec<bool> = Vec::new();
    let mut i: usize = start;
    while i < end
        invariant
            start <= i <= end <= bytes@.len(),
            section@ == bytes@.subrange(start as int, end as int),
            out@.len() == 8 * (i - start),
            forall|m: int| 0 <= m < out@.len() ==> out@[m] == bit_at(section@, m),
        decreases end - i,
    {
        let x = bytes[i];
        let mut j: u8 = 0;
        while j < 8
            invariant
                start <= i < end <= bytes@.len(),
                section@ == bytes@.subrange(start as int, end as int),
                x == section@[i - start],
                j <= 8,
                out@.len() == 8 * (i - start) + j,
                forall|m: int| 0 <= m < out@.len() ==> out@[m] == bit_at(section@, m),
            decreases 8 - j,
        {
            let b: bool = (x >> (7 - j)) & 1 == 1;
            proof {
                let m = 8 * (i - start) + j;
                assert(m / 8 == i - start && m % 8 == j);
                assert(b == bit_at(section@, m as int));
            }
            out.push(b);
            j = j + 1;
        }
        i = i + 1;
    }
    proof {
        let section_bits = unpacked_bits(section@, 8 * ((end - start) as nat));
        assert(out@ =~= section_bits);
    }
    out
}

} // verus!
