//! The self-describing container framing: magic tag, tree-section length,
//! serialized tree, original symbol count, packed code bits.

use vstd::prelude::*;

use crate::HuffError;
use crate::bits::pack_bits;
use crate::bits::spec_pack;
use crate::bits::unpack_range;
use crate::bits::unpacked_bits;
use crate::codebook::CodeBook;
use crate::codebook::decode_syms;
use crate::codebook::enc_bits;
use crate::codebook::full_code;
use crate::codebook::walk;
use crate::codebook::walk_exec;
use crate::freq::FrequencyTable;
use crate::freq::lemma_count_positive;
use crate::freq::spec_freqs;
use crate::tree::Node;
use crate::tree::buildTree;
use crate::tree::has_nonzero;
use crate::tree::lemma_build_size;
use crate::tree::lemma_ser_len;
use crate::tree::parse_node;
use crate::tree::ser_tree;
use crate::tree::serialize_into;
use crate::tree::spec_build;
use crate::tree::spec_parse;

verus! {

/// The two-byte magic tag that opens every container.
pub open spec fn magic() -> Seq<u8> {
    seq![72u8, 70u8]
}

/// The four bytes of `x`, big-endian.
pub open spec fn be32(x: u64) -> Seq<u8>
    recommends
        x <= u32::MAX,
{
    seq![
        ((x / 0x1000000) % 256) as u8,
        ((x / 0x10000) % 256) as u8,
        ((x / 0x100) % 256) as u8,
        (x % 256) as u8,
    ]
}

/// The value of four big-endian bytes.
pub open spec fn be32_val(s: Seq<u8>) -> int
    recommends
        s.len() == 4,
{
    s[0] * 0x1000000 + s[1] * 0x10000 + s[2] * 0x100 + s[3]
}

/// The eight bytes of `x`, big-endian.
pub open spec fn be64(x: u64) -> Seq<u8> {
    seq![
        ((x / 0x100000000000000) % 256) as u8,
        ((x / 0x1000000000000) % 256) as u8,
        ((x / 0x10000000000) % 256) as u8,
        ((x / 0x100000000) % 256) as u8,
        ((x / 0x1000000) % 256) as u8,
        ((x / 0x10000) % 256) as u8,
        ((x / 0x100) % 256) as u8,
        (x % 256) as u8,
    ]
}

/// The value of eight big-endian bytes.
pub open spec fn be64_val(s: Seq<u8>) -> int
    recommends
        s.len() == 8,
{
    s[0] * 0x100000000000000 + s[1] * 0x1000000000000 + s[2] * 0x10000000000 + s[3] * 0x100000000
        + s[4] * 0x1000000 + s[5] * 0x10000 + s[6] * 0x100 + s[7]
}

/// Writing four big-endian bytes and reading them back gives the value back.
pub proof fn lemma_be32_roundtrip(x: u64)
    requires
        x <= u32::MAX,
    ensures
        be32(x).len() == 4,
        be32_val(be32(x)) == x,
{
    assert(((x / 0x1000000) % 256) * 0x1000000 + ((x / 0x10000) % 256) * 0x10000 + ((x / 0x100)
        % 256) * 0x100 + (x % 256) == x) by (bit_vector)
        requires
            x <= 0xffffffffu64,
    ;
}

/// Writing eight big-endian bytes and reading them back gives the value back.
pub proof fn lemma_be64_roundtrip(x: u64)
    ensures
        be64(x).len() == 8,
        be64_val(be64(x)) == x,
{
    assert(((x / 0x100000000000000) % 256) * 0x100000000000000 + ((x / 0x1000000000000) % 256)
        * 0x1000000000000 + ((x / 0x10000000000) % 256) * 0x10000000000 + ((x / 0x100000000) % 256)
        * 0x100000000 + ((x / 0x1000000) % 256) * 0x1000000 + ((x / 0x10000) % 256) * 0x10000 + ((x
        / 0x100) % 256) * 0x100 + (x % 256) == x) by (bit_vector);
}

/// Append the four big-endian bytes of `x`.
pub fn push_be32(out: &mut Vec<u8>, x: u64)
    requires
        x <= u32::MAX,
    ensures
        final(out)@ == old(out)@ + be32(x),
{
    out.push(((x / 0x1000000) % 256) as u8);
    out.push(((x / 0x10000) % 256) as u8);
    out.push(((x / 0x100) % 256) as u8);
    out.push((x % 256) as u8);
    proof {
        assert(out@ =~= old(out)@ + be32(x));
    }
}

/// Append the eight big-endian bytes of `x`.
pub fn push_be64(out: &mut Vec<u8>, x: u64)
    ensures
        final(out)@ == old(out)@ + be64(x),
{
    out.push(((x / 0x100000000000000) % 256) as u8);
    out.push(((x / 0x1000000000000) % 256) as u8);
    out.push(((x / 0x10000000000) % 256) as u8);
    out.push(((x / 0x100000000) % 256) as u8);
    out.push(((x / 0x1000000) % 256) as u8);
    out.push(((x / 0x10000) % 256) as u8);
    out.push(((x / 0x100) % 256) as u8);
    out.push((x % 256) as u8);
    proof {
        assert(out@ =~= old(out)@ + be64(x));
    }
}

/// Read the four big-endian bytes at `c[i..i + 4]`.
pub fn read_be32(c: &Vec<u8>, i: usize) -> (r: u64)
    requires
        i + 4 <= c@.len(),
    ensures
        r == be32_val(c@.subrange(i as int, i + 4)),
        r <= u32::MAX,
{
    let n: usize = c.len();
    assert(i + 4 <= n);
    let r: u64 = (c[i] as u64) * 0x1000000 + (c[i + 1] as u64) * 0x10000 + (c[i + 2] as u64) * 0x100
        + (c[i + 3] as u64);
    proof {
        let s = c@.subrange(i as int, i + 4);
        assert(s[0] == c@[i as int] && s[1] == c@[i + 1] && s[2] == c@[i + 2] && s[3] == c@[i + 3]);
    }
    r
}

/// Read the eight big-endian bytes at `c[i..i + 8]`.
pub fn read_be64(c: &Vec<u8>, i: usize) -> (r: u64)
    requires
        i + 8 <= c@.len(),
    ensures
        r == be64_val(c@.subrange(i as int, i + 8)),
{
    let n: usize = c.len();
    assert(i + 8 <= n);
    let r: u64 = (c[i] as u64) * 0x100000000000000 + (c[i + 1] as u64) * 0x1000000000000 + (c[i + 2]
        as u64) * 0x10000000000 + (c[i + 3] as u64) * 0x100000000 + (c[i + 4] as u64) * 0x1000000 + (
    c[i + 5] as u64) * 0x10000 + (c[i + 6] as u64) * 0x100 + (c[i + 7] as u64);
    proof {
        let s = c@.subrange(i as int, i + 8);
        assert(s[0] == c@[i as int] && s[1] == c@[i + 1] && s[2] == c@[i + 2] && s[3] == c@[i + 3]
            && s[4] == c@[i + 4] && s[5] == c@[i + 5] && s[6] == c@[i + 6] && s[7] == c@[i + 7]);
    }
    r
}

/// The container encoding of `s`: the magic tag, the big-endian length of
/// the packed tree section, that section, the big-endian original symbol
/// count, and the packed code bits. An empty input gets tree length 0,
/// count 0 and no packed data.
pub open spec fn spec_encode(s: Seq<u8>) -> Seq<u8> {
    if s.len() == 0 {
        magic() + be32(0) + be64(0)
    } else {
        let t = spec_build(spec_freqs(s));
        let tb = spec_pack(ser_tree(t));
        magic() + be32(tb.len() as u64) + tb + be64(s.len() as u64) + spec_pack(enc_bits(t, s))
    }
}

/// The decoding of a container: each malformation maps to its error, and a
/// well-formed container to the symbols its packed bits spell.
pub open spec fn spec_decode(c: Seq<u8>) -> Result<Seq<u8>, HuffError> {
    if c.len() < 6 {
        Err(HuffError::Format)
    } else if c.subrange(0, 2) != magic() {
        Err(HuffError::Format)
    } else {
        let tl = be32_val(c.subrange(2, 6));
        if c.len() < 14 + tl {
            Err(HuffError::Format)
        } else {
            let n = be64_val(c.subrange(6 + tl, 14 + tl));
            if tl == 0 {
                if n == 0 && c.len() == 14 {
                    Ok(Seq::empty())
                } else {
                    Err(HuffError::Format)
                }
            } else {
                let tbits = unpacked_bits(c.subrange(6, 6 + tl), (8 * tl) as nat);
                match spec_parse(tbits, 0) {
                    None => Err(HuffError::Format),
                    Some((t, used)) => {
                        if 8 * tl - used >= 8 {
                            Err(HuffError::Format)
                        } else {
                            let data = c.subrange(14 + tl, c.len() as int);
                            let dbits = unpacked_bits(data, (8 * data.len()) as nat);
                            match decode_syms(t, dbits, 0, n as nat) {
                                None => Err(HuffError::Format),
                                Some((out, k)) => {
                                    if data.len() == (k + 7) / 8 {
                                        Ok(out)
                                    } else {
                                        Err(HuffError::Integrity)
                                    }
                                },
                            }
                        }
                    },
                }
            }
        }
    }
}

/// Compress `input` into a self-describing container.
pub fn encode(input: &Vec<u8>) -> (r: Vec<u8>)
    ensures
        r@ == spec_encode(input@),
{
    let mut out: Vec<u8> = Vec::new();
    out.push(72);
    out.push(70);
    proof {
        assert(out@ =~= magic());
    }
    if input.len() == 0 {
        push_be32(&mut out, 0);
        push_be64(&mut out, 0);
        proof {
            assert(out@ =~= spec_encode(input@));
        }
        return out;
    }
    let ft = FrequencyTable::count(input);
    proof {
        lemma_count_positive(input@, 0);
        crate::freq::lemma_count_le_len(input@, input@[0]);
        let b0 = input@[0] as int;
        assert(spec_freqs(input@)[b0] > 0);
        assert(has_nonzero(spec_freqs(input@)));
    }
    let built = buildTree(&ft);
    let tree = match built {
        Ok(t) => t,
        Err(_) => {
            // a nonempty input always has a nonzero count, so this arm is
            // proven unreachable
            proof {
                assert(false);
            }
            return out;
        },
    };
    let ghost t = spec_build(spec_freqs(input@));
    let book = CodeBook::derive(&tree);
    let mut tbits: Vec<bool> = Vec::new();
    serialize_into(&tree, &mut tbits);
    let mut tb = pack_bits(&tbits);
    proof {
        lemma_build_size(spec_freqs(input@));
        lemma_ser_len(t);
        assert(tb@.len() <= (9 * 511 + 7) / 8);
    }
    push_be32(&mut out, tb.len() as u64);
    out.append(&mut tb);
    push_be64(&mut out, input.len() as u64);
    let mut dbits: Vec<bool> = Vec::new();
    let mut i: usize = 0;
    while i < input.len()
        invariant
            book.wf(),
            forall|b: u8| book@[b as int] == full_code(t, b),
            i <= input@.len(),
            dbits@ == enc_bits(t, input@.take(i as int)),
        decreases input@.len() - i,
    {
        let x = input[i];
        let c = book.get(x);
        let ghost pre = dbits@;
        let mut j: usize = 0;
        while j < c.len()
            invariant
                j <= c@.len(),
                dbits@ == pre + c@.take(j as int),
            decreases c@.len() - j,
        {
            let bit = c[j];
            dbits.push(bit);
            proof {
                assert(pre + c@.take(j + 1) =~= (pre + c@.take(j as int)).push(c@[j as int]));
            }
            j = j + 1;
        }
        proof {
            assert(c@.take(c@.len() as int) =~= c@);
            let s1 = input@.take(i + 1);
            assert(s1.drop_last() =~= input@.take(i as int));
            assert(s1.last() == x);
            assert(dbits@ == enc_bits(t, s1));
        }
        i = i + 1;
    }
    let mut packed = pack_bits(&dbits);
    proof {
        assert(input@.take(input@.len() as int) =~= input@);
    }
    out.append(&mut packed);
    proof {
        assert(out@ =~= spec_encode(input@));
    }
    out
}

/// Decompress a container, failing with the exact error its defect earns:
/// `Format` for a bad tag, truncation, a malformed tree or a bit underrun,
/// `Integrity` when the packed section does not account for exactly the
/// declared symbols.
pub fn decode(c: &Vec<u8>) -> (r: Result<Vec<u8>, HuffError>)
    ensures
        (match (r, spec_decode(c@)) {
            (Ok(b), Ok(s)) => b@ == s,
            (Err(e1), Err(e2)) => e1 == e2,
            _ => false,
        }),
{
    let n: usize = c.len();
    if n < 6 {
        return Err(HuffError::Format);
    }
    if c[0] != 72 || c[1] != 70 {
        proof {
            assert(c@.subrange(0, 2)[0] == c@[0] && c@.subrange(0, 2)[1] == c@[1]);
        }
        return Err(HuffError::Format);
    }
    proof {
        assert(c@.subrange(0, 2) =~= magic());
    }
    let tl64 = read_be32(c, 2);
    if (n as u64) < 14 + tl64 {
        return Err(HuffError::Format);
    }
    let tl: usize = tl64 as usize;
    let count = read_be64(c, 6 + tl);
    if tl == 0 {
        if count == 0 && n == 14 {
            return Ok(Vec::new());
        } else {
            return Err(HuffError::Format);
        }
    }
    let tbits = unpack_range(c, 6, 6 + tl);
    let parsed = parse_node(&tbits, 0);
    let (tree, used) = match parsed {
        Ok(p) => p,
        Err(e) => {
            return Err(e);
        },
    };
    if (tl as u64) * 8 - used >= 8 {
        return Err(HuffError::Format);
    }
    let dbits = unpack_range(c, 14 + tl, n);
    let ghost dseq = dbits@;
    let ghost total = decode_syms(tree, dseq, 0, count as nat);
    let mut out: Vec<u8> = Vec::new();
    let mut done: u64 = 0;
    let mut pos: u64 = 0;
    let dlen: usize = n - (14 + tl);
    proof {
        if total is Some {
            assert(out@ + total->Some_0.0 =~= total->Some_0.0);
        }
        assert(tbits@ == unpacked_bits(c@.subrange(6, 6 + tl as int), (8 * (tl as int)) as nat));
        assert(dseq == unpacked_bits(
            c@.subrange(14 + tl as int, c@.len() as int),
            (8 * (c@.len() - (14 + tl as int))) as nat,
        ));
        if total is None {
            assert(spec_decode(c@) == Err::<Seq<u8>, HuffError>(HuffError::Format));
        } else {
            let (s, k) = total->Some_0;
            assert(spec_decode(c@) == (if dlen as int == (k + 7) / 8 {
                Ok::<Seq<u8>, HuffError>(s)
            } else {
                Err::<Seq<u8>, HuffError>(HuffError::Integrity)
            }));
        }
    }
    while done < count
        invariant
            done <= count,
            out@.len() == done,
            pos <= dseq.len(),
            dseq == dbits@,
            total == decode_syms(tree, dseq, 0, count as nat),
            (match decode_syms(tree, dseq, pos as int, (count - done) as nat) {
                Some((s, k)) => total == Some((out@ + s, k)),
                None => total is None,
            }),
            total is None ==> spec_decode(c@) == Err::<Seq<u8>, HuffError>(HuffError::Format),
            total is Some ==> spec_decode(c@) == (if dlen as int == (total->Some_0.1 + 7) / 8 {
                Ok::<Seq<u8>, HuffError>(total->Some_0.0)
            } else {
                Err::<Seq<u8>, HuffError>(HuffError::Integrity)
            }),
        decreases count - done,
    {
        let ghost rem = (count - done) as nat;
        let ghost pos0 = pos as int;
        let sym: u8;
        match &tree {
            Node::Leaf { byte, .. } => {
                if pos < dbits.len() as u64 {
                    sym = *byte;
                    pos = pos + 1;
                } else {
                    proof {
                        assert(decode_syms(tree, dseq, pos0, rem) is None);
                    }
                    return Err(HuffError::Format);
                }
            },
            Node::Internal { .. } => {
                match walk_exec(&tree, &dbits, pos) {
                    Ok((b, j)) => {
                        sym = b;
                        pos = j;
                    },
                    Err(e) => {
                        proof {
                            assert(decode_syms(tree, dseq, pos0, rem) is None);
                        }
                        return Err(e);
                    },
                }
            },
        }
        proof {
            let stepped = decode_syms(tree, dseq, pos as int, (rem - 1) as nat);
            if stepped is Some {
                let (s, k) = stepped->Some_0;
                assert(decode_syms(tree, dseq, pos0, rem) == Some((seq![sym] + s, k)));
                assert(out@ + (seq![sym] + s) =~= out@.push(sym) + s);
            }
        }
        out.push(sym);
        done = done + 1;
    }
    proof {
        assert(decode_syms(tree, dseq, pos as int, 0) == Some((Seq::<u8>::empty(), pos as int)));
        assert(out@ + Seq::<u8>::empty() =~= out@);
        assert(total == Some((out@, pos as int)));
    }
    let needed: u64 = pos / 8 + (if pos % 8 == 0 {
        0
    } else {
        1
    });
    proof {
        assert(needed == (pos + 7) / 8);
    }
    if dlen as u64 == needed {
        Ok(out)
    } else {
        Err(HuffError::Integrity)
    }
}

/// Encoding is a pure function of the input alone: equal buffers always get
/// byte-identical containers, which is what the deterministic tie-break in
/// the tree build is for.
pub proof fn lemma_encode_deterministic(a: Seq<u8>, b: Seq<u8>)
    requires
        a == b,
    ensures
        spec_encode(a) == spec_encode(b),
{
}

/// How a five-section container cuts back into its sections.
proof fn lemma_five_parts(a: Seq<u8>, b: Seq<u8>, c: Seq<u8>, d: Seq<u8>, e: Seq<u8>)
    ensures
        (a + b + c + d + e).len() == a.len() + b.len() + c.len() + d.len() + e.len(),
        (a + b + c + d + e).subrange(0, a.len() as int) == a,
        (a + b + c + d + e).subrange(a.len() as int, a.len() as int + b.len()) == b,
        (a + b + c + d + e).subrange(
            a.len() as int + b.len(),
            a.len() as int + b.len() + c.len(),
        ) == c,
        (a + b + c + d + e).subrange(
            a.len() as int + b.len() + c.len(),
            a.len() as int + b.len() + c.len() + d.len(),
        ) == d,
        (a + b + c + d + e).subrange(
            a.len() as int + b.len() + c.len() + d.len(),
            (a + b + c + d + e).len() as int,
        ) == e,
{
    let w = a + b + c + d + e;
    let na = a.len() as int;
    let nb = b.len() as int;
    let nc = c.len() as int;
    let nd = d.len() as int;
    assert(w.subrange(0, na) =~= a);
    assert(w.subrange(na, na + nb) =~= b);
    assert(w.subrange(na + nb, na + nb + nc) =~= c);
    assert(w.subrange(na + nb + nc, na + nb + nc + nd) =~= d);
    assert(w.subrange(na + nb + nc + nd, w.len() as int) =~= e);
}

/// The round trip: decoding an encoded buffer gives the buffer back, for
/// every buffer a machine can hold.
#[verifier::rlimit(100)]
pub proof fn lemma_round_trip(s: Seq<u8>)
    requires
        s.len() <= u64::MAX,
    ensures
        spec_decode(spec_encode(s)) == Ok::<Seq<u8>, HuffError>(s),
{
    let c = spec_encode(s);
    if s.len() == 0 {
        assert(c.len() == 14);
        assert(c.subrange(0, 2) =~= magic());
        assert(c.subrange(2, 6) =~= be32(0));
        lemma_be32_roundtrip(0);
        assert(c.subrange(6, 14) =~= be64(0));
        lemma_be64_roundtrip(0);
        assert(s =~= Seq::<u8>::empty());
    } else {
        let f = spec_freqs(s);
        let t = spec_build(f);
        let sbits = ser_tree(t);
        let tb = spec_pack(sbits);
        let db = enc_bits(t, s);
        let pd = spec_pack(db);
        let tlv = tb.len() as int;
        crate::freq::lemma_count_positive(s, 0);
        crate::freq::lemma_count_le_len(s, s[0]);
        assert(f[s[0] as int] > 0);
        assert(has_nonzero(f));
        lemma_build_size(f);
        lemma_ser_len(t);
        assert(1 <= sbits.len() <= 4599);
        assert(tb.len() == (sbits.len() + 7) / 8);
        assert(1 <= tlv <= 576);
        lemma_five_parts(magic(), be32(tlv as u64), tb, be64(s.len() as u64), pd);
        assert(c.len() == 14 + tlv + pd.len());
        assert(c.subrange(0, 2) == magic());
        assert(c.subrange(2, 6) == be32(tlv as u64));
        lemma_be32_roundtrip(tlv as u64);
        assert(c.subrange(6, 6 + tlv) == tb);
        assert(c.subrange(6 + tlv, 14 + tlv) == be64(s.len() as u64));
        lemma_be64_roundtrip(s.len() as u64);
        assert(c.subrange(14 + tlv, c.len() as int) == pd);
        // the tree section parses back to the stripped tree
        let tbits = unpacked_bits(tb, (8 * tlv) as nat);
        crate::bits::lemma_unpack_pack(sbits, (8 * tlv) as nat);
        assert(tbits.subrange(0, sbits.len() as int) == sbits);
        crate::tree::lemma_parse_ser(t, tbits, 0);
        assert(spec_parse(tbits, 0) == Some((crate::tree::strip(t), sbits.len() as int)));
        assert(8 * tlv - sbits.len() < 8);
        // the data section decodes back to the input
        let dbits = unpacked_bits(pd, (8 * pd.len()) as nat);
        crate::bits::lemma_unpack_pack(db, (8 * pd.len()) as nat);
        assert(dbits.subrange(0, db.len() as int) == db);
        assert forall|k: int| 0 <= k < s.len() implies t.has(s[k]) by {
            crate::freq::lemma_count_positive(s, k);
            crate::freq::lemma_count_le_len(s, s[k]);
            crate::tree::lemma_build_has(f, s[k]);
        }
        crate::codebook::lemma_decode_enc(t, s, dbits, 0);
        crate::codebook::lemma_strip_decode(crate::tree::strip(t), dbits, 0, s.len() as nat);
        assert(crate::tree::strip(crate::tree::strip(t)) == crate::tree::strip(t)) by {
            lemma_strip_idem(t);
        }
        crate::codebook::lemma_strip_decode(t, dbits, 0, s.len() as nat);
        assert(decode_syms(crate::tree::strip(t), dbits, 0, s.len() as nat) == Some(
            (s, db.len() as int),
        ));
        assert(pd.len() == (db.len() + 7) / 8);
    }
}

/// Compactness on a two-symbol alphabet: every code is one bit, so the
/// packed data section of the container holds fewer bits than the eight per
/// byte of the raw input. (For wider alphabets the saving depends on how
/// skewed the frequencies are, which is exercised by tests instead.)
pub proof fn lemma_two_symbol_compactness(s: Seq<u8>, b1: u8, b2: u8)
    requires
        s.len() <= u64::MAX,
        b1 != b2,
        forall|k: int| 0 <= k < s.len() ==> s[k] == b1 || s[k] == b2,
        exists|k: int| 0 <= k < s.len() && s[k] == b1,
        exists|k: int| 0 <= k < s.len() && s[k] == b2,
    ensures
        8 * spec_pack(enc_bits(spec_build(spec_freqs(s)), s)).len() < 8 * s.len(),
{
    let f = spec_freqs(s);
    let t = spec_build(f);
    let k1 = choose|k: int| 0 <= k < s.len() && s[k] == b1;
    let k2 = choose|k: int| 0 <= k < s.len() && s[k] == b2;
    crate::freq::lemma_count_positive(s, k1);
    crate::freq::lemma_count_positive(s, k2);
    crate::freq::lemma_count_le_len(s, b1);
    crate::freq::lemma_count_le_len(s, b2);
    assert(f[b1 as int] > 0 && f[b2 as int] > 0);
    assert forall|j: int| 0 <= j < 256 && j != b1 as int && j != b2 as int implies f[j]
        == 0u64 by {
        crate::freq::lemma_count_absent(s, j as u8);
    }
    crate::tree::lemma_build_two_leaves(f, b1 as int, b2 as int);
    assert forall|k: int| 0 <= k < s.len() implies t.has(#[trigger] s[k]) by {
        crate::freq::lemma_count_positive(s, k);
        crate::freq::lemma_count_le_len(s, s[k]);
        crate::tree::lemma_build_has(f, s[k]);
    }
    crate::codebook::lemma_shallow_codes(t, s);
    assert(spec_pack(enc_bits(t, s)).len() == (s.len() + 7) / 8);
    assert(s.len() >= 2);
}

/// Stripping frequencies twice is stripping them once.
proof fn lemma_strip_idem(t: Node)
    ensures
        crate::tree::strip(crate::tree::strip(t)) == crate::tree::strip(t),
    decreases t,
{
    match t {
        Node::Leaf { .. } => {},
        Node::Internal { left, right, .. } => {
            lemma_strip_idem(*left);
            lemma_strip_idem(*right);
        },
    }
}

} // verus!
