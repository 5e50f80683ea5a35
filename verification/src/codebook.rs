//! The codebook: byte value to bit code, derived by walking the tree
//! (left = 0, right = 1), and the inverse walk used by decode.

use vstd::prelude::*;

use crate::HuffError;
use crate::tree::Node;

verus! {

/// The path from the root of `t` to the leaf labelled `b`: 0 descends left,
/// 1 descends right. On a duplicate label the right subtree wins, matching
/// the depth-first derivation order where a later visit overwrites.
pub open spec fn code(t: Node, b: u8) -> Seq<bool>
    decreases t,
{
    match t {
        Node::Leaf { .. } => Seq::empty(),
        Node::Internal { left, right, .. } => {
            if right.has(b) {
                seq![true] + code(*right, b)
            } else {
                seq![false] + code(*left, b)
            }
        },
    }
}

/// The code the book records for `b`: the tree path, except that the
/// degenerate single-leaf alphabet gets the one-bit code 0; empty when `b`
/// is not in the tree.
pub open spec fn full_code(t: Node, b: u8) -> Seq<bool> {
    if t.has(b) {
        if t is Leaf {
            seq![false]
        } else {
            code(t, b)
        }
    } else {
        Seq::empty()
    }
}

/// The bit string every byte of `s` contributes, in input order.
pub open spec fn enc_bits(t: Node, s: Seq<u8>) -> Seq<bool>
    decreases s.len(),
{
    if s.len() == 0 {
        Seq::empty()
    } else {
        enc_bits(t, s.drop_last()) + full_code(t, s.last())
    }
}

/// The codes a depth-first derivation leaves in the book `m` after visiting
/// `t` with the accumulated path `prefix`.
pub open spec fn assign(t: Node, prefix: Seq<bool>, m: Seq<Seq<bool>>) -> Seq<Seq<bool>>
    decreases t,
{
    match t {
        Node::Leaf { byte, .. } => m.update(byte as int, prefix),
        Node::Internal { left, right, .. } => assign(
            *right,
            prefix + seq![true],
            assign(*left, prefix + seq![false], m),
        ),
    }
}

/// The element-wise view of a vector of bit vectors.
pub open spec fn deep(m: Seq<Vec<bool>>) -> Seq<Seq<bool>> {
    Seq::new(m.len(), |i: int| m[i]@)
}

/// What a depth-first derivation records: the path to each byte in the tree,
/// and the old entry for every byte that is not.
pub proof fn lemma_assign(t: Node, prefix: Seq<bool>, m: Seq<Seq<bool>>, b: u8)
    requires
        m.len() == 256,
    ensures
        assign(t, prefix, m).len() == 256,
        assign(t, prefix, m)[b as int] == (if t.has(b) {
            prefix + code(t, b)
        } else {
            m[b as int]
        }),
    decreases t,
{
    match t {
        Node::Leaf { byte, .. } => {
            if byte == b {
                assert(prefix + code(t, b) =~= prefix);
            }
        },
        Node::Internal { left, right, .. } => {
            let m1 = assign(*left, prefix + seq![false], m);
            lemma_assign(*left, prefix + seq![false], m, b);
            lemma_assign(*right, prefix + seq![true], m1, b);
            if right.has(b) {
                assert((prefix + seq![true]) + code(*right, b) =~= prefix + code(t, b));
            } else if left.has(b) {
                assert((prefix + seq![false]) + code(*left, b) =~= prefix + code(t, b));
            }
        },
    }
}

/// Walk the tree from the root, one bit per step, until a leaf is reached;
/// the result is the leaf's byte and the next unread bit position.
pub open spec fn walk(t: Node, bits: Seq<bool>, i: int) -> Option<(u8, int)>
    decreases t,
{
    match t {
        Node::Leaf { byte, .. } => Some((byte, i)),
        Node::Internal { left, right, .. } => {
            if 0 <= i < bits.len() {
                if bits[i] {
                    walk(*right, bits, i + 1)
                } else {
                    walk(*left, bits, i + 1)
                }
            } else {
                None
            }
        },
    }
}

/// Decode `n` symbols starting at bit `i`: each symbol is one root-to-leaf
/// walk, except that a single-leaf tree consumes one bit per symbol.
pub open spec fn decode_syms(t: Node, bits: Seq<bool>, i: int, n: nat) -> Option<(Seq<u8>, int)>
    decreases n,
{
    if n == 0 {
        Some((Seq::empty(), i))
    } else {
        match t {
            Node::Leaf { byte, .. } => {
                if 0 <= i < bits.len() {
                    match decode_syms(t, bits, i + 1, (n - 1) as nat) {
                        Some((s, j)) => Some((seq![byte] + s, j)),
                        None => None,
                    }
                } else {
                    None
                }
            },
            Node::Internal { .. } => {
                match walk(t, bits, i) {
                    Some((b, j)) => {
                        match decode_syms(t, bits, j, (n - 1) as nat) {
                            Some((s, k)) => Some((seq![b] + s, k)),
                            None => None,
                        }
                    },
                    None => None,
                }
            },
        }
    }
}

/// Following a byte's code from position `i` lands exactly on that byte's
/// leaf, with the cursor just past the code.
pub proof fn lemma_walk_code(t: Node, b: u8, bits: Seq<bool>, i: int)
    requires
        t.has(b),
        0 <= i,
        i + code(t, b).len() <= bits.len(),
        bits.subrange(i, i + code(t, b).len()) == code(t, b),
    ensures
        walk(t, bits, i) == Some((b, i + code(t, b).len())),
    decreases t,
{
    match t {
        Node::Leaf { .. } => {},
        Node::Internal { left, right, .. } => {
            let c = code(t, b);
            assert(bits[i] == c[0]);
            if right.has(b) {
                let c2 = code(*right, b);
                assert(bits.subrange(i + 1, i + 1 + c2.len()) =~= c2) by {
                    assert forall|k: int| 0 <= k < c2.len() implies bits.subrange(
                        i + 1,
                        i + 1 + c2.len(),
                    )[k] == c2[k] by {
                        assert(bits[i + 1 + k] == c[1 + k]);
                    }
                }
                lemma_walk_code(*right, b, bits, i + 1);
            } else {
                let c2 = code(*left, b);
                assert(bits.subrange(i + 1, i + 1 + c2.len()) =~= c2) by {
                    assert forall|k: int| 0 <= k < c2.len() implies bits.subrange(
                        i + 1,
                        i + 1 + c2.len(),
                    )[k] == c2[k] by {
                        assert(bits[i + 1 + k] == c[1 + k]);
                    }
                }
                lemma_walk_code(*left, b, bits, i + 1);
            }
        },
    }
}

/// `enc_bits` decomposed at the front instead of the back.
proof fn lemma_enc_bits_front(t: Node, s: Seq<u8>)
    requires
        s.len() > 0,
    ensures
        enc_bits(t, s) == full_code(t, s[0]) + enc_bits(t, s.skip(1)),
    decreases s.len(),
{
    if s.len() == 1 {
        assert(s.drop_last() =~= Seq::<u8>::empty());
        assert(s.skip(1) =~= Seq::<u8>::empty());
        assert(enc_bits(t, s) =~= full_code(t, s[0]) + enc_bits(t, s.skip(1)));
    } else {
        let d = s.drop_last();
        lemma_enc_bits_front(t, d);
        assert(d[0] == s[0]);
        assert(s.skip(1).drop_last() =~= d.skip(1));
        assert(s.skip(1).last() == s.last());
        assert(enc_bits(t, s) == (full_code(t, s[0]) + enc_bits(t, d.skip(1))) + full_code(
            t,
            s.last(),
        ));
        assert((full_code(t, s[0]) + enc_bits(t, d.skip(1))) + full_code(t, s.last()) =~= full_code(
            t,
            s[0],
        ) + (enc_bits(t, d.skip(1)) + full_code(t, s.last())));
        assert(enc_bits(t, s.skip(1)) == enc_bits(t, d.skip(1)) + full_code(t, s.last()));
    }
}

/// Decoding the concatenated codes of `s` from position `i` returns exactly
/// `s` and stops just past them; bits beyond are not touched.
pub proof fn lemma_decode_enc(t: Node, s: Seq<u8>, bits: Seq<bool>, i: int)
    requires
        forall|k: int| 0 <= k < s.len() ==> t.has(s[k]),
        0 <= i,
        i + enc_bits(t, s).len() <= bits.len(),
        bits.subrange(i, i + enc_bits(t, s).len()) == enc_bits(t, s),
    ensures
        decode_syms(t, bits, i, s.len() as nat) == Some((s, i + enc_bits(t, s).len())),
    decreases s.len(),
{
    if s.len() > 0 {
        lemma_enc_bits_front(t, s);
        let fc = full_code(t, s[0]);
        let rest = enc_bits(t, s.skip(1));
        let total = enc_bits(t, s);
        assert(total.len() == fc.len() + rest.len());
        assert(bits.subrange(i + fc.len(), i + fc.len() + rest.len()) =~= rest) by {
            assert forall|k: int| 0 <= k < rest.len() implies bits.subrange(
                i + fc.len(),
                i + fc.len() + rest.len(),
            )[k] == rest[k] by {
                assert(bits[i + fc.len() + k] == total[fc.len() + k]);
            }
        }
        assert(forall|k: int| 0 <= k < s.skip(1).len() ==> t.has(s.skip(1)[k]));
        lemma_decode_enc(t, s.skip(1), bits, i + fc.len());
        match t {
            Node::Leaf { byte, .. } => {
                assert(byte == s[0]);
                assert(fc =~= seq![false]);
                assert(seq![byte] + s.skip(1) =~= s);
            },
            Node::Internal { .. } => {
                assert(fc == code(t, s[0]));
                assert(bits.subrange(i, i + fc.len()) =~= fc) by {
                    assert forall|k: int| 0 <= k < fc.len() implies bits.subrange(
                        i,
                        i + fc.len(),
                    )[k] == fc[k] by {
                        assert(bits[i + k] == total[k]);
                    }
                }
                lemma_walk_code(t, s[0], bits, i);
                assert(seq![s[0]] + s.skip(1) =~= s);
            },
        }
    } else {
        assert(enc_bits(t, s).len() == 0);
    }
}

/// Under a root whose children are both leaves, every code is one bit, so
/// the whole encoding takes one bit per input byte.
pub proof fn lemma_shallow_codes(t: Node, s: Seq<u8>)
    requires
        t is Internal,
        (*t->left) is Leaf,
        (*t->right) is Leaf,
        forall|k: int| 0 <= k < s.len() ==> t.has(#[trigger] s[k]),
    ensures
        enc_bits(t, s).len() == s.len(),
    decreases s.len(),
{
    if s.len() > 0 {
        assert(forall|k: int| 0 <= k < s.drop_last().len() ==> t.has(#[trigger] s.drop_last()[k]));
        lemma_shallow_codes(t, s.drop_last());
        let b = s[s.len() - 1];
        assert(t.has(b));
        match t {
            Node::Internal { left, right, .. } => {
                if right.has(b) {
                    assert(code(t, b) == seq![true] + code(*right, b));
                    assert(code(*right, b) =~= Seq::<bool>::empty());
                } else {
                    assert(code(t, b) == seq![false] + code(*left, b));
                    assert(code(*left, b) =~= Seq::<bool>::empty());
                }
            },
            Node::Leaf { .. } => {},
        }
        assert(full_code(t, b).len() == 1);
    }
}

/// Clearing frequencies changes no walk: only the shape steers it.
pub proof fn lemma_strip_walk(t: Node, bits: Seq<bool>, i: int)
    ensures
        walk(crate::tree::strip(t), bits, i) == walk(t, bits, i),
    decreases t,
{
    match t {
        Node::Leaf { .. } => {},
        Node::Internal { left, right, .. } => {
            if 0 <= i < bits.len() {
                lemma_strip_walk(*left, bits, i + 1);
                lemma_strip_walk(*right, bits, i + 1);
            }
        },
    }
}

/// Clearing frequencies changes no decode.
pub proof fn lemma_strip_decode(t: Node, bits: Seq<bool>, i: int, n: nat)
    ensures
        decode_syms(crate::tree::strip(t), bits, i, n) == decode_syms(t, bits, i, n),
    decreases n,
{
    if n > 0 {
        match t {
            Node::Leaf { .. } => {
                if 0 <= i < bits.len() {
                    lemma_strip_decode(t, bits, i + 1, (n - 1) as nat);
                }
            },
            Node::Internal { .. } => {
                lemma_strip_walk(t, bits, i);
                if walk(t, bits, i) is Some {
                    let j = walk(t, bits, i)->Some_0.1;
                    lemma_strip_decode(t, bits, j, (n - 1) as nat);
                }
            },
        }
    }
}

/// Walk the tree by the bits from position `i`, failing when they run out
/// before a leaf is reached.
pub fn walk_exec(t: &Node, bits: &Vec<bool>, i: u64) -> (r: Result<(u8, u64), HuffError>)
    requires
        i <= bits@.len(),
    ensures
        (match r {
            Ok((b, j)) => walk(*t, bits@, i as int) == Some((b, j as int)) && i <= j
                <= bits@.len(),
            Err(e) => walk(*t, bits@, i as int) is None && e == HuffError::Format,
        }),
    decreases *t,
{
    match t {
        Node::Leaf { byte, .. } => Ok((*byte, i)),
        Node::Internal { left, right, .. } => {
            let n: usize = bits.len();
            if i < n as u64 {
                if bits[i as usize] {
                    walk_exec(right, bits, i + 1)
                } else {
                    walk_exec(left, bits, i + 1)
                }
            } else {
                Err(HuffError::Format)
            }
        },
    }
}

/// Whether `a` is a prefix of `b`.
pub open spec fn is_prefix(a: Seq<bool>, b: Seq<bool>) -> bool {
    a.len() <= b.len() && a == b.subrange(0, a.len() as int)
}

/// Codes of distinct bytes diverge at the first branch that separates them.
proof fn lemma_code_prefix_free(t: Node, b1: u8, b2: u8)
    requires
        t.has(b1),
        t.has(b2),
        b1 != b2,
    ensures
        !is_prefix(code(t, b1), code(t, b2)),
    decreases t,
{
    match t {
        Node::Leaf { .. } => {},
        Node::Internal { left, right, .. } => {
            let c1 = code(t, b1);
            let c2 = code(t, b2);
            if is_prefix(c1, c2) {
                assert(c1[0] == c2.subrange(0, c1.len() as int)[0]);
                if right.has(b1) && right.has(b2) {
                    lemma_code_prefix_free(*right, b1, b2);
                    let d1 = code(*right, b1);
                    let d2 = code(*right, b2);
                    assert(is_prefix(d1, d2)) by {
                        assert forall|k: int| 0 <= k < d1.len() implies d1[k] == d2.subrange(
                            0,
                            d1.len() as int,
                        )[k] by {
                            assert(c1[k + 1] == c2.subrange(0, c1.len() as int)[k + 1]);
                        }
                        assert(d1 =~= d2.subrange(0, d1.len() as int));
                    }
                } else if !right.has(b1) && !right.has(b2) {
                    lemma_code_prefix_free(*left, b1, b2);
                    let d1 = code(*left, b1);
                    let d2 = code(*left, b2);
                    assert(is_prefix(d1, d2)) by {
                        assert forall|k: int| 0 <= k < d1.len() implies d1[k] == d2.subrange(
                            0,
                            d1.len() as int,
                        )[k] by {
                            assert(c1[k + 1] == c2.subrange(0, c1.len() as int)[k + 1]);
                        }
                        assert(d1 =~= d2.subrange(0, d1.len() as int));
                    }
                }
            }
        },
    }
}

/// No code in a derived book is a prefix of another byte's code: the tree
/// structure makes the book prefix-free.
pub proof fn lemma_prefix_free(t: Node, b1: u8, b2: u8)
    requires
        t.has(b1),
        t.has(b2),
        b1 != b2,
    ensures
        !is_prefix(full_code(t, b1), full_code(t, b2)),
{
    lemma_code_prefix_free(t, b1, b2);
}

/// A mapping from byte value to bit code, derived from a Huffman tree and
/// read-only afterwards. A byte absent from the tree has the empty entry.
pub struct CodeBook {
    codes: Vec<Vec<bool>>,
}

impl View for CodeBook {
    type V = Seq<Seq<bool>>;

    closed spec fn view(&self) -> Seq<Seq<bool>> {
        deep(self.codes@)
    }
}

impl CodeBook {
    /// The book holds one entry per byte value.
    pub open spec fn wf(&self) -> bool {
        self@.len() == 256
    }

    /// The recorded code for the byte `b`.
    pub fn get(&self, b: u8) -> (r: &Vec<bool>)
        requires
            self.wf(),
        ensures
            r@ == self@[b as int],
    {
        &self.codes[b as usize]
    }

    /// Derive the codebook of `tree`: the path to each leaf, with the
    /// single-leaf alphabet assigned the one-bit code 0.
    pub fn derive(tree: &Node) -> (r: CodeBook)
        ensures
            r.wf(),
            forall|b: u8| r@[b as int] == full_code(*tree, b),
    {
        let mut codes: Vec<Vec<bool>> = Vec::new();
        let mut k: usize = 0;
        while k < 256
            invariant
                k <= 256,
                codes@.len() == k,
                forall|j: int| 0 <= j < k ==> codes@[j]@ == Seq::<bool>::empty(),
            decreases 256 - k,
        {
            codes.push(Vec::new());
            k = k + 1;
        }
        match tree {
            Node::Leaf { byte, .. } => {
                let mut one: Vec<bool> = Vec::new();
                one.push(false);
                codes[*byte as usize] = one;
                proof {
                    assert forall|b: u8| deep(codes@)[b as int] == full_code(*tree, b) by {
                        assert(deep(codes@)[b as int] == codes@[b as int]@);
                    }
                }
                CodeBook { codes }
            },
            Node::Internal { .. } => {
                let prefix: Vec<bool> = Vec::new();
                let ghost m0 = deep(codes@);
                buildCodes(tree, &prefix, &mut codes);
                proof {
                    assert forall|b: u8| deep(codes@)[b as int] == full_code(*tree, b) by {
                        lemma_assign(*tree, prefix@, m0, b);
                        if tree.has(b) {
                            assert(prefix@ + code(*tree, b) =~= code(*tree, b));
                        } else {
                            assert(m0[b as int] == Seq::<bool>::empty());
                        }
                    }
                }
                CodeBook { codes }
            },
        }
    }
}

/// Record, for every leaf below `node`, the accumulated path `prefix`
/// extended by 0 for a left descent and 1 for a right descent.
pub fn buildCodes(node: &Node, prefix: &Vec<bool>, codebook: &mut Vec<Vec<bool>>)
    requires
        old(codebook)@.len() == 256,
    ensures
        final(codebook)@.len() == 256,
        deep(final(codebook)@) == assign(*node, prefix@, deep(old(codebook)@)),
    decreases *node,
{
    match node {
        Node::Leaf { byte, .. } => {
            codebook[*byte as usize] = prefix.clone();
            proof {
                assert(deep(codebook@) =~= deep(old(codebook)@).update(*byte as int, prefix@));
            }
        },
        Node::Internal { left, right, .. } => {
            let mut lp = prefix.clone();
            lp.push(false);
            buildCodes(left, &lp, codebook);
            let mut rp = prefix.clone();
            rp.push(true);
            buildCodes(right, &rp, codebook);
            proof {
                assert(lp@ =~= prefix@ + seq![false]);
                assert(rp@ =~= prefix@ + seq![true]);
            }
        },
    }
}

} // verus!
