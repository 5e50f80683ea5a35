//! The Huffman tree: deterministic construction from a frequency table.
//!
//! The priority queue is a sequence kept sorted by the key
//! `(frequency, smallest leaf byte)`; ties insert after equals, so the whole
//! build is a pure function of the table and encoding is reproducible.

use vstd::prelude::*;

use crate::HuffError;
use crate::bits::byte_bits;
use crate::bits::byte_of_bits;
use crate::bits::bitv;
use crate::bits::u8_bit;
use crate::freq::FrequencyTable;
use crate::freq::sum_counts;

verus! {

/// A strict binary tree over byte frequencies: a leaf carries a byte value,
/// an internal node always has exactly two children.
pub enum Node {
    Leaf { byte: u8, freq: u64 },
    Internal { freq: u64, left: Box<Node>, right: Box<Node> },
}

impl Node {
    /// The frequency recorded at the root of this subtree.
    pub open spec fn freq_of(self) -> u64 {
        match self {
            Node::Leaf { freq, .. } => freq,
            Node::Internal { freq, .. } => freq,
        }
    }

    /// The smallest byte value on any leaf of this subtree; the tie-break
    /// half of the queue key.
    pub open spec fn spec_min_byte(self) -> u8
        decreases self,
    {
        match self {
            Node::Leaf { byte, .. } => byte,
            Node::Internal { left, right, .. } => {
                let a = left.spec_min_byte();
                let b = right.spec_min_byte();
                if a < b {
                    a
                } else {
                    b
                }
            },
        }
    }

    /// The number of nodes in this subtree.
    pub open spec fn size(self) -> nat
        decreases self,
    {
        match self {
            Node::Leaf { .. } => 1,
            Node::Internal { left, right, .. } => 1 + left.size() + right.size(),
        }
    }

    /// Whether the byte `b` labels some leaf of this subtree.
    pub open spec fn has(self, b: u8) -> bool
        decreases self,
    {
        match self {
            Node::Leaf { byte, .. } => byte == b,
            Node::Internal { left, right, .. } => left.has(b) || right.has(b),
        }
    }

    /// A fresh leaf for the byte `byte` seen `freq` times.
    pub fn new(byte: u8, freq: u64) -> (r: Node)
        ensures
            r == (Node::Leaf { byte, freq }),
    {
        Node::Leaf { byte, freq }
    }

    /// The frequency recorded at the root of this subtree.
    pub fn freq(&self) -> (r: u64)
        ensures
            r == self.freq_of(),
    {
        match self {
            Node::Leaf { freq, .. } => *freq,
            Node::Internal { freq, .. } => *freq,
        }
    }

    /// The smallest byte value on any leaf of this subtree.
    pub fn min_byte(&self) -> (r: u8)
        ensures
            r == self.spec_min_byte(),
        decreases *self,
    {
        match self {
            Node::Leaf { byte, .. } => *byte,
            Node::Internal { left, right, .. } => {
                let a = left.min_byte();
                let b = right.min_byte();
                if a < b {
                    a
                } else {
                    b
                }
            },
        }
    }
}

/// The strict queue order: lower frequency first, smaller minimum leaf byte
/// breaking frequency ties.
pub open spec fn key_lt(a: Node, b: Node) -> bool {
    a.freq_of() < b.freq_of() || (a.freq_of() == b.freq_of() && a.spec_min_byte()
        < b.spec_min_byte())
}

/// The internal node merging `l` (left) and `r` (right).
pub open spec fn mk_internal(l: Node, r: Node) -> Node {
    Node::Internal {
        freq: (l.freq_of() + r.freq_of()) as u64,
        left: Box::new(l),
        right: Box::new(r),
    }
}

/// Insertion into a sorted queue: a new node goes after every node it is not
/// strictly below, which keeps insertion deterministic.
pub open spec fn insert_sorted(n: Node, q: Seq<Node>) -> Seq<Node>
    decreases q.len(),
{
    if q.len() == 0 {
        seq![n]
    } else if key_lt(n, q[0]) {
        seq![n] + q
    } else {
        seq![q[0]] + insert_sorted(n, q.skip(1))
    }
}

/// Inserting grows the queue by one.
pub proof fn lemma_insert_sorted_len(n: Node, q: Seq<Node>)
    ensures
        insert_sorted(n, q).len() == q.len() + 1,
    decreases q.len(),
{
    if q.len() > 0 && !key_lt(n, q[0]) {
        lemma_insert_sorted_len(n, q.skip(1));
    }
}

/// The queue seeded with one leaf per byte value below `b` whose count is
/// nonzero, inserted in ascending byte order.
pub open spec fn seed(f: Seq<u64>, b: int) -> Seq<Node>
    decreases b,
{
    if b <= 0 {
        Seq::empty()
    } else if f[b - 1] > 0 {
        insert_sorted(Node::Leaf { byte: (b - 1) as u8, freq: f[b - 1] }, seed(f, b - 1))
    } else {
        seed(f, b - 1)
    }
}

/// One merge step: the two lowest-keyed nodes leave the queue and their
/// parent is inserted.
pub open spec fn merge_once(q: Seq<Node>) -> Seq<Node>
    recommends
        q.len() >= 2,
{
    insert_sorted(mk_internal(q[0], q[1]), q.skip(2))
}

/// Merging until one node remains; that node is the tree root.
pub open spec fn run_merge(q: Seq<Node>) -> Node
    decreases q.len(),
    via run_merge_dec
{
    if q.len() <= 1 {
        q[0]
    } else {
        run_merge(merge_once(q))
    }
}

#[via_fn]
proof fn run_merge_dec(q: Seq<Node>) {
    if q.len() > 1 {
        lemma_insert_sorted_len(mk_internal(q[0], q[1]), q.skip(2));
    }
}

/// The deterministic Huffman tree of a 256-entry frequency table.
pub open spec fn spec_build(f: Seq<u64>) -> Node {
    run_merge(seed(f, 256))
}

/// Whether any byte value has a nonzero count.
pub open spec fn has_nonzero(f: Seq<u64>) -> bool {
    exists|b: int| 0 <= b < 256 && f[b] > 0
}

/// The total frequency held in a queue.
pub open spec fn sum_freq(q: Seq<Node>) -> int
    decreases q.len(),
{
    if q.len() == 0 {
        0
    } else {
        q[0].freq_of() + sum_freq(q.skip(1))
    }
}

/// The total node count held in a queue.
pub open spec fn sum_size(q: Seq<Node>) -> int
    decreases q.len(),
{
    if q.len() == 0 {
        0
    } else {
        q[0].size() + sum_size(q.skip(1))
    }
}

proof fn lemma_sum_freq_nonneg(q: Seq<Node>)
    ensures
        sum_freq(q) >= 0,
    decreases q.len(),
{
    if q.len() > 0 {
        lemma_sum_freq_nonneg(q.skip(1));
    }
}

proof fn lemma_sum_freq_insert(n: Node, q: Seq<Node>)
    ensures
        sum_freq(insert_sorted(n, q)) == n.freq_of() + sum_freq(q),
    decreases q.len(),
{
    if q.len() == 0 {
        assert(insert_sorted(n, q)[0] == n);
        assert(insert_sorted(n, q).skip(1) =~= q);
    } else if key_lt(n, q[0]) {
        assert((seq![n] + q).skip(1) =~= q);
    } else {
        lemma_sum_freq_insert(n, q.skip(1));
        let w = seq![q[0]] + insert_sorted(n, q.skip(1));
        assert(w.skip(1) =~= insert_sorted(n, q.skip(1)));
    }
}

proof fn lemma_sum_size_insert(n: Node, q: Seq<Node>)
    ensures
        sum_size(insert_sorted(n, q)) == n.size() + sum_size(q),
    decreases q.len(),
{
    if q.len() == 0 {
        assert(insert_sorted(n, q)[0] == n);
        assert(insert_sorted(n, q).skip(1) =~= q);
    } else if key_lt(n, q[0]) {
        assert((seq![n] + q).skip(1) =~= q);
    } else {
        lemma_sum_size_insert(n, q.skip(1));
        let w = seq![q[0]] + insert_sorted(n, q.skip(1));
        assert(w.skip(1) =~= insert_sorted(n, q.skip(1)));
    }
}

/// One merge keeps the total frequency and adds one node.
proof fn lemma_merge_once_sums(q: Seq<Node>)
    requires
        q.len() >= 2,
    ensures
        q[0].freq_of() + q[1].freq_of() <= u64::MAX ==> sum_freq(merge_once(q)) == sum_freq(q),
        sum_size(merge_once(q)) == sum_size(q) + 1,
        merge_once(q).len() == q.len() - 1,
{
    let n = mk_internal(q[0], q[1]);
    lemma_sum_freq_insert(n, q.skip(2));
    lemma_sum_size_insert(n, q.skip(2));
    lemma_insert_sorted_len(n, q.skip(2));
    assert(q.skip(1).skip(1) =~= q.skip(2));
    assert(sum_freq(q.skip(1)) == q[1].freq_of() + sum_freq(q.skip(2)));
    assert(sum_size(q.skip(1)) == q[1].size() + sum_size(q.skip(2)));
    assert(sum_freq(q) == q[0].freq_of() + q[1].freq_of() + sum_freq(q.skip(2)));
    assert(sum_size(q) == q[0].size() + q[1].size() + sum_size(q.skip(2)));
}

/// The sum of the first `b` counts of a table.
proof fn lemma_sum_counts_take_le(f: Seq<u64>, b: int)
    requires
        0 <= b <= f.len(),
    ensures
        sum_counts(f.take(b)) <= sum_counts(f),
    decreases f.len(),
{
    if b == f.len() {
        assert(f.take(b) =~= f);
    } else {
        assert(f.drop_last().take(b) =~= f.take(b));
        lemma_sum_counts_take_le(f.drop_last(), b);
    }
}

/// Seeding stays within the table's total count, one leaf per nonzero entry.
proof fn lemma_seed_sums(f: Seq<u64>, b: int)
    requires
        0 <= b <= f.len(),
    ensures
        sum_freq(seed(f, b)) <= sum_counts(f.take(b)),
        sum_size(seed(f, b)) <= b,
        seed(f, b).len() <= b,
    decreases b,
{
    if b > 0 {
        lemma_seed_sums(f, b - 1);
        assert(f.take(b).drop_last() =~= f.take(b - 1));
        assert(f.take(b).last() == f[b - 1]);
        if f[b - 1] > 0 {
            let n = Node::Leaf { byte: (b - 1) as u8, freq: f[b - 1] };
            lemma_sum_freq_insert(n, seed(f, b - 1));
            lemma_sum_size_insert(n, seed(f, b - 1));
            lemma_insert_sorted_len(n, seed(f, b - 1));
        }
    }
}

/// An empty seed means an all-zero prefix of the table.
proof fn lemma_seed_empty(f: Seq<u64>, b: int)
    requires
        0 <= b <= f.len(),
    ensures
        (seed(f, b).len() == 0) <==> (forall|j: int| 0 <= j < b ==> f[j] == 0u64),
    decreases b,
{
    if b > 0 {
        lemma_seed_empty(f, b - 1);
        if f[b - 1] > 0 {
            lemma_insert_sorted_len(
                Node::Leaf { byte: (b - 1) as u8, freq: f[b - 1] },
                seed(f, b - 1),
            );
        }
    }
}

/// The root of a merged queue carries its whole size and frequency budget.
proof fn lemma_run_merge_size(q: Seq<Node>)
    requires
        q.len() >= 1,
    ensures
        run_merge(q).size() <= sum_size(q) + q.len() - 1,
    decreases q.len(),
{
    if q.len() == 1 {
        assert(sum_size(q) == q[0].size() + sum_size(q.skip(1)));
        lemma_sum_size_nonneg(q.skip(1));
    } else {
        lemma_merge_once_sums(q);
        lemma_run_merge_size(merge_once(q));
    }
}

proof fn lemma_sum_size_nonneg(q: Seq<Node>)
    ensures
        sum_size(q) >= 0,
    decreases q.len(),
{
    if q.len() > 0 {
        lemma_sum_size_nonneg(q.skip(1));
    }
}

/// The built tree holds at most 511 nodes: one leaf per byte value and one
/// internal node per merge.
pub proof fn lemma_build_size(f: Seq<u64>)
    requires
        f.len() == 256,
        has_nonzero(f),
    ensures
        spec_build(f).size() <= 511,
{
    lemma_seed_sums(f, 256);
    lemma_seed_empty(f, 256);
    assert(seed(f, 256).len() >= 1) by {
        let b = choose|b: int| 0 <= b < 256 && f[b] > 0;
        assert(!(forall|j: int| 0 <= j < 256 ==> f[j] == 0u64));
    }
    lemma_run_merge_size(seed(f, 256));
}

/// Whether some node of the queue has a leaf labelled `b`.
pub open spec fn q_has(q: Seq<Node>, x: u8) -> bool {
    exists|i: int| 0 <= i < q.len() && q[i].has(x)
}

proof fn lemma_insert_sorted_has(n: Node, q: Seq<Node>, x: u8)
    ensures
        q_has(insert_sorted(n, q), x) <==> (n.has(x) || q_has(q, x)),
    decreases q.len(),
{
    let w = insert_sorted(n, q);
    if q.len() == 0 {
        assert(w[0] == n);
        if n.has(x) {
            assert(q_has(w, x));
        }
        if q_has(w, x) {
            let i = choose|i: int| 0 <= i < w.len() && w[i].has(x);
            assert(i == 0);
        }
    } else if key_lt(n, q[0]) {
        if n.has(x) {
            assert(w[0].has(x));
        }
        if q_has(q, x) {
            let i = choose|i: int| 0 <= i < q.len() && q[i].has(x);
            assert(w[i + 1].has(x));
        }
        if q_has(w, x) {
            let i = choose|i: int| 0 <= i < w.len() && w[i].has(x);
            if i > 0 {
                assert(q[i - 1].has(x));
            }
        }
    } else {
        lemma_insert_sorted_has(n, q.skip(1), x);
        let rest = insert_sorted(n, q.skip(1));
        assert(w[0] == q[0]);
        assert forall|i: int| 1 <= i < w.len() implies w[i] == rest[i - 1] by {}
        if n.has(x) {
            let i = choose|i: int| 0 <= i < rest.len() && rest[i].has(x);
            assert(w[i + 1].has(x));
        }
        if q_has(q, x) {
            let i = choose|i: int| 0 <= i < q.len() && q[i].has(x);
            if i == 0 {
                assert(w[0].has(x));
            } else {
                assert(q.skip(1)[i - 1].has(x));
                assert(q_has(q.skip(1), x));
                let m = choose|m: int| 0 <= m < rest.len() && rest[m].has(x);
                assert(w[m + 1].has(x));
            }
        }
        if q_has(w, x) {
            let i = choose|i: int| 0 <= i < w.len() && w[i].has(x);
            if i == 0 {
                assert(q_has(q, x));
            } else {
                assert(rest[i - 1].has(x));
                if !n.has(x) {
                    assert(q_has(q.skip(1), x));
                    let m = choose|m: int| 0 <= m < q.skip(1).len() && q.skip(1)[m].has(x);
                    assert(q[m + 1].has(x));
                }
            }
        }
    }
}

proof fn lemma_merge_once_has(q: Seq<Node>, x: u8)
    requires
        q.len() >= 2,
    ensures
        q_has(merge_once(q), x) <==> q_has(q, x),
{
    let n = mk_internal(q[0], q[1]);
    lemma_insert_sorted_has(n, q.skip(2), x);
    assert(n.has(x) == (q[0].has(x) || q[1].has(x)));
    if q_has(q, x) {
        let i = choose|i: int| 0 <= i < q.len() && q[i].has(x);
        if i >= 2 {
            assert(q.skip(2)[i - 2].has(x));
            assert(q_has(q.skip(2), x));
        }
    }
    if q_has(q.skip(2), x) {
        let m = choose|m: int| 0 <= m < q.skip(2).len() && q.skip(2)[m].has(x);
        assert(q[m + 2].has(x));
    }
}

proof fn lemma_run_merge_has(q: Seq<Node>, x: u8)
    requires
        q.len() >= 1,
    ensures
        run_merge(q).has(x) <==> q_has(q, x),
    decreases q.len(),
{
    if q.len() == 1 {
        if q_has(q, x) {
            let i = choose|i: int| 0 <= i < q.len() && q[i].has(x);
            assert(i == 0);
        }
        if q[0].has(x) {
            assert(q_has(q, x));
        }
    } else {
        lemma_merge_once_sums(q);
        lemma_merge_once_has(q, x);
        lemma_run_merge_has(merge_once(q), x);
    }
}

proof fn lemma_seed_has(f: Seq<u64>, b: int, x: u8)
    requires
        0 <= b <= f.len(),
        f.len() == 256,
    ensures
        q_has(seed(f, b), x) <==> (x < b && f[x as int] > 0),
    decreases b,
{
    if b > 0 {
        lemma_seed_has(f, b - 1, x);
        if f[b - 1] > 0 {
            let n = Node::Leaf { byte: (b - 1) as u8, freq: f[b - 1] };
            lemma_insert_sorted_has(n, seed(f, b - 1), x);
        }
    } else {
        if q_has(seed(f, b), x) {
            let i = choose|i: int| 0 <= i < seed(f, b).len() && seed(f, b)[i].has(x);
        }
    }
}

/// The built tree has a leaf for exactly the byte values with nonzero count.
pub proof fn lemma_build_has(f: Seq<u64>, x: u8)
    requires
        f.len() == 256,
        has_nonzero(f),
    ensures
        spec_build(f).has(x) <==> f[x as int] > 0,
{
    lemma_seed_empty(f, 256);
    lemma_seed_has(f, 256, x);
    lemma_run_merge_has(seed(f, 256), x);
    assert(seed(f, 256).len() >= 1) by {
        let b = choose|b: int| 0 <= b < 256 && f[b] > 0;
    }
}

proof fn lemma_insert_all_leaves(n: Node, q: Seq<Node>)
    requires
        n is Leaf,
        forall|i: int| 0 <= i < q.len() ==> q[i] is Leaf,
    ensures
        forall|i: int|
            0 <= i < insert_sorted(n, q).len() ==> #[trigger] insert_sorted(n, q)[i] is Leaf,
    decreases q.len(),
{
    if q.len() > 0 && !key_lt(n, q[0]) {
        assert(forall|i: int| 0 <= i < q.skip(1).len() ==> #[trigger] q.skip(1)[i] is Leaf);
        lemma_insert_all_leaves(n, q.skip(1));
    }
}

/// The seeded queue holds leaves only.
proof fn lemma_seed_all_leaves(f: Seq<u64>, b: int)
    ensures
        forall|i: int| 0 <= i < seed(f, b).len() ==> #[trigger] seed(f, b)[i] is Leaf,
    decreases b,
{
    if b > 0 {
        lemma_seed_all_leaves(f, b - 1);
        if f[b - 1] > 0 {
            lemma_insert_all_leaves(
                Node::Leaf { byte: (b - 1) as u8, freq: f[b - 1] },
                seed(f, b - 1),
            );
        }
    }
}

/// With nonzero counts only at `b1` and `b2`, the seed holds one leaf each.
proof fn lemma_seed_len_two(f: Seq<u64>, b: int, b1: int, b2: int)
    requires
        0 <= b1 < f.len(),
        0 <= b2 < f.len(),
        b1 != b2,
        f[b1] > 0,
        f[b2] > 0,
        forall|j: int| 0 <= j < f.len() && j != b1 && j != b2 ==> f[j] == 0u64,
        0 <= b <= f.len(),
    ensures
        seed(f, b).len() == (if b1 < b {
            1int
        } else {
            0int
        }) + (if b2 < b {
            1int
        } else {
            0int
        }),
    decreases b,
{
    if b > 0 {
        lemma_seed_len_two(f, b - 1, b1, b2);
        if f[b - 1] > 0 {
            lemma_insert_sorted_len(
                Node::Leaf { byte: (b - 1) as u8, freq: f[b - 1] },
                seed(f, b - 1),
            );
        }
    }
}

/// With exactly two byte values in play the tree is a single internal node
/// over their two leaves.
pub proof fn lemma_build_two_leaves(f: Seq<u64>, b1: int, b2: int)
    requires
        f.len() == 256,
        0 <= b1 < 256,
        0 <= b2 < 256,
        b1 != b2,
        f[b1] > 0,
        f[b2] > 0,
        forall|j: int| 0 <= j < 256 && j != b1 && j != b2 ==> f[j] == 0u64,
    ensures
        spec_build(f) is Internal,
        (*spec_build(f)->left) is Leaf,
        (*spec_build(f)->right) is Leaf,
{
    let q = seed(f, 256);
    lemma_seed_len_two(f, 256, b1, b2);
    lemma_seed_all_leaves(f, 256);
    assert(q.len() == 2);
    let m = mk_internal(q[0], q[1]);
    assert(q.skip(2) =~= Seq::<Node>::empty());
    assert(merge_once(q) =~= seq![m]);
    assert(run_merge(q) == run_merge(seq![m]));
    assert(run_merge(seq![m]) == m);
}

/// Where a new node lands: after every node it is not strictly below.
proof fn lemma_insert_sorted_at(n: Node, q: Seq<Node>, i: int)
    requires
        0 <= i <= q.len(),
        forall|j: int| 0 <= j < i ==> !key_lt(n, q[j]),
        i < q.len() ==> key_lt(n, q[i]),
    ensures
        insert_sorted(n, q) == q.insert(i, n),
    decreases q.len(),
{
    if q.len() == 0 {
        assert(insert_sorted(n, q) =~= q.insert(0, n));
    } else if i == 0 {
        assert(insert_sorted(n, q) =~= q.insert(0, n));
    } else {
        lemma_insert_sorted_at(n, q.skip(1), i - 1);
        assert(seq![q[0]] + q.skip(1).insert(i - 1, n) =~= q.insert(i, n));
    }
}

/// Exact queue comparison for the insertion scan.
fn node_lt(a: &Node, b: &Node) -> (r: bool)
    ensures
        r == key_lt(*a, *b),
{
    let fa = a.freq();
    let fb = b.freq();
    if fa < fb {
        true
    } else if fa == fb {
        a.min_byte() < b.min_byte()
    } else {
        false
    }
}

/// Insert a node into the sorted queue, after every node it is not below.
fn insert_node(q: &mut Vec<Node>, n: Node)
    ensures
        final(q)@ == insert_sorted(n, old(q)@),
{
    let ghost q0 = q@;
    let mut i: usize = 0;
    while i < q.len() && !node_lt(&n, &q[i])
        invariant
            q@ == q0,
            i <= q@.len(),
            forall|j: int| 0 <= j < i ==> !key_lt(n, q@[j]),
        decreases q@.len() - i,
    {
        i = i + 1;
    }
    proof {
        lemma_insert_sorted_at(n, q0, i as int);
    }
    q.insert(i, n);
}

/// Build the Huffman tree of `freq` deterministically: seed one leaf per
/// nonzero byte value, then repeatedly merge the two lowest-keyed nodes.
/// Fails only when no byte value has a nonzero count.
pub fn buildTree(freq: &FrequencyTable) -> (r: Result<Node, HuffError>)
    requires
        freq.wf(),
        sum_counts(freq@) <= u64::MAX,
    ensures
        has_nonzero(freq@) ==> r == Ok::<Node, HuffError>(spec_build(freq@)),
        !has_nonzero(freq@) ==> r == Err::<Node, HuffError>(HuffError::EmptyAlphabet),
{
    let mut q: Vec<Node> = Vec::new();
    let mut b: usize = 0;
    while b < 256
        invariant
            freq.wf(),
            b <= 256,
            q@ == seed(freq@, b as int),
        decreases 256 - b,
    {
        let c = freq.get(b as u8);
        if c > 0 {
            insert_node(&mut q, Node::new(b as u8, c));
        }
        b = b + 1;
    }
    proof {
        lemma_seed_empty(freq@, 256);
        lemma_seed_sums(freq@, 256);
        assert(freq@.take(256) =~= freq@);
    }
    if q.len() == 0 {
        assert(!has_nonzero(freq@));
        return Err(HuffError::EmptyAlphabet);
    }
    assert(has_nonzero(freq@)) by {
        lemma_insert_sorted_len(Node::Leaf { byte: 0, freq: 0 }, Seq::empty());
    }
    while q.len() > 1
        invariant
            q@.len() >= 1,
            sum_freq(q@) <= sum_counts(freq@),
            sum_counts(freq@) <= u64::MAX,
            run_merge(q@) == spec_build(freq@),
        decreases q@.len(),
    {
        let ghost q0 = q@;
        let l = q.remove(0);
        let r = q.remove(0);
        proof {
            assert(q0.remove(0).remove(0) =~= q0.skip(2));
            lemma_sum_freq_nonneg(q0.skip(2));
            assert(q0.skip(1).skip(1) =~= q0.skip(2));
            assert(sum_freq(q0.skip(1)) == q0[1].freq_of() + sum_freq(q0.skip(2)));
            assert(sum_freq(q0) == q0[0].freq_of() + q0[1].freq_of() + sum_freq(q0.skip(2)));
        }
        let lf = l.freq();
        let rf = r.freq();
        let node = Node::Internal { freq: lf + rf, left: Box::new(l), right: Box::new(r) };
        insert_node(&mut q, node);
        proof {
            assert(q@ == merge_once(q0));
            lemma_merge_once_sums(q0);
        }
    }
    let root = q.remove(0);
    Ok(root)
}

/// Pre-order serialization of a tree: one bit per node, 0 for an internal
/// node, 1 for a leaf followed by the leaf's byte, MSB-first. The stream is
/// self-delimiting, so no node count is stored.
pub open spec fn ser_tree(t: Node) -> Seq<bool>
    decreases t,
{
    match t {
        Node::Leaf { byte, .. } => seq![true] + byte_bits(byte),
        Node::Internal { left, right, .. } => seq![false] + ser_tree(*left) + ser_tree(*right),
    }
}

/// A serialized tree takes at most nine bits per node.
pub proof fn lemma_ser_len(t: Node)
    ensures
        1 <= ser_tree(t).len() <= 9 * t.size(),
    decreases t,
{
    match t {
        Node::Leaf { .. } => {},
        Node::Internal { left, right, .. } => {
            lemma_ser_len(*left);
            lemma_ser_len(*right);
        },
    }
}

/// The tree with every frequency cleared: what parsing recovers, since the
/// serialized form stores only the shape and the leaf bytes.
pub open spec fn strip(t: Node) -> Node
    decreases t,
{
    match t {
        Node::Leaf { byte, .. } => Node::Leaf { byte, freq: 0 },
        Node::Internal { left, right, .. } => Node::Internal {
            freq: 0,
            left: Box::new(strip(*left)),
            right: Box::new(strip(*right)),
        },
    }
}

/// Parse one pre-order node starting at bit `i`: a set bit opens a leaf and
/// eight bits of byte value, a clear bit opens two child parses. `None` when
/// the stream ends first. The range guard on the left child's end keeps the
/// recursion well-founded; a real parse always lands inside it.
pub open spec fn spec_parse(bits: Seq<bool>, i: int) -> Option<(Node, int)>
    decreases bits.len() - i,
{
    if i < 0 || i >= bits.len() {
        None
    } else if bits[i] {
        if i + 9 <= bits.len() {
            Some((Node::Leaf { byte: byte_of_bits(bits.subrange(i + 1, i + 9)), freq: 0 }, i + 9))
        } else {
            None
        }
    } else {
        match spec_parse(bits, i + 1) {
            Some((l, j)) => {
                if i + 1 <= j && j <= bits.len() {
                    match spec_parse(bits, j) {
                        Some((r, k)) => Some(
                            (Node::Internal { freq: 0, left: Box::new(l), right: Box::new(r) }, k),
                        ),
                        None => None,
                    }
                } else {
                    None
                }
            },
            None => None,
        }
    }
}

/// Parsing a serialized tree at `i` recovers its shape exactly and stops
/// just past it; bits beyond are not touched.
pub proof fn lemma_parse_ser(t: Node, bits: Seq<bool>, i: int)
    requires
        0 <= i,
        i + ser_tree(t).len() <= bits.len(),
        bits.subrange(i, i + ser_tree(t).len()) == ser_tree(t),
    ensures
        spec_parse(bits, i) == Some((strip(t), i + ser_tree(t).len())),
    decreases t,
{
    let s = ser_tree(t);
    assert(bits[i] == s[0]);
    match t {
        Node::Leaf { byte, .. } => {
            assert(bits.subrange(i + 1, i + 9) =~= byte_bits(byte)) by {
                assert forall|k: int| 0 <= k < 8 implies bits.subrange(i + 1, i + 9)[k]
                    == byte_bits(byte)[k] by {
                    assert(bits[i + 1 + k] == s[1 + k]);
                }
            }
            crate::bits::lemma_byte_of_byte_bits(byte);
        },
        Node::Internal { left, right, .. } => {
            let sl = ser_tree(*left);
            let sr = ser_tree(*right);
            lemma_ser_len(*left);
            lemma_ser_len(*right);
            assert(s.len() == 1 + sl.len() + sr.len());
            assert(bits.subrange(i + 1, i + 1 + sl.len()) =~= sl) by {
                assert forall|k: int| 0 <= k < sl.len() implies bits.subrange(
                    i + 1,
                    i + 1 + sl.len(),
                )[k] == sl[k] by {
                    assert(bits[i + 1 + k] == s[1 + k]);
                }
            }
            lemma_parse_ser(*left, bits, i + 1);
            let j = i + 1 + sl.len();
            assert(bits.subrange(j, j + sr.len()) =~= sr) by {
                assert forall|k: int| 0 <= k < sr.len() implies bits.subrange(j, j + sr.len())[k]
                    == sr[k] by {
                    assert(bits[j + k] == s[1 + sl.len() + k]);
                }
            }
            lemma_parse_ser(*right, bits, j);
        },
    }
}

/// Append the pre-order bit encoding of `t` to `out`.
pub fn serialize_into(t: &Node, out: &mut Vec<bool>)
    ensures
        final(out)@ == old(out)@ + ser_tree(*t),
    decreases *t,
{
    match t {
        Node::Leaf { byte, .. } => {
            out.push(true);
            let mut j: u8 = 0;
            while j < 8
                invariant
                    j <= 8,
                    out@ == old(out)@ + seq![true] + byte_bits(*byte).take(j as int),
                decreases 8 - j,
            {
                let bit: bool = (*byte >> (7 - j)) & 1 == 1;
                proof {
                    assert(bit == u8_bit(*byte, j as int));
                    assert(byte_bits(*byte).take(j + 1) =~= byte_bits(*byte).take(j as int).push(
                        u8_bit(*byte, j as int),
                    ));
                }
                out.push(bit);
                j = j + 1;
            }
            proof {
                assert(byte_bits(*byte).take(8) =~= byte_bits(*byte));
                assert(out@ =~= old(out)@ + ser_tree(*t));
            }
        },
        Node::Internal { left, right, .. } => {
            out.push(false);
            serialize_into(left, out);
            serialize_into(right, out);
            proof {
                assert(out@ =~= old(out)@ + ser_tree(*t));
            }
        },
    }
}

/// 1 if the bit at `idx` is set, 0 otherwise.
fn bitval(bits: &Vec<bool>, idx: u64) -> (r: u8)
    requires
        idx < bits@.len(),
    ensures
        r == (if bits@[idx as int] {
            1u8
        } else {
            0u8
        }),
{
    let n: usize = bits.len();
    assert(idx < n as u64);
    if bits[idx as usize] {
        1
    } else {
        0
    }
}

/// Parse one pre-order node at bit `i`, failing on a truncated stream.
pub fn parse_node(bits: &Vec<bool>, i: u64) -> (r: Result<(Node, u64), HuffError>)
    ensures
        (match r {
            Ok((t, j)) => spec_parse(bits@, i as int) == Some((t, j as int)) && i < j
                <= bits@.len(),
            Err(e) => spec_parse(bits@, i as int) is None && e == HuffError::Format,
        }),
    decreases bits@.len() - i,
{
    let n: usize = bits.len();
    if i >= n as u64 {
        return Err(HuffError::Format);
    }
    if bits[i as usize] {
        if n as u64 - i >= 9 {
            let b0 = bitval(bits, i + 1);
            let b1 = bitval(bits, i + 2);
            let b2 = bitval(bits, i + 3);
            let b3 = bitval(bits, i + 4);
            let b4 = bitval(bits, i + 5);
            let b5 = bitval(bits, i + 6);
            let b6 = bitval(bits, i + 7);
            let b7 = bitval(bits, i + 8);
            let x: u8 = 128 * b0 + 64 * b1 + 32 * b2 + 16 * b3 + 8 * b4 + 4 * b5 + 2 * b6 + b7;
            proof {
                let sub = bits@.subrange(i + 1, i + 9);
                assert forall|k: int| 0 <= k < 8 implies bitv(sub, k) == (if bits@[i + 1 + k] {
                    1u8
                } else {
                    0u8
                }) by {
                    assert(sub[k] == bits@[i + 1 + k]);
                }
                assert(x == byte_of_bits(sub));
            }
            Ok((Node::Leaf { byte: x, freq: 0 }, i + 9))
        } else {
            Err(HuffError::Format)
        }
    } else {
        match parse_node(bits, i + 1) {
            Err(e) => Err(e),
            Ok((l, j)) => {
                match parse_node(bits, j) {
                    Err(e) => Err(e),
                    Ok((r2, k)) => Ok(
                        (Node::Internal { freq: 0, left: Box::new(l), right: Box::new(r2) }, k),
                    ),
                }
            },
        }
    }
}

} // verus!
