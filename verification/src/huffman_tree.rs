use vstd::prelude::*;

verus! {

/// A node of a Huffman code tree.
///
/// Every node carries the total frequency of the symbols below it and a
/// sequence number; the pair orders nodes in the priority queue that
/// builds the tree (lower frequency first, then lower sequence number).
pub enum Node {
    Leaf { symbol: u8, freq: u64, seq: u64 },
    Branch { freq: u64, seq: u64, left: Box<Node>, right: Box<Node> },
}

pub open spec fn node_freq(n: Node) -> u64 {
    match n {
        Node::Leaf { freq, .. } => freq,
        Node::Branch { freq, .. } => freq,
    }
}

pub open spec fn node_seq(n: Node) -> u64 {
    match n {
        Node::Leaf { seq, .. } => seq,
        Node::Branch { seq, .. } => seq,
    }
}

/// `a` leaves the priority queue before `b`: smaller frequency, or equal
/// frequency and smaller sequence number.
pub open spec fn pops_before(a: Node, b: Node) -> bool {
    node_freq(a) < node_freq(b) || (node_freq(a) == node_freq(b) && node_seq(a) < node_seq(b))
}

/// Position of the node that the priority queue hands out next
/// (the first one among those that no other node pops before).
pub open spec fn min_index(q: Seq<Node>) -> int
    decreases q.len(),
{
    if q.len() <= 1 {
        0
    } else {
        let m = min_index(q.drop_last());
        if pops_before(q.last(), q[m]) {
            q.len() - 1
        } else {
            m
        }
    }
}

/// The branch that joins `a` (taken as the `false` side) and `b`
/// (the `true` side) under sequence number `seq`.
pub open spec fn join(a: Node, b: Node, seq: u64) -> Node {
    Node::Branch {
        freq: (node_freq(a) + node_freq(b)) as u64,
        seq,
        left: Box::new(a),
        right: Box::new(b),
    }
}

/// Repeatedly take the two nodes that pop first out of `q`, join them under
/// the next sequence number and put the result back, until one node is left.
pub open spec fn merge_all(q: Seq<Node>, counter: u64) -> Node
    decreases q.len(),
{
    if q.len() <= 1 {
        q[0]
    } else {
        proof {
            lemma_min_index(q);
            lemma_min_index(q.remove(min_index(q)));
        }
        let i = min_index(q);
        let a = q[i];
        let q1 = q.remove(i);
        let j = min_index(q1);
        let b = q1[j];
        let q2 = q1.remove(j);
        merge_all(q2.push(join(a, b, counter)), (counter + 1) as u64)
    }
}

/// The leaves for the first `n` symbols of `freqs`: one per symbol of
/// nonzero frequency, in symbol order, numbered from 0.
pub open spec fn leaves_upto(freqs: Seq<u64>, n: nat) -> Seq<Node>
    decreases n,
{
    if n == 0 {
        Seq::empty()
    } else {
        let prev = leaves_upto(freqs, (n - 1) as nat);
        if freqs[n - 1] > 0 {
            prev.push(
                Node::Leaf { symbol: (n - 1) as u8, freq: freqs[n - 1], seq: prev.len() as u64 },
            )
        } else {
            prev
        }
    }
}

pub open spec fn leaves(freqs: Seq<u64>) -> Seq<Node> {
    leaves_upto(freqs, freqs.len())
}

/// The Huffman tree of a frequency table.
pub open spec fn huffman_tree(freqs: Seq<u64>) -> Node {
    merge_all(leaves(freqs), leaves(freqs).len() as u64)
}

/// Sum of the first `n` frequencies.
pub open spec fn freq_total(freqs: Seq<u64>, n: nat) -> int
    decreases n,
{
    if n == 0 {
        0
    } else {
        freq_total(freqs, (n - 1) as nat) + freqs[n - 1]
    }
}

/// A frequency table from which a tree can be built: some symbol occurs,
/// and the frequencies add up without overflowing `u64`.
pub open spec fn buildable(freqs: Seq<u64>) -> bool {
    &&& exists|i: int| 0 <= i < freqs.len() && freqs[i] > 0
    &&& freq_total(freqs, freqs.len()) <= u64::MAX
}

/// How often symbol `s` stands at a leaf of `n`.
pub open spec fn sym_count(n: Node, s: u8) -> nat
    decreases n,
{
    match n {
        Node::Leaf { symbol, .. } => if symbol == s {
            1
        } else {
            0
        },
        Node::Branch { left, right, .. } => sym_count(*left, s) + sym_count(*right, s),
    }
}

/// Every leaf frequency is positive and every branch carries the sum of
/// its children's frequencies.
pub open spec fn weights_consistent(n: Node) -> bool
    decreases n,
{
    match n {
        Node::Leaf { freq, .. } => freq > 0,
        Node::Branch { freq, left, right, .. } => {
            &&& freq == node_freq(*left) + node_freq(*right)
            &&& weights_consistent(*left)
            &&& weights_consistent(*right)
        },
    }
}

pub open spec fn queue_count(q: Seq<Node>, s: u8) -> nat
    decreases q.len(),
{
    if q.len() == 0 {
        0
    } else {
        queue_count(q.drop_last(), s) + sym_count(q.last(), s)
    }
}

pub open spec fn queue_freq(q: Seq<Node>) -> int
    decreases q.len(),
{
    if q.len() == 0 {
        0
    } else {
        queue_freq(q.drop_last()) + node_freq(q.last())
    }
}

pub open spec fn queue_consistent(q: Seq<Node>) -> bool {
    forall|i: int| 0 <= i < q.len() ==> #[trigger] weights_consistent(q[i])
}

impl Node {
    pub fn freq(&self) -> (r: u64)
        ensures
            r == node_freq(*self),
    {
        match self {
            Node::Leaf { freq, .. } => *freq,
            Node::Branch { freq, .. } => *freq,
        }
    }

    pub fn seq(&self) -> (r: u64)
        ensures
            r == node_seq(*self),
    {
        match self {
            Node::Leaf { seq, .. } => *seq,
            Node::Branch { seq, .. } => *seq,
        }
    }
}

/// The node that pops next is in range, and no other node pops before it.
pub proof fn lemma_min_index(q: Seq<Node>)
    requires
        q.len() >= 1,
    ensures
        0 <= min_index(q) < q.len(),
        forall|j: int| 0 <= j < q.len() ==> !pops_before(#[trigger] q[j], q[min_index(q)]),
    decreases q.len(),
{
    if q.len() > 1 {
        lemma_min_index(q.drop_last());
        let m = min_index(q.drop_last());
        assert forall|j: int| 0 <= j < q.len() implies !pops_before(
            #[trigger] q[j],
            q[min_index(q)],
        ) by {
            if j < q.len() - 1 {
                assert(q[j] == q.drop_last()[j]);
            }
        }
    }
}

proof fn lemma_queue_remove(q: Seq<Node>, i: int)
    requires
        0 <= i < q.len(),
    ensures
        queue_freq(q) == node_freq(q[i]) + queue_freq(q.remove(i)),
        forall|s: u8| #[trigger] queue_count(q, s) == sym_count(q[i], s) + queue_count(q.remove(i), s),
    decreases q.len(),
{
    if i == q.len() - 1 {
        assert(q.remove(i) =~= q.drop_last());
    } else {
        lemma_queue_remove(q.drop_last(), i);
        assert(q.remove(i).drop_last() =~= q.drop_last().remove(i));
        assert(q.remove(i).last() == q.last());
        assert forall|s: u8| #[trigger] queue_count(q, s) == sym_count(q[i], s) + queue_count(
            q.remove(i),
            s,
        ) by {
            assert(queue_count(q.drop_last(), s) == sym_count(q.drop_last()[i], s)
                + queue_count(q.drop_last().remove(i), s));
        }
    }
}

proof fn lemma_consistent_remove(q: Seq<Node>, i: int)
    requires
        0 <= i < q.len(),
        queue_consistent(q),
    ensures
        queue_consistent(q.remove(i)),
{
    assert forall|k: int| 0 <= k < q.remove(i).len() implies #[trigger] weights_consistent(
        q.remove(i)[k],
    ) by {
        if k < i {
            assert(q.remove(i)[k] == q[k]);
        } else {
            assert(q.remove(i)[k] == q[k + 1]);
        }
    }
}

proof fn lemma_queue_push(q: Seq<Node>, n: Node)
    ensures
        queue_freq(q.push(n)) == queue_freq(q) + node_freq(n),
        forall|s: u8| #[trigger] queue_count(q.push(n), s) == queue_count(q, s) + sym_count(n, s),
{
    assert(q.push(n).drop_last() =~= q);
}

proof fn lemma_queue_freq_nonneg(q: Seq<Node>)
    ensures
        queue_freq(q) >= 0,
    decreases q.len(),
{
    if q.len() > 0 {
        lemma_queue_freq_nonneg(q.drop_last());
    }
}

/// One merge step keeps the total frequency and the symbol counts of the
/// queue, and the consistency of its trees.
pub(crate) proof fn lemma_merge_step(q: Seq<Node>, counter: u64)
    requires
        q.len() >= 2,
        queue_freq(q) <= u64::MAX,
        queue_consistent(q),
    ensures
        ({
            let i = min_index(q);
            let q1 = q.remove(i);
            let j = min_index(q1);
            let q2 = q1.remove(j);
            let next = q2.push(join(q[i], q1[j], counter));
            &&& node_freq(q[i]) + node_freq(q1[j]) <= queue_freq(q)
            &&& queue_freq(next) == queue_freq(q)
            &&& forall|s: u8| #[trigger] queue_count(next, s) == queue_count(q, s)
            &&& queue_consistent(next)
            &&& next.len() == q.len() - 1
        }),
{
    let i = min_index(q);
    lemma_min_index(q);
    let q1 = q.remove(i);
    lemma_min_index(q1);
    let j = min_index(q1);
    let q2 = q1.remove(j);
    let m = join(q[i], q1[j], counter);
    lemma_queue_remove(q, i);
    lemma_queue_remove(q1, j);
    lemma_queue_freq_nonneg(q2);
    lemma_queue_push(q2, m);
    let next = q2.push(m);
    lemma_consistent_remove(q, i);
    lemma_consistent_remove(q1, j);
    assert(weights_consistent(q[i]));
    assert(weights_consistent(q1[j]));
    assert(weights_consistent(m));
    assert forall|k: int| 0 <= k < next.len() implies #[trigger] weights_consistent(next[k]) by {
        if k < q2.len() {
            assert(next[k] == q2[k]);
        }
    }
}

/// The tree that the merging ends in carries the whole frequency and all
/// symbols of the queue, and its weights are consistent.
proof fn lemma_merge_all(q: Seq<Node>, counter: u64)
    requires
        q.len() >= 1,
        queue_freq(q) <= u64::MAX,
        queue_consistent(q),
    ensures
        node_freq(merge_all(q, counter)) == queue_freq(q),
        forall|s: u8| #[trigger] sym_count(merge_all(q, counter), s) == queue_count(q, s),
        weights_consistent(merge_all(q, counter)),
    decreases q.len(),
{
    if q.len() == 1 {
        assert(q.drop_last() =~= Seq::<Node>::empty());
        assert(weights_consistent(q[0]));
        assert(queue_freq(q.drop_last()) == 0);
        assert(queue_freq(q) == node_freq(q[0]));
        assert forall|s: u8| #[trigger] sym_count(merge_all(q, counter), s) == queue_count(q, s) by {
            assert(queue_count(q, s) == queue_count(q.drop_last(), s) + sym_count(q[0], s));
        }
    } else {
        lemma_merge_step(q, counter);
        let i = min_index(q);
        let q1 = q.remove(i);
        let j = min_index(q1);
        let q2 = q1.remove(j);
        let next = q2.push(join(q[i], q1[j], counter));
        lemma_merge_all(next, (counter + 1) as u64);
        assert(merge_all(q, counter) == merge_all(next, (counter + 1) as u64));
        assert forall|s: u8| #[trigger] sym_count(merge_all(q, counter), s) == queue_count(q, s) by {
            assert(queue_count(next, s) == queue_count(q, s));
        }
    }
}

pub(crate) proof fn lemma_leaves_upto(freqs: Seq<u64>, n: nat)
    requires
        n <= freqs.len(),
        n <= 256,
    ensures
        queue_consistent(leaves_upto(freqs, n)),
        queue_freq(leaves_upto(freqs, n)) == freq_total(freqs, n),
        forall|s: u8| #[trigger]
            queue_count(leaves_upto(freqs, n), s) == if (s as int) < n && freqs[s as int] > 0 {
                1nat
            } else {
                0nat
            },
        leaves_upto(freqs, n).len() <= n,
        leaves_upto(freqs, n).len() > 0 <==> exists|i: int| 0 <= i < n && freqs[i] > 0,
    decreases n,
{
    if n > 0 {
        let prev = leaves_upto(freqs, (n - 1) as nat);
        lemma_leaves_upto(freqs, (n - 1) as nat);
        if freqs[n - 1] > 0 {
            let leaf = Node::Leaf {
                symbol: (n - 1) as u8,
                freq: freqs[n - 1],
                seq: prev.len() as u64,
            };
            lemma_queue_push(prev, leaf);
            assert forall|k: int| 0 <= k < prev.push(leaf).len() implies #[trigger] weights_consistent(
                prev.push(leaf)[k],
            ) by {
                if k < prev.len() {
                    assert(prev.push(leaf)[k] == prev[k]);
                }
            }
            assert forall|s: u8| #[trigger]
                queue_count(leaves_upto(freqs, n), s) == if (s as int) < n && freqs[s as int] > 0 {
                    1nat
                } else {
                    0nat
                } by {
                assert(queue_count(prev.push(leaf), s) == queue_count(prev, s) + sym_count(leaf, s));
            }
        } else {
            assert forall|s: u8| #[trigger]
                queue_count(leaves_upto(freqs, n), s) == if (s as int) < n && freqs[s as int] > 0 {
                    1nat
                } else {
                    0nat
                } by {
                assert(queue_count(prev, s) == if (s as int) < n - 1 && freqs[s as int] > 0 {
                    1nat
                } else {
                    0nat
                });
            }
        }
        if exists|i: int| 0 <= i < n && freqs[i] > 0 {
            let i = choose|i: int| 0 <= i < n && freqs[i] > 0;
            if i < n - 1 {
                assert(exists|i: int| 0 <= i < n - 1 && freqs[i] > 0);
            }
        }
    }
}

/// What the Huffman tree of a frequency table holds: each symbol of
/// nonzero frequency at exactly one leaf and no other symbol, the whole
/// frequency at the root, and at every branch the sum of its children.
pub proof fn lemma_huffman_tree(freqs: Seq<u64>)
    requires
        freqs.len() == 256,
        buildable(freqs),
    ensures
        node_freq(huffman_tree(freqs)) == freq_total(freqs, 256),
        forall|s: u8| #[trigger]
            sym_count(huffman_tree(freqs), s) == if freqs[s as int] > 0 {
                1nat
            } else {
                0nat
            },
        weights_consistent(huffman_tree(freqs)),
{
    lemma_leaves_upto(freqs, 256);
    let q = leaves(freqs);
    lemma_merge_all(q, q.len() as u64);
    assert forall|s: u8| #[trigger]
        sym_count(huffman_tree(freqs), s) == if freqs[s as int] > 0 {
            1nat
        } else {
            0nat
        } by {
        assert(queue_count(q, s) == if (s as int) < 256 && freqs[s as int] > 0 {
            1nat
        } else {
            0nat
        });
    }
}

/// Takes the node that the priority queue hands out next.
fn pop_min(heap: &mut Vec<Node>) -> (r: Node)
    requires
        old(heap).len() >= 1,
    ensures
        r == old(heap)@[min_index(old(heap)@)],
        final(heap)@ == old(heap)@.remove(min_index(old(heap)@)),
{
    let mut best: usize = 0;
    let mut i: usize = 1;
    proof {
        assert(heap@.take(1).drop_last() =~= Seq::<Node>::empty());
    }
    while i < heap.len()
        invariant
            1 <= i <= heap.len(),
            best == min_index(heap@.take(i as int)),
            0 <= best < i,
        decreases heap.len() - i,
    {
        let ghost prefix = heap@.take(i as int);
        let cand = &heap[i];
        let cur = &heap[best];
        let cf = cand.freq();
        let bf = cur.freq();
        let cs = cand.seq();
        let bs = cur.seq();
        proof {
            assert(heap@.take(i + 1).drop_last() =~= prefix);
            assert(heap@.take(i + 1).last() == heap@[i as int]);
            assert(prefix[best as int] == heap@[best as int]);
        }
        if cf < bf || (cf == bf && cs < bs) {
            best = i;
        }
        i = i + 1;
    }
    proof {
        assert(heap@.take(i as int) =~= heap@);
    }
    heap.remove(best)
}

/// Builds the Huffman tree of `freqs`: a leaf for each symbol of nonzero
/// frequency (numbered in symbol order), then the two nodes of least
/// frequency (ties go to the lower number) are joined, the first one on the
/// `false` side, until one tree is left.
pub fn build_tree(freqs: &[u64; 256]) -> (tree: Node)
    requires
        buildable(freqs@),
    ensures
        tree == huffman_tree(freqs@),
{
    let mut heap: Vec<Node> = Vec::new();
    let mut counter: u64 = 0;
    let mut sym: usize = 0;
    while sym < 256
        invariant
            sym <= 256,
            freqs@.len() == 256,
            heap@ == leaves_upto(freqs@, sym as nat),
            counter == heap.len(),
            counter <= sym,
        decreases 256 - sym,
    {
        let f = freqs[sym];
        if f > 0 {
            heap.push(Node::Leaf { symbol: sym as u8, freq: f, seq: counter });
            counter = counter + 1;
        }
        sym = sym + 1;
    }
    proof {
        lemma_leaves_upto(freqs@, 256);
        let i = choose|i: int| 0 <= i < freqs@.len() && freqs@[i] > 0;
        assert(0 <= i < 256 && freqs@[i] > 0);
    }
    let ghost total = freq_total(freqs@, 256);
    let ghost n = heap.len();
    while heap.len() > 1
        invariant
            heap.len() >= 1,
            merge_all(heap@, counter) == huffman_tree(freqs@),
            queue_freq(heap@) == total,
            total <= u64::MAX,
            queue_consistent(heap@),
            counter + heap.len() == 2 * n,
            n <= 256,
        decreases heap.len(),
    {
        let ghost q = heap@;
        proof {
            lemma_merge_step(q, counter);
            lemma_min_index(q);
            lemma_min_index(q.remove(min_index(q)));
        }
        let a = pop_min(&mut heap);
        let b = pop_min(&mut heap);
        let f = a.freq() + b.freq();
        let merged = Node::Branch { freq: f, seq: counter, left: Box::new(a), right: Box::new(b) };
        heap.push(merged);
        counter = counter + 1;
    }
    proof {
        assert(heap@.len() == 1);
    }
    heap.remove(0)
}

/// The fixed frequency of byte `i`: 256 less its distance from 128.
pub open spec fn static_freq(i: int) -> u64 {
    if i < 128 {
        (128 + i) as u64
    } else {
        (384 - i) as u64
    }
}

/// The fixed frequency table, which favours bytes near 128.
pub open spec fn static_freq_table() -> Seq<u64> {
    Seq::new(256, |i: int| static_freq(i))
}

proof fn lemma_freq_total_bound(freqs: Seq<u64>, n: nat, bound: int)
    requires
        n <= freqs.len(),
        forall|i: int| 0 <= i < n ==> freqs[i] <= bound,
    ensures
        freq_total(freqs, n) <= n * bound,
    decreases n,
{
    if n > 0 {
        lemma_freq_total_bound(freqs, (n - 1) as nat, bound);
        assert((n - 1) * bound + bound == n * bound) by (nonlinear_arith);
    } else {
        assert(0 * bound == 0) by (nonlinear_arith);
    }
}

/// The fixed table gives every byte a positive frequency, and its total
/// fits in `u64`.
pub proof fn lemma_static_freqs_buildable()
    ensures
        buildable(static_freq_table()),
        static_freq_table().len() == 256,
        forall|i: int| 0 <= i < 256 ==> #[trigger] static_freq_table()[i] > 0,
{
    let f = static_freq_table();
    lemma_freq_total_bound(f, 256, 256);
    assert(f[0] > 0);
}

/// The fixed frequency table: byte `i` has frequency `256 - |i - 128|`.
pub fn static_freqs() -> (freqs: [u64; 256])
    ensures
        freqs@ == static_freq_table(),
{
    let mut freqs = [1u64; 256];
    let mut i: usize = 0;
    while i < 256
        invariant
            i <= 256,
            freqs@.len() == 256,
            forall|j: int| 0 <= j < i ==> freqs@[j] == static_freq(j),
        decreases 256 - i,
    {
        let dist: u64 = if i < 128 {
            (128 - i) as u64
        } else {
            (i - 128) as u64
        };
        freqs[i] = 256 - dist;
        i = i + 1;
    }
    proof {
        assert(freqs@ =~= static_freq_table());
    }
    freqs
}

} // verus!
