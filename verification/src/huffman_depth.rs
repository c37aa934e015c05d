use vstd::prelude::*;

use crate::huffman_code::{code_table, lemma_code_table};
use crate::huffman_tree::{
    Node, buildable, huffman_tree, join, leaves, leaves_upto, lemma_merge_step, lemma_min_index,
    merge_all, min_index, node_freq, node_seq, pops_before, queue_consistent, queue_freq,
    sym_count,
};

verus! {

/// Depth of the leaf of symbol `s` in `n` (the one on the `true` side
/// where the symbol stands at two leaves).
pub open spec fn leaf_depth(n: Node, s: u8) -> nat
    decreases n,
{
    match n {
        Node::Leaf { .. } => 0,
        Node::Branch { left, right, .. } => if sym_count(*right, s) > 0 {
            1 + leaf_depth(*right, s)
        } else {
            1 + leaf_depth(*left, s)
        },
    }
}

/// A code word is as long as its leaf is deep.
pub proof fn lemma_code_len_depth(n: Node, prefix: Seq<bool>, s: u8)
    requires
        sym_count(n, s) > 0,
    ensures
        code_table(n, prefix).contains_key(s),
        code_table(n, prefix)[s].len() == prefix.len() + leaf_depth(n, s),
    decreases n,
{
    lemma_code_table(n, prefix);
    if let Node::Branch { left, right, .. } = n {
        let pl = prefix.push(false);
        let pr = prefix.push(true);
        lemma_code_table(*left, pl);
        lemma_code_table(*right, pr);
        if sym_count(*right, s) > 0 {
            lemma_code_len_depth(*right, pr, s);
        } else {
            lemma_code_len_depth(*left, pl, s);
        }
    }
}

/// Position `k` of a sequence after the element at `r` was removed, as a
/// position of the sequence before.
pub open spec fn skip_at(k: int, r: int) -> int {
    if k < r {
        k
    } else {
        k + 1
    }
}

/// In every pair of queue trees that hold `a` and `b`, the leaf of `a` is
/// no deeper than that of `b`, and where the trees differ and the depths
/// are equal, the tree of `b` leaves the queue first.
pub open spec fn depth_ordered(q: Seq<Node>, a: u8, b: u8) -> bool {
    forall|i: int, j: int|
        #![trigger leaf_depth(q[i], a), leaf_depth(q[j], b)]
        0 <= i < q.len() && 0 <= j < q.len() && sym_count(q[i], a) > 0 && sym_count(q[j], b) > 0
            ==> leaf_depth(q[i], a) <= leaf_depth(q[j], b) && (i != j && leaf_depth(q[i], a)
            == leaf_depth(q[j], b) ==> pops_before(q[j], q[i]))
}

/// Every queue tree was numbered before `counter`.
pub open spec fn seqs_below(q: Seq<Node>, counter: u64) -> bool {
    forall|k: int| 0 <= k < q.len() ==> node_seq(#[trigger] q[k]) < counter
}

/// No branch in the queue weighs more than any two queue trees together.
pub open spec fn branches_bounded(q: Seq<Node>) -> bool {
    forall|k: int, i: int, j: int|
        #![trigger q[k], q[i], q[j]]
        0 <= k < q.len() && 0 <= i < q.len() && 0 <= j < q.len() && i != j && q[k] is Branch
            ==> node_freq(q[k]) <= node_freq(q[i]) + node_freq(q[j])
}

/// The queue after one merge step.
pub open spec fn step_next(q: Seq<Node>, counter: u64) -> Seq<Node> {
    let i0 = min_index(q);
    let q1 = q.remove(i0);
    let j0 = min_index(q1);
    q1.remove(j0).push(join(q[i0], q1[j0], counter))
}

/// Position in `q` of the node taken second in a merge step.
pub open spec fn second_pos(q: Seq<Node>) -> int {
    skip_at(min_index(q.remove(min_index(q))), min_index(q))
}

/// Position in `q` of the node at position `k` of the queue after the step
/// (for the nodes that stay).
pub open spec fn origin(q: Seq<Node>, k: int) -> int {
    skip_at(skip_at(k, min_index(q.remove(min_index(q)))), min_index(q))
}

pub(crate) proof fn lemma_step_shape(q: Seq<Node>, counter: u64)
    requires
        q.len() >= 2,
        queue_freq(q) <= u64::MAX,
        queue_consistent(q),
    ensures
        ({
            let i0 = min_index(q);
            let o2 = second_pos(q);
            let next = step_next(q, counter);
            let n2 = q.len() - 2;
            &&& 0 <= i0 < q.len()
            &&& 0 <= o2 < q.len()
            &&& i0 != o2
            &&& next.len() == q.len() - 1
            &&& next[n2] == join(q[i0], q[o2], counter)
            &&& node_freq(next[n2]) == node_freq(q[i0]) + node_freq(q[o2])
            &&& !pops_before(q[o2], q[i0])
            &&& forall|k: int|
                0 <= k < n2 ==> {
                    &&& #[trigger] next[k] == q[origin(q, k)]
                    &&& 0 <= origin(q, k) < q.len()
                    &&& origin(q, k) != i0
                    &&& origin(q, k) != o2
                    &&& !pops_before(q[origin(q, k)], q[i0])
                    &&& !pops_before(q[origin(q, k)], q[o2])
                }
            &&& forall|k1: int, k2: int|
                0 <= k1 < n2 && 0 <= k2 < n2 && k1 != k2 ==> #[trigger] origin(q, k1) != #[trigger] origin(
                    q,
                    k2,
                )
        }),
{
    let i0 = min_index(q);
    lemma_min_index(q);
    let q1 = q.remove(i0);
    lemma_min_index(q1);
    let j0 = min_index(q1);
    let q2 = q1.remove(j0);
    let o2 = skip_at(j0, i0);
    let next = step_next(q, counter);
    let n2 = q2.len() as int;
    lemma_merge_step(q, counter);
    assert(q1[j0] == q[o2]);
    assert forall|k: int| 0 <= k < n2 implies {
        &&& #[trigger] next[k] == q[origin(q, k)]
        &&& 0 <= origin(q, k) < q.len()
        &&& origin(q, k) != i0
        &&& origin(q, k) != o2
        &&& !pops_before(q[origin(q, k)], q[i0])
        &&& !pops_before(q[origin(q, k)], q[o2])
    } by {
        assert(next[k] == q2[k]);
        assert(q2[k] == q1[skip_at(k, j0)]);
        assert(q1[skip_at(k, j0)] == q[skip_at(skip_at(k, j0), i0)]);
    }
}

pub(crate) proof fn lemma_step_seqs(q: Seq<Node>, counter: u64)
    requires
        q.len() >= 2,
        queue_freq(q) <= u64::MAX,
        queue_consistent(q),
        seqs_below(q, counter),
        counter < u64::MAX,
    ensures
        seqs_below(step_next(q, counter), (counter + 1) as u64),
{
    lemma_step_shape(q, counter);
    let next = step_next(q, counter);
    assert forall|k: int| 0 <= k < next.len() implies node_seq(#[trigger] next[k]) < counter + 1 by {
        if k < q.len() - 2 {
            assert(node_seq(q[origin(q, k)]) < counter);
        }
    }
}

proof fn lemma_step_bounded(q: Seq<Node>, counter: u64)
    requires
        q.len() >= 2,
        queue_freq(q) <= u64::MAX,
        queue_consistent(q),
        branches_bounded(q),
    ensures
        branches_bounded(step_next(q, counter)),
{
    lemma_step_shape(q, counter);
    let next = step_next(q, counter);
    let i0 = min_index(q);
    let o2 = second_pos(q);
    let n2 = q.len() - 2;
    assert forall|k: int, i: int, j: int|
        #![trigger next[k], next[i], next[j]]
        0 <= k < next.len() && 0 <= i < next.len() && 0 <= j < next.len() && i != j
            && next[k] is Branch implies node_freq(next[k]) <= node_freq(next[i]) + node_freq(
        next[j],
    ) by {
        if k < n2 {
            let ok = origin(q, k);
            assert(q[ok] == next[k]);
            assert(node_freq(q[ok]) <= node_freq(q[i0]) + node_freq(q[o2]));
        }
        if i < n2 {
            assert(next[i] == q[origin(q, i)]);
            assert(!pops_before(q[origin(q, i)], q[o2]));
        }
        if j < n2 {
            assert(next[j] == q[origin(q, j)]);
            assert(!pops_before(q[origin(q, j)], q[o2]));
        }
    }
}

proof fn lemma_step_ordered(q: Seq<Node>, counter: u64, a: u8, b: u8)
    requires
        q.len() >= 2,
        queue_freq(q) <= u64::MAX,
        queue_consistent(q),
        seqs_below(q, counter),
        branches_bounded(q),
        depth_ordered(q, a, b),
    ensures
        depth_ordered(step_next(q, counter), a, b),
{
    lemma_step_shape(q, counter);
    let next = step_next(q, counter);
    let i0 = min_index(q);
    let o2 = second_pos(q);
    let n2 = q.len() - 2;
    let x1 = q[i0];
    let x2 = q[o2];
    let m = next[n2];
    assert forall|i: int, j: int|
        #![trigger leaf_depth(next[i], a), leaf_depth(next[j], b)]
        0 <= i < next.len() && 0 <= j < next.len() && sym_count(next[i], a) > 0 && sym_count(
            next[j],
            b,
        ) > 0 implies leaf_depth(next[i], a) <= leaf_depth(next[j], b) && (i != j && leaf_depth(
        next[i],
        a,
    ) == leaf_depth(next[j], b) ==> pops_before(next[j], next[i])) by {
        let oi = if i < n2 {
            origin(q, i)
        } else if sym_count(x2, a) > 0 {
            o2
        } else {
            i0
        };
        let oj = if j < n2 {
            origin(q, j)
        } else if sym_count(x2, b) > 0 {
            o2
        } else {
            i0
        };
        if i < n2 {
            assert(next[i] == q[oi]);
        } else {
            assert(sym_count(m, a) == sym_count(x1, a) + sym_count(x2, a));
            assert(leaf_depth(m, a) == 1 + leaf_depth(q[oi], a));
        }
        if j < n2 {
            assert(next[j] == q[oj]);
        } else {
            assert(sym_count(m, b) == sym_count(x1, b) + sym_count(x2, b));
            assert(leaf_depth(m, b) == 1 + leaf_depth(q[oj], b));
        }
        assert(leaf_depth(q[oi], a) <= leaf_depth(q[oj], b));
        if i == n2 && j < n2 {
            assert(!pops_before(q[oj], q[oi]));
            assert(oi != oj);
            assert(leaf_depth(q[oi], a) < leaf_depth(q[oj], b));
            if leaf_depth(next[i], a) == leaf_depth(next[j], b) {
                assert(q[oj] is Branch);
                assert(node_freq(q[oj]) <= node_freq(q[i0]) + node_freq(q[o2]));
                assert(node_seq(q[oj]) < counter);
            }
        }
        if i < n2 && j < n2 && i != j {
            assert(oi != oj);
        }
    }
}

proof fn lemma_merge_all_depth(q: Seq<Node>, counter: u64, a: u8, b: u8)
    requires
        q.len() >= 1,
        counter + q.len() < u64::MAX,
        queue_freq(q) <= u64::MAX,
        queue_consistent(q),
        seqs_below(q, counter),
        branches_bounded(q),
        depth_ordered(q, a, b),
    ensures
        depth_ordered(seq![merge_all(q, counter)], a, b),
    decreases q.len(),
{
    if q.len() == 1 {
        assert(seq![merge_all(q, counter)] =~= q);
    } else {
        lemma_step_seqs(q, counter);
        lemma_step_bounded(q, counter);
        lemma_step_ordered(q, counter, a, b);
        lemma_merge_step(q, counter);
        let next = step_next(q, counter);
        assert(merge_all(q, counter) == merge_all(next, (counter + 1) as u64));
        lemma_merge_all_depth(next, (counter + 1) as u64, a, b);
    }
}

pub(crate) proof fn lemma_leaves_shape(freqs: Seq<u64>, n: nat)
    requires
        n <= freqs.len(),
        n <= 256,
    ensures
        forall|k: int|
            0 <= k < leaves_upto(freqs, n).len() ==> {
                let l = #[trigger] leaves_upto(freqs, n)[k];
                &&& l is Leaf
                &&& node_seq(l) == k
                &&& forall|s: u8| sym_count(l, s) > 0 ==> node_freq(l) == freqs[s as int]
            },
    decreases n,
{
    if n > 0 {
        lemma_leaves_shape(freqs, (n - 1) as nat);
        crate::huffman_tree::lemma_leaves_upto(freqs, (n - 1) as nat);
        let prev = leaves_upto(freqs, (n - 1) as nat);
        if freqs[n - 1] > 0 {
            assert forall|k: int| 0 <= k < leaves_upto(freqs, n).len() implies {
                let l = #[trigger] leaves_upto(freqs, n)[k];
                &&& l is Leaf
                &&& node_seq(l) == k
                &&& forall|s: u8| sym_count(l, s) > 0 ==> node_freq(l) == freqs[s as int]
            } by {
                if k < prev.len() {
                    assert(leaves_upto(freqs, n)[k] == prev[k]);
                    let l = prev[k];
                    assert(l is Leaf);
                    assert(node_seq(l) == k);
                    assert(forall|s: u8| sym_count(l, s) > 0 ==> node_freq(l) == freqs[s as int]);
                } else {
                    let l = leaves_upto(freqs, n)[k];
                    assert(l == Node::Leaf {
                        symbol: (n - 1) as u8,
                        freq: freqs[n - 1],
                        seq: prev.len() as u64,
                    });
                    assert forall|s: u8| sym_count(l, s) > 0 implies node_freq(l) == freqs[s as int] by {
                        assert(s == (n - 1) as u8);
                        assert(s as int == n - 1);
                    }
                }
            }
        }
    }
}

/// Of two symbols, the strictly more frequent one has a code word no
/// longer than the other's.
pub proof fn lemma_more_frequent_not_longer(freqs: Seq<u64>, a: u8, b: u8)
    requires
        freqs.len() == 256,
        buildable(freqs),
        freqs[a as int] > freqs[b as int],
        freqs[b as int] > 0,
    ensures
        code_table(huffman_tree(freqs), Seq::empty()).contains_key(a),
        code_table(huffman_tree(freqs), Seq::empty()).contains_key(b),
        code_table(huffman_tree(freqs), Seq::empty())[a].len() <= code_table(
            huffman_tree(freqs),
            Seq::empty(),
        )[b].len(),
{
    let q = leaves(freqs);
    crate::huffman_tree::lemma_huffman_tree(freqs);
    lemma_leaves_facts(freqs);
    lemma_leaves_shape(freqs, 256);
    let t = huffman_tree(freqs);
    assert forall|k: int| 0 <= k < q.len() implies node_seq(#[trigger] q[k]) < q.len() as u64 by {}
    assert forall|k: int, i: int, j: int|
        #![trigger q[k], q[i], q[j]]
        0 <= k < q.len() && 0 <= i < q.len() && 0 <= j < q.len() && i != j && q[k] is Branch
            implies node_freq(q[k]) <= node_freq(q[i]) + node_freq(q[j]) by {
        assert(q[k] is Leaf);
    }
    assert forall|i: int, j: int|
        #![trigger leaf_depth(q[i], a), leaf_depth(q[j], b)]
        0 <= i < q.len() && 0 <= j < q.len() && sym_count(q[i], a) > 0 && sym_count(q[j], b) > 0
            implies leaf_depth(q[i], a) <= leaf_depth(q[j], b) && (i != j && leaf_depth(q[i], a)
            == leaf_depth(q[j], b) ==> pops_before(q[j], q[i])) by {
        assert(q[i] is Leaf && q[j] is Leaf);
        assert(node_freq(q[i]) == freqs[a as int]);
        assert(node_freq(q[j]) == freqs[b as int]);
    }
    lemma_merge_all_depth(q, q.len() as u64, a, b);
    assert(seq![t][0] == t);
    assert(sym_count(t, a) == 1);
    assert(sym_count(t, b) == 1);
    assert(leaf_depth(t, a) <= leaf_depth(t, b));
    lemma_code_len_depth(t, Seq::empty(), a);
    lemma_code_len_depth(t, Seq::empty(), b);
}

pub(crate) proof fn lemma_leaves_facts(freqs: Seq<u64>)
    requires
        freqs.len() == 256,
        buildable(freqs),
    ensures
        leaves(freqs).len() >= 1,
        leaves(freqs).len() <= 256,
        queue_freq(leaves(freqs)) <= u64::MAX,
        queue_consistent(leaves(freqs)),
{
    crate::huffman_tree::lemma_leaves_upto(freqs, 256);
    let i = choose|i: int| 0 <= i < freqs.len() && freqs[i] > 0;
    assert(0 <= i < 256 && freqs[i] > 0);
}

} // verus!
