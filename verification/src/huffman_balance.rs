use vstd::prelude::*;

use crate::huffman_code::{
    code_table, decode_bits, encode_seq, static_code_table, static_tree,
};
use crate::huffman_depth::{
    leaf_depth, lemma_code_len_depth, lemma_leaves_facts, lemma_leaves_shape, lemma_step_seqs,
    lemma_step_shape, origin, second_pos, seqs_below, skip_at, step_next,
};
use crate::huffman_tree::{
    Node, join, leaves, leaves_upto, lemma_merge_step, lemma_min_index, lemma_static_freqs_buildable,
    merge_all, min_index, node_freq, node_seq, pops_before, queue_consistent, queue_freq,
    static_freq_table, sym_count,
};

verus! {

/// `n` is a complete tree of depth `d`: every leaf lies `d` steps down.
pub open spec fn perfect(n: Node, d: nat) -> bool
    decreases n,
{
    match n {
        Node::Leaf { .. } => d == 0,
        Node::Branch { left, right, .. } => d > 0 && perfect(*left, (d - 1) as nat) && perfect(
            *right,
            (d - 1) as nat,
        ),
    }
}

/// Number of leaves of a complete tree of depth `d`.
pub open spec fn leaves_per(d: nat) -> nat
    decreases d,
{
    if d == 0 {
        1
    } else {
        2 * leaves_per((d - 1) as nat)
    }
}

/// How many trees of the queue are complete of depth `d`.
pub open spec fn level_count(q: Seq<Node>, d: nat) -> nat
    decreases q.len(),
{
    if q.len() == 0 {
        0
    } else {
        level_count(q.drop_last(), d) + if perfect(q.last(), d) {
            1nat
        } else {
            0nat
        }
    }
}

proof fn lemma_perfect_unique(n: Node, a: nat, b: nat)
    requires
        perfect(n, a),
        perfect(n, b),
    ensures
        a == b,
    decreases n,
{
    if let Node::Branch { left, .. } = n {
        lemma_perfect_unique(*left, (a - 1) as nat, (b - 1) as nat);
    }
}

proof fn lemma_perfect_depth(n: Node, d: nat, s: u8)
    requires
        perfect(n, d),
        sym_count(n, s) > 0,
    ensures
        leaf_depth(n, s) == d,
    decreases n,
{
    if let Node::Branch { left, right, .. } = n {
        if sym_count(*right, s) > 0 {
            lemma_perfect_depth(*right, (d - 1) as nat, s);
        } else {
            lemma_perfect_depth(*left, (d - 1) as nat, s);
        }
    }
}

/// Walking a complete tree of depth `d` reads exactly `d` bits: it ends
/// where `d` bits are left and fails where fewer are.
pub proof fn lemma_perfect_decode(n: Node, d: nat, bits: Seq<bool>, pos: int)
    requires
        perfect(n, d),
        0 <= pos,
    ensures
        pos + d <= bits.len() ==> decode_bits(n, bits, pos) is Some && decode_bits(
            n,
            bits,
            pos,
        ).unwrap().1 == pos + d,
        d > 0 && pos + d > bits.len() ==> decode_bits(n, bits, pos) is None,
    decreases n,
{
    if let Node::Branch { left, right, .. } = n {
        lemma_perfect_decode(*left, (d - 1) as nat, bits, pos + 1);
        lemma_perfect_decode(*right, (d - 1) as nat, bits, pos + 1);
    }
}

proof fn lemma_leaves_per(e: nat)
    requires
        e <= 8,
    ensures
        leaves_per(e) == if e == 0 {
            1nat
        } else if e == 1 {
            2nat
        } else if e == 2 {
            4nat
        } else if e == 3 {
            8nat
        } else if e == 4 {
            16nat
        } else if e == 5 {
            32nat
        } else if e == 6 {
            64nat
        } else if e == 7 {
            128nat
        } else {
            256nat
        },
{
    reveal_with_fuel(leaves_per, 9);
}

/// `c` trees of depth `e` make up 256 leaves: with `e` below 8 there is an
/// even number of them, with `e` equal to 8 exactly one.
proof fn lemma_level_split(e: nat, c: nat)
    requires
        1 <= e <= 8,
        c * leaves_per(e) == 256,
    ensures
        e <= 7 ==> c % 2 == 0 && c >= 2,
        e == 8 ==> c == 1,
{
    lemma_leaves_per(e);
}

proof fn lemma_level_count_remove(q: Seq<Node>, i: int, d: nat)
    requires
        0 <= i < q.len(),
    ensures
        level_count(q, d) == level_count(q.remove(i), d) + if perfect(q[i], d) {
            1nat
        } else {
            0nat
        },
    decreases q.len(),
{
    if i == q.len() - 1 {
        assert(q.remove(i) =~= q.drop_last());
    } else {
        lemma_level_count_remove(q.drop_last(), i, d);
        assert(q.remove(i).drop_last() =~= q.drop_last().remove(i));
        assert(q.remove(i).last() == q.last());
    }
}

proof fn lemma_level_count_push(q: Seq<Node>, n: Node, d: nat)
    ensures
        level_count(q.push(n), d) == level_count(q, d) + if perfect(n, d) {
            1nat
        } else {
            0nat
        },
{
    assert(q.push(n).drop_last() =~= q);
}

proof fn lemma_level_count_zero(q: Seq<Node>, d: nat)
    ensures
        (forall|k: int| 0 <= k < q.len() ==> !perfect(#[trigger] q[k], d)) <==> level_count(q, d)
            == 0,
    decreases q.len(),
{
    if q.len() > 0 {
        lemma_level_count_zero(q.drop_last(), d);
        if level_count(q, d) == 0 {
            assert forall|k: int| 0 <= k < q.len() implies !perfect(#[trigger] q[k], d) by {
                if k < q.len() - 1 {
                    assert(q[k] == q.drop_last()[k]);
                }
            }
        } else if !perfect(q.last(), d) {
            let k = choose|k: int| 0 <= k < q.drop_last().len() && perfect(q.drop_last()[k], d);
            assert(q[k] == q.drop_last()[k]);
        }
    }
}

proof fn lemma_level_count_len(q: Seq<Node>, d: nat)
    requires
        forall|k: int| 0 <= k < q.len() ==> perfect(#[trigger] q[k], d) || perfect(q[k], d + 1),
    ensures
        q.len() == level_count(q, d) + level_count(q, d + 1),
    decreases q.len(),
{
    if q.len() > 0 {
        assert forall|k: int| 0 <= k < q.drop_last().len() implies perfect(
            #[trigger] q.drop_last()[k],
            d,
        ) || perfect(q.drop_last()[k], d + 1) by {
            assert(q.drop_last()[k] == q[k]);
        }
        lemma_level_count_len(q.drop_last(), d);
        if perfect(q.last(), d) && perfect(q.last(), d + 1) {
            lemma_perfect_unique(q.last(), d, d + 1);
        }
        assert(perfect(q[q.len() - 1], d) || perfect(q[q.len() - 1], d + 1));
    }
}

/// The queue while the fixed table is merged, in the stage that joins trees
/// of depth `d`: every tree is complete of depth `d` or `d + 1`, with
/// 128 to 256 times as much weight as leaves; there is an even number of
/// depth-`d` trees, and each leaves the queue before any deeper one.
pub open spec fn balanced(q: Seq<Node>, counter: u64, d: nat) -> bool {
    &&& d <= 7
    &&& q.len() >= 1
    &&& counter + q.len() < u64::MAX
    &&& queue_freq(q) <= u64::MAX
    &&& queue_consistent(q)
    &&& seqs_below(q, counter)
    &&& forall|k: int| 0 <= k < q.len() ==> perfect(#[trigger] q[k], d) || perfect(q[k], d + 1)
    &&& forall|k: int|
        0 <= k < q.len() && perfect(#[trigger] q[k], d) ==> leaves_per(d) * 128 <= node_freq(q[k])
            <= leaves_per(d) * 256
    &&& forall|k: int|
        0 <= k < q.len() && perfect(#[trigger] q[k], d + 1) ==> leaves_per(d + 1) * 128
            <= node_freq(q[k]) <= leaves_per(d + 1) * 256
    &&& forall|i: int, j: int|
        0 <= i < q.len() && 0 <= j < q.len() && perfect(#[trigger] q[i], d) && perfect(
            #[trigger] q[j],
            d + 1,
        ) ==> pops_before(q[i], q[j])
    &&& level_count(q, d) % 2 == 0
    &&& level_count(q, d) * leaves_per(d) + level_count(q, d + 1) * leaves_per(d + 1) == 256
}

/// With depth-`d` trees left, the two trees a merge step takes both have
/// depth `d`.
proof fn lemma_popped_level(q: Seq<Node>, counter: u64, d: nat)
    requires
        balanced(q, counter, d),
        level_count(q, d) > 0,
    ensures
        q.len() >= 2,
        perfect(q[min_index(q)], d),
        perfect(q[second_pos(q)], d),
        level_count(step_next(q, counter), d) == level_count(q, d) - 2,
        level_count(step_next(q, counter), d + 1) == level_count(q, d + 1) + 1,
{
    lemma_level_count_len(q, d);
    let i0 = min_index(q);
    lemma_min_index(q);
    let q1 = q.remove(i0);
    lemma_level_count_zero(q, d);
    let kd = choose|k: int| 0 <= k < q.len() && perfect(#[trigger] q[k], d);
    if !perfect(q[i0], d) {
        assert(perfect(q[i0], d + 1));
        assert(pops_before(q[kd], q[i0]));
    }
    lemma_level_count_remove(q, i0, d);
    lemma_level_count_remove(q, i0, d + 1);
    if perfect(q[i0], d + 1) {
        lemma_perfect_unique(q[i0], d, d + 1);
    }
    lemma_step_shape(q, counter);
    let o2 = second_pos(q);
    let j0 = min_index(q1);
    lemma_min_index(q1);
    assert(q1[j0] == q[o2]);
    lemma_level_count_zero(q1, d);
    let kd1 = choose|k: int| 0 <= k < q1.len() && perfect(#[trigger] q1[k], d);
    assert(q1[kd1] == q[skip_at(kd1, i0)]);
    if !perfect(q[o2], d) {
        assert(perfect(q[o2], d + 1));
        assert(pops_before(q1[kd1], q1[j0]));
    }
    let q2 = q1.remove(j0);
    lemma_level_count_remove(q1, j0, d);
    lemma_level_count_remove(q1, j0, d + 1);
    if perfect(q[o2], d + 1) {
        lemma_perfect_unique(q[o2], d, d + 1);
    }
    let m = join(q[i0], q[o2], counter);
    assert(step_next(q, counter) == q2.push(m));
    assert(perfect(m, d + 1));
    if perfect(m, d) {
        lemma_perfect_unique(m, d, d + 1);
    }
    lemma_level_count_push(q2, m, d);
    lemma_level_count_push(q2, m, d + 1);
}

/// One merge step joining two depth-`d` trees keeps the queue balanced.
#[verifier::rlimit(40)]
proof fn lemma_balanced_step(q: Seq<Node>, counter: u64, d: nat)
    requires
        balanced(q, counter, d),
        level_count(q, d) > 0,
    ensures
        q.len() >= 2,
        balanced(step_next(q, counter), (counter + 1) as u64, d),
{
    let c0 = level_count(q, d);
    let c1 = level_count(q, d + 1);
    lemma_leaves_per(d);
    lemma_leaves_per(d + 1);
    lemma_popped_level(q, counter, d);
    lemma_step_shape(q, counter);
    lemma_merge_step(q, counter);
    lemma_step_seqs(q, counter);
    let i0 = min_index(q);
    let o2 = second_pos(q);
    let next = step_next(q, counter);
    let n2 = q.len() - 2;
    let m = next[n2];
    assert(m == join(q[i0], q[o2], counter));
    assert(perfect(m, d + 1));
    assert(node_freq(m) == node_freq(q[i0]) + node_freq(q[o2]));
    assert(leaves_per(d + 1) == 2 * leaves_per(d));
    assert((c0 - 2) * leaves_per(d) + (c1 + 1) * leaves_per(d + 1) == c0 * leaves_per(d) + c1
        * leaves_per(d + 1)) by (nonlinear_arith)
        requires
            leaves_per(d + 1) == 2 * leaves_per(d),
            c0 >= 2,
    ;
    assert forall|k: int| 0 <= k < next.len() implies perfect(#[trigger] next[k], d) || perfect(
        next[k],
        d + 1,
    ) by {
        if k < n2 {
            assert(next[k] == q[origin(q, k)]);
        }
    }
    assert forall|k: int| 0 <= k < next.len() && perfect(#[trigger] next[k], d) implies leaves_per(
        d,
    ) * 128 <= node_freq(next[k]) <= leaves_per(d) * 256 by {
        if k < n2 {
            assert(next[k] == q[origin(q, k)]);
        } else if perfect(m, d) {
            lemma_perfect_unique(m, d, d + 1);
        }
    }
    assert forall|k: int| 0 <= k < next.len() && perfect(#[trigger] next[k], d + 1) implies leaves_per(
        d + 1,
    ) * 128 <= node_freq(next[k]) <= leaves_per(d + 1) * 256 by {
        if k < n2 {
            assert(next[k] == q[origin(q, k)]);
        }
    }
    assert forall|i: int, j: int|
        0 <= i < next.len() && 0 <= j < next.len() && perfect(#[trigger] next[i], d) && perfect(
            #[trigger] next[j],
            d + 1,
        ) implies pops_before(next[i], next[j]) by {
        if i < n2 {
            assert(next[i] == q[origin(q, i)]);
            if j < n2 {
                assert(next[j] == q[origin(q, j)]);
            } else {
                assert(node_seq(q[origin(q, i)]) < counter);
            }
        } else if perfect(m, d) {
            lemma_perfect_unique(m, d, d + 1);
        }
    }
}

/// From a balanced queue, merging ends in a complete tree of depth 8.
proof fn lemma_balanced_merge(q: Seq<Node>, counter: u64, d: nat)
    requires
        balanced(q, counter, d),
    ensures
        perfect(merge_all(q, counter), 8),
    decreases q.len(), 8 - d,
{
    lemma_leaves_per(d);
    lemma_leaves_per(d + 1);
    lemma_level_count_len(q, d);
    if level_count(q, d) > 0 {
        lemma_balanced_step(q, counter, d);
        lemma_merge_step(q, counter);
        assert(merge_all(q, counter) == merge_all(step_next(q, counter), (counter + 1) as u64));
        lemma_balanced_merge(step_next(q, counter), (counter + 1) as u64, d);
    } else {
        let c1 = level_count(q, d + 1);
        assert(c1 * leaves_per(d + 1) == 256);
        lemma_level_split(d + 1, c1);
        lemma_level_count_zero(q, d);
        assert forall|k: int| 0 <= k < q.len() implies perfect(#[trigger] q[k], d + 1) by {
            assert(!perfect(q[k], d));
        }
        if q.len() == 1 {
            assert(perfect(q[0], d + 1));
            assert(d + 1 == 8);
        } else {
            // Every tree now has depth `d + 1`: the next stage.
            assert(d + 1 <= 7);
            lemma_leaves_per(d + 2);
            assert forall|k: int| 0 <= k < q.len() implies !perfect(#[trigger] q[k], d + 2) by {
                if perfect(q[k], d + 2) {
                    lemma_perfect_unique(q[k], d + 1, d + 2);
                }
            }
            lemma_level_count_zero(q, d + 2);
            assert(((d + 1) + 1) as nat == d + 2);
            assert(balanced(q, counter, d + 1));
            lemma_balanced_merge(q, counter, d + 1);
        }
    }
}

proof fn lemma_leaves_all(freqs: Seq<u64>, n: nat)
    requires
        n <= freqs.len(),
        forall|i: int| 0 <= i < n ==> freqs[i] > 0,
    ensures
        leaves_upto(freqs, n).len() == n,
    decreases n,
{
    if n > 0 {
        lemma_leaves_all(freqs, (n - 1) as nat);
    }
}

/// The fixed table's tree is complete of depth 8.
pub proof fn lemma_static_tree_perfect()
    ensures
        perfect(static_tree(), 8),
{
    let f = static_freq_table();
    lemma_static_freqs_buildable();
    lemma_leaves_facts(f);
    lemma_leaves_all(f, 256);
    lemma_leaves_shape(f, 256);
    let q = leaves(f);
    lemma_leaves_per(0);
    lemma_leaves_per(1);
    assert forall|k: int| 0 <= k < q.len() implies perfect(#[trigger] q[k], 0) by {
        assert(q[k] is Leaf);
    }
    assert forall|k: int| 0 <= k < q.len() && perfect(#[trigger] q[k], 0) implies leaves_per(0)
        * 128 <= node_freq(q[k]) <= leaves_per(0) * 256 by {
        let l = q[k];
        if let Node::Leaf { symbol, .. } = l {
            assert(sym_count(l, symbol) > 0);
            assert(node_freq(l) == f[symbol as int]);
        }
    }
    assert forall|k: int| 0 <= k < q.len() implies !perfect(#[trigger] q[k], 1) by {
        assert(q[k] is Leaf);
    }
    lemma_level_count_zero(q, 1);
    lemma_level_count_len(q, 0);
    assert forall|k: int| 0 <= k < q.len() implies node_seq(#[trigger] q[k]) < q.len() as u64 by {}
    assert(balanced(q, q.len() as u64, 0));
    lemma_balanced_merge(q, q.len() as u64, 0);
}

/// Under the fixed table every byte has a code word of exactly 8 bits.
pub proof fn lemma_static_code_eight()
    ensures
        forall|s: u8| #[trigger] static_code_table()[s].len() == 8,
{
    lemma_static_tree_perfect();
    crate::huffman_code::lemma_static_code();
    assert forall|s: u8| #[trigger] static_code_table()[s].len() == 8 by {
        assert(static_code_table().contains_key(s));
        crate::huffman_code::lemma_code_table(static_tree(), Seq::empty());
        assert(sym_count(static_tree(), s) > 0);
        lemma_perfect_depth(static_tree(), 8, s);
        lemma_code_len_depth(static_tree(), Seq::empty(), s);
    }
}

/// The fixed code words of a sequence of bytes take 8 bits per byte.
pub proof fn lemma_static_encode_len(data: Seq<u8>)
    ensures
        encode_seq(static_code_table(), data).len() == 8 * data.len(),
    decreases data.len(),
{
    if data.len() > 0 {
        lemma_static_encode_len(data.drop_last());
        lemma_static_code_eight();
    }
}

/// The fixed tree reads exactly 8 bits per byte, and fails where fewer
/// than 8 are left.
pub proof fn lemma_static_decode_eight(bits: Seq<bool>, pos: int)
    requires
        0 <= pos,
    ensures
        pos + 8 <= bits.len() ==> decode_bits(static_tree(), bits, pos) is Some && decode_bits(
            static_tree(),
            bits,
            pos,
        ).unwrap().1 == pos + 8,
        pos + 8 > bits.len() ==> decode_bits(static_tree(), bits, pos) is None,
{
    lemma_static_tree_perfect();
    lemma_perfect_decode(static_tree(), 8, bits, pos);
}

} // verus!
