use vstd::prelude::*;

use crate::huffman_tree::{
    Node, sym_count, huffman_tree, lemma_huffman_tree, buildable, freq_total, static_freq_table,
};

verus! {

/// The code words of the leaves of `n` when the path to `n` is `prefix`:
/// a step to the `false` side appends `false`, a step to the `true` side
/// appends `true`. Where a symbol stands at two leaves, the one on the
/// `true` side wins.
pub open spec fn code_table(n: Node, prefix: Seq<bool>) -> Map<u8, Seq<bool>>
    decreases n,
{
    match n {
        Node::Leaf { symbol, .. } => map![symbol => prefix],
        Node::Branch { left, right, .. } => code_table(*left, prefix.push(false)).union_prefer_right(
            code_table(*right, prefix.push(true)),
        ),
    }
}

/// Walks down from `n`, reading `bits` from position `pos` on (`false`
/// goes to the `false` side), until a leaf is reached: its symbol and the
/// position after the last bit read; `None` where the bits run out first.
pub open spec fn decode_bits(n: Node, bits: Seq<bool>, pos: int) -> Option<(u8, int)>
    decreases n,
{
    match n {
        Node::Leaf { symbol, .. } => Some((symbol, pos)),
        Node::Branch { left, right, .. } => if 0 <= pos < bits.len() {
            if bits[pos] {
                decode_bits(*right, bits, pos + 1)
            } else {
                decode_bits(*left, bits, pos + 1)
            }
        } else {
            None
        },
    }
}

/// Decodes `count` symbols one after the other, starting at `pos`.
pub open spec fn decode_symbols(n: Node, bits: Seq<bool>, pos: int, count: nat) -> Option<
    (Seq<u8>, int),
>
    decreases count,
{
    if count == 0 {
        Some((Seq::empty(), pos))
    } else {
        match decode_symbols(n, bits, pos, (count - 1) as nat) {
            Some((syms, p)) => match decode_bits(n, bits, p) {
                Some((s, p2)) => Some((syms.push(s), p2)),
                None => None,
            },
            None => None,
        }
    }
}

/// The code words of `data`, one after the other.
pub open spec fn encode_seq(table: Map<u8, Seq<bool>>, data: Seq<u8>) -> Seq<bool>
    decreases data.len(),
{
    if data.len() == 0 {
        Seq::empty()
    } else {
        encode_seq(table, data.drop_last()) + table[data.last()]
    }
}

/// No symbol stands at two leaves.
pub open spec fn distinct_symbols(n: Node) -> bool {
    forall|s: u8| #[trigger] sym_count(n, s) <= 1
}

/// Height of a tree; a leaf has height 0.
pub open spec fn height(n: Node) -> nat
    decreases n,
{
    match n {
        Node::Leaf { .. } => 0,
        Node::Branch { left, right, .. } => 1 + if height(*left) >= height(*right) {
            height(*left)
        } else {
            height(*right)
        },
    }
}

/// The code table has an entry for exactly the symbols at the leaves, each
/// entry begins with the prefix, and where no symbol stands at two leaves,
/// reading the rest of the entry from any position walks to that symbol.
pub proof fn lemma_code_table(n: Node, prefix: Seq<bool>)
    ensures
        forall|s: u8| #[trigger]
            code_table(n, prefix).contains_key(s) <==> sym_count(n, s) > 0,
        forall|s: u8| #[trigger]
            code_table(n, prefix).contains_key(s) ==> {
                let c = code_table(n, prefix)[s];
                &&& c.len() >= prefix.len()
                &&& c.subrange(0, prefix.len() as int) == prefix
                &&& c.len() <= prefix.len() + height(n)
            },
        distinct_symbols(n) ==> forall|s: u8, bits: Seq<bool>, pos: int|
            #![trigger code_table(n, prefix)[s], decode_bits(n, bits, pos)]
            code_table(n, prefix).contains_key(s) && 0 <= pos && pos + code_table(n, prefix)[s].len()
                - prefix.len() <= bits.len() && bits.subrange(
                pos,
                pos + code_table(n, prefix)[s].len() - prefix.len(),
            ) == code_table(n, prefix)[s].subrange(
                prefix.len() as int,
                code_table(n, prefix)[s].len() as int,
            ) ==> decode_bits(n, bits, pos) == Some(
                (s, pos + code_table(n, prefix)[s].len() - prefix.len()),
            ),
    decreases n,
{
    match n {
        Node::Leaf { symbol, .. } => {
            assert(prefix.subrange(0, prefix.len() as int) =~= prefix);
        },
        Node::Branch { left, right, .. } => {
            let pl = prefix.push(false);
            let pr = prefix.push(true);
            lemma_code_table(*left, pl);
            lemma_code_table(*right, pr);
            let tl = code_table(*left, pl);
            let tr = code_table(*right, pr);
            assert forall|s: u8| #[trigger] code_table(n, prefix).contains_key(s) implies {
                let c = code_table(n, prefix)[s];
                &&& c.len() >= prefix.len()
                &&& c.subrange(0, prefix.len() as int) == prefix
                &&& c.len() <= prefix.len() + height(n)
            } by {
                let c = code_table(n, prefix)[s];
                if tr.contains_key(s) {
                    assert(c == tr[s]);
                    assert(c.subrange(0, pr.len() as int) == pr);
                    assert(c.subrange(0, prefix.len() as int) =~= pr.subrange(
                        0,
                        prefix.len() as int,
                    ));
                    assert(pr.subrange(0, prefix.len() as int) =~= prefix);
                } else {
                    assert(c == tl[s]);
                    assert(c.subrange(0, pl.len() as int) == pl);
                    assert(c.subrange(0, prefix.len() as int) =~= pl.subrange(
                        0,
                        prefix.len() as int,
                    ));
                    assert(pl.subrange(0, prefix.len() as int) =~= prefix);
                }
            }
            if distinct_symbols(n) {
                assert(distinct_symbols(*left)) by {
                    assert forall|s: u8| #[trigger] sym_count(*left, s) <= 1 by {
                        assert(sym_count(n, s) <= 1);
                    }
                }
                assert(distinct_symbols(*right)) by {
                    assert forall|s: u8| #[trigger] sym_count(*right, s) <= 1 by {
                        assert(sym_count(n, s) <= 1);
                    }
                }
                assert forall|s: u8, bits: Seq<bool>, pos: int|
                    #![trigger code_table(n, prefix)[s], decode_bits(n, bits, pos)]
                    code_table(n, prefix).contains_key(s) && 0 <= pos && pos + code_table(
                        n,
                        prefix,
                    )[s].len() - prefix.len() <= bits.len() && bits.subrange(
                        pos,
                        pos + code_table(n, prefix)[s].len() - prefix.len(),
                    ) == code_table(n, prefix)[s].subrange(
                        prefix.len() as int,
                        code_table(n, prefix)[s].len() as int,
                    ) implies decode_bits(n, bits, pos) == Some(
                    (s, pos + code_table(n, prefix)[s].len() - prefix.len()),
                ) by {
                    let c = code_table(n, prefix)[s];
                    let k = c.len() - prefix.len();
                    assert(sym_count(n, s) <= 1);
                    if tr.contains_key(s) {
                        assert(c == tr[s]);
                        assert(sym_count(*left, s) == 0);
                        assert(c.subrange(0, pr.len() as int) == pr);
                        assert(c[prefix.len() as int] == c.subrange(0, pr.len() as int)[prefix.len() as int]);
                        assert(bits[pos] == bits.subrange(pos, pos + k)[0]);
                        assert(bits[pos] == c[prefix.len() as int]);
                        assert(bits[pos]);
                        assert forall|i: int| 0 <= i < c.len() - pr.len() implies bits.subrange(
                            pos + 1,
                            pos + 1 + c.len() - pr.len(),
                        )[i] == c.subrange(pr.len() as int, c.len() as int)[i] by {
                            assert(bits.subrange(pos, pos + k)[i + 1] == c.subrange(
                                prefix.len() as int,
                                c.len() as int,
                            )[i + 1]);
                        }
                        assert(bits.subrange(pos + 1, pos + 1 + c.len() - pr.len()) =~= c.subrange(
                            pr.len() as int,
                            c.len() as int,
                        ));
                        assert(decode_bits(*right, bits, pos + 1) == Some(
                            (s, pos + 1 + c.len() - pr.len()),
                        ));
                    } else {
                        assert(c == tl[s]);
                        assert(tl.contains_key(s));
                        assert(c.subrange(0, pl.len() as int) == pl);
                        assert(c[prefix.len() as int] == c.subrange(0, pl.len() as int)[prefix.len() as int]);
                        assert(bits[pos] == bits.subrange(pos, pos + k)[0]);
                        assert(bits[pos] == c[prefix.len() as int]);
                        assert(!bits[pos]);
                        assert forall|i: int| 0 <= i < c.len() - pl.len() implies bits.subrange(
                            pos + 1,
                            pos + 1 + c.len() - pl.len(),
                        )[i] == c.subrange(pl.len() as int, c.len() as int)[i] by {
                            assert(bits.subrange(pos, pos + k)[i + 1] == c.subrange(
                                prefix.len() as int,
                                c.len() as int,
                            )[i + 1]);
                        }
                        assert(bits.subrange(pos + 1, pos + 1 + c.len() - pl.len()) =~= c.subrange(
                            pl.len() as int,
                            c.len() as int,
                        ));
                        assert(decode_bits(*left, bits, pos + 1) == Some(
                            (s, pos + 1 + c.len() - pl.len()),
                        ));
                    }
                }
            }
        },
    }
}

/// A code word of a tree without repeated symbols is never the beginning
/// of another symbol's code word.
pub proof fn lemma_prefix_free(n: Node, s: u8, t: u8)
    requires
        distinct_symbols(n),
        code_table(n, Seq::empty()).contains_key(s),
        code_table(n, Seq::empty()).contains_key(t),
        s != t,
    ensures
        !is_prefix_of(code_table(n, Seq::empty())[s], code_table(n, Seq::empty())[t]),
{
    let e = Seq::<bool>::empty();
    let cs = code_table(n, e)[s];
    let ct = code_table(n, e)[t];
    lemma_code_table(n, e);
    if is_prefix_of(cs, ct) {
        assert(ct.subrange(0, cs.len() as int) =~= cs.subrange(0, cs.len() as int));
        assert(decode_bits(n, ct, 0) == Some((s, cs.len() as int)));
        assert(ct.subrange(0, ct.len() as int) =~= ct.subrange(0, ct.len() as int));
        assert(decode_bits(n, ct, 0) == Some((t, ct.len() as int)));
    }
}

/// `a` is the beginning of `b`.
pub open spec fn is_prefix_of(a: Seq<bool>, b: Seq<bool>) -> bool {
    a.len() <= b.len() && b.subrange(0, a.len() as int) == a
}

/// Decoding the code words of a sequence of symbols, followed by anything,
/// gives the symbols back and stops right after the last code word.
pub proof fn lemma_decode_encode(n: Node, data: Seq<u8>, rest: Seq<bool>)
    requires
        distinct_symbols(n),
        forall|i: int| 0 <= i < data.len() ==> code_table(n, Seq::empty()).contains_key(#[trigger] data[i]),
    ensures
        decode_symbols(
            n,
            encode_seq(code_table(n, Seq::empty()), data) + rest,
            0,
            data.len(),
        ) == Some((data, encode_seq(code_table(n, Seq::empty()), data).len() as int)),
    decreases data.len(),
{
    let table = code_table(n, Seq::empty());
    if data.len() == 0 {
        assert(data =~= Seq::<u8>::empty());
    } else {
        let front = data.drop_last();
        let x = data.last();
        let e0 = encode_seq(table, front);
        let c = table[x];
        let bits = encode_seq(table, data) + rest;
        assert(bits =~= e0 + (c + rest));
        lemma_decode_encode(n, front, c + rest);
        lemma_code_table(n, Seq::empty());
        assert(bits.subrange(e0.len() as int, (e0.len() + c.len()) as int) =~= c.subrange(0, c.len() as int));
        assert(decode_bits(n, bits, e0.len() as int) == Some((x, (e0.len() + c.len()) as int)));
        assert(front.push(x) =~= data);
    }
}

/// Number of leaves of a tree.
pub open spec fn leaf_count(n: Node) -> nat
    decreases n,
{
    match n {
        Node::Leaf { .. } => 1,
        Node::Branch { left, right, .. } => leaf_count(*left) + leaf_count(*right),
    }
}

/// How many leaves carry one of the symbols below `k`.
pub open spec fn symbol_total(n: Node, k: nat) -> nat
    decreases k,
{
    if k == 0 {
        0
    } else {
        symbol_total(n, (k - 1) as nat) + sym_count(n, (k - 1) as u8)
    }
}

proof fn lemma_height_leaf_count(n: Node)
    ensures
        height(n) + 1 <= leaf_count(n),
    decreases n,
{
    if let Node::Branch { left, right, .. } = n {
        lemma_height_leaf_count(*left);
        lemma_height_leaf_count(*right);
    }
}

proof fn lemma_symbol_total_split(n: Node, k: nat)
    requires
        k <= 256,
    ensures
        match n {
            Node::Leaf { symbol, .. } => symbol_total(n, k) == if (symbol as nat) < k {
                1nat
            } else {
                0nat
            },
            Node::Branch { left, right, .. } => symbol_total(n, k) == symbol_total(*left, k)
                + symbol_total(*right, k),
        },
    decreases k,
{
    if k > 0 {
        lemma_symbol_total_split(n, (k - 1) as nat);
    }
}

proof fn lemma_symbol_total_all(n: Node)
    ensures
        symbol_total(n, 256) == leaf_count(n),
    decreases n,
{
    lemma_symbol_total_split(n, 256);
    if let Node::Branch { left, right, .. } = n {
        lemma_symbol_total_all(*left);
        lemma_symbol_total_all(*right);
    }
}

/// The tree that both the encoder and the decoder use.
pub open spec fn static_tree() -> Node {
    huffman_tree(static_freq_table())
}

/// The code word of every byte, as the encoder holds them.
pub open spec fn static_code_table() -> Map<u8, Seq<bool>> {
    code_table(static_tree(), Seq::empty())
}

/// The fixed table gives every byte a code word of at most 255 bits, and
/// no byte stands at two leaves of the fixed tree.
pub proof fn lemma_static_code()
    ensures
        distinct_symbols(static_tree()),
        forall|s: u8| #[trigger] static_code_table().contains_key(s),
        forall|s: u8| #[trigger] static_code_table()[s].len() <= 255,
        height(static_tree()) <= 255,
{
    crate::huffman_tree::lemma_static_freqs_buildable();
    let t = static_tree();
    lemma_huffman_tree(static_freq_table());
    lemma_code_table(t, Seq::empty());
    assert forall|s: u8| #[trigger] sym_count(t, s) == 1 by {
        assert(static_freq_table()[s as int] > 0);
    }
    lemma_symbol_total_count(t, 256);
    lemma_symbol_total_all(t);
    lemma_height_leaf_count(t);
    assert forall|s: u8| #[trigger] static_code_table()[s].len() <= 255 by {
        assert(static_freq_table()[s as int] > 0);
        assert(sym_count(t, s) == 1);
        assert(code_table(t, Seq::empty()).contains_key(s));
    }
    assert forall|s: u8| #[trigger] static_code_table().contains_key(s) by {
        assert(static_freq_table()[s as int] > 0);
        assert(sym_count(t, s) == 1);
    }
}

proof fn lemma_symbol_total_count(t: Node, k: nat)
    requires
        k <= 256,
        forall|s: u8| #[trigger] sym_count(t, s) == 1,
    ensures
        symbol_total(t, k) == k,
    decreases k,
{
    if k > 0 {
        lemma_symbol_total_count(t, (k - 1) as nat);
    }
}

/// What the encoder writes for a sequence of bytes, followed by anything,
/// the decoder reads back as those bytes, ending right after their bits.
pub proof fn lemma_static_roundtrip(data: Seq<u8>, rest: Seq<bool>)
    ensures
        decode_symbols(static_tree(), encode_seq(static_code_table(), data) + rest, 0, data.len())
            == Some((data, encode_seq(static_code_table(), data).len() as int)),
{
    lemma_static_code();
    lemma_decode_encode(static_tree(), data, rest);
}

/// The code words of two sequences one after the other are those of the
/// joined sequence.
pub proof fn lemma_encode_seq_concat(table: Map<u8, Seq<bool>>, a: Seq<u8>, b: Seq<u8>)
    ensures
        encode_seq(table, a + b) == encode_seq(table, a) + encode_seq(table, b),
    decreases b.len(),
{
    if b.len() == 0 {
        assert(a + b =~= a);
        assert(encode_seq(table, a) + encode_seq(table, b) =~= encode_seq(table, a));
    } else {
        lemma_encode_seq_concat(table, a, b.drop_last());
        assert((a + b).drop_last() =~= a + b.drop_last());
        assert((a + b).last() == b.last());
        assert(encode_seq(table, a + b) =~= encode_seq(table, a) + encode_seq(table, b));
    }
}

} // verus!
