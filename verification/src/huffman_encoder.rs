use std::collections::HashMap;

use vstd::prelude::*;

use crate::huffman_balance::lemma_static_encode_len;
use crate::huffman_code::{
    code_table, encode_seq, static_code_table, lemma_static_code, lemma_encode_seq_concat,
};
use crate::huffman_tree::{Node, build_tree, static_freqs, lemma_static_freqs_buildable};

verus! {

/// The code words of a map from bytes to bit vectors.
pub open spec fn code_view(m: Map<u8, Vec<bool>>) -> Map<u8, Seq<bool>> {
    Map::new(|k: u8| m.contains_key(k), |k: u8| m[k]@)
}

/// Records in `codes` the code word of every leaf below `node`, where
/// `prefix` is the path to `node`; entries met later replace earlier ones.
pub fn build_codes(node: &Node, prefix: Vec<bool>, codes: &mut HashMap<u8, Vec<bool>>)
    ensures
        code_view(final(codes)@) == code_view(old(codes)@).union_prefer_right(
            code_table(*node, prefix@),
        ),
    decreases node,
{
    broadcast use vstd::std_specs::hash::group_hash_axioms;

    match node {
        Node::Leaf { symbol, .. } => {
            let ghost p = prefix@;
            codes.insert(*symbol, prefix);
            proof {
                assert(code_view(codes@) =~= code_view(old(codes)@).union_prefer_right(
                    map![*symbol => p],
                ));
            }
        },
        Node::Branch { left, right, .. } => {
            let mut p = prefix.clone();
            proof {
                assert(p@ =~= prefix@);
            }
            p.push(false);
            build_codes(left, p, codes);
            let mut p = prefix;
            p.push(true);
            build_codes(right, p, codes);
            proof {
                assert(code_view(codes@) =~= code_view(old(codes)@).union_prefer_right(
                    code_table(*node, prefix@),
                ));
            }
        },
    }
}

/// Huffman encoder over the fixed frequency table.
pub struct Encoder {
    bits_written: u64,
    codes: HashMap<u8, Vec<bool>>,
}

impl Encoder {
    #[verifier::type_invariant]
    spec fn holds_static_codes(self) -> bool {
        code_view(self.codes@) == static_code_table()
    }

    /// Number of bits the encoder has handed out so far.
    pub closed spec fn written(self) -> u64 {
        self.bits_written
    }

    /// The code word of each byte.
    pub closed spec fn code_words(self) -> Map<u8, Seq<bool>> {
        code_view(self.codes@)
    }

    /// A fresh encoder: the code words of the fixed tree, nothing written.
    pub fn new() -> (e: Self)
        ensures
            e.written() == 0,
            e.code_words() == static_code_table(),
    {
        broadcast use vstd::std_specs::hash::group_hash_axioms;

        proof {
            lemma_static_freqs_buildable();
        }
        let freqs = static_freqs();
        let tree = build_tree(&freqs);
        let mut codes: HashMap<u8, Vec<bool>> = HashMap::new();
        proof {
            assert(code_view(codes@) =~= Map::empty());
        }
        build_codes(&tree, Vec::new(), &mut codes);
        proof {
            assert(code_view(codes@) =~= static_code_table());
        }
        Encoder { bits_written: 0, codes }
    }

    pub fn bits_written(&self) -> (r: u64)
        ensures
            r == self.written(),
    {
        self.bits_written
    }

    /// The code words of `data`, one after the other, 8 bits per byte; the
    /// count of bits written grows by their number.
    pub fn encode_block(&mut self, data: &[u8]) -> (bits: Vec<bool>)
        requires
            old(self).written() + 8 * data@.len() <= u64::MAX,
        ensures
            bits@ == encode_seq(static_code_table(), data@),
            bits@.len() == 8 * data@.len(),
            final(self).written() == old(self).written() + bits@.len(),
            final(self).code_words() == old(self).code_words(),
            encodes(*old(self), data@, bits@, *final(self)),
    {
        broadcast use vstd::std_specs::hash::group_hash_axioms;

        proof {
            use_type_invariant(&*self);
            lemma_static_code();
            lemma_static_encode_len(data@);
        }
        let ghost table = static_code_table();
        let mut out: Vec<bool> = Vec::new();
        let mut i: usize = 0;
        proof {
            assert(data@.take(0) =~= Seq::<u8>::empty());
        }
        while i < data.len()
            invariant
                i <= data.len(),
                out@ == encode_seq(table, data@.take(i as int)),
                code_view(self.codes@) == table,
                table == static_code_table(),
                forall|s: u8| #[trigger] table.contains_key(s),
            decreases data.len() - i,
        {
            let byte = data[i];
            assert(code_view(self.codes@).contains_key(byte));
            let code = self.codes.get(&byte).unwrap();
            let ghost before = out@;
            let mut j: usize = 0;
            while j < code.len()
                invariant
                    j <= code.len(),
                    out@ == before + code@.take(j as int),
                decreases code.len() - j,
            {
                out.push(code[j]);
                j = j + 1;
                proof {
                    assert(out@ =~= before + code@.take(j as int));
                }
            }
            proof {
                assert(code@.take(j as int) =~= code@);
                assert(data@.take(i + 1).drop_last() =~= data@.take(i as int));
                assert(data@.take(i + 1).last() == byte);
            }
            i = i + 1;
        }
        proof {
            assert(data@.take(i as int) =~= data@);
        }
        self.bits_written = self.bits_written + out.len() as u64;
        out
    }

    /// The bits still owed at the end of the stream: Huffman coding
    /// leaves none, and the encoder is unchanged.
    pub fn finish(&mut self) -> (bits: Vec<bool>)
        ensures
            bits@ == Seq::<bool>::empty(),
            final(self).written() == old(self).written(),
            final(self).code_words() == old(self).code_words(),
    {
        Vec::new()
    }
}

/// One call of `encode_block`: from encoder `before`, the bytes `data` give
/// the bits `bits` and leave encoder `after`.
pub open spec fn encodes(before: Encoder, data: Seq<u8>, bits: Seq<bool>, after: Encoder) -> bool {
    &&& bits == encode_seq(static_code_table(), data)
    &&& bits.len() == 8 * data.len()
    &&& after.written() == before.written() + bits.len()
    &&& after.code_words() == before.code_words()
}

/// Encoding two blocks one after the other hands out the same bits, and
/// leaves the same count, as encoding the joined block once; an empty block
/// hands out nothing and changes nothing that the encoder shows.
pub proof fn lemma_encode_blocks_join(
    e0: Encoder,
    a: Seq<u8>,
    bits_a: Seq<bool>,
    e1: Encoder,
    b: Seq<u8>,
    bits_b: Seq<bool>,
    e2: Encoder,
    f0: Encoder,
    bits_ab: Seq<bool>,
    f1: Encoder,
)
    requires
        encodes(e0, a, bits_a, e1),
        encodes(e1, b, bits_b, e2),
        encodes(f0, a + b, bits_ab, f1),
        f0.written() == e0.written(),
        f0.code_words() == e0.code_words(),
    ensures
        bits_a + bits_b == bits_ab,
        e2.written() == f1.written(),
        e2.code_words() == f1.code_words(),
        a.len() == 0 ==> bits_a.len() == 0 && e1.written() == e0.written(),
{
    lemma_encode_seq_concat(static_code_table(), a, b);
}

/// Total length of a list of blocks.
pub open spec fn total_len(blocks: Seq<Seq<u8>>) -> int
    decreases blocks.len(),
{
    if blocks.len() == 0 {
        0
    } else {
        total_len(blocks.drop_last()) + blocks.last().len()
    }
}

/// Total length of a list of bit strings.
pub open spec fn total_bits(outs: Seq<Seq<bool>>) -> int
    decreases outs.len(),
{
    if outs.len() == 0 {
        0
    } else {
        total_bits(outs.drop_last()) + outs.last().len()
    }
}

/// After a run of `encode_block` calls from a fresh count, the count of
/// bits written is 8 per byte encoded, and equals the number of bits handed
/// out.
pub proof fn lemma_written_total(
    states: Seq<Encoder>,
    blocks: Seq<Seq<u8>>,
    outs: Seq<Seq<bool>>,
)
    requires
        states.len() == blocks.len() + 1,
        outs.len() == blocks.len(),
        states[0].written() == 0,
        forall|i: int|
            0 <= i < blocks.len() ==> encodes(states[i], #[trigger] blocks[i], outs[i], states[i + 1]),
    ensures
        states.last().written() == 8 * total_len(blocks),
        states.last().written() == total_bits(outs),
    decreases blocks.len(),
{
    if blocks.len() > 0 {
        let n = blocks.len() - 1;
        assert forall|i: int| 0 <= i < blocks.drop_last().len() implies encodes(
            states.drop_last()[i],
            #[trigger] blocks.drop_last()[i],
            outs.drop_last()[i],
            states.drop_last()[i + 1],
        ) by {
            assert(blocks.drop_last()[i] == blocks[i]);
        }
        lemma_written_total(states.drop_last(), blocks.drop_last(), outs.drop_last());
        assert(encodes(states[n], blocks[n], outs[n], states[n + 1]));
        assert(states.drop_last().last() == states[n]);
    }
}

} // verus!
