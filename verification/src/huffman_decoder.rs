use vstd::prelude::*;

use crate::huffman_balance::lemma_static_decode_eight;
use crate::huffman_code::{decode_bits, height, static_tree};
use crate::huffman_tree::{Node, build_tree, static_freqs, lemma_static_freqs_buildable};

verus! {

/// Huffman decoder over the fixed frequency table.
pub struct Decoder {
    root: Node,
}

impl Decoder {
    #[verifier::type_invariant]
    spec fn holds_static_tree(self) -> bool {
        self.root == static_tree()
    }

    /// The code tree the decoder walks.
    pub closed spec fn tree(self) -> Node {
        self.root
    }

    /// A decoder that holds the tree of the fixed frequency table.
    pub fn new() -> (d: Self)
        ensures
            d.tree() == static_tree(),
    {
        proof {
            lemma_static_freqs_buildable();
        }
        let freqs = static_freqs();
        Decoder { root: build_tree(&freqs) }
    }

    /// Reads one code word from `bits`, starting at `pos`: the symbol and
    /// the position after the code word, or `None` where the bits end
    /// before a code word is complete. Every code word has 8 bits.
    pub fn decode(&self, bits: &[bool], pos: usize) -> (r: Option<(u8, usize)>)
        ensures
            match r {
                Some((s, p)) => decode_bits(static_tree(), bits@, pos as int) == Some((s, p as int)),
                None => decode_bits(static_tree(), bits@, pos as int) is None,
            },
            r is Some <==> pos + 8 <= bits@.len(),
            r matches Some((s, p)) ==> p == pos + 8,
    {
        proof {
            use_type_invariant(self);
            lemma_static_decode_eight(bits@, pos as int);
        }
        let mut cur: &Node = &self.root;
        let mut p: usize = pos;
        loop
            invariant
                decode_bits(*cur, bits@, p as int) == decode_bits(static_tree(), bits@, pos as int),
                decode_bits(static_tree(), bits@, pos as int) is Some <==> pos + 8 <= bits@.len(),
                decode_bits(static_tree(), bits@, pos as int) matches Some((s, q)) ==> q == pos + 8,
            decreases height(*cur),
        {
            match cur {
                Node::Leaf { symbol, .. } => {
                    return Some((*symbol, p));
                },
                Node::Branch { left, right, .. } => {
                    if p >= bits.len() {
                        return None;
                    }
                    if bits[p] {
                        cur = &**right;
                    } else {
                        cur = &**left;
                    }
                    p = p + 1;
                },
            }
        }
    }
}

} // verus!
