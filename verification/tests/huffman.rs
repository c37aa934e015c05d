use toy_ac::huffman_decoder::Decoder;
use toy_ac::huffman_encoder::Encoder;
use toy_ac::huffman_tree::{build_tree, static_freqs, Node};

fn bits_of(text: &str) -> Vec<bool> {
    text.chars().map(|c| c == '1').collect()
}

fn code_of(node: &Node, symbol: u8, prefix: &mut Vec<bool>) -> Option<Vec<bool>> {
    match node {
        Node::Leaf { symbol: s, .. } => {
            if *s == symbol {
                Some(prefix.clone())
            } else {
                None
            }
        }
        Node::Branch { left, right, .. } => {
            prefix.push(false);
            let l = code_of(left, symbol, prefix);
            prefix.pop();
            if l.is_some() {
                return l;
            }
            prefix.push(true);
            let r = code_of(right, symbol, prefix);
            prefix.pop();
            r
        }
    }
}

#[test]
fn static_freqs_peak_at_128() {
    let f = static_freqs();
    assert_eq!(f[0], 128);
    assert_eq!(f[1], 129);
    assert_eq!(f[127], 255);
    assert_eq!(f[128], 256);
    assert_eq!(f[129], 255);
    assert_eq!(f[255], 129);
}

#[test]
fn build_tree_joins_least_frequent_first() {
    let mut freqs = [0u64; 256];
    freqs[10] = 5;
    freqs[20] = 2;
    freqs[30] = 1;
    let tree = build_tree(&freqs);
    match tree {
        Node::Branch { freq, seq, left, right } => {
            assert_eq!(freq, 8);
            assert_eq!(seq, 4);
            match *right {
                Node::Leaf { symbol, freq, seq } => {
                    assert_eq!((symbol, freq, seq), (10, 5, 0));
                }
                _ => panic!("expected a leaf"),
            }
            match *left {
                Node::Branch { freq, seq, left, right } => {
                    assert_eq!((freq, seq), (3, 3));
                    assert!(matches!(*left, Node::Leaf { symbol: 30, freq: 1, seq: 2 }));
                    assert!(matches!(*right, Node::Leaf { symbol: 20, freq: 2, seq: 1 }));
                }
                _ => panic!("expected a branch"),
            }
        }
        _ => panic!("expected a branch"),
    }
}

#[test]
fn build_tree_breaks_ties_by_sequence() {
    let mut freqs = [0u64; 256];
    freqs[1] = 1;
    freqs[2] = 1;
    freqs[3] = 1;
    freqs[4] = 1;
    let tree = build_tree(&freqs);
    assert_eq!(code_of(&tree, 1, &mut Vec::new()), Some(bits_of("00")));
    assert_eq!(code_of(&tree, 2, &mut Vec::new()), Some(bits_of("01")));
    assert_eq!(code_of(&tree, 3, &mut Vec::new()), Some(bits_of("10")));
    assert_eq!(code_of(&tree, 4, &mut Vec::new()), Some(bits_of("11")));
    assert!(matches!(tree, Node::Branch { freq: 4, seq: 6, .. }));
}

#[test]
fn build_tree_single_symbol_is_a_leaf() {
    let mut freqs = [0u64; 256];
    freqs[7] = 3;
    let tree = build_tree(&freqs);
    assert!(matches!(tree, Node::Leaf { symbol: 7, freq: 3, seq: 0 }));
}

#[test]
fn more_frequent_symbol_gets_shorter_code() {
    let mut freqs = [0u64; 256];
    freqs[0] = 50;
    freqs[1] = 20;
    freqs[2] = 15;
    freqs[3] = 10;
    freqs[4] = 5;
    let tree = build_tree(&freqs);
    let len = |s: u8| code_of(&tree, s, &mut Vec::new()).unwrap().len();
    assert_eq!(len(0), 1);
    assert!(len(0) <= len(1));
    assert!(len(1) <= len(2));
    assert!(len(2) <= len(3));
    assert!(len(3) <= len(4));
    assert_eq!(len(4), 4);
}

#[test]
fn static_tree_root_weight() {
    let tree = build_tree(&static_freqs());
    assert!(matches!(tree, Node::Branch { freq: 49152, seq: 510, .. }));
}

#[test]
fn encoder_emits_static_code_words() {
    let mut enc = Encoder::new();
    assert_eq!(enc.bits_written(), 0);
    let bits = enc.encode_block(&[128, 0, 255, 200]);
    let mut expected = bits_of("11111111");
    expected.extend(bits_of("00000000"));
    expected.extend(bits_of("00000010"));
    expected.extend(bits_of("01110000"));
    assert_eq!(bits, expected);
    assert_eq!(enc.bits_written(), 32);
    let more = enc.encode_block(&[129]);
    assert_eq!(more, bits_of("11111110"));
    assert_eq!(enc.bits_written(), 40);
}

#[test]
fn encoder_empty_block_writes_nothing() {
    let mut enc = Encoder::new();
    assert!(enc.encode_block(&[]).is_empty());
    assert_eq!(enc.bits_written(), 0);
}

#[test]
fn encoder_finish_owes_no_bits() {
    let mut enc = Encoder::new();
    enc.encode_block(&[1, 2, 3]);
    assert!(enc.finish().is_empty());
    assert_eq!(enc.bits_written(), 24);
}

#[test]
fn decoder_reads_one_code_word() {
    let dec = Decoder::new();
    let bits = bits_of("0000001111111111");
    assert_eq!(dec.decode(&bits, 0), Some((2, 8)));
    assert_eq!(dec.decode(&bits, 8), Some((128, 16)));
}

#[test]
fn decoder_reports_short_input() {
    let dec = Decoder::new();
    let bits = bits_of("1111111");
    assert_eq!(dec.decode(&bits, 0), None);
    assert_eq!(dec.decode(&bits, 7), None);
    assert_eq!(dec.decode(&bits, 100), None);
}

#[test]
fn encode_then_decode_gives_bytes_back() {
    let mut enc = Encoder::new();
    let dec = Decoder::new();
    let data: Vec<u8> = (0..=255u8).chain([128, 128, 3, 250].into_iter()).collect();
    let mut bits = enc.encode_block(&data);
    bits.extend([true, false, true]);
    let mut pos = 0;
    let mut out = Vec::new();
    for _ in 0..data.len() {
        let (s, p) = dec.decode(&bits, pos).unwrap();
        out.push(s);
        pos = p;
    }
    assert_eq!(out, data);
    assert_eq!(pos as u64, enc.bits_written());
}

#[test]
fn every_byte_has_a_distinct_eight_bit_code() {
    let mut enc = Encoder::new();
    let data: Vec<u8> = (0..=255u8).collect();
    let bits = enc.encode_block(&data);
    assert_eq!(bits.len(), 2048);
    assert_eq!(enc.bits_written(), 2048);
    let mut words: Vec<&[bool]> = bits.chunks(8).collect();
    words.sort();
    words.dedup();
    assert_eq!(words.len(), 256);
}

#[test]
fn static_tree_holds_each_byte_once() {
    let tree = build_tree(&static_freqs());
    fn count(node: &Node, seen: &mut [u32; 256]) {
        match node {
            Node::Leaf { symbol, .. } => seen[*symbol as usize] += 1,
            Node::Branch { left, right, .. } => {
                count(left, seen);
                count(right, seen);
            }
        }
    }
    let mut seen = [0u32; 256];
    count(&tree, &mut seen);
    assert!(seen.iter().all(|&c| c == 1));
}

#[test]
fn branch_weights_are_sums_of_children() {
    fn check(node: &Node) -> u64 {
        match node {
            Node::Leaf { freq, .. } => *freq,
            Node::Branch { freq, left, right, .. } => {
                assert_eq!(*freq, check(left) + check(right));
                *freq
            }
        }
    }
    let mut freqs = [0u64; 256];
    for (i, f) in [(3usize, 9u64), (9, 1), (17, 4), (200, 4), (201, 30)] {
        freqs[i] = f;
    }
    assert_eq!(check(&build_tree(&freqs)), 48);
    assert_eq!(build_tree(&freqs).freq(), 48);
}

#[test]
fn decoder_reads_exactly_eight_bits() {
    let dec = Decoder::new();
    let bits = bits_of("10101010101");
    assert_eq!(dec.decode(&bits, 3).map(|(_, p)| p), Some(11));
    assert_eq!(dec.decode(&bits, 4), None);
}

#[test]
fn two_blocks_write_what_one_joined_block_writes() {
    let mut e1 = Encoder::new();
    let mut e2 = Encoder::new();
    let mut split = e1.encode_block(&[9, 128]);
    split.extend(e1.encode_block(&[17]));
    let joined = e2.encode_block(&[9, 128, 17]);
    assert_eq!(split, joined);
    assert_eq!(e1.bits_written(), e2.bits_written());
    assert_eq!(e1.bits_written(), 24);
}
