use vstd::prelude::*;

use crate::huffman_code::{
    decode_bits, decode_symbols, encode_seq, lemma_static_roundtrip, static_code_table, static_tree,
};
use crate::huffman_decoder::Decoder;

verus! {

/// What to do with a frame of the input stream.
#[derive(PartialEq, Eq, Structural, Debug, Clone, Copy)]
pub enum FrameStep {
    /// The frame comes before the first one to code.
    Skip,
    /// The frame is coded.
    Code,
    /// The frame and all after it are past the last one to code.
    Stop,
}

/// Frames before `skip_count` are passed over, the next `count` frames are
/// coded, and the stream ends after them. The end of the coded frames is
/// only formed for frames at or past `skip_count`.
pub fn frame_step(frame_num: u32, skip_count: u32, count: u32) -> (step: FrameStep)
    requires
        frame_num >= skip_count ==> skip_count + count <= u32::MAX,
    ensures
        step == if frame_num < skip_count {
            FrameStep::Skip
        } else if frame_num < skip_count + count {
            FrameStep::Code
        } else {
            FrameStep::Stop
        },
{
    if frame_num < skip_count {
        FrameStep::Skip
    } else if frame_num < skip_count + count {
        FrameStep::Code
    } else {
        FrameStep::Stop
    }
}

/// Number of 8-pixel blocks needed to cover `len` pixels.
pub fn block_count(len: u32) -> (n: u32)
    requires
        len + 7 <= u32::MAX,
    ensures
        n == (len + 7) / 8,
{
    (len + 7) / 8
}

/// Row-major index of pixel `(x, y)` in a frame `width` pixels wide.
pub open spec fn pixel_index(x: int, y: int, width: int) -> int {
    y * width + x
}

/// Position of entry `i` of block `(bx, by)` in the frame: row `i / 8`
/// and column `i % 8` of the block.
pub open spec fn block_x(bx: int, i: int) -> int {
    bx * 8 + i % 8
}

pub open spec fn block_y(by: int, i: int) -> int {
    by * 8 + i / 8
}

pub open spec fn in_frame(x: int, y: int, width: int, height: int) -> bool {
    x < width && y < height
}

/// Entry `i` of the difference block `(bx, by)`: the current pixel less the
/// prior one where the entry lies in the frame, 0 elsewhere.
pub open spec fn diff_entry(
    current: Seq<u8>,
    prior: Seq<u8>,
    width: int,
    height: int,
    bx: int,
    by: int,
    i: int,
) -> i16 {
    let x = block_x(bx, i);
    let y = block_y(by, i);
    if in_frame(x, y, width, height) {
        (current[pixel_index(x, y, width)] - prior[pixel_index(x, y, width)]) as i16
    } else {
        0
    }
}

/// The frame and block geometry that the block functions work on: the
/// pixel indices fit in `u32`, both frames hold every pixel, and the block's
/// rows and columns can be counted in `u32`.
pub open spec fn block_fits(len_a: int, len_b: int, width: u32, height: u32, bx: u32, by: u32) -> bool {
    &&& width * height <= u32::MAX
    &&& len_a >= width * height
    &&& len_b >= width * height
    &&& bx * 8 + 7 <= u32::MAX
    &&& by * 8 + 7 <= u32::MAX
}

proof fn lemma_pixel_index_bound(x: int, y: int, width: int, height: int)
    requires
        0 <= x < width,
        0 <= y < height,
    ensures
        0 <= pixel_index(x, y, width) < width * height,
{
    assert(y * width + x < width * height) by (nonlinear_arith)
        requires
            0 <= x < width,
            0 <= y < height,
    ;
    assert(0 <= y * width) by (nonlinear_arith)
        requires
            0 <= y,
            0 <= width,
    ;
}

/// The 8x8 block `(bx, by)` of pixel differences between `current` and
/// `prior`, row by row; entries outside the frame are 0.
pub fn extract_diff_block(
    current: &[u8],
    prior: &[u8],
    width: u32,
    height: u32,
    bx: u32,
    by: u32,
) -> (block: [i16; 64])
    requires
        block_fits(current@.len() as int, prior@.len() as int, width, height, bx, by),
    ensures
        forall|i: int|
            0 <= i < 64 ==> #[trigger] block@[i] == diff_entry(
                current@,
                prior@,
                width as int,
                height as int,
                bx as int,
                by as int,
                i,
            ),
{
    let mut block = [0i16; 64];
    let mut i: u32 = 0;
    while i < 8
        invariant
            i <= 8,
            block@.len() == 64,
            block_fits(current@.len() as int, prior@.len() as int, width, height, bx, by),
            forall|k: int|
                0 <= k < i * 8 ==> #[trigger] block@[k] == diff_entry(
                    current@,
                    prior@,
                    width as int,
                    height as int,
                    bx as int,
                    by as int,
                    k,
                ),
            forall|k: int| i * 8 <= k < 64 ==> #[trigger] block@[k] == 0,
        decreases 8 - i,
    {
        let mut j: u32 = 0;
        while j < 8
            invariant
                i < 8,
                j <= 8,
                block@.len() == 64,
                block_fits(current@.len() as int, prior@.len() as int, width, height, bx, by),
                forall|k: int|
                    0 <= k < i * 8 + j ==> #[trigger] block@[k] == diff_entry(
                        current@,
                        prior@,
                        width as int,
                        height as int,
                        bx as int,
                        by as int,
                        k,
                    ),
                forall|k: int| i * 8 + j <= k < 64 ==> #[trigger] block@[k] == 0,
            decreases 8 - j,
        {
            let y = by * 8 + i;
            let x = bx * 8 + j;
            let k: usize = (i * 8 + j) as usize;
            proof {
                assert((i * 8 + j) / 8 == i as int);
                assert((i * 8 + j) % 8 == j as int);
            }
            if y < height && x < width {
                proof {
                    lemma_pixel_index_bound(x as int, y as int, width as int, height as int);
                }
                let idx = (y * width + x) as usize;
                block[k] = current[idx] as i16 - prior[idx] as i16;
            }
            j = j + 1;
        }
        i = i + 1;
    }
    block
}

/// `v` held to the byte range.
pub open spec fn clamp_byte(v: int) -> u8 {
    if v < 0 {
        0
    } else if v > 255 {
        255
    } else {
        v as u8
    }
}

/// The bytes of the run-length pairs: for each pair its run, then its value
/// shifted up by 128 and held to the byte range.
pub open spec fn pack_pairs(rle: Seq<(u8, i16)>) -> Seq<u8>
    decreases rle.len(),
{
    if rle.len() == 0 {
        Seq::empty()
    } else {
        pack_pairs(rle.drop_last()) + seq![rle.last().0, clamp_byte(rle.last().1 + 128)]
    }
}

/// The bytes of a block: the number of pairs (as a byte), then the pairs.
pub open spec fn pack_block(rle: Seq<(u8, i16)>) -> Seq<u8> {
    seq![rle.len() as u8] + pack_pairs(rle)
}

/// Pairs read back from their bytes: a run byte and a value byte less 128.
pub open spec fn unpack_pairs(bytes: Seq<u8>) -> Seq<(usize, i16)> {
    Seq::new(bytes.len() / 2, |k: int| (bytes[2 * k] as usize, (bytes[2 * k + 1] - 128) as i16))
}

/// Lays out the run-length pairs of a block as bytes for the entropy coder.
pub fn pack_rle(rle: &[(u8, i16)]) -> (data: Vec<u8>)
    requires
        forall|i: int| 0 <= i < rle@.len() ==> #[trigger] rle@[i].1 + 128 <= i16::MAX,
    ensures
        data@ == pack_block(rle@),
{
    let mut data: Vec<u8> = Vec::new();
    data.push(#[verifier::truncate] (rle.len() as u8));
    let mut i: usize = 0;
    proof {
        assert(rle@.take(0) =~= Seq::<(u8, i16)>::empty());
        assert(pack_pairs(rle@.take(0)) =~= Seq::<u8>::empty());
        assert(data@ =~= seq![rle@.len() as u8] + pack_pairs(rle@.take(0)));
    }
    while i < rle.len()
        invariant
            i <= rle@.len(),
            data@ == seq![rle@.len() as u8] + pack_pairs(rle@.take(i as int)),
            forall|k: int| 0 <= k < rle@.len() ==> #[trigger] rle@[k].1 + 128 <= i16::MAX,
        decreases rle.len() - i,
    {
        let (run, value) = rle[i];
        assert(rle@[i as int].1 + 128 <= i16::MAX);
        let shifted: i16 = value + 128;
        let byte: u8 = if shifted < 0 {
            0
        } else if shifted > 255 {
            255
        } else {
            shifted as u8
        };
        let ghost before = data@;
        data.push(run);
        data.push(byte);
        proof {
            assert(rle@.take(i + 1).drop_last() =~= rle@.take(i as int));
            assert(rle@.take(i + 1).last() == (run, value));
            assert(data@ =~= before + seq![run, byte]);
        }
        i = i + 1;
    }
    proof {
        assert(rle@.take(i as int) =~= rle@);
    }
    data
}

proof fn lemma_pack_pairs_len(rle: Seq<(u8, i16)>)
    ensures
        pack_pairs(rle).len() == 2 * rle.len(),
        forall|k: int|
            0 <= k < rle.len() ==> #[trigger] pack_pairs(rle)[2 * k] == rle[k].0 && pack_pairs(
                rle,
            )[2 * k + 1] == clamp_byte(rle[k].1 + 128),
    decreases rle.len(),
{
    if rle.len() > 0 {
        let front = rle.drop_last();
        lemma_pack_pairs_len(front);
        assert forall|k: int| 0 <= k < rle.len() implies #[trigger] pack_pairs(rle)[2 * k]
            == rle[k].0 && pack_pairs(rle)[2 * k + 1] == clamp_byte(rle[k].1 + 128) by {
            if k < rle.len() - 1 {
                assert(pack_pairs(front)[2 * k] == front[k].0);
            }
        }
    }
}

/// What a block's bits decode to: the pair count from the first code word,
/// then twice that many bytes, read as pairs; with the position after them.
pub open spec fn read_block_spec(bits: Seq<bool>, pos: int) -> Option<(Seq<(usize, i16)>, int)> {
    match decode_bits(static_tree(), bits, pos) {
        Some((len, p)) => match decode_symbols(static_tree(), bits, p, 2 * len as nat) {
            Some((bytes, q)) => Some((unpack_pairs(bytes), q)),
            None => None,
        },
        None => None,
    }
}

/// Reads the run-length pairs of one block from `bits`, starting at `pos`:
/// the pairs and the position after them, or `None` where the bits end
/// before the block does.
pub fn read_block(dec: &Decoder, bits: &[bool], pos: usize) -> (r: Option<(Vec<(usize, i16)>, usize)>)
    ensures
        match r {
            Some((pairs, p)) => read_block_spec(bits@, pos as int) == Some((pairs@, p as int)),
            None => read_block_spec(bits@, pos as int) is None,
        },
{
    let (len, start) = match dec.decode(bits, pos) {
        Some(x) => x,
        None => {
            return None;
        },
    };
    let mut pairs: Vec<(usize, i16)> = Vec::new();
    let mut p: usize = start;
    let mut k: u8 = 0;
    let ghost mut bytes: Seq<u8> = Seq::empty();
    while k < len
        invariant
            k <= len,
            decode_bits(static_tree(), bits@, pos as int) == Some((len, start as int)),
            decode_symbols(static_tree(), bits@, start as int, 2 * k as nat) == Some(
                (bytes, p as int),
            ),
            bytes.len() == 2 * k,
            pairs@ == unpack_pairs(bytes),
        decreases len - k,
    {
        let (run, p1) = match dec.decode(bits, p) {
            Some(x) => x,
            None => {
                proof {
                    assert(decode_symbols(static_tree(), bits@, start as int, (2 * k + 1) as nat)
                        is None);
                    lemma_decode_symbols_none(bits@, start as int, (2 * k + 1) as nat, 2 * len as nat);
                }
                return None;
            },
        };
        let (value, p2) = match dec.decode(bits, p1) {
            Some(x) => x,
            None => {
                proof {
                    assert(decode_symbols(static_tree(), bits@, start as int, (2 * k + 2) as nat)
                        is None);
                    lemma_decode_symbols_none(bits@, start as int, (2 * k + 2) as nat, 2 * len as nat);
                }
                return None;
            },
        };
        pairs.push((run as usize, value as i16 - 128));
        proof {
            let b2 = bytes.push(run).push(value);
            assert(decode_symbols(static_tree(), bits@, start as int, (2 * k + 1) as nat) == Some(
                (bytes.push(run), p1 as int),
            ));
            assert(decode_symbols(static_tree(), bits@, start as int, (2 * k + 2) as nat) == Some(
                (b2, p2 as int),
            ));
            assert(pairs@ =~= unpack_pairs(b2)) by {
                assert forall|j: int| 0 <= j < k implies #[trigger] unpack_pairs(b2)[j]
                    == unpack_pairs(bytes)[j] by {
                    assert(b2[2 * j] == bytes[2 * j]);
                    assert(b2[2 * j + 1] == bytes[2 * j + 1]);
                }
            }
            bytes = b2;
        }
        p = p2;
        k = k + 1;
    }
    Some((pairs, p))
}

proof fn lemma_decode_symbols_none(bits: Seq<bool>, pos: int, c: nat, total: nat)
    requires
        c <= total,
        decode_symbols(static_tree(), bits, pos, c) is None,
    ensures
        decode_symbols(static_tree(), bits, pos, total) is None,
    decreases total - c,
{
    if c < total {
        lemma_decode_symbols_none(bits, pos, c + 1, total);
    }
}

/// Decoding `a + b` symbols is decoding `a` symbols and then `b` more from
/// where they end.
proof fn lemma_decode_symbols_split(n: crate::huffman_tree::Node, bits: Seq<bool>, pos: int, a: nat, b: nat)
    ensures
        decode_symbols(n, bits, pos, a + b) == match decode_symbols(n, bits, pos, a) {
            Some((s1, p1)) => match decode_symbols(n, bits, p1, b) {
                Some((s2, p2)) => Some((s1 + s2, p2)),
                None => None,
            },
            None => None,
        },
    decreases b,
{
    if b == 0 {
        if let Some((s1, p1)) = decode_symbols(n, bits, pos, a) {
            assert(s1 + Seq::<u8>::empty() =~= s1);
        }
    } else {
        lemma_decode_symbols_split(n, bits, pos, a, (b - 1) as nat);
        assert((a + b - 1) as nat == a + (b - 1) as nat);
        if let Some((s1, p1)) = decode_symbols(n, bits, pos, a) {
            if let Some((s2, p2)) = decode_symbols(n, bits, p1, (b - 1) as nat) {
                if let Some((s, p3)) = decode_bits(n, bits, p2) {
                    assert(s1 + s2.push(s) =~= (s1 + s2).push(s));
                }
            }
        }
    }
}

/// The pairs of a block, as bytes through the encoder, come back from the
/// decoder as the same runs with each value held to `-128..=127`, and the
/// reading stops right after the block's bits.
pub proof fn lemma_block_roundtrip(rle: Seq<(u8, i16)>, rest: Seq<bool>)
    requires
        rle.len() <= 255,
    ensures
        read_block_spec(encode_seq(static_code_table(), pack_block(rle)) + rest, 0) == Some(
            (
                rle.map_values(
                    |e: (u8, i16)| (e.0 as usize, (clamp_byte(e.1 + 128) - 128) as i16),
                ),
                encode_seq(static_code_table(), pack_block(rle)).len() as int,
            ),
        ),
{
    let data = pack_block(rle);
    let enc = encode_seq(static_code_table(), data);
    let bits = enc + rest;
    lemma_static_roundtrip(data, rest);
    lemma_pack_pairs_len(rle);
    let n = rle.len();
    assert(data.len() == 1 + 2 * n);
    lemma_decode_symbols_split(static_tree(), bits, 0, 1, 2 * n as nat);
    reveal_with_fuel(decode_symbols, 2);
    let first = decode_symbols(static_tree(), bits, 0, 1);
    assert(decode_symbols(static_tree(), bits, 0, 0) == Some((Seq::<u8>::empty(), 0int)));
    let (s1, p1) = first.unwrap();
    assert(data[0] == n as u8);
    assert(s1.len() == 1 && s1[0] == data[0]) by {
        assert((1 + 2 * n) as nat == 1nat + (2 * n) as nat);
    }
    assert(decode_bits(static_tree(), bits, 0) == Some((n as u8, p1)));
    let (s2, p2) = decode_symbols(static_tree(), bits, p1, 2 * n as nat).unwrap();
    assert(s1 + s2 == data);
    assert(s2 =~= pack_pairs(rle)) by {
        assert forall|j: int| 0 <= j < s2.len() implies s2[j] == pack_pairs(rle)[j] by {
            assert(s2[j] == (s1 + s2)[j + 1]);
        }
    }
    assert(unpack_pairs(s2) =~= rle.map_values(
        |e: (u8, i16)| (e.0 as usize, (clamp_byte(e.1 + 128) - 128) as i16),
    )) by {
        assert forall|k: int| 0 <= k < n implies #[trigger] unpack_pairs(s2)[k] == rle.map_values(
            |e: (u8, i16)| (e.0 as usize, (clamp_byte(e.1 + 128) - 128) as i16),
        )[k] by {
            assert(pack_pairs(rle)[2 * k] == rle[k].0);
        }
    }
}

/// Entry `i` of a block scaled back by its quantization step; the product
/// is cut to 16 bits.
pub open spec fn dequantized(c: i16, step: u8) -> i16 {
    (c * step) as i16
}

/// Multiplies each coefficient by the quantization step of its row and
/// column, keeping the low 16 bits of the product.
pub fn dequantize(coefficients: &[i16; 64], quant_table: &[[u8; 8]; 8]) -> (out: [i16; 64])
    ensures
        forall|i: int|
            0 <= i < 64 ==> #[trigger] out@[i] == dequantized(
                coefficients@[i],
                quant_table@[i / 8]@[i % 8],
            ),
{
    let mut out = [0i16; 64];
    let mut i: usize = 0;
    while i < 64
        invariant
            i <= 64,
            out@.len() == 64,
            forall|k: int|
                0 <= k < i ==> #[trigger] out@[k] == dequantized(
                    coefficients@[k],
                    quant_table@[k / 8]@[k % 8],
                ),
        decreases 64 - i,
    {
        let row = i / 8;
        let col = i % 8;
        let c: i32 = coefficients[i] as i32;
        let q: i32 = quant_table[row][col] as i32;
        assert(-8355840 <= c * q <= 8355840) by (nonlinear_arith)
            requires
                -32768 <= c <= 32767,
                0 <= q <= 255,
        ;
        let product: i32 = c * q;
        out[i] = #[verifier::truncate] (product as i16);
        i = i + 1;
    }
    out
}

/// Pixel rebuilt from the prior pixel and its decoded difference, held to
/// the byte range.
pub open spec fn rebuilt_pixel(prior: u8, diff: i16) -> u8 {
    clamp_byte(prior + diff)
}

/// The frame index of entry `i` of block `(bx, by)`.
pub open spec fn block_pixel(width: int, bx: int, by: int, i: int) -> int {
    pixel_index(block_x(bx, i), block_y(by, i), width)
}

pub open spec fn block_entry_in_frame(width: int, height: int, bx: int, by: int, i: int) -> bool {
    in_frame(block_x(bx, i), block_y(by, i), width, height)
}

proof fn lemma_block_pixels_distinct(width: int, height: int, bx: int, by: int, i: int, k: int)
    requires
        0 <= i < 64,
        0 <= k < 64,
        i != k,
        bx >= 0,
        by >= 0,
        block_entry_in_frame(width, height, bx, by, i),
        block_entry_in_frame(width, height, bx, by, k),
    ensures
        block_pixel(width, bx, by, i) != block_pixel(width, bx, by, k),
{
    let xi = block_x(bx, i);
    let yi = block_y(by, i);
    let xk = block_x(bx, k);
    let yk = block_y(by, k);
    assert(0 <= xi && 0 <= xk);
    if yi == yk {
        assert(i / 8 == k / 8);
        assert(i % 8 != k % 8);
    } else if yi < yk {
        assert(yi * width + xi < yk * width + xk) by (nonlinear_arith)
            requires
                yi < yk,
                0 <= xi < width,
                0 <= xk,
        ;
    } else {
        assert(yk * width + xk < yi * width + xi) by (nonlinear_arith)
            requires
                yk < yi,
                0 <= xk < width,
                0 <= xi,
        ;
    }
}

/// Writes block `(bx, by)` of a decoded frame: each entry that lies in the
/// frame becomes the prior pixel plus its difference, held to the byte
/// range; all other pixels are left as they were.
pub fn place_block(
    current: &mut Vec<u8>,
    prior: &[u8],
    diffs: &[i16; 64],
    width: u32,
    height: u32,
    bx: u32,
    by: u32,
)
    requires
        block_fits(old(current)@.len() as int, prior@.len() as int, width, height, bx, by),
        forall|i: int|
            0 <= i < 64 && block_entry_in_frame(width as int, height as int, bx as int, by as int, i)
                ==> prior@[block_pixel(width as int, bx as int, by as int, i)] + #[trigger] diffs@[i]
                <= i16::MAX,
    ensures
        final(current)@.len() == old(current)@.len(),
        forall|i: int|
            0 <= i < 64 && block_entry_in_frame(width as int, height as int, bx as int, by as int, i)
                ==> final(current)@[block_pixel(width as int, bx as int, by as int, i)]
                == rebuilt_pixel(
                prior@[block_pixel(width as int, bx as int, by as int, i)],
                #[trigger] diffs@[i],
            ),
        forall|m: int|
            0 <= m < old(current)@.len() && (forall|i: int|
                0 <= i < 64 && block_entry_in_frame(
                    width as int,
                    height as int,
                    bx as int,
                    by as int,
                    i,
                ) ==> #[trigger] block_pixel(width as int, bx as int, by as int, i) != m)
                ==> #[trigger] final(current)@[m] == old(current)@[m],
{
    let ghost w = width as int;
    let ghost h = height as int;
    let mut i: usize = 0;
    while i < 64
        invariant
            i <= 64,
            w == width,
            h == height,
            current@.len() == old(current)@.len(),
            block_fits(current@.len() as int, prior@.len() as int, width, height, bx, by),
            forall|k: int|
                0 <= k < 64 && block_entry_in_frame(w, h, bx as int, by as int, k) ==> prior@[block_pixel(
                    w,
                    bx as int,
                    by as int,
                    k,
                )] + #[trigger] diffs@[k] <= i16::MAX,
            forall|k: int|
                0 <= k < i && block_entry_in_frame(w, h, bx as int, by as int, k)
                    ==> current@[block_pixel(w, bx as int, by as int, k)] == rebuilt_pixel(
                    prior@[block_pixel(w, bx as int, by as int, k)],
                    #[trigger] diffs@[k],
                ),
            forall|m: int|
                0 <= m < current@.len() && (forall|k: int|
                    0 <= k < i && block_entry_in_frame(w, h, bx as int, by as int, k)
                        ==> #[trigger] block_pixel(w, bx as int, by as int, k) != m)
                    ==> #[trigger] current@[m] == old(current)@[m],
        decreases 64 - i,
    {
        let iu: u32 = i as u32;
        let y = by * 8 + iu / 8;
        let x = bx * 8 + iu % 8;
        if y < height && x < width {
            proof {
                lemma_pixel_index_bound(x as int, y as int, w, h);
                assert(block_pixel(w, bx as int, by as int, i as int) == y * width + x);
            }
            let idx = (y * width + x) as usize;
            let d = diffs[i];
            let p = prior[idx];
            assert(p + d <= i16::MAX);
            let v: i16 = p as i16 + d;
            let byte: u8 = if v < 0 {
                0
            } else if v > 255 {
                255
            } else {
                v as u8
            };
            let ghost before = current@;
            proof {
                assert(block_x(bx as int, i as int) == x);
                assert(block_y(by as int, i as int) == y);
            }
            current.set(idx, byte);
            proof {
                assert forall|k: int|
                    0 <= k < i + 1 && block_entry_in_frame(w, h, bx as int, by as int, k)
                        implies current@[block_pixel(w, bx as int, by as int, k)] == rebuilt_pixel(
                    prior@[block_pixel(w, bx as int, by as int, k)],
                    #[trigger] diffs@[k],
                ) by {
                    if k < i {
                        lemma_block_pixels_distinct(w, h, bx as int, by as int, k, i as int);
                        lemma_pixel_index_bound(block_x(bx as int, k), block_y(by as int, k), w, h);
                        assert(current@[block_pixel(w, bx as int, by as int, k)] == before[block_pixel(
                            w,
                            bx as int,
                            by as int,
                            k,
                        )]);
                    } else {
                        assert(k == i);
                        assert(block_x(bx as int, k) == x);
                        assert(block_y(by as int, k) == y);
                        assert(current@[idx as int] == byte);
                        assert(byte == rebuilt_pixel(p, d));
                    }
                }
                assert forall|m: int|
                    0 <= m < current@.len() && (forall|k: int|
                        0 <= k < i + 1 && block_entry_in_frame(w, h, bx as int, by as int, k)
                            ==> #[trigger] block_pixel(w, bx as int, by as int, k) != m)
                        implies #[trigger] current@[m] == old(current)@[m] by {
                    assert(block_pixel(w, bx as int, by as int, i as int) != m);
                    assert(before[m] == old(current)@[m]);
                }
            }
        }
        i = i + 1;
    }
}

/// The first of the first `n` pixels where two frames differ, if any.
pub fn first_mismatch(decoded: &[u8], original: &[u8], n: usize) -> (r: Option<usize>)
    requires
        n <= decoded@.len(),
        n <= original@.len(),
    ensures
        match r {
            Some(i) => i < n && decoded@[i as int] != original@[i as int] && forall|k: int|
                0 <= k < i ==> decoded@[k] == original@[k],
            None => forall|k: int| 0 <= k < n ==> decoded@[k] == original@[k],
        },
{
    let mut i: usize = 0;
    while i < n
        invariant
            i <= n,
            n <= decoded@.len(),
            n <= original@.len(),
            forall|k: int| 0 <= k < i ==> decoded@[k] == original@[k],
        decreases n - i,
    {
        if decoded[i] != original[i] {
            return Some(i);
        }
        i = i + 1;
    }
    None
}

} // verus!
