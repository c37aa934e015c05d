use toy_ac::frame::{
    first_mismatch,
    block_count, dequantize, extract_diff_block, frame_step, pack_rle, place_block, read_block,
    FrameStep,
};
use toy_ac::huffman_decoder::Decoder;
use toy_ac::huffman_encoder::Encoder;

#[test]
fn frames_are_skipped_coded_then_stopped() {
    assert_eq!(frame_step(0, 2, 3), FrameStep::Skip);
    assert_eq!(frame_step(1, 2, 3), FrameStep::Skip);
    assert_eq!(frame_step(2, 2, 3), FrameStep::Code);
    assert_eq!(frame_step(4, 2, 3), FrameStep::Code);
    assert_eq!(frame_step(5, 2, 3), FrameStep::Stop);
    assert_eq!(frame_step(0, 0, 0), FrameStep::Stop);
}

#[test]
fn blocks_cover_the_frame() {
    assert_eq!(block_count(0), 0);
    assert_eq!(block_count(1), 1);
    assert_eq!(block_count(8), 1);
    assert_eq!(block_count(9), 2);
    assert_eq!(block_count(1080), 135);
}

#[test]
fn difference_block_inside_and_outside_the_frame() {
    // A 10 x 9 frame: block (1, 1) holds only pixels x = 8..10, y = 8.
    let width = 10u32;
    let height = 9u32;
    let current: Vec<u8> = (0..90u32).map(|i| (i * 2) as u8).collect();
    let prior: Vec<u8> = (0..90u32).map(|i| i as u8).collect();
    let block = extract_diff_block(&current, &prior, width, height, 1, 1);
    let mut expected = [0i16; 64];
    expected[0] = 88;
    expected[1] = 89;
    assert_eq!(block, expected);

    let block = extract_diff_block(&current, &prior, width, height, 0, 0);
    for i in 0..8 {
        for j in 0..8 {
            assert_eq!(block[i * 8 + j], (i * 10 + j) as i16);
        }
    }
}

#[test]
fn difference_can_be_negative() {
    let current = vec![0u8; 4];
    let prior = vec![255u8; 4];
    let block = extract_diff_block(&current, &prior, 2, 2, 0, 0);
    assert_eq!(block[0], -255);
    assert_eq!(block[9], -255);
    assert_eq!(block[2], 0);
}

#[test]
fn packing_shifts_and_clamps_values() {
    assert_eq!(pack_rle(&[(0, 5), (2, -3), (60, 0)]), vec![3, 0, 133, 2, 125, 60, 128]);
    assert_eq!(pack_rle(&[(1, 200), (0, -200), (4, 127), (5, -128)]), vec![4, 1, 255, 0, 0, 4, 255, 5, 0]);
    assert_eq!(pack_rle(&[]), vec![0]);
}

#[test]
fn packing_counts_pairs_in_a_byte() {
    let rle: Vec<(u8, i16)> = (0..256).map(|_| (0u8, 1i16)).collect();
    let data = pack_rle(&rle);
    assert_eq!(data[0], 0);
    assert_eq!(data.len(), 513);
}

#[test]
fn block_comes_back_through_the_coder() {
    let mut enc = Encoder::new();
    let dec = Decoder::new();
    let rle = vec![(0u8, 5i16), (2, -3), (9, 300), (50, 0)];
    let mut bits = enc.encode_block(&pack_rle(&rle));
    let first_end = bits.len();
    bits.extend(enc.encode_block(&pack_rle(&[(63, -1)])));
    let (pairs, next) = read_block(&dec, &bits, 0).unwrap();
    assert_eq!(pairs, vec![(0usize, 5i16), (2, -3), (9, 127), (50, 0)]);
    assert_eq!(next, first_end);
    let (pairs, next) = read_block(&dec, &bits, next).unwrap();
    assert_eq!(pairs, vec![(63usize, -1i16)]);
    assert_eq!(next, bits.len());
}

#[test]
fn truncated_block_is_reported() {
    let mut enc = Encoder::new();
    let dec = Decoder::new();
    let bits = enc.encode_block(&pack_rle(&[(0, 5), (2, -3)]));
    assert!(read_block(&dec, &bits[..bits.len() - 1], 0).is_none());
    assert!(read_block(&dec, &bits[..3], 0).is_none());
}

#[test]
fn dequantize_scales_by_table_and_wraps() {
    let mut table = [[1u8; 8]; 8];
    table[0][1] = 10;
    table[7][7] = 100;
    let mut c = [0i16; 64];
    c[0] = -4;
    c[1] = 7;
    c[63] = 1000;
    let out = dequantize(&c, &table);
    assert_eq!(out[0], -4);
    assert_eq!(out[1], 70);
    assert_eq!(out[63], -31072);
    assert_eq!(out[2], 0);
}

#[test]
fn place_block_rebuilds_pixels_in_frame_only() {
    let width = 10u32;
    let height = 9u32;
    let prior = vec![100u8; 90];
    let mut current = vec![7u8; 90];
    let mut diffs = [0i16; 64];
    diffs[0] = 20;
    diffs[1] = 200;
    diffs[2] = -5;
    diffs[8] = -150;
    place_block(&mut current, &prior, &diffs, width, height, 1, 1);
    assert_eq!(current[88], 120);
    assert_eq!(current[89], 255);
    for i in 0..88 {
        assert_eq!(current[i], 7);
    }

    let mut current = vec![7u8; 90];
    place_block(&mut current, &prior, &diffs, width, height, 0, 0);
    assert_eq!(current[0], 120);
    assert_eq!(current[1], 255);
    assert_eq!(current[2], 95);
    assert_eq!(current[10], 0);
    assert_eq!(current[3], 100);
    assert_eq!(current[8], 7);
    assert_eq!(current[70], 100);
    assert_eq!(current[80], 7);
}

#[test]
fn skipped_frames_need_no_end() {
    assert_eq!(frame_step(3, 5, u32::MAX), FrameStep::Skip);
    assert_eq!(frame_step(u32::MAX, 0, u32::MAX), FrameStep::Stop);
}

#[test]
fn first_mismatch_finds_the_earliest_difference() {
    let a = [1u8, 2, 3, 4, 5];
    let b = [1u8, 2, 9, 4, 0];
    assert_eq!(first_mismatch(&a, &b, 5), Some(2));
    assert_eq!(first_mismatch(&a, &b, 2), None);
    assert_eq!(first_mismatch(&a, &a, 5), None);
    assert_eq!(first_mismatch(&a, &b, 0), None);
}
