use toy_ac::rle::{quantized_decoding, quantized_encoding};

#[test]
fn encoding_pairs_values_with_preceding_zeros() {
    let mut c = [0i16; 64];
    c[0] = 5;
    c[3] = -3;
    assert_eq!(quantized_encoding(&c), vec![(0u8, 5i16), (2, -3), (60, 0)]);
}

#[test]
fn encoding_all_zero_block() {
    let c = [0i16; 64];
    assert_eq!(quantized_encoding(&c), vec![(64u8, 0i16)]);
}

#[test]
fn encoding_without_trailing_zeros() {
    let mut c = [0i16; 64];
    for i in 0..64 {
        c[i] = i as i16 + 1;
    }
    let rle = quantized_encoding(&c);
    assert_eq!(rle.len(), 64);
    for i in 0..64 {
        assert_eq!(rle[i], (0u8, i as i16 + 1));
    }
}

#[test]
fn decoding_places_values_after_runs() {
    let out = quantized_decoding(&[(0usize, 5i16), (2, -3), (60, 0)]);
    let mut expected = [0i16; 64];
    expected[0] = 5;
    expected[3] = -3;
    assert_eq!(out, expected);
}

#[test]
fn decoding_drops_values_past_the_block() {
    assert_eq!(quantized_decoding(&[(70usize, 9i16)]), [0i16; 64]);
    let out = quantized_decoding(&[(63usize, 7i16), (0, 8), (5, 1)]);
    let mut expected = [0i16; 64];
    expected[63] = 7;
    assert_eq!(out, expected);
}

#[test]
fn decoding_empty_list_gives_zero_block() {
    assert_eq!(quantized_decoding(&[]), [0i16; 64]);
}

#[test]
fn decoding_inverts_encoding() {
    let mut c = [0i16; 64];
    c[1] = -7;
    c[2] = 300;
    c[40] = 1;
    c[63] = -1;
    let rle: Vec<(usize, i16)> =
        quantized_encoding(&c).into_iter().map(|(r, v)| (r as usize, v)).collect();
    assert_eq!(quantized_decoding(&rle), c);
}
