# toy_ac

A grayscale video codec: each frame is coded as its difference to the
previous frame, in 8x8 blocks (DCT, quantization, run-length pairs), and the
bytes of each block go through a Huffman coder built over a fixed frequency
table.

`src/` is the verified library:

- `huffman_tree` — the Huffman tree of a frequency table, built with a
  priority queue (least frequency first, ties by sequence number); the fixed
  table of the codec.
- `huffman_code` — code tables, decoding of bit strings, and the laws of the
  code: decoding inverts encoding, no code word is a prefix of another, every
  byte has a code word under the fixed table.
- `huffman_depth` — a more frequent symbol never gets a longer code word.
- `huffman_balance` — the fixed table's tree is complete of depth 8, so
  every code word has 8 bits and decoding reads 8 bits per byte.
- `huffman_encoder`, `huffman_decoder` — the encoder and decoder over the
  fixed table; bits are handed out and taken in as `Vec<bool>` / `&[bool]`.
- `rle` — run-length pairs of a block of 64 coefficients and back.
- `frame` — block geometry, difference blocks, byte layout of a block,
  reading a block back from bits, dequantization, rebuilding pixels.
- `text`, `prompt`, `options` — decimal parsing, trimming, the interactive
  replies and the command-line options.

`app/` is the program around it: FFmpeg input and export, bit files, the
floating-point DCT stages and the prompts.
