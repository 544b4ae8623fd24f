use chronoscope::artifacts::xpress::{
    build_huffman_table, decompress, HUFFMAN_TABLE_BYTES, MAX_CODE_LENGTH, MAX_DECOMPRESSED_SIZE,
};

/// An encoder with the bit order that the decoder expects.
struct TestEncoder {
    bits: Vec<u8>, // one bit per element, MSB-first order as produced
}

impl TestEncoder {
    fn new() -> Self {
        Self { bits: Vec::new() }
    }

    fn push_bits(&mut self, value: u32, n: u32) {
        for i in (0..n).rev() {
            self.bits.push(((value >> i) & 1) as u8);
        }
    }

    /// Pack accumulated bits into 16-bit-little-endian words,
    /// MSB-first within each word.
    fn into_bytes(mut self) -> Vec<u8> {
        while !self.bits.len().is_multiple_of(16) {
            self.bits.push(0);
        }
        let mut out = Vec::new();
        for word_bits in self.bits.chunks(16) {
            let mut word: u16 = 0;
            for (i, &b) in word_bits.iter().enumerate() {
                word |= (b as u16) << (15 - i);
            }
            out.extend_from_slice(&word.to_le_bytes());
        }
        out
    }
}

/// Build a trivial-but-valid Huffman table: every symbol gets an
/// 8-bit code (Kraft sum = 256 * 2^-8 = 1, a complete code), so the
/// canonical code for symbol `s` is simply `s` itself as an 8-bit
/// value — easy to hand-encode.
fn flat_length_8_table() -> [u8; HUFFMAN_TABLE_BYTES] {
    let mut raw = [0u8; HUFFMAN_TABLE_BYTES];
    for byte in raw.iter_mut() {
        *byte = 0x88; // both nibbles = length 8
    }
    raw
}

fn compress_flat(literals: &[u16]) -> Vec<u8> {
    let mut out = flat_length_8_table().to_vec();
    let mut enc = TestEncoder::new();
    for &sym in literals {
        enc.push_bits(sym as u32, 8);
    }
    out.extend_from_slice(&enc.into_bytes());
    out
}

#[test]
fn decompress_empty_input_returns_empty() {
    assert_eq!(decompress(&[], 0), Some(Vec::new()));
    assert_eq!(decompress(&[0xFF; 10], 0), Some(Vec::new()));
}

#[test]
fn decompress_oversized_target_rejected() {
    assert_eq!(decompress(&[0u8; 300], MAX_DECOMPRESSED_SIZE + 1), None);
}

#[test]
fn decompress_truncated_table_rejected() {
    assert_eq!(decompress(&[0u8; 100], 10), None);
}

#[test]
fn decompress_all_zero_length_table_rejected() {
    // A table claiming every symbol has code length 0 has no valid
    // codes at all — must be rejected, not treated as an
    // (incorrectly) empty-but-valid table.
    let raw = [0u8; HUFFMAN_TABLE_BYTES];
    let mut compressed = raw.to_vec();
    compressed.extend_from_slice(&[0u8; 16]);
    assert_eq!(decompress(&compressed, 4), None);
}

#[test]
fn round_trip_literal_only_stream() {
    let plaintext = b"MZ\x90\x00";
    let literals: Vec<u16> = plaintext.iter().map(|&b| b as u16).collect();
    let compressed = compress_flat(&literals);
    let out = decompress(&compressed, plaintext.len()).expect("valid stream must decode");
    assert_eq!(out, plaintext);
}

#[test]
fn round_trip_with_back_reference() {
    // Encode "AAAA" as literal 'A' followed by a back-reference:
    // len_nibble=0 (length 3), dist_bits=0 (distance 1) -> symbol
    // 256 + 0 = 256, copying 3 bytes from 1 byte back. Build a
    // minimal *valid* two-symbol canonical table: 'A' (65, odd ->
    // high nibble of byte 32) and the match symbol (256, even ->
    // low nibble of byte 128) both at length 1 (codes '0' and
    // '1') — a complete Kraft-sum-1 code with only these two
    // symbols in use, everything else unused (length 0).
    let mut raw = [0u8; HUFFMAN_TABLE_BYTES];
    raw[32] = 0x10; // symbol 65 ('A'): high nibble = length 1
    raw[128] = 0x01; // symbol 256 (match): low nibble = length 1

    let table = build_huffman_table(&raw).expect("valid table");
    // Recompute canonical codes ourselves is exactly what the
    // decoder does; to build a matching bitstream we mirror the
    // same canonical assignment by encoding through the decoded
    // table's first_code/first_symbol_index rather than assuming
    // fixed values, so this test can't silently drift from the
    // decoder's own logic.
    let code_for = |sym: u16| -> (u32, u32) {
        for len in 1..=MAX_CODE_LENGTH {
            let count = table.count_at_length[len] as u32;
            if count == 0 {
                continue;
            }
            let start = table.first_symbol_index[len];
            if let Some(idx) = table.symbols_by_length[start..start + count as usize]
                .iter()
                .position(|&s| s == sym)
            {
                return (table.first_code[len] + idx as u32, len as u32);
            }
        }
        panic!("symbol not in table");
    };

    let mut enc = TestEncoder::new();
    let (code_a, len_a) = code_for(b'A' as u16);
    enc.push_bits(code_a, len_a);
    let (code_match, len_match) = code_for(256);
    enc.push_bits(code_match, len_match);
    // symbol 256 -> sym=0 -> len_nibble=0 (length 3), dist_bits=0
    // (distance 1) - no extra bits needed.
    let bytes = enc.into_bytes();

    let mut compressed = raw.to_vec();
    compressed.extend_from_slice(&bytes);

    let out = decompress(&compressed, 4).expect("valid back-reference stream must decode");
    assert_eq!(out, b"AAAA");
}

/// Many single-bit literal codes, over many 16-bit words, and then a match
/// whose distance needs several bits of the stream itself. Bits must be drawn
/// one at a time, and words only when their bits are used, for the position in
/// the stream to be the right one.
#[test]
fn round_trip_with_multi_bit_distance_after_many_literals() {
    // Two-symbol canonical table again: 'A' and a match symbol with
    // len_nibble=0 (length 3) and dist_bits=4 (distance =
    // 16..=31), both length-1 codes.
    let mut raw = [0u8; HUFFMAN_TABLE_BYTES];
    raw[32] = 0x10; // symbol 65 ('A'): high nibble = length 1
    let match_symbol: u16 = 256 + (4 << 4); // len_nibble=0, dist_bits=4
    let byte_idx = (match_symbol / 2) as usize;
    if match_symbol.is_multiple_of(2) {
        raw[byte_idx] |= 0x01;
    } else {
        raw[byte_idx] |= 0x10;
    }

    let table = build_huffman_table(&raw).expect("valid table");
    let code_for = |sym: u16| -> (u32, u32) {
        for len in 1..=MAX_CODE_LENGTH {
            let count = table.count_at_length[len] as u32;
            if count == 0 {
                continue;
            }
            let start = table.first_symbol_index[len];
            if let Some(idx) = table.symbols_by_length[start..start + count as usize]
                .iter()
                .position(|&s| s == sym)
            {
                return (table.first_code[len] + idx as u32, len as u32);
            }
        }
        panic!("symbol not in table");
    };

    const NUM_LITERALS: usize = 200;
    let mut enc = TestEncoder::new();
    let (code_a, len_a) = code_for(b'A' as u16);
    for _ in 0..NUM_LITERALS {
        enc.push_bits(code_a, len_a);
    }
    let (code_match, len_match) = code_for(match_symbol);
    enc.push_bits(code_match, len_match);
    // dist_bits=4: distance = 16 + extra. Pick extra=4 -> distance
    // 20, safely inside the 200-byte run of 'A's already written.
    let extra_dist_bits: u32 = 4;
    enc.push_bits(extra_dist_bits, 4);
    let bytes = enc.into_bytes();

    let mut compressed = raw.to_vec();
    compressed.extend_from_slice(&bytes);

    let expected_len = NUM_LITERALS + 3; // + the 3-byte match copy
    let out = decompress(&compressed, expected_len)
        .expect("valid multi-bit-distance stream must decode");
    assert_eq!(out, vec![b'A'; expected_len]);
}

#[test]
fn garbage_bytes_no_panic() {
    let garbage = vec![0xABu8; 512];
    // Must not panic regardless of what it returns.
    let _ = decompress(&garbage, 64);
}

/// A table with the code lengths of a few symbols.
fn table_of(lengths: &[(usize, u8)]) -> [u8; HUFFMAN_TABLE_BYTES] {
    let mut raw = [0u8; HUFFMAN_TABLE_BYTES];
    for (symbol, length) in lengths {
        raw[symbol / 2] |= if symbol % 2 == 0 { *length } else { length << 4 };
    }
    raw
}

fn stream(table: [u8; HUFFMAN_TABLE_BYTES], bits: &[(u32, u32)], tail: &[u8]) -> Vec<u8> {
    let mut enc = TestEncoder::new();
    for (value, n) in bits {
        enc.push_bits(*value, *n);
    }
    let mut out = table.to_vec();
    out.extend_from_slice(&enc.into_bytes());
    out.extend_from_slice(tail);
    out
}

#[test]
fn canonical_codes_go_by_length_and_symbol() {
    let table = build_huffman_table(&table_of(&[(7, 2), (3, 1), (300, 3), (9, 3)])).expect("codes");
    assert_eq!(table.symbols_by_length, vec![3, 7, 9, 300]);
    assert_eq!(table.first_code[1..4], [0, 2, 6]);
    assert_eq!(table.first_symbol_index[1..4], [0, 1, 2]);
    assert_eq!(table.count_at_length[1..4], [1, 1, 2]);
    assert!(build_huffman_table(&[0u8; HUFFMAN_TABLE_BYTES]).is_none());
}

#[test]
fn longer_codes_are_decoded() {
    // 'a' = 0, 'b' = 10, 'c' = 110, 'd' = 111
    let table = table_of(&[(97, 1), (98, 2), (99, 3), (100, 3)]);
    let bits = [(7, 3), (0, 1), (2, 2), (6, 3), (0, 1), (7, 3)];
    let out = decompress(&stream(table, &bits, &[]), 6);
    assert_eq!(out.as_deref(), Some(b"dabcad".as_slice()));
}

#[test]
fn a_match_may_repeat_itself() {
    // 'a', 'b', then a match of length 7 at distance 2.
    let table = table_of(&[(97, 2), (98, 2), (256 + 16 + 4, 1)]);
    // codes: match = 0, 'a' = 10, 'b' = 11; distance 2 takes one bit, 0.
    let bits = [(2, 2), (3, 2), (0, 1), (0, 1)];
    let out = decompress(&stream(table, &bits, &[]), 9);
    assert_eq!(out.as_deref(), Some(b"ababababa".as_slice()));
}

#[test]
fn a_match_before_the_start_is_rejected() {
    let table = table_of(&[(97, 1), (256 + 16, 1)]);
    // 'a', then a match at distance 2 or 3.
    assert_eq!(decompress(&stream(table, &[(0, 1), (1, 1), (0, 1)], &[]), 4), None);
}

#[test]
fn a_long_match_has_its_length_in_bytes() {
    // 'a', then a match of distance 1 whose length is read from the bytes
    // behind the two words that are loaded.
    let table = table_of(&[(97, 1), (256 + 15, 1)]);
    let mut packed = table.to_vec();
    packed.extend_from_slice(&[0x00, 0x40, 0x00, 0x00, 10]);
    let out = decompress(&packed, 1 + 28).expect("a stream");
    assert_eq!(out, vec![b'a'; 29]);
}

#[test]
fn output_is_as_long_as_claimed_or_there_is_none() {
    let table = table_of(&[(97, 1), (98, 1)]);
    let packed = stream(table, &[(0, 1), (1, 1), (1, 1)], &[]);
    for size in 0..40 {
        if let Some(out) = decompress(&packed, size) {
            assert_eq!(out.len(), size);
        }
    }
    assert_eq!(decompress(&packed, 3).as_deref(), Some(b"abb".as_slice()));
}

#[test]
fn a_new_chunk_starts_with_a_new_table() {
    // 65536 codes of one bit, the word that is taken ahead of use, and then
    // another table in which the codes are swapped.
    let mut packed = table_of(&[(97, 1), (98, 1)]).to_vec();
    packed.extend_from_slice(&[0u8; 8192 + 2]);
    packed.extend_from_slice(&stream(table_of(&[(98, 1), (99, 1)]), &[(0, 1), (1, 1), (0, 1)], &[]));
    let out = decompress(&packed, 65_536 + 3).expect("two chunks");
    assert!(out[0..65_536].iter().all(|&b| b == b'a'));
    assert_eq!(&out[65_536..], b"bcb");
}

#[test]
fn a_lone_byte_holds_no_bits() {
    let table = table_of(&[(65, 1), (256, 1)]);
    let mut packed = table.to_vec();
    assert_eq!(decompress(&packed, 4), None);
    packed.push(0);
    assert_eq!(decompress(&packed, 1), None);
    assert_eq!(decompress(&packed, 4), None);
    // Sixteen bits and a lone byte behind them.
    packed.push(0);
    packed.push(0);
    assert_eq!(decompress(&packed, 16), Some(vec![b'A'; 16]));
    assert_eq!(decompress(&packed, 17), None);
}

#[test]
fn fewer_bytes_are_the_first_ones() {
    // 'a', 'b', then a match of length 7 at distance 2.
    let table = table_of(&[(97, 2), (98, 2), (256 + 16 + 4, 1)]);
    let packed = stream(table, &[(2, 2), (3, 2), (0, 1), (0, 1)], &[]);
    let whole = decompress(&packed, 9).expect("a stream");
    for n in 0..9 {
        assert_eq!(decompress(&packed, n).as_deref(), Some(&whole[0..n]));
    }
}
