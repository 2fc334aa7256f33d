use gw2_dat::bitreader::BitReader;
use gw2_dat::huffman::{HuffmanTree, HuffmanTreeBuilder};
use std::collections::HashMap;

/// The static dictionary: code lengths, in declaration order.
const DICT_BITS: [u8; 256] = [
    3, 3, 3, 4, 4, 4, 4, 5, 5, 5, 5, 6, 6, 6, 6, 6, 6, 6, 6, 7,
    7, 7, 7, 7, 7, 7, 8, 8, 8, 8, 8, 8, 9, 9, 9, 9, 9, 9, 9, 9,
    9, 9, 10, 10, 10, 10, 10, 10, 10, 10, 10, 10, 10, 10, 10, 10, 10, 10, 11, 11,
    11, 11, 11, 11, 11, 11, 11, 11, 11, 11, 11, 12, 12, 12, 12, 12, 12, 12, 13, 13,
    13, 13, 13, 13, 14, 14, 14, 14, 15, 15, 15, 15, 15, 15, 15, 15, 16, 16, 16, 16,
    16, 16, 16, 16, 16, 16, 16, 16, 16, 16, 16, 16, 16, 16, 16, 16, 16, 16, 16, 16,
    16, 16, 16, 16, 16, 16, 16, 16, 16, 16, 16, 16, 16, 16, 16, 16, 16, 16, 16, 16,
    16, 16, 16, 16, 16, 16, 16, 16, 16, 16, 16, 16, 16, 16, 16, 16, 16, 16, 16, 16,
    16, 16, 16, 16, 16, 16, 16, 16, 16, 16, 16, 16, 16, 16, 16, 16, 16, 16, 16, 16,
    16, 16, 16, 16, 16, 16, 16, 16, 16, 16, 16, 16, 16, 16, 16, 16, 16, 16, 16, 16,
    16, 16, 16, 16, 16, 16, 16, 16, 16, 16, 16, 16, 16, 16, 16, 16, 16, 16, 16, 16,
    16, 16, 16, 16, 16, 16, 16, 16, 16, 16, 16, 16, 16, 16, 16, 16, 16, 16, 16, 16,
    16, 16, 16, 16, 16, 16, 16, 16, 16, 16, 16, 16, 16, 16, 16, 16,
];

/// The static dictionary: symbols, in declaration order.
const DICT_SYMBOLS: [u16; 256] = [
    0x0A, 0x09, 0x08, 0x0C, 0x0B, 0x07, 0x00, 0xE0, 0x2A, 0x29, 0x06, 0x4A,
    0x40, 0x2C, 0x2B, 0x28, 0x20, 0x05, 0x04, 0x49, 0x48, 0x27, 0x26, 0x25,
    0x0D, 0x03, 0x6A, 0x69, 0x4C, 0x4B, 0x47, 0x24, 0xE8, 0xA0, 0x89, 0x88,
    0x68, 0x67, 0x63, 0x60, 0x46, 0x23, 0xE9, 0xC9, 0xC0, 0xA9, 0xA8, 0x8A,
    0x87, 0x80, 0x66, 0x65, 0x45, 0x44, 0x43, 0x2D, 0x02, 0x01, 0xE5, 0xC8,
    0xAA, 0xA5, 0xA4, 0x8B, 0x85, 0x84, 0x6C, 0x6B, 0x64, 0x4D, 0x0E, 0xE7,
    0xCA, 0xC7, 0xA7, 0xA6, 0x86, 0x83, 0xE6, 0xE4, 0xC4, 0x8C, 0x2E, 0x22,
    0xEC, 0xC6, 0x6D, 0x4E, 0xEA, 0xCC, 0xAC, 0xAB, 0x8D, 0x11, 0x10, 0x0F,
    0xFF, 0xFE, 0xFD, 0xFC, 0xFB, 0xFA, 0xF9, 0xF8, 0xF7, 0xF6, 0xF5, 0xF4,
    0xF3, 0xF2, 0xF1, 0xF0, 0xEF, 0xEE, 0xED, 0xEB, 0xE3, 0xE2, 0xE1, 0xDF,
    0xDE, 0xDD, 0xDC, 0xDB, 0xDA, 0xD9, 0xD8, 0xD7, 0xD6, 0xD5, 0xD4, 0xD3,
    0xD2, 0xD1, 0xD0, 0xCF, 0xCE, 0xCD, 0xCB, 0xC5, 0xC3, 0xC2, 0xC1, 0xBF,
    0xBE, 0xBD, 0xBC, 0xBB, 0xBA, 0xB9, 0xB8, 0xB7, 0xB6, 0xB5, 0xB4, 0xB3,
    0xB2, 0xB1, 0xB0, 0xAF, 0xAE, 0xAD, 0xA3, 0xA2, 0xA1, 0x9F, 0x9E, 0x9D,
    0x9C, 0x9B, 0x9A, 0x99, 0x98, 0x97, 0x96, 0x95, 0x94, 0x93, 0x92, 0x91,
    0x90, 0x8F, 0x8E, 0x82, 0x81, 0x7F, 0x7E, 0x7D, 0x7C, 0x7B, 0x7A, 0x79,
    0x78, 0x77, 0x76, 0x75, 0x74, 0x73, 0x72, 0x71, 0x70, 0x6F, 0x6E, 0x62,
    0x61, 0x5F, 0x5E, 0x5D, 0x5C, 0x5B, 0x5A, 0x59, 0x58, 0x57, 0x56, 0x55,
    0x54, 0x53, 0x52, 0x51, 0x50, 0x4F, 0x42, 0x41, 0x3F, 0x3E, 0x3D, 0x3C,
    0x3B, 0x3A, 0x39, 0x38, 0x37, 0x36, 0x35, 0x34, 0x33, 0x32, 0x31, 0x30,
    0x2F, 0x21, 0x1F, 0x1E, 0x1D, 0x1C, 0x1B, 0x1A, 0x19, 0x18, 0x17, 0x16,
    0x15, 0x14, 0x13, 0x12,
];

/// Canonical codes (value, length) of declarations given in declaration order.
fn canonical(decls: &[(u16, u8)]) -> HashMap<u16, (u32, u32)> {
    let mut chains: Vec<Vec<u16>> = vec![Vec::new(); 32];
    for &(s, b) in decls {
        chains[b as usize].insert(0, s);
    }
    let mut free: i64 = 1;
    let mut out = HashMap::new();
    for b in 0..32 {
        for (k, &s) in chains[b].iter().enumerate() {
            out.insert(s, ((free - 1 - k as i64) as u32, b as u32));
        }
        free = 2 * (free - chains[b].len() as i64);
    }
    out
}

fn build(decls: &[(u16, u8)]) -> (HuffmanTree, bool) {
    let mut builder = HuffmanTreeBuilder::new();
    for &(s, b) in decls {
        builder.add_symbol(s, b);
    }
    let mut table = HuffmanTree::new();
    let ok = table.build_huffmantree(&builder);
    (table, ok)
}

/// A reader whose stream starts with `code` (of `len` bits), then a single 1 bit.
fn reader_for(code: u32, len: u32) -> BitReader {
    let mut words: Vec<u32> = vec![0, 0];
    let mut pos = 0u32;
    for i in (0..len).rev() {
        let bit = (code >> i) & 1;
        words[(pos / 32) as usize] |= bit << (31 - pos % 32);
        pos += 1;
    }
    words[(pos / 32) as usize] |= 1 << (31 - pos % 32);
    let bytes: Vec<u8> = words.iter().flat_map(|w| w.to_le_bytes()).collect();
    BitReader::new(bytes, 0)
}

/// Decodes every declared symbol from its canonical code and checks the length taken.
fn round_trip(decls: &[(u16, u8)]) {
    let (table, ok) = build(decls);
    assert!(ok);
    for (s, (code, len)) in canonical(decls) {
        let mut reader = reader_for(code, len);
        assert_eq!(table.read_code(&mut reader), Some(s));
        assert_eq!(reader.read_bits(1), 1, "symbol {} took the wrong number of bits", s);
    }
}

#[test]
fn canonical_table_check() {
    let decls: Vec<(u16, u8)> = DICT_SYMBOLS.iter().cloned().zip(DICT_BITS.iter().cloned()).collect();
    let (table, ok) = build(&decls);
    assert!(ok);
    // The three 3-bit codes, from the top: the last declared gets 111.
    let mut reader = reader_for(0b110, 3);
    assert_eq!(table.read_code(&mut reader), Some(0x09));
    assert_eq!(reader.read_bits(1), 1);
    let mut reader = reader_for(0b111, 3);
    assert_eq!(table.read_code(&mut reader), Some(0x08));
    let mut reader = reader_for(0b101, 3);
    assert_eq!(table.read_code(&mut reader), Some(0x0A));
    assert_eq!(reader.read_bits(1), 1);
}

#[test]
fn static_dictionary_round_trip() {
    let decls: Vec<(u16, u8)> = DICT_SYMBOLS.iter().cloned().zip(DICT_BITS.iter().cloned()).collect();
    round_trip(&decls);
}

#[test]
fn static_dictionary_from_library() {
    let mut table = HuffmanTree::new();
    assert!(gw2_dat::dat::initialize_huffmantree_dict(&mut table));
    let decls: Vec<(u16, u8)> = DICT_SYMBOLS.iter().cloned().zip(DICT_BITS.iter().cloned()).collect();
    for (s, (code, len)) in canonical(&decls) {
        let mut reader = reader_for(code, len);
        assert_eq!(table.read_code(&mut reader), Some(s));
        assert_eq!(reader.read_bits(1), 1);
    }
}

#[test]
fn long_codes_round_trip() {
    // A skewed code reaching 20 bits: lengths 1, 2, ..., 19, 20, 20.
    let mut decls: Vec<(u16, u8)> = (1..=20u16).map(|b| (b, b as u8)).collect();
    decls.push((100, 20));
    round_trip(&decls);
}

#[test]
fn incomplete_code_round_trip() {
    round_trip(&[(3, 2), (7, 4), (200, 9), (201, 12), (5, 31)]);
}

#[test]
fn short_code_parity() {
    // Every value that starts with a short code decodes to it, whatever follows.
    let decls = [(10u16, 2u8), (11, 3), (12, 3), (13, 9), (14, 9)];
    let (table, ok) = build(&decls);
    assert!(ok);
    let codes = canonical(&decls);
    for (s, (code, len)) in codes.iter() {
        if *len > 8 {
            continue;
        }
        for tail in [0u32, 1, 0x5A5A, 0xFFFF_FFFF] {
            let x = (code << (32 - len)) | (tail >> len);
            let bytes: Vec<u8> = [x, 0].iter().flat_map(|w| w.to_le_bytes()).collect();
            let mut reader = BitReader::new(bytes, 0);
            assert_eq!(table.read_code(&mut reader), Some(*s));
        }
    }
}

#[test]
fn value_below_every_code() {
    // One symbol of length 1 takes code 1; a stream of zeros matches nothing.
    let (table, ok) = build(&[(4, 1)]);
    assert!(ok);
    let mut reader = BitReader::new(vec![0u8; 8], 0);
    assert_eq!(table.read_code(&mut reader), None);
    let mut reader = reader_for(1, 1);
    assert_eq!(table.read_code(&mut reader), Some(4));
}

#[test]
fn empty_table_fails() {
    let (_, ok) = build(&[]);
    assert!(!ok);
}

#[test]
fn oversubscribed_table_fails() {
    let (_, ok) = build(&[(1, 1), (2, 1), (3, 1)]);
    assert!(!ok);
    let (_, ok) = build(&[(1, 1), (2, 1)]);
    assert!(ok);
}

#[test]
fn repeated_declaration_is_ignored() {
    let mut builder = HuffmanTreeBuilder::new();
    builder.add_symbol(9, 1);
    builder.add_symbol(9, 1);
    builder.add_symbol(9, 1);
    let mut table = HuffmanTree::new();
    assert!(table.build_huffmantree(&builder));
    assert!(!builder.check_bits_head());
    assert!(HuffmanTreeBuilder::new().check_bits_head());
}

#[test]
fn bit_reader_peeks_msb_first() {
    let mut reader = BitReader::new(vec![0x78, 0x56, 0x34, 0x12, 0xF0, 0xDE, 0xBC, 0x9A], 0);
    assert_eq!(reader.read_bits(32), 0x1234_5678);
    assert_eq!(reader.read_bits(4), 0x1);
    reader.drop_bits(4);
    assert_eq!(reader.read_bits(32), 0x2345_6789);
    reader.drop_bits(28);
    assert_eq!(reader.read_bits(8), 0x9A);
    reader.drop_bits(32);
    assert_eq!(reader.read_bits(32), 0);
    assert!(reader.at_end());
}

#[test]
fn bit_reader_skips_framing_words() {
    // Period 2: the word at index 1 is discarded.
    let bytes: Vec<u8> = [0x1111_1111u32, 0xDEAD_BEEF, 0x2222_2222].iter().flat_map(|w| w.to_le_bytes()).collect();
    let mut reader = BitReader::new(bytes, 2);
    assert_eq!(reader.read_bits(32), 0x1111_1111);
    reader.drop_bits(32);
    assert_eq!(reader.read_bits(32), 0x2222_2222);
}
