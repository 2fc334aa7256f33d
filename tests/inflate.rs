use gw2_dat::bitreader::BitReader;
use gw2_dat::dat::{inflate_dat_file_buffer, read_header, read_token, copy_match, length_code, distance_code, Token};
use gw2_dat::huffman::{HuffmanTree, HuffmanTreeBuilder};
use std::collections::HashMap;

/// The static dictionary: code lengths, in declaration order.
const DICT_BITS: [u8; 256] = [
    3, 3, 3, 4, 4, 4, 4, 5, 5, 5, 5, 6, 6, 6, 6, 6, 6, 6, 6, 7,
    7, 7, 7, 7, 7, 7, 8, 8, 8, 8, 8, 8, 9, 9, 9, 9, 9, 9, 9, 9,
    9, 9, 10, 10, 10, 10, 10, 10, 10, 10, 10, 10, 10, 10, 10, 10, 10, 10, 11, 11,
    11, 11, 11, 11, 11, 11, 11, 11, 11, 11, 11, 12, 12, 12, 12, 12, 12, 12, 13, 13,
    13, 13, 13, 13, 14, 14, 14, 14, 15, 15, 15, 15, 15, 15, 15, 15, 16, 16, 16, 16,
    16, 16, 16, 16, 16, 16, 16, 16, 16, 16, 16, 16, 16, 16, 16, 16, 16, 16, 16, 16,
    16, 16, 16, 16, 16, 16, 16, 16, 16, 16, 16, 16, 16, 16, 16, 16, 16, 16, 16, 16,
    16, 16, 16, 16, 16, 16, 16, 16, 16, 16, 16, 16, 16, 16, 16, 16, 16, 16, 16, 16,
    16, 16, 16, 16, 16, 16, 16, 16, 16, 16, 16, 16, 16, 16, 16, 16, 16, 16, 16, 16,
    16, 16, 16, 16, 16, 16, 16, 16, 16, 16, 16, 16, 16, 16, 16, 16, 16, 16, 16, 16,
    16, 16, 16, 16, 16, 16, 16, 16, 16, 16, 16, 16, 16, 16, 16, 16, 16, 16, 16, 16,
    16, 16, 16, 16, 16, 16, 16, 16, 16, 16, 16, 16, 16, 16, 16, 16, 16, 16, 16, 16,
    16, 16, 16, 16, 16, 16, 16, 16, 16, 16, 16, 16, 16, 16, 16, 16,
];

/// The static dictionary: symbols, in declaration order.
const DICT_SYMBOLS: [u16; 256] = [
    0x0A, 0x09, 0x08, 0x0C, 0x0B, 0x07, 0x00, 0xE0, 0x2A, 0x29, 0x06, 0x4A,
    0x40, 0x2C, 0x2B, 0x28, 0x20, 0x05, 0x04, 0x49, 0x48, 0x27, 0x26, 0x25,
    0x0D, 0x03, 0x6A, 0x69, 0x4C, 0x4B, 0x47, 0x24, 0xE8, 0xA0, 0x89, 0x88,
    0x68, 0x67, 0x63, 0x60, 0x46, 0x23, 0xE9, 0xC9, 0xC0, 0xA9, 0xA8, 0x8A,
    0x87, 0x80, 0x66, 0x65, 0x45, 0x44, 0x43, 0x2D, 0x02, 0x01, 0xE5, 0xC8,
    0xAA, 0xA5, 0xA4, 0x8B, 0x85, 0x84, 0x6C, 0x6B, 0x64, 0x4D, 0x0E, 0xE7,
    0xCA, 0xC7, 0xA7, 0xA6, 0x86, 0x83, 0xE6, 0xE4, 0xC4, 0x8C, 0x2E, 0x22,
    0xEC, 0xC6, 0x6D, 0x4E, 0xEA, 0xCC, 0xAC, 0xAB, 0x8D, 0x11, 0x10, 0x0F,
    0xFF, 0xFE, 0xFD, 0xFC, 0xFB, 0xFA, 0xF9, 0xF8, 0xF7, 0xF6, 0xF5, 0xF4,
    0xF3, 0xF2, 0xF1, 0xF0, 0xEF, 0xEE, 0xED, 0xEB, 0xE3, 0xE2, 0xE1, 0xDF,
    0xDE, 0xDD, 0xDC, 0xDB, 0xDA, 0xD9, 0xD8, 0xD7, 0xD6, 0xD5, 0xD4, 0xD3,
    0xD2, 0xD1, 0xD0, 0xCF, 0xCE, 0xCD, 0xCB, 0xC5, 0xC3, 0xC2, 0xC1, 0xBF,
    0xBE, 0xBD, 0xBC, 0xBB, 0xBA, 0xB9, 0xB8, 0xB7, 0xB6, 0xB5, 0xB4, 0xB3,
    0xB2, 0xB1, 0xB0, 0xAF, 0xAE, 0xAD, 0xA3, 0xA2, 0xA1, 0x9F, 0x9E, 0x9D,
    0x9C, 0x9B, 0x9A, 0x99, 0x98, 0x97, 0x96, 0x95, 0x94, 0x93, 0x92, 0x91,
    0x90, 0x8F, 0x8E, 0x82, 0x81, 0x7F, 0x7E, 0x7D, 0x7C, 0x7B, 0x7A, 0x79,
    0x78, 0x77, 0x76, 0x75, 0x74, 0x73, 0x72, 0x71, 0x70, 0x6F, 0x6E, 0x62,
    0x61, 0x5F, 0x5E, 0x5D, 0x5C, 0x5B, 0x5A, 0x59, 0x58, 0x57, 0x56, 0x55,
    0x54, 0x53, 0x52, 0x51, 0x50, 0x4F, 0x42, 0x41, 0x3F, 0x3E, 0x3D, 0x3C,
    0x3B, 0x3A, 0x39, 0x38, 0x37, 0x36, 0x35, 0x34, 0x33, 0x32, 0x31, 0x30,
    0x2F, 0x21, 0x1F, 0x1E, 0x1D, 0x1C, 0x1B, 0x1A, 0x19, 0x18, 0x17, 0x16,
    0x15, 0x14, 0x13, 0x12,
];

/// Packs bits MSB-first into 32-bit words, stored little-endian.
struct BitWriter {
    words: Vec<u32>,
    acc: u32,
    n: u32,
}

impl BitWriter {
    fn new() -> Self {
        BitWriter { words: Vec::new(), acc: 0, n: 0 }
    }

    fn put(&mut self, value: u32, bits: u32) {
        for i in (0..bits).rev() {
            self.acc = (self.acc << 1) | ((value >> i) & 1);
            self.n += 1;
            if self.n == 32 {
                self.words.push(self.acc);
                self.acc = 0;
                self.n = 0;
            }
        }
    }

    fn finish(mut self, padding_words: usize) -> Vec<u8> {
        if self.n > 0 {
            let rest = 32 - self.n;
            self.put(0, rest);
        }
        for _ in 0..padding_words {
            self.words.push(0);
        }
        self.words.iter().flat_map(|w| w.to_le_bytes()).collect()
    }
}

/// Canonical codes (value, length) of declarations given in declaration order: one LIFO
/// chain per length, codes handed out from the top of the free range down.
fn canonical(decls: &[(u16, u8)]) -> HashMap<u16, (u32, u32)> {
    let mut chains: Vec<Vec<u16>> = vec![Vec::new(); 32];
    for &(s, b) in decls {
        chains[b as usize].insert(0, s);
    }
    let mut free: i64 = 1;
    let mut out = HashMap::new();
    for b in 0..32 {
        for (k, &s) in chains[b].iter().enumerate() {
            out.insert(s, ((free - 1 - k as i64) as u32, b as u32));
        }
        free = 2 * (free - chains[b].len() as i64);
    }
    out
}

fn dictionary_codes() -> HashMap<u16, (u32, u32)> {
    let decls: Vec<(u16, u8)> = DICT_SYMBOLS.iter().cloned().zip(DICT_BITS.iter().cloned()).collect();
    canonical(&decls)
}

/// Writes a dynamic table header that gives symbol `s` the length `lens[s]` (0: absent).
/// Returns the codes of the table.
fn put_table(w: &mut BitWriter, dict: &HashMap<u16, (u32, u32)>, lens: &[u8]) -> HashMap<u16, (u32, u32)> {
    let count = lens.len() as i32;
    w.put(count as u32, 16);
    let mut remaining = count - 1;
    let mut decls = Vec::new();
    while remaining >= 0 {
        let b = lens[remaining as usize];
        let mut run = 1;
        while run < 8 && remaining - run >= 0 && lens[(remaining - run) as usize] == b {
            run += 1;
        }
        let c = (((run - 1) << 5) as u16) | b as u16;
        let (code, len) = dict[&c];
        w.put(code, len);
        if b != 0 {
            for k in 0..run {
                decls.push(((remaining - k) as u16, b));
            }
        }
        remaining -= run;
    }
    canonical(&decls)
}

fn put_code(w: &mut BitWriter, codes: &HashMap<u16, (u32, u32)>, s: u16) {
    let (code, len) = codes[&s];
    w.put(code, len);
}

/// Writes the prologue (three words), the block header with length addend 1, and the two
/// tables; returns the writer and the two tables' codes.
fn start_stream(size: u32, symbol_lens: &[u8], copy_lens: &[u8]) -> (BitWriter, HashMap<u16, (u32, u32)>, HashMap<u16, (u32, u32)>) {
    let dict = dictionary_codes();
    let mut w = BitWriter::new();
    w.put(0x1234_5678, 32);
    w.put(size, 32);
    w.put(0x9ABC_DEF0, 32);
    w.put(0, 4);
    w.put(0, 4);
    w.put(0, 4);
    let symbols = put_table(&mut w, &dict, symbol_lens);
    let copies = put_table(&mut w, &dict, copy_lens);
    w.put(0, 4);
    w.put(0, 4);
    (w, symbols, copies)
}

fn lens_with(count: usize, entries: &[(usize, u8)]) -> Vec<u8> {
    let mut v = vec![0u8; count];
    for &(s, b) in entries {
        v[s] = b;
    }
    v
}

fn inflate(input: Vec<u8>) -> (u32, Vec<u8>) {
    let mut size: u32 = 0;
    let mut out: Vec<u8> = Vec::new();
    inflate_dat_file_buffer(input, &mut size, &mut out);
    (size, out)
}

#[test]
fn trivial_literals() {
    let lens = lens_with(0x6A, &[(0x48, 3), (0x69, 3)]);
    let (mut w, symbols, _) = start_stream(2, &lens, &[1]);
    put_code(&mut w, &symbols, 0x48);
    put_code(&mut w, &symbols, 0x69);
    let (size, out) = inflate(w.finish(4));
    assert_eq!(size, 2);
    assert_eq!(out, vec![0x48, 0x69]);
}

#[test]
fn single_back_reference() {
    let lens = lens_with(258, &[(0x41, 1), (257, 1)]);
    let (mut w, symbols, copies) = start_stream(3, &lens, &[1]);
    put_code(&mut w, &symbols, 0x41);
    put_code(&mut w, &symbols, 257);
    put_code(&mut w, &copies, 0);
    let (size, out) = inflate(w.finish(4));
    assert_eq!(size, 3);
    assert_eq!(out, vec![0x41, 0x41, 0x41]);
}

#[test]
fn offset_one_run() {
    let lens = lens_with(279, &[(0x00, 1), (278, 1)]);
    let (mut w, symbols, copies) = start_stream(101, &lens, &[1]);
    put_code(&mut w, &symbols, 0x00);
    put_code(&mut w, &symbols, 278);
    w.put(3, 4);
    put_code(&mut w, &copies, 0);
    let (size, out) = inflate(w.finish(4));
    assert_eq!(size, 101);
    assert_eq!(out, vec![0u8; 101]);
}

#[test]
fn copy_from_further_back() {
    // "abcd", then length code 2 (2 + addend 1 = 3) with offset code 3 (q 1, r 1: 3 + 1 = 4).
    let lens = lens_with(259, &[(0x61, 3), (0x62, 3), (0x63, 3), (0x64, 3), (258, 3)]);
    let copy_lens = lens_with(4, &[(3, 1)]);
    let (mut w, symbols, copies) = start_stream(8, &lens, &copy_lens);
    for s in [0x61u16, 0x62, 0x63, 0x64] {
        put_code(&mut w, &symbols, s);
    }
    put_code(&mut w, &symbols, 258);
    put_code(&mut w, &copies, 3);
    let (size, out) = inflate(w.finish(4));
    assert_eq!(size, 8);
    assert_eq!(&out[..7], b"abcdabc");
    assert_eq!(out[7], 0);
}

#[test]
fn truncated_input() {
    let mut bytes = Vec::new();
    bytes.extend_from_slice(&7u32.to_le_bytes());
    bytes.extend_from_slice(&5u32.to_le_bytes());
    bytes.extend_from_slice(&9u32.to_le_bytes());
    let (size, out) = inflate(bytes);
    assert_eq!(size, 5);
    assert_eq!(out.len(), 5);
}

#[test]
fn shorter_than_header() {
    let (size, out) = inflate(vec![1, 2, 3, 4, 5]);
    assert_eq!(size, 0);
    assert!(out.is_empty());
}

#[test]
fn header_contract() {
    let mut bytes = Vec::new();
    bytes.extend_from_slice(&0xAABBCCDDu32.to_le_bytes());
    bytes.extend_from_slice(&0x0102_0304u32.to_le_bytes());
    bytes.extend_from_slice(&0xFFFF_FFFFu32.to_le_bytes());
    bytes.extend_from_slice(&0x8000_0000u32.to_le_bytes());
    let mut reader = BitReader::new(bytes, 0);
    let size = read_header(&mut reader);
    assert_eq!(size, 0x0102_0304);
    // The next bit is the top bit of the fourth word: 96 bits were consumed.
    assert_eq!(reader.read_bits(1), 1);
}

#[test]
fn output_size_matches_header() {
    let lens = lens_with(0x6A, &[(0x48, 3), (0x69, 3)]);
    let (mut w, symbols, _) = start_stream(40, &lens, &[1]);
    for _ in 0..40 {
        put_code(&mut w, &symbols, 0x48);
    }
    let (size, out) = inflate(w.finish(4));
    assert_eq!(size, 40);
    assert_eq!(out.len(), 40);
    assert!(out.iter().all(|&b| b == 0x48));
}

#[test]
fn deterministic_output() {
    let lens = lens_with(279, &[(0x00, 1), (278, 1)]);
    let (mut w, symbols, copies) = start_stream(101, &lens, &[1]);
    put_code(&mut w, &symbols, 0x00);
    put_code(&mut w, &symbols, 278);
    w.put(3, 4);
    put_code(&mut w, &copies, 0);
    let bytes = w.finish(4);
    let first = inflate(bytes.clone());
    let second = inflate(bytes);
    assert_eq!(first, second);
}

#[test]
fn copy_beyond_output_stops() {
    // A copy from before the start of the output ends decoding; the rest stays zero.
    let lens = lens_with(258, &[(0x41, 1), (257, 1)]);
    let copy_lens = lens_with(4, &[(3, 1)]);
    let (mut w, symbols, copies) = start_stream(4, &lens, &copy_lens);
    put_code(&mut w, &symbols, 0x41);
    put_code(&mut w, &symbols, 257);
    put_code(&mut w, &copies, 3);
    let (size, out) = inflate(w.finish(4));
    assert_eq!(size, 4);
    assert_eq!(out, vec![0x41, 0, 0, 0]);
}

#[test]
fn invalid_length_code() {
    // Symbol 285: q = 7, r = 1, not the 0xFF code: length 0 before the addend.
    assert_eq!(length_code(285 - 256), (0, 0));
    assert_eq!(length_code(28), (0xFF, 0));
}

#[test]
fn length_codes() {
    assert_eq!(length_code(0), (0, 0));
    assert_eq!(length_code(3), (3, 0));
    assert_eq!(length_code(4), (4, 0));
    assert_eq!(length_code(7), (7, 0));
    assert_eq!(length_code(8), (8, 1));
    assert_eq!(length_code(22), (96, 4));
    assert_eq!(length_code(27), (224, 5));
}

#[test]
fn offset_extra_bits() {
    // Offset code 5 (q 2, r 1): base 6 and one extra bit, here 1: offset 6 + 1 + 1 = 8.
    let lens = lens_with(258, &[(0x61, 1), (257, 1)]);
    let copy_lens = lens_with(6, &[(5, 1)]);
    let (mut w, symbols, copies) = start_stream(10, &lens, &copy_lens);
    for _ in 0..8 {
        put_code(&mut w, &symbols, 0x61);
    }
    put_code(&mut w, &symbols, 257);
    put_code(&mut w, &copies, 5);
    w.put(1, 1);
    let (size, out) = inflate(w.finish(4));
    assert_eq!(size, 10);
    assert_eq!(out, vec![0x61; 10]);
}

#[test]
fn distance_codes() {
    assert_eq!(distance_code(0), (0, 0));
    assert_eq!(distance_code(1), (1, 0));
    assert_eq!(distance_code(2), (2, 0));
    assert_eq!(distance_code(3), (3, 0));
    assert_eq!(distance_code(5), (6, 1));
    assert_eq!(distance_code(33), (0x18000, 15));
    assert_eq!(distance_code(34), (0, 0));
}

#[test]
fn copy_match_overlaps() {
    let mut out = vec![7, 9, 0, 0, 0, 0];
    let end = copy_match(&mut out, 2, 2, 10);
    assert_eq!(end, 6);
    assert_eq!(out, vec![7, 9, 7, 9, 7, 9]);
}

#[test]
fn read_token_literal_and_copy() {
    let lens = lens_with(258, &[(0x41, 1), (257, 1)]);
    let dict_codes = dictionary_codes();
    let mut w = BitWriter::new();
    let symbols_codes = put_table(&mut w, &dict_codes, &lens);
    let copies_codes = put_table(&mut w, &dict_codes, &[1]);
    put_code(&mut w, &symbols_codes, 257);
    put_code(&mut w, &copies_codes, 0);
    put_code(&mut w, &symbols_codes, 0x41);
    let mut reader = BitReader::new(w.finish(2), 0);
    let mut dict = HuffmanTree::new();
    assert!(gw2_dat::dat::initialize_huffmantree_dict(&mut dict));
    let mut builder = HuffmanTreeBuilder::new();
    let mut symbols = HuffmanTree::new();
    let mut copies = HuffmanTree::new();
    assert!(gw2_dat::dat::parse_huffmantree(&mut reader, &mut symbols, &dict, &mut builder));
    assert!(gw2_dat::dat::parse_huffmantree(&mut reader, &mut copies, &dict, &mut builder));
    assert_eq!(read_token(&mut reader, &symbols, &copies, 1), Some(Token::Copy { length: 2, distance: 1 }));
    assert_eq!(read_token(&mut reader, &symbols, &copies, 1), Some(Token::Literal(0x41)));
}

#[test]
fn second_block_after_budget() {
    // The first block's budget is 4096 tokens; the second block brings its own tables.
    let first = lens_with(0x62, &[(0x61, 1), (0x60, 1)]);
    let (mut w, symbols, _) = start_stream(4098, &first, &[1]);
    for _ in 0..4096 {
        put_code(&mut w, &symbols, 0x61);
    }
    let dict = dictionary_codes();
    let second = lens_with(0x63, &[(0x62, 1), (0x30, 1)]);
    let symbols_2 = put_table(&mut w, &dict, &second);
    put_table(&mut w, &dict, &[1]);
    w.put(0, 4);
    w.put(0, 4);
    put_code(&mut w, &symbols_2, 0x62);
    put_code(&mut w, &symbols_2, 0x62);
    let (size, out) = inflate(w.finish(4));
    assert_eq!(size, 4098);
    assert!(out[..4096].iter().all(|&b| b == 0x61));
    assert_eq!(&out[4096..], b"bb");
}

#[test]
fn tight_stream_decodes_to_the_end() {
    // No padding after the last token: the block still decodes it.
    let lens = lens_with(0x6A, &[(0x48, 3), (0x69, 3)]);
    let (mut w, symbols, _) = start_stream(2, &lens, &[1]);
    put_code(&mut w, &symbols, 0x48);
    put_code(&mut w, &symbols, 0x69);
    let (size, out) = inflate(w.finish(0));
    assert_eq!(size, 2);
    assert_eq!(out, vec![0x48, 0x69]);
}
