use vstd::prelude::*;
use vstd::arithmetic::power2::pow2;
use vstd::bits::{lemma_u32_shl_is_mul, lemma_u32_pow2_no_overflow};
use crate::bitreader::{BitReader, bits_at, le_word, stream_words, window, word_of, cat, ends_at};
use crate::huffman::{
    HuffmanTree, HuffmanTreeBuilder, decodes, builds, empty_chains, in_chains, total,
    lemma_total_update, free_codes, fits_code_space, MAX_SYMBOL_VALUE,
};

verus! {

/// The uncompressed size that a stream announces: its second little-endian word, zero when
/// the stream is shorter than two words.
pub open spec fn header_size(input: Seq<u8>) -> u32 {
    if input.len() >= 8 {
        le_word(input, 4)
    } else {
        0
    }
}

/// A length code `v` (a symbol minus 256): the base length and how many extra bits follow.
/// The extra bits fill the low bits of the base, which are zero.
pub open spec fn length_of(v: int) -> (int, int) {
    let q = v / 4;
    let r = v % 4;
    if q == 0 {
        (v, 0)
    } else if q < 7 {
        (pow2((q - 1) as nat) * (4 + r), q - 1)
    } else if v == 28 {
        (0xFF, 0)
    } else {
        (0, 0)
    }
}

/// An offset code `t`: the base offset and how many extra bits follow.
pub open spec fn distance_of(t: int) -> (int, int) {
    let q = t / 2;
    let r = t % 2;
    if q == 0 {
        (t, 0)
    } else if q < 17 {
        (pow2((q - 1) as nat) * (2 + r), q - 1)
    } else {
        (0, 0)
    }
}

/// The value of `n` extra bits at bit `p` (none when `n` is zero).
pub open spec fn extra_at(w: Seq<u32>, p: nat, n: int) -> int {
    if n > 0 {
        bits_at(w, p, n as nat) as int
    } else {
        0
    }
}

/// One token of the stream: a literal byte, or a copy of earlier output.
#[derive(PartialEq, Eq, Structural, Clone, Copy, Debug)]
pub enum Token {
    Literal(u8),
    Copy { length: u32, distance: u32 },
}

/// The token that starts at bit `p`, and the number of bits it takes: a symbol of the
/// symbol table, and for a length code its extra bits, an offset code of the copy table
/// and the offset's extra bits. `None` when a code is not in its table.
pub open spec fn token_at(
    symbols: Seq<Seq<u16>>,
    copies: Seq<Seq<u16>>,
    addend: u32,
    w: Seq<u32>,
    p: nat,
) -> Option<(Token, nat)> {
    match decodes(symbols, bits_at(w, p, 32)) {
        None => None,
        Some((s, b)) => if s < 256 {
            Some((Token::Literal(s as u8), b))
        } else {
            let (lb, le) = length_of(s - 256);
            let p2 = p + b + le;
            match decodes(copies, bits_at(w, p2 as nat, 32)) {
                None => None,
                Some((t, c)) => {
                    let (db, de) = distance_of(t as int);
                    let length = lb + extra_at(w, (p + b) as nat, le) + addend;
                    let distance = db + extra_at(w, (p2 + c) as nat, de) + 1;
                    Some(
                        (
                            Token::Copy { length: length as u32, distance: distance as u32 },
                            (b + le + c + de) as nat,
                        ),
                    )
                },
            }
        },
    }
}

proof fn lemma_extra_bound(x: u32, n: u32)
    requires
        1 <= n <= 15,
    ensures
        (x >> ((32 - n) as u32)) < (1u32 << n),
        (1u32 << n) <= 0x8000,
{
    assert((x >> ((32 - n) as u32)) < (1u32 << n)) by (bit_vector)
        requires
            1 <= n <= 15,
    ;
    assert((1u32 << n) <= 0x8000) by (bit_vector)
        requires
            1 <= n <= 15,
    ;
}

fn pow2_u32(e: u32) -> (r: u32)
    requires
        e < 31,
    ensures
        r == pow2(e as nat),
{
    proof {
        lemma_u32_pow2_no_overflow(e as nat);
        lemma_u32_shl_is_mul(1, e);
    }
    1u32 << e
}

/// The base and extra-bit count of length code `v`.
pub fn length_code(v: u16) -> (r: (u32, u8))
    ensures
        r.0 as int == length_of(v as int).0,
        r.1 as int == length_of(v as int).1,
        r.0 <= 0xFF,
        r.1 <= 5,
{
    let q = v / 4;
    let rem = v % 4;
    if q == 0 {
        (v as u32, 0)
    } else if q < 7 {
        let p = pow2_u32((q - 1) as u32);
        proof {
            vstd::arithmetic::power2::lemma2_to64();
            assert(p <= 32) by {
                vstd::arithmetic::power2::lemma_pow2_strictly_increases((q - 1) as nat, 6);
            }
            assert(p * (4 + rem as u32) <= 32 * 7) by (nonlinear_arith)
                requires
                    p <= 32,
                    rem < 4,
            ;
        }
        (p * (4 + rem as u32), (q - 1) as u8)
    } else if v == 28 {
        (0xFF, 0)
    } else {
        (0, 0)
    }
}

/// The base and extra-bit count of offset code `t`.
pub fn distance_code(t: u16) -> (r: (u32, u8))
    ensures
        r.0 as int == distance_of(t as int).0,
        r.1 as int == distance_of(t as int).1,
        r.0 <= 0x1_8000,
        r.1 <= 15,
{
    let q = t / 2;
    let rem = t % 2;
    if q == 0 {
        (t as u32, 0)
    } else if q < 17 {
        let p = pow2_u32((q - 1) as u32);
        proof {
            vstd::arithmetic::power2::lemma2_to64();
            assert(p <= 0x8000) by {
                if q - 1 < 15 {
                    vstd::arithmetic::power2::lemma_pow2_strictly_increases((q - 1) as nat, 15);
                }
            }
            assert(p * (2 + rem as u32) <= 0x8000 * 3) by (nonlinear_arith)
                requires
                    p <= 0x8000,
                    rem < 2,
            ;
        }
        (p * (2 + rem as u32), (q - 1) as u8)
    } else {
        (0, 0)
    }
}

/// Reads `n` extra bits (none when `n` is zero).
fn read_extra(reader: &mut BitReader, n: u8) -> (r: u32)
    requires
        old(reader).wf(),
        n <= 15,
    ensures
        final(reader).wf(),
        final(reader).stream() == old(reader).stream(),
        final(reader).input_bytes() == old(reader).input_bytes(),
        final(reader).period() == old(reader).period(),
        final(reader).cursor_bytes() >= old(reader).cursor_bytes(),
        final(reader).position() == old(reader).position() + n,
        r as int == extra_at(old(reader).stream(), old(reader).position(), n as int),
        r < 0x8000,
{
    if n == 0 {
        return 0;
    }
    let x = reader.read_bits(n);
    proof {
        lemma_extra_bound(window(reader.stream(), reader.position()), n as u32);
    }
    reader.drop_bits(n);
    x
}

/// Decodes the token at the reader's position.
pub fn read_token(
    reader: &mut BitReader,
    symbols: &HuffmanTree,
    copies: &HuffmanTree,
    addend: u32,
) -> (r: Option<Token>)
    requires
        old(reader).wf(),
        symbols.wf(),
        copies.wf(),
        1 <= addend <= 16,
    ensures
        final(reader).wf(),
        final(reader).stream() == old(reader).stream(),
        final(reader).input_bytes() == old(reader).input_bytes(),
        final(reader).period() == old(reader).period(),
        final(reader).cursor_bytes() >= old(reader).cursor_bytes(),
        match token_at(
            symbols.decl(),
            copies.decl(),
            addend,
            old(reader).stream(),
            old(reader).position(),
        ) {
            None => r is None,
            Some((t, n)) => r == Some(t) && final(reader).position() == old(reader).position() + n,
        },
{
    let symbol = match symbols.read_code(reader) {
        None => {
            return None;
        },
        Some(s) => s,
    };
    if symbol < 256 {
        return Some(Token::Literal(symbol as u8));
    }
    let (length_base, length_bits) = length_code(symbol - 256);
    let length_extra = read_extra(reader, length_bits);
    let code = match copies.read_code(reader) {
        None => {
            return None;
        },
        Some(c) => c,
    };
    let (distance_base, distance_bits) = distance_code(code);
    let distance_extra = read_extra(reader, distance_bits);
    Some(
        Token::Copy {
            length: length_base + length_extra + addend,
            distance: distance_base + distance_extra + 1,
        },
    )
}

/// `out` after copying `n` bytes to `pos` from `d` back, one byte at a time, up to the end.
pub open spec fn copy_into(out: Seq<u8>, pos: int, d: int, n: int) -> Seq<u8>
    decreases n,
{
    if n <= 0 || d < 1 || pos < d || pos >= out.len() {
        out
    } else {
        copy_into(out.update(pos, out[pos - d]), pos + 1, d, n - 1)
    }
}

/// Copies `length` bytes from `distance` back, one byte at a time (so a copy may overlap
/// the bytes it writes), stopping at the end of the buffer; returns where it stopped.
pub fn copy_match(output: &mut Vec<u8>, pos: usize, distance: usize, length: usize) -> (end: usize)
    requires
        1 <= distance <= pos <= old(output)@.len(),
    ensures
        final(output)@.len() == old(output)@.len(),
        end == if pos + length < old(output)@.len() {
            pos + length
        } else {
            old(output)@.len() as int
        },
        forall|j: int| 0 <= j < pos ==> #[trigger] final(output)@[j] == old(output)@[j],
        forall|j: int|
            end <= j < old(output)@.len() ==> #[trigger] final(output)@[j] == old(output)@[j],
        forall|j: int| pos <= j < end ==> #[trigger] final(output)@[j] == final(output)@[j - distance],
        final(output)@ == copy_into(old(output)@, pos as int, distance as int, length as int),
{
    let len = output.len();
    let end = if length < len - pos {
        pos + length
    } else {
        len
    };
    let mut i = pos;
    while i < end
        invariant
            1 <= distance <= pos <= i <= end <= len,
            output@.len() == len,
            len == old(output)@.len(),
            forall|j: int| 0 <= j < pos ==> #[trigger] output@[j] == old(output)@[j],
            forall|j: int| i <= j < len ==> #[trigger] output@[j] == old(output)@[j],
            forall|j: int| pos <= j < i ==> #[trigger] output@[j] == output@[j - distance],
            copy_into(old(output)@, pos as int, distance as int, length as int) == copy_into(
                output@,
                i as int,
                distance as int,
                length - (i - pos),
            ),
            end == pos + length || end == len,
            end <= pos + length,
        decreases end - i,
    {
        let b = output[i - distance];
        proof {
            let n = length - (i - pos);
            assert(copy_into(output@, i as int, distance as int, n) == copy_into(
                output@.update(i as int, output@[i - distance]),
                i + 1,
                distance as int,
                n - 1,
            ));
        }
        output.set(i, b);
        i = i + 1;
    }
    end
}

/// Reads the stream prologue of three words: a discarded word, the uncompressed size, and a
/// second discarded word.
pub fn read_header(reader: &mut BitReader) -> (size: u32)
    requires
        old(reader).wf(),
        old(reader).position() == 0,
        old(reader).period() == 0,
    ensures
        final(reader).wf(),
        final(reader).stream() == old(reader).stream(),
        final(reader).input_bytes() == old(reader).input_bytes(),
        final(reader).period() == 0,
        final(reader).position() == 96,
        size == header_size(old(reader).input_bytes()),
{
    reader.drop_bits(32);
    let size = reader.read_bits(32);
    reader.drop_bits(32);
    reader.drop_bits(32);
    proof {
        let input = reader.input_bytes();
        let w = reader.stream();
        reader.lemma_stream();
        if input.len() >= 8 {
            assert(stream_words(input, 0, 4) =~= seq![le_word(input, 4)] + stream_words(input, 0, 8));
            assert(w =~= seq![le_word(input, 0)] + stream_words(input, 0, 4));
            assert(w[1] == le_word(input, 4));
        } else if input.len() >= 4 {
            assert(stream_words(input, 0, 4).len() == 0);
            assert(w =~= seq![le_word(input, 0)] + stream_words(input, 0, 4));
        } else {
            assert(w.len() == 0);
        }
        let x = word_of(w, 1);
        let y = word_of(w, 2);
        assert(((cat(x, y) >> 32u64) as u32) >> 0u32 == x) by (bit_vector);
    }
    size
}

/// Where the declarations of length `b` start in the static dictionary, which declares its
/// symbols grouped by length, shortest first (3 to 16 bits).
pub open spec fn group_start(b: int) -> int {
    if b <= 3 {
        0
    } else if b == 4 {
        3
    } else if b == 5 {
        7
    } else if b == 6 {
        11
    } else if b == 7 {
        19
    } else if b == 8 {
        26
    } else if b == 9 {
        32
    } else if b == 10 {
        42
    } else if b == 11 {
        58
    } else if b == 12 {
        71
    } else if b == 13 {
        78
    } else if b == 14 {
        84
    } else if b == 15 {
        88
    } else if b == 16 {
        96
    } else {
        256
    }
}

/// The code length of declaration `i` of the static dictionary.
pub open spec fn dictionary_length(i: int) -> int {
    if i < 3 {
        3
    } else if i < 7 {
        4
    } else if i < 11 {
        5
    } else if i < 19 {
        6
    } else if i < 26 {
        7
    } else if i < 32 {
        8
    } else if i < 42 {
        9
    } else if i < 58 {
        10
    } else if i < 71 {
        11
    } else if i < 78 {
        12
    } else if i < 84 {
        13
    } else if i < 88 {
        14
    } else if i < 96 {
        15
    } else {
        16
    }
}

/// The code lengths of the static dictionary, in declaration order.
pub open spec fn dictionary_bits() -> Seq<u8> {
    Seq::new(256, |i: int| dictionary_length(i) as u8)
}

/// The symbols of the static dictionary, in declaration order.
pub open spec fn dictionary_symbols() -> Seq<u16> {
    seq![
        0x0Au16, 0x09, 0x08, 0x0C, 0x0B, 0x07, 0x00, 0xE0, 0x2A, 0x29, 0x06, 0x4A,
        0x40, 0x2C, 0x2B, 0x28, 0x20, 0x05, 0x04, 0x49, 0x48, 0x27, 0x26, 0x25,
        0x0D, 0x03, 0x6A, 0x69, 0x4C, 0x4B, 0x47, 0x24, 0xE8, 0xA0, 0x89, 0x88,
        0x68, 0x67, 0x63, 0x60, 0x46, 0x23, 0xE9, 0xC9, 0xC0, 0xA9, 0xA8, 0x8A,
        0x87, 0x80, 0x66, 0x65, 0x45, 0x44, 0x43, 0x2D, 0x02, 0x01, 0xE5, 0xC8,
        0xAA, 0xA5, 0xA4, 0x8B, 0x85, 0x84, 0x6C, 0x6B, 0x64, 0x4D, 0x0E, 0xE7,
        0xCA, 0xC7, 0xA7, 0xA6, 0x86, 0x83, 0xE6, 0xE4, 0xC4, 0x8C, 0x2E, 0x22,
        0xEC, 0xC6, 0x6D, 0x4E, 0xEA, 0xCC, 0xAC, 0xAB, 0x8D, 0x11, 0x10, 0x0F,
        0xFF, 0xFE, 0xFD, 0xFC, 0xFB, 0xFA, 0xF9, 0xF8, 0xF7, 0xF6, 0xF5, 0xF4,
        0xF3, 0xF2, 0xF1, 0xF0, 0xEF, 0xEE, 0xED, 0xEB, 0xE3, 0xE2, 0xE1, 0xDF,
        0xDE, 0xDD, 0xDC, 0xDB, 0xDA, 0xD9, 0xD8, 0xD7, 0xD6, 0xD5, 0xD4, 0xD3,
        0xD2, 0xD1, 0xD0, 0xCF, 0xCE, 0xCD, 0xCB, 0xC5, 0xC3, 0xC2, 0xC1, 0xBF,
        0xBE, 0xBD, 0xBC, 0xBB, 0xBA, 0xB9, 0xB8, 0xB7, 0xB6, 0xB5, 0xB4, 0xB3,
        0xB2, 0xB1, 0xB0, 0xAF, 0xAE, 0xAD, 0xA3, 0xA2, 0xA1, 0x9F, 0x9E, 0x9D,
        0x9C, 0x9B, 0x9A, 0x99, 0x98, 0x97, 0x96, 0x95, 0x94, 0x93, 0x92, 0x91,
        0x90, 0x8F, 0x8E, 0x82, 0x81, 0x7F, 0x7E, 0x7D, 0x7C, 0x7B, 0x7A, 0x79,
        0x78, 0x77, 0x76, 0x75, 0x74, 0x73, 0x72, 0x71, 0x70, 0x6F, 0x6E, 0x62,
        0x61, 0x5F, 0x5E, 0x5D, 0x5C, 0x5B, 0x5A, 0x59, 0x58, 0x57, 0x56, 0x55,
        0x54, 0x53, 0x52, 0x51, 0x50, 0x4F, 0x42, 0x41, 0x3F, 0x3E, 0x3D, 0x3C,
        0x3B, 0x3A, 0x39, 0x38, 0x37, 0x36, 0x35, 0x34, 0x33, 0x32, 0x31, 0x30,
        0x2F, 0x21, 0x1F, 0x1E, 0x1D, 0x1C, 0x1B, 0x1A, 0x19, 0x18, 0x17, 0x16,
        0x15, 0x14, 0x13, 0x12,
    ]
}

/// One declaration, as the builder takes it: a symbol already declared, or one beyond the
/// table's capacity, changes nothing.
pub open spec fn add_decl(c: Seq<Seq<u16>>, symbol: u16, bits: u8) -> Seq<Seq<u16>> {
    if 1 <= bits < 32 && (symbol as int) < MAX_SYMBOL_VALUE && !in_chains(c, symbol) && total(c, 32)
        < MAX_SYMBOL_VALUE {
        c.update(bits as int, seq![symbol] + c[bits as int])
    } else {
        c
    }
}

/// The chains of the first `n` declarations of the static dictionary.
#[verifier::opaque]
pub open spec fn dictionary_chains(n: int) -> Seq<Seq<u16>>
    decreases n,
{
    if n <= 0 {
        empty_chains()
    } else {
        add_decl(dictionary_chains(n - 1), dictionary_symbols()[n - 1], dictionary_bits()[n - 1])
    }
}

/// How many of the first `n` declarations of the static dictionary have length `b`.
pub open spec fn declared_with(n: int, b: int) -> int {
    let lo = group_start(b);
    let hi = group_start(b + 1);
    if n <= lo {
        0
    } else if n >= hi {
        hi - lo
    } else {
        n - lo
    }
}

/// Chains of the sizes that the static dictionary declares, per length.
pub open spec fn dictionary_counts() -> Seq<Seq<u16>> {
    Seq::new(32, |b: int| Seq::new(declared_with(256, b) as nat, |i: int| 0u16))
}

proof fn lemma_group_of(n: int)
    requires
        0 <= n < 256,
    ensures
        group_start(dictionary_length(n)) <= n < group_start(dictionary_length(n) + 1),
        3 <= dictionary_length(n) <= 16,
{
}

/// The chains of the static dictionary never outgrow the declarations of each length.
proof fn lemma_dictionary_chain_sizes(n: int)
    requires
        0 <= n <= 256,
    ensures
        dictionary_chains(n).len() == 32,
        total(dictionary_chains(n), 32) <= n,
        forall|b: int| 0 <= b < 32 ==> #[trigger] dictionary_chains(n)[b].len() <= declared_with(n, b),
    decreases n,
{
    reveal_with_fuel(dictionary_chains, 1);
    if n == 0 {
        crate::huffman::lemma_total_empty(32);
    } else {
        lemma_dictionary_chain_sizes(n - 1);
        let c = dictionary_chains(n - 1);
        let s = dictionary_symbols()[n - 1];
        let bits = dictionary_bits()[n - 1];
        lemma_group_of(n - 1);
        assert(bits as int == dictionary_length(n - 1));
        if 1 <= bits < 32 && (s as int) < MAX_SYMBOL_VALUE && !in_chains(c, s) && total(c, 32)
            < MAX_SYMBOL_VALUE {
            lemma_total_update(c, bits as int, seq![s] + c[bits as int], 32);
        }
        assert forall|b: int| 0 <= b < 32 implies #[trigger] dictionary_chains(n)[b].len()
            <= declared_with(n, b) by {
            assert(c[b].len() <= declared_with(n - 1, b));
        }
    }
}

proof fn lemma_fits_from_counts(c: Seq<Seq<u16>>, big: Seq<Seq<u16>>, b: nat)
    requires
        b <= 32,
        c.len() == 32,
        big.len() == 32,
        fits_code_space(big),
        forall|l: int| 0 <= l < 32 ==> #[trigger] c[l].len() <= big[l].len(),
    ensures
        free_codes(c, b) >= free_codes(big, b),
    decreases b,
{
    if b > 0 {
        lemma_fits_from_counts(c, big, (b - 1) as nat);
        assert(c[b - 1].len() <= big[b - 1].len());
    }
}

proof fn lemma_counts_free_tail(d: Seq<Seq<u16>>, b: nat)
    requires
        17 <= b <= 32,
        d.len() == 32,
        free_codes(d, 17) == 0,
        forall|l: int| 17 <= l < 32 ==> #[trigger] d[l].len() == 0,
    ensures
        free_codes(d, b) == 0,
    decreases b,
{
    if b > 17 {
        lemma_counts_free_tail(d, (b - 1) as nat);
    }
}

/// The declaration counts of the static dictionary fill the code space exactly.
proof fn lemma_dictionary_counts_fit()
    ensures
        fits_code_space(dictionary_counts()),
{
    let d = dictionary_counts();
    assert(d[0].len() == 0 && d[1].len() == 0 && d[2].len() == 0 && d[3].len() == 3);
    assert(d[4].len() == 4 && d[5].len() == 4 && d[6].len() == 8 && d[7].len() == 7);
    assert(d[8].len() == 6 && d[9].len() == 10 && d[10].len() == 16 && d[11].len() == 13);
    assert(d[12].len() == 7 && d[13].len() == 6 && d[14].len() == 4 && d[15].len() == 8);
    assert(d[16].len() == 160);
    assert(free_codes(d, 0) == 1);
    assert(free_codes(d, 1) == 2);
    assert(free_codes(d, 2) == 4);
    assert(free_codes(d, 3) == 8);
    assert(free_codes(d, 4) == 10);
    assert(free_codes(d, 5) == 12);
    assert(free_codes(d, 6) == 16);
    assert(free_codes(d, 7) == 16);
    assert(free_codes(d, 8) == 18);
    assert(free_codes(d, 9) == 24);
    assert(free_codes(d, 10) == 28);
    assert(free_codes(d, 11) == 24);
    assert(free_codes(d, 12) == 22);
    assert(free_codes(d, 13) == 30);
    assert(free_codes(d, 14) == 48);
    assert(free_codes(d, 15) == 88);
    assert(free_codes(d, 16) == 160);
    assert(free_codes(d, 17) == 0);
    assert forall|l: int| 17 <= l < 32 implies #[trigger] d[l].len() == 0 by {}
    assert forall|b: int| 0 <= b < 32 implies #[trigger] d[b].len() <= free_codes(d, b as nat) by {
        if b >= 17 {
            lemma_counts_free_tail(d, b as nat);
        }
    }
}

/// The static dictionary declares a complete canonical code (Kraft's sum is exactly one),
/// so its table always builds.
pub proof fn lemma_dictionary_builds()
    ensures
        builds(dictionary_chains(256)),
{
    let c = dictionary_chains(256);
    lemma_dictionary_chain_sizes(256);
    lemma_dictionary_counts_fit();
    let big = dictionary_counts();
    assert forall|l: int| 0 <= l < 32 implies #[trigger] c[l].len() <= big[l].len() by {}
    assert forall|b: int| 0 <= b < 32 implies #[trigger] c[b].len() <= free_codes(c, b as nat) by {
        lemma_fits_from_counts(c, big, b as nat);
        assert(big[b].len() <= free_codes(big, b as nat));
    }
    assert(c[0].len() == 0);
    // The last declaration, 0x12 with sixteen bits, is either new or already declared.
    lemma_dictionary_chain_sizes(255);
    reveal_with_fuel(dictionary_chains, 1);
    let prev = dictionary_chains(255);
    assert(dictionary_symbols()[255] == 0x12u16);
    assert(dictionary_bits()[255] == 16u8);
    if in_chains(prev, 0x12u16) {
        let (b, k) = choose|b: int, k: int|
            0 <= b < prev.len() && 0 <= k < prev[b].len() && prev[b][k] == 0x12u16;
        assert(c == prev);
        assert(c[b].len() > 0);
    } else {
        assert(c[16].len() > 0);
    }
}

/// Builds the static dictionary that decodes the headers of the dynamic tables.
pub fn initialize_huffmantree_dict(table: &mut HuffmanTree) -> (r: bool)
    ensures
        final(table).shape(),
        r == builds(dictionary_chains(256)),
        r ==> final(table).wf() && final(table).decl() == dictionary_chains(256),
{
    let bits_data: Vec<u8> = vec![
        3, 3, 3, 4, 4, 4, 4, 5, 5, 5, 5, 6, 6, 6, 6, 6, 6, 6, 6, 7,
        7, 7, 7, 7, 7, 7, 8, 8, 8, 8, 8, 8, 9, 9, 9, 9, 9, 9, 9, 9,
        9, 9, 10, 10, 10, 10, 10, 10, 10, 10, 10, 10, 10, 10, 10, 10, 10, 10, 11, 11,
        11, 11, 11, 11, 11, 11, 11, 11, 11, 11, 11, 12, 12, 12, 12, 12, 12, 12, 13, 13,
        13, 13, 13, 13, 14, 14, 14, 14, 15, 15, 15, 15, 15, 15, 15, 15, 16, 16, 16, 16,
        16, 16, 16, 16, 16, 16, 16, 16, 16, 16, 16, 16, 16, 16, 16, 16, 16, 16, 16, 16,
        16, 16, 16, 16, 16, 16, 16, 16, 16, 16, 16, 16, 16, 16, 16, 16, 16, 16, 16, 16,
        16, 16, 16, 16, 16, 16, 16, 16, 16, 16, 16, 16, 16, 16, 16, 16, 16, 16, 16, 16,
        16, 16, 16, 16, 16, 16, 16, 16, 16, 16, 16, 16, 16, 16, 16, 16, 16, 16, 16, 16,
        16, 16, 16, 16, 16, 16, 16, 16, 16, 16, 16, 16, 16, 16, 16, 16, 16, 16, 16, 16,
        16, 16, 16, 16, 16, 16, 16, 16, 16, 16, 16, 16, 16, 16, 16, 16, 16, 16, 16, 16,
        16, 16, 16, 16, 16, 16, 16, 16, 16, 16, 16, 16, 16, 16, 16, 16, 16, 16, 16, 16,
        16, 16, 16, 16, 16, 16, 16, 16, 16, 16, 16, 16, 16, 16, 16, 16,
    ];
    let symbols_data: Vec<u16> = vec![
        0x0A, 0x09, 0x08, 0x0C, 0x0B, 0x07, 0x00, 0xE0, 0x2A, 0x29, 0x06, 0x4A,
        0x40, 0x2C, 0x2B, 0x28, 0x20, 0x05, 0x04, 0x49, 0x48, 0x27, 0x26, 0x25,
        0x0D, 0x03, 0x6A, 0x69, 0x4C, 0x4B, 0x47, 0x24, 0xE8, 0xA0, 0x89, 0x88,
        0x68, 0x67, 0x63, 0x60, 0x46, 0x23, 0xE9, 0xC9, 0xC0, 0xA9, 0xA8, 0x8A,
        0x87, 0x80, 0x66, 0x65, 0x45, 0x44, 0x43, 0x2D, 0x02, 0x01, 0xE5, 0xC8,
        0xAA, 0xA5, 0xA4, 0x8B, 0x85, 0x84, 0x6C, 0x6B, 0x64, 0x4D, 0x0E, 0xE7,
        0xCA, 0xC7, 0xA7, 0xA6, 0x86, 0x83, 0xE6, 0xE4, 0xC4, 0x8C, 0x2E, 0x22,
        0xEC, 0xC6, 0x6D, 0x4E, 0xEA, 0xCC, 0xAC, 0xAB, 0x8D, 0x11, 0x10, 0x0F,
        0xFF, 0xFE, 0xFD, 0xFC, 0xFB, 0xFA, 0xF9, 0xF8, 0xF7, 0xF6, 0xF5, 0xF4,
        0xF3, 0xF2, 0xF1, 0xF0, 0xEF, 0xEE, 0xED, 0xEB, 0xE3, 0xE2, 0xE1, 0xDF,
        0xDE, 0xDD, 0xDC, 0xDB, 0xDA, 0xD9, 0xD8, 0xD7, 0xD6, 0xD5, 0xD4, 0xD3,
        0xD2, 0xD1, 0xD0, 0xCF, 0xCE, 0xCD, 0xCB, 0xC5, 0xC3, 0xC2, 0xC1, 0xBF,
        0xBE, 0xBD, 0xBC, 0xBB, 0xBA, 0xB9, 0xB8, 0xB7, 0xB6, 0xB5, 0xB4, 0xB3,
        0xB2, 0xB1, 0xB0, 0xAF, 0xAE, 0xAD, 0xA3, 0xA2, 0xA1, 0x9F, 0x9E, 0x9D,
        0x9C, 0x9B, 0x9A, 0x99, 0x98, 0x97, 0x96, 0x95, 0x94, 0x93, 0x92, 0x91,
        0x90, 0x8F, 0x8E, 0x82, 0x81, 0x7F, 0x7E, 0x7D, 0x7C, 0x7B, 0x7A, 0x79,
        0x78, 0x77, 0x76, 0x75, 0x74, 0x73, 0x72, 0x71, 0x70, 0x6F, 0x6E, 0x62,
        0x61, 0x5F, 0x5E, 0x5D, 0x5C, 0x5B, 0x5A, 0x59, 0x58, 0x57, 0x56, 0x55,
        0x54, 0x53, 0x52, 0x51, 0x50, 0x4F, 0x42, 0x41, 0x3F, 0x3E, 0x3D, 0x3C,
        0x3B, 0x3A, 0x39, 0x38, 0x37, 0x36, 0x35, 0x34, 0x33, 0x32, 0x31, 0x30,
        0x2F, 0x21, 0x1F, 0x1E, 0x1D, 0x1C, 0x1B, 0x1A, 0x19, 0x18, 0x17, 0x16,
        0x15, 0x14, 0x13, 0x12,
    ];
    assert(bits_data@ =~= dictionary_bits());
    assert(symbols_data@ =~= dictionary_symbols());
    let mut builder = HuffmanTreeBuilder::new();
    let mut index: usize = 0;
    proof {
        reveal_with_fuel(dictionary_chains, 1);
    }
    while index < 256
        invariant
            builder.wf(),
            index <= 256,
            bits_data@ == dictionary_bits(),
            symbols_data@ == dictionary_symbols(),
            builder.chains() == dictionary_chains(index as int),
        decreases 256 - index,
    {
        let b = bits_data[index];
        let s = symbols_data[index];
        proof {
            reveal_with_fuel(dictionary_chains, 2);
        }
        if 1 <= b && b < 32 && (s as usize) < MAX_SYMBOL_VALUE {
            proof {
                builder.lemma_declares(s);
            }
            builder.add_symbol(s, b);
        }
        index = index + 1;
    }
    table.build_huffmantree(&builder)
}

/// Declares `k` symbols at length `b`, from `r` down: the chain of `b` gains `r - k + 1 ..= r`,
/// lowest first.
pub open spec fn declare_run(c: Seq<Seq<u16>>, r: int, k: int, b: int) -> Seq<Seq<u16>> {
    c.update(b, Seq::new(k as nat, |i: int| (r - k + 1 + i) as u16) + c[b])
}

/// The runs of a dynamic table header from bit `p` on, with the symbols `remaining` and
/// below still to declare: each run is a dictionary code `c` that gives the next
/// `c / 32 + 1` symbols the length `c % 32` (none when the length is zero). Ends with the
/// chains and the bit after the last run; `None` at a code the dictionary does not hold.
pub open spec fn table_runs(
    dict: Seq<Seq<u16>>,
    w: Seq<u32>,
    p: nat,
    remaining: int,
    c: Seq<Seq<u16>>,
) -> Option<(Seq<Seq<u16>>, nat)>
    decreases remaining + 0x1000,
{
    if remaining < 0 || remaining + 0x1000 < 0 {
        Some((c, p))
    } else {
        match decodes(dict, bits_at(w, p, 32)) {
            None => None,
            Some((code, n)) => {
                let bits = code as int % 32;
                let run = code as int / 32 + 1;
                let next = (p + n) as nat;
                if bits == 0 {
                    table_runs(dict, w, next, remaining - run, c)
                } else {
                    let k = if run <= remaining + 1 {
                        run
                    } else {
                        remaining + 1
                    };
                    table_runs(dict, w, next, remaining - run, declare_run(c, remaining, k, bits))
                }
            },
        }
    }
}

/// A dynamic table header at bit `p`: a 16-bit symbol count (of which at most
/// `MAX_SYMBOL_VALUE` are used), then the runs that declare the symbols from the highest
/// down.
pub open spec fn table_header(dict: Seq<Seq<u16>>, w: Seq<u32>, p: nat) -> Option<(Seq<Seq<u16>>, nat)> {
    let declared = bits_at(w, p, 16) as int;
    let count = if declared > MAX_SYMBOL_VALUE {
        MAX_SYMBOL_VALUE as int
    } else {
        declared
    };
    table_runs(dict, w, p + 16, count - 1, empty_chains())
}

/// Reads the header of a dynamic table from the stream and builds the table. Fails when a
/// dictionary code is invalid or the table cannot be built.
pub fn parse_huffmantree(
    reader: &mut BitReader,
    table: &mut HuffmanTree,
    dict: &HuffmanTree,
    builder: &mut HuffmanTreeBuilder,
) -> (r: bool)
    requires
        old(reader).wf(),
        dict.wf(),
    ensures
        final(reader).wf(),
        final(reader).stream() == old(reader).stream(),
        final(reader).input_bytes() == old(reader).input_bytes(),
        final(reader).period() == old(reader).period(),
        final(reader).cursor_bytes() >= old(reader).cursor_bytes(),
        final(builder).wf(),
        final(table).shape(),
        match table_header(dict.decl(), old(reader).stream(), old(reader).position()) {
            None => !r,
            Some((c, p)) => final(builder).chains() == c && final(reader).position() == p && r
                == builds(c),
        },
        r ==> final(table).wf() && final(table).decl() == final(builder).chains(),
        !r ==> final(table).blank(),
{
    let ghost w = reader.stream();
    let ghost d = dict.decl();
    let ghost p0 = reader.position();
    let declared = reader.read_bits(16);
    reader.drop_bits(16);
    let count: u32 = if declared > MAX_SYMBOL_VALUE as u32 {
        MAX_SYMBOL_VALUE as u32
    } else {
        declared
    };
    *builder = HuffmanTreeBuilder::new();
    let mut remaining: i32 = count as i32 - 1;
    proof {
        assert(total(empty_chains(), 32) == 0) by {
            crate::huffman::lemma_total_empty(32);
        }
    }
    while remaining >= 0
        invariant
            reader.wf(),
            dict.wf(),
            d == dict.decl(),
            builder.wf(),
            reader.stream() == w,
            w == old(reader).stream(),
            reader.input_bytes() == old(reader).input_bytes(),
            reader.period() == old(reader).period(),
            reader.cursor_bytes() >= old(reader).cursor_bytes(),
            remaining < MAX_SYMBOL_VALUE,
            remaining >= -0x1000,
            p0 == old(reader).position(),
            table_header(d, w, p0) == table_runs(d, w, reader.position(), remaining as int, builder.chains()),
            forall|b: int, k: int|
                0 <= b < builder.chains().len() && 0 <= k < builder.chains()[b].len()
                    ==> #[trigger] builder.chains()[b][k] > remaining,
            total(builder.chains(), 32) + remaining + 1 <= MAX_SYMBOL_VALUE,
        decreases remaining + 0x1000,
    {
        let ghost c0 = builder.chains();
        let ghost r0 = remaining as int;
        let ghost p = reader.position();
        let code = match dict.read_code(reader) {
            None => {
                assert(table_runs(d, w, p, r0, c0) is None);
                *table = HuffmanTree::new();
                return false;
            },
            Some(c) => c,
        };
        let bits = (code % 32) as u8;
        let mut run: i32 = (code / 32) as i32 + 1;
        let ghost run0 = run as int;
        proof {
            builder.lemma_shape();
            assert(declare_run(c0, r0, 0, bits as int) =~= c0);
        }
        if bits == 0 {
            remaining = remaining - run;
        } else {
            while run > 0 && remaining >= 0
                invariant
                    builder.wf(),
                    1 <= bits < 32,
                    remaining < MAX_SYMBOL_VALUE,
                    -1 <= remaining <= r0,
                    r0 >= 0,
                    run0 >= 1,
                    run == run0 - (r0 - remaining),
                    0 <= run <= 0x800,
                    r0 < MAX_SYMBOL_VALUE,
                    builder.chains() == declare_run(c0, r0, r0 - remaining, bits as int),
                    c0.len() == 32,
                    forall|b: int, k: int|
                        0 <= b < c0.len() && 0 <= k < c0[b].len() ==> #[trigger] c0[b][k] > r0,
                    total(c0, 32) + r0 + 1 <= MAX_SYMBOL_VALUE,
                decreases run,
            {
                proof {
                    let c = builder.chains();
                    let k = r0 - remaining;
                    builder.lemma_declares(remaining as u16);
                    assert(!in_chains(c, remaining as u16)) by {
                        if in_chains(c, remaining as u16) {
                            let (b, j) = choose|b: int, j: int|
                                0 <= b < c.len() && 0 <= j < c[b].len() && c[b][j] == remaining as u16;
                            if b == bits as int && j < k {
                                assert(0 <= r0 - k + 1 + j < MAX_SYMBOL_VALUE);
                                assert(c[b][j] == (r0 - k + 1 + j) as u16);
                                assert(false);
                            } else if b == bits as int {
                                assert(c[b][j] == c0[b][j - k]);
                                assert(false);
                            } else {
                                assert(c[b][j] == c0[b][j]);
                                assert(false);
                            }
                        }
                    }
                    lemma_total_update(c0, bits as int, Seq::new(k as nat, |i: int| (r0 - k + 1 + i) as u16) + c0[bits as int], 32);
                    assert(total(c, 32) < MAX_SYMBOL_VALUE);
                }
                builder.add_symbol(remaining as u16, bits);
                proof {
                    let k = r0 - remaining;
                    let c = declare_run(c0, r0, k, bits as int);
                    assert(builder.chains() =~= declare_run(c0, r0, k + 1, bits as int)) by {
                        assert(builder.chains()[bits as int] =~= declare_run(c0, r0, k + 1, bits as int)[bits as int]);
                    }
                }
                remaining = remaining - 1;
                run = run - 1;
            }
            proof {
                let kk = if run0 <= r0 + 1 {
                    run0
                } else {
                    r0 + 1
                };
                assert(r0 - remaining == kk);
            }
            if run > 0 {
                remaining = remaining - run;
            }
        }
        proof {
            let c = builder.chains();
            if bits != 0 {
                lemma_total_update(c0, bits as int, c[bits as int], 32);
                assert forall|b: int, j: int|
                    0 <= b < c.len() && 0 <= j < c[b].len() implies #[trigger] c[b][j] > remaining by {
                    if b != bits as int {
                        assert(c[b][j] == c0[b][j]);
                    }
                }
            }
        }
    }
    table.build_huffmantree(builder)
}

/// Where a copy of `length` bytes at `pos` ends in an output of `len` bytes.
pub open spec fn copy_end(len: int, pos: int, length: int) -> int {
    if pos + length < len {
        pos + length
    } else {
        len
    }
}

/// Decodes at most `left` tokens from bit `p` into `out` at `pos`, stopping early when the
/// output is full; past the end of the input the stream reads as zeros. Ends with the
/// output, its fill, the bit reached, and whether decoding must halt (an invalid code, or a
/// copy from before the start of the output); the bit reached is not given when halting.
pub open spec fn run_tokens(
    symbols: Seq<Seq<u16>>,
    copies: Seq<Seq<u16>>,
    addend: u32,
    input: Seq<u8>,
    p: nat,
    out: Seq<u8>,
    pos: int,
    left: int,
) -> (Seq<u8>, int, nat, bool)
    decreases left,
{
    if left <= 0 || pos < 0 || pos >= out.len() {
        (out, pos, p, false)
    } else {
        match token_at(symbols, copies, addend, stream_words(input, 0, 0), p) {
            None => (out, pos, p, true),
            Some((t, n)) => match t {
                Token::Literal(b) => run_tokens(
                    symbols,
                    copies,
                    addend,
                    input,
                    p + n,
                    out.update(pos, b),
                    pos + 1,
                    left - 1,
                ),
                Token::Copy { length, distance } => if distance == 0 || distance > pos {
                    (out, pos, p, true)
                } else {
                    run_tokens(
                        symbols,
                        copies,
                        addend,
                        input,
                        p + n,
                        copy_into(out, pos, distance as int, length as int),
                        copy_end(out.len() as int, pos, length as int),
                        left - 1,
                    )
                },
            },
        }
    }
}

/// Back-references stay inside the written output: at a copy token with offset `D`, decoding
/// copies only when `1 <= D <= pos` (each byte then comes from `D` back, already written), and
/// halts with the output untouched otherwise.
pub proof fn lemma_copy_within_output(
    symbols: Seq<Seq<u16>>,
    copies: Seq<Seq<u16>>,
    addend: u32,
    input: Seq<u8>,
    p: nat,
    out: Seq<u8>,
    pos: int,
    left: int,
    length: u32,
    distance: u32,
    n: nat,
)
    requires
        0 < left,
        0 <= pos < out.len(),
        token_at(symbols, copies, addend, stream_words(input, 0, 0), p) == Some(
            (Token::Copy { length, distance }, n),
        ),
    ensures
        run_tokens(symbols, copies, addend, input, p, out, pos, left) == if distance == 0
            || distance > pos {
            (out, pos, p, true)
        } else {
            run_tokens(
                symbols,
                copies,
                addend,
                input,
                p + n,
                copy_into(out, pos, distance as int, length as int),
                copy_end(out.len() as int, pos, length as int),
                left - 1,
            )
        },
        1 <= distance <= pos ==> forall|j: int|
            pos <= j < copy_end(out.len() as int, pos, length as int) ==> #[trigger] copy_into(
                out,
                pos,
                distance as int,
                length as int,
            )[j] == copy_into(out, pos, distance as int, length as int)[j - distance],
{
    if 1 <= distance <= pos {
        lemma_copy_repeats(out, pos, distance as int, length as int, pos);
    }
}

proof fn lemma_copy_repeats(out: Seq<u8>, pos: int, d: int, n: int, start: int)
    requires
        1 <= d <= start <= pos,
        pos <= out.len(),
        forall|j: int| start <= j < pos ==> #[trigger] out[j] == out[j - d],
    ensures
        copy_into(out, pos, d, n).len() == out.len(),
        forall|j: int| 0 <= j < pos ==> #[trigger] copy_into(out, pos, d, n)[j] == out[j],
        forall|j: int|
            start <= j < copy_end(out.len() as int, pos, n) ==> #[trigger] copy_into(out, pos, d, n)[j]
                == copy_into(out, pos, d, n)[j - d],
    decreases n,
{
    lemma_copy_len(out, pos, d, n);
    if !(n <= 0 || d < 1 || pos < d || pos >= out.len()) {
        let o = out.update(pos, out[pos - d]);
        lemma_copy_repeats(o, pos + 1, d, n - 1, start);
    }
}

/// A length code beyond the last valid one (past the 0xFF code) has no base and no extra
/// bits: the copy it starts is `addend` bytes long, and its offset code follows at once.
pub proof fn lemma_invalid_length_code(
    symbols: Seq<Seq<u16>>,
    copies: Seq<Seq<u16>>,
    addend: u32,
    w: Seq<u32>,
    p: nat,
    v: int,
)
    requires
        v > 28,
    ensures
        length_of(v) == (0int, 0int),
        ({
            match decodes(symbols, bits_at(w, p, 32)) {
                Some((s, b)) => s as int == 256 + v ==> match decodes(
                    copies,
                    bits_at(w, (p + b) as nat, 32),
                ) {
                    Some((t, c)) => token_at(symbols, copies, addend, w, p) matches Some(
                        (Token::Copy { length, distance: _ }, _),
                    ) && length == addend,
                    None => token_at(symbols, copies, addend, w, p) is None,
                },
                None => true,
            }
        }),
{
}

/// Decodes blocks from bit `p` into `out` at `pos` (at most `fuel` of them): each is a
/// symbol table, a copy table, a nibble of budget (tokens in units of 4096, minus one) and a
/// skipped nibble, then its tokens. Stops when the output is full, a table fails, decoding
/// halts, the input has been taken in whole, or a block adds nothing.
pub open spec fn run_blocks(
    dict: Seq<Seq<u16>>,
    addend: u32,
    input: Seq<u8>,
    p: nat,
    out: Seq<u8>,
    pos: int,
    fuel: nat,
) -> Seq<u8>
    decreases fuel,
{
    let w = stream_words(input, 0, 0);
    if fuel == 0 || pos >= out.len() {
        out
    } else {
        match table_header(dict, w, p) {
            None => out,
            Some((sc, p1)) => if !builds(sc) {
                out
            } else {
                match table_header(dict, w, p1) {
                    None => out,
                    Some((cc, p2)) => if !builds(cc) {
                        out
                    } else {
                        let budget = bits_at(w, p2, 4) as int;
                        let r = run_tokens(
                            sc,
                            cc,
                            addend,
                            input,
                            p2 + 8,
                            out,
                            pos,
                            (budget + 1) * 0x1000,
                        );
                        if r.3 || ends_at(input, r.2) || r.1 == pos {
                            r.0
                        } else {
                            run_blocks(dict, addend, input, r.2, r.0, r.1, (fuel - 1) as nat)
                        }
                    },
                }
            },
        }
    }
}

/// What a stream decompresses to: a buffer of the announced size, zeros past the point
/// where decoding stopped. The blocks start after the prologue (96 bits) and the
/// three-nibble header whose middle nibble is the length addend minus one.
pub open spec fn inflate_spec(input: Seq<u8>) -> Seq<u8> {
    let size = header_size(input);
    let zeros = Seq::new(size as nat, |i: int| 0u8);
    let addend = (bits_at(stream_words(input, 0, 0), 100, 4) + 1) as u32;
    run_blocks(dictionary_chains(256), addend, input, 108, zeros, 0, (size + 1) as nat)
}

proof fn lemma_copy_len(out: Seq<u8>, pos: int, d: int, n: int)
    ensures
        copy_into(out, pos, d, n).len() == out.len(),
    decreases n,
{
    if !(n <= 0 || d < 1 || pos < d || pos >= out.len()) {
        lemma_copy_len(out.update(pos, out[pos - d]), pos + 1, d, n - 1);
    }
}

proof fn lemma_tokens_len(
    symbols: Seq<Seq<u16>>,
    copies: Seq<Seq<u16>>,
    addend: u32,
    input: Seq<u8>,
    p: nat,
    out: Seq<u8>,
    pos: int,
    left: int,
)
    ensures
        run_tokens(symbols, copies, addend, input, p, out, pos, left).0.len() == out.len(),
    decreases left,
{
    if !(left <= 0 || pos < 0 || pos >= out.len()) {
        match token_at(symbols, copies, addend, stream_words(input, 0, 0), p) {
            None => {},
            Some((t, n)) => match t {
                Token::Literal(b) => {
                    lemma_tokens_len(symbols, copies, addend, input, p + n, out.update(pos, b), pos + 1, left - 1);
                },
                Token::Copy { length, distance } => {
                    if !(distance == 0 || distance > pos) {
                        lemma_copy_len(out, pos, distance as int, length as int);
                        lemma_tokens_len(
                            symbols,
                            copies,
                            addend,
                            input,
                            p + n,
                            copy_into(out, pos, distance as int, length as int),
                            copy_end(out.len() as int, pos, length as int),
                            left - 1,
                        );
                    }
                },
            },
        }
    }
}

/// Decoding keeps the output at its size.
pub proof fn lemma_blocks_len(
    dict: Seq<Seq<u16>>,
    addend: u32,
    input: Seq<u8>,
    p: nat,
    out: Seq<u8>,
    pos: int,
    fuel: nat,
)
    ensures
        run_blocks(dict, addend, input, p, out, pos, fuel).len() == out.len(),
    decreases fuel,
{
    let w = stream_words(input, 0, 0);
    if !(fuel == 0 || pos >= out.len()) {
        match table_header(dict, w, p) {
            None => {},
            Some((sc, p1)) => {
                match table_header(dict, w, p1) {
                    None => {},
                    Some((cc, p2)) => {
                        let budget = bits_at(w, p2, 4) as int;
                        let r = run_tokens(sc, cc, addend, input, p2 + 8, out, pos, (budget + 1) * 0x1000);
                        lemma_tokens_len(sc, cc, addend, input, p2 + 8, out, pos, (budget + 1) * 0x1000);
                        if !(r.3 || ends_at(input, r.2) || r.1 == pos) {
                            lemma_blocks_len(dict, addend, input, r.2, r.0, r.1, (fuel - 1) as nat);
                        }
                    },
                }
            },
        }
    }
}

/// Decodes at most `max_count` tokens into `output` from `pos` on, as `run_tokens` says;
/// returns the fill reached and whether decoding must halt.
fn decode_tokens(
    reader: &mut BitReader,
    symbols: &HuffmanTree,
    copies: &HuffmanTree,
    addend: u32,
    output: &mut Vec<u8>,
    pos: usize,
    max_count: u32,
) -> (r: (usize, bool))
    requires
        old(reader).wf(),
        old(reader).period() == 0,
        symbols.wf(),
        copies.wf(),
        1 <= addend <= 16,
        pos <= old(output)@.len(),
    ensures
        final(reader).wf(),
        final(reader).stream() == old(reader).stream(),
        final(reader).input_bytes() == old(reader).input_bytes(),
        final(reader).period() == 0,
        final(output)@.len() == old(output)@.len(),
        pos <= r.0 <= old(output)@.len(),
        ({
            let s = run_tokens(
                symbols.decl(),
                copies.decl(),
                addend,
                old(reader).input_bytes(),
                old(reader).position(),
                old(output)@,
                pos as int,
                max_count as int,
            );
            &&& final(output)@ == s.0
            &&& r.0 == s.1
            &&& r.1 == s.3
            &&& (!r.1 ==> final(reader).position() == s.2)
        }),
{
    let ghost sd = symbols.decl();
    let ghost cd = copies.decl();
    let ghost input = reader.input_bytes();
    let ghost target = run_tokens(sd, cd, addend, input, reader.position(), output@, pos as int, max_count as int);
    let size = output.len();
    let start = pos;
    let mut at = pos;
    let mut count: u32 = 0;
    proof {
        reader.lemma_stream();
    }
    while count < max_count && at < size
        invariant
            reader.wf(),
            reader.period() == 0,
            reader.input_bytes() == input,
            reader.stream() == old(reader).stream(),
            reader.stream() == stream_words(input, 0, 0),
            input == old(reader).input_bytes(),
            symbols.wf(),
            copies.wf(),
            sd == symbols.decl(),
            cd == copies.decl(),
            1 <= addend <= 16,
            output@.len() == size,
            size == old(output)@.len(),
            start == pos,
            start <= at <= size,
            target == run_tokens(
                sd,
                cd,
                addend,
                input,
                old(reader).position(),
                old(output)@,
                pos as int,
                max_count as int,
            ),
            count <= max_count,
            target == run_tokens(sd, cd, addend, input, reader.position(), output@, at as int, max_count - count),
        decreases max_count - count,
    {
        count = count + 1;
        match read_token(reader, symbols, copies, addend) {
            None => {
                return (at, true);
            },
            Some(Token::Literal(b)) => {
                output.set(at, b);
                at = at + 1;
            },
            Some(Token::Copy { length, distance }) => {
                if distance == 0 || distance as usize > at {
                    return (at, true);
                }
                at = copy_match(output, at, distance as usize, length as usize);
            },
        }
    }
    (at, false)
}

/// Decodes the blocks that follow the prologue into `output`, whose length is the
/// uncompressed size. A header of three nibbles (skipped, length addend minus one, skipped)
/// comes once, before the first block; `run_blocks` gives the rest.
fn inflate_data(reader: &mut BitReader, output: &mut Vec<u8>, dict: &HuffmanTree)
    requires
        old(reader).wf(),
        old(reader).period() == 0,
        dict.wf(),
    ensures
        final(output)@ == run_blocks(
            dict.decl(),
            (bits_at(old(reader).stream(), old(reader).position() + 4, 4) + 1) as u32,
            old(reader).input_bytes(),
            old(reader).position() + 12,
            old(output)@,
            0,
            (old(output)@.len() + 1) as nat,
        ),
{
    let ghost d = dict.decl();
    let ghost input = reader.input_bytes();
    let size = output.len();
    proof {
        reader.lemma_stream();
    }
    reader.drop_bits(4);
    let addend_bits = reader.read_bits(4);
    proof {
        let x = crate::bitreader::window(reader.stream(), reader.position());
        assert((x >> 28u32) < 16) by (bit_vector);
    }
    let addend = addend_bits + 1;
    reader.drop_bits(4);
    reader.drop_bits(4);
    let mut symbols = HuffmanTree::new();
    let mut copies = HuffmanTree::new();
    let mut builder = HuffmanTreeBuilder::new();
    let mut pos: usize = 0;
    let ghost mut fuel: nat = (size + 1) as nat;
    let ghost target = run_blocks(d, addend, input, reader.position(), output@, 0, fuel);
    while pos < size
        invariant
            reader.wf(),
            reader.period() == 0,
            reader.input_bytes() == input,
            reader.stream() == stream_words(input, 0, 0),
            dict.wf(),
            d == dict.decl(),
            output@.len() == size,
            pos <= size,
            1 <= addend <= 16,
            fuel > size - pos,
            target == run_blocks(d, addend, input, reader.position(), output@, pos as int, fuel),
            target == run_blocks(
                dict.decl(),
                (bits_at(old(reader).stream(), old(reader).position() + 4, 4) + 1) as u32,
                old(reader).input_bytes(),
                old(reader).position() + 12,
                old(output)@,
                0,
                (old(output)@.len() + 1) as nat,
            ),
        decreases size - pos,
    {
        if !parse_huffmantree(reader, &mut symbols, dict, &mut builder) {
            return ;
        }
        if !parse_huffmantree(reader, &mut copies, dict, &mut builder) {
            return ;
        }
        let budget_bits = reader.read_bits(4);
        proof {
            let x = crate::bitreader::window(reader.stream(), reader.position());
            assert((x >> 28u32) < 16) by (bit_vector);
        }
        let max_count: u32 = (budget_bits + 1) * 0x1000;
        reader.drop_bits(4);
        reader.drop_bits(4);
        let start = pos;
        let (next, halted) = decode_tokens(reader, &symbols, &copies, addend, output, pos, max_count);
        pos = next;
        if halted {
            return ;
        }
        if reader.at_end() || pos == start {
            return ;
        }
        proof {
            fuel = (fuel - 1) as nat;
        }
    }
}

/// Decompresses a stream: the size announced by the prologue is stored in
/// `output_data_size`, and `output_data` becomes exactly what `inflate_spec` gives: a buffer
/// of that size holding the decoded bytes, zeros past the point where decoding stopped. The
/// result depends on the input bytes alone.
pub fn inflate_dat_file_buffer(input_data: Vec<u8>, output_data_size: &mut u32, output_data: &mut Vec<u8>)
    ensures
        *final(output_data_size) == header_size(input_data@),
        final(output_data)@.len() == header_size(input_data@),
        final(output_data)@ == inflate_spec(input_data@),
{
    let ghost input = input_data@;
    let mut dict = HuffmanTree::new();
    let ready = initialize_huffmantree_dict(&mut dict);
    let mut reader = BitReader::new(input_data, 0);
    let size = read_header(&mut reader);
    *output_data_size = size;
    *output_data = vec![0u8; size as usize];
    proof {
        assert(output_data@ =~= Seq::new(size as nat, |i: int| 0u8));
        lemma_dictionary_builds();
        assert(ready);
    }
    let ghost before = output_data@;
    let ghost p = reader.position();
    inflate_data(&mut reader, output_data, &dict);
    proof {
        let w = stream_words(input, 0, 0);
        lemma_blocks_len(
            dictionary_chains(256),
            (bits_at(w, p + 4, 4) + 1) as u32,
            input,
            p + 12,
            before,
            0,
            (before.len() + 1) as nat,
        );
    }
}

/// Two byte-identical inputs decompress to byte-identical outputs.
pub proof fn lemma_inflate_deterministic(a: Seq<u8>, b: Seq<u8>)
    requires
        a == b,
    ensures
        inflate_spec(a) == inflate_spec(b),
        header_size(a) == header_size(b),
{
}

} // verus!
