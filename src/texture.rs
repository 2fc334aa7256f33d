use vstd::prelude::*;
use crate::bitreader::{BitReader, bits_at, window, stream_words};
use crate::huffman::{
    HuffmanTree, HuffmanTreeBuilder, decodes, builds, empty_chains, in_chains, total,
    lemma_total_update, lemma_total_empty, free_codes, fits_code_space,
};

verus! {

/// The format has colour.
pub const FF_COLOR: u16 = 0x10;

/// The format has alpha.
pub const FF_ALPHA: u16 = 0x20;

/// Alpha is deduced from the colour (DXT1).
pub const FF_DEDUCEDALPHACOMP: u16 = 0x40;

/// Alpha is stored plainly.
pub const FF_PLAINCOMP: u16 = 0x80;

/// Two colour components per block.
pub const FF_BICOLORCOMP: u16 = 0x200;

/// Blocks of white colour are coded.
pub const CF_DECODE_WHITE_COLOR: u32 = 0x01;

/// Blocks of constant alpha, given by four bits, are coded.
pub const CF_DECODE_CONSTANT_ALPHA_FROM_4_BITS: u32 = 0x02;

/// Blocks of constant alpha, given by eight bits, are coded.
pub const CF_DECODE_CONSTANT_ALPHA_FROM_8_BITS: u32 = 0x04;

/// Blocks of one plain colour are coded.
pub const CF_DECODE_PLAIN_COLOR: u32 = 0x08;

/// A block-compression format: its flags and the bits per pixel.
#[derive(PartialEq, Eq, Structural, Clone, Copy, Debug)]
pub struct Format {
    pub flag_data: u16,
    pub pixel_size_bits: u16,
}

/// A texture's format and the sizes derived from its dimensions.
#[derive(PartialEq, Eq, Structural, Clone, Copy, Debug)]
pub struct FullFormat {
    pub format: Format,
    pub pixel_blocks: u32,
    pub bytes_pixel_blocks: u32,
    pub bytes_component: u32,
    pub two_component: bool,
    pub width: u16,
    pub height: u16,
}

/// Why a texture could not be decoded.
#[derive(PartialEq, Eq, Structural, Clone, Copy, Debug)]
pub enum TextureError {
    /// The four-character code names no known format.
    UnknownFormat,
    /// The decoded size does not fit in 32 bits.
    TooLarge,
    /// The plain-colour block painting is not defined.
    PlainColorUnsupported,
}

/// The formats, in the order of the four-character codes DXT1, DXT2, DXT3, DXT4, DXT5,
/// DXTA, DXTL, DXTN, 3DCX.
pub open spec fn static_formats() -> Seq<Format> {
    seq![
        Format { flag_data: 0x70, pixel_size_bits: 4 },
        Format { flag_data: 0xB0, pixel_size_bits: 8 },
        Format { flag_data: 0xB0, pixel_size_bits: 8 },
        Format { flag_data: 0xB0, pixel_size_bits: 8 },
        Format { flag_data: 0xB0, pixel_size_bits: 8 },
        Format { flag_data: 0xA0, pixel_size_bits: 4 },
        Format { flag_data: 0x10, pixel_size_bits: 8 },
        Format { flag_data: 0x200, pixel_size_bits: 8 },
        Format { flag_data: 0x200, pixel_size_bits: 8 },
    ]
}

/// The position of a four-character code in `static_formats`.
pub open spec fn format_index(fourcc: u32) -> Option<int> {
    if fourcc == 0x31545844 {
        Some(0)
    } else if fourcc == 0x32545844 {
        Some(1)
    } else if fourcc == 0x33545844 {
        Some(2)
    } else if fourcc == 0x34545844 {
        Some(3)
    } else if fourcc == 0x35545844 {
        Some(4)
    } else if fourcc == 0x41545844 {
        Some(5)
    } else if fourcc == 0x4C545844 {
        Some(6)
    } else if fourcc == 0x4E545844 {
        Some(7)
    } else if fourcc == 0x58434433 {
        Some(8)
    } else {
        None
    }
}

/// Builds the texture dictionary (one symbol of one bit, one of two bits, sixteen of six
/// bits) and the format table.
pub fn initialize_static_values(dict: &mut HuffmanTree, format_data: &mut Vec<Format>) -> (r: bool)
    ensures
        final(format_data)@ == old(format_data)@ + static_formats(),
        final(dict).shape(),
        r == builds(texture_dictionary()),
        r ==> final(dict).wf() && final(dict).decl() == texture_dictionary(),
{
    format_data.push(Format { flag_data: FF_COLOR | FF_ALPHA | FF_DEDUCEDALPHACOMP, pixel_size_bits: 4 });
    format_data.push(Format { flag_data: FF_COLOR | FF_ALPHA | FF_PLAINCOMP, pixel_size_bits: 8 });
    format_data.push(Format { flag_data: FF_COLOR | FF_ALPHA | FF_PLAINCOMP, pixel_size_bits: 8 });
    format_data.push(Format { flag_data: FF_COLOR | FF_ALPHA | FF_PLAINCOMP, pixel_size_bits: 8 });
    format_data.push(Format { flag_data: FF_COLOR | FF_ALPHA | FF_PLAINCOMP, pixel_size_bits: 8 });
    format_data.push(Format { flag_data: FF_ALPHA | FF_PLAINCOMP, pixel_size_bits: 4 });
    format_data.push(Format { flag_data: FF_COLOR, pixel_size_bits: 8 });
    format_data.push(Format { flag_data: FF_BICOLORCOMP, pixel_size_bits: 8 });
    format_data.push(Format { flag_data: FF_BICOLORCOMP, pixel_size_bits: 8 });
    proof {
        assert(FF_COLOR | FF_ALPHA | FF_DEDUCEDALPHACOMP == 0x70) by (bit_vector);
        assert(FF_COLOR | FF_ALPHA | FF_PLAINCOMP == 0xB0) by (bit_vector);
        assert(FF_ALPHA | FF_PLAINCOMP == 0xA0) by (bit_vector);
        assert(format_data@ =~= old(format_data)@ + static_formats());
    }
    initialize_huffmantree_dict(dict)
}

/// The texture dictionary: 0x01 with one bit, 0x12 with two bits, 0x02 to 0x11 with six bits.
pub open spec fn texture_dictionary() -> Seq<Seq<u16>> {
    empty_chains().update(1, seq![0x01u16]).update(2, seq![0x12u16]).update(
        6,
        Seq::new(16, |i: int| (0x02 + i) as u16),
    )
}

proof fn lemma_no_free_codes(d: Seq<Seq<u16>>, b: nat)
    requires
        7 <= b <= 32,
        d.len() == 32,
        free_codes(d, 7) == 0,
        forall|l: int| 7 <= l < 32 ==> #[trigger] d[l].len() == 0,
    ensures
        free_codes(d, b) == 0,
    decreases b,
{
    if b > 7 {
        lemma_no_free_codes(d, (b - 1) as nat);
    }
}

/// The texture dictionary fills the code space exactly, so its table always builds.
pub proof fn lemma_texture_dictionary_builds()
    ensures
        builds(texture_dictionary()),
{
    let d = texture_dictionary();
    assert(d[1].len() == 1 && d[2].len() == 1 && d[6].len() == 16);
    assert(d[0].len() == 0 && d[3].len() == 0 && d[4].len() == 0 && d[5].len() == 0);
    assert(free_codes(d, 0) == 1);
    assert(free_codes(d, 1) == 2);
    assert(free_codes(d, 2) == 2);
    assert(free_codes(d, 3) == 2);
    assert(free_codes(d, 4) == 4);
    assert(free_codes(d, 5) == 8);
    assert(free_codes(d, 6) == 16);
    assert(free_codes(d, 7) == 0);
    assert forall|b: int| 0 <= b < 32 implies #[trigger] d[b].len() <= free_codes(d, b as nat) by {
        if b >= 7 {
            lemma_no_free_codes(d, b as nat);
        }
    }
    assert(fits_code_space(d));
    assert(d[6].len() != 0);
}

/// Builds the texture dictionary.
pub fn initialize_huffmantree_dict(dict: &mut HuffmanTree) -> (r: bool)
    ensures
        final(dict).shape(),
        r == builds(texture_dictionary()),
        r ==> final(dict).wf() && final(dict).decl() == texture_dictionary(),
{
    let mut builder = HuffmanTreeBuilder::new();
    proof {
        lemma_total_empty(32);
        builder.lemma_declares(0x01);
    }
    builder.add_symbol(0x01, 1);
    let ghost c1 = empty_chains().update(1, seq![0x01u16]);
    proof {
        assert(builder.chains() =~= c1);
        lemma_total_update(empty_chains(), 1, seq![0x01u16], 32);
        builder.lemma_declares(0x12);
        if in_chains(c1, 0x12) {
            let (b, k) = choose|b: int, k: int|
                0 <= b < c1.len() && 0 <= k < c1[b].len() && c1[b][k] == 0x12u16;
            assert(b == 1);
        }
    }
    builder.add_symbol(0x12, 2);
    let ghost c2 = c1.update(2, seq![0x12u16]);
    proof {
        assert(builder.chains() =~= c2);
        lemma_total_update(c1, 2, seq![0x12u16], 32);
        assert(c2[6] =~= Seq::new(0, |i: int| (0x12 + i) as u16));
        assert(c2.update(6, Seq::new(0, |i: int| (0x12 + i) as u16)) =~= c2);
    }
    let mut symbol: u16 = 0x11;
    while symbol >= 0x02
        invariant
            builder.wf(),
            0x01 <= symbol <= 0x11,
            builder.chains() == c2.update(
                6,
                Seq::new((0x11 - symbol) as nat, |i: int| (symbol + 1 + i) as u16),
            ),
            total(builder.chains(), 32) == 2 + (0x11 - symbol),
            c2 == empty_chains().update(1, seq![0x01u16]).update(2, seq![0x12u16]),
            c2.len() == 32,
            c2[6].len() == 0,
            total(c2, 32) == 2,
        decreases symbol,
    {
        proof {
            let c = builder.chains();
            builder.lemma_declares(symbol);
            if in_chains(c, symbol) {
                let (b, k) = choose|b: int, k: int|
                    0 <= b < c.len() && 0 <= k < c[b].len() && c[b][k] == symbol;
                if b == 6 {
                    assert(c[b][k] == (symbol + 1 + k) as u16);
                } else if b == 2 {
                    assert(c[b] == seq![0x12u16]);
                } else if b == 1 {
                    assert(c[b] == seq![0x01u16]);
                } else {
                    assert(c[b] == c2[b]);
                    assert(c2[b].len() == 0);
                }
                assert(false);
            }
            assert(!builder.declares(symbol));
            assert(total(builder.chains(), 32) < 285);
        }
        builder.add_symbol(symbol, 6);
        proof {
            let n = (0x11 - symbol + 1) as nat;
            let next = Seq::new(n, |i: int| (symbol + i) as u16);
            assert(builder.chains() =~= c2.update(6, next)) by {
                assert(builder.chains()[6] =~= next);
            }
            lemma_total_update(c2, 6, next, 32);
        }
        symbol = symbol - 1;
    }
    proof {
        assert(builder.chains() =~= texture_dictionary()) by {
            assert(builder.chains()[6] =~= texture_dictionary()[6]);
        }
    }
    dict.build_huffmantree(&builder)
}

/// The format of a four-character code, looked up in a format table laid out as
/// `static_formats` is (one entry per code, in that order).
pub fn deduce_format(fourcc_data: u32, format_data: &Vec<Format>) -> (r: Option<Format>)
    requires
        format_data@.len() >= 9,
    ensures
        r == match format_index(fourcc_data) {
            Some(i) => Some(format_data@[i]),
            None => None,
        },
{
    let index: usize = if fourcc_data == 0x31545844 {
        0
    } else if fourcc_data == 0x32545844 {
        1
    } else if fourcc_data == 0x33545844 {
        2
    } else if fourcc_data == 0x34545844 {
        3
    } else if fourcc_data == 0x35545844 {
        4
    } else if fourcc_data == 0x41545844 {
        5
    } else if fourcc_data == 0x4C545844 {
        6
    } else if fourcc_data == 0x4E545844 {
        7
    } else if fourcc_data == 0x58434433 {
        8
    } else {
        return None;
    };
    Some(format_data[index])
}

/// The sizes of a texture of the given format and dimensions: 4x4 pixel blocks, each of
/// `pixel_size_bits * 2` bytes. `None` when the total does not fit in 32 bits.
pub fn full_format(format: Format, width: u16, height: u16) -> (r: Option<FullFormat>)
    ensures
        ({
            let blocks = ((width as int + 3) / 4) * ((height as int + 3) / 4);
            let per_block = format.pixel_size_bits as int * 2;
            match r {
                Some(f) => {
                    &&& f.format == format
                    &&& f.width == width
                    &&& f.height == height
                    &&& f.pixel_blocks == blocks
                    &&& f.bytes_pixel_blocks == per_block
                    &&& f.bytes_component == per_block
                    &&& !f.two_component
                    &&& blocks * per_block <= u32::MAX
                },
                None => blocks * per_block > u32::MAX,
            }
        }),
{
    let across = (width as u32 + 3) / 4;
    let down = (height as u32 + 3) / 4;
    proof {
        assert(across * down <= 0x4000 * 0x4000) by (nonlinear_arith)
            requires
                across <= 0x4000,
                down <= 0x4000,
        ;
    }
    let blocks = across * down;
    let per_block = format.pixel_size_bits as u32 * 4 * 4 / 8;
    proof {
        assert(blocks as u64 * per_block as u64 <= 0x4000 * 0x4000 * 0x2_0000) by (nonlinear_arith)
            requires
                blocks <= 0x4000 * 0x4000,
                per_block <= 0x2_0000,
        ;
    }
    let total = blocks as u64 * per_block as u64;
    if total > u32::MAX as u64 {
        return None;
    }
    Some(
        FullFormat {
            format,
            pixel_blocks: blocks,
            bytes_pixel_blocks: per_block,
            bytes_component: per_block,
            two_component: false,
            width,
            height,
        },
    )
}

/// Reads `n` bits and consumes them.
fn take_bits(reader: &mut BitReader, n: u8) -> (r: u32)
    requires
        old(reader).wf(),
        1 <= n <= 32,
    ensures
        final(reader).wf(),
        final(reader).stream() == old(reader).stream(),
        final(reader).position() == old(reader).position() + n,
        r == bits_at(old(reader).stream(), old(reader).position(), n as nat),
{
    let x = reader.read_bits(n);
    reader.drop_bits(n);
    x
}

/// The block geometry that the sub-decoders share.
pub open spec fn blocks_fit(full: FullFormat, len: int) -> bool {
    &&& 1 <= full.bytes_pixel_blocks
    &&& full.bytes_component <= full.bytes_pixel_blocks
    &&& full.pixel_blocks as int * full.bytes_pixel_blocks as int <= len
}

proof fn lemma_block_in_bounds(full: FullFormat, len: int, j: int)
    requires
        blocks_fit(full, len),
        0 <= j < full.pixel_blocks,
    ensures
        0 <= j * full.bytes_pixel_blocks + full.bytes_pixel_blocks <= len,
        0 <= j * full.bytes_pixel_blocks,
{
    let b = full.bytes_pixel_blocks as int;
    let n = full.pixel_blocks as int;
    assert(j * b + b <= n * b) by (nonlinear_arith)
        requires
            j < n,
            b >= 1,
    ;
    assert(0 <= j * b) by (nonlinear_arith)
        requires
            j >= 0,
            b >= 1,
    ;
}

/// `out` with 0xFF at `at` (when `at` is inside it).
pub open spec fn paint_byte(out: Seq<u8>, at: int) -> Seq<u8> {
    if 0 <= at < out.len() {
        out.update(at, 0xFF)
    } else {
        out
    }
}

/// One white run of `run` blocks from `pos`: each block not yet coloured counts, and when
/// `paint` it gets 0xFF at its start and is marked in both bitmaps; coloured blocks are
/// passed over without counting. Ends with the bitmaps, the output and the next block.
pub open spec fn white_step(
    color: Seq<bool>,
    alpha: Seq<bool>,
    out: Seq<u8>,
    bpb: int,
    pos: int,
    run: int,
    paint: bool,
) -> (Seq<bool>, Seq<bool>, Seq<u8>, int)
    decreases color.len() - pos,
{
    if run <= 0 || pos < 0 || pos >= color.len() {
        (color, alpha, out, pos)
    } else if !color[pos] {
        if paint {
            white_step(
                color.update(pos, true),
                alpha.update(pos, true),
                paint_byte(out, pos * bpb),
                bpb,
                pos + 1,
                run - 1,
                paint,
            )
        } else {
            white_step(color, alpha, out, bpb, pos + 1, run - 1, paint)
        }
    } else {
        white_step(color, alpha, out, bpb, pos + 1, run, paint)
    }
}

/// The white pass from bit `p` and block `pos` (at most `fuel` runs): each run is a
/// dictionary code (its length) and a bit (paint or leave). Stops when every block is
/// passed, at a code the dictionary does not hold, or at a run of length zero. Ends with the
/// bitmaps, the output and the bit reached.
pub open spec fn white_pass(
    dict: Seq<Seq<u16>>,
    w: Seq<u32>,
    p: nat,
    color: Seq<bool>,
    alpha: Seq<bool>,
    out: Seq<u8>,
    bpb: int,
    pos: int,
    fuel: nat,
) -> (Seq<bool>, Seq<bool>, Seq<u8>, nat)
    decreases fuel,
{
    if fuel == 0 || pos >= color.len() {
        (color, alpha, out, p)
    } else {
        match decodes(dict, bits_at(w, p, 32)) {
            None => (color, alpha, out, p),
            Some((run, n)) => {
                let paint = bits_at(w, p + n, 1) != 0;
                let q = (p + n + 1) as nat;
                if run == 0 {
                    (color, alpha, out, q)
                } else {
                    let s = white_step(color, alpha, out, bpb, pos, run as int, paint);
                    white_pass(dict, w, q, s.0, s.1, s.2, bpb, s.3, (fuel - 1) as nat)
                }
            },
        }
    }
}

proof fn lemma_white_step(
    color: Seq<bool>,
    alpha: Seq<bool>,
    out: Seq<u8>,
    bpb: int,
    pos: int,
    run: int,
    paint: bool,
)
    requires
        0 <= pos,
        alpha.len() == color.len(),
    ensures
        ({
            let s = white_step(color, alpha, out, bpb, pos, run, paint);
            &&& s.0.len() == color.len()
            &&& s.1.len() == color.len()
            &&& s.2.len() == out.len()
            &&& pos <= s.3
            &&& (run > 0 && pos < color.len() ==> pos < s.3)
            &&& s.3 <= color.len() || s.3 == pos
        }),
    decreases color.len() - pos,
{
    if !(run <= 0 || pos < 0 || pos >= color.len()) {
        if !color[pos] {
            if paint {
                lemma_white_step(
                    color.update(pos, true),
                    alpha.update(pos, true),
                    paint_byte(out, pos * bpb),
                    bpb,
                    pos + 1,
                    run - 1,
                    paint,
                );
            } else {
                lemma_white_step(color, alpha, out, bpb, pos + 1, run - 1, paint);
            }
        } else {
            lemma_white_step(color, alpha, out, bpb, pos + 1, run, paint);
        }
    }
}

/// Paints white the runs of not-yet-coloured blocks that the stream marks, as `white_pass`
/// says: a painted block gets the byte 0xFF at its start and is marked in both bitmaps.
pub fn decode_white_color(
    reader: &mut BitReader,
    dict: &HuffmanTree,
    alpha_bitmap: &mut Vec<bool>,
    color_bitmap: &mut Vec<bool>,
    full: &FullFormat,
    output: &mut Vec<u8>,
)
    requires
        old(reader).wf(),
        dict.wf(),
        old(alpha_bitmap)@.len() == full.pixel_blocks,
        old(color_bitmap)@.len() == full.pixel_blocks,
        blocks_fit(*full, old(output)@.len() as int),
    ensures
        final(reader).wf(),
        final(reader).stream() == old(reader).stream(),
        final(alpha_bitmap)@.len() == full.pixel_blocks,
        final(color_bitmap)@.len() == full.pixel_blocks,
        final(output)@.len() == old(output)@.len(),
        (final(color_bitmap)@, final(alpha_bitmap)@, final(output)@, final(reader).position())
            == white_pass(
            dict.decl(),
            old(reader).stream(),
            old(reader).position(),
            old(color_bitmap)@,
            old(alpha_bitmap)@,
            old(output)@,
            full.bytes_pixel_blocks as int,
            0,
            (full.pixel_blocks + 1) as nat,
        ),
{
    let ghost d = dict.decl();
    let ghost w = reader.stream();
    let ghost bpb = full.bytes_pixel_blocks as int;
    let blocks = full.pixel_blocks;
    let mut pos: u32 = 0;
    let ghost mut fuel: nat = (blocks + 1) as nat;
    let ghost target = white_pass(d, w, reader.position(), color_bitmap@, alpha_bitmap@, output@, bpb, 0, fuel);
    while pos < blocks
        invariant
            reader.wf(),
            reader.stream() == w,
            w == old(reader).stream(),
            dict.wf(),
            d == dict.decl(),
            bpb == full.bytes_pixel_blocks,
            alpha_bitmap@.len() == blocks,
            color_bitmap@.len() == blocks,
            blocks == full.pixel_blocks,
            output@.len() == old(output)@.len(),
            blocks_fit(*full, old(output)@.len() as int),
            fuel > blocks - pos,
            target == white_pass(d, w, reader.position(), color_bitmap@, alpha_bitmap@, output@, bpb, pos as int, fuel),
            target == white_pass(
                dict.decl(),
                old(reader).stream(),
                old(reader).position(),
                old(color_bitmap)@,
                old(alpha_bitmap)@,
                old(output)@,
                full.bytes_pixel_blocks as int,
                0,
                (full.pixel_blocks + 1) as nat,
            ),
        decreases blocks - pos,
    {
        let mut run = match dict.read_code(reader) {
            None => {
                return ;
            },
            Some(c) => c,
        };
        let paint = take_bits(reader, 1);
        if run == 0 {
            return ;
        }
        let ghost start = pos;
        let ghost inner = white_step(color_bitmap@, alpha_bitmap@, output@, bpb, pos as int, run as int, paint != 0);
        proof {
            lemma_white_step(color_bitmap@, alpha_bitmap@, output@, bpb, pos as int, run as int, paint != 0);
        }
        while run > 0 && pos < blocks
            invariant
                start <= pos <= blocks,
                alpha_bitmap@.len() == blocks,
                color_bitmap@.len() == blocks,
                blocks == full.pixel_blocks,
                bpb == full.bytes_pixel_blocks,
                output@.len() == old(output)@.len(),
                blocks_fit(*full, old(output)@.len() as int),
                inner == white_step(color_bitmap@, alpha_bitmap@, output@, bpb, pos as int, run as int, paint != 0),
            decreases blocks - pos,
        {
            let p = pos as usize;
            if !color_bitmap[p] {
                if paint != 0 {
                    proof {
                        lemma_block_in_bounds(*full, old(output)@.len() as int, p as int);
                    }
                    let bsize = full.bytes_pixel_blocks as usize;
                    let olen = output.len();
                    assert(p as int * bsize as int + bsize as int <= olen);
                    let at = p * bsize;
                    output.set(at, 0xFF);
                    alpha_bitmap.set(p, true);
                    color_bitmap.set(p, true);
                }
                run = run - 1;
            }
            pos = pos + 1;
        }
        proof {
            fuel = (fuel - 1) as nat;
        }
    }
}

/// `out` with the `n` bytes at `at` set to the pattern's (when `copy`) or to zeros.
pub open spec fn fill_bytes(out: Seq<u8>, at: int, n: int, pattern: Seq<u8>, copy: bool) -> Seq<u8> {
    Seq::new(
        out.len(),
        |x: int|
            if at <= x < at + n {
                if copy {
                    pattern[x - at]
                } else {
                    0
                }
            } else {
                out[x]
            },
    )
}

/// One alpha run of `run` blocks from `pos`: each block without alpha counts, and when
/// `paint` its first `n` bytes are filled (pattern or zeros, as `copy` says) and it is
/// marked; blocks with alpha are passed over without counting.
pub open spec fn alpha_step(
    alpha: Seq<bool>,
    out: Seq<u8>,
    bpb: int,
    n: int,
    pattern: Seq<u8>,
    pos: int,
    run: int,
    paint: bool,
    copy: bool,
) -> (Seq<bool>, Seq<u8>, int)
    decreases alpha.len() - pos,
{
    if run <= 0 || pos < 0 || pos >= alpha.len() {
        (alpha, out, pos)
    } else if !alpha[pos] {
        if paint {
            alpha_step(
                alpha.update(pos, true),
                fill_bytes(out, pos * bpb, n, pattern, copy),
                bpb,
                n,
                pattern,
                pos + 1,
                run - 1,
                paint,
                copy,
            )
        } else {
            alpha_step(alpha, out, bpb, n, pattern, pos + 1, run - 1, paint, copy)
        }
    } else {
        alpha_step(alpha, out, bpb, n, pattern, pos + 1, run, paint, copy)
    }
}

/// The first block from `pos` on without alpha (or the end).
pub open spec fn skip_alpha(alpha: Seq<bool>, pos: int) -> int
    decreases alpha.len() - pos,
{
    if pos < 0 || pos >= alpha.len() || !alpha[pos] {
        pos
    } else {
        skip_alpha(alpha, pos + 1)
    }
}

/// An alpha pass from bit `p` and block `pos` (at most `fuel` runs): each run is a
/// dictionary code (its length), a bit (paint or leave) and, read but consumed only when
/// painting, a bit (pattern or zeros); after a run the blocks with alpha are skipped. Stops
/// when every block is passed, at a code the dictionary does not hold, or at a run of length
/// zero. Ends with the bitmap, the output and the bit reached.
pub open spec fn alpha_pass(
    dict: Seq<Seq<u16>>,
    w: Seq<u32>,
    p: nat,
    alpha: Seq<bool>,
    out: Seq<u8>,
    bpb: int,
    n: int,
    pattern: Seq<u8>,
    pos: int,
    fuel: nat,
) -> (Seq<bool>, Seq<u8>, nat)
    decreases fuel,
{
    if fuel == 0 || pos >= alpha.len() {
        (alpha, out, p)
    } else {
        match decodes(dict, bits_at(w, p, 32)) {
            None => (alpha, out, p),
            Some((run, m)) => {
                let paint = bits_at(w, p + m, 1) != 0;
                let copy = bits_at(w, p + m + 1, 1) != 0;
                let q = (p + m + 1 + (if paint {
                    1int
                } else {
                    0
                })) as nat;
                if run == 0 {
                    (alpha, out, q)
                } else {
                    let s = alpha_step(alpha, out, bpb, n, pattern, pos, run as int, paint, copy);
                    alpha_pass(
                        dict,
                        w,
                        q,
                        s.0,
                        s.1,
                        bpb,
                        n,
                        pattern,
                        skip_alpha(s.0, s.2),
                        (fuel - 1) as nat,
                    )
                }
            },
        }
    }
}

proof fn lemma_alpha_step(
    alpha: Seq<bool>,
    out: Seq<u8>,
    bpb: int,
    n: int,
    pattern: Seq<u8>,
    pos: int,
    run: int,
    paint: bool,
    copy: bool,
)
    requires
        0 <= pos,
    ensures
        ({
            let s = alpha_step(alpha, out, bpb, n, pattern, pos, run, paint, copy);
            &&& s.0.len() == alpha.len()
            &&& s.1.len() == out.len()
            &&& pos <= s.2
            &&& (run > 0 && pos < alpha.len() ==> pos < s.2)
        }),
    decreases alpha.len() - pos,
{
    if !(run <= 0 || pos < 0 || pos >= alpha.len()) {
        if !alpha[pos] {
            if paint {
                lemma_alpha_step(
                    alpha.update(pos, true),
                    fill_bytes(out, pos * bpb, n, pattern, copy),
                    bpb,
                    n,
                    pattern,
                    pos + 1,
                    run - 1,
                    paint,
                    copy,
                );
            } else {
                lemma_alpha_step(alpha, out, bpb, n, pattern, pos + 1, run - 1, paint, copy);
            }
        } else {
            lemma_alpha_step(alpha, out, bpb, n, pattern, pos + 1, run, paint, copy);
        }
    }
}

/// Writes `n` bytes at `at`: the pattern's when `copy`, else zeros.
fn fill_block(output: &mut Vec<u8>, at: usize, n: usize, pattern: &Vec<u8>, copy: bool)
    requires
        at + n <= old(output)@.len(),
        n <= pattern@.len(),
    ensures
        final(output)@.len() == old(output)@.len(),
        forall|i: int|
            0 <= i < n ==> #[trigger] final(output)@[at + i] == if copy {
                pattern@[i]
            } else {
                0
            },
        forall|x: int|
            0 <= x < old(output)@.len() && !(at <= x < at + n) ==> #[trigger] final(output)@[x]
                == old(output)@[x],
{
    let olen = output.len();
    let mut i: usize = 0;
    while i < n
        invariant
            olen == old(output)@.len(),
            at + n <= old(output)@.len(),
            n <= pattern@.len(),
            i <= n,
            output@.len() == old(output)@.len(),
            forall|k: int|
                0 <= k < i ==> #[trigger] output@[at + k] == if copy {
                    pattern@[k]
                } else {
                    0
                },
            forall|x: int|
                0 <= x < old(output)@.len() && !(at <= x < at + i) ==> #[trigger] output@[x]
                    == old(output)@[x],
        decreases n - i,
    {
        let b = if copy {
            pattern[i]
        } else {
            0
        };
        output.set(at + i, b);
        i = i + 1;
    }
}

/// Paints the runs of blocks without alpha that the stream marks, as `alpha_pass` says,
/// with the first bytes of `pattern` (or zeros), up to the block's component size and at
/// most eight bytes.
fn paint_alpha_runs(
    reader: &mut BitReader,
    dict: &HuffmanTree,
    alpha_bitmap: &mut Vec<bool>,
    full: &FullFormat,
    output: &mut Vec<u8>,
    pattern: &Vec<u8>,
)
    requires
        old(reader).wf(),
        dict.wf(),
        old(alpha_bitmap)@.len() == full.pixel_blocks,
        blocks_fit(*full, old(output)@.len() as int),
        pattern@.len() == 8,
    ensures
        final(reader).wf(),
        final(reader).stream() == old(reader).stream(),
        final(alpha_bitmap)@.len() == full.pixel_blocks,
        final(output)@.len() == old(output)@.len(),
        (final(alpha_bitmap)@, final(output)@, final(reader).position()) == alpha_pass(
            dict.decl(),
            old(reader).stream(),
            old(reader).position(),
            old(alpha_bitmap)@,
            old(output)@,
            full.bytes_pixel_blocks as int,
            component_bytes(*full),
            pattern@,
            0,
            (full.pixel_blocks + 1) as nat,
        ),
{
    let ghost d = dict.decl();
    let ghost w = reader.stream();
    let ghost bpb = full.bytes_pixel_blocks as int;
    let blocks = full.pixel_blocks;
    let n: usize = if full.bytes_component < 8 {
        full.bytes_component as usize
    } else {
        8
    };
    let mut pos: u32 = 0;
    let ghost mut fuel: nat = (blocks + 1) as nat;
    let ghost target = alpha_pass(d, w, reader.position(), alpha_bitmap@, output@, bpb, n as int, pattern@, 0, fuel);
    while pos < blocks
        invariant
            reader.wf(),
            reader.stream() == w,
            w == old(reader).stream(),
            dict.wf(),
            d == dict.decl(),
            bpb == full.bytes_pixel_blocks,
            alpha_bitmap@.len() == blocks,
            blocks == full.pixel_blocks,
            output@.len() == old(output)@.len(),
            blocks_fit(*full, old(output)@.len() as int),
            pattern@.len() == 8,
            n == component_bytes(*full),
            fuel > blocks - pos,
            target == alpha_pass(d, w, reader.position(), alpha_bitmap@, output@, bpb, n as int, pattern@, pos as int, fuel),
            target == alpha_pass(
                dict.decl(),
                old(reader).stream(),
                old(reader).position(),
                old(alpha_bitmap)@,
                old(output)@,
                full.bytes_pixel_blocks as int,
                component_bytes(*full),
                pattern@,
                0,
                (full.pixel_blocks + 1) as nat,
            ),
        decreases blocks - pos,
    {
        let mut run = match dict.read_code(reader) {
            None => {
                return ;
            },
            Some(c) => c,
        };
        let paint = take_bits(reader, 1);
        let exist = reader.read_bits(1);
        if paint != 0 {
            reader.drop_bits(1);
        }
        if run == 0 {
            return ;
        }
        let ghost start = pos;
        let ghost inner = alpha_step(alpha_bitmap@, output@, bpb, n as int, pattern@, pos as int, run as int, paint != 0, exist != 0);
        proof {
            lemma_alpha_step(alpha_bitmap@, output@, bpb, n as int, pattern@, pos as int, run as int, paint != 0, exist != 0);
        }
        while run > 0 && pos < blocks
            invariant
                start <= pos <= blocks,
                alpha_bitmap@.len() == blocks,
                blocks == full.pixel_blocks,
                bpb == full.bytes_pixel_blocks,
                output@.len() == old(output)@.len(),
                blocks_fit(*full, old(output)@.len() as int),
                pattern@.len() == 8,
                n == component_bytes(*full),
                inner == alpha_step(alpha_bitmap@, output@, bpb, n as int, pattern@, pos as int, run as int, paint != 0, exist != 0),
            decreases blocks - pos,
        {
            let p = pos as usize;
            if !alpha_bitmap[p] {
                if paint != 0 {
                    proof {
                        lemma_block_in_bounds(*full, old(output)@.len() as int, p as int);
                    }
                    let bsize = full.bytes_pixel_blocks as usize;
                    let olen = output.len();
                    assert(p as int * bsize as int + bsize as int <= olen);
                    let at = p * bsize;
                    let ghost before = output@;
                    fill_block(output, at, n, pattern, exist != 0);
                    proof {
                        let f = fill_bytes(before, at as int, n as int, pattern@, exist != 0);
                        assert forall|x: int| 0 <= x < output@.len() implies output@[x] == f[x] by {
                            if at <= x < at + n {
                                let i = x - at;
                                assert(output@[at + i] == f[at + i]);
                            }
                        }
                        assert(output@ =~= f);
                    }
                    alpha_bitmap.set(p, true);
                }
                run = run - 1;
            }
            pos = pos + 1;
        }
        let ghost mid = pos;
        while pos < blocks && alpha_bitmap[pos as usize]
            invariant
                start < mid <= pos <= blocks,
                alpha_bitmap@.len() == blocks,
                skip_alpha(alpha_bitmap@, mid as int) == skip_alpha(alpha_bitmap@, pos as int),
            decreases blocks - pos,
        {
            pos = pos + 1;
        }
        proof {
            fuel = (fuel - 1) as nat;
        }
    }
}

/// How many bytes of a block the alpha decoders write: the component size, at most eight.
pub open spec fn component_bytes(full: FullFormat) -> int {
    if full.bytes_component < 8 {
        full.bytes_component as int
    } else {
        8
    }
}

/// Constant alpha from four bits `a`: the byte `a * 17` (the nibble twice) fills the painted
/// blocks' alpha bytes.
pub fn decode_constant_alpha_from_4_bits(
    reader: &mut BitReader,
    dict: &HuffmanTree,
    alpha_bitmap: &mut Vec<bool>,
    full: &FullFormat,
    output: &mut Vec<u8>,
)
    requires
        old(reader).wf(),
        dict.wf(),
        old(alpha_bitmap)@.len() == full.pixel_blocks,
        blocks_fit(*full, old(output)@.len() as int),
    ensures
        final(reader).wf(),
        final(reader).stream() == old(reader).stream(),
        final(alpha_bitmap)@.len() == full.pixel_blocks,
        final(output)@.len() == old(output)@.len(),
        (final(alpha_bitmap)@, final(output)@, final(reader).position()) == alpha_pass(
            dict.decl(),
            old(reader).stream(),
            old(reader).position() + 4,
            old(alpha_bitmap)@,
            old(output)@,
            full.bytes_pixel_blocks as int,
            component_bytes(*full),
            Seq::new(8, |i: int| (bits_at(old(reader).stream(), old(reader).position(), 4) * 17) as u8),
            0,
            (full.pixel_blocks + 1) as nat,
        ),
{
    let a = take_bits(reader, 4);
    proof {
        let x = window(old(reader).stream(), old(reader).position());
        assert((x >> 28u32) < 16) by (bit_vector);
    }
    let byte = (a * 17) as u8;
    let pattern = vec![byte; 8];
    proof {
        assert(pattern@ =~= Seq::new(8, |i: int| (bits_at(old(reader).stream(), old(reader).position(), 4) * 17) as u8));
    }
    paint_alpha_runs(reader, dict, alpha_bitmap, full, output, &pattern);
}

/// Constant alpha from eight bits `a`: the painted blocks' alpha bytes are `a` followed by
/// zeros.
pub fn decode_constant_alpha_from_8_bits(
    reader: &mut BitReader,
    dict: &HuffmanTree,
    alpha_bitmap: &mut Vec<bool>,
    full: &FullFormat,
    output: &mut Vec<u8>,
)
    requires
        old(reader).wf(),
        dict.wf(),
        old(alpha_bitmap)@.len() == full.pixel_blocks,
        blocks_fit(*full, old(output)@.len() as int),
    ensures
        final(reader).wf(),
        final(reader).stream() == old(reader).stream(),
        final(alpha_bitmap)@.len() == full.pixel_blocks,
        final(output)@.len() == old(output)@.len(),
        (final(alpha_bitmap)@, final(output)@, final(reader).position()) == alpha_pass(
            dict.decl(),
            old(reader).stream(),
            old(reader).position() + 8,
            old(alpha_bitmap)@,
            old(output)@,
            full.bytes_pixel_blocks as int,
            component_bytes(*full),
            seq![bits_at(old(reader).stream(), old(reader).position(), 8) as u8, 0, 0, 0, 0, 0, 0, 0],
            0,
            (full.pixel_blocks + 1) as nat,
        ),
{
    let a = take_bits(reader, 8);
    let pattern = vec![a as u8, 0, 0, 0, 0, 0, 0, 0];
    proof {
        assert(pattern@ =~= seq![bits_at(old(reader).stream(), old(reader).position(), 8) as u8, 0, 0, 0, 0, 0, 0, 0]);
    }
    paint_alpha_runs(reader, dict, alpha_bitmap, full, output, &pattern);
}

/// A colour component of eight bits brought down to `bits` bits (five or six), rounding as
/// the block encoder does: `(c - c / 2^bits) / 2^(8 - bits)`.
pub open spec fn quantize(c: int, bits: int) -> int {
    if bits == 5 {
        (c - c / 32) / 8
    } else {
        (c - c / 64) / 4
    }
}

/// Reads the plain colour (blue, green, red; eight bits each) and returns its 5-6-5
/// quantization as (red, green, blue). How the blocks of that colour are painted is not
/// defined, so nothing is painted.
pub fn decode_plain_color(reader: &mut BitReader) -> (r: (u8, u16, u8))
    requires
        old(reader).wf(),
    ensures
        final(reader).wf(),
        final(reader).stream() == old(reader).stream(),
        final(reader).position() == old(reader).position() + 24,
        ({
            let w = old(reader).stream();
            let p = old(reader).position();
            &&& r.0 as int == quantize(bits_at(w, p + 16, 8) as int, 5)
            &&& r.1 as int == quantize(bits_at(w, p + 8, 8) as int, 6)
            &&& r.2 as int == quantize(bits_at(w, p, 8) as int, 5)
        }),
{
    let ghost w = reader.stream();
    let ghost p = reader.position();
    let blue = take_bits(reader, 8);
    let green = take_bits(reader, 8);
    let red = take_bits(reader, 8);
    proof {
        let x = window(w, p);
        let y = window(w, p + 8);
        let z = window(w, p + 16);
        assert((x >> 24u32) < 256) by (bit_vector);
        assert((y >> 24u32) < 256) by (bit_vector);
        assert((z >> 24u32) < 256) by (bit_vector);
    }
    let red_5 = ((red - red / 32) / 8) as u8;
    let green_6 = ((green - green / 64) / 4) as u16;
    let blue_5 = ((blue - blue / 32) / 8) as u8;
    (red_5, green_6, blue_5)
}

/// The output after the passes that the compression flags ask for, from bit `p`: a data
/// size (unused) and the flags, then the white pass, the four-bit alpha pass and the
/// eight-bit alpha pass, each on the bitmaps and output the one before left.
pub open spec fn texture_passes(
    dict: Seq<Seq<u16>>,
    w: Seq<u32>,
    p: nat,
    out: Seq<u8>,
    full: FullFormat,
) -> Seq<u8> {
    let flags = bits_at(w, p + 32, 32);
    let blocks = full.pixel_blocks as int;
    let bpb = full.bytes_pixel_blocks as int;
    let fuel = (full.pixel_blocks + 1) as nat;
    let none = Seq::new(blocks as nat, |i: int| false);
    let s1 = if flags & CF_DECODE_WHITE_COLOR != 0 {
        white_pass(dict, w, p + 64, none, none, out, bpb, 0, fuel)
    } else {
        (none, none, out, (p + 64) as nat)
    };
    let s2 = if flags & CF_DECODE_CONSTANT_ALPHA_FROM_4_BITS != 0 {
        alpha_pass(
            dict,
            w,
            s1.3 + 4,
            s1.1,
            s1.2,
            bpb,
            component_bytes(full),
            Seq::new(8, |i: int| (bits_at(w, s1.3, 4) * 17) as u8),
            0,
            fuel,
        )
    } else {
        (s1.1, s1.2, s1.3)
    };
    let s3 = if flags & CF_DECODE_CONSTANT_ALPHA_FROM_8_BITS != 0 {
        alpha_pass(
            dict,
            w,
            s2.2 + 8,
            s2.0,
            s2.1,
            bpb,
            component_bytes(full),
            seq![bits_at(w, s2.2, 8) as u8, 0, 0, 0, 0, 0, 0, 0],
            0,
            fuel,
        )
    } else {
        s2
    };
    s3.1
}

/// Decodes the block data of a texture whose format and sizes are `full`: a data size
/// (unused) and the compression flags, then one pass per flag that is set. The plain-colour
/// pass is not defined; a texture that needs it is refused.
pub fn inflate_texture_data(
    reader: &mut BitReader,
    full: &FullFormat,
    output: &mut Vec<u8>,
    dict: &HuffmanTree,
) -> (r: Result<(), TextureError>)
    requires
        old(reader).wf(),
        dict.wf(),
        blocks_fit(*full, old(output)@.len() as int),
    ensures
        final(output)@.len() == old(output)@.len(),
        r is Err <==> bits_at(old(reader).stream(), old(reader).position() + 32, 32)
            & CF_DECODE_PLAIN_COLOR != 0,
        r is Err ==> r == Err::<(), TextureError>(TextureError::PlainColorUnsupported),
        final(output)@ == texture_passes(
            dict.decl(),
            old(reader).stream(),
            old(reader).position(),
            old(output)@,
            *full,
        ),
{
    let _data_size = take_bits(reader, 32);
    let flags = take_bits(reader, 32);
    let blocks = full.pixel_blocks as usize;
    let mut color_bitmap = vec![false; blocks];
    let mut alpha_bitmap = vec![false; blocks];
    assert(color_bitmap@ =~= Seq::new(blocks as nat, |i: int| false));
    assert(alpha_bitmap@ =~= Seq::new(blocks as nat, |i: int| false));
    if flags & CF_DECODE_WHITE_COLOR != 0 {
        decode_white_color(reader, dict, &mut alpha_bitmap, &mut color_bitmap, full, output);
    }
    if flags & CF_DECODE_CONSTANT_ALPHA_FROM_4_BITS != 0 {
        decode_constant_alpha_from_4_bits(reader, dict, &mut alpha_bitmap, full, output);
    }
    if flags & CF_DECODE_CONSTANT_ALPHA_FROM_8_BITS != 0 {
        decode_constant_alpha_from_8_bits(reader, dict, &mut alpha_bitmap, full, output);
    }
    if flags & CF_DECODE_PLAIN_COLOR != 0 {
        let _reference = decode_plain_color(reader);
        return Err(TextureError::PlainColorUnsupported);
    }
    Ok(())
}

/// The four-character code of a texture stream. The header is a skipped word, the code, a
/// skipped word, the width and a skipped half-word, the height and a skipped half-word.
pub open spec fn texture_fourcc(input: Seq<u8>) -> u32 {
    bits_at(stream_words(input, 0, 0), 32, 32)
}

/// The width in a texture stream's header.
pub open spec fn texture_width(input: Seq<u8>) -> u16 {
    bits_at(stream_words(input, 0, 0), 96, 16) as u16
}

/// The height in a texture stream's header.
pub open spec fn texture_height(input: Seq<u8>) -> u16 {
    bits_at(stream_words(input, 0, 0), 128, 16) as u16
}

/// The number of output bytes of a texture: 4x4 pixel blocks of `pixel_size_bits * 2` bytes.
pub open spec fn texture_size(format: Format, width: u16, height: u16) -> int {
    ((width as int + 3) / 4) * ((height as int + 3) / 4) * (format.pixel_size_bits as int * 2)
}

/// Decodes a texture stream: the header (see `texture_fourcc`), then the block data. On a
/// known format whose size fits in 32 bits, `output_data_size` holds that size and
/// `output_data` is a buffer of exactly that many bytes, painted as `texture_passes` says.
/// On an unknown format, or a size beyond 32 bits, the size is 0 and the buffer empty.
pub fn inflate_texture_file_buffer(
    input_data: Vec<u8>,
    output_data_size: &mut u32,
    output_data: &mut Vec<u8>,
) -> (r: Result<(), TextureError>)
    ensures
        ({
            let input = input_data@;
            match format_index(texture_fourcc(input)) {
                None => {
                    &&& r == Err::<(), TextureError>(TextureError::UnknownFormat)
                    &&& *final(output_data_size) == 0
                    &&& final(output_data)@.len() == 0
                },
                Some(i) => {
                    let size = texture_size(
                        static_formats()[i],
                        texture_width(input),
                        texture_height(input),
                    );
                    let format = static_formats()[i];
                    let width = texture_width(input);
                    let height = texture_height(input);
                    let per_block = format.pixel_size_bits * 2;
                    let full = (FullFormat {
                        format,
                        pixel_blocks: (((width as int + 3) / 4) * ((height as int + 3) / 4)) as u32,
                        bytes_pixel_blocks: per_block as u32,
                        bytes_component: per_block as u32,
                        two_component: false,
                        width,
                        height,
                    });
                    let w = stream_words(input, 0, 0);
                    if size > u32::MAX {
                        &&& r == Err::<(), TextureError>(TextureError::TooLarge)
                        &&& *final(output_data_size) == 0
                        &&& final(output_data)@.len() == 0
                    } else {
                        &&& *final(output_data_size) == size
                        &&& final(output_data)@.len() == size
                        &&& final(output_data)@ == texture_passes(
                            texture_dictionary(),
                            w,
                            160,
                            Seq::new(size as nat, |k: int| 0u8),
                            full,
                        )
                        &&& (r is Err <==> bits_at(w, 192, 32) & CF_DECODE_PLAIN_COLOR != 0)
                        &&& (r is Err ==> r == Err::<(), TextureError>(
                            TextureError::PlainColorUnsupported,
                        ))
                    }
                },
            }
        }),
{
    let mut dict = HuffmanTree::new();
    let mut format_data: Vec<Format> = Vec::new();
    let ready = initialize_static_values(&mut dict, &mut format_data);
    proof {
        assert(format_data@ =~= static_formats());
        lemma_texture_dictionary_builds();
        assert(ready);
    }
    let mut reader = BitReader::new(input_data, 0);
    reader.drop_bits(32);
    let fourcc = take_bits(&mut reader, 32);
    reader.drop_bits(32);
    let format = match deduce_format(fourcc, &format_data) {
        None => {
            *output_data_size = 0;
            *output_data = Vec::new();
            return Err(TextureError::UnknownFormat);
        },
        Some(f) => f,
    };
    let width = take_bits(&mut reader, 16) as u16;
    reader.drop_bits(16);
    let height = take_bits(&mut reader, 16) as u16;
    reader.drop_bits(16);
    let full = match full_format(format, width, height) {
        None => {
            *output_data_size = 0;
            *output_data = Vec::new();
            return Err(TextureError::TooLarge);
        },
        Some(f) => f,
    };
    proof {
        let b = ((width as int + 3) / 4) * ((height as int + 3) / 4);
        let q = format.pixel_size_bits as int * 2;
        assert(b * q == q * b) by (nonlinear_arith);
    }
    let size = full.bytes_pixel_blocks * full.pixel_blocks;
    *output_data_size = size;
    *output_data = vec![0u8; size as usize];
    assert(output_data@ =~= Seq::new(size as nat, |k: int| 0u8));
    proof {
        assert(full.pixel_blocks as int * full.bytes_pixel_blocks as int == size) by (nonlinear_arith)
            requires
                size == full.bytes_pixel_blocks as int * full.pixel_blocks as int,
        ;
    }
    inflate_texture_data(&mut reader, &full, output_data, &dict)
}

/// Block-level texture entry point: the layout of a lone block buffer is not defined, so
/// nothing is decoded and both outputs are left as they are.
pub fn inflate_texture_block_buffer(
    input_data: Vec<u8>,
    output_data_size: &mut u32,
    output_data: &mut Vec<u8>,
    width: u16,
    height: u16,
    fourcc_format: u32,
) -> (r: Result<(), TextureError>)
    ensures
        r is Ok,
        *final(output_data_size) == *old(output_data_size),
        final(output_data)@ == old(output_data)@,
{
    Ok(())
}

} // verus!
