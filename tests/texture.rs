use gw2_dat::texture::{
    deduce_format, full_format, inflate_texture_block_buffer, inflate_texture_file_buffer,
    initialize_static_values, Format, TextureError,
};
use gw2_dat::huffman::HuffmanTree;

fn words(ws: &[u32]) -> Vec<u8> {
    ws.iter().flat_map(|w| w.to_le_bytes()).collect()
}

#[test]
fn format_table() {
    let mut dict = HuffmanTree::new();
    let mut formats = Vec::new();
    assert!(initialize_static_values(&mut dict, &mut formats));
    assert_eq!(formats.len(), 9);
    assert_eq!(deduce_format(0x31545844, &formats), Some(Format { flag_data: 0x70, pixel_size_bits: 4 }));
    assert_eq!(deduce_format(0x35545844, &formats), Some(Format { flag_data: 0xB0, pixel_size_bits: 8 }));
    assert_eq!(deduce_format(0x41545844, &formats), Some(Format { flag_data: 0xA0, pixel_size_bits: 4 }));
    assert_eq!(deduce_format(0x4C545844, &formats), Some(Format { flag_data: 0x10, pixel_size_bits: 8 }));
    assert_eq!(deduce_format(0x58434433, &formats), Some(Format { flag_data: 0x200, pixel_size_bits: 8 }));
    assert_eq!(deduce_format(0x12345678, &formats), None);
}

#[test]
fn texture_sizes() {
    let f = full_format(Format { flag_data: 0x70, pixel_size_bits: 4 }, 5, 9).unwrap();
    assert_eq!(f.pixel_blocks, 6);
    assert_eq!(f.bytes_pixel_blocks, 8);
    let f = full_format(Format { flag_data: 0xB0, pixel_size_bits: 8 }, 4, 4).unwrap();
    assert_eq!(f.pixel_blocks, 1);
    assert_eq!(f.bytes_pixel_blocks, 16);
    assert!(full_format(Format { flag_data: 0xB0, pixel_size_bits: 8 }, 65535, 65535).is_none());
}

#[test]
fn white_color_block() {
    // DXT1, 8x4: two blocks of 8 bytes. White pass: a run of 1 ("1"), painted ("1"); then a
    // run of 1, left ("0").
    let input = words(&[0, 0x31545844, 0, 0x0008_0000, 0x0004_0000, 0, 1, 0b1110 << 28, 0]);
    let mut size = 0u32;
    let mut out = Vec::new();
    assert_eq!(inflate_texture_file_buffer(input, &mut size, &mut out), Ok(()));
    assert_eq!(size, 16);
    assert_eq!(out.len(), 16);
    assert_eq!(out[0], 0xFF);
    assert_eq!(out[8], 0);
}

#[test]
fn constant_alpha_from_4_bits() {
    // DXTA, 4x4: one block of 8 bytes. Alpha nibble 0xA, a run of 1, painted, with the value.
    let input = words(&[0, 0x41545844, 0, 0x0004_0000, 0x0004_0000, 0, 2, 0b1010_1_1_1 << 25, 0]);
    let mut size = 0u32;
    let mut out = Vec::new();
    assert_eq!(inflate_texture_file_buffer(input, &mut size, &mut out), Ok(()));
    assert_eq!(out, vec![0xAA; 8]);
}

#[test]
fn constant_alpha_from_8_bits() {
    // DXT1, 4x4: alpha byte 0x5C, a run of 1, painted, with the value.
    let input = words(&[0, 0x31545844, 0, 0x0004_0000, 0x0004_0000, 0, 4, (0x5C << 24) | (0b111 << 21), 0]);
    let mut size = 0u32;
    let mut out = Vec::new();
    assert_eq!(inflate_texture_file_buffer(input, &mut size, &mut out), Ok(()));
    assert_eq!(out, vec![0x5C, 0, 0, 0, 0, 0, 0, 0]);
}

#[test]
fn plain_color_is_refused() {
    let input = words(&[0, 0x31545844, 0, 0x0004_0000, 0x0004_0000, 0, 8, 0, 0]);
    let mut size = 0u32;
    let mut out = Vec::new();
    assert_eq!(inflate_texture_file_buffer(input, &mut size, &mut out), Err(TextureError::PlainColorUnsupported));
    assert_eq!(size, 8);
}

#[test]
fn unknown_texture_format() {
    let input = words(&[0, 0x4141_4141, 0, 0x0004_0000, 0x0004_0000, 0, 0]);
    let mut size = 7u32;
    let mut out = vec![1u8, 2, 3];
    assert_eq!(inflate_texture_file_buffer(input, &mut size, &mut out), Err(TextureError::UnknownFormat));
    assert_eq!(size, 0);
    assert!(out.is_empty());
}

#[test]
fn block_buffer_leaves_outputs() {
    let mut size = 3u32;
    let mut out = vec![1u8, 2];
    assert_eq!(inflate_texture_block_buffer(vec![1, 2, 3], &mut size, &mut out, 4, 4, 0x31545844), Ok(()));
    assert_eq!(size, 3);
    assert_eq!(out, vec![1, 2]);
}

#[test]
fn plain_color_quantization() {
    // Blue 0xFF, green 0x80, red 0x00.
    let input = words(&[0xFF80_0000]);
    let mut reader = gw2_dat::bitreader::BitReader::new(input, 0);
    let (r, g, b) = gw2_dat::texture::decode_plain_color(&mut reader);
    assert_eq!(r, 0);
    assert_eq!(g, (0x80 - 2) / 4);
    assert_eq!(b, (0xFF - 7) / 8);
}
