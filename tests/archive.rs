use gw2_dat::archive::{
    detect_image_format, find_mft_entry, read_dat_header, read_mft_data, read_mft_header,
    read_mft_index_data, strip_chunk_crcs, ArchiveId, ImageFormat, MftIndexData,
};

#[test]
fn dat_header_fields() {
    let mut b = vec![151u8, b'A', b'N', 0x1A];
    for v in [40u32, 0x00FF_0000, 512, 0x1234, 0] {
        b.extend_from_slice(&v.to_le_bytes());
    }
    b.extend_from_slice(&0x0000_0001_0000_0200u64.to_le_bytes());
    b.extend_from_slice(&9000u32.to_le_bytes());
    b.extend_from_slice(&3u32.to_le_bytes());
    let h = read_dat_header(&b).unwrap();
    assert_eq!(h.version, 151);
    assert_eq!(h.identifier, [b'A', b'N', 0x1A]);
    assert_eq!(h.header_size, 40);
    assert_eq!(h.chunk_size, 512);
    assert_eq!(h.mft_offset, 0x0000_0001_0000_0200);
    assert_eq!(h.mft_size, 9000);
    assert_eq!(h.flag, 3);
    assert!(read_dat_header(&b[..39]).is_none());
}

#[test]
fn mft_header_fields() {
    let mut b = vec![b'M', b'f', b't', 0x1A];
    b.extend_from_slice(&7u64.to_le_bytes());
    b.extend_from_slice(&5u32.to_le_bytes());
    b.extend_from_slice(&1u32.to_le_bytes());
    b.extend_from_slice(&2u32.to_le_bytes());
    let h = read_mft_header(&b).unwrap();
    assert_eq!(h.mft_entry_size, 4);
    assert_eq!(h.unknown_field, 7);
    let mut zero = b.clone();
    zero[12] = 0;
    assert!(read_mft_header(&zero).is_none());
}

#[test]
fn mft_entries() {
    let mut b = Vec::new();
    for i in 0..2u32 {
        b.extend_from_slice(&(0x1000u64 * (i as u64 + 1)).to_le_bytes());
        b.extend_from_slice(&(100 + i).to_le_bytes());
        b.extend_from_slice(&8u16.to_le_bytes());
        b.extend_from_slice(&3u16.to_le_bytes());
        b.extend_from_slice(&i.to_le_bytes());
        b.extend_from_slice(&0xCAFEu32.to_le_bytes());
    }
    let v = read_mft_data(&b, 2).unwrap();
    assert_eq!(v[1].offset, 0x2000);
    assert_eq!(v[1].size, 101);
    assert_eq!(v[0].compression_flag, 8);
    assert_eq!(v[0].entry_flag, 3);
    assert_eq!(v[1].crc, 0xCAFE);
    assert!(read_mft_data(&b, 3).is_none());
}

#[test]
fn index_lookup() {
    let mut b = Vec::new();
    for (f, base) in [(10u32, 3u32), (11, 5), (12, 3)] {
        b.extend_from_slice(&f.to_le_bytes());
        b.extend_from_slice(&base.to_le_bytes());
    }
    b.push(0xEE);
    let index = read_mft_index_data(&b);
    assert_eq!(index.len(), 3);
    assert_eq!(index[1], MftIndexData { file_id: 11, base_id: 5 });
    assert_eq!(find_mft_entry(&index, ArchiveId::FileId, 11), 4);
    assert_eq!(find_mft_entry(&index, ArchiveId::BaseId, 3), 2);
    assert_eq!(find_mft_entry(&index, ArchiveId::FileId, 99), 0);
}

#[test]
fn chunk_checksums_removed() {
    let small: Vec<u8> = (0..10).collect();
    assert_eq!(strip_chunk_crcs(&small), (0..6).collect::<Vec<u8>>());
    let tiny = vec![1u8, 2, 3];
    assert!(strip_chunk_crcs(&tiny).is_empty());
    assert!(strip_chunk_crcs(&vec![9u8; 4]).is_empty());
    let with_short_tail: Vec<u8> = (0..0x10004).map(|i| (i % 253) as u8).collect();
    let out = strip_chunk_crcs(&with_short_tail);
    assert_eq!(out.len(), 0xFFFC);
    assert_eq!(&out[..], &with_short_tail[..0xFFFC]);
    let big: Vec<u8> = (0..0x10000 + 10).map(|i| (i % 251) as u8).collect();
    let out = strip_chunk_crcs(&big);
    assert_eq!(out.len(), 0x10000 - 4 + 6);
    assert_eq!(&out[..0xFFFC], &big[..0xFFFC]);
    assert_eq!(&out[0xFFFC..], &big[0x10000..0x10006]);
    let exact: Vec<u8> = vec![7u8; 0x10000];
    assert_eq!(strip_chunk_crcs(&exact).len(), 0xFFFC);
}

#[test]
fn image_signatures() {
    assert_eq!(detect_image_format(&[0x89, b'P', b'N', b'G', 0x0D, 0x0A, 0x1A, 0x0A, 0]), Some(ImageFormat::Png));
    assert_eq!(detect_image_format(&[0xFF, 0xD8, 0xFF, 0xE0]), Some(ImageFormat::Jpeg));
    assert_eq!(detect_image_format(b"RIFF\0\0\0\0WEBPVP8 "), Some(ImageFormat::Webp));
    assert_eq!(detect_image_format(b"RIFF\0\0\0\0WEBP"), None);
    assert_eq!(detect_image_format(&[0x49, 0x49, 0x2A, 0x00]), Some(ImageFormat::Tiff));
    assert_eq!(detect_image_format(&[0x4D, 0x4D, 0x00, 0x2A, 1]), Some(ImageFormat::Tiff));
    assert_eq!(detect_image_format(&[0x89, b'P']), None);
    assert_eq!(ImageFormat::Png.mime(), "image/png");
}
