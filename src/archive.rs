use vstd::prelude::*;
use crate::bitreader::le_word;

verus! {

/// Bytes of the archive header.
pub const DAT_HEADER_SIZE: usize = 40;

/// Bytes of the file-table header.
pub const MFT_HEADER_SIZE: usize = 24;

/// Bytes of one file-table entry.
pub const MFT_ENTRY_SIZE: usize = 24;

/// Bytes of one index entry.
pub const MFT_INDEX_ENTRY_SIZE: usize = 8;

/// Archive data is stored in chunks of this many bytes, each ending with a 4-byte checksum.
pub const CHUNK_SIZE: usize = 0x10000;

/// The file-table entry that holds the index.
pub const MFT_ENTRY_INDEX_NUM: usize = 1;

/// Which identifier a lookup goes by.
#[derive(PartialEq, Eq, Structural, Clone, Copy, Debug)]
pub enum ArchiveId {
    FileId,
    BaseId,
}

/// The archive header.
#[derive(Clone, Copy, Debug)]
pub struct DatHeader {
    pub version: u8,
    pub identifier: [u8; 3],
    pub header_size: u32,
    pub unknown_field: u32,
    pub chunk_size: u32,
    pub crc: u32,
    pub unknown_field_2: u32,
    pub mft_offset: u64,
    pub mft_size: u32,
    pub flag: u32,
}

/// The file-table header.
#[derive(Clone, Copy, Debug)]
pub struct MftHeader {
    pub identifier: [u8; 4],
    pub unknown_field: u64,
    pub mft_entry_size: u32,
    pub unknown_field_2: u32,
    pub unknown_field_3: u32,
}

/// One file-table entry.
#[derive(Clone, Debug)]
pub struct MftData {
    pub offset: u64,
    pub size: u32,
    pub compression_flag: u16,
    pub entry_flag: u16,
    pub counter: u32,
    pub crc: u32,
    pub uncompressed_size: u32,
    pub crc_32c_data: Vec<(u64, u32)>,
}

/// One index entry: a file identifier and the base identifier it refers to.
#[derive(PartialEq, Eq, Structural, Clone, Copy, Debug)]
pub struct MftIndexData {
    pub file_id: u32,
    pub base_id: u32,
}

/// The little-endian 16-bit value at byte `i` of `b`.
pub open spec fn le_u16(b: Seq<u8>, i: int) -> u16 {
    (b[i] as int + b[i + 1] as int * 0x100) as u16
}

/// The little-endian 64-bit value at byte `i` of `b`.
pub open spec fn le_u64(b: Seq<u8>, i: int) -> u64 {
    (le_word(b, i) as int + le_word(b, i + 4) as int * 0x1_0000_0000) as u64
}

fn read_u16(b: &[u8], at: usize) -> (r: u16)
    requires
        at + 2 <= b@.len(),
    ensures
        r == le_u16(b@, at as int),
{
    b[at] as u16 + b[at + 1] as u16 * 0x100
}

fn read_u32(b: &[u8], at: usize) -> (r: u32)
    requires
        at + 4 <= b@.len(),
    ensures
        r == le_word(b@, at as int),
{
    b[at] as u32 + b[at + 1] as u32 * 0x100 + b[at + 2] as u32 * 0x1_0000 + b[at + 3] as u32
        * 0x100_0000
}

fn read_u64(b: &[u8], at: usize) -> (r: u64)
    requires
        at + 8 <= b@.len(),
    ensures
        r == le_u64(b@, at as int),
{
    let _n = b.len();
    read_u32(b, at) as u64 + read_u32(b, at + 4) as u64 * 0x1_0000_0000
}

/// Parses the archive header from its 40 bytes; `None` when fewer are given.
pub fn read_dat_header(b: &[u8]) -> (r: Option<DatHeader>)
    ensures
        b@.len() < DAT_HEADER_SIZE <==> r is None,
        r matches Some(h) ==> {
            &&& h.version == b@[0]
            &&& h.identifier@ == b@.subrange(1, 4)
            &&& h.header_size == le_word(b@, 4)
            &&& h.unknown_field == le_word(b@, 8)
            &&& h.chunk_size == le_word(b@, 12)
            &&& h.crc == le_word(b@, 16)
            &&& h.unknown_field_2 == le_word(b@, 20)
            &&& h.mft_offset == le_u64(b@, 24)
            &&& h.mft_size == le_word(b@, 32)
            &&& h.flag == le_word(b@, 36)
        },
{
    if b.len() < DAT_HEADER_SIZE {
        return None;
    }
    let h = DatHeader {
        version: b[0],
        identifier: [b[1], b[2], b[3]],
        header_size: read_u32(b, 4),
        unknown_field: read_u32(b, 8),
        chunk_size: read_u32(b, 12),
        crc: read_u32(b, 16),
        unknown_field_2: read_u32(b, 20),
        mft_offset: read_u64(b, 24),
        mft_size: read_u32(b, 32),
        flag: read_u32(b, 36),
    };
    assert(h.identifier@ =~= b@.subrange(1, 4));
    Some(h)
}

/// Parses the file-table header from its 24 bytes. The stored entry count includes the
/// table itself, which is taken off; `None` when fewer bytes are given or the count is zero.
pub fn read_mft_header(b: &[u8]) -> (r: Option<MftHeader>)
    ensures
        (b@.len() < MFT_HEADER_SIZE || le_word(b@, 12) == 0) <==> r is None,
        r matches Some(h) ==> {
            &&& h.identifier@ == b@.subrange(0, 4)
            &&& h.unknown_field == le_u64(b@, 4)
            &&& h.mft_entry_size == le_word(b@, 12) - 1
            &&& h.unknown_field_2 == le_word(b@, 16)
            &&& h.unknown_field_3 == le_word(b@, 20)
        },
{
    if b.len() < MFT_HEADER_SIZE {
        return None;
    }
    let entries = read_u32(b, 12);
    if entries == 0 {
        return None;
    }
    let h = MftHeader {
        identifier: [b[0], b[1], b[2], b[3]],
        unknown_field: read_u64(b, 4),
        mft_entry_size: entries - 1,
        unknown_field_2: read_u32(b, 16),
        unknown_field_3: read_u32(b, 20),
    };
    assert(h.identifier@ =~= b@.subrange(0, 4));
    Some(h)
}

/// The file-table entry whose 24 bytes start at `at`.
pub open spec fn entry_at(b: Seq<u8>, at: int) -> (u64, u32, u16, u16, u32, u32) {
    (
        le_u64(b, at),
        le_word(b, at + 8),
        le_u16(b, at + 12),
        le_u16(b, at + 14),
        le_word(b, at + 16),
        le_word(b, at + 20),
    )
}

/// Parses `count` file-table entries, one after the other; `None` when the bytes run out.
pub fn read_mft_data(b: &[u8], count: u32) -> (r: Option<Vec<MftData>>)
    ensures
        (b@.len() < count as int * MFT_ENTRY_SIZE as int) <==> r is None,
        r matches Some(v) ==> {
            &&& v@.len() == count
            &&& forall|i: int|
                0 <= i < count ==> {
                    let e = #[trigger] v@[i];
                    &&& (e.offset, e.size, e.compression_flag, e.entry_flag, e.counter, e.crc)
                        == entry_at(b@, i * 24)
                    &&& e.uncompressed_size == 0
                    &&& e.crc_32c_data@.len() == 0
                }
        },
{
    if (b.len() as u64) < count as u64 * MFT_ENTRY_SIZE as u64 {
        return None;
    }
    let blen = b.len();
    let mut v: Vec<MftData> = Vec::new();
    let mut i: u32 = 0;
    while i < count
        invariant
            blen == b@.len(),
            i <= count,
            b@.len() >= count as int * 24,
            v@.len() == i,
            forall|k: int|
                0 <= k < i ==> {
                    let e = #[trigger] v@[k];
                    &&& (e.offset, e.size, e.compression_flag, e.entry_flag, e.counter, e.crc)
                        == entry_at(b@, k * 24)
                    &&& e.uncompressed_size == 0
                    &&& e.crc_32c_data@.len() == 0
                },
        decreases count - i,
    {
        proof {
            assert(i as int * 24 + 24 <= count as int * 24) by (nonlinear_arith)
                requires
                    i < count,
            ;
        }
        let at = i as usize * MFT_ENTRY_SIZE;
        let e = MftData {
            offset: read_u64(b, at),
            size: read_u32(b, at + 8),
            compression_flag: read_u16(b, at + 12),
            entry_flag: read_u16(b, at + 14),
            counter: read_u32(b, at + 16),
            crc: read_u32(b, at + 20),
            uncompressed_size: 0,
            crc_32c_data: Vec::new(),
        };
        v.push(e);
        i = i + 1;
    }
    Some(v)
}

/// Parses the index entries (eight bytes each) that fill `b`; trailing bytes that do not
/// make a whole entry are left out.
pub fn read_mft_index_data(b: &[u8]) -> (r: Vec<MftIndexData>)
    ensures
        r@.len() == b@.len() / 8,
        forall|i: int|
            0 <= i < r@.len() ==> (#[trigger] r@[i]).file_id == le_word(b@, i * 8) && r@[i].base_id
                == le_word(b@, i * 8 + 4),
{
    let blen = b.len();
    let count = blen / MFT_INDEX_ENTRY_SIZE;
    let mut v: Vec<MftIndexData> = Vec::new();
    let mut i: usize = 0;
    while i < count
        invariant
            blen == b@.len(),
            i <= count,
            count == b@.len() / 8,
            v@.len() == i,
            forall|k: int|
                0 <= k < i ==> (#[trigger] v@[k]).file_id == le_word(b@, k * 8) && v@[k].base_id
                    == le_word(b@, k * 8 + 4),
        decreases count - i,
    {
        proof {
            assert(i * 8 + 8 <= blen) by (nonlinear_arith)
                requires
                    i < count,
                    count == blen / 8,
            ;
        }
        let at = i * MFT_INDEX_ENTRY_SIZE;
        v.push(MftIndexData { file_id: read_u32(b, at), base_id: read_u32(b, at + 4) });
        i = i + 1;
    }
    v
}

/// The file-table position that the first `n` index entries give for `number`: the last
/// matching entry's base identifier minus one, or 0 when none matches. Entries with a base
/// identifier of zero name no position and are passed over.
pub open spec fn lookup_prefix(index: Seq<MftIndexData>, archive_id: ArchiveId, number: u32, n: int) -> int
    decreases n,
{
    if n <= 0 {
        0
    } else {
        let e = index[n - 1];
        let key = match archive_id {
            ArchiveId::FileId => e.file_id,
            ArchiveId::BaseId => e.base_id,
        };
        if key == number && e.base_id != 0 {
            e.base_id - 1
        } else {
            lookup_prefix(index, archive_id, number, n - 1)
        }
    }
}

/// Finds the file-table position of an entry by its file or base identifier.
pub fn find_mft_entry(index: &Vec<MftIndexData>, archive_id: ArchiveId, number: u32) -> (r: usize)
    ensures
        r == lookup_prefix(index@, archive_id, number, index@.len() as int),
{
    let mut found: usize = 0;
    let mut i: usize = 0;
    while i < index.len()
        invariant
            i <= index@.len(),
            found == lookup_prefix(index@, archive_id, number, i as int),
        decreases index@.len() - i,
    {
        let e = index[i];
        let key = match archive_id {
            ArchiveId::FileId => e.file_id,
            ArchiveId::BaseId => e.base_id,
        };
        if key == number && e.base_id != 0 {
            found = (e.base_id - 1) as usize;
        }
        i = i + 1;
    }
    found
}

/// The payload of stored data: every chunk of `CHUNK_SIZE` bytes, and the last, shorter
/// chunk, loses its trailing 4-byte checksum (a last chunk of at most 4 bytes leaves nothing).
pub open spec fn strip_chunks(s: Seq<u8>) -> Seq<u8>
    decreases s.len(),
{
    if s.len() > CHUNK_SIZE {
        s.subrange(0, CHUNK_SIZE - 4) + strip_chunks(s.subrange(CHUNK_SIZE as int, s.len() as int))
    } else if s.len() > 4 {
        s.subrange(0, s.len() - 4)
    } else {
        Seq::empty()
    }
}

/// Removes the chunk checksums from stored data.
pub fn strip_chunk_crcs(raw: &Vec<u8>) -> (r: Vec<u8>)
    ensures
        r@ == strip_chunks(raw@),
{
    let len = raw.len();
    let mut out: Vec<u8> = Vec::new();
    let mut start: usize = 0;
    assert(raw@.subrange(0, len as int) =~= raw@);
    assert(out@ + strip_chunks(raw@) =~= strip_chunks(raw@));
    while start < len
        invariant
            start <= len,
            len == raw@.len(),
            start < len ==> raw@.len() - start > 0,
            strip_chunks(raw@) == out@ + strip_chunks(raw@.subrange(start as int, len as int)),
        decreases len - start,
    {
        let rest = len - start;
        let keep = if rest > CHUNK_SIZE {
            CHUNK_SIZE - 4
        } else if rest > 4 {
            rest - 4
        } else {
            0
        };
        let ghost s = raw@.subrange(start as int, len as int);
        let ghost before = out@;
        let mut i: usize = 0;
        while i < keep
            invariant
                i <= keep,
                keep <= rest,
                rest == len - start,
                start + rest == len,
                len == raw@.len(),
                out@ == before + raw@.subrange(start as int, start + i),
            decreases keep - i,
        {
            out.push(raw[start + i]);
            proof {
                assert(raw@.subrange(start as int, start + i + 1) =~= raw@.subrange(
                    start as int,
                    start + i,
                ).push(raw@[start + i]));
            }
            i = i + 1;
        }
        proof {
            if rest > CHUNK_SIZE {
                assert(s.subrange(0, CHUNK_SIZE - 4) =~= raw@.subrange(
                    start as int,
                    start + keep,
                ));
                assert(s.subrange(CHUNK_SIZE as int, s.len() as int) =~= raw@.subrange(
                    start + CHUNK_SIZE,
                    len as int,
                ));
                assert(out@ + strip_chunks(raw@.subrange(start + CHUNK_SIZE, len as int)) =~= before
                    + strip_chunks(s));
            } else {
                assert(strip_chunks(s) =~= raw@.subrange(start as int, start + keep));
                assert(raw@.subrange(len as int, len as int) =~= Seq::<u8>::empty());
                assert(out@ + strip_chunks(raw@.subrange(len as int, len as int)) =~= before
                    + strip_chunks(s));
            }
        }
        if rest > CHUNK_SIZE {
            start = start + CHUNK_SIZE;
        } else {
            start = len;
        }
    }
    proof {
        assert(raw@.subrange(len as int, len as int) =~= Seq::<u8>::empty());
        assert(out@ =~= out@ + Seq::<u8>::empty());
    }
    out
}

/// An image container recognised by its leading bytes.
#[derive(PartialEq, Eq, Structural, Clone, Copy, Debug)]
pub enum ImageFormat {
    Png,
    Jpeg,
    Webp,
    Tiff,
}

impl ImageFormat {
    /// The media type of the format.
    pub fn mime(&self) -> (r: &'static str)
        ensures
            r@ == match *self {
                ImageFormat::Png => "image/png"@,
                ImageFormat::Jpeg => "image/jpeg"@,
                ImageFormat::Webp => "image/webp"@,
                ImageFormat::Tiff => "image/tiff"@,
            },
    {
        match self {
            ImageFormat::Png => "image/png",
            ImageFormat::Jpeg => "image/jpeg",
            ImageFormat::Webp => "image/webp",
            ImageFormat::Tiff => "image/tiff",
        }
    }
}

/// `data` starts with the bytes `p`.
pub open spec fn starts_with(data: Seq<u8>, p: Seq<u8>) -> bool {
    data.len() >= p.len() && data.subrange(0, p.len() as int) == p
}

fn has_prefix(data: &[u8], p: &[u8]) -> (r: bool)
    ensures
        r == starts_with(data@, p@),
{
    if data.len() < p.len() {
        return false;
    }
    let mut i: usize = 0;
    while i < p.len()
        invariant
            i <= p@.len(),
            data@.len() >= p@.len(),
            forall|k: int| 0 <= k < i ==> data@[k] == p@[k],
        decreases p@.len() - i,
    {
        if data[i] != p[i] {
            assert(data@.subrange(0, p@.len() as int)[i as int] != p@[i as int]);
            return false;
        }
        i = i + 1;
    }
    assert(data@.subrange(0, p@.len() as int) =~= p@);
    true
}

/// Recognises PNG, JPEG, WebP (a RIFF container of type WEBP, more than 12 bytes) and TIFF
/// (either byte order) by their signatures.
pub fn detect_image_format(data: &[u8]) -> (r: Option<ImageFormat>)
    ensures
        r == if starts_with(data@, seq![0x89u8, 0x50, 0x4E, 0x47, 0x0D, 0x0A, 0x1A, 0x0A]) {
            Some(ImageFormat::Png)
        } else if starts_with(data@, seq![0xFFu8, 0xD8, 0xFF]) {
            Some(ImageFormat::Jpeg)
        } else if data@.len() > 12 && starts_with(data@, seq![0x52u8, 0x49, 0x46, 0x46])
            && data@.subrange(8, 12) == seq![0x57u8, 0x45, 0x42, 0x50] {
            Some(ImageFormat::Webp)
        } else if starts_with(data@, seq![0x49u8, 0x49, 0x2A, 0x00]) || starts_with(
            data@,
            seq![0x4Du8, 0x4D, 0x00, 0x2A],
        ) {
            Some(ImageFormat::Tiff)
        } else {
            None
        },
{
    let png: [u8; 8] = [0x89, 0x50, 0x4E, 0x47, 0x0D, 0x0A, 0x1A, 0x0A];
    let jpeg: [u8; 3] = [0xFF, 0xD8, 0xFF];
    let riff: [u8; 4] = [0x52, 0x49, 0x46, 0x46];
    let tiff_le: [u8; 4] = [0x49, 0x49, 0x2A, 0x00];
    let tiff_be: [u8; 4] = [0x4D, 0x4D, 0x00, 0x2A];
    assert(png@ =~= seq![0x89u8, 0x50, 0x4E, 0x47, 0x0D, 0x0A, 0x1A, 0x0A]);
    assert(jpeg@ =~= seq![0xFFu8, 0xD8, 0xFF]);
    assert(riff@ =~= seq![0x52u8, 0x49, 0x46, 0x46]);
    assert(tiff_le@ =~= seq![0x49u8, 0x49, 0x2A, 0x00]);
    assert(tiff_be@ =~= seq![0x4Du8, 0x4D, 0x00, 0x2A]);
    if has_prefix(data, png.as_slice()) {
        Some(ImageFormat::Png)
    } else if has_prefix(data, jpeg.as_slice()) {
        Some(ImageFormat::Jpeg)
    } else if data.len() > 12 && has_prefix(data, riff.as_slice()) && data[8] == 0x57 && data[9]
        == 0x45 && data[10] == 0x42 && data[11] == 0x50 {
        assert(data@.subrange(8, 12) =~= seq![0x57u8, 0x45, 0x42, 0x50]);
        Some(ImageFormat::Webp)
    } else if has_prefix(data, tiff_le.as_slice()) || has_prefix(data, tiff_be.as_slice()) {
        Some(ImageFormat::Tiff)
    } else {
        proof {
            if data@.len() > 12 && starts_with(data@, seq![0x52u8, 0x49, 0x46, 0x46]) && data@.subrange(8, 12) == seq![0x57u8, 0x45, 0x42, 0x50] {
                assert(data@.subrange(8, 12)[0] == data@[8]);
                assert(data@.subrange(8, 12)[1] == data@[9]);
                assert(data@.subrange(8, 12)[2] == data@[10]);
                assert(data@.subrange(8, 12)[3] == data@[11]);
            }
        }
        None
    }
}

} // verus!
