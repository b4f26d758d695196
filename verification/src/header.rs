//! Header, table of contents, footer and checksums of R5TU files.
use vstd::prelude::*;
use crate::le::{le_u16_at, le_u32_at, le_u64_at, read_u16_at, read_u32_at, read_u64_at};

verus! {

/// Enumerates the kinds of sections in an R5TU file.
#[derive(Debug, Clone, Copy, PartialEq, Eq, Structural, Hash)]
pub enum SectionKind {
    TermDict,
    IdDict,
    GNameDict,
    GDir,
    IdxId2Gid,
    IdxGName2Gid,
    IdxPair2Gid,
    TripleBlocks,
}

/// The on-disk code of each section kind.
pub open spec fn section_kind_code(k: SectionKind) -> u16 {
    match k {
        SectionKind::TermDict => 1,
        SectionKind::IdDict => 2,
        SectionKind::GNameDict => 3,
        SectionKind::GDir => 4,
        SectionKind::IdxId2Gid => 5,
        SectionKind::IdxGName2Gid => 6,
        SectionKind::IdxPair2Gid => 7,
        SectionKind::TripleBlocks => 8,
    }
}

/// The kind with on-disk code `v`, if any.
pub open spec fn spec_section_kind_from_u16(v: u16) -> Option<SectionKind> {
    if v == 1 {
        Some(SectionKind::TermDict)
    } else if v == 2 {
        Some(SectionKind::IdDict)
    } else if v == 3 {
        Some(SectionKind::GNameDict)
    } else if v == 4 {
        Some(SectionKind::GDir)
    } else if v == 5 {
        Some(SectionKind::IdxId2Gid)
    } else if v == 6 {
        Some(SectionKind::IdxGName2Gid)
    } else if v == 7 {
        Some(SectionKind::IdxPair2Gid)
    } else if v == 8 {
        Some(SectionKind::TripleBlocks)
    } else {
        None
    }
}

impl SectionKind {
    /// Convert a little-endian `u16` value into a kind, if recognized.
    pub fn from_u16(v: u16) -> (r: Option<Self>)
        ensures
            r == spec_section_kind_from_u16(v),
    {
        match v {
            1 => Some(SectionKind::TermDict),
            2 => Some(SectionKind::IdDict),
            3 => Some(SectionKind::GNameDict),
            4 => Some(SectionKind::GDir),
            5 => Some(SectionKind::IdxId2Gid),
            6 => Some(SectionKind::IdxGName2Gid),
            7 => Some(SectionKind::IdxPair2Gid),
            8 => Some(SectionKind::TripleBlocks),
            _ => None,
        }
    }

    /// The on-disk code of this kind.
    pub fn as_u16(&self) -> (r: u16)
        ensures
            r == section_kind_code(*self),
    {
        match self {
            SectionKind::TermDict => 1,
            SectionKind::IdDict => 2,
            SectionKind::GNameDict => 3,
            SectionKind::GDir => 4,
            SectionKind::IdxId2Gid => 5,
            SectionKind::IdxGName2Gid => 6,
            SectionKind::IdxPair2Gid => 7,
            SectionKind::TripleBlocks => 8,
        }
    }
}

/// Decoding a kind's code gives the kind back.
pub proof fn lemma_section_kind_code_roundtrip(k: SectionKind)
    ensures
        spec_section_kind_from_u16(section_kind_code(k)) == Some(k),
{
}

/// Byte span for a section.
#[derive(Debug, Clone, Copy, PartialEq, Eq, Structural)]
pub struct Section {
    pub off: u64,
    pub len: u64,
}

/// Entry in the table of contents mapping a kind to its section.
#[derive(Debug, Clone, Copy, PartialEq, Eq, Structural)]
pub struct TocEntry {
    pub kind: SectionKind,
    pub section: Section,
    /// 0 if absent.
    pub crc32_u32: u32,
}

/// Parsed fixed-size file header.
#[derive(Debug, Clone, Copy)]
pub struct Header {
    pub magic: [u8; 4],
    pub version_u16: u16,
    pub flags_u16: u16,
    pub created_unix64: u64,
    pub toc_off_u64: u64,
    pub toc_len_u32: u32,
    pub reserved_u32: u32,
}

/// `h` is the header stored in the first 32 bytes of `buf`.
pub open spec fn header_fields_match(h: Header, buf: Seq<u8>) -> bool {
    &&& h.magic@ == buf.subrange(0, 4)
    &&& h.version_u16 == le_u16_at(buf, 4)
    &&& h.flags_u16 == le_u16_at(buf, 6)
    &&& h.created_unix64 == le_u64_at(buf, 8)
    &&& h.toc_off_u64 == le_u64_at(buf, 16)
    &&& h.toc_len_u32 == le_u32_at(buf, 24)
    &&& h.reserved_u32 == le_u32_at(buf, 28)
}

impl Header {
    /// Parse a header from the first 32 bytes of `buf`.
    pub fn parse(buf: &[u8]) -> (r: Option<Self>)
        ensures
            r is Some <==> buf@.len() >= 32,
            r matches Some(h) ==> header_fields_match(h, buf@),
    {
        if buf.len() < 32 {
            return None;
        }
        let magic = [buf[0], buf[1], buf[2], buf[3]];
        let h = Header {
            magic,
            version_u16: read_u16_at(buf, 4),
            flags_u16: read_u16_at(buf, 6),
            created_unix64: read_u64_at(buf, 8),
            toc_off_u64: read_u64_at(buf, 16),
            toc_len_u32: read_u32_at(buf, 24),
            reserved_u32: read_u32_at(buf, 28),
        };
        assert(h.magic@ =~= buf@.subrange(0, 4));
        Some(h)
    }
}

/// The table-of-contents entry stored in the 32 bytes at `off`, if its kind
/// code is recognized.
pub open spec fn spec_toc_entry(buf: Seq<u8>, off: int) -> Option<TocEntry> {
    match spec_section_kind_from_u16(le_u16_at(buf, off)) {
        Some(kind) => Some(TocEntry {
            kind,
            section: Section { off: le_u64_at(buf, off + 4), len: le_u64_at(buf, off + 12) },
            crc32_u32: le_u32_at(buf, off + 20),
        }),
        None => None,
    }
}

/// The TOC that `hdr` points at lies within `buf`.
pub open spec fn toc_in_bounds(buf: Seq<u8>, hdr: Header) -> bool {
    hdr.toc_off_u64 + 32 * hdr.toc_len_u32 <= buf.len()
}

/// Every entry of the TOC has a recognized kind.
pub open spec fn toc_kinds_known(buf: Seq<u8>, hdr: Header) -> bool {
    forall|i: int| 0 <= i < hdr.toc_len_u32 ==>
        #[trigger] spec_toc_entry(buf, hdr.toc_off_u64 + 32 * i) is Some
}

/// Parse the TOC entries referenced by `hdr`.
pub fn parse_toc(buf: &[u8], hdr: &Header) -> (r: Option<Vec<TocEntry>>)
    ensures
        r is Some <==> toc_in_bounds(buf@, *hdr) && toc_kinds_known(buf@, *hdr),
        r matches Some(v) ==> {
            &&& v@.len() == hdr.toc_len_u32
            &&& forall|i: int| 0 <= i < v@.len() ==>
                Some(#[trigger] v@[i]) == spec_toc_entry(buf@, hdr.toc_off_u64 + 32 * i)
        },
{
    let blen = buf.len();
    let n = hdr.toc_len_u32 as usize;
    let span = (hdr.toc_len_u32 as u64) * 32;
    let need = match hdr.toc_off_u64.checked_add(span) {
        Some(x) => x,
        None => return None,
    };
    if need > buf.len() as u64 {
        return None;
    }
    let toc_off = hdr.toc_off_u64 as usize;
    let mut out: Vec<TocEntry> = Vec::with_capacity(n);
    let mut i: usize = 0;
    while i < n
        invariant
            i <= n,
            n == hdr.toc_len_u32,
            toc_off == hdr.toc_off_u64,
            toc_off + 32 * n <= buf@.len(),
            buf@.len() <= usize::MAX,
            out@.len() == i,
            forall|j: int| 0 <= j < i ==>
                Some(#[trigger] out@[j]) == spec_toc_entry(buf@, hdr.toc_off_u64 + 32 * j),
            forall|j: int| 0 <= j < i ==>
                #[trigger] spec_toc_entry(buf@, hdr.toc_off_u64 + 32 * j) is Some,
        decreases n - i,
    {
        let off = toc_off + i * 32;
        let kind_u16 = read_u16_at(buf, off);
        let kind = match SectionKind::from_u16(kind_u16) {
            Some(k) => k,
            None => {
                assert(spec_toc_entry(buf@, hdr.toc_off_u64 + 32 * i) is None);
                return None;
            },
        };
        let e = TocEntry {
            kind,
            section: Section { off: read_u64_at(buf, off + 4), len: read_u64_at(buf, off + 12) },
            crc32_u32: read_u32_at(buf, off + 20),
        };
        out.push(e);
        i = i + 1;
    }
    Some(out)
}

/// True if `section` lies entirely within a buffer of `buf_len` bytes
/// (the end is computed with saturating addition).
pub fn section_in_bounds(buf_len: usize, section: Section) -> (r: bool)
    ensures
        r == (section.off <= buf_len && spec_saturating_end(section) <= buf_len),
{
    let n = buf_len as u64;
    section.off <= n && section.off.saturating_add(section.len) <= n
}

/// `off + len`, saturated at the largest `u64`.
pub open spec fn spec_saturating_end(section: Section) -> int {
    if section.off + section.len > u64::MAX {
        u64::MAX as int
    } else {
        section.off + section.len
    }
}

// ---------------------------------------------------------------- CRC-32

/// The reflected IEEE CRC-32 polynomial.
pub open spec fn crc32_poly() -> u32 {
    0xEDB8_8320u32
}

/// One bit step of the reflected CRC register.
pub open spec fn crc_bit_step(x: u32) -> u32 {
    if x & 1 != 0 {
        (x >> 1u32) ^ crc32_poly()
    } else {
        x >> 1u32
    }
}

/// `k` bit steps of the CRC register.
pub open spec fn crc_bit_steps(x: u32, k: nat) -> u32
    decreases k,
{
    if k == 0 {
        x
    } else {
        crc_bit_step(crc_bit_steps(x, (k - 1) as nat))
    }
}

/// Feed one byte into the CRC register, bit by bit.
pub open spec fn crc_update(crc: u32, b: u8) -> u32 {
    (crc >> 8u32) ^ crc_bit_steps((crc ^ (b as u32)) & 0xff, 8)
}

/// The CRC register after feeding `data` from the initial all-ones state.
pub open spec fn crc_register(data: Seq<u8>) -> u32
    decreases data.len(),
{
    if data.len() == 0 {
        0xFFFF_FFFFu32
    } else {
        crc_update(crc_register(data.drop_last()), data.last())
    }
}

/// IEEE CRC-32 of `data` (bitwise definition).
pub open spec fn spec_crc32(data: Seq<u8>) -> u32 {
    crc_register(data) ^ 0xFFFF_FFFFu32
}

/// The 256-entry byte table: entry `i` is eight bit steps from `i`.
fn crc32_table() -> (t: Vec<u32>)
    ensures
        t@.len() == 256,
        forall|i: int| 0 <= i < 256 ==> #[trigger] t@[i] == crc_bit_steps(i as u32, 8),
{
    let mut t: Vec<u32> = Vec::with_capacity(256);
    let mut i: u32 = 0;
    while i < 256
        invariant
            i <= 256,
            t@.len() == i,
            forall|j: int| 0 <= j < i ==> #[trigger] t@[j] == crc_bit_steps(j as u32, 8),
        decreases 256 - i,
    {
        let mut crc = i;
        let mut bit: u32 = 0;
        while bit < 8
            invariant
                bit <= 8,
                crc == crc_bit_steps(i, bit as nat),
            decreases 8 - bit,
        {
            crc = if crc & 1 != 0 {
                (crc >> 1) ^ 0xEDB8_8320u32
            } else {
                crc >> 1
            };
            bit = bit + 1;
        }
        t.push(crc);
        i = i + 1;
    }
    t
}

/// Compute IEEE CRC-32 with a byte-indexed lookup table.
pub fn crc32_ieee(data: &[u8]) -> (r: u32)
    ensures
        r == spec_crc32(data@),
{
    let table = crc32_table();
    let mut crc: u32 = 0xFFFF_FFFF;
    let mut i: usize = 0;
    while i < data.len()
        invariant
            i <= data@.len(),
            table@.len() == 256,
            forall|j: int| 0 <= j < 256 ==> #[trigger] table@[j] == crc_bit_steps(j as u32, 8),
            crc == crc_register(data@.subrange(0, i as int)),
        decreases data@.len() - i,
    {
        let b = data[i];
        let idx = (crc ^ (b as u32)) & 0xFF;
        assert(idx < 256) by (bit_vector)
            requires idx == (crc ^ (b as u32)) & 0xFF;
        crc = (crc >> 8) ^ table[idx as usize];
        proof {
            let pre = data@.subrange(0, i as int + 1);
            assert(pre.drop_last() =~= data@.subrange(0, i as int));
        }
        i = i + 1;
    }
    assert(data@.subrange(0, data@.len() as int) =~= data@);
    crc ^ 0xFFFF_FFFF
}

// ---------------------------------------------------------------- footer

/// The twelve-byte end marker of an R5TU file.
pub open spec fn footer_magic() -> Seq<u8> {
    // ASCII "R5TU_ENDMARK"
    seq![0x52u8, 0x35, 0x54, 0x55, 0x5F, 0x45, 0x4E, 0x44, 0x4D, 0x41, 0x52, 0x4B]
}

/// Parse the optional 16-byte footer containing the global CRC and magic.
pub fn parse_footer(buf: &[u8]) -> (r: Option<(u32, [u8; 12])>)
    ensures
        r is Some <==> buf@.len() >= 16 && buf@.subrange(buf@.len() - 12, buf@.len() as int) == footer_magic(),
        r matches Some((crc, magic)) ==> {
            &&& crc == le_u32_at(buf@, buf@.len() - 16)
            &&& magic@ == footer_magic()
        },
{
    if buf.len() < 16 {
        return None;
    }
    let base = buf.len() - 16;
    let magic: [u8; 12] = [
        buf[base + 4], buf[base + 5], buf[base + 6], buf[base + 7],
        buf[base + 8], buf[base + 9], buf[base + 10], buf[base + 11],
        buf[base + 12], buf[base + 13], buf[base + 14], buf[base + 15],
    ];
    let expected: [u8; 12] = [0x52u8, 0x35, 0x54, 0x55, 0x5F, 0x45, 0x4E, 0x44, 0x4D, 0x41, 0x52, 0x4B];
    let mut k: usize = 0;
    while k < 12
        invariant
            k <= 12,
            magic@ =~= buf@.subrange(buf@.len() - 12, buf@.len() as int),
            expected@ =~= footer_magic(),
            forall|j: int| 0 <= j < k ==> magic@[j] == expected@[j],
        decreases 12 - k,
    {
        if magic[k] != expected[k] {
            return None;
        }
        k = k + 1;
    }
    assert(magic@ =~= footer_magic());
    let crc = read_u32_at(buf, base);
    Some((crc, magic))
}

} // verus!
