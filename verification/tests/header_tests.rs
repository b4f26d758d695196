use rdf5d::header::{
    crc32_ieee, parse_footer, parse_toc, section_in_bounds, Header, Section, SectionKind,
};

fn crc32_bitwise(data: &[u8]) -> u32 {
    let mut crc: u32 = 0xFFFF_FFFF;
    for &b in data {
        let mut x = (crc ^ (b as u32)) & 0xFF;
        for _ in 0..8 {
            let lsb = x & 1;
            x >>= 1;
            if lsb != 0 {
                x ^= 0xEDB88320;
            }
        }
        crc = (crc >> 8) ^ x;
    }
    crc ^ 0xFFFF_FFFF
}

#[test]
fn matches_reference_vectors() {
    assert_eq!(crc32_ieee(b""), 0);
    assert_eq!(crc32_ieee(b"123456789"), 0xCBF4_3926);
    assert_eq!(
        crc32_ieee(b"The quick brown fox jumps over the lazy dog"),
        0x414F_A339
    );
}

#[test]
fn matches_bitwise_implementation_for_all_lengths() {
    let data: Vec<u8> = (0..4096u32)
        .map(|i| (i.wrapping_mul(2654435761) >> 13) as u8)
        .collect();
    for len in 0..64 {
        assert_eq!(
            crc32_ieee(&data[..len]),
            crc32_bitwise(&data[..len]),
            "len {len}"
        );
    }
    for len in [65, 100, 1000, 4095, 4096] {
        assert_eq!(
            crc32_ieee(&data[..len]),
            crc32_bitwise(&data[..len]),
            "len {len}"
        );
    }
}

#[test]
fn section_kind_codes_roundtrip() {
    for v in 1u16..=8 {
        let k = SectionKind::from_u16(v).unwrap();
        assert_eq!(k.as_u16(), v);
    }
    assert!(SectionKind::from_u16(0).is_none());
    assert!(SectionKind::from_u16(9).is_none());
    assert_eq!(SectionKind::from_u16(1), Some(SectionKind::TermDict));
    assert_eq!(SectionKind::from_u16(8), Some(SectionKind::TripleBlocks));
}

#[test]
fn header_parse_reads_little_endian_fields() {
    let mut b = vec![0u8; 32];
    b[0..4].copy_from_slice(b"R5TU");
    b[4..6].copy_from_slice(&1u16.to_le_bytes());
    b[6..8].copy_from_slice(&2u16.to_le_bytes());
    b[8..16].copy_from_slice(&77u64.to_le_bytes());
    b[16..24].copy_from_slice(&1234u64.to_le_bytes());
    b[24..28].copy_from_slice(&8u32.to_le_bytes());
    b[28..32].copy_from_slice(&9u32.to_le_bytes());
    let h = Header::parse(&b).unwrap();
    assert_eq!(&h.magic, b"R5TU");
    assert_eq!(h.version_u16, 1);
    assert_eq!(h.flags_u16, 2);
    assert_eq!(h.created_unix64, 77);
    assert_eq!(h.toc_off_u64, 1234);
    assert_eq!(h.toc_len_u32, 8);
    assert_eq!(h.reserved_u32, 9);
    assert!(Header::parse(&b[..31]).is_none());
}

#[test]
fn toc_parse_bounds_and_kinds() {
    let mut b = vec![0u8; 32];
    let mut ent = [0u8; 32];
    ent[0..2].copy_from_slice(&4u16.to_le_bytes());
    ent[4..12].copy_from_slice(&10u64.to_le_bytes());
    ent[12..20].copy_from_slice(&20u64.to_le_bytes());
    ent[20..24].copy_from_slice(&0xABCDu32.to_le_bytes());
    b.extend_from_slice(&ent);
    b[16..24].copy_from_slice(&32u64.to_le_bytes());
    b[24..28].copy_from_slice(&1u32.to_le_bytes());
    let h = Header::parse(&b).unwrap();
    let toc = parse_toc(&b, &h).unwrap();
    assert_eq!(toc.len(), 1);
    assert_eq!(toc[0].kind, SectionKind::GDir);
    assert_eq!(toc[0].section.off, 10);
    assert_eq!(toc[0].section.len, 20);
    assert_eq!(toc[0].crc32_u32, 0xABCD);
    // unknown kind
    b[32] = 99;
    assert!(parse_toc(&b, &h).is_none());
    // out of bounds
    b[24..28].copy_from_slice(&2u32.to_le_bytes());
    let h2 = Header::parse(&b).unwrap();
    assert!(parse_toc(&b, &h2).is_none());
}

#[test]
fn section_bounds() {
    assert!(section_in_bounds(10, Section { off: 0, len: 10 }));
    assert!(section_in_bounds(10, Section { off: 10, len: 0 }));
    assert!(!section_in_bounds(10, Section { off: 5, len: 6 }));
    assert!(!section_in_bounds(10, Section { off: 11, len: 0 }));
    assert!(!section_in_bounds(10, Section { off: 1, len: u64::MAX }));
}

#[test]
fn footer_requires_end_marker() {
    let mut b = vec![1u8, 2, 3];
    b.extend_from_slice(&0xDEADBEEFu32.to_le_bytes());
    b.extend_from_slice(b"R5TU_ENDMARK");
    let (crc, magic) = parse_footer(&b).unwrap();
    assert_eq!(crc, 0xDEADBEEF);
    assert_eq!(&magic, b"R5TU_ENDMARK");
    let n = b.len();
    b[n - 1] = b'X';
    assert!(parse_footer(&b).is_none());
    assert!(parse_footer(&b[..10]).is_none());
}
