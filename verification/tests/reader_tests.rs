use rdf5d::header::{Section, SectionKind};
use rdf5d::reader::{Dict, R5Error, R5tuFile, TermDict};
use rdf5d::varint::{push_uvarint, read_uvarint};

#[test]
fn rejects_short_or_bad_magic() {
    let err = R5tuFile::from_bytes(b"NOPE".to_vec()).err().unwrap();
    match err {
        R5Error::Invalid(_) => {}
        _ => panic!("expected Invalid"),
    }
    let mut bad = vec![0u8; 40];
    bad[0..4].copy_from_slice(b"R5TX");
    match R5tuFile::from_bytes(bad).err().unwrap() {
        R5Error::Invalid(m) => assert_eq!(m, "bad magic"),
        _ => panic!("expected Invalid"),
    }
}

#[test]
fn uvarint_roundtrip_and_bounds() {
    let mut buf = Vec::new();
    for &n in &[
        0,
        1,
        127,
        128,
        255,
        16384,
        u32::MAX as u64,
        u64::from(u32::MAX) + 12345,
    ] {
        buf.clear();
        push_uvarint(n, &mut buf);
        let (v, off) = read_uvarint(&buf, 0).unwrap();
        assert_eq!(v, n);
        assert_eq!(off, buf.len());
    }
    assert!(read_uvarint(&[], 0).is_none());
}

#[test]
fn uvarint_exact_encodings() {
    let mut buf = Vec::new();
    push_uvarint(300, &mut buf);
    assert_eq!(buf, vec![0xAC, 0x02]);
    buf.clear();
    push_uvarint(u64::MAX, &mut buf);
    assert_eq!(buf.len(), 10);
    assert_eq!(read_uvarint(&buf, 0), Some((u64::MAX, 10)));
    // eleven continuation bytes never terminate within ten
    let long = vec![0x80u8; 11];
    assert!(read_uvarint(&long, 0).is_none());
    // a read past the end of a truncated varint
    assert!(read_uvarint(&[0x80u8], 0).is_none());
}

#[test]
fn dict_parse_and_lookup() {
    // Build a minimal dict section inline: entries ["A", "B"]
    let mut file = vec![0u8; 0];
    let sec_off = file.len();
    file.resize(file.len() + 52, 0); // dict header
    let blob_off = file.len();
    file.extend_from_slice(b"AB");
    let offs_off = file.len();
    for n in [0u32, 1, 2] {
        file.extend_from_slice(&n.to_le_bytes());
    }
    let n = 2u32;
    file[sec_off..sec_off + 4].copy_from_slice(&n.to_le_bytes());
    let blob_off_u64 = (blob_off as u64).to_le_bytes();
    let blob_len_u64 = (2u64).to_le_bytes();
    let offs_off_u64 = (offs_off as u64).to_le_bytes();
    let offs_len_u64 = (12u64).to_le_bytes();
    file[sec_off + 4..sec_off + 12].copy_from_slice(&blob_off_u64);
    file[sec_off + 12..sec_off + 20].copy_from_slice(&blob_len_u64);
    file[sec_off + 20..sec_off + 28].copy_from_slice(&offs_off_u64);
    file[sec_off + 28..sec_off + 36].copy_from_slice(&offs_len_u64);

    let dict = Dict::parse(
        &file,
        Section {
            off: sec_off as u64,
            len: (file.len() - sec_off) as u64,
        },
    )
    .unwrap();
    assert_eq!(dict.get(&file, 0).unwrap().unwrap(), "A");
    assert_eq!(dict.get(&file, 1).unwrap().unwrap(), "B");
    assert_eq!(dict.find_id(&file, "A").unwrap(), Some(0));
    assert_eq!(dict.find_id(&file, "B").unwrap(), Some(1));
    assert_eq!(dict.find_id(&file, "Z").unwrap(), None);
}

#[test]
fn dict_get_past_end_and_out_of_bounds() {
    let mut file = vec![0u8; 52];
    file.extend_from_slice(b"A");
    for n in [0u32, 1] {
        file.extend_from_slice(&n.to_le_bytes());
    }
    file[0..4].copy_from_slice(&1u32.to_le_bytes());
    file[4..12].copy_from_slice(&52u64.to_le_bytes());
    file[12..20].copy_from_slice(&1u64.to_le_bytes());
    file[20..28].copy_from_slice(&53u64.to_le_bytes());
    file[28..36].copy_from_slice(&8u64.to_le_bytes());
    let sec = Section { off: 0, len: file.len() as u64 };
    let dict = Dict::parse(&file, sec).unwrap();
    assert_eq!(dict.get(&file, 1).unwrap(), None);
    // the offsets point past the blob end: reported as corrupt
    let mut bad = file.clone();
    bad[57..61].copy_from_slice(&100u32.to_le_bytes());
    match dict.get(&bad, 0) {
        Err(R5Error::Corrupt(_)) => {}
        _ => panic!("expected Corrupt"),
    }
    // a header that does not fit
    match Dict::parse(&file[..40], Section { off: 0, len: 40 }) {
        Err(R5Error::Corrupt(m)) => assert_eq!(m, "short dict header"),
        _ => panic!("expected Corrupt"),
    }
}

#[test]
fn term_dict_decode() {
    let mut file = vec![0u8; 0];
    let sec_off = file.len();
    file.resize(file.len() + 33, 0); // term dict header
    let kinds_off = file.len();
    file.extend_from_slice(&[0u8, 2, 2]);
    let data_off = file.len();
    let iri_bytes = b"http://ex/s";
    file.extend_from_slice(iri_bytes);
    let mut lit1 = Vec::new();
    push_uvarint(2, &mut lit1);
    lit1.extend_from_slice(b"42");
    lit1.push(1);
    push_uvarint(11, &mut lit1);
    lit1.extend_from_slice(b"http://ex/i");
    lit1.push(0);
    file.extend_from_slice(&lit1);
    let mut lit2 = Vec::new();
    push_uvarint(2, &mut lit2);
    lit2.extend_from_slice(b"en");
    lit2.push(0);
    lit2.push(1);
    push_uvarint(2, &mut lit2);
    lit2.extend_from_slice(b"en");
    file.extend_from_slice(&lit2);
    let offs_off = file.len();
    let mut cur = 0u64;
    let sizes = [iri_bytes.len() as u64, lit1.len() as u64, lit2.len() as u64];
    file.extend_from_slice(&cur.to_le_bytes());
    cur += sizes[0];
    file.extend_from_slice(&cur.to_le_bytes());
    cur += sizes[1];
    file.extend_from_slice(&cur.to_le_bytes());
    cur += sizes[2];
    file.extend_from_slice(&cur.to_le_bytes());
    file[sec_off] = 0;
    let n_terms = (3u64).to_le_bytes();
    file[sec_off + 1..sec_off + 9].copy_from_slice(&n_terms);
    file[sec_off + 9..sec_off + 17].copy_from_slice(&(kinds_off as u64).to_le_bytes());
    file[sec_off + 17..sec_off + 25].copy_from_slice(&(data_off as u64).to_le_bytes());
    file[sec_off + 25..sec_off + 33].copy_from_slice(&(offs_off as u64).to_le_bytes());

    let td = TermDict::parse(
        &file,
        Section {
            off: sec_off as u64,
            len: (file.len() - sec_off) as u64,
        },
    )
    .unwrap();
    assert_eq!(td.term_to_string(&file, 0).unwrap(), "http://ex/s");
    assert_eq!(td.term_to_string(&file, 1).unwrap(), "\"42\"^^<http://ex/i>");
    assert_eq!(td.term_to_string(&file, 2).unwrap(), "\"en\"@en");
    match td.term_to_string(&file, 3) {
        Err(R5Error::Invalid(m)) => assert_eq!(m, "term id out of range"),
        _ => panic!("expected Invalid"),
    }
}

struct Built {
    bytes: Vec<u8>,
}

fn minimal_file() -> Built {
    let mut f = vec![0u8; 32];
    let mut toc_entries: Vec<(SectionKind, u64, u64)> = Vec::new();
    let mut add_sec = |kind: SectionKind, off: usize, len: usize| {
        toc_entries.push((kind, off as u64, len as u64));
    };
    let id_sec_off = f.len();
    f.resize(f.len() + 52, 0);
    let id_blob_off = f.len();
    f.extend_from_slice(b"A");
    let id_offs_off = f.len();
    for n in [0u32, 1] {
        f.extend_from_slice(&n.to_le_bytes());
    }
    f[id_sec_off..id_sec_off + 4].copy_from_slice(&1u32.to_le_bytes());
    f[id_sec_off + 4..id_sec_off + 12].copy_from_slice(&(id_blob_off as u64).to_le_bytes());
    f[id_sec_off + 12..id_sec_off + 20].copy_from_slice(&(1u64).to_le_bytes());
    f[id_sec_off + 20..id_sec_off + 28].copy_from_slice(&(id_offs_off as u64).to_le_bytes());
    f[id_sec_off + 28..id_sec_off + 36].copy_from_slice(&(8u64).to_le_bytes());
    add_sec(SectionKind::IdDict, id_sec_off, f.len() - id_sec_off);

    let gn_sec_off = f.len();
    f.resize(f.len() + 52, 0);
    let gn_blob_off = f.len();
    f.extend_from_slice(b"g");
    let gn_offs_off = f.len();
    for n in [0u32, 1] {
        f.extend_from_slice(&n.to_le_bytes());
    }
    f[gn_sec_off..gn_sec_off + 4].copy_from_slice(&1u32.to_le_bytes());
    f[gn_sec_off + 4..gn_sec_off + 12].copy_from_slice(&(gn_blob_off as u64).to_le_bytes());
    f[gn_sec_off + 12..gn_sec_off + 20].copy_from_slice(&(1u64).to_le_bytes());
    f[gn_sec_off + 20..gn_sec_off + 28].copy_from_slice(&(gn_offs_off as u64).to_le_bytes());
    f[gn_sec_off + 28..gn_sec_off + 36].copy_from_slice(&(8u64).to_le_bytes());
    add_sec(SectionKind::GNameDict, gn_sec_off, f.len() - gn_sec_off);

    let td_sec_off = f.len();
    f.resize(f.len() + 33, 0);
    let kinds_off = f.len();
    let data_off = f.len();
    let offs_off = f.len();
    f.extend_from_slice(&0u64.to_le_bytes());
    f[td_sec_off] = 0;
    f[td_sec_off + 1..td_sec_off + 9].copy_from_slice(&0u64.to_le_bytes());
    f[td_sec_off + 9..td_sec_off + 17].copy_from_slice(&(kinds_off as u64).to_le_bytes());
    f[td_sec_off + 17..td_sec_off + 25].copy_from_slice(&(data_off as u64).to_le_bytes());
    f[td_sec_off + 25..td_sec_off + 33].copy_from_slice(&(offs_off as u64).to_le_bytes());
    add_sec(SectionKind::TermDict, td_sec_off, f.len() - td_sec_off);

    let tb_sec_off = f.len();
    let block_off = f.len();
    let mut raw = Vec::new();
    push_uvarint(1, &mut raw);
    push_uvarint(2, &mut raw);
    push_uvarint(2, &mut raw);
    push_uvarint(1, &mut raw);
    push_uvarint(0, &mut raw);
    push_uvarint(2, &mut raw);
    push_uvarint(2, &mut raw);
    push_uvarint(2, &mut raw);
    push_uvarint(0, &mut raw);
    push_uvarint(1, &mut raw);
    push_uvarint(2, &mut raw);
    push_uvarint(3, &mut raw);
    push_uvarint(5, &mut raw);
    f.push(0u8);
    let raw_len = raw.len() as u32;
    f.extend_from_slice(&raw_len.to_le_bytes());
    f.extend_from_slice(&raw);
    let block_len = f.len() - block_off;
    add_sec(SectionKind::TripleBlocks, tb_sec_off, f.len() - tb_sec_off);

    let gdir_sec_off = f.len();
    f.extend_from_slice(&1u64.to_le_bytes());
    f.extend_from_slice(&56u32.to_le_bytes());
    f.extend_from_slice(&0u32.to_le_bytes());
    f.extend_from_slice(&0u32.to_le_bytes());
    f.extend_from_slice(&0u32.to_le_bytes());
    f.extend_from_slice(&(block_off as u64).to_le_bytes());
    f.extend_from_slice(&(block_len as u64).to_le_bytes());
    f.extend_from_slice(&2u64.to_le_bytes());
    f.extend_from_slice(&1u32.to_le_bytes());
    f.extend_from_slice(&2u32.to_le_bytes());
    f.extend_from_slice(&2u32.to_le_bytes());
    add_sec(SectionKind::GDir, gdir_sec_off, f.len() - gdir_sec_off);

    let ididx_sec_off = f.len();
    let ididx_hdr_off = ididx_sec_off;
    f.resize(f.len() + 24, 0);
    let ididx_offs_off = f.len();
    for n in [0u64, 2u64] {
        f.extend_from_slice(&n.to_le_bytes());
    }
    let ididx_blob_off = f.len();
    let mut tmp = Vec::new();
    push_uvarint(1, &mut tmp);
    push_uvarint(0, &mut tmp);
    f.extend_from_slice(&tmp);
    f[ididx_hdr_off..ididx_hdr_off + 8].copy_from_slice(&1u64.to_le_bytes());
    f[ididx_hdr_off + 8..ididx_hdr_off + 16].copy_from_slice(&(ididx_offs_off as u64).to_le_bytes());
    f[ididx_hdr_off + 16..ididx_hdr_off + 24].copy_from_slice(&(ididx_blob_off as u64).to_le_bytes());
    add_sec(SectionKind::IdxId2Gid, ididx_sec_off, f.len() - ididx_sec_off);

    let gnidx_sec_off = f.len();
    let gnidx_hdr_off = gnidx_sec_off;
    f.resize(f.len() + 24, 0);
    let gnidx_offs_off = f.len();
    for n in [0u64, 2u64] {
        f.extend_from_slice(&n.to_le_bytes());
    }
    let gnidx_blob_off = f.len();
    let mut tmp2 = Vec::new();
    push_uvarint(1, &mut tmp2);
    push_uvarint(0, &mut tmp2);
    f.extend_from_slice(&tmp2);
    f[gnidx_hdr_off..gnidx_hdr_off + 8].copy_from_slice(&1u64.to_le_bytes());
    f[gnidx_hdr_off + 8..gnidx_hdr_off + 16].copy_from_slice(&(gnidx_offs_off as u64).to_le_bytes());
    f[gnidx_hdr_off + 16..gnidx_hdr_off + 24].copy_from_slice(&(gnidx_blob_off as u64).to_le_bytes());
    add_sec(SectionKind::IdxGName2Gid, gnidx_sec_off, f.len() - gnidx_sec_off);

    let pairidx_sec_off = f.len();
    let pairs_off = f.len() + 16;
    f.extend_from_slice(&1u64.to_le_bytes());
    f.extend_from_slice(&(pairs_off as u64).to_le_bytes());
    f.extend_from_slice(&0u32.to_le_bytes());
    f.extend_from_slice(&0u32.to_le_bytes());
    f.extend_from_slice(&0u64.to_le_bytes());
    add_sec(SectionKind::IdxPair2Gid, pairidx_sec_off, f.len() - pairidx_sec_off);

    let toc_off = f.len();
    for (kind, off, len) in &toc_entries {
        let mut ent = [0u8; 32];
        let kind_u16 = kind.as_u16();
        ent[0..2].copy_from_slice(&kind_u16.to_le_bytes());
        ent[4..12].copy_from_slice(&off.to_le_bytes());
        ent[12..20].copy_from_slice(&len.to_le_bytes());
        f.extend_from_slice(&ent);
    }
    f[0..4].copy_from_slice(b"R5TU");
    f[4..6].copy_from_slice(&1u16.to_le_bytes());
    f[6..8].copy_from_slice(&0u16.to_le_bytes());
    f[8..16].copy_from_slice(&0u64.to_le_bytes());
    f[16..24].copy_from_slice(&(toc_off as u64).to_le_bytes());
    f[24..28].copy_from_slice(&(toc_entries.len() as u32).to_le_bytes());
    f[28..32].copy_from_slice(&0u32.to_le_bytes());
    Built { bytes: f }
}

#[test]
fn end_to_end_minimal_file() {
    let f = minimal_file().bytes;
    let reader = R5tuFile::from_bytes(f).unwrap();
    let v = reader.enumerate_by_id("A").unwrap();
    assert_eq!(v.len(), 1);
    assert_eq!(v[0].id, "A");
    assert_eq!(v[0].graphname, "g");
    assert_eq!(v[0].n_triples, 2);
    let w = reader.enumerate_by_graphname("g").unwrap();
    assert_eq!(w.len(), 1);
    assert_eq!(w[0].id, "A");
    let gr = reader.resolve_gid("A", "g").unwrap().unwrap();
    assert_eq!(gr.gid, 0);
    let triples: Vec<_> = reader.triples_ids(gr.gid).unwrap().collect_all();
    assert_eq!(triples, vec![(1, 2, 3), (1, 4, 5)]);
}

#[test]
fn minimal_file_lookups_that_miss() {
    let f = minimal_file().bytes;
    let reader = R5tuFile::from_bytes(f).unwrap();
    assert!(reader.enumerate_by_id("B").unwrap().is_empty());
    assert!(reader.enumerate_by_graphname("h").unwrap().is_empty());
    assert!(reader.resolve_gid("A", "h").unwrap().is_none());
    assert!(reader.resolve_gid("Z", "g").unwrap().is_none());
    match reader.triples_ids(1) {
        Err(R5Error::Invalid(m)) => assert_eq!(m, "gid out of range"),
        _ => panic!("expected Invalid"),
    }
    let all = reader.enumerate_all().unwrap();
    assert_eq!(all.len(), 1);
    assert_eq!(all[0].graphname, "g");
    assert_eq!(reader.toc().len(), 8);
    assert_eq!(reader.header().toc_len_u32, 8);
    assert!(reader.section(SectionKind::GDir).is_some());
    match reader.term_to_string(0) {
        Err(R5Error::Invalid(_)) => {}
        _ => panic!("expected Invalid"),
    }
}

#[test]
fn global_crc_is_checked_when_footer_present() {
    let mut f = minimal_file().bytes;
    let crc = rdf5d::header::crc32_ieee(&f);
    f.extend_from_slice(&crc.to_le_bytes());
    f.extend_from_slice(b"R5TU_ENDMARK");
    assert!(R5tuFile::from_bytes(f.clone()).is_ok());
    let n = f.len();
    f[n - 16] ^= 1;
    match R5tuFile::from_bytes(f).err().unwrap() {
        R5Error::Corrupt(m) => assert_eq!(m, "global CRC mismatch"),
        _ => panic!("expected Corrupt"),
    }
}

#[test]
fn missing_sections_are_invalid() {
    let mut f = vec![0u8; 32];
    f[0..4].copy_from_slice(b"R5TU");
    f[16..24].copy_from_slice(&32u64.to_le_bytes());
    match R5tuFile::from_bytes(f).err().unwrap() {
        R5Error::Invalid(m) => assert_eq!(m, "missing required section"),
        _ => panic!("expected Invalid"),
    }
}

#[test]
fn rejects_overlapping_toc_sections() {
    let mut f = vec![0u8; 32];
    let s1_off = f.len();
    f.extend_from_slice(&[0u8; 100]);
    let s2_off = s1_off + 50;
    f.extend_from_slice(&[0u8; 20]);
    let toc_off = f.len();
    let mut ent1 = [0u8; 32];
    ent1[0..2].copy_from_slice(&(SectionKind::IdDict.as_u16()).to_le_bytes());
    ent1[4..12].copy_from_slice(&(s1_off as u64).to_le_bytes());
    ent1[12..20].copy_from_slice(&(100u64).to_le_bytes());
    let mut ent2 = [0u8; 32];
    ent2[0..2].copy_from_slice(&(SectionKind::GNameDict.as_u16()).to_le_bytes());
    ent2[4..12].copy_from_slice(&(s2_off as u64).to_le_bytes());
    ent2[12..20].copy_from_slice(&(20u64).to_le_bytes());
    f.extend_from_slice(&ent1);
    f.extend_from_slice(&ent2);
    f[0..4].copy_from_slice(b"R5TU");
    f[4..6].copy_from_slice(&1u16.to_le_bytes());
    f[6..8].copy_from_slice(&0u16.to_le_bytes());
    f[8..16].copy_from_slice(&0u64.to_le_bytes());
    f[16..24].copy_from_slice(&(toc_off as u64).to_le_bytes());
    f[24..28].copy_from_slice(&(2u32).to_le_bytes());
    f[28..32].copy_from_slice(&0u32.to_le_bytes());
    let err = R5tuFile::from_bytes(f).err().unwrap();
    match err {
        R5Error::Corrupt(m) => assert!(m.contains("overlap")),
        _ => panic!("expected Corrupt overlap"),
    }
}

#[test]
fn decode_raw_payload_rejects_bad_heads() {
    // nS=1, nP=1, nT=1, S=[5], S_heads=[0,2] (last != nP)
    let mut raw = Vec::new();
    for v in [1u64, 1, 1, 5, 0, 2] {
        push_uvarint(v, &mut raw);
    }
    match rdf5d::triples::decode_raw_payload(&raw) {
        Err(R5Error::Corrupt(m)) => assert_eq!(m, "S_heads last != nP"),
        _ => panic!("expected Corrupt"),
    }
}
