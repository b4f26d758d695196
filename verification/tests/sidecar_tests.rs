use rdf5d::header::crc32_ieee;
use rdf5d::reader::R5Error;
use rdf5d::sidecar::{parse_posting, IdxFile, IdxKind};
use rdf5d::sidecar_build::{build, gdir_crc, sidecar_bytes};
use rdf5d::reader::R5tuFile;
use rdf5d::writer::{write_file, Quint, Term};

// Term ids standing for the IRIs of the scenarios.
const S1: u64 = 10;
const S2: u64 = 11;
const S3: u64 = 12;
const P1: u64 = 20;
const P2: u64 = 21;
const O1: u64 = 30;
const O2: u64 = 31;
const O3: u64 = 32;

/// Index files for (p, gid, s, o) tuples, as the builder is fed them.
fn image(tuples: &[(u64, u32, u64, u64)]) -> Vec<u8> {
    let mut pso: Vec<(u64, u32, u64, u64)> = tuples.to_vec();
    pso.sort();
    let mut pos: Vec<(u64, u32, u64, u64)> = tuples.iter().map(|t| (t.0, t.1, t.3, t.2)).collect();
    pos.sort();
    sidecar_bytes(&pso, &pos, 123, 456, 0xdead_beef, "store.r5tu")
}

fn three_gid_tuples() -> Vec<(u64, u32, u64, u64)> {
    let mut t = Vec::new();
    for gid in 0u32..3 {
        t.push((P1, gid, S1, O1));
        t.push((P2, gid, S2, O2));
        t.push((P1, gid, S1, O3));
    }
    t
}

fn iri(s: &str) -> Term {
    Term::Iri(s.into())
}

fn quint(id: &str, s: &str, p: &str, o: &str, gname: &str) -> Quint {
    Quint { id: id.into(), s: iri(s), p: iri(p), o: iri(o), gname: gname.into() }
}

/// Write `quads`, open the image, and build its sidecar.
fn written_with_sidecar(quads: Vec<Quint>) -> (R5tuFile, IdxFile) {
    let f = R5tuFile::from_bytes(write_file(&quads).unwrap()).unwrap();
    let idx = IdxFile::from_bytes(build(&f, 0, 0, "store.r5tu").unwrap()).unwrap();
    (f, idx)
}

/// The id of the term whose display form is `display`.
fn term_id(f: &R5tuFile, display: &str) -> u64 {
    (0..f.num_terms())
        .find(|&i| f.term_to_string(i).unwrap() == display)
        .unwrap_or_else(|| panic!("missing term {display}"))
}

#[test]
fn roundtrip_small() {
    // Three gids, three predicates, with overlap.
    let mut quads = Vec::new();
    for (id, gname) in [("d1", "g1"), ("d2", "g2"), ("d3", "g3")] {
        quads.push(quint(id, "http://ex/s1", "http://ex/p1", "http://ex/o1", gname));
        quads.push(quint(id, "http://ex/s2", "http://ex/p2", "http://ex/o2", gname));
        quads.push(quint(id, "http://ex/s1", "http://ex/p1", "http://ex/o3", gname));
    }
    let (f, idx_file) = written_with_sidecar(quads);
    let p1_id = term_id(&f, "http://ex/p1");
    let post = idx_file.lookup_pso(p1_id).expect("p1 posting");
    assert_eq!(post.n_gids(), 3);
    // p1 has 2 triples per gid (s1->o1, s1->o3), x 3 gids = 6
    assert_eq!(post.iter_all().len(), 6);
    let post = idx_file.lookup_pos(p1_id).expect("p1 pos posting");
    assert_eq!(post.iter_all().len(), 6);
}

#[test]
fn sidecar_pso_pos_values_match() {
    let (f, idx_file) = written_with_sidecar(vec![
        quint("d1", "http://ex/s1", "http://ex/p1", "http://ex/o1", "g1"),
        quint("d1", "http://ex/s2", "http://ex/p1", "http://ex/o2", "g1"),
        quint("d2", "http://ex/s3", "http://ex/p1", "http://ex/o1", "g2"),
    ]);
    let p1 = term_id(&f, "http://ex/p1");
    let mut expected: Vec<(u64, u64, u64)> = Vec::new();
    for gr in f.enumerate_all().unwrap() {
        for (s, p, o) in f.triples_ids(gr.gid).unwrap().collect_all() {
            if p == p1 {
                expected.push((gr.gid, s, o));
            }
        }
    }
    expected.sort();
    assert_eq!(expected.len(), 3);
    let mut got = idx_file.lookup_pso(p1).unwrap().iter_all();
    got.sort();
    assert_eq!(expected, got);
    // POS yields (gid, o, s)
    let mut got_pos: Vec<(u64, u64, u64)> =
        idx_file.lookup_pos(p1).unwrap().iter_all().into_iter().map(|(g, a, b)| (g, b, a)).collect();
    got_pos.sort();
    assert_eq!(expected, got_pos);
}

#[test]
fn sidecar_block_for_gid_lookup() {
    let (f, idx_file) = written_with_sidecar(vec![
        quint("d1", "http://ex/s1", "http://ex/p1", "http://ex/o1", "g1"),
        quint("d2", "http://ex/s2", "http://ex/p1", "http://ex/o2", "g2"),
    ]);
    let post = idx_file.lookup_pso(term_id(&f, "http://ex/p1")).unwrap();
    let gids = post.gids();
    assert_eq!(gids, vec![0, 1]);
    for (idx, g) in gids.iter().enumerate() {
        assert_eq!(post.block_for_gid(*g), Some(idx));
    }
    assert_eq!(post.block_for_gid(99), None);
    assert_eq!(post.block_for_gid(u64::MAX), None);
}

#[test]
fn stale_detection() {
    let (f, _) = written_with_sidecar(vec![quint("d1", "http://ex/s1", "http://ex/p1", "http://ex/o1", "g1")]);
    let crc = gdir_crc(&f).unwrap();
    let idx = IdxFile::from_bytes(build(&f, 77, 1234, "store.r5tu").unwrap()).unwrap();
    assert!(idx.matches_source(1234, 77, crc));
    assert!(!idx.matches_source(1235, 77, crc));
    assert!(!idx.matches_source(1234, 78, crc));
    assert!(!idx.matches_source(1234, 77, crc ^ 1));
    // a rewritten file with other contents has another directory checksum
    let g = R5tuFile::from_bytes(
        write_file(&vec![
            quint("d1", "http://ex/s1", "http://ex/p1", "http://ex/o1", "g1"),
            quint("d1", "http://ex/s2", "http://ex/p1", "http://ex/o2", "g1"),
        ])
        .unwrap(),
    )
    .unwrap();
    assert!(!idx.matches_source(1234, 77, gdir_crc(&g).unwrap()));
}

#[test]
fn posting_blocks_decode_rows_and_runs() {
    // one predicate, two groups, repeated subjects and objects
    let tuples = vec![
        (P1, 2u32, 5, 9),
        (P1, 2, 5, 100),
        (P1, 2, 7, 1),
        (P1, 4, 1, 1),
        (P1, 4, 300, 70_000),
    ];
    let f = IdxFile::from_bytes(image(&tuples)).unwrap();
    let post = f.lookup_pso(P1).unwrap();
    assert_eq!(post.gids(), vec![2, 4]);
    assert_eq!(post.n_triples(), 5);
    let mut it = post.iter_block(0);
    assert_eq!(it.collect_all(), vec![(5, 9), (5, 100), (7, 1)]);
    let mut it = post.iter_block(1);
    assert_eq!(it.next(), Some((1, 1)));
    assert_eq!(it.next(), Some((300, 70_000)));
    assert_eq!(it.next(), None);
    assert_eq!(it.next(), None);
    // past the blocks: nothing
    assert_eq!(post.iter_block(7).collect_all(), vec![]);
    let pos = f.lookup_pos(P1).unwrap();
    assert_eq!(pos.iter_all(), vec![(2, 1, 7), (2, 9, 5), (2, 100, 5), (4, 1, 1), (4, 70_000, 300)]);
}

#[test]
fn missing_predicate_has_no_posting() {
    let f = IdxFile::from_bytes(image(&three_gid_tuples())).unwrap();
    assert!(f.lookup_pso(999).is_none());
    assert!(f.lookup_pos(0).is_none());
    let empty = IdxFile::from_bytes(image(&[])).unwrap();
    assert!(empty.lookup_pso(P1).is_none());
}

#[test]
fn header_and_sections_are_recorded() {
    let bytes = image(&three_gid_tuples());
    let f = IdxFile::from_bytes(bytes.clone()).unwrap();
    let h = f.header();
    assert_eq!(h.version, 1);
    assert_eq!(h.flags, 0);
    assert_eq!(h.src_mtime_ns, 123);
    assert_eq!(h.src_len, 456);
    assert_eq!(h.src_gdir_crc, 0xdead_beef);
    assert_eq!(h.toc_len, 2);
    assert_eq!(h.src_path, "store.r5tu");
    assert_eq!(f.bytes(), &bytes[..]);
    assert_eq!(&bytes[0..5], b"R5IDX");
    assert_eq!(&bytes[bytes.len() - 12..], b"R5IDX_ENDM\0\0");
    let n = bytes.len();
    assert_eq!(u32::from_le_bytes(bytes[n - 16..n - 12].try_into().unwrap()), crc32_ieee(&bytes[..n - 16]));
    let pso = f.section(IdxKind::Pso).unwrap();
    let pos = f.section(IdxKind::Pos).unwrap();
    assert_eq!(pso.off, 47 + "store.r5tu".len() as u64);
    assert_eq!(pos.off, pso.off + pso.len);
    assert!(f.matches_source(456, 123, 0xdead_beef));
    assert!(!f.matches_source(457, 123, 0xdead_beef));
    assert!(!f.matches_source(456, 124, 0xdead_beef));
    assert!(!f.matches_source(456, 123, 1));
}

#[test]
fn idx_kind_codes() {
    assert_eq!(IdxKind::from_u16(1), Some(IdxKind::Pso));
    assert_eq!(IdxKind::from_u16(2), Some(IdxKind::Pos));
    assert_eq!(IdxKind::from_u16(0), None);
    assert_eq!(IdxKind::from_u16(3), None);
    assert_eq!(IdxKind::Pos.as_u16(), 2);
}

#[test]
fn rejects_damaged_files() {
    match IdxFile::from_bytes(vec![0u8; 10]) {
        Err(R5Error::Corrupt(m)) => assert_eq!(m, "sidecar too short"),
        _ => panic!("expected Corrupt"),
    }
    let good = image(&three_gid_tuples());
    let mut bad_magic = good.clone();
    bad_magic[0] = b'X';
    match IdxFile::from_bytes(bad_magic) {
        Err(R5Error::Invalid(m)) => assert_eq!(m, "bad sidecar magic"),
        _ => panic!("expected Invalid"),
    }
    let mut bad_version = good.clone();
    bad_version[5] = 9;
    match IdxFile::from_bytes(bad_version) {
        Err(R5Error::Invalid(m)) => assert_eq!(m, "unsupported sidecar version"),
        _ => panic!("expected Invalid"),
    }
    let mut bad_path = good.clone();
    bad_path[9] = 0xff;
    bad_path[10] = 0xff;
    match IdxFile::from_bytes(bad_path) {
        Err(R5Error::Corrupt(m)) => assert_eq!(m, "sidecar src path OOB"),
        _ => panic!("expected Corrupt"),
    }
    let mut bad_end = good.clone();
    let n = bad_end.len();
    bad_end[n - 1] = 1;
    match IdxFile::from_bytes(bad_end) {
        Err(R5Error::Invalid(m)) => assert_eq!(m, "bad sidecar footer magic"),
        _ => panic!("expected Invalid"),
    }
    let mut bad_crc = good.clone();
    bad_crc[60] ^= 0x40;
    match IdxFile::from_bytes(bad_crc) {
        Err(R5Error::Corrupt(m)) => assert_eq!(m, "sidecar global CRC mismatch"),
        _ => panic!("expected Corrupt"),
    }
}

#[test]
fn parse_posting_rejects_short_payloads() {
    assert!(parse_posting(&[]).is_none());
    assert!(parse_posting(&[1, 0, 0]).is_none());
    // zero groups: header, two heads, the row count and one head pair, then the pair count
    let mut p = Vec::new();
    p.extend_from_slice(&0u32.to_le_bytes());
    p.extend_from_slice(&0u32.to_le_bytes());
    p.extend_from_slice(&0u32.to_le_bytes());
    p.extend_from_slice(&0u32.to_le_bytes());
    assert!(parse_posting(&p).is_none());
    p.extend_from_slice(&0u32.to_le_bytes());
    p.extend_from_slice(&0u32.to_le_bytes());
    p.extend_from_slice(&0u32.to_le_bytes());
    let post = parse_posting(&p).unwrap();
    assert_eq!(post.n_gids(), 0);
    assert_eq!(post.n_triples(), 0);
    assert_eq!(post.iter_all(), vec![]);
}

#[test]
fn sidecar_lookup_gives_exactly_each_predicates_tuples() {
    let tuples = vec![(P2, 1u32, S3, O1), (P1, 0, S1, O2), (P2, 0, S1, O3), (P1, 2, S2, O1), (P2, 0, S1, O1)];
    let f = IdxFile::from_bytes(image(&tuples)).unwrap();
    for p in [P1, P2] {
        let mut want: Vec<(u64, u64, u64)> =
            tuples.iter().filter(|t| t.0 == p).map(|t| (t.1 as u64, t.2, t.3)).collect();
        want.sort();
        assert_eq!(f.lookup_pso(p).unwrap().iter_all(), want);
        let mut want_pos: Vec<(u64, u64, u64)> =
            tuples.iter().filter(|t| t.0 == p).map(|t| (t.1 as u64, t.3, t.2)).collect();
        want_pos.sort();
        assert_eq!(f.lookup_pos(p).unwrap().iter_all(), want_pos);
    }
    assert!(f.lookup_pso(S1).is_none());
    assert!(f.lookup_pos(O1).is_none());
}
