use rdf5d::runs::{decode_run, encode_run};
use rdf5d::header::{parse_footer, parse_toc, Header, SectionKind};
use rdf5d::reader::{R5Error, R5tuFile};
use rdf5d::sections::write_group_block;
use rdf5d::triples::{build_raw_spo, decode_raw_payload};
use rdf5d::writer::{
    resolve_chunk_quads, write_file, write_file_with_options, Quint, SpillPolicy,
    StreamingWriter, StreamingWriterOptions, Term, WriterOptions,
};

fn quint(id: &str, s: &str, p: &str, o: Term, g: &str) -> Quint {
    Quint {
        id: id.to_string(),
        s: Term::Iri(s.to_string()),
        p: Term::Iri(p.to_string()),
        o,
        gname: g.to_string(),
    }
}

fn sample() -> Vec<Quint> {
    vec![
        quint("dataset:1", "http://ex/b", "http://ex/p", Term::Iri("http://ex/o".into()), "http://ex/g"),
        quint(
            "dataset:1",
            "http://ex/a",
            "http://ex/p",
            Term::Literal { lex: "Alice".into(), dt: None, lang: Some("en".into()) },
            "http://ex/g",
        ),
        quint(
            "dataset:2",
            "http://ex/a",
            "http://ex/q",
            Term::Literal { lex: "42".into(), dt: Some("http://www.w3.org/2001/XMLSchema#integer".into()), lang: None },
            "http://ex/h",
        ),
    ]
}

#[test]
fn written_file_has_header_toc_and_footer() {
    let bytes = write_file(&sample()).unwrap();
    assert_eq!(&bytes[0..4], b"R5TU");
    assert_eq!(u16::from_le_bytes([bytes[4], bytes[5]]), 1);
    assert_eq!(u16::from_le_bytes([bytes[6], bytes[7]]), 0);
    let toc_len = u32::from_le_bytes([bytes[24], bytes[25], bytes[26], bytes[27]]);
    assert_eq!(toc_len, 8);
    let (crc, magic) = parse_footer(&bytes).unwrap();
    assert_eq!(&magic, b"R5TU_ENDMARK");
    assert_eq!(crc, rdf5d::header::crc32_ieee(&bytes[..bytes.len() - 16]));
}

fn toc_of(bytes: &[u8]) -> Vec<rdf5d::header::TocEntry> {
    let h = Header::parse(bytes).unwrap();
    parse_toc(bytes, &h).unwrap()
}

#[test]
fn written_file_toc_lists_sections_with_crcs() {
    let bytes = write_file(&sample()).unwrap();
    let toc = toc_of(&bytes);
    let kinds: Vec<SectionKind> = toc.iter().map(|e| e.kind).collect();
    assert_eq!(
        kinds,
        vec![
            SectionKind::IdDict,
            SectionKind::GNameDict,
            SectionKind::TermDict,
            SectionKind::TripleBlocks,
            SectionKind::GDir,
            SectionKind::IdxId2Gid,
            SectionKind::IdxGName2Gid,
            SectionKind::IdxPair2Gid,
        ]
    );
    assert!(toc.iter().all(|e| e.crc32_u32 != 0));
    for e in &toc {
        let s = e.section;
        let slice = &bytes[s.off as usize..(s.off + s.len) as usize];
        assert_eq!(e.crc32_u32, rdf5d::header::crc32_ieee(slice));
    }
}

#[test]
fn crc_off_leaves_toc_crcs_zero() {
    let bytes = write_file_with_options(&sample(), WriterOptions { zstd: false, with_crc: false }).unwrap();
    assert!(toc_of(&bytes).iter().all(|e| e.crc32_u32 == 0));
}

#[test]
fn zstd_flag_is_recorded() {
    let bytes = write_file_with_options(&sample(), WriterOptions { zstd: true, with_crc: true }).unwrap();
    assert_eq!(u16::from_le_bytes([bytes[6], bytes[7]]), 2);
    assert_eq!(toc_of(&bytes).len(), 8);
}

#[test]
fn empty_input_writes_valid_file() {
    let bytes = write_file(&Vec::new()).unwrap();
    let f = R5tuFile::from_bytes(bytes).unwrap();
    assert_eq!(f.toc().len(), 8);
}

#[test]
fn streaming_matches_batch() {
    let quads = sample();
    let batch = write_file(&quads).unwrap();
    let mut w = StreamingWriter::with_chunk_capacity(WriterOptions { zstd: false, with_crc: true }, 0, 1);
    for q in quads.iter().cloned() {
        w.add(q).unwrap();
    }
    let stats = w.stats();
    assert_eq!(stats.total_quads, 3);
    assert_eq!(stats.run_count, 3);
    assert_eq!(stats.temp_bytes_written, 96);
    assert_eq!(stats.max_pending_quads, 1);
    let (streamed, st) = w.finalize_with_stats().unwrap();
    assert_eq!(st.total_quads, 3);
    assert_eq!(streamed, batch);
}

#[test]
fn streaming_without_spill_matches_batch() {
    let quads = sample();
    let batch = write_file(&quads).unwrap();
    let mut w = StreamingWriter::new(WriterOptions { zstd: false, with_crc: true });
    for q in quads.iter().cloned() {
        w.add(q).unwrap();
    }
    assert_eq!(w.stats().run_count, 0);
    assert_eq!(w.stats().max_pending_quads, 3);
    assert_eq!(w.finalize().unwrap(), batch);
}

#[test]
fn chunk_sizes_follow_policy() {
    assert_eq!(resolve_chunk_quads(SpillPolicy::Auto, 0), 65536);
    assert_eq!(resolve_chunk_quads(SpillPolicy::Auto, 10), 1024);
    assert_eq!(resolve_chunk_quads(SpillPolicy::Auto, 5000), 5000);
    assert_eq!(resolve_chunk_quads(SpillPolicy::Auto, 1_000_000), 65536);
    assert_eq!(resolve_chunk_quads(SpillPolicy::MaxPendingQuads(0), 0), 1);
    assert_eq!(resolve_chunk_quads(SpillPolicy::MaxPendingQuads(7), 0), 7);
    assert_eq!(resolve_chunk_quads(SpillPolicy::TargetPendingBytes(3200), 0), 100);
    assert_eq!(resolve_chunk_quads(SpillPolicy::TargetPendingBytes(10), 0), 1);
    assert_eq!(resolve_chunk_quads(SpillPolicy::TargetPendingBytes(usize::MAX), 0), 262144);
    let o = StreamingWriterOptions::from_writer_options(WriterOptions { zstd: true, with_crc: false });
    assert_eq!(o.spill_policy, SpillPolicy::Auto);
    assert!(o.writer.zstd);
}

#[test]
fn triple_block_roundtrip() {
    let triples = vec![(1u64, 2u64, 3u64), (1, 2, 7), (1, 4, 5), (9, 0, 0), (9, 0, 1)];
    let raw = build_raw_spo(&triples).unwrap();
    assert_eq!(raw.n_s, 2);
    assert_eq!(raw.n_p, 3);
    assert_eq!(raw.n_t, 5);
    let mut it = decode_raw_payload(&raw.raw).unwrap();
    assert_eq!(it.collect_all(), triples);
}

#[test]
fn unsorted_triples_are_rejected() {
    let triples = vec![(2u64, 0u64, 0u64), (1, 0, 0)];
    match build_raw_spo(&triples) {
        Err(R5Error::Corrupt(_)) => {}
        _ => panic!("expected Corrupt"),
    }
}

#[test]
fn raw_block_exact_bytes() {
    let triples = vec![(1u64, 2u64, 3u64), (1, 4, 5)];
    let raw = build_raw_spo(&triples).unwrap();
    // nS nP nT | S | S_heads | P | P_heads | O
    assert_eq!(raw.raw, vec![1, 2, 2, 1, 0, 2, 2, 2, 0, 1, 2, 3, 5]);
}

#[test]
fn triple_block_roundtrip_with_repeats_and_empty() {
    let triples = vec![(0u64, 0u64, 0u64), (0, 0, 0), (0, 0, 9), (0, 5, 1), (3, 1, 1), (3, 1, 2)];
    let raw = build_raw_spo(&triples).unwrap();
    let mut it = decode_raw_payload(&raw.raw).unwrap();
    assert_eq!(it.collect_all(), triples);
    let none: Vec<(u64, u64, u64)> = Vec::new();
    let raw = build_raw_spo(&none).unwrap();
    assert_eq!(raw.raw, vec![0, 0, 0, 0, 0]);
    let mut it = decode_raw_payload(&raw.raw).unwrap();
    assert_eq!(it.collect_all(), none);
}

#[test]
fn accepted_block_decodes_back_even_out_of_order() {
    // a later subject with a smaller predicate still has non-negative deltas
    let triples = vec![(1u64, 5u64, 0u64), (2, 3, 0)];
    let raw = build_raw_spo(&triples).unwrap();
    let mut it = decode_raw_payload(&raw.raw).unwrap();
    assert_eq!(it.collect_all(), triples);
}

#[test]
fn large_ids_roundtrip_through_block() {
    let triples = vec![(u64::MAX - 1, 0u64, u64::MAX), (u64::MAX, u64::MAX, 0), (u64::MAX, u64::MAX, u64::MAX)];
    let raw = build_raw_spo(&triples).unwrap();
    let mut it = decode_raw_payload(&raw.raw).unwrap();
    assert_eq!(it.collect_all(), triples);
}

#[test]
fn compressed_group_block_holds_a_zstd_frame_of_the_raw_block() {
    let triples = vec![(1u64, 2u64, 3u64), (1, 2, 7), (1, 4, 5), (9, 0, 0), (9, 0, 1)];
    let raw = build_raw_spo(&triples).unwrap().raw;
    let mut file = vec![7u8; 3];
    let mut rows = Vec::new();
    write_group_block(&mut file, &mut rows, true, 4, 5, &triples).unwrap();
    assert_eq!(&file[..3], &[7u8, 7, 7]);
    assert_eq!(file[3], 1);
    let len = u32::from_le_bytes(file[4..8].try_into().unwrap()) as usize;
    assert_eq!(file.len(), 8 + len);
    let frame = &file[8..];
    assert_ne!(frame, &raw[..]);
    assert_eq!(zstd::decode_all(frame).unwrap(), raw);
    assert_eq!(rows.len(), 1);
    assert_eq!(rows[0].sec.off, 3);
    assert_eq!(rows[0].sec.len, (5 + len) as u64);
    let mut plain = Vec::new();
    let mut rows2 = Vec::new();
    write_group_block(&mut plain, &mut rows2, false, 4, 5, &triples).unwrap();
    assert_eq!(plain[0], 0);
    assert_eq!(&plain[5..], &raw[..]);
}

#[test]
fn streaming_cuts_a_run_every_chunk() {
    let mut quads = Vec::new();
    for i in 0..7 {
        quads.push(quint("d", &format!("http://ex/s{i}"), "http://ex/p", Term::Iri("http://ex/o".to_string()), "g"));
    }
    let batch = write_file(&quads).unwrap();
    let mut w = StreamingWriter::with_chunk_capacity(WriterOptions { zstd: false, with_crc: true }, 0, 3);
    for q in quads.iter().cloned() {
        w.add(q).unwrap();
    }
    let stats = w.stats();
    assert_eq!(stats.total_quads, 7);
    assert_eq!(stats.run_count, 7 / 3);
    assert_eq!(stats.temp_bytes_written, 32 * 3 * (7 / 3));
    assert_eq!(stats.max_pending_quads, 3);
    let (streamed, st) = w.finalize_with_stats().unwrap();
    // the 7 % 3 pending records become one more run at the end
    assert_eq!(st.run_count, 3);
    assert_eq!(st.temp_bytes_written, 32 * 7);
    assert_eq!(streamed, batch);
}

#[test]
fn spilled_runs_given_back_match_batch() {
    let mut quads = Vec::new();
    for i in 0..10 {
        quads.push(quint(&format!("d{}", i % 2), &format!("http://ex/s{i}"), "http://ex/p", Term::Iri("http://ex/o".to_string()), "g"));
    }
    let batch = write_file(&quads).unwrap();
    let mut w = StreamingWriter::with_chunk_capacity(WriterOptions { zstd: false, with_crc: true }, 0, 4);
    let mut spilled: Vec<Vec<u8>> = Vec::new();
    for q in quads.iter().cloned() {
        w.add(q).unwrap();
        while let Some(run) = w.take_run() {
            assert_eq!(run.len() % 32, 0);
            spilled.push(run);
        }
    }
    // two full runs of 4 records were handed out; 2 records are pending
    assert_eq!(spilled.len(), 2);
    assert_eq!(spilled[0].len(), 4 * 32);
    let (bytes, st) = w.finalize_with_runs(&spilled).unwrap();
    assert_eq!(bytes, batch);
    assert_eq!(st.run_count, 3);
    assert_eq!(st.temp_bytes_written, 32 * 10);
}

#[test]
fn run_bytes_decode_back() {
    let run = vec![(1u32, 2u32, 3u64, 4u64, 5u64), (7, 0, u64::MAX, 0, 9)];
    let b = encode_run(&run);
    assert_eq!(b.len(), 64);
    assert_eq!(&b[0..4], &1u32.to_le_bytes());
    assert_eq!(&b[8..16], &3u64.to_le_bytes());
    assert_eq!(decode_run(&b), Some(run));
    assert_eq!(decode_run(&b[..63].to_vec()), None);
}
