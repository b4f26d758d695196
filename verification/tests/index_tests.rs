use rdf5d::index::{build_mem_pclos, build_mem_section, IdxKind};
use rdf5d::reader::{R5Error, R5tuFile};
use rdf5d::sidecar::IdxFile;
use rdf5d::closure::{ClosureIds, ClosurePatch, ClosureTripleIds};
use rdf5d::snapshot::{Match, Pattern, Scope, Snapshot};
use rdf5d::view::ScopedView;
use rdf5d::sidecar_build::{build, collect_tuples, gdir_crc};
use rdf5d::update::replace_graph;
use rdf5d::writer::{write_file, write_file_with_options, Quint, Term, WriterOptions};

fn iri(s: &str) -> Term {
    Term::Iri(s.into())
}

fn literal(s: &str) -> Term {
    Term::Literal { lex: s.into(), dt: None, lang: None }
}

fn quint(id: &str, s: Term, p: Term, o: Term, gname: &str) -> Quint {
    Quint { id: id.into(), s, p, o, gname: gname.into() }
}

/// Write `quads` and open the written image.
fn written(quads: Vec<Quint>) -> R5tuFile {
    R5tuFile::from_bytes(write_file(&quads).unwrap()).unwrap()
}

/// The id of the term whose display form is `display`.
fn term_id(f: &R5tuFile, display: &str) -> u64 {
    (0..f.num_terms())
        .find(|&i| f.term_to_string(i).unwrap() == display)
        .unwrap_or_else(|| panic!("missing term {display}"))
}

/// Three gids; s1 has (p1,o1) and (p1,o3), s2 has (p2,o2), in each gid.
fn sample_quads() -> Vec<Quint> {
    let mut quads = Vec::new();
    for (id, gname) in [("d1", "g1"), ("d2", "g2"), ("d3", "g3")] {
        quads.push(quint(id, iri("http://ex/s1"), iri("http://ex/p1"), iri("http://ex/o1"), gname));
        quads.push(quint(id, iri("http://ex/s2"), iri("http://ex/p2"), iri("http://ex/o2"), gname));
        quads.push(quint(id, iri("http://ex/s1"), iri("http://ex/p1"), iri("http://ex/o3"), gname));
    }
    quads
}

fn sample_file() -> R5tuFile {
    written(sample_quads())
}

#[test]
fn written_file_reads_back_its_groups_and_triples() {
    let quads = sample_quads();
    let f = written(quads.clone());
    let all = f.enumerate_all().unwrap();
    assert_eq!(all.len(), 3);
    for (k, (id, gname)) in [("d1", "g1"), ("d2", "g2"), ("d3", "g3")].iter().enumerate() {
        assert_eq!(all[k].gid, k as u64);
        assert_eq!(all[k].id, *id);
        assert_eq!(all[k].graphname, *gname);
        assert_eq!(all[k].n_triples, 3);
        let mut got: Vec<(Term, Term, Term)> = f
            .triples_ids(k as u64)
            .unwrap()
            .collect_all()
            .into_iter()
            .map(|(s, p, o)| {
                (f.term_as_writer_term(s).unwrap(), f.term_as_writer_term(p).unwrap(), f.term_as_writer_term(o).unwrap())
            })
            .collect();
        let mut want: Vec<(Term, Term, Term)> = quads
            .iter()
            .filter(|q| q.id == *id && q.gname == *gname)
            .map(|q| (q.s.clone(), q.p.clone(), q.o.clone()))
            .collect();
        got.sort_by_key(|t| format!("{:?}", t));
        want.sort_by_key(|t| format!("{:?}", t));
        assert_eq!(got, want);
    }
    assert_eq!(f.enumerate_by_id("d2").unwrap().len(), 1);
    assert_eq!(f.enumerate_by_graphname("g3").unwrap()[0].gid, 2);
    assert_eq!(f.resolve_gid("d3", "g3").unwrap().unwrap().gid, 2);
    assert!(f.resolve_gid("d3", "g1").unwrap().is_none());
    assert!(f.enumerate_by_id("nope").unwrap().is_empty());
}

#[test]
fn written_literals_and_blank_nodes_read_back() {
    let dt = Term::Literal { lex: "42".into(), dt: Some("http://ex/int".into()), lang: None };
    let lang = Term::Literal { lex: "chat".into(), dt: None, lang: Some("fr".into()) };
    let quads = vec![
        quint("a", Term::BNode("b0".into()), iri("http://ex/p"), dt.clone(), "g"),
        quint("a", Term::BNode("b0".into()), iri("http://ex/q"), lang.clone(), "g"),
        quint("a", Term::BNode("b0".into()), iri("http://ex/r"), literal("plain"), "g"),
    ];
    let f = written(quads);
    assert_eq!(f.num_terms(), 7);
    let shown: Vec<String> = (0..f.num_terms()).map(|i| f.term_to_string(i).unwrap()).collect();
    assert!(shown.contains(&"\"42\"^^<http://ex/int>".to_string()));
    assert!(shown.contains(&"\"chat\"@fr".to_string()));
    assert!(shown.contains(&"\"plain\"".to_string()));
    assert!(shown.contains(&"b0".to_string()));
    let id = term_id(&f, "\"42\"^^<http://ex/int>");
    assert_eq!(f.term_as_writer_term(id).unwrap(), dt);
    match f.term_to_string(f.num_terms()) {
        Err(R5Error::Invalid(m)) => assert_eq!(m, "term id out of range"),
        _ => panic!("expected Invalid"),
    }
}

#[test]
fn built_file_lists_its_groups() {
    let f = sample_file();
    let all = f.enumerate_all().unwrap();
    assert_eq!(all.len(), 3);
    assert_eq!(all[1].id, "d2");
    assert_eq!(all[1].graphname, "g2");
    assert_eq!(all[1].n_triples, 3);
    let ts = collect_tuples(&f).unwrap();
    assert_eq!(ts.len(), 9);
    let (s1, p1, o1, o3) = (
        term_id(&f, "http://ex/s1"),
        term_id(&f, "http://ex/p1"),
        term_id(&f, "http://ex/o1"),
        term_id(&f, "http://ex/o3"),
    );
    assert!(ts.contains(&(p1, 0, s1, o1)));
    assert!(ts.contains(&(p1, 2, s1, o3)));
}

#[test]
fn pso_pos_mem_lookup() {
    let f = sample_file();
    let pso = build_mem_section(&f, IdxKind::Pso).unwrap();
    let pos = build_mem_section(&f, IdxKind::Pos).unwrap();
    assert_eq!(pso.kind(), IdxKind::Pso);
    let p1 = term_id(&f, "http://ex/p1");
    let post = pso.lookup(p1).expect("p1 pso posting");
    assert_eq!(post.n_gids(), 3);
    assert_eq!(post.iter_all().len(), 6);
    assert_eq!(pos.lookup(p1).expect("p1 pos posting").iter_all().len(), 6);
    assert!(pso.lookup(999_999).is_none());
}

#[test]
fn spo_osp_mem_lookup() {
    let f = sample_file();
    let spo = build_mem_section(&f, IdxKind::Spo).unwrap();
    let osp = build_mem_section(&f, IdxKind::Osp).unwrap();
    let (s1, p1, o1, o3) = (
        term_id(&f, "http://ex/s1"),
        term_id(&f, "http://ex/p1"),
        term_id(&f, "http://ex/o1"),
        term_id(&f, "http://ex/o3"),
    );
    let post = spo.lookup(s1).expect("s1 spo posting");
    assert_eq!(post.n_gids(), 3);
    let pairs: Vec<(u64, u64)> = post.iter_all().into_iter().map(|(_, p, o)| (p, o)).collect();
    assert_eq!(pairs.len(), 6);
    assert!(pairs.iter().all(|&(p, _)| p == p1));
    assert!(pairs.iter().any(|&(_, o)| o == o1));
    assert!(pairs.iter().any(|&(_, o)| o == o3));
    let post = osp.lookup(o1).expect("o1 osp posting");
    assert_eq!(post.n_gids(), 3);
    let pairs: Vec<(u64, u64)> = post.iter_all().into_iter().map(|(_, s, p)| (s, p)).collect();
    assert_eq!(pairs.len(), 3);
    assert!(pairs.iter().all(|&(s, p)| s == s1 && p == p1));
    assert!(spo.lookup(999_999).is_none());
}

#[test]
fn index_pso_pos_values_match() {
    let f = written(vec![
        quint("d1", iri("http://ex/s1"), iri("http://ex/p1"), iri("http://ex/o1"), "g1"),
        quint("d1", iri("http://ex/s2"), iri("http://ex/p1"), iri("http://ex/o2"), "g1"),
        quint("d2", iri("http://ex/s3"), iri("http://ex/p1"), iri("http://ex/o1"), "g2"),
    ]);
    let pso = build_mem_section(&f, IdxKind::Pso).unwrap();
    let pos = build_mem_section(&f, IdxKind::Pos).unwrap();
    let p1 = term_id(&f, "http://ex/p1");
    let mut expected: Vec<(u64, u64, u64)> = Vec::new();
    for gr in f.enumerate_all().unwrap() {
        for (s, p, o) in f.triples_ids(gr.gid).unwrap().collect_all() {
            if p == p1 {
                expected.push((gr.gid, s, o));
            }
        }
    }
    expected.sort();
    assert_eq!(expected.len(), 3);
    let mut got = pso.lookup(p1).unwrap().iter_all();
    got.sort();
    assert_eq!(expected, got);
    let mut got_pos: Vec<(u64, u64, u64)> =
        pos.lookup(p1).unwrap().iter_all().into_iter().map(|(gid, o, s)| (gid, s, o)).collect();
    got_pos.sort();
    assert_eq!(expected, got_pos);
}

#[test]
fn index_block_for_gid_lookup() {
    let f = written(vec![
        quint("d1", iri("http://ex/s1"), iri("http://ex/p1"), iri("http://ex/o1"), "g1"),
        quint("d2", iri("http://ex/s2"), iri("http://ex/p1"), iri("http://ex/o2"), "g2"),
    ]);
    let pso = build_mem_section(&f, IdxKind::Pso).unwrap();
    let post = pso.lookup(term_id(&f, "http://ex/p1")).unwrap();
    let gids = post.gids();
    assert_eq!(gids, vec![0, 1]);
    for (idx, g) in gids.iter().enumerate() {
        assert_eq!(post.block_for_gid(*g), Some(idx));
    }
    assert_eq!(post.block_for_gid(99), None);
    assert_eq!(post.iter_block(1), vec![(term_id(&f, "http://ex/s2"), term_id(&f, "http://ex/o2"))]);
    assert_eq!(post.n_triples(), 2);
}

#[test]
fn pclos_section_kind_is_rejected() {
    let f = sample_file();
    match build_mem_section(&f, IdxKind::PClos) {
        Err(R5Error::Invalid(m)) => assert_eq!(m, "use build_mem_pclos for PClos"),
        _ => panic!("expected Invalid"),
    }
}

#[test]
fn pclos_roundtrip_and_lookup() {
    // Class hierarchy: A <- B <- C, B <- D, E <- F  (X <- Y: Y subClassOf X)
    let subclass = "http://www.w3.org/2000/01/rdf-schema#subClassOf";
    let edge = |s: &str, o: &str| quint("d1", iri(s), iri(subclass), iri(o), "g1");
    let f = written(vec![
        edge("http://ex/B", "http://ex/A"),
        edge("http://ex/C", "http://ex/B"),
        edge("http://ex/D", "http://ex/B"),
        edge("http://ex/F", "http://ex/E"),
    ]);
    let sub = term_id(&f, subclass);
    let pclos = build_mem_pclos(&f, &vec![sub]).unwrap();
    let id = |s: &str| term_id(&f, s);
    let (a, b, c, d, e, fnode) =
        (id("http://ex/A"), id("http://ex/B"), id("http://ex/C"), id("http://ex/D"), id("http://ex/E"), id("http://ex/F"));
    let mut got = pclos.closure_forward(sub, c).unwrap();
    got.sort();
    let mut want = vec![a, b];
    want.sort();
    assert_eq!(got, want);
    assert_eq!(pclos.closure_forward(sub, b).unwrap(), vec![a]);
    assert_eq!(pclos.closure_forward(sub, fnode).unwrap(), vec![e]);
    assert!(pclos.closure_forward(sub, a).is_none());
    let mut got = pclos.closure_reverse(sub, a).unwrap();
    got.sort();
    let mut want = vec![b, c, d];
    want.sort();
    assert_eq!(got, want);
    assert_eq!(pclos.closure_reverse(sub, e).unwrap(), vec![fnode]);
    assert!(pclos.closure_forward(999_999, a).is_none());
}

#[test]
fn pclos_reverse_agrees_with_forward() {
    let subclass = "http://www.w3.org/2000/01/rdf-schema#subClassOf";
    let edge = |s: &str, o: &str| quint("d1", iri(s), iri(subclass), iri(o), "g1");
    let f = written(vec![
        edge("http://ex/B", "http://ex/A"),
        edge("http://ex/C", "http://ex/B"),
        edge("http://ex/D", "http://ex/B"),
        edge("http://ex/F", "http://ex/E"),
        edge("http://ex/A", "http://ex/C"),
    ]);
    let sub = term_id(&f, subclass);
    let pclos = build_mem_pclos(&f, &vec![sub]).unwrap();
    let nodes: Vec<u64> = ["A", "B", "C", "D", "E", "F"].iter().map(|n| term_id(&f, &format!("http://ex/{n}"))).collect();
    for &x in &nodes {
        for &o in &nodes {
            let back = pclos.closure_reverse(sub, o).map_or(false, |v| v.contains(&x));
            let fwd = pclos.closure_forward(sub, x).map_or(false, |v| v.contains(&o));
            assert_eq!(back, fwd, "x={x} o={o}");
        }
    }
    // on the cycle A -> C -> B -> A each node reaches itself
    let a = nodes[0];
    assert!(pclos.closure_forward(sub, a).unwrap().contains(&a));
}

#[test]
fn pclos_cycle_handling() {
    let p = "http://ex/p";
    let f = written(vec![
        quint("d1", iri("http://ex/A"), iri(p), iri("http://ex/B"), "g1"),
        quint("d1", iri("http://ex/B"), iri(p), iri("http://ex/A"), "g1"),
    ]);
    let p_id = term_id(&f, p);
    let a = term_id(&f, "http://ex/A");
    let b = term_id(&f, "http://ex/B");
    let pclos = build_mem_pclos(&f, &vec![p_id]).unwrap();
    assert!(pclos.closure_forward(p_id, a).unwrap().contains(&b));
    assert!(pclos.closure_forward(p_id, b).unwrap().contains(&a));
    // around the cycle each node also reaches itself
    let mut both = vec![a, b];
    both.sort();
    assert_eq!(pclos.closure_forward(p_id, a).unwrap(), both);
}

#[test]
fn sidecar_built_from_a_file_matches_its_triples() {
    let f = sample_file();
    let bytes = build(&f, 5, 6, "store.r5tu").unwrap();
    let idx = IdxFile::from_bytes(bytes).unwrap();
    assert_eq!(idx.header().src_gdir_crc, gdir_crc(&f).unwrap());
    let (s1, p1, o1, o3) = (
        term_id(&f, "http://ex/s1"),
        term_id(&f, "http://ex/p1"),
        term_id(&f, "http://ex/o1"),
        term_id(&f, "http://ex/o3"),
    );
    let (s2, p2, o2) = (term_id(&f, "http://ex/s2"), term_id(&f, "http://ex/p2"), term_id(&f, "http://ex/o2"));
    let mut want = vec![(0, s1, o1), (0, s1, o3), (1, s1, o1), (1, s1, o3), (2, s1, o1), (2, s1, o3)];
    want.sort();
    assert_eq!(idx.lookup_pso(p1).unwrap().iter_all(), want);
    assert_eq!(idx.lookup_pos(p2).unwrap().iter_all(), vec![(0, o2, s2), (1, o2, s2), (2, o2, s2)]);
    assert!(idx.lookup_pso(o1).is_none());
}

#[test]
fn gdir_crc_tracks_the_groups() {
    let f = sample_file();
    let g = written(vec![quint("d1", iri("http://ex/s1"), iri("http://ex/p1"), iri("http://ex/o1"), "g1")]);
    assert_eq!(gdir_crc(&f).unwrap(), gdir_crc(&f).unwrap());
    assert_ne!(gdir_crc(&f).unwrap(), gdir_crc(&g).unwrap());
}

#[test]
fn replace_graph_swaps_one_group() {
    let f = sample_file();
    let new = vec![(iri("http://ex/x"), iri("http://ex/y"), literal("z"))];
    let g = R5tuFile::from_bytes(replace_graph(&f, "d2", "g2", &new).unwrap()).unwrap();
    let all = g.enumerate_all().unwrap();
    let mut names: Vec<(String, String, u64)> = all.iter().map(|r| (r.id.clone(), r.graphname.clone(), r.n_triples)).collect();
    names.sort();
    assert_eq!(
        names,
        vec![("d1".to_string(), "g1".to_string(), 3), ("d2".to_string(), "g2".to_string(), 1), ("d3".to_string(), "g3".to_string(), 3)]
    );
    let gid = g.resolve_gid("d2", "g2").unwrap().unwrap().gid;
    let ts = g.triples_ids(gid).unwrap().collect_all();
    assert_eq!(ts.len(), 1);
    let (s, p, o) = ts[0];
    assert_eq!(g.term_as_writer_term(s).unwrap(), iri("http://ex/x"));
    assert_eq!(g.term_as_writer_term(p).unwrap(), iri("http://ex/y"));
    assert_eq!(g.term_as_writer_term(o).unwrap(), literal("z"));
    // an empty replacement drops the group
    let h = R5tuFile::from_bytes(replace_graph(&f, "d2", "g2", &vec![]).unwrap()).unwrap();
    assert_eq!(h.enumerate_all().unwrap().len(), 2);
    assert!(h.resolve_gid("d2", "g2").unwrap().is_none());
}

// ---------------------------------------------------------------- snapshots

/// Two gids sharing one graph name, plus a third gid under a different name.
/// g1: (alice, name, "Alice") and (alice, age, "30")
/// g2: (bob, name, "Bob") and (charlie, name, "Charlie"), under the same name
/// g3: (dave, name, "Dave") under a different name
fn multi_gid_fixture() -> Snapshot {
    let shared = "http://ex/g/shared";
    let f = written(vec![
        quint("d1", iri("http://ex/alice"), iri("http://ex/name"), literal("Alice"), shared),
        quint("d1", iri("http://ex/alice"), iri("http://ex/age"), literal("30"), shared),
        quint("d2", iri("http://ex/bob"), iri("http://ex/name"), literal("Bob"), shared),
        quint("d2", iri("http://ex/charlie"), iri("http://ex/name"), literal("Charlie"), shared),
        quint("d3", iri("http://ex/dave"), iri("http://ex/name"), literal("Dave"), "http://ex/g/other"),
    ]);
    Snapshot::from_file(f).unwrap()
}

/// The same triple under two gids sharing one name (and, optionally, one more).
fn shared_fixture(with_bob: bool) -> Snapshot {
    let shared = "http://ex/g/shared";
    let mut quads = vec![
        quint("d1", iri("http://ex/alice"), iri("http://ex/name"), literal("Alice"), shared),
        quint("d2", iri("http://ex/alice"), iri("http://ex/name"), literal("Alice"), shared),
    ];
    if with_bob {
        quads.push(quint("d2", iri("http://ex/bob"), iri("http://ex/name"), literal("Bob"), shared));
    }
    Snapshot::from_file(written(quads)).unwrap()
}

fn sid(s: &Snapshot, display: &str) -> u64 {
    term_id(s.file(), display)
}

fn count_matches(results: &[Result<Match, R5Error>]) -> usize {
    results.iter().filter(|r| r.is_ok()).count()
}

#[test]
fn empty_snapshot_returns_no_graphs() {
    let s = Snapshot::from_file(written(vec![])).unwrap();
    assert_eq!(s.graph_names().len(), 0);
    assert!(!s.has_graph("http://ex/g/shared"));
    assert_eq!(s.gids_for_name("http://ex/g/shared"), None);
}

#[test]
fn scan_all_returns_all_triples() {
    let mut s = multi_gid_fixture();
    let results = s.scan(Pattern::any(), Scope::All);
    assert_eq!(count_matches(&results), 5);
}

#[test]
fn scan_by_name_single_gid() {
    let mut s = multi_gid_fixture();
    let results = s.scan(Pattern::any(), Scope::ByName("http://ex/g/other"));
    assert_eq!(count_matches(&results), 1);
    let m = results[0].as_ref().unwrap();
    assert_eq!(m.s, sid(&s, "http://ex/dave"));
    assert_eq!(m.p, sid(&s, "http://ex/name"));
}

#[test]
fn scan_by_name_dedups_across_multi_gid() {
    let mut s = shared_fixture(false);
    let results = s.scan(Pattern::any(), Scope::ByName("http://ex/g/shared"));
    assert_eq!(count_matches(&results), 1);
}

#[test]
fn scan_by_gids_does_not_dedup() {
    let mut s = shared_fixture(false);
    let gids: Vec<u64> = s.gids_for_name("http://ex/g/shared").unwrap().to_vec();
    assert_eq!(gids.len(), 2);
    let results = s.scan(Pattern::any(), Scope::Gids(&gids));
    assert_eq!(count_matches(&results), 2);
}

#[test]
fn scan_bound_pattern_matches() {
    let mut s = multi_gid_fixture();
    let alice = sid(&s, "http://ex/alice");
    let name = sid(&s, "http://ex/name");
    let pat = Pattern { s: Some(alice), p: Some(name), o: None };
    let results = s.scan(pat, Scope::ByName("http://ex/g/shared"));
    assert_eq!(count_matches(&results), 1, "Alice has one name triple");
    assert_eq!(results[0].as_ref().unwrap().s, alice);
    assert_eq!(results[0].as_ref().unwrap().p, name);
}

#[test]
fn scan_overflow_term_id_yields_no_results() {
    let mut s = multi_gid_fixture();
    let n_terms = s.file().num_terms();
    let pat = Pattern { s: Some(n_terms + 1), p: None, o: None };
    let results = s.scan(pat, Scope::All);
    assert_eq!(count_matches(&results), 0);
}

#[test]
fn scan_nonexistent_graph_name_returns_empty() {
    let mut s = multi_gid_fixture();
    let results = s.scan(Pattern::any(), Scope::ByName("http://ex/g/nonexistent"));
    assert_eq!(count_matches(&results), 0);
}

#[test]
fn triple_count_single_gid_eager() {
    let s = multi_gid_fixture();
    let count = s.triple_count(Scope::ByName("http://ex/g/other")).unwrap();
    assert_eq!(count, 1);
}

#[test]
fn triple_count_multi_gid_dedup_lazy() {
    let s = shared_fixture(true);
    // 3 physical triples, but 2 unique: (alice, name, Alice) appears twice
    let count = s.triple_count(Scope::ByName("http://ex/g/shared")).unwrap();
    assert_eq!(count, 2);
}

#[test]
fn triple_count_counts_a_repeated_triple_once_in_one_group() {
    let shared = "http://ex/g/shared";
    let q = quint("d1", iri("http://ex/alice"), iri("http://ex/name"), literal("Alice"), shared);
    let s = Snapshot::from_file(written(vec![q.clone(), q])).unwrap();
    assert_eq!(s.gids_for_name(shared).unwrap().len(), 1);
    assert_eq!(s.file().enumerate_all().unwrap()[0].n_triples, 2);
    assert_eq!(s.triple_count(Scope::ByName(shared)).unwrap(), 1);
    assert_eq!(s.triple_count(Scope::All).unwrap(), 1);
}

#[test]
fn triple_count_all_scope() {
    let s = multi_gid_fixture();
    let count = s.triple_count(Scope::All).unwrap();
    assert_eq!(count, 5);
}

#[test]
fn triple_count_gids_scope() {
    let s = multi_gid_fixture();
    let gids = s.gids_for_name("http://ex/g/shared").unwrap();
    let count = s.triple_count(Scope::Gids(gids)).unwrap();
    assert_eq!(count, 4, "shared has 4 physical triples across 2 gids");
}

#[test]
fn names_containing_finds_matching_graphs() {
    let mut s = multi_gid_fixture();
    let pat = Pattern { s: Some(sid(&s, "http://ex/alice")), p: None, o: None };
    let mut names = s.names_containing(pat).unwrap();
    names.sort();
    assert_eq!(names, vec!["http://ex/g/shared"]);
}

#[test]
fn names_containing_nonexistent_term() {
    let mut s = multi_gid_fixture();
    let n_terms = s.file().num_terms();
    let pat = Pattern { s: Some(n_terms + 10), p: None, o: None };
    let names = s.names_containing(pat).unwrap();
    assert!(names.is_empty());
}

#[test]
fn has_graph_returns_true_for_known_names() {
    let s = multi_gid_fixture();
    assert!(s.has_graph("http://ex/g/shared"));
    assert!(s.has_graph("http://ex/g/other"));
    assert!(!s.has_graph("http://ex/g/missing"));
}

#[test]
fn gids_for_name_returns_physical_gids() {
    let s = multi_gid_fixture();
    let gids = s.gids_for_name("http://ex/g/shared").unwrap();
    assert_eq!(gids.len(), 2);
    assert_ne!(gids[0], gids[1]);
    assert_eq!(s.gids_for_name("http://ex/g/missing"), None);
}

fn matches_of(results: Vec<Result<Match, R5Error>>) -> Vec<(u64, u64, u64, u64)> {
    let mut v: Vec<(u64, u64, u64, u64)> =
        results.into_iter().map(|r| r.unwrap()).map(|m| (m.gid, m.s, m.p, m.o)).collect();
    v.sort();
    v
}

#[test]
fn snapshot_groups_names_in_order_of_first_appearance() {
    let s = multi_gid_fixture();
    assert_eq!(s.graph_names(), vec!["http://ex/g/shared".to_string(), "http://ex/g/other".to_string()]);
    assert_eq!(s.gids_for_name("http://ex/g/shared").unwrap(), &[0u64, 1][..]);
    assert_eq!(s.gids_for_name("http://ex/g/other").unwrap(), &[2u64][..]);
}

#[test]
fn every_index_shape_gives_the_scanned_matches() {
    let mut s = multi_gid_fixture();
    let id = |d: &str| sid(&s, d);
    let (alice, bob, name, age) = (id("http://ex/alice"), id("http://ex/bob"), id("http://ex/name"), id("http://ex/age"));
    let (l_bob, l_30, l_dave) = (id("\"Bob\""), id("\"30\""), id("\"Dave\""));
    let patterns = [
        Pattern { s: None, p: Some(name), o: Some(l_bob) },
        Pattern { s: Some(bob), p: Some(name), o: Some(l_bob) },
        Pattern { s: None, p: Some(name), o: None },
        Pattern { s: Some(alice), p: Some(age), o: None },
        Pattern { s: Some(alice), p: None, o: None },
        Pattern { s: Some(alice), p: None, o: Some(l_30) },
        Pattern { s: None, p: None, o: Some(l_dave) },
    ];
    let all = matches_of(s.scan(Pattern::any(), Scope::All));
    for pat in patterns {
        let want: Vec<(u64, u64, u64, u64)> = all
            .iter()
            .copied()
            .filter(|m| pat.s.map_or(true, |x| x == m.1) && pat.p.map_or(true, |x| x == m.2) && pat.o.map_or(true, |x| x == m.3))
            .collect();
        assert!(!want.is_empty());
        assert_eq!(matches_of(s.scan(pat, Scope::All)), want);
        s.build_indexes();
        assert_eq!(matches_of(s.scan(pat, Scope::All)), want);
    }
}

#[test]
fn spo_index_lists_a_subjects_pairs_in_order() {
    let mut s = multi_gid_fixture();
    let alice = sid(&s, "http://ex/alice");
    let got: Vec<(u64, u64, u64)> = s
        .scan(Pattern { s: Some(alice), p: None, o: None }, Scope::All)
        .into_iter()
        .map(|r| r.unwrap())
        .map(|m| (m.s, m.p, m.o))
        .collect();
    let mut want = vec![
        (alice, sid(&s, "http://ex/name"), sid(&s, "\"Alice\"")),
        (alice, sid(&s, "http://ex/age"), sid(&s, "\"30\"")),
    ];
    want.sort();
    assert_eq!(got, want);
}

#[test]
fn unreadable_group_yields_its_error_in_the_scan() {
    let quads = vec![
        quint("d1", iri("http://ex/alice"), iri("http://ex/name"), literal("Alice"), "g"),
        quint("d2", iri("http://ex/bob"), iri("http://ex/name"), literal("Bob"), "g"),
    ];
    let mut bytes = write_file_with_options(&quads, WriterOptions { zstd: false, with_crc: false }).unwrap();
    // the first block's payload length (just past its encoding byte) now
    // runs past the block
    let toc = rdf5d::header::parse_toc(&bytes, &rdf5d::header::Header::parse(&bytes).unwrap()).unwrap();
    let blocks = toc.iter().find(|e| e.kind == rdf5d::header::SectionKind::TripleBlocks).unwrap();
    let off = blocks.section.off as usize;
    bytes[off + 1..off + 5].copy_from_slice(&u32::MAX.to_le_bytes());
    let n = bytes.len();
    let crc = rdf5d::header::crc32_ieee(&bytes[..n - 16]);
    bytes[n - 16..n - 12].copy_from_slice(&crc.to_le_bytes());
    let mut s = Snapshot::from_file(R5tuFile::from_bytes(bytes).unwrap()).unwrap();
    let items = s.scan(Pattern::any(), Scope::Gids(&[0, 1]));
    assert!(matches!(items[0], Err(R5Error::Corrupt(_))));
    assert_eq!(count_matches(&items), 1);
    assert!(matches!(s.triple_count(Scope::All), Err(R5Error::Corrupt(_))));
}

#[test]
fn scoped_view_collects_sorted_distinct_gids() {
    let s = multi_gid_fixture();
    let v = ScopedView::from_names(&s, &["http://ex/g/other", "http://ex/g/missing", "http://ex/g/shared", "http://ex/g/other"]);
    assert_eq!(v.gids(), &[0u64, 1, 2][..]);
    assert_eq!(v.n_gids(), 3);
    let w = ScopedView::from_gids(&s, vec![2, 0]);
    assert_eq!(w.gids(), &[2u64, 0][..]);
}

#[test]
fn scoped_view_scans_counts_and_contains() {
    let s = shared_fixture(true);
    let v = ScopedView::from_names(&s, &["http://ex/g/shared"]);
    assert_eq!(count_matches(&v.scan(Pattern::any())), 2);
    assert_eq!(v.triple_count().unwrap(), 2);
    let bob = sid(&s, "http://ex/bob");
    let alice = sid(&s, "http://ex/alice");
    assert!(v.contains(Some(bob), None, None).unwrap());
    assert!(!v.contains(Some(bob), Some(alice), None).unwrap());
    assert!(!v.contains(Some(s.file().num_terms()), None, None).unwrap());
    let one = ScopedView::from_gids(&s, vec![0]);
    assert_eq!(count_matches(&one.scan(Pattern::any())), 1);
    let both = ScopedView::from_gids(&s, vec![0, 1]);
    assert_eq!(count_matches(&both.scan(Pattern::any())), 2);
}

#[test]
fn compressed_blocks_read_back_as_their_triples() {
    let quads = vec![
        quint("d1", iri("http://ex/alice"), iri("http://ex/name"), literal("Alice"), "g1"),
        quint("d1", iri("http://ex/alice"), iri("http://ex/age"), literal("30"), "g1"),
        quint("d1", iri("http://ex/bob"), iri("http://ex/name"), literal("Bob"), "g1"),
        quint("d2", iri("http://ex/dave"), iri("http://ex/name"), literal("Dave"), "g2"),
    ];
    let plain = written(quads.clone());
    let packed =
        R5tuFile::from_bytes(write_file_with_options(&quads, WriterOptions { zstd: true, with_crc: true }).unwrap()).unwrap();
    assert!(packed.header().flags_u16 == 2);
    for gid in 0..2u64 {
        let want = plain.triples_ids(gid).unwrap().collect_all();
        assert_eq!(packed.triples_ids(gid).unwrap().collect_all(), want);
    }
    assert_eq!(packed.triples_ids(0).unwrap().collect_all().len(), 3);
}

#[test]
fn closure_triples_over_groups_are_the_flattened_patch() {
    let t = |s: &str| iri(&format!("http://ex/{s}"));
    let quads = vec![
        quint("a", t("root"), t("imports"), t("mid"), "root"),
        quint("a", t("root"), t("type"), t("Ontology"), "root"),
        quint("a", t("x"), t("type"), t("C"), "root"),
        quint("b", t("mid"), t("type"), t("Ontology"), "mid"),
        quint("b", t("x"), t("type"), t("C"), "mid"),
        quint("b", t("y"), t("knows"), t("z"), "mid"),
    ];
    let f = written(quads);
    let id = |s: &str| term_id(&f, &format!("http://ex/{s}"));
    let ids = ClosureIds {
        type_id: id("type"),
        ontology_id: id("Ontology"),
        imports_id: id("imports"),
        prefixes_id: f.num_terms() + 1,
        declare_id: f.num_terms() + 2,
        root_id: id("root"),
    };
    let (root, mid, typ, ont, imports, x, c) = (id("root"), id("mid"), id("type"), id("Ontology"), id("imports"), id("x"), id("C"));
    let mut scanned = f.triples_ids(0).unwrap().collect_all();
    scanned.extend_from_slice(&f.triples_ids(1).unwrap().collect_all());
    let mut snap = Snapshot::from_file(f).unwrap();
    let patch = ClosurePatch::build(ids, &vec![root, mid], true, false, true, &vec![], &vec![]);
    let want = patch.flatten(&scanned);
    let got: Vec<(u64, u64, u64)> =
        ClosureTripleIds::new(&mut snap, &patch, &[0, 1]).collect_all().into_iter().map(|r| r.unwrap()).collect();
    assert_eq!(got, want);
    assert!(!got.contains(&(root, imports, mid)));
    assert!(!got.contains(&(mid, typ, ont)));
    assert!(got.contains(&(root, typ, ont)));
    assert_eq!(got.iter().filter(|t| **t == (x, typ, c)).count(), 1);
    let mut it = ClosureTripleIds::new(&mut snap, &patch, &[1]);
    let mut one_by_one = Vec::new();
    while let Some(r) = it.next() {
        one_by_one.push(r.unwrap());
    }
    let mut g1: Vec<(u64, u64, u64)> = scanned[3..].iter().copied().filter(|t| *t != (mid, typ, ont)).collect();
    g1.sort();
    one_by_one.sort();
    assert_eq!(one_by_one, g1);
    assert!(it.next().is_none());
}

#[test]
fn interleaved_tuples_gather_into_one_group_per_id_and_name() {
    let quads = vec![
        quint("b", iri("http://ex/s2"), iri("http://ex/p"), literal("two"), "g"),
        quint("a", iri("http://ex/s1"), iri("http://ex/p"), literal("one"), "g"),
        quint("b", iri("http://ex/s3"), iri("http://ex/p"), literal("three"), "g"),
        quint("a", iri("http://ex/s4"), iri("http://ex/p"), literal("four"), "h"),
        quint("b", iri("http://ex/s2"), iri("http://ex/p"), literal("two"), "g"),
    ];
    let f = written(quads.clone());
    let all = f.enumerate_all().unwrap();
    let mut keys: Vec<(String, String, u64)> = all.iter().map(|g| (g.id.clone(), g.graphname.clone(), g.n_triples)).collect();
    keys.sort();
    assert_eq!(
        keys,
        vec![("a".to_string(), "g".to_string(), 1), ("a".to_string(), "h".to_string(), 1), ("b".to_string(), "g".to_string(), 3)]
    );
    let gid = f.resolve_gid("b", "g").unwrap().unwrap().gid;
    let mut got: Vec<String> = f
        .triples_ids(gid)
        .unwrap()
        .collect_all()
        .into_iter()
        .map(|(_, _, o)| f.term_to_string(o).unwrap())
        .collect();
    got.sort();
    assert_eq!(got, vec!["\"three\"", "\"two\"", "\"two\""]);
}

#[test]
fn closure_forward_reverse_roundtrip() {
    let subclass = "http://www.w3.org/2000/01/rdf-schema#subClassOf";
    let mut s = Snapshot::from_file(written(vec![
        quint("d1", iri("http://ex/A"), iri(subclass), iri("http://ex/B"), "g"),
        quint("d2", iri("http://ex/B"), iri(subclass), iri("http://ex/C"), "g"),
    ]))
    .unwrap();
    let p_id = sid(&s, subclass);
    let a_id = sid(&s, "http://ex/A");
    let c_id = sid(&s, "http://ex/C");
    // Forward: A subClassOf+ ... should reach C transitively
    let fwd = s.closure_forward(p_id, a_id);
    assert!(fwd.is_some(), "A should have forward closure");
    let mut fwd = fwd.unwrap();
    fwd.sort();
    assert!(fwd.contains(&c_id), "A should reach C via B");
    // Reverse: C is reached by A
    let rev = s.closure_reverse(p_id, c_id);
    assert!(rev.is_some(), "C should have reverse closure");
    assert!(rev.unwrap().contains(&a_id), "C should be reachable from A");
    // A has no reverse (nothing subClassOf A)
    assert!(s.closure_reverse(p_id, a_id).is_none() || s.closure_reverse(p_id, a_id).unwrap().is_empty());
    // Predicate not in index
    assert!(s.closure_forward(999_999, a_id).is_none());
}

#[test]
fn has_closures_true_only_when_index_has_data() {
    // No subClassOf triples — the index will be empty
    let mut s =
        Snapshot::from_file(written(vec![quint("d1", iri("http://ex/A"), iri("http://ex/p"), iri("http://ex/B"), "g")]))
            .unwrap();
    assert!(!s.has_closures(), "no closure predicates → has_closures = false");
}

#[test]
fn has_closures_true_after_building() {
    let subclass = "http://www.w3.org/2000/01/rdf-schema#subClassOf";
    let mut s =
        Snapshot::from_file(written(vec![quint("d1", iri("http://ex/A"), iri(subclass), iri("http://ex/B"), "g")]))
            .unwrap();
    // Force building the closure index by querying
    let p_id = sid(&s, subclass);
    let a_id = sid(&s, "http://ex/A");
    let fwd = s.closure_forward(p_id, a_id);
    assert!(fwd.is_some());
    assert!(s.has_closures());
    assert_eq!(s.file().iri_term_id(subclass), Some(p_id));
    assert_eq!(s.file().iri_term_id("http://ex/missing"), None);
}

#[test]
fn scoped_view_closures_use_only_its_groups() {
    let subclass = "http://www.w3.org/2000/01/rdf-schema#subClassOf";
    let mut s = Snapshot::from_file(written(vec![
        quint("d1", iri("http://ex/A"), iri(subclass), iri("http://ex/B"), "g1"),
        quint("d2", iri("http://ex/B"), iri(subclass), iri("http://ex/C"), "g2"),
    ]))
    .unwrap();
    let p = sid(&s, subclass);
    let (a, b, c) = (sid(&s, "http://ex/A"), sid(&s, "http://ex/B"), sid(&s, "http://ex/C"));
    let mut both = vec![b, c];
    both.sort();
    let mut whole = s.closure_forward(p, a).unwrap();
    whole.sort();
    assert_eq!(whole, both);
    let first = ScopedView::from_names(&s, &["g1"]);
    assert_eq!(first.closure_forward(p, a), Some(vec![b]));
    assert_eq!(first.closure_reverse(p, b), Some(vec![a]));
    assert_eq!(first.closure_forward(p, b), None);
    let all = ScopedView::from_gids(&s, vec![0, 1]);
    let mut got = all.closure_forward(p, a).unwrap();
    got.sort();
    assert_eq!(got, both);
    assert_eq!(all.closure_forward(999_999, a), None);
}
