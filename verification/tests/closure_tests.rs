use rdf5d::closure::{ClosureIds, ClosurePatch, ClosureTripleIds, DeclareHit};
use rdf5d::graphname::detect_graphname;
use rdf5d::reader::R5tuFile;
use rdf5d::snapshot::{Match, Pattern, Snapshot};
use rdf5d::writer::{write_file, Quint, Term};

// Term ids standing for the vocabulary and the resources of the scenarios.
const TYPE: u64 = 1;
const ONT: u64 = 2;
const IMPORTS: u64 = 3;
const PREFIXES: u64 = 4;
const DECLARE: u64 = 5;
const PREFIX: u64 = 6;
const NS: u64 = 7;
const ROOT: u64 = 100;
const MID: u64 = 101;
const LEAF: u64 = 102;
const ROOT_CLASS: u64 = 103;
const OWL_CLASS: u64 = 104;
const SHARED: u64 = 105;
const C: u64 = 106;
const D: u64 = 107;
const LIT_LEAF: u64 = 108;
const LIT_NS: u64 = 109;

fn ids() -> ClosureIds {
    ClosureIds { type_id: TYPE, ontology_id: ONT, imports_id: IMPORTS, prefixes_id: PREFIXES, declare_id: DECLARE, root_id: ROOT }
}

/// What a scan of the closure gives the patch: whether the root declares
/// itself, the `sh:prefixes` subjects and the `sh:declare` hits with keys.
fn scan_inputs(
    triples: &[(u64, u64, u64)],
    keys: &[(u64, (&str, &str))],
) -> (bool, Vec<u64>, Vec<DeclareHit>) {
    let root_decl = triples.contains(&(ROOT, TYPE, ONT));
    let prefixes = triples.iter().filter(|t| t.1 == PREFIXES).map(|t| t.0).collect();
    let declares = triples
        .iter()
        .filter(|t| t.1 == DECLARE)
        .map(|t| DeclareHit {
            s: t.0,
            o: t.2,
            key: keys.iter().find(|k| k.0 == t.2).map(|k| (k.1 .0.to_string(), k.1 .1.to_string())),
        })
        .collect();
    (root_decl, prefixes, declares)
}

#[test]
fn build_strips_imports_collapses_decls_and_adds_root() {
    let scanned = vec![
        (ROOT, IMPORTS, MID),
        (ROOT_CLASS, TYPE, OWL_CLASS),
        (MID, TYPE, ONT),
        (MID, IMPORTS, LEAF),
        (SHARED, TYPE, C),
        (LEAF, TYPE, ONT),
        (SHARED, TYPE, C),
    ];
    let (root_decl, prefixes, declares) = scan_inputs(&scanned, &[]);
    let patch = ClosurePatch::build(ids(), &vec![ROOT, MID, LEAF], true, true, root_decl, &prefixes, &declares);
    let set = patch.flatten(&scanned);
    assert!(!set.iter().any(|t| t.1 == IMPORTS));
    let decls: Vec<_> = set.iter().filter(|t| t.1 == TYPE && t.2 == ONT).collect();
    assert_eq!(decls.len(), 1);
    assert_eq!(decls[0].0, ROOT);
    assert!(set.contains(&(ROOT, TYPE, ONT)));
    let shared: Vec<_> = set.iter().filter(|t| t.0 == SHARED).collect();
    assert_eq!(shared.len(), 1);
    assert_eq!(patch.additions(), &[(ROOT, TYPE, ONT)]);
    assert!(patch.is_addition(ROOT, TYPE, ONT));
    assert!(!patch.is_addition(MID, TYPE, ONT));
    assert_eq!(patch.root_id(), ROOT);
}

#[test]
fn build_rewrites_sh_prefixes_onto_root() {
    let scanned = vec![
        (ROOT, TYPE, ONT),
        (ROOT, IMPORTS, LEAF),
        (LEAF, TYPE, ONT),
        (LEAF, PREFIXES, LEAF),
        (LEAF, DECLARE, D),
        (D, PREFIX, LIT_LEAF),
        (D, NS, LIT_NS),
    ];
    let (root_decl, prefixes, declares) = scan_inputs(&scanned, &[(D, ("leaf", "http://ex/leaf#"))]);
    let patch = ClosurePatch::build(ids(), &vec![ROOT, LEAF], true, true, root_decl, &prefixes, &declares);
    let set = patch.flatten(&scanned);
    assert!(set.contains(&(LEAF, PREFIXES, ROOT)));
    assert!(!set.contains(&(LEAF, PREFIXES, LEAF)));
    assert!(set.iter().any(|t| t.0 == ROOT && t.1 == DECLARE));
    assert!(!set.iter().any(|t| t.0 == LEAF && t.1 == DECLARE));
}

#[test]
fn build_no_rewrite_when_disabled_keeps_imports_and_prefixes() {
    let scanned = vec![(ROOT, TYPE, ONT), (ROOT, IMPORTS, LEAF), (LEAF, TYPE, ONT), (LEAF, PREFIXES, LEAF)];
    let (root_decl, prefixes, declares) = scan_inputs(&scanned, &[]);
    let patch = ClosurePatch::build(ids(), &vec![ROOT, LEAF], false, false, root_decl, &prefixes, &declares);
    let set = patch.flatten(&scanned);
    assert!(set.contains(&(ROOT, IMPORTS, LEAF)));
    assert!(set.contains(&(LEAF, PREFIXES, LEAF)));
    let decls: Vec<_> = set.iter().filter(|t| t.1 == TYPE && t.2 == ONT).collect();
    assert_eq!(decls.len(), 1);
    assert_eq!(decls[0].0, ROOT);
}

#[test]
fn duplicate_declarations_move_once() {
    let d2 = 200u64;
    let d3 = 201u64;
    let scanned = vec![
        (ROOT, DECLARE, D),
        (LEAF, DECLARE, d2),
        (MID, DECLARE, d3),
        (MID, PREFIXES, MID),
        (MID, PREFIXES, LEAF),
    ];
    // the root already declares ("ex", ns); the leaf repeats it, mid adds a new one
    let keys = [(D, ("ex", "http://ex#")), (d2, ("ex", "http://ex#")), (d3, ("other", "http://o#"))];
    let (root_decl, prefixes, declares) = scan_inputs(&scanned, &keys);
    let patch = ClosurePatch::build(ids(), &vec![], false, true, root_decl, &prefixes, &declares);
    assert_eq!(
        patch.additions(),
        &[(ROOT, TYPE, ONT), (MID, PREFIXES, ROOT), (ROOT, DECLARE, d3)]
    );
    assert!(!patch.keep(LEAF, DECLARE, d2));
    assert!(!patch.keep(MID, DECLARE, d3));
    assert!(patch.keep(ROOT, DECLARE, D));
    assert!(!patch.keep(MID, PREFIXES, LEAF));
    // a declaration whose key is unknown always moves
    let no_key = vec![DeclareHit { s: LEAF, o: d2, key: None }, DeclareHit { s: MID, o: d2, key: None }];
    let patch = ClosurePatch::build(ids(), &vec![], false, true, true, &vec![], &no_key);
    assert_eq!(patch.additions(), &[(ROOT, DECLARE, d2)]);
}

#[test]
fn keep_strips_only_resolved_imports() {
    let patch = ClosurePatch::build(ids(), &vec![MID], true, false, true, &vec![], &vec![]);
    assert!(!patch.keep(ROOT, IMPORTS, MID));
    assert!(patch.keep(ROOT, IMPORTS, LEAF));
    assert!(patch.keep(ROOT, TYPE, ONT));
    assert!(!patch.keep(MID, TYPE, ONT));
    assert!(patch.keep(MID, TYPE, C));
    assert!(patch.additions().is_empty());
}

#[test]
fn detects_graph_name_from_ontology_declaration() {
    let iri = |s: &str| Term::Iri(s.to_string());
    let ty = "http://www.w3.org/1999/02/22-rdf-syntax-ns#type";
    let ont = "http://www.w3.org/2002/07/owl#Ontology";
    let triples = vec![
        (iri("http://ex/a"), iri(ty), iri("http://ex/Class")),
        (Term::BNode("_:b0".to_string()), iri(ty), iri(ont)),
        (iri("http://ex/o"), iri(ty), iri(ont)),
    ];
    assert_eq!(detect_graphname(&triples), Some("_:b0".to_string()));
    assert_eq!(detect_graphname(&triples[2..].to_vec()), Some("http://ex/o".to_string()));
    assert_eq!(detect_graphname(&triples[..1].to_vec()), None);
}

#[test]
fn patterns_match_bound_slots() {
    let any = Pattern::any();
    assert!(any.matches(1, 2, 3));
    let p = Pattern { s: Some(1), p: None, o: Some(3) };
    assert!(p.matches(1, 9, 3));
    assert!(!p.matches(1, 9, 4));
    assert!(!p.matches(2, 9, 3));
    let m = Match { gid: 0, s: 1, p: 2, o: 3 };
    assert_eq!(m, Match { gid: 0, s: 1, p: 2, o: 3 });
}

const TYPE_IRI: &str = "http://www.w3.org/1999/02/22-rdf-syntax-ns#type";
const ONT_IRI: &str = "http://www.w3.org/2002/07/owl#Ontology";
const IMPORTS_IRI: &str = "http://www.w3.org/2002/07/owl#imports";
const PREFIXES_IRI: &str = "http://www.w3.org/ns/shacl#prefixes";
const DECLARE_IRI: &str = "http://www.w3.org/ns/shacl#declare";
const PREFIX_IRI: &str = "http://www.w3.org/ns/shacl#prefix";
const NS_IRI: &str = "http://www.w3.org/ns/shacl#namespace";

fn iri(s: &str) -> Term {
    Term::Iri(s.into())
}

fn lit(s: &str) -> Term {
    Term::Literal { lex: s.into(), dt: None, lang: None }
}

fn q(id: &str, s: Term, p: Term, o: Term) -> Quint {
    Quint { id: id.into(), s, p, o, gname: id.into() }
}

/// Write `quints` and open the written image as a snapshot.
fn snap(quints: &[Quint]) -> Snapshot {
    let bytes = write_file(&quints.to_vec()).expect("write fixture");
    Snapshot::from_file(R5tuFile::from_bytes(bytes).expect("open image")).expect("open snapshot")
}

fn all_gids(s: &Snapshot) -> Vec<u64> {
    let mut gids = Vec::new();
    for name in s.graph_names() {
        if let Some(g) = s.gids_for_name(&name) {
            gids.extend_from_slice(g);
        }
    }
    gids
}

/// The flattened closure as display-form `(s, p, o)` triples.
fn closure_set(s: &mut Snapshot, patch: &ClosurePatch, gids: &[u64]) -> Vec<(String, String, String)> {
    let ids: Vec<(u64, u64, u64)> =
        ClosureTripleIds::new(s, patch, gids).collect_all().into_iter().map(|r| r.unwrap()).collect();
    let f = s.file();
    let dec = |id: u64| f.term_to_string(id).unwrap();
    ids.into_iter().map(|(a, b, c)| (dec(a), dec(b), dec(c))).collect()
}

fn triple(s: &str, p: &str, o: &str) -> (String, String, String) {
    (s.to_string(), p.to_string(), o.to_string())
}

#[test]
fn strips_imports_collapses_decls_and_adds_root() {
    // root imports mid; mid imports leaf. Root does not declare itself.
    let root = "http://ex/root";
    let mid = "http://ex/mid";
    let leaf = "http://ex/leaf";
    let quints = vec![
        q(root, iri(root), iri(IMPORTS_IRI), iri(mid)),
        q(root, iri("http://ex/RootClass"), iri(TYPE_IRI), iri("http://www.w3.org/2002/07/owl#Class")),
        q(mid, iri(mid), iri(TYPE_IRI), iri(ONT_IRI)),
        q(mid, iri(mid), iri(IMPORTS_IRI), iri(leaf)),
        q(mid, iri("http://ex/Shared"), iri(TYPE_IRI), iri("http://ex/C")),
        q(leaf, iri(leaf), iri(TYPE_IRI), iri(ONT_IRI)),
        q(leaf, iri("http://ex/Shared"), iri(TYPE_IRI), iri("http://ex/C")),
    ];
    let mut s = snap(&quints);
    let gids = all_gids(&s);
    let closure_iris = vec![root.to_string(), mid.to_string(), leaf.to_string()];
    let patch = ClosurePatch::from_snapshot(&mut s, root, &closure_iris, true, true).unwrap();
    let set = closure_set(&mut s, &patch, &gids);

    // resolved owl:imports stripped
    assert!(!set.iter().any(|(_, p, _)| p == IMPORTS_IRI), "imports leaked: {set:?}");
    // only the root ontology declaration remains
    let decls: Vec<_> = set.iter().filter(|(_, p, o)| p == TYPE_IRI && o == ONT_IRI).collect();
    assert_eq!(decls.len(), 1, "expected 1 ontology decl, got {decls:?}");
    assert_eq!(decls[0].0, root);
    // the root declaration is added even though the root did not declare itself
    assert!(set.contains(&triple(root, TYPE_IRI, ONT_IRI)));
    // the cross-graph duplicate collapses to one
    let shared: Vec<_> = set.iter().filter(|(sub, _, _)| sub == "http://ex/Shared").collect();
    assert_eq!(shared.len(), 1, "shared triple not deduped: {shared:?}");
}

#[test]
fn rewrites_sh_prefixes_onto_root() {
    let root = "http://ex/root";
    let leaf = "http://ex/leaf";
    let quints = vec![
        q(root, iri(root), iri(TYPE_IRI), iri(ONT_IRI)),
        q(root, iri(root), iri(IMPORTS_IRI), iri(leaf)),
        q(leaf, iri(leaf), iri(TYPE_IRI), iri(ONT_IRI)),
        q(leaf, iri(leaf), iri(PREFIXES_IRI), iri(leaf)),
        q(leaf, iri(leaf), iri(DECLARE_IRI), Term::BNode("_:d".into())),
        q(leaf, Term::BNode("_:d".into()), iri(PREFIX_IRI), lit("leaf")),
        q(leaf, Term::BNode("_:d".into()), iri(NS_IRI), lit("http://ex/leaf#")),
    ];
    let mut s = snap(&quints);
    let gids = all_gids(&s);
    let closure_iris = vec![root.to_string(), leaf.to_string()];
    let patch = ClosurePatch::from_snapshot(&mut s, root, &closure_iris, true, true).unwrap();
    let set = closure_set(&mut s, &patch, &gids);

    // sh:prefixes now points at the root, and none points at the leaf
    assert!(set.contains(&triple(leaf, PREFIXES_IRI, root)));
    assert!(!set.contains(&triple(leaf, PREFIXES_IRI, leaf)));
    // sh:declare moved onto the root
    assert!(set.iter().any(|(sub, p, _)| sub == root && p == DECLARE_IRI));
    assert!(!set.iter().any(|(sub, p, _)| sub == leaf && p == DECLARE_IRI));
}

#[test]
fn no_rewrite_when_disabled_keeps_imports_and_prefixes() {
    let root = "http://ex/root";
    let leaf = "http://ex/leaf";
    let quints = vec![
        q(root, iri(root), iri(TYPE_IRI), iri(ONT_IRI)),
        q(root, iri(root), iri(IMPORTS_IRI), iri(leaf)),
        q(leaf, iri(leaf), iri(TYPE_IRI), iri(ONT_IRI)),
        q(leaf, iri(leaf), iri(PREFIXES_IRI), iri(leaf)),
    ];
    let mut s = snap(&quints);
    let gids = all_gids(&s);
    let closure_iris = vec![root.to_string(), leaf.to_string()];
    let patch = ClosurePatch::from_snapshot(&mut s, root, &closure_iris, false, false).unwrap();
    let set = closure_set(&mut s, &patch, &gids);

    // imports kept
    assert!(set.contains(&triple(root, IMPORTS_IRI, leaf)));
    // the sh:prefixes triple kept as written
    assert!(set.contains(&triple(leaf, PREFIXES_IRI, leaf)));
    // non-root ontology declarations are always collapsed
    let decls: Vec<_> = set.iter().filter(|(_, p, o)| p == TYPE_IRI && o == ONT_IRI).collect();
    assert_eq!(decls.len(), 1);
    assert_eq!(decls[0].0, root);
}

#[test]
fn from_snapshot_reads_root_declaration_and_prefix_inputs() {
    // the root declares itself, so nothing is added for it; the leaf's
    // declaration with a key the root already has stays out
    let root = "http://ex/root";
    let leaf = "http://ex/leaf";
    let quints = vec![
        q(root, iri(root), iri(TYPE_IRI), iri(ONT_IRI)),
        q(root, iri(root), iri(DECLARE_IRI), iri("http://ex/d0")),
        q(root, iri("http://ex/d0"), iri(PREFIX_IRI), lit("ex")),
        q(root, iri("http://ex/d0"), iri(NS_IRI), lit("http://ex#")),
        q(leaf, iri(leaf), iri(DECLARE_IRI), iri("http://ex/d1")),
        q(leaf, iri("http://ex/d1"), iri(PREFIX_IRI), lit("ex")),
        q(leaf, iri("http://ex/d1"), iri(NS_IRI), lit("http://ex#")),
    ];
    let mut s = snap(&quints);
    let id = |s: &Snapshot, x: &str| s.file().iri_term_id(x).unwrap();
    let patch = ClosurePatch::from_snapshot(&mut s, root, &vec![], false, true).unwrap();
    assert_eq!(patch.root_id(), id(&s, root));
    assert!(patch.additions().is_empty());
    assert!(!patch.keep(id(&s, leaf), id(&s, DECLARE_IRI), id(&s, "http://ex/d1")));
    assert!(patch.keep(id(&s, root), id(&s, DECLARE_IRI), id(&s, "http://ex/d0")));
    // without consolidation only the root declaration is considered
    let plain = ClosurePatch::from_snapshot(&mut s, "http://ex/other", &vec![], false, false).unwrap();
    assert_eq!(plain.additions().len(), 1);
    assert!(!plain.keep(id(&s, root), id(&s, TYPE_IRI), id(&s, ONT_IRI)));
}
