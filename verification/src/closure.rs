//! The closure transform of an ontology's imports closure, as a patch over
//! term ids: which triples are removed (see [`ClosurePatch::keep`]) and which
//! are added (the patch graph), so that a reader presents
//! `dedup(scan - removals) + additions` as one flattened graph.
//!
//! 1. Resolved `owl:imports` (whose object is one of the closure's ontologies)
//!    are stripped.
//! 2. `rdf:type owl:Ontology` is kept only for the root, which is declared if
//!    it did not declare itself.
//! 3. Optionally, SHACL prefixes are consolidated: every `sh:prefixes` triple
//!    points at the root, and non-root `sh:declare` nodes move onto the root,
//!    de-duplicated by their (prefix, namespace).
use vstd::prelude::*;
use crate::intern::{distinct_in_order, intern_view};
use crate::layout::Outcome;
use crate::reader::{R5Error, Result};
use crate::snapshot::{
    as_items, dedup_items, items_are, scan_items, ItemSink, Match, Pattern, Scope, ScopeView, Snapshot,
};
use crate::text::str_eq;
use crate::reader::{spec_iri_id, spec_term_parts, R5tuFile, TermRead};
use crate::snapshot::item_is;
use crate::writer::{Term, TermView};

verus! {

/// The term ids the transform needs.
#[derive(Debug, Clone, Copy)]
pub struct ClosureIds {
    /// `rdf:type`
    pub type_id: u64,
    /// `owl:Ontology`
    pub ontology_id: u64,
    /// `owl:imports`
    pub imports_id: u64,
    /// `sh:prefixes`
    pub prefixes_id: u64,
    /// `sh:declare`
    pub declare_id: u64,
    /// the root ontology
    pub root_id: u64,
}

/// One `(s sh:declare o)` triple of the closure, with the (prefix, namespace)
/// of its declaration node when both are known.
#[derive(Debug, Clone)]
pub struct DeclareHit {
    pub s: u64,
    pub o: u64,
    pub key: Option<(String, String)>,
}

/// The characters of a declaration hit.
pub struct DeclareView {
    pub s: u64,
    pub o: u64,
    pub key: Option<(Seq<char>, Seq<char>)>,
}

impl View for DeclareHit {
    type V = DeclareView;

    open spec fn view(&self) -> DeclareView {
        DeclareView {
            s: self.s,
            o: self.o,
            key: match self.key {
                None => None,
                Some(k) => Some((k.0@, k.1@)),
            },
        }
    }
}

/// The views of declaration hits.
pub open spec fn declare_views(hits: Seq<DeclareHit>) -> Seq<DeclareView> {
    hits.map_values(|h: DeclareHit| h@)
}

/// The keys the root declares itself.
pub open spec fn root_keys(hits: Seq<DeclareView>, root: u64) -> Set<(Seq<char>, Seq<char>)> {
    Set::new(|k: (Seq<char>, Seq<char>)| exists|i: int| 0 <= i < hits.len() && hits[i].s == root && hits[i].key == Some(k))
}

/// The declaration nodes moved onto the root, and the keys seen so far: a
/// non-root declaration moves unless its key was already seen; one without a
/// key always moves.
pub open spec fn moved_decls(hits: Seq<DeclareView>, root: u64, seen0: Set<(Seq<char>, Seq<char>)>)
    -> (Seq<u64>, Set<(Seq<char>, Seq<char>)>)
    decreases hits.len(),
{
    if hits.len() == 0 {
        (seq![], seen0)
    } else {
        let (objs, seen) = moved_decls(hits.drop_last(), root, seen0);
        let h = hits.last();
        if h.s == root {
            (objs, seen)
        } else {
            match h.key {
                None => (objs.push(h.o), seen),
                Some(k) => if seen.contains(k) {
                    (objs, seen)
                } else {
                    (objs.push(h.o), seen.insert(k))
                },
            }
        }
    }
}

/// The additions before de-duplication: the root's declaration when it has
/// none, then (when consolidating prefixes) one `sh:prefixes root` per
/// distinct subject and one `root sh:declare o` per moved declaration.
pub open spec fn raw_additions(
    ids: ClosureIds,
    root_declares_itself: bool,
    rewrite: bool,
    prefix_subjects: Seq<u64>,
    decls: Seq<DeclareView>,
) -> Seq<(u64, u64, u64)> {
    let decl = if root_declares_itself {
        seq![]
    } else {
        seq![(ids.root_id, ids.type_id, ids.ontology_id)]
    };
    if rewrite {
        decl + distinct_in_order(prefix_subjects).map_values(|s: u64| (s, ids.prefixes_id, ids.root_id))
            + moved_decls(decls, ids.root_id, root_keys(decls, ids.root_id)).0.map_values(
            |o: u64| (ids.root_id, ids.declare_id, o),
        )
    } else {
        decl
    }
}

/// The subjects of non-root declarations.
pub open spec fn moved_subjects(decls: Seq<DeclareView>, root: u64) -> Set<u64> {
    Set::new(|s: u64| s != root && exists|i: int| 0 <= i < decls.len() && decls[i].s == s)
}

/// A precomputed description of the closure transform in term-id space.
#[derive(Debug)]
pub struct ClosurePatch {
    ids: ClosureIds,
    imports_targets: Vec<u64>,
    remove_owl_imports: bool,
    rewrite_sh_prefixes: bool,
    declare_subjects_moved: Vec<u64>,
    additions: Vec<(u64, u64, u64)>,
}

/// Append `t` unless `v` holds it.
fn push_distinct(v: &mut Vec<(u64, u64, u64)>, t: (u64, u64, u64))
    ensures
        final(v)@ == intern_view(old(v)@, t),
{
    let mut i: usize = 0;
    while i < v.len()
        invariant
            i <= v@.len(),
            v@ == old(v)@,
            forall|j: int| 0 <= j < i ==> v@[j] != t,
        decreases v@.len() - i,
    {
        let (a, b, c) = v[i];
        if a == t.0 && b == t.1 && c == t.2 {
            assert(v@[i as int] == t);
            assert(v@.contains(t));
            return;
        }
        i = i + 1;
    }
    v.push(t);
}

/// Whether `v` holds `x`.
fn contains_u64(v: &Vec<u64>, x: u64) -> (r: bool)
    ensures
        r == v@.contains(x),
{
    let mut i: usize = 0;
    while i < v.len()
        invariant
            i <= v@.len(),
            forall|j: int| 0 <= j < i ==> v@[j] != x,
        decreases v@.len() - i,
    {
        if v[i] == x {
            return true;
        }
        i = i + 1;
    }
    false
}

/// Whether `keys` holds `k`.
fn has_key(keys: &Vec<(String, String)>, k: &(String, String)) -> (r: bool)
    ensures
        r == exists|i: int| 0 <= i < keys@.len() && keys@[i].0@ == k.0@ && keys@[i].1@ == k.1@,
{
    let mut i: usize = 0;
    while i < keys.len()
        invariant
            i <= keys@.len(),
            forall|j: int| 0 <= j < i ==> !(keys@[j].0@ == k.0@ && keys@[j].1@ == k.1@),
        decreases keys@.len() - i,
    {
        if str_eq(keys[i].0.as_str(), k.0.as_str()) && str_eq(keys[i].1.as_str(), k.1.as_str()) {
            return true;
        }
        i = i + 1;
    }
    false
}

/// The keys held, as a set of character pairs.
pub open spec fn key_set(keys: Seq<(String, String)>) -> Set<(Seq<char>, Seq<char>)> {
    Set::new(|k: (Seq<char>, Seq<char>)| exists|i: int| 0 <= i < keys.len() && keys[i].0@ == k.0 && keys[i].1@ == k.1)
}

impl ClosurePatch {
    /// The term ids of the transform.
    pub closed spec fn ids_view(&self) -> ClosureIds {
        self.ids
    }

    /// The `owl:imports` objects to strip.
    pub closed spec fn targets(&self) -> Seq<u64> {
        self.imports_targets@
    }

    /// Whether resolved imports are stripped.
    pub closed spec fn removes_imports(&self) -> bool {
        self.remove_owl_imports
    }

    /// Whether SHACL prefixes are consolidated.
    pub closed spec fn rewrites_prefixes(&self) -> bool {
        self.rewrite_sh_prefixes
    }

    /// The subjects whose `sh:declare` triples move onto the root.
    pub closed spec fn moved(&self) -> Seq<u64> {
        self.declare_subjects_moved@
    }

    /// The added triples.
    pub closed spec fn added(&self) -> Seq<(u64, u64, u64)> {
        self.additions@
    }

    /// Build the patch from the transform's term ids and what a scan of the
    /// closure found: whether the root declares itself, the subjects of the
    /// `sh:prefixes` triples and the `sh:declare` triples with their keys, in
    /// scan order. `imports_targets` are the term ids of the closure's
    /// ontologies (stripped only when `remove_owl_imports`).
    pub fn build(
        ids: ClosureIds,
        imports_targets: &Vec<u64>,
        remove_owl_imports: bool,
        rewrite_sh_prefixes: bool,
        root_declares_itself: bool,
        prefix_subjects: &Vec<u64>,
        declares: &Vec<DeclareHit>,
    ) -> (r: ClosurePatch)
        ensures
            r.ids_view() == ids,
            r.removes_imports() == remove_owl_imports,
            r.rewrites_prefixes() == rewrite_sh_prefixes,
            forall|x: u64| r.targets().contains(x) <==> remove_owl_imports && imports_targets@.contains(x),
            forall|s: u64| r.moved().contains(s) <==> rewrite_sh_prefixes
                && moved_subjects(declare_views(declares@), ids.root_id).contains(s),
            r.added() == distinct_in_order(raw_additions(
                ids,
                root_declares_itself,
                rewrite_sh_prefixes,
                prefix_subjects@,
                declare_views(declares@),
            )),
    {
        let mut targets: Vec<u64> = Vec::new();
        if remove_owl_imports {
            let mut i: usize = 0;
            while i < imports_targets.len()
                invariant
                    i <= imports_targets@.len(),
                    targets@ == imports_targets@.subrange(0, i as int),
                decreases imports_targets@.len() - i,
            {
                targets.push(imports_targets[i]);
                assert(imports_targets@.subrange(0, i + 1) =~= imports_targets@.subrange(0, i as int).push(imports_targets@[i as int]));
                i = i + 1;
            }
            assert(imports_targets@.subrange(0, imports_targets@.len() as int) =~= imports_targets@);
        }
        let ghost decls = declare_views(declares@);
        let mut raw: Vec<(u64, u64, u64)> = Vec::new();
        if !root_declares_itself {
            raw.push((ids.root_id, ids.type_id, ids.ontology_id));
        }
        let mut moved: Vec<u64> = Vec::new();
        let ghost decl_part = raw@;
        if rewrite_sh_prefixes {
            // one `s sh:prefixes root` per distinct subject
            let mut subs: Vec<u64> = Vec::new();
            let mut i: usize = 0;
            while i < prefix_subjects.len()
                invariant
                    i <= prefix_subjects@.len(),
                    subs@ == distinct_in_order(prefix_subjects@.subrange(0, i as int)),
                decreases prefix_subjects@.len() - i,
            {
                let x = prefix_subjects[i];
                let c = contains_u64(&subs, x);
                if !c {
                    subs.push(x);
                }
                assert(prefix_subjects@.subrange(0, i + 1).drop_last() =~= prefix_subjects@.subrange(0, i as int));
                i = i + 1;
            }
            assert(prefix_subjects@.subrange(0, prefix_subjects@.len() as int) =~= prefix_subjects@);
            let mut k: usize = 0;
            let ghost before = raw@;
            while k < subs.len()
                invariant
                    k <= subs@.len(),
                    raw@ == before + subs@.subrange(0, k as int).map_values(|s: u64| (s, ids.prefixes_id, ids.root_id)),
                decreases subs@.len() - k,
            {
                raw.push((subs[k], ids.prefixes_id, ids.root_id));
                assert(subs@.subrange(0, k + 1).map_values(|s: u64| (s, ids.prefixes_id, ids.root_id))
                    =~= subs@.subrange(0, k as int).map_values(|s: u64| (s, ids.prefixes_id, ids.root_id)).push(
                    (subs@[k as int], ids.prefixes_id, ids.root_id),
                ));
                k = k + 1;
            }
            assert(subs@.subrange(0, subs@.len() as int) =~= subs@);
            // the root's own keys
            let mut seen: Vec<(String, String)> = Vec::new();
            let mut i: usize = 0;
            while i < declares.len()
                invariant
                    i <= declares@.len(),
                    decls == declare_views(declares@),
                    key_set(seen@) == Set::new(|k: (Seq<char>, Seq<char>)| exists|j: int| 0 <= j < i && decls[j].s == ids.root_id
                        && decls[j].key == Some(k)),
                decreases declares@.len() - i,
            {
                let h = &declares[i];
                if h.s == ids.root_id {
                    match &h.key {
                        Some(k) => {
                            let ghost before_seen = seen@;
                            seen.push((k.0.clone(), k.1.clone()));
                            proof {
                                assert(key_set(seen@) =~= Set::new(|kk: (Seq<char>, Seq<char>)| exists|j: int| 0 <= j < i + 1
                                    && decls[j].s == ids.root_id && decls[j].key == Some(kk))) by {
                                    assert forall|kk: (Seq<char>, Seq<char>)| key_set(seen@).contains(kk) implies
                                        exists|j: int| 0 <= j < i + 1 && decls[j].s == ids.root_id && decls[j].key == Some(kk) by {
                                        let w = choose|w: int| 0 <= w < seen@.len() && seen@[w].0@ == kk.0 && seen@[w].1@ == kk.1;
                                        if w < before_seen.len() {
                                            assert(key_set(before_seen).contains(kk));
                                        } else {
                                            assert(decls[i as int].key == Some(kk));
                                        }
                                    }
                                    assert forall|kk: (Seq<char>, Seq<char>)| (exists|j: int| 0 <= j < i + 1
                                        && decls[j].s == ids.root_id && decls[j].key == Some(kk)) implies key_set(seen@).contains(kk) by {
                                        let j = choose|j: int| 0 <= j < i + 1 && decls[j].s == ids.root_id && decls[j].key == Some(kk);
                                        if j < i {
                                            assert(key_set(before_seen).contains(kk));
                                            let w = choose|w: int| 0 <= w < before_seen.len() && before_seen[w].0@ == kk.0 && before_seen[w].1@ == kk.1;
                                            assert(seen@[w] == before_seen[w]);
                                        } else {
                                            assert(seen@[before_seen.len() as int].0@ == kk.0);
                                        }
                                    }
                                }
                            }
                        },
                        None => {
                            proof {
                                assert(key_set(seen@) =~= Set::new(|kk: (Seq<char>, Seq<char>)| exists|j: int| 0 <= j < i + 1
                                    && decls[j].s == ids.root_id && decls[j].key == Some(kk))) by {
                                    assert forall|kk: (Seq<char>, Seq<char>)| (exists|j: int| 0 <= j < i + 1
                                        && decls[j].s == ids.root_id && decls[j].key == Some(kk)) implies key_set(seen@).contains(kk) by {
                                        let j = choose|j: int| 0 <= j < i + 1 && decls[j].s == ids.root_id && decls[j].key == Some(kk);
                                        assert(j < i);
                                    }
                                }
                            }
                        },
                    }
                } else {
                    proof {
                        assert(key_set(seen@) =~= Set::new(|kk: (Seq<char>, Seq<char>)| exists|j: int| 0 <= j < i + 1
                            && decls[j].s == ids.root_id && decls[j].key == Some(kk))) by {
                            assert forall|kk: (Seq<char>, Seq<char>)| (exists|j: int| 0 <= j < i + 1
                                && decls[j].s == ids.root_id && decls[j].key == Some(kk)) implies key_set(seen@).contains(kk) by {
                                let j = choose|j: int| 0 <= j < i + 1 && decls[j].s == ids.root_id && decls[j].key == Some(kk);
                                assert(j < i);
                            }
                        }
                    }
                }
                i = i + 1;
            }
            assert(key_set(seen@) =~= root_keys(decls, ids.root_id));
            // relocate the non-root declarations
            let ghost seen0 = key_set(seen@);
            let ghost before = raw@;
            let mut i: usize = 0;
            assert(declares@.subrange(0, 0) =~= Seq::<DeclareHit>::empty());
            while i < declares.len()
                invariant
                    i <= declares@.len(),
                    decls == declare_views(declares@),
                    seen0 == root_keys(decls, ids.root_id),
                    moved_decls(decls.subrange(0, i as int), ids.root_id, seen0).1 == key_set(seen@),
                    raw@ == before + moved_decls(decls.subrange(0, i as int), ids.root_id, seen0).0.map_values(
                        |o: u64| (ids.root_id, ids.declare_id, o),
                    ),
                    forall|s: u64| moved@.contains(s) <==> s != ids.root_id && exists|j: int| 0 <= j < i && decls[j].s == s,
                decreases declares@.len() - i,
            {
                let h = &declares[i];
                let ghost pre = decls.subrange(0, i as int);
                let ghost nxt = decls.subrange(0, i + 1);
                assert(nxt.drop_last() =~= pre);
                assert(nxt.last() == h@);
                let ghost prev_moved = moved@;
                let ghost prev_seen = seen@;
                let ghost prev_raw = raw@;
                if h.s != ids.root_id {
                    moved.push(h.s);
                    match &h.key {
                        None => {
                            raw.push((ids.root_id, ids.declare_id, h.o));
                        },
                        Some(k) => {
                            if !has_key(&seen, k) {
                                seen.push((k.0.clone(), k.1.clone()));
                                raw.push((ids.root_id, ids.declare_id, h.o));
                                proof {
                                    assert(key_set(seen@) =~= key_set(prev_seen).insert((k.0@, k.1@))) by {
                                        assert forall|kk: (Seq<char>, Seq<char>)| key_set(seen@).contains(kk) implies
                                            key_set(prev_seen).insert((k.0@, k.1@)).contains(kk) by {
                                            let w = choose|w: int| 0 <= w < seen@.len() && seen@[w].0@ == kk.0 && seen@[w].1@ == kk.1;
                                            if w < prev_seen.len() {
                                                assert(prev_seen[w] == seen@[w]);
                                            }
                                        }
                                        assert forall|kk: (Seq<char>, Seq<char>)| key_set(prev_seen).insert((k.0@, k.1@)).contains(kk)
                                            implies key_set(seen@).contains(kk) by {
                                            if key_set(prev_seen).contains(kk) {
                                                let w = choose|w: int| 0 <= w < prev_seen.len() && prev_seen[w].0@ == kk.0 && prev_seen[w].1@ == kk.1;
                                                assert(seen@[w] == prev_seen[w]);
                                            } else {
                                                assert(seen@[prev_seen.len() as int].0@ == kk.0);
                                            }
                                        }
                                    }
                                }
                            } else {
                                proof {
                                    assert(key_set(prev_seen).contains((k.0@, k.1@)));
                                }
                            }
                        },
                    }
                }
                proof {
                    let m0 = moved_decls(pre, ids.root_id, seen0).0;
                    let m1 = moved_decls(nxt, ids.root_id, seen0).0;
                    let f = |o: u64| (ids.root_id, ids.declare_id, o);
                    if m1 == m0 {
                        assert(raw@ =~= before + m1.map_values(f));
                    } else {
                        assert(m1 == m0.push(h.o));
                        assert(m1.map_values(f) =~= m0.map_values(f).push((ids.root_id, ids.declare_id, h.o)));
                        assert(raw@ =~= before + m1.map_values(f));
                    }
                    assert forall|s: u64| moved@.contains(s) <==> s != ids.root_id && exists|j: int| 0 <= j < i + 1 && decls[j].s == s by {
                        if moved@.contains(s) {
                            let w = choose|w: int| 0 <= w < moved@.len() && moved@[w] == s;
                            if w < prev_moved.len() {
                                assert(prev_moved.contains(s));
                            } else {
                                assert(decls[i as int].s == s);
                            }
                        }
                        if s != ids.root_id && exists|j: int| 0 <= j < i + 1 && decls[j].s == s {
                            let j = choose|j: int| 0 <= j < i + 1 && decls[j].s == s;
                            if j < i {
                                assert(prev_moved.contains(s));
                                let w = choose|w: int| 0 <= w < prev_moved.len() && prev_moved[w] == s;
                                assert(moved@[w] == s);
                            } else {
                                assert(moved@[prev_moved.len() as int] == s);
                            }
                        }
                    }
                }
                i = i + 1;
            }
            assert(decls.subrange(0, declares@.len() as int) =~= decls);
        }
        proof {
            let ra = raw_additions(ids, root_declares_itself, rewrite_sh_prefixes, prefix_subjects@, decls);
            assert(raw@ =~= ra);
            assert forall|s: u64| moved@.contains(s) <==> rewrite_sh_prefixes && moved_subjects(decls, ids.root_id).contains(s) by {
                if !rewrite_sh_prefixes {
                    assert(moved@.len() == 0);
                }
            }
        }
        let mut additions: Vec<(u64, u64, u64)> = Vec::new();
        let mut k: usize = 0;
        assert(raw@.subrange(0, 0) =~= Seq::<(u64, u64, u64)>::empty());
        while k < raw.len()
            invariant
                k <= raw@.len(),
                additions@ == distinct_in_order(raw@.subrange(0, k as int)),
            decreases raw@.len() - k,
        {
            push_distinct(&mut additions, raw[k]);
            assert(raw@.subrange(0, k + 1).drop_last() =~= raw@.subrange(0, k as int));
            k = k + 1;
        }
        assert(raw@.subrange(0, raw@.len() as int) =~= raw@);
        ClosurePatch {
            ids,
            imports_targets: targets,
            remove_owl_imports,
            rewrite_sh_prefixes,
            declare_subjects_moved: moved,
            additions,
        }
    }

    /// Whether a scanned triple survives the transform's removals (additions
    /// are not considered).
    pub fn keep(&self, s: u64, p: u64, o: u64) -> (r: bool)
        ensures
            r == spec_keep(self.ids_view(), self.removes_imports(), self.targets(), self.rewrites_prefixes(),
                self.moved(), s, p, o),
    {
        if self.remove_owl_imports && p == self.ids.imports_id && contains_u64(&self.imports_targets, o) {
            return false;
        }
        if p == self.ids.type_id && o == self.ids.ontology_id && s != self.ids.root_id {
            return false;
        }
        if self.rewrite_sh_prefixes {
            if p == self.ids.prefixes_id {
                return false;
            }
            if p == self.ids.declare_id && contains_u64(&self.declare_subjects_moved, s) {
                return false;
            }
        }
        true
    }

    /// The added triples (the patch graph), in term-id space.
    pub fn additions(&self) -> (r: &[(u64, u64, u64)])
        ensures
            r@ == self.added(),
    {
        self.additions.as_slice()
    }

    /// The term id of the root ontology.
    pub fn root_id(&self) -> (r: u64)
        ensures
            r == self.ids_view().root_id,
    {
        self.ids.root_id
    }

    /// Whether `(s, p, o)` is one of the added triples.
    pub fn is_addition(&self, s: u64, p: u64, o: u64) -> (r: bool)
        ensures
            r == self.added().contains((s, p, o)),
    {
        let mut i: usize = 0;
        while i < self.additions.len()
            invariant
                i <= self.additions@.len(),
                forall|j: int| 0 <= j < i ==> self.additions@[j] != (s, p, o),
            decreases self.additions@.len() - i,
        {
            let (a, b, c) = self.additions[i];
            if a == s && b == p && c == o {
                assert(self.additions@[i as int] == (s, p, o));
                return true;
            }
            i = i + 1;
        }
        false
    }

    /// The flattened closure graph over the scanned triples `scanned`: the
    /// surviving triples, first occurrences only, then the additions not
    /// already among them.
    pub fn flatten(&self, scanned: &Vec<(u64, u64, u64)>) -> (r: Vec<(u64, u64, u64)>)
        ensures
            r@ == distinct_in_order(kept(self, scanned@) + self.added()),
    {
        let mut all: Vec<(u64, u64, u64)> = Vec::new();
        let mut i: usize = 0;
        while i < scanned.len()
            invariant
                i <= scanned@.len(),
                all@ == kept(self, scanned@.subrange(0, i as int)),
            decreases scanned@.len() - i,
        {
            let (s, p, o) = scanned[i];
            assert(scanned@.subrange(0, i + 1).drop_last() =~= scanned@.subrange(0, i as int));
            if self.keep(s, p, o) {
                all.push((s, p, o));
            }
            i = i + 1;
        }
        assert(scanned@.subrange(0, scanned@.len() as int) =~= scanned@);
        let mut k: usize = 0;
        let ghost base = all@;
        while k < self.additions.len()
            invariant
                k <= self.additions@.len(),
                all@ == base + self.additions@.subrange(0, k as int),
            decreases self.additions@.len() - k,
        {
            all.push(self.additions[k]);
            assert(self.additions@.subrange(0, k + 1) =~= self.additions@.subrange(0, k as int).push(self.additions@[k as int]));
            k = k + 1;
        }
        assert(self.additions@.subrange(0, self.additions@.len() as int) =~= self.additions@);
        let mut out: Vec<(u64, u64, u64)> = Vec::new();
        let mut j: usize = 0;
        assert(all@.subrange(0, 0) =~= Seq::<(u64, u64, u64)>::empty());
        while j < all.len()
            invariant
                j <= all@.len(),
                out@ == distinct_in_order(all@.subrange(0, j as int)),
            decreases all@.len() - j,
        {
            push_distinct(&mut out, all[j]);
            assert(all@.subrange(0, j + 1).drop_last() =~= all@.subrange(0, j as int));
            j = j + 1;
        }
        assert(all@.subrange(0, all@.len() as int) =~= all@);
        out
    }
}

/// Whether triple (`s`, `p`, `o`) survives the removals: a resolved import
/// (when stripping), a non-root ontology declaration, and (when consolidating
/// prefixes) any `sh:prefixes` triple and the `sh:declare` triples of moved
/// subjects are removed.
pub open spec fn spec_keep(
    ids: ClosureIds,
    remove_imports: bool,
    targets: Seq<u64>,
    rewrite: bool,
    moved: Seq<u64>,
    s: u64,
    p: u64,
    o: u64,
) -> bool {
    &&& !(remove_imports && p == ids.imports_id && targets.contains(o))
    &&& !(p == ids.type_id && o == ids.ontology_id && s != ids.root_id)
    &&& !(rewrite && (p == ids.prefixes_id || (p == ids.declare_id && moved.contains(s))))
}

/// The scanned triples that survive the patch's removals, in order.
pub open spec fn kept(patch: &ClosurePatch, ts: Seq<(u64, u64, u64)>) -> Seq<(u64, u64, u64)>
    decreases ts.len(),
{
    if ts.len() == 0 {
        seq![]
    } else {
        let t = ts.last();
        if spec_keep(patch.ids_view(), patch.removes_imports(), patch.targets(), patch.rewrites_prefixes(),
            patch.moved(), t.0, t.1, t.2) {
            kept(patch, ts.drop_last()).push(t)
        } else {
            kept(patch, ts.drop_last())
        }
    }
}


// ---------------------------------------------------------------- the flattened closure

/// A triple as a match outside any graph group.
pub open spec fn triple_match(t: (u64, u64, u64)) -> Match {
    Match { gid: 0, s: t.0, p: t.1, o: t.2 }
}

/// The scan items the patch keeps: each kept match (outside any graph
/// group) and each failure, in order.
pub open spec fn kept_items(patch: &ClosurePatch, scan: Seq<Outcome<Match>>) -> Seq<Outcome<Match>>
    decreases scan.len(),
{
    if scan.len() == 0 {
        seq![]
    } else {
        let rest = kept_items(patch, scan.drop_last());
        match scan.last() {
            Outcome::Value(m) => if spec_keep(patch.ids_view(), patch.removes_imports(), patch.targets(),
                patch.rewrites_prefixes(), patch.moved(), m.s, m.p, m.o) {
                rest.push(Outcome::Value(triple_match((m.s, m.p, m.o))))
            } else {
                rest
            },
            other => rest.push(other),
        }
    }
}

/// The flattened closure over scan items: the kept matches, then the
/// additions, each triple once (failures stay where they occurred).
pub open spec fn closure_items(patch: &ClosurePatch, scan: Seq<Outcome<Match>>) -> Seq<Outcome<Match>> {
    dedup_items(kept_items(patch, scan) + as_items(patch.added().map_values(|t: (u64, u64, u64)| triple_match(t))))
}

/// A closure item is the expected one.
pub open spec fn triple_item_is(r: Result<(u64, u64, u64)>, o: Outcome<Match>) -> bool {
    match o {
        Outcome::Value(m) => r == Ok::<(u64, u64, u64), R5Error>((m.s, m.p, m.o)),
        Outcome::Invalid => r matches Err(e) && e is Invalid,
        Outcome::Corrupt => r matches Err(e) && e is Corrupt,
    }
}

/// The closure items are the expected ones, in order.
pub open spec fn triple_items_are(r: Seq<Result<(u64, u64, u64)>>, o: Seq<Outcome<Match>>) -> bool {
    r.len() == o.len() && forall|i: int| 0 <= i < r.len() ==> triple_item_is(#[trigger] r[i], o[i])
}

/// The elements of `v`, last first.
fn reversed<T>(v: Vec<T>) -> (r: Vec<T>)
    ensures
        r@ == v@.reverse(),
{
    let mut v = v;
    let ghost orig = v@;
    let mut out: Vec<T> = Vec::new();
    while v.len() > 0
        invariant
            v@.len() <= orig.len(),
            v@ == orig.take(v@.len() as int),
            out@ == orig.skip(v@.len() as int).reverse(),
        decreases v@.len(),
    {
        let ghost n = v@.len() as int;
        let ghost v0 = v@;
        let ghost o0 = out@;
        assert(v0 == orig.take(n));
        let x = v.pop().unwrap();
        assert(x == v0[n - 1]);
        assert(v@ == v0.subrange(0, n - 1));
        out.push(x);
        assert(orig.take(n - 1) =~= v@);
        assert(o0 == orig.skip(n).reverse());
        assert(orig.skip(n - 1).reverse() =~= orig.skip(n).reverse().push(x));
    }
    assert(orig.skip(0) =~= orig);
    out
}

/// The de-duplicated triples of the flattened closure over graph groups:
/// the scanned triples that survive the patch's removals, then the
/// additions not already listed, each triple once; a group that cannot be
/// read yields its error where it occurs.
pub struct ClosureTripleIds {
    rev: Vec<Result<(u64, u64, u64)>>,
}

impl ClosureTripleIds {
    /// The items still to come, in order.
    pub closed spec fn pending(&self) -> Seq<Result<(u64, u64, u64)>> {
        self.rev@.reverse()
    }

    /// The flattened closure over the graph groups `gids` of a snapshot.
    pub fn new(snapshot: &mut Snapshot, patch: &ClosurePatch, gids: &[u64]) -> (r: ClosureTripleIds)
        requires
            old(snapshot).wf(),
        ensures
            final(snapshot).wf(),
            final(snapshot).file_view() == old(snapshot).file_view(),
            final(snapshot).logical() == old(snapshot).logical(),
            triple_items_are(r.pending(), closure_items(patch, scan_items(&old(snapshot).file_view(),
                old(snapshot).logical(), Pattern { s: None, p: None, o: None }, ScopeView::Gids(gids@)))),
    {
        let items = snapshot.scan(Pattern::any(), Scope::Gids(gids));
        let ghost want = scan_items(&old(snapshot).file_view(), old(snapshot).logical(),
            Pattern { s: None, p: None, o: None }, ScopeView::Gids(gids@));
        let ghost n = items@.len();
        let ghost orig = items@;
        let mut rev = reversed(items);
        let mut sink = ItemSink::new(true);
        assert(want.take(0) =~= Seq::<Outcome<Match>>::empty());
        while rev.len() > 0
            invariant
                n == orig.len(),
                items_are(orig, want),
                rev@.len() <= n,
                rev@.reverse() == orig.skip(n - rev@.len()),
                sink.inv(),
                sink.dedups(),
                sink.emitted() == kept_items(patch, want.take(n - rev@.len())),
            decreases rev@.len(),
        {
            let ghost k = n - rev@.len();
            let ghost r0 = rev@;
            let x = rev.pop().unwrap();
            proof {
                assert(r0.reverse()[0] == x);
                assert(orig.skip(k)[0] == orig[k]);
                assert(rev@.reverse() =~= orig.skip(k + 1)) by {
                    assert(rev@.reverse() =~= r0.reverse().drop_first());
                }
                assert(want.take(k + 1).drop_last() =~= want.take(k));
                assert(want.take(k + 1).last() == want[k]);
                assert(item_is_at(orig, want, k));
            }
            match x {
                Ok(m) => {
                    if patch.keep(m.s, m.p, m.o) {
                        let tm = Match { gid: 0, s: m.s, p: m.p, o: m.o };
                        sink.push(Ok(tm), Ghost(Outcome::Value(tm)));
                    }
                },
                Err(e) => {
                    let ghost o = want[k];
                    sink.push(Err(e), Ghost(o));
                },
            }
        }
        assert(want.take(n as int) =~= want);
        let adds = patch.additions();
        let ghost base = sink.emitted();
        let ghost am = patch.added().map_values(|t: (u64, u64, u64)| triple_match(t));
        let mut j: usize = 0;
        assert(base + as_items(am.take(0)) =~= base);
        while j < adds.len()
            invariant
                j <= adds@.len(),
                adds@ == patch.added(),
                am == patch.added().map_values(|t: (u64, u64, u64)| triple_match(t)),
                sink.inv(),
                sink.dedups(),
                sink.emitted() == base + as_items(am.take(j as int)),
            decreases adds@.len() - j,
        {
            let t = adds[j];
            let tm = Match { gid: 0, s: t.0, p: t.1, o: t.2 };
            sink.push(Ok(tm), Ghost(Outcome::Value(tm)));
            assert(as_items(am.take(j + 1)) =~= as_items(am.take(j as int)).push(Outcome::Value(tm)));
            j = j + 1;
        }
        assert(am.take(adds@.len() as int) =~= am);
        let out = sink.finish();
        let ghost expect = closure_items(patch, want);
        let ghost on = out@.len();
        let ghost oo = out@;
        let mut orev = reversed(out);
        let mut tr: Vec<Result<(u64, u64, u64)>> = Vec::new();
        while orev.len() > 0
            invariant
                on == oo.len(),
                items_are(oo, expect),
                orev@.len() <= on,
                orev@.reverse() == oo.skip(on - orev@.len()),
                tr@.len() == on - orev@.len(),
                forall|i: int| 0 <= i < tr@.len() ==> triple_item_is(#[trigger] tr@[i], expect[i]),
            decreases orev@.len(),
        {
            let ghost k = on - orev@.len();
            let ghost r0 = orev@;
            let x = orev.pop().unwrap();
            proof {
                assert(r0.reverse()[0] == x);
                assert(oo.skip(k)[0] == oo[k]);
                assert(orev@.reverse() =~= oo.skip(k + 1)) by {
                    assert(orev@.reverse() =~= r0.reverse().drop_first());
                }
                assert(crate::snapshot::item_is(oo[k], expect[k]));
            }
            match x {
                Ok(m) => tr.push(Ok((m.s, m.p, m.o))),
                Err(e) => tr.push(Err(e)),
            }
        }
        ClosureTripleIds { rev: reversed(tr) }
    }

    /// The next triple of the closure, or its read error; `None` at the end.
    pub fn next(&mut self) -> (r: Option<Result<(u64, u64, u64)>>)
        ensures
            old(self).pending().len() == 0 ==> r is None && final(self).pending().len() == 0,
            old(self).pending().len() > 0 ==> r == Some(old(self).pending()[0])
                && final(self).pending() == old(self).pending().drop_first(),
    {
        let ghost r0 = self.rev@;
        let r = self.rev.pop();
        proof {
            if r0.len() > 0 {
                assert(self.rev@.reverse() =~= r0.reverse().drop_first());
                assert(r0.reverse()[0] == r0.last());
            }
        }
        r
    }

    /// All the remaining items, in order.
    pub fn collect_all(self) -> (r: Vec<Result<(u64, u64, u64)>>)
        ensures
            r@ == self.pending(),
    {
        reversed(self.rev)
    }
}

/// Item `k` of the scan result is the expected item.
spec fn item_is_at(r: Seq<Result<Match>>, o: Seq<Outcome<Match>>, k: int) -> bool {
    crate::snapshot::item_is(r[k], o[k])
}


// ---------------------------------------------------------------- building from a snapshot

/// `rdf:type`.
pub open spec fn rdf_type_iri() -> Seq<char> {
    "http://www.w3.org/1999/02/22-rdf-syntax-ns#type"@
}

/// `owl:Ontology`.
pub open spec fn owl_ontology_iri() -> Seq<char> {
    "http://www.w3.org/2002/07/owl#Ontology"@
}

/// `owl:imports`.
pub open spec fn owl_imports_iri() -> Seq<char> {
    "http://www.w3.org/2002/07/owl#imports"@
}

/// `sh:prefixes`.
pub open spec fn sh_prefixes_iri() -> Seq<char> {
    "http://www.w3.org/ns/shacl#prefixes"@
}

/// `sh:declare`.
pub open spec fn sh_declare_iri() -> Seq<char> {
    "http://www.w3.org/ns/shacl#declare"@
}

/// `sh:prefix`.
pub open spec fn sh_prefix_iri() -> Seq<char> {
    "http://www.w3.org/ns/shacl#prefix"@
}

/// `sh:namespace`.
pub open spec fn sh_namespace_iri() -> Seq<char> {
    "http://www.w3.org/ns/shacl#namespace"@
}

/// The id standing for a term the file does not hold: the `k`-th id past
/// the dictionary, so that no stored triple can match it.
pub open spec fn absent_id(n_terms: u64, k: u64) -> u64 {
    if n_terms <= u64::MAX - 8 {
        (n_terms + k) as u64
    } else {
        (u64::MAX - k) as u64
    }
}

/// The id of IRI `iri` in the file, or the `k`-th absent id.
pub open spec fn id_or_absent(f: &R5tuFile, iri: Seq<char>, k: u64) -> u64 {
    match spec_iri_id(f, iri) {
        Some(id) => id,
        None => absent_id(f.term_dict_view().n_terms, k),
    }
}

/// The transform's term ids in the file, for root ontology `root`.
pub open spec fn snapshot_ids(f: &R5tuFile, root: Seq<char>) -> ClosureIds {
    ClosureIds {
        type_id: id_or_absent(f, rdf_type_iri(), 0),
        ontology_id: id_or_absent(f, owl_ontology_iri(), 1),
        imports_id: id_or_absent(f, owl_imports_iri(), 2),
        prefixes_id: id_or_absent(f, sh_prefixes_iri(), 3),
        declare_id: id_or_absent(f, sh_declare_iri(), 4),
        root_id: id_or_absent(f, root, 7),
    }
}

/// The ids of the IRIs the file holds, in order.
pub open spec fn present_ids(f: &R5tuFile, iris: Seq<Seq<char>>) -> Seq<u64>
    decreases iris.len(),
{
    if iris.len() == 0 {
        seq![]
    } else {
        match spec_iri_id(f, iris.last()) {
            Some(id) => present_ids(f, iris.drop_last()).push(id),
            None => present_ids(f, iris.drop_last()),
        }
    }
}

/// Whether a scan found a match: its first item decides.
pub open spec fn first_found(items: Seq<Outcome<Match>>) -> Outcome<bool> {
    if items.len() == 0 {
        Outcome::Value(false)
    } else {
        match items[0] {
            Outcome::Value(_) => Outcome::Value(true),
            Outcome::Invalid => Outcome::Invalid,
            Outcome::Corrupt => Outcome::Corrupt,
        }
    }
}

/// The subjects of a scan's matches, in order; the first failure wins.
pub open spec fn match_subjects(items: Seq<Outcome<Match>>) -> Outcome<Seq<u64>>
    decreases items.len(),
{
    if items.len() == 0 {
        Outcome::Value(seq![])
    } else {
        match match_subjects(items.drop_last()) {
            Outcome::Invalid => Outcome::Invalid,
            Outcome::Corrupt => Outcome::Corrupt,
            Outcome::Value(ss) => match items.last() {
                Outcome::Invalid => Outcome::Invalid,
                Outcome::Corrupt => Outcome::Corrupt,
                Outcome::Value(m) => Outcome::Value(ss.push(m.s)),
            },
        }
    }
}

/// Term `id` of the file.
pub open spec fn term_read(f: &R5tuFile, id: u64) -> TermRead {
    spec_term_parts(f.file_bytes(), f.term_dict_view(), id)
}

/// The prefix and namespace a declaration node's triples give, reading the
/// scan in order: the lexical form of an `sh:prefix` literal, the IRI or
/// lexical form of an `sh:namespace` object; the last of each wins; the
/// first failure (of the scan or of reading a term) wins.
pub open spec fn decl_fold(f: &R5tuFile, items: Seq<Outcome<Match>>, pfx: u64, ns: u64)
    -> Outcome<(Option<Seq<char>>, Option<Seq<char>>)>
    decreases items.len(),
{
    if items.len() == 0 {
        Outcome::Value((None, None))
    } else {
        match decl_fold(f, items.drop_last(), pfx, ns) {
            Outcome::Invalid => Outcome::Invalid,
            Outcome::Corrupt => Outcome::Corrupt,
            Outcome::Value((a, b)) => match items.last() {
                Outcome::Invalid => Outcome::Invalid,
                Outcome::Corrupt => Outcome::Corrupt,
                Outcome::Value(m) => if m.p == pfx {
                    match term_read(f, m.o) {
                        TermRead::OutOfRange => Outcome::Invalid,
                        TermRead::Corrupt => Outcome::Corrupt,
                        TermRead::Found(TermView::Literal(lex, _, _)) => Outcome::Value((Some(lex), b)),
                        TermRead::Found(_) => Outcome::Value((a, b)),
                    }
                } else if m.p == ns {
                    match term_read(f, m.o) {
                        TermRead::OutOfRange => Outcome::Invalid,
                        TermRead::Corrupt => Outcome::Corrupt,
                        TermRead::Found(TermView::Iri(v)) => Outcome::Value((a, Some(v))),
                        TermRead::Found(TermView::Literal(lex, _, _)) => Outcome::Value((a, Some(lex))),
                        TermRead::Found(TermView::BNode(_)) => Outcome::Value((a, b)),
                    }
                } else {
                    Outcome::Value((a, b))
                },
            },
        }
    }
}

/// The pattern of all triples with subject `s`.
pub open spec fn subject_pattern(s: u64) -> Pattern {
    Pattern { s: Some(s), p: None, o: None }
}

/// The pattern of all triples with predicate `p`.
pub open spec fn predicate_pattern(p: u64) -> Pattern {
    Pattern { s: None, p: Some(p), o: None }
}

/// The (prefix, namespace) key of declaration node `node`, when both are
/// given.
pub open spec fn decl_key_of(f: &R5tuFile, lg: Seq<(Seq<char>, Seq<u64>, u64)>, node: u64, pfx: u64, ns: u64)
    -> Outcome<Option<(Seq<char>, Seq<char>)>>
{
    match decl_fold(f, scan_items(f, lg, subject_pattern(node), ScopeView::All), pfx, ns) {
        Outcome::Invalid => Outcome::Invalid,
        Outcome::Corrupt => Outcome::Corrupt,
        Outcome::Value((Some(a), Some(b))) => Outcome::Value(Some((a, b))),
        Outcome::Value(_) => Outcome::Value(None),
    }
}

/// The declaration hits of a scan of `sh:declare` triples, each with the key
/// of its node, in order; the first failure wins.
pub open spec fn decl_hits(f: &R5tuFile, lg: Seq<(Seq<char>, Seq<u64>, u64)>, items: Seq<Outcome<Match>>,
    pfx: u64, ns: u64) -> Outcome<Seq<DeclareView>>
    decreases items.len(),
{
    if items.len() == 0 {
        Outcome::Value(seq![])
    } else {
        match decl_hits(f, lg, items.drop_last(), pfx, ns) {
            Outcome::Invalid => Outcome::Invalid,
            Outcome::Corrupt => Outcome::Corrupt,
            Outcome::Value(hs) => match items.last() {
                Outcome::Invalid => Outcome::Invalid,
                Outcome::Corrupt => Outcome::Corrupt,
                Outcome::Value(m) => match decl_key_of(f, lg, m.o, pfx, ns) {
                    Outcome::Invalid => Outcome::Invalid,
                    Outcome::Corrupt => Outcome::Corrupt,
                    Outcome::Value(k) => Outcome::Value(hs.push(DeclareView { s: m.s, o: m.o, key: k })),
                },
            },
        }
    }
}

/// What a scan of a snapshot gives the patch.
pub struct PatchInputs {
    pub ids: ClosureIds,
    pub targets: Seq<u64>,
    pub root_declares_itself: bool,
    pub prefix_subjects: Seq<u64>,
    pub decls: Seq<DeclareView>,
}

/// What the patch of root `root` over closure `iris` is built from, read
/// from the snapshot's triples (all graph groups): the transform's ids, the
/// ids of the closure's ontologies, whether the root declares itself (the
/// first match of `(root rdf:type owl:Ontology)`), and, when prefixes are
/// consolidated, the subjects of the `sh:prefixes` triples and the
/// `sh:declare` triples with the keys of their nodes. The first failure to
/// read wins.
pub open spec fn spec_patch_inputs(f: &R5tuFile, lg: Seq<(Seq<char>, Seq<u64>, u64)>, root: Seq<char>,
    iris: Seq<Seq<char>>, remove_owl_imports: bool, rewrite_sh_prefixes: bool) -> Outcome<PatchInputs>
{
    let ids = snapshot_ids(f, root);
    let pfx = id_or_absent(f, sh_prefix_iri(), 5);
    let ns = id_or_absent(f, sh_namespace_iri(), 6);
    let targets = if remove_owl_imports { present_ids(f, iris) } else { seq![] };
    let decl_pat = Pattern { s: Some(ids.root_id), p: Some(ids.type_id), o: Some(ids.ontology_id) };
    match first_found(scan_items(f, lg, decl_pat, ScopeView::All)) {
        Outcome::Invalid => Outcome::Invalid,
        Outcome::Corrupt => Outcome::Corrupt,
        Outcome::Value(rd) => if !rewrite_sh_prefixes {
            Outcome::Value(PatchInputs { ids, targets, root_declares_itself: rd, prefix_subjects: seq![], decls: seq![] })
        } else {
            match match_subjects(scan_items(f, lg, predicate_pattern(ids.prefixes_id), ScopeView::All)) {
                Outcome::Invalid => Outcome::Invalid,
                Outcome::Corrupt => Outcome::Corrupt,
                Outcome::Value(ps) => match decl_hits(f, lg, scan_items(f, lg, predicate_pattern(ids.declare_id),
                    ScopeView::All), pfx, ns) {
                    Outcome::Invalid => Outcome::Invalid,
                    Outcome::Corrupt => Outcome::Corrupt,
                    Outcome::Value(ds) => Outcome::Value(PatchInputs {
                        ids,
                        targets,
                        root_declares_itself: rd,
                        prefix_subjects: ps,
                        decls: ds,
                    }),
                },
            }
        },
    }
}

/// `p` is the patch built from `inp` with the two switches.
pub open spec fn patch_from(p: ClosurePatch, inp: PatchInputs, remove_owl_imports: bool, rewrite_sh_prefixes: bool) -> bool {
    &&& p.ids_view() == inp.ids
    &&& p.removes_imports() == remove_owl_imports
    &&& p.rewrites_prefixes() == rewrite_sh_prefixes
    &&& forall|x: u64| p.targets().contains(x) <==> remove_owl_imports && inp.targets.contains(x)
    &&& forall|s: u64| p.moved().contains(s) <==> rewrite_sh_prefixes && moved_subjects(inp.decls, inp.ids.root_id).contains(s)
    &&& p.added() == distinct_in_order(raw_additions(inp.ids, inp.root_declares_itself, rewrite_sh_prefixes,
        inp.prefix_subjects, inp.decls))
}

/// The id of IRI `iri`, or the `k`-th absent id.
fn vocab_id(f: &R5tuFile, iri: &str, k: u64) -> (r: u64)
    requires
        k < 8,
    ensures
        r == id_or_absent(f, iri@, k),
{
    match f.iri_term_id(iri) {
        Some(id) => id,
        None => {
            let n = f.num_terms();
            if n <= u64::MAX - 8 {
                n + k
            } else {
                u64::MAX - k
            }
        },
    }
}

/// The views of a vector of strings.
pub open spec fn string_views(v: Seq<String>) -> Seq<Seq<char>> {
    v.map_values(|s: String| s@)
}

/// The (prefix, namespace) key of a declaration node.
fn decl_key(snap: &mut Snapshot, node: u64, pfx: u64, ns: u64) -> (r: Result<Option<(String, String)>>)
    requires
        old(snap).wf(),
    ensures
        final(snap).wf(),
        final(snap).file_view() == old(snap).file_view(),
        final(snap).logical() == old(snap).logical(),
        match decl_key_of(&old(snap).file_view(), old(snap).logical(), node, pfx, ns) {
            Outcome::Invalid => r matches Err(e) && e is Invalid,
            Outcome::Corrupt => r matches Err(e) && e is Corrupt,
            Outcome::Value(None) => r matches Ok(None),
            Outcome::Value(Some((a, b))) => r matches Ok(Some((x, y))) && x@ == a && y@ == b,
        },
{
    let ghost f = snap.file_view();
    let ghost lg = snap.logical();
    let items = snap.scan(subject_pattern_exec(node), Scope::All);
    let ghost its = scan_items(&f, lg, subject_pattern(node), ScopeView::All);
    let mut prefix: Option<String> = None;
    let mut namespace: Option<String> = None;
    let mut i: usize = 0;
    assert(its.take(0) =~= Seq::<Outcome<Match>>::empty());
    while i < items.len()
        invariant
            i <= items@.len(),
            items_are(items@, its),
            its == scan_items(&f, lg, subject_pattern(node), ScopeView::All),
            snap.wf(),
            snap.file_view() == f,
            snap.logical() == lg,
            old(snap).file_view() == f,
            old(snap).logical() == lg,
            decl_fold(&f, its.take(i as int), pfx, ns)
                == Outcome::Value((crate::writer::opt_view(prefix), crate::writer::opt_view(namespace))),
        decreases items@.len() - i,
    {
        assert(its.take(i + 1).drop_last() =~= its.take(i as int));
        assert(its.take(i + 1).last() == its[i as int]);
        assert(item_is(items@[i as int], its[i as int]));
        match &items[i] {
            Err(e) => {
                proof {
                    lemma_decl_fold_sticks(&f, its, pfx, ns, i as int + 1);
                }
                return Err(copy_error(e));
            },
            Ok(m) => {
                if m.p == pfx {
                    match snap.file().term_as_writer_term(m.o) {
                        Err(e) => {
                            proof {
                                lemma_decl_fold_sticks(&f, its, pfx, ns, i as int + 1);
                            }
                            return Err(e);
                        },
                        Ok(Term::Literal { lex, .. }) => {
                            prefix = Some(lex);
                        },
                        Ok(_) => {},
                    }
                } else if m.p == ns {
                    match snap.file().term_as_writer_term(m.o) {
                        Err(e) => {
                            proof {
                                lemma_decl_fold_sticks(&f, its, pfx, ns, i as int + 1);
                            }
                            return Err(e);
                        },
                        Ok(Term::Iri(v)) => {
                            namespace = Some(v);
                        },
                        Ok(Term::Literal { lex, .. }) => {
                            namespace = Some(lex);
                        },
                        Ok(Term::BNode(_)) => {},
                    }
                }
            },
        }
        i = i + 1;
    }
    assert(its.take(i as int) =~= its);
    match (prefix, namespace) {
        (Some(a), Some(b)) => Ok(Some((a, b))),
        _ => Ok(None),
    }
}

/// A failure of the fold over a prefix is the failure over the whole.
proof fn lemma_decl_fold_sticks(f: &R5tuFile, items: Seq<Outcome<Match>>, pfx: u64, ns: u64, k: int)
    requires
        0 <= k <= items.len(),
        !(decl_fold(f, items.take(k), pfx, ns) is Value),
    ensures
        decl_fold(f, items, pfx, ns) == decl_fold(f, items.take(k), pfx, ns),
    decreases items.len() - k,
{
    if k < items.len() {
        assert(items.take(k + 1).drop_last() =~= items.take(k));
        lemma_decl_fold_sticks(f, items, pfx, ns, k + 1);
    } else {
        assert(items.take(k) =~= items);
    }
}

/// A failure of the subjects over a prefix is the failure over the whole.
proof fn lemma_match_subjects_sticks(items: Seq<Outcome<Match>>, k: int)
    requires
        0 <= k <= items.len(),
        !(match_subjects(items.take(k)) is Value),
    ensures
        match_subjects(items) == match_subjects(items.take(k)),
    decreases items.len() - k,
{
    if k < items.len() {
        assert(items.take(k + 1).drop_last() =~= items.take(k));
        lemma_match_subjects_sticks(items, k + 1);
    } else {
        assert(items.take(k) =~= items);
    }
}

/// A failure of the hits over a prefix is the failure over the whole.
proof fn lemma_decl_hits_sticks(f: &R5tuFile, lg: Seq<(Seq<char>, Seq<u64>, u64)>, items: Seq<Outcome<Match>>,
    pfx: u64, ns: u64, k: int)
    requires
        0 <= k <= items.len(),
        !(decl_hits(f, lg, items.take(k), pfx, ns) is Value),
    ensures
        decl_hits(f, lg, items, pfx, ns) == decl_hits(f, lg, items.take(k), pfx, ns),
    decreases items.len() - k,
{
    if k < items.len() {
        assert(items.take(k + 1).drop_last() =~= items.take(k));
        lemma_decl_hits_sticks(f, lg, items, pfx, ns, k + 1);
    } else {
        assert(items.take(k) =~= items);
    }
}

/// An error of the same kind.
fn copy_error(e: &R5Error) -> (r: R5Error)
    requires
        e is Invalid || e is Corrupt,
    ensures
        (e is Invalid) == (r is Invalid),
        (e is Corrupt) == (r is Corrupt),
{
    match e {
        R5Error::Invalid(m) => R5Error::Invalid(m),
        R5Error::Corrupt(m) => R5Error::Corrupt(m.clone()),
        R5Error::Io(_) => R5Error::Invalid("I/O error"),
    }
}

fn subject_pattern_exec(s: u64) -> (r: Pattern)
    ensures
        r == subject_pattern(s),
{
    Pattern { s: Some(s), p: None, o: None }
}

fn predicate_pattern_exec(p: u64) -> (r: Pattern)
    ensures
        r == predicate_pattern(p),
{
    Pattern { s: None, p: Some(p), o: None }
}

impl ClosurePatch {
    /// Build the patch for root ontology `root_iri` over the closure's
    /// ontologies `closure_iris` by reading the snapshot: the transform's
    /// ids (a term the file lacks gets an id past the dictionary, which no
    /// stored triple has), the ids of the closure's ontologies the file
    /// holds, whether the root declares itself, and, when prefixes are
    /// consolidated, the `sh:prefixes` subjects and the `sh:declare`
    /// triples with the (prefix, namespace) of their nodes. A failure to
    /// read the snapshot is returned.
    pub fn from_snapshot(
        snap: &mut Snapshot,
        root_iri: &str,
        closure_iris: &Vec<String>,
        remove_owl_imports: bool,
        rewrite_sh_prefixes: bool,
    ) -> (r: Result<ClosurePatch>)
        requires
            old(snap).wf(),
        ensures
            final(snap).wf(),
            final(snap).file_view() == old(snap).file_view(),
            final(snap).logical() == old(snap).logical(),
            match spec_patch_inputs(&old(snap).file_view(), old(snap).logical(), root_iri@,
                string_views(closure_iris@), remove_owl_imports, rewrite_sh_prefixes) {
                Outcome::Invalid => r matches Err(e) && e is Invalid,
                Outcome::Corrupt => r matches Err(e) && e is Corrupt,
                Outcome::Value(inp) => r matches Ok(p) && patch_from(p, inp, remove_owl_imports, rewrite_sh_prefixes),
            },
    {
        let ghost f = snap.file_view();
        let ghost lg = snap.logical();
        let ids = ClosureIds {
            type_id: vocab_id(snap.file(), "http://www.w3.org/1999/02/22-rdf-syntax-ns#type", 0),
            ontology_id: vocab_id(snap.file(), "http://www.w3.org/2002/07/owl#Ontology", 1),
            imports_id: vocab_id(snap.file(), "http://www.w3.org/2002/07/owl#imports", 2),
            prefixes_id: vocab_id(snap.file(), "http://www.w3.org/ns/shacl#prefixes", 3),
            declare_id: vocab_id(snap.file(), "http://www.w3.org/ns/shacl#declare", 4),
            root_id: vocab_id(snap.file(), root_iri, 7),
        };
        let pfx = vocab_id(snap.file(), "http://www.w3.org/ns/shacl#prefix", 5);
        let ns = vocab_id(snap.file(), "http://www.w3.org/ns/shacl#namespace", 6);
        assert(ids == snapshot_ids(&f, root_iri@));
        // the closure's ontologies
        let ghost iris = string_views(closure_iris@);
        let mut targets: Vec<u64> = Vec::new();
        if remove_owl_imports {
            let mut i: usize = 0;
            assert(iris.take(0) =~= Seq::<Seq<char>>::empty());
            while i < closure_iris.len()
                invariant
                    i <= closure_iris@.len(),
                    iris == string_views(closure_iris@),
                    snap.wf(),
                    snap.file_view() == f,
                    snap.logical() == lg,
                    old(snap).file_view() == f,
                    old(snap).logical() == lg,
                    targets@ == present_ids(&f, iris.take(i as int)),
                decreases closure_iris@.len() - i,
            {
                assert(iris.take(i + 1).drop_last() =~= iris.take(i as int));
                match snap.file().iri_term_id(closure_iris[i].as_str()) {
                    Some(id) => targets.push(id),
                    None => {},
                }
                i = i + 1;
            }
            assert(iris.take(i as int) =~= iris);
        }
        // whether the root declares itself
        let decl_pat = Pattern { s: Some(ids.root_id), p: Some(ids.type_id), o: Some(ids.ontology_id) };
        let found = snap.scan(decl_pat, Scope::All);
        let root_declares_itself = if found.len() == 0 {
            false
        } else {
            match &found[0] {
                Ok(_) => true,
                Err(e) => return Err(copy_error(e)),
            }
        };
        let mut prefix_subjects: Vec<u64> = Vec::new();
        let mut declares: Vec<DeclareHit> = Vec::new();
        if rewrite_sh_prefixes {
            let items = snap.scan(predicate_pattern_exec(ids.prefixes_id), Scope::All);
            let ghost its = scan_items(&f, lg, predicate_pattern(ids.prefixes_id), ScopeView::All);
            let mut i: usize = 0;
            assert(its.take(0) =~= Seq::<Outcome<Match>>::empty());
            while i < items.len()
                invariant
                    i <= items@.len(),
                    items_are(items@, its),
                    its == scan_items(&f, lg, predicate_pattern(ids.prefixes_id), ScopeView::All),
                    ids == snapshot_ids(&f, root_iri@),
                    pfx == id_or_absent(&f, sh_prefix_iri(), 5),
                    ns == id_or_absent(&f, sh_namespace_iri(), 6),
                    rewrite_sh_prefixes,
                    first_found(scan_items(&f, lg, Pattern { s: Some(ids.root_id), p: Some(ids.type_id), o: Some(ids.ontology_id) }, ScopeView::All))
                        == Outcome::Value(root_declares_itself),
                    snap.wf(),
                    snap.file_view() == f,
                    snap.logical() == lg,
                    old(snap).file_view() == f,
                    old(snap).logical() == lg,
                    match_subjects(its.take(i as int)) == Outcome::Value(prefix_subjects@),
                decreases items@.len() - i,
            {
                assert(its.take(i + 1).drop_last() =~= its.take(i as int));
                assert(its.take(i + 1).last() == its[i as int]);
                assert(item_is(items@[i as int], its[i as int]));
                match &items[i] {
                    Err(e) => {
                        proof {
                            lemma_match_subjects_sticks(its, i as int + 1);
                        }
                        return Err(copy_error(e));
                    },
                    Ok(m) => prefix_subjects.push(m.s),
                }
                i = i + 1;
            }
            assert(its.take(i as int) =~= its);
            let items = snap.scan(predicate_pattern_exec(ids.declare_id), Scope::All);
            let ghost its = scan_items(&f, lg, predicate_pattern(ids.declare_id), ScopeView::All);
            let mut i: usize = 0;
            assert(its.take(0) =~= Seq::<Outcome<Match>>::empty());
            assert(declare_views(declares@) =~= Seq::<DeclareView>::empty());
            while i < items.len()
                invariant
                    i <= items@.len(),
                    items_are(items@, its),
                    its == scan_items(&f, lg, predicate_pattern(ids.declare_id), ScopeView::All),
                    ids == snapshot_ids(&f, root_iri@),
                    pfx == id_or_absent(&f, sh_prefix_iri(), 5),
                    ns == id_or_absent(&f, sh_namespace_iri(), 6),
                    rewrite_sh_prefixes,
                    first_found(scan_items(&f, lg, Pattern { s: Some(ids.root_id), p: Some(ids.type_id), o: Some(ids.ontology_id) }, ScopeView::All))
                        == Outcome::Value(root_declares_itself),
                    match_subjects(scan_items(&f, lg, predicate_pattern(ids.prefixes_id), ScopeView::All))
                        == Outcome::Value(prefix_subjects@),
                    snap.wf(),
                    snap.file_view() == f,
                    snap.logical() == lg,
                    old(snap).file_view() == f,
                    old(snap).logical() == lg,
                    decl_hits(&f, lg, its.take(i as int), pfx, ns) == Outcome::Value(declare_views(declares@)),
                decreases items@.len() - i,
            {
                assert(its.take(i + 1).drop_last() =~= its.take(i as int));
                assert(its.take(i + 1).last() == its[i as int]);
                assert(item_is(items@[i as int], its[i as int]));
                match &items[i] {
                    Err(e) => {
                        proof {
                            lemma_decl_hits_sticks(&f, lg, its, pfx, ns, i as int + 1);
                        }
                        return Err(copy_error(e));
                    },
                    Ok(m) => {
                        let (s, o) = (m.s, m.o);
                        match decl_key(snap, o, pfx, ns) {
                            Err(e) => {
                                proof {
                                    lemma_decl_hits_sticks(&f, lg, its, pfx, ns, i as int + 1);
                                }
                                return Err(e);
                            },
                            Ok(key) => {
                                let ghost before = declares@;
                                declares.push(DeclareHit { s, o, key });
                                assert(declare_views(declares@) =~= declare_views(before).push(declares@.last()@));
                            },
                        }
                    },
                }
                i = i + 1;
            }
            assert(its.take(i as int) =~= its);
        }
        Ok(ClosurePatch::build(ids, &targets, remove_owl_imports, rewrite_sh_prefixes, root_declares_itself,
            &prefix_subjects, &declares))
    }
}

} // verus!
