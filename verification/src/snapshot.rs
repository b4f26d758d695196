//! Read-only query snapshots over an R5TU file: the file's graph groups
//! grouped by graph name into logical graphs, and one access primitive,
//! [`Snapshot::scan`], which lists the `(gid, s, p, o)` term-id matches of a
//! [`Pattern`] within a [`Scope`], from a permutation index when a term is
//! bound and otherwise by scanning each graph group.
use vstd::prelude::*;
use crate::index::{build_mem_pclos, build_mem_section, closure_ok, copy_ids, has_out, inverse_edges, pred_edges, remap_all,
    spec_keys, spec_postings, IdxKind, IdxPosting, MemPClos, MemSection};
use crate::layout::{spec_block_triples, GraphRefView, Outcome};
use crate::reader::{graphref_views, spec_iri_id, R5Error, R5tuFile, Result};
use crate::sidecar_build::{sorted_tuples, spec_file_groups, spec_file_tuples, IdxTuple};
use crate::text::{owned, str_eq};
use crate::triples::Triple;

verus! {

/// A triple pattern over on-disk term ids; `None` in a slot is a wildcard.
#[derive(Debug, Clone, Copy, Default, PartialEq, Eq, Structural)]
pub struct Pattern {
    pub s: Option<u64>,
    pub p: Option<u64>,
    pub o: Option<u64>,
}

/// A slot of a pattern accepts `x`.
pub open spec fn slot_accepts(slot: Option<u64>, x: u64) -> bool {
    match slot {
        None => true,
        Some(v) => v == x,
    }
}

impl Pattern {
    /// The all-wildcard pattern, which matches every triple.
    pub fn any() -> (r: Pattern)
        ensures
            r == (Pattern { s: None, p: None, o: None }),
    {
        Pattern { s: None, p: None, o: None }
    }

    /// Whether the triple (`s`, `p`, `o`) matches the pattern.
    pub fn matches(&self, s: u64, p: u64, o: u64) -> (r: bool)
        ensures
            r == (slot_accepts(self.s, s) && slot_accepts(self.p, p) && slot_accepts(self.o, o)),
    {
        let a = match self.s {
            None => true,
            Some(v) => v == s,
        };
        let b = match self.p {
            None => true,
            Some(v) => v == p,
        };
        let c = match self.o {
            None => true,
            Some(v) => v == o,
        };
        a && b && c
    }
}

/// The set of graphs a scan ranges over.
#[derive(Debug, Clone, Copy)]
pub enum Scope<'a> {
    /// Every physical graph group.
    All,
    /// An explicit set of physical graph ids.
    Gids(&'a [u64]),
    /// All graph groups sharing one graph name, as one logical graph.
    ByName(&'a str),
}

/// One (graph group, s, p, o) triple match, all as on-disk term ids.
#[derive(Debug, Clone, Copy, PartialEq, Eq, Hash, Structural)]
pub struct Match {
    pub gid: u64,
    pub s: u64,
    pub p: u64,
    pub o: u64,
}


// ---------------------------------------------------------------- what a scan yields

/// The pattern accepts the triple `t`.
pub open spec fn pattern_accepts(pat: Pattern, t: Triple) -> bool {
    slot_accepts(pat.s, t.0) && slot_accepts(pat.p, t.1) && slot_accepts(pat.o, t.2)
}

/// The matches of `pat` among the triples `ts` of graph group `gid`, in order.
pub open spec fn gid_matches(gid: u64, ts: Seq<Triple>, pat: Pattern) -> Seq<Match>
    decreases ts.len(),
{
    if ts.len() == 0 {
        seq![]
    } else {
        let t = ts.last();
        let rest = gid_matches(gid, ts.drop_last(), pat);
        if pattern_accepts(pat, t) {
            rest.push(Match { gid, s: t.0, p: t.1, o: t.2 })
        } else {
            rest
        }
    }
}

/// Matches as scan items.
pub open spec fn as_items(ms: Seq<Match>) -> Seq<Outcome<Match>> {
    ms.map_values(|m: Match| Outcome::Value(m))
}

/// The scan items of one graph group: its matches, or the failure to read it.
pub open spec fn gid_items(f: &R5tuFile, gid: u64, pat: Pattern) -> Seq<Outcome<Match>> {
    match spec_block_triples(f.file_bytes(), f.gdir_view(), gid) {
        Outcome::Invalid => seq![Outcome::Invalid],
        Outcome::Corrupt => seq![Outcome::Corrupt],
        Outcome::Value(ts) => as_items(gid_matches(gid, ts, pat)),
    }
}

/// Scanning the graph groups `gids` one after the other.
pub open spec fn full_scan_items(f: &R5tuFile, gids: Seq<u64>, pat: Pattern) -> Seq<Outcome<Match>>
    decreases gids.len(),
{
    if gids.len() == 0 {
        seq![]
    } else {
        full_scan_items(f, gids.drop_last(), pat) + gid_items(f, gids.last(), pat)
    }
}

/// The match an index pair of permutation `kind` under `key` gives in graph
/// group `gid`, if the pattern's other slots accept it: POS pairs are
/// (object, subject), PSO pairs (subject, object), SPO pairs (predicate,
/// object), OSP pairs (subject, predicate).
pub open spec fn pair_match(kind: IdxKind, key: u64, gid: u64, ab: (u64, u64), pat: Pattern) -> Option<Match> {
    match kind {
        IdxKind::Pos => if slot_accepts(pat.o, ab.0) && slot_accepts(pat.s, ab.1) {
            Some(Match { gid, s: ab.1, p: key, o: ab.0 })
        } else {
            None
        },
        IdxKind::Pso => if slot_accepts(pat.s, ab.0) {
            Some(Match { gid, s: ab.0, p: key, o: ab.1 })
        } else {
            None
        },
        IdxKind::Spo => if slot_accepts(pat.o, ab.1) {
            Some(Match { gid, s: key, p: ab.0, o: ab.1 })
        } else {
            None
        },
        IdxKind::Osp => Some(Match { gid, s: ab.0, p: ab.1, o: key }),
        IdxKind::PClos => None,
    }
}

/// The matches of a block's pairs, in order.
pub open spec fn pairs_matches(kind: IdxKind, key: u64, gid: u64, pairs: Seq<(u64, u64)>, pat: Pattern) -> Seq<Match>
    decreases pairs.len(),
{
    if pairs.len() == 0 {
        seq![]
    } else {
        let rest = pairs_matches(kind, key, gid, pairs.drop_last(), pat);
        match pair_match(kind, key, gid, pairs.last(), pat) {
            Some(m) => rest.push(m),
            None => rest,
        }
    }
}

/// Block `i` of a posting belongs to graph group `gid`.
pub open spec fn block_at(pv: Seq<(u32, Seq<(u64, u64)>)>, gid: u64, i: int) -> bool {
    0 <= i < pv.len() && pv[i].0 as u64 == gid
}

/// The pairs of graph group `gid` in a posting (none when it has no block).
pub open spec fn block_of(pv: Seq<(u32, Seq<(u64, u64)>)>, gid: u64) -> Seq<(u64, u64)> {
    if exists|i: int| block_at(pv, gid, i) {
        pv[choose|i: int| block_at(pv, gid, i)].1
    } else {
        seq![]
    }
}

/// The matches a posting gives over the graph groups `gids`, group after group.
pub open spec fn index_matches(
    pv: Seq<(u32, Seq<(u64, u64)>)>,
    gids: Seq<u64>,
    kind: IdxKind,
    key: u64,
    pat: Pattern,
) -> Seq<Match>
    decreases gids.len(),
{
    if gids.len() == 0 {
        seq![]
    } else {
        index_matches(pv, gids.drop_last(), kind, key, pat) + pairs_matches(kind, key, gids.last(), block_of(pv, gids.last()), pat)
    }
}

/// The permutation index that serves a pattern, and its key: POS when the
/// predicate and object are bound, PSO when only the predicate (of the two)
/// is, SPO when the subject is bound and the predicate not, OSP when only the
/// object is; none when nothing is bound.
pub open spec fn index_choice(pat: Pattern) -> Option<(IdxKind, u64)> {
    match (pat.s, pat.p, pat.o) {
        (_, Some(p), Some(_)) => Some((IdxKind::Pos, p)),
        (_, Some(p), None) => Some((IdxKind::Pso, p)),
        (Some(s), None, _) => Some((IdxKind::Spo, s)),
        (None, None, Some(o)) => Some((IdxKind::Osp, o)),
        (None, None, None) => None,
    }
}

/// The keys and postings of the permutation index `kind` of a file, when the
/// file's triples can all be read.
pub open spec fn file_index(f: &R5tuFile, kind: IdxKind) -> Option<(Seq<u64>, Seq<Seq<(u32, Seq<(u64, u64)>)>>)> {
    match spec_file_tuples(f) {
        Outcome::Value(ts) => Some((
            spec_keys(sorted_tuples(remap_all(kind, ts))),
            spec_postings(sorted_tuples(remap_all(kind, ts))),
        )),
        _ => None,
    }
}

/// The items of a scan before deduplication: from the index when a term is
/// bound, the index can be built and it has the key; otherwise by scanning
/// each graph group.
pub open spec fn base_items(f: &R5tuFile, gids: Seq<u64>, pat: Pattern) -> Seq<Outcome<Match>> {
    match index_choice(pat) {
        None => full_scan_items(f, gids, pat),
        Some((kind, key)) => match file_index(f, kind) {
            None => full_scan_items(f, gids, pat),
            Some((keys, posts)) => if keys.contains(key) {
                let i = choose|i: int| 0 <= i < keys.len() && keys[i] == key;
                as_items(index_matches(posts[i], gids, kind, key, pat))
            } else {
                full_scan_items(f, gids, pat)
            },
        },
    }
}

/// Some earlier item matched the same triple.
pub open spec fn seen_before(items: Seq<Outcome<Match>>, m: Match) -> bool {
    exists|i: int| 0 <= i < items.len() && (#[trigger] items[i] matches Outcome::Value(x) && x.s == m.s && x.p == m.p && x.o == m.o)
}

/// The items with every match of an already matched triple dropped; failures
/// are kept.
pub open spec fn dedup_items(items: Seq<Outcome<Match>>) -> Seq<Outcome<Match>>
    decreases items.len(),
{
    if items.len() == 0 {
        seq![]
    } else {
        let rest = dedup_items(items.drop_last());
        match items.last() {
            Outcome::Value(m) => if seen_before(items.drop_last(), m) {
                rest
            } else {
                rest.push(items.last())
            },
            _ => rest.push(items.last()),
        }
    }
}

/// Two matches are of the same triple.
pub open spec fn same_triple(a: Match, b: Match) -> bool {
    a.s == b.s && a.p == b.p && a.o == b.o
}

/// Deduplicating scan items reports no triple twice, keeps a match of every
/// triple that was matched, and invents nothing: each kept item is one of
/// the items.
pub proof fn lemma_dedup_items(items: Seq<Outcome<Match>>)
    ensures
        forall|i: int, j: int| #![trigger dedup_items(items)[i], dedup_items(items)[j]]
            0 <= i < j < dedup_items(items).len() ==> (dedup_items(items)[i] matches Outcome::Value(a)
            ==> (dedup_items(items)[j] matches Outcome::Value(b) ==> !same_triple(a, b))),
        forall|i: int| 0 <= i < items.len() ==> (#[trigger] items[i] matches Outcome::Value(m) ==> exists|j: int|
            #![trigger dedup_items(items)[j]]
            0 <= j < dedup_items(items).len() && (dedup_items(items)[j] matches Outcome::Value(x) && same_triple(x, m))),
        forall|j: int| 0 <= j < dedup_items(items).len() ==> items.contains(#[trigger] dedup_items(items)[j]),
    decreases items.len(),
{
    if items.len() > 0 {
        let init = items.drop_last();
        let last = items.last();
        lemma_dedup_items(init);
        let d0 = dedup_items(init);
        let d = dedup_items(items);
        assert forall|j: int| 0 <= j < d.len() implies items.contains(#[trigger] d[j]) by {
            if j < d0.len() {
                assert(d[j] == d0[j]);
                assert(init.contains(d0[j]));
                let k = choose|k: int| 0 <= k < init.len() && init[k] == d0[j];
                assert(items[k] == d0[j]);
            } else {
                assert(d[j] == last);
                assert(items[items.len() - 1] == last);
            }
        }
        assert forall|i: int, j: int| #![trigger d[i], d[j]] 0 <= i < j < d.len() implies (d[i] matches Outcome::Value(a)
            ==> (d[j] matches Outcome::Value(b) ==> !same_triple(a, b))) by {
            if j < d0.len() {
                assert(d[i] == d0[i] && d[j] == d0[j]);
            } else if let Outcome::Value(a) = d[i] {
                if let Outcome::Value(b) = d[j] {
                    assert(d[j] == last);
                    assert(!seen_before(init, b));
                    assert(d[i] == d0[i]);
                    assert(init.contains(d0[i]));
                    let k = choose|k: int| 0 <= k < init.len() && init[k] == d0[i];
                    if same_triple(a, b) {
                        assert(init[k] matches Outcome::Value(x) && x.s == b.s && x.p == b.p && x.o == b.o);
                    }
                }
            }
        }
        assert forall|i: int| 0 <= i < items.len() implies (#[trigger] items[i] matches Outcome::Value(m) ==> exists|j: int|
            #![trigger d[j]] 0 <= j < d.len() && (d[j] matches Outcome::Value(x) && same_triple(x, m))) by {
            if let Outcome::Value(m) = items[i] {
                if i < init.len() {
                    assert(init[i] == items[i]);
                    let j = choose|j: int| #![trigger d0[j]] 0 <= j < d0.len() && (d0[j] matches Outcome::Value(x) && same_triple(x, m));
                    assert(d[j] == d0[j]);
                } else if seen_before(init, m) {
                    let k = choose|k: int| 0 <= k < init.len() && (#[trigger] init[k] matches Outcome::Value(x) && x.s == m.s && x.p == m.p && x.o == m.o);
                    let x = init[k]->Value_0;
                    let j = choose|j: int| #![trigger d0[j]] 0 <= j < d0.len() && (d0[j] matches Outcome::Value(y) && same_triple(y, x));
                    assert(d[j] == d0[j]);
                } else {
                    assert(d[d0.len() as int] == last);
                }
            }
        }
    }
}

/// A scan result item is the expected item.
pub open spec fn item_is(r: Result<Match>, o: Outcome<Match>) -> bool {
    match o {
        Outcome::Value(m) => r == Ok::<Match, R5Error>(m),
        Outcome::Invalid => r matches Err(e) && e is Invalid,
        Outcome::Corrupt => r matches Err(e) && e is Corrupt,
    }
}

/// The scan result holds the expected items, in order.
pub open spec fn items_are(r: Seq<Result<Match>>, o: Seq<Outcome<Match>>) -> bool {
    r.len() == o.len() && forall|i: int| 0 <= i < r.len() ==> item_is(#[trigger] r[i], o[i])
}

/// Some bound term is not a term of the dictionary.
pub open spec fn pattern_out_of_range(pat: Pattern, n_terms: u64) -> bool {
    ||| (pat.s matches Some(x) && x >= n_terms)
    ||| (pat.p matches Some(x) && x >= n_terms)
    ||| (pat.o matches Some(x) && x >= n_terms)
}


// ---------------------------------------------------------------- scanning

/// Whether a slot accepts `x`.
fn slot_ok(slot: Option<u64>, x: u64) -> (r: bool)
    ensures
        r == slot_accepts(slot, x),
{
    match slot {
        None => true,
        Some(v) => v == x,
    }
}

/// Whether `v` holds the triple `t`.
fn holds_triple(v: &Vec<(u64, u64, u64)>, t: (u64, u64, u64)) -> (r: bool)
    ensures
        r == v@.contains(t),
{
    let mut i: usize = 0;
    while i < v.len()
        invariant
            i <= v@.len(),
            forall|j: int| 0 <= j < i ==> v@[j] != t,
        decreases v@.len() - i,
    {
        let x = v[i];
        if x.0 == t.0 && x.1 == t.1 && x.2 == t.2 {
            assert(v@[i as int] == t);
            return true;
        }
        i = i + 1;
    }
    false
}

/// One more item: a triple was matched before exactly when it was matched
/// earlier or by that item.
proof fn lemma_seen_push(e0: Seq<Outcome<Match>>, o: Outcome<Match>, mu: Match)
    ensures
        seen_before(e0.push(o), mu) <==> (seen_before(e0, mu) || (o matches Outcome::Value(x) && x.s == mu.s
            && x.p == mu.p && x.o == mu.o)),
{
    let e1 = e0.push(o);
    if seen_before(e0, mu) {
        let i = choose|i: int| 0 <= i < e0.len() && (#[trigger] e0[i] matches Outcome::Value(x) && x.s == mu.s && x.p == mu.p && x.o == mu.o);
        assert(e1[i] == e0[i]);
    }
    if o matches Outcome::Value(x) && x.s == mu.s && x.p == mu.p && x.o == mu.o {
        assert(e1[e0.len() as int] == o);
    }
    if seen_before(e1, mu) {
        let i = choose|i: int| 0 <= i < e1.len() && (#[trigger] e1[i] matches Outcome::Value(x) && x.s == mu.s && x.p == mu.p && x.o == mu.o);
        if i < e0.len() {
            assert(e0[i] == e1[i]);
        }
    }
}

/// Collects scan items; with `dedup`, drops the matches of triples already
/// matched.
pub struct ItemSink {
    out: Vec<Result<Match>>,
    seen: Vec<(u64, u64, u64)>,
    dedup: bool,
    emitted: Ghost<Seq<Outcome<Match>>>,
}

impl ItemSink {
    /// The items handed in so far.
    pub closed spec fn emitted(&self) -> Seq<Outcome<Match>> {
        self.emitted@
    }

    /// Whether repeated triples are dropped.
    pub closed spec fn dedups(&self) -> bool {
        self.dedup
    }

    /// The collected items are the items handed in, deduplicated when asked.
    pub closed spec fn inv(&self) -> bool {
        &&& items_are(self.out@, if self.dedup { dedup_items(self.emitted@) } else { self.emitted@ })
        &&& self.dedup ==> forall|t: (u64, u64, u64)| #[trigger] self.seen@.contains(t)
            <==> seen_before(self.emitted@, Match { gid: 0, s: t.0, p: t.1, o: t.2 })
    }

    /// An empty sink.
    pub fn new(dedup: bool) -> (r: ItemSink)
        ensures
            r.inv(),
            r.dedups() == dedup,
            r.emitted() == Seq::<Outcome<Match>>::empty(),
    {
        let r = ItemSink { out: Vec::new(), seen: Vec::new(), dedup, emitted: Ghost(Seq::empty()) };
        assert(r.out@ =~= Seq::<Result<Match>>::empty());
        r
    }

    /// Hand in one item.
    pub fn push(&mut self, item: Result<Match>, Ghost(o): Ghost<Outcome<Match>>)
        requires
            old(self).inv(),
            item_is(item, o),
        ensures
            final(self).inv(),
            final(self).dedups() == old(self).dedups(),
            final(self).emitted() == old(self).emitted().push(o),
    {
        let ghost e0 = self.emitted@;
        let ghost e1 = e0.push(o);
        assert(e1.drop_last() =~= e0);
        assert(e1.last() == o);
        let ghost out0 = self.out@;
        match item {
            Ok(m) => {
                if self.dedup {
                    let t = (m.s, m.p, m.o);
                    let found = holds_triple(&self.seen, t);
                    if !found {
                        self.seen.push(t);
                        self.out.push(Ok(m));
                    }
                    proof {
                        assert forall|u: (u64, u64, u64)| #[trigger] self.seen@.contains(u)
                            <==> seen_before(e1, Match { gid: 0, s: u.0, p: u.1, o: u.2 }) by {
                            let mu = Match { gid: 0, s: u.0, p: u.1, o: u.2 };
                            lemma_seen_push(e0, o, mu);
                            assert(old(self).seen@.contains(u) <==> seen_before(e0, mu));
                            if !found {
                                assert(self.seen@ == old(self).seen@.push(t));
                                assert(self.seen@.contains(u) <==> (old(self).seen@.contains(u) || u == t)) by {
                                    if self.seen@.contains(u) {
                                        let k = choose|k: int| 0 <= k < self.seen@.len() && self.seen@[k] == u;
                                        if k < old(self).seen@.len() {
                                            assert(old(self).seen@[k] == u);
                                        }
                                    }
                                    if u == t {
                                        assert(self.seen@[old(self).seen@.len() as int] == t);
                                    }
                                    if old(self).seen@.contains(u) {
                                        let k = choose|k: int| 0 <= k < old(self).seen@.len() && old(self).seen@[k] == u;
                                        assert(self.seen@[k] == u);
                                    }
                                }
                            } else {
                                assert(old(self).seen@.contains(t));
                            }
                        }
                        if !found {
                            assert(!seen_before(e0, m)) by {
                                let mm = Match { gid: 0, s: t.0, p: t.1, o: t.2 };
                                assert(!old(self).seen@.contains(t));
                                if seen_before(e0, m) {
                                    let i = choose|i: int| 0 <= i < e0.len() && (#[trigger] e0[i] matches Outcome::Value(x) && x.s == m.s && x.p == m.p && x.o == m.o);
                                    assert(e0[i] matches Outcome::Value(x) && x.s == mm.s && x.p == mm.p && x.o == mm.o);
                                    assert(seen_before(e0, mm));
                                }
                            }
                        } else {
                            assert(seen_before(e0, m)) by {
                                let mm = Match { gid: 0, s: t.0, p: t.1, o: t.2 };
                                assert(seen_before(e0, mm));
                                let i = choose|i: int| 0 <= i < e0.len() && (#[trigger] e0[i] matches Outcome::Value(x) && x.s == mm.s && x.p == mm.p && x.o == mm.o);
                                assert(e0[i] matches Outcome::Value(x) && x.s == m.s && x.p == m.p && x.o == m.o);
                            }
                        }
                    }
                } else {
                    self.out.push(Ok(m));
                }
            },
            Err(e) => {
                self.out.push(Err(e));
                proof {
                    if self.dedup {
                        assert forall|u: (u64, u64, u64)| #[trigger] self.seen@.contains(u)
                            <==> seen_before(e1, Match { gid: 0, s: u.0, p: u.1, o: u.2 }) by {
                            let mu = Match { gid: 0, s: u.0, p: u.1, o: u.2 };
                            if seen_before(e0, mu) {
                                let i = choose|i: int| 0 <= i < e0.len() && (#[trigger] e0[i] matches Outcome::Value(x) && x.s == mu.s && x.p == mu.p && x.o == mu.o);
                                assert(e1[i] == e0[i]);
                            }
                            if seen_before(e1, mu) {
                                let i = choose|i: int| 0 <= i < e1.len() && (#[trigger] e1[i] matches Outcome::Value(x) && x.s == mu.s && x.p == mu.p && x.o == mu.o);
                                if i < e0.len() {
                                    assert(e0[i] == e1[i]);
                                }
                            }
                        }
                    }
                }
            },
        }
        self.emitted = Ghost(e1);
        proof {
            let want = if self.dedup { dedup_items(e1) } else { e1 };
            assert forall|i: int| 0 <= i < self.out@.len() implies item_is(#[trigger] self.out@[i], want[i]) by {
                if i < out0.len() {
                    assert(self.out@[i] == out0[i]);
                }
            }
        }
    }

    /// The collected items.
    pub fn finish(self) -> (r: Vec<Result<Match>>)
        requires
            self.inv(),
        ensures
            items_are(r@, if self.dedups() { dedup_items(self.emitted()) } else { self.emitted() }),
    {
        self.out
    }
}


/// Scan the graph groups `gids` one after the other, handing each group's
/// matches of `pat` (or its read failure) to the sink.
pub(crate) fn full_scan(file: &R5tuFile, gids: &[u64], pat: Pattern, sink: &mut ItemSink)
    requires
        old(sink).inv(),
    ensures
        final(sink).inv(),
        final(sink).dedups() == old(sink).dedups(),
        final(sink).emitted() == old(sink).emitted() + full_scan_items(file, gids@, pat),
{
    let ghost e0 = sink.emitted();
    let mut i: usize = 0;
    assert(gids@.take(0) =~= Seq::<u64>::empty());
    assert(e0 + Seq::<Outcome<Match>>::empty() =~= e0);
    while i < gids.len()
        invariant
            i <= gids@.len(),
            sink.inv(),
            sink.dedups() == old(sink).dedups(),
            sink.emitted() == e0 + full_scan_items(file, gids@.take(i as int), pat),
        decreases gids@.len() - i,
    {
        let gid = gids[i];
        let ghost before = sink.emitted();
        assert(gids@.take(i + 1).drop_last() =~= gids@.take(i as int));
        assert(gids@.take(i + 1).last() == gid);
        match file.triples_ids(gid) {
            Ok(mut it) => {
                let ts = it.collect_all();
                let ghost all = ts@;
                assert(spec_block_triples(file.file_bytes(), file.gdir_view(), gid) == Outcome::Value(all));
                let mut j: usize = 0;
                assert(all.take(0) =~= Seq::<Triple>::empty());
                assert(before + as_items(gid_matches(gid, all.take(0), pat)) =~= before);
                while j < ts.len()
                    invariant
                        j <= all.len(),
                        ts@ == all,
                        sink.inv(),
                        sink.dedups() == old(sink).dedups(),
                        sink.emitted() == before + as_items(gid_matches(gid, all.take(j as int), pat)),
                    decreases all.len() - j,
                {
                    let t = ts[j];
                    assert(all.take(j + 1).drop_last() =~= all.take(j as int));
                    assert(all.take(j + 1).last() == t);
                    if slot_ok(pat.s, t.0) && slot_ok(pat.p, t.1) && slot_ok(pat.o, t.2) {
                        let m = Match { gid, s: t.0, p: t.1, o: t.2 };
                        sink.push(Ok(m), Ghost(Outcome::Value(m)));
                        assert(as_items(gid_matches(gid, all.take(j + 1), pat))
                            =~= as_items(gid_matches(gid, all.take(j as int), pat)).push(Outcome::Value(m)));
                    }
                    j = j + 1;
                }
                assert(all.take(all.len() as int) =~= all);
            },
            Err(e) => {
                let ghost o: Outcome<Match> = match spec_block_triples(file.file_bytes(), file.gdir_view(), gid) {
                    Outcome::Invalid => Outcome::Invalid,
                    _ => Outcome::Corrupt,
                };
                sink.push(Err(e), Ghost(o));
                assert(gid_items(file, gid, pat) =~= seq![o]);
            },
        }
        assert(sink.emitted() =~= e0 + full_scan_items(file, gids@.take(i + 1), pat));
        i = i + 1;
    }
    assert(gids@.take(gids@.len() as int) =~= gids@);
}

/// The match an index pair gives, as [`pair_match`] says.
fn pair_match_of(kind: IdxKind, key: u64, gid: u64, ab: (u64, u64), pat: Pattern) -> (r: Option<Match>)
    ensures
        r == pair_match(kind, key, gid, ab, pat),
{
    match kind {
        IdxKind::Pos => if slot_ok(pat.o, ab.0) && slot_ok(pat.s, ab.1) {
            Some(Match { gid, s: ab.1, p: key, o: ab.0 })
        } else {
            None
        },
        IdxKind::Pso => if slot_ok(pat.s, ab.0) {
            Some(Match { gid, s: ab.0, p: key, o: ab.1 })
        } else {
            None
        },
        IdxKind::Spo => if slot_ok(pat.o, ab.1) {
            Some(Match { gid, s: key, p: ab.0, o: ab.1 })
        } else {
            None
        },
        IdxKind::Osp => Some(Match { gid, s: ab.0, p: ab.1, o: key }),
        IdxKind::PClos => None,
    }
}

/// Hand the matches that a key's posting gives in the graph groups `gids`
/// to the sink, group after group.
fn index_scan(post: IdxPosting<'_>, gids: &[u64], kind: IdxKind, key: u64, pat: Pattern, sink: &mut ItemSink)
    requires
        old(sink).inv(),
        post.wf(),
    ensures
        final(sink).inv(),
        final(sink).dedups() == old(sink).dedups(),
        final(sink).emitted() == old(sink).emitted() + as_items(index_matches(post.view(), gids@, kind, key, pat)),
{
    let ghost e0 = sink.emitted();
    let ghost pv = post.view();
    let mut i: usize = 0;
    assert(gids@.take(0) =~= Seq::<u64>::empty());
    assert(e0 + as_items(Seq::<Match>::empty()) =~= e0);
    while i < gids.len()
        invariant
            i <= gids@.len(),
            post.wf(),
            pv == post.view(),
            sink.inv(),
            sink.dedups() == old(sink).dedups(),
            sink.emitted() == e0 + as_items(index_matches(pv, gids@.take(i as int), kind, key, pat)),
        decreases gids@.len() - i,
    {
        let gid = gids[i];
        let ghost before = sink.emitted();
        assert(gids@.take(i + 1).drop_last() =~= gids@.take(i as int));
        assert(gids@.take(i + 1).last() == gid);
        match post.block_for_gid(gid) {
            Some(b) => {
                let pairs = post.iter_block(b);
                proof {
                    assert(0 <= b < pv.len() && pv[b as int].0 == gid);
                    assert(block_at(pv, gid, b as int));
                    let k = choose|i: int| block_at(pv, gid, i);
                    post.lemma_gid_at(k, b as int);
                }
                let ghost all = pairs@;
                assert(block_of(pv, gid) == all);
                let mut j: usize = 0;
                assert(all.take(0) =~= Seq::<(u64, u64)>::empty());
                assert(before + as_items(pairs_matches(kind, key, gid, all.take(0), pat)) =~= before);
                while j < pairs.len()
                    invariant
                        j <= all.len(),
                        pairs@ == all,
                        sink.inv(),
                        sink.dedups() == old(sink).dedups(),
                        sink.emitted() == before + as_items(pairs_matches(kind, key, gid, all.take(j as int), pat)),
                    decreases all.len() - j,
                {
                    let ab = pairs[j];
                    assert(all.take(j + 1).drop_last() =~= all.take(j as int));
                    assert(all.take(j + 1).last() == ab);
                    match pair_match_of(kind, key, gid, ab, pat) {
                        Some(m) => {
                            sink.push(Ok(m), Ghost(Outcome::Value(m)));
                            assert(as_items(pairs_matches(kind, key, gid, all.take(j + 1), pat))
                                =~= as_items(pairs_matches(kind, key, gid, all.take(j as int), pat)).push(Outcome::Value(m)));
                        },
                        None => {},
                    }
                    j = j + 1;
                }
                assert(all.take(all.len() as int) =~= all);
            },
            None => {
                assert(!exists|i: int| block_at(pv, gid, i));
                assert(block_of(pv, gid) == Seq::<(u64, u64)>::empty());
                assert(pairs_matches(kind, key, gid, Seq::<(u64, u64)>::empty(), pat) == Seq::<Match>::empty());
            },
        }
        assert(as_items(index_matches(pv, gids@.take(i + 1), kind, key, pat))
            =~= as_items(index_matches(pv, gids@.take(i as int), kind, key, pat))
            + as_items(pairs_matches(kind, key, gid, block_of(pv, gid), pat)));
        i = i + 1;
    }
    assert(gids@.take(gids@.len() as int) =~= gids@);
}


/// The triples of the graph groups `gids`, group after group, or the first
/// failure to read one.
pub open spec fn gids_triples(f: &R5tuFile, gids: Seq<u64>) -> Outcome<Seq<Triple>>
    decreases gids.len(),
{
    if gids.len() == 0 {
        Outcome::Value(seq![])
    } else {
        match gids_triples(f, gids.drop_last()) {
            Outcome::Invalid => Outcome::Invalid,
            Outcome::Corrupt => Outcome::Corrupt,
            Outcome::Value(a) => match spec_block_triples(f.file_bytes(), f.gdir_view(), gids.last()) {
                Outcome::Invalid => Outcome::Invalid,
                Outcome::Corrupt => Outcome::Corrupt,
                Outcome::Value(b) => Outcome::Value(a + b),
            },
        }
    }
}

/// The count of distinct triples the outcome calls for, or its failure.
pub open spec fn count_result(r: Result<usize>, o: Outcome<Seq<Triple>>) -> bool {
    match o {
        Outcome::Invalid => r matches Err(e) && e is Invalid,
        Outcome::Corrupt => r matches Err(e) && e is Corrupt,
        Outcome::Value(ts) => r matches Ok(n) && n == ts.to_set().len(),
    }
}

/// The triples counted for one graph group are those `triples_ids` yields
/// for it: so `triple_count` over one gid is the number of distinct triples
/// of its block, and fails as reading the block fails.
pub proof fn lemma_one_group_triples(f: &R5tuFile, gid: u64)
    ensures
        gids_triples(f, seq![gid]) == spec_block_triples(f.file_bytes(), f.gdir_view(), gid),
{
    let g = seq![gid];
    assert(g.drop_last() =~= Seq::<u64>::empty());
    assert(g.last() == gid);
    assert(gids_triples(f, g.drop_last()) == Outcome::Value(Seq::<Triple>::empty()));
    if let Outcome::Value(b) = spec_block_triples(f.file_bytes(), f.gdir_view(), gid) {
        assert(Seq::<Triple>::empty() + b =~= b);
    }
}

/// The first item of a scan, if any.
pub open spec fn first_item(items: Seq<Outcome<Match>>) -> Option<Outcome<Match>> {
    if items.len() == 0 {
        None
    } else {
        Some(items[0])
    }
}

/// The names among the first `k` logical graphs whose scan for `pat` yields
/// a match first, or the failure the first failing scan yields first.
pub open spec fn names_hits(f: &R5tuFile, lg: Seq<(Seq<char>, Seq<u64>, u64)>, pat: Pattern, k: nat)
    -> Outcome<Seq<Seq<char>>>
    decreases k,
{
    if k == 0 {
        Outcome::Value(seq![])
    } else {
        match names_hits(f, lg, pat, (k - 1) as nat) {
            Outcome::Invalid => Outcome::Invalid,
            Outcome::Corrupt => Outcome::Corrupt,
            Outcome::Value(v) => match first_item(scan_items(f, lg, pat, ScopeView::ByName(lg[k - 1].0))) {
                None => Outcome::Value(v),
                Some(Outcome::Value(_)) => Outcome::Value(v.push(lg[k - 1].0)),
                Some(Outcome::Invalid) => Outcome::Invalid,
                Some(Outcome::Corrupt) => Outcome::Corrupt,
            },
        }
    }
}

/// A failure among the first `k` names is the failure of them all.
proof fn lemma_names_hits_sticks(f: &R5tuFile, lg: Seq<(Seq<char>, Seq<u64>, u64)>, pat: Pattern, k: nat, n: nat)
    requires
        k <= n,
        !(names_hits(f, lg, pat, k) is Value),
    ensures
        names_hits(f, lg, pat, n) == names_hits(f, lg, pat, k),
    decreases n - k,
{
    if k < n {
        lemma_names_hits_sticks(f, lg, pat, k, (n - 1) as nat);
    }
}

// ---------------------------------------------------------------- snapshots

/// The graphs a scan ranges over, as values.
pub enum ScopeView {
    All,
    Gids(Seq<u64>),
    ByName(Seq<char>),
}

/// A scope as values.
pub open spec fn scope_view(scope: Scope) -> ScopeView {
    match scope {
        Scope::All => ScopeView::All,
        Scope::Gids(g) => ScopeView::Gids(g@),
        Scope::ByName(n) => ScopeView::ByName(n@),
    }
}

/// The gids of all logical graphs, graph after graph.
pub open spec fn flatten_gids(lg: Seq<(Seq<char>, Seq<u64>, u64)>) -> Seq<u64>
    decreases lg.len(),
{
    if lg.len() == 0 {
        seq![]
    } else {
        flatten_gids(lg.drop_last()) + lg.last().1
    }
}

/// The gids a scope ranges over, and whether matches of one triple in
/// several of them are reported once (a logical graph of more than one gid);
/// `None` for an unknown graph name.
pub open spec fn scope_gids(lg: Seq<(Seq<char>, Seq<u64>, u64)>, scope: ScopeView) -> Option<(Seq<u64>, bool)> {
    match scope {
        ScopeView::All => Some((flatten_gids(lg), false)),
        ScopeView::Gids(g) => Some((g, false)),
        ScopeView::ByName(n) => if exists|i: int| name_at(lg, n, i) {
            let i = choose|i: int| name_at(lg, n, i);
            Some((lg[i].1, lg[i].1.len() > 1))
        } else {
            None
        },
    }
}

/// What a scan of a snapshot yields: nothing when a bound term is not in
/// the dictionary or the graph name is unknown; otherwise the items over the
/// scope's gids, deduplicated for a logical graph of several gids.
pub open spec fn scan_items(f: &R5tuFile, lg: Seq<(Seq<char>, Seq<u64>, u64)>, pat: Pattern, scope: ScopeView) -> Seq<Outcome<Match>> {
    if pattern_out_of_range(pat, f.term_dict_view().n_terms) {
        seq![]
    } else {
        match scope_gids(lg, scope) {
            None => seq![],
            Some((gids, dedup)) => if dedup {
                dedup_items(base_items(f, gids, pat))
            } else {
                base_items(f, gids, pat)
            },
        }
    }
}

/// Logical graph `i` is named `name`.
pub open spec fn name_at(lg: Seq<(Seq<char>, Seq<u64>, u64)>, name: Seq<char>, i: int) -> bool {
    0 <= i < lg.len() && lg[i].0 == name
}

/// The logical graphs of a file's graph groups: each distinct graph name, in
/// order of first appearance, with the gids that carry it, in gid order, and
/// the triple count the directory records for its first gid.
pub open spec fn name_groups(grs: Seq<GraphRefView>) -> Seq<(Seq<char>, Seq<u64>, u64)>
    decreases grs.len(),
{
    if grs.len() == 0 {
        seq![]
    } else {
        let g = name_groups(grs.drop_last());
        let r = grs.last();
        if exists|i: int| name_at(g, r.graphname, i) {
            let i = choose|i: int| name_at(g, r.graphname, i);
            g.update(i, (g[i].0, g[i].1.push(r.gid), g[i].2))
        } else {
            g.push((r.graphname, seq![r.gid], r.n_triples))
        }
    }
}

/// No graph name occurs twice.
pub open spec fn names_distinct(lg: Seq<(Seq<char>, Seq<u64>, u64)>) -> bool {
    forall|i: int, j: int| 0 <= i < lg.len() && 0 <= j < lg.len() && i != j ==> lg[i].0 != lg[j].0
}

/// Two logical graphs of one name are one.
pub proof fn lemma_name_unique(lg: Seq<(Seq<char>, Seq<u64>, u64)>, i: int, j: int)
    requires
        names_distinct(lg),
        0 <= i < lg.len(),
        0 <= j < lg.len(),
        lg[i].0 == lg[j].0,
    ensures
        i == j,
{
}

/// A permutation index slot: not built yet, failed to build (the file's
/// triples could not all be read), or built from the file.
pub open spec fn cache_ok(c: Option<Option<MemSection>>, f: &R5tuFile, kind: IdxKind) -> bool {
    match c {
        None => true,
        Some(None) => file_index(f, kind) is None,
        Some(Some(m)) => m.wf() && m.kind_view() == kind && file_index(f, kind) == Some((m.key_seq(), m.posting_seq())),
    }
}

/// `rdfs:subClassOf`, whose closure a snapshot precomputes.
pub open spec fn sub_class_of() -> Seq<char> {
    "http://www.w3.org/2000/01/rdf-schema#subClassOf"@
}

/// `rdfs:subPropertyOf`, whose closure a snapshot precomputes.
pub open spec fn sub_property_of() -> Seq<char> {
    "http://www.w3.org/2000/01/rdf-schema#subPropertyOf"@
}

/// `owl:sameAs`, whose closure a snapshot precomputes.
pub open spec fn same_as() -> Seq<char> {
    "http://www.w3.org/2002/07/owl#sameAs"@
}

/// `s` with `x` appended when present.
pub open spec fn push_some(s: Seq<u64>, x: Option<u64>) -> Seq<u64> {
    match x {
        Some(v) => s.push(v),
        None => s,
    }
}

/// The term ids of the closure predicates the file holds, in the order
/// subclass, subproperty, same-as.
pub open spec fn closure_pred_ids(f: &R5tuFile) -> Seq<u64> {
    push_some(push_some(push_some(seq![], spec_iri_id(f, sub_class_of())), spec_iri_id(f, sub_property_of())),
        spec_iri_id(f, same_as()))
}

/// The tuples the closures are computed over: none when the file holds no
/// closure predicate or its graph groups cannot be read.
pub open spec fn closure_tuples(f: &R5tuFile) -> Option<Seq<IdxTuple>> {
    if closure_pred_ids(f).len() == 0 {
        None
    } else {
        match spec_file_tuples(f) {
            Outcome::Value(ts) => Some(ts),
            _ => None,
        }
    }
}

/// The closure index cache holds, once built, the closures of the file's
/// closure predicates.
pub open spec fn pclos_ok(c: Option<Option<MemPClos>>, f: &R5tuFile) -> bool {
    match c {
        None => true,
        Some(None) => closure_tuples(f) is None,
        Some(Some(m)) => {
            &&& m.wf()
            &&& closure_tuples(f) is Some
            &&& forall|p: u64| m.has_pred(p) <==> closure_pred_ids(f).contains(p)
            &&& forall|p: u64| m.has_pred(p) ==> m.edges_of(p) == pred_edges(closure_tuples(f).unwrap(), p)
        },
    }
}

/// A read-only, queryable view over an opened R5TU file.
pub struct Snapshot {
    file: R5tuFile,
    names: Vec<String>,
    groups: Vec<Vec<u64>>,
    first_counts: Vec<u64>,
    mem_pso: Option<Option<MemSection>>,
    mem_pos: Option<Option<MemSection>>,
    mem_spo: Option<Option<MemSection>>,
    mem_osp: Option<Option<MemSection>>,
    mem_pclos: Option<Option<MemPClos>>,
}

impl Snapshot {
    /// The underlying file.
    pub closed spec fn file_view(&self) -> R5tuFile {
        self.file
    }

    /// The logical graphs: each name with its physical gids.
    pub closed spec fn logical(&self) -> Seq<(Seq<char>, Seq<u64>, u64)> {
        Seq::new(self.names@.len(), |i: int| (self.names@[i]@, self.groups@[i]@, self.first_counts@[i]))
    }

    /// Names and groups run in parallel, names are distinct, and every built
    /// index is the file's.
    pub closed spec fn wf(&self) -> bool {
        &&& self.names@.len() == self.groups@.len()
        &&& self.names@.len() == self.first_counts@.len()
        &&& names_distinct(self.logical())
        &&& cache_ok(self.mem_pso, &self.file, IdxKind::Pso)
        &&& cache_ok(self.mem_pos, &self.file, IdxKind::Pos)
        &&& cache_ok(self.mem_spo, &self.file, IdxKind::Spo)
        &&& cache_ok(self.mem_osp, &self.file, IdxKind::Osp)
        &&& pclos_ok(self.mem_pclos, &self.file)
    }

    /// The names of a well-formed snapshot are distinct.
    pub proof fn lemma_names_distinct(&self)
        requires
            self.wf(),
        ensures
            names_distinct(self.logical()),
    {
    }

    /// The position of the logical graph named `name`.
    fn find_name(&self, name: &str) -> (r: Option<usize>)
        requires
            self.wf(),
        ensures
            r matches Some(i) ==> name_at(self.logical(), name@, i as int),
            r is None ==> !exists|i: int| name_at(self.logical(), name@, i),
    {
        let mut i: usize = 0;
        while i < self.names.len()
            invariant
                self.wf(),
                i <= self.names@.len(),
                forall|j: int| 0 <= j < i ==> !name_at(self.logical(), name@, j),
            decreases self.names@.len() - i,
        {
            if str_eq(self.names[i].as_str(), name) {
                return Some(i);
            }
            i = i + 1;
        }
        None
    }

    /// Build a snapshot from an opened file: its graph groups, grouped by
    /// graph name. Fails as reading the graph directory fails.
    pub fn from_file(file: R5tuFile) -> (r: Result<Snapshot>)
        ensures
            match spec_file_groups(&file) {
                Outcome::Invalid => r matches Err(e) && e is Invalid,
                Outcome::Corrupt => r matches Err(e) && e is Corrupt,
                Outcome::Value(grs) => r matches Ok(snap) && snap.wf() && snap.file_view() == file
                    && snap.logical() == name_groups(grs),
            },
    {
        let graphs = file.enumerate_all()?;
        let ghost grs = graphref_views(graphs@);
        let mut snap = Snapshot {
            file,
            names: Vec::new(),
            groups: Vec::new(),
            first_counts: Vec::new(),
            mem_pso: None,
            mem_pos: None,
            mem_spo: None,
            mem_osp: None,
            mem_pclos: None,
        };
        assert(snap.logical() =~= name_groups(grs.take(0)));
        let mut k: usize = 0;
        while k < graphs.len()
            invariant
                k <= graphs@.len(),
                grs == graphref_views(graphs@),
                snap.wf(),
                snap.file_view() == file,
                snap.logical() == name_groups(grs.take(k as int)),
                snap.mem_pso is None && snap.mem_pos is None && snap.mem_spo is None && snap.mem_osp is None,
            decreases graphs@.len() - k,
        {
            let g = &graphs[k];
            let ghost lg0 = snap.logical();
            assert(grs.take(k + 1).drop_last() =~= grs.take(k as int));
            assert(grs.take(k + 1).last() == g@);
            match snap.find_name(g.graphname.as_str()) {
                Some(i) => {
                    let mut gi: Vec<u64> = Vec::new();
                    snap.groups.set_and_swap(i, &mut gi);
                    gi.push(g.gid);
                    snap.groups.set(i, gi);
                    proof {
                        assert(snap.logical() =~= lg0.update(i as int, (lg0[i as int].0, lg0[i as int].1.push(g.gid), lg0[i as int].2)));
                        let c = choose|j: int| name_at(lg0, g@.graphname, j);
                        assert(c == i);
                        assert(names_distinct(snap.logical())) by {
                            assert forall|a: int, b: int| 0 <= a < snap.logical().len() && 0 <= b < snap.logical().len()
                                && a != b implies snap.logical()[a].0 != snap.logical()[b].0 by {
                                assert(snap.logical()[a].0 == lg0[a].0);
                                assert(snap.logical()[b].0 == lg0[b].0);
                            }
                        }
                    }
                },
                None => {
                    let nm = owned(g.graphname.as_str());
                    snap.names.push(nm);
                    let mut gi: Vec<u64> = Vec::new();
                    gi.push(g.gid);
                    snap.groups.push(gi);
                    snap.first_counts.push(g.n_triples);
                    proof {
                        assert(snap.logical() =~= lg0.push((g@.graphname, seq![g.gid], g.n_triples)));
                        assert(names_distinct(snap.logical())) by {
                            assert forall|a: int, b: int| 0 <= a < snap.logical().len() && 0 <= b < snap.logical().len()
                                && a != b implies snap.logical()[a].0 != snap.logical()[b].0 by {
                                if a == lg0.len() {
                                    assert(!name_at(lg0, g@.graphname, b));
                                } else if b == lg0.len() {
                                    assert(!name_at(lg0, g@.graphname, a));
                                } else {
                                    assert(snap.logical()[a].0 == lg0[a].0);
                                    assert(snap.logical()[b].0 == lg0[b].0);
                                }
                            }
                        }
                    }
                },
            }
            k = k + 1;
        }
        assert(grs.take(graphs@.len() as int) =~= grs);
        Ok(snap)
    }

    /// The underlying file reader.
    pub fn file(&self) -> (r: &R5tuFile)
        ensures
            *r == self.file_view(),
    {
        &self.file
    }

    /// The distinct logical-graph names, in order of first appearance.
    pub fn graph_names(&self) -> (r: Vec<String>)
        requires
            self.wf(),
        ensures
            r@.len() == self.logical().len(),
            forall|i: int| 0 <= i < r@.len() ==> #[trigger] r@[i]@ == self.logical()[i].0,
    {
        let mut out: Vec<String> = Vec::new();
        let mut i: usize = 0;
        while i < self.names.len()
            invariant
                self.wf(),
                i <= self.names@.len(),
                out@.len() == i,
                forall|j: int| 0 <= j < i ==> #[trigger] out@[j]@ == self.logical()[j].0,
            decreases self.names@.len() - i,
        {
            out.push(owned(self.names[i].as_str()));
            i = i + 1;
        }
        out
    }

    /// Whether a logical graph with this name exists.
    pub fn has_graph(&self, name: &str) -> (r: bool)
        requires
            self.wf(),
        ensures
            r == exists|i: int| name_at(self.logical(), name@, i),
    {
        self.find_name(name).is_some()
    }

    /// The index slot of permutation `kind`.
    pub closed spec fn slot(&self, kind: IdxKind) -> Option<Option<MemSection>> {
        match kind {
            IdxKind::Pso => self.mem_pso,
            IdxKind::Pos => self.mem_pos,
            IdxKind::Spo => self.mem_spo,
            IdxKind::Osp => self.mem_osp,
            IdxKind::PClos => None,
        }
    }

    /// Build the index of permutation `kind` unless it was built (or tried).
    fn ensure_index(&mut self, kind: IdxKind)
        requires
            old(self).wf(),
            kind != IdxKind::PClos,
        ensures
            final(self).wf(),
            final(self).file_view() == old(self).file_view(),
            final(self).logical() == old(self).logical(),
            final(self).slot(kind) is Some,
            forall|k: IdxKind| k != kind ==> #[trigger] final(self).slot(k) == old(self).slot(k),
    {
        if self.slot_built(kind) {
            return;
        }
        let built = match build_mem_section(&self.file, kind) {
            Ok(m) => Some(m),
            Err(_) => None,
        };
        match kind {
            IdxKind::Pso => { self.mem_pso = Some(built); },
            IdxKind::Pos => { self.mem_pos = Some(built); },
            IdxKind::Spo => { self.mem_spo = Some(built); },
            IdxKind::Osp => { self.mem_osp = Some(built); },
            IdxKind::PClos => {},
        }
    }

    /// Build the closure index, once.
    fn ensure_pclos(&mut self)
        requires
            old(self).wf(),
        ensures
            final(self).wf(),
            final(self).file_view() == old(self).file_view(),
            final(self).logical() == old(self).logical(),
            final(self).mem_pclos is Some,
            forall|k: IdxKind| #[trigger] final(self).slot(k) == old(self).slot(k),
    {
        if self.mem_pclos.is_some() {
            return;
        }
        let mut preds: Vec<u64> = Vec::new();
        match self.file.iri_term_id("http://www.w3.org/2000/01/rdf-schema#subClassOf") {
            Some(id) => preds.push(id),
            None => {},
        }
        match self.file.iri_term_id("http://www.w3.org/2000/01/rdf-schema#subPropertyOf") {
            Some(id) => preds.push(id),
            None => {},
        }
        match self.file.iri_term_id("http://www.w3.org/2002/07/owl#sameAs") {
            Some(id) => preds.push(id),
            None => {},
        }
        assert(preds@ =~= closure_pred_ids(&self.file));
        if preds.len() == 0 {
            self.mem_pclos = Some(None);
            return;
        }
        let built = match build_mem_pclos(&self.file, &preds) {
            Ok(m) => Some(m),
            Err(_) => None,
        };
        self.mem_pclos = Some(built);
    }

    /// Forward closure: the objects reachable from `subject` by one or more
    /// `predicate` edges over all the file's triples, ascending; `None` when
    /// `predicate` is not one of the closure predicates the file holds, when
    /// the subject has no edge under it, or when the file's groups cannot be
    /// read.
    pub fn closure_forward(&mut self, predicate: u64, subject: u64) -> (r: Option<Vec<u64>>)
        requires
            old(self).wf(),
        ensures
            final(self).wf(),
            final(self).file_view() == old(self).file_view(),
            final(self).logical() == old(self).logical(),
            match closure_tuples(&old(self).file_view()) {
                None => r is None,
                Some(ts) => if closure_pred_ids(&old(self).file_view()).contains(predicate)
                    && has_out(pred_edges(ts, predicate), subject) {
                    r matches Some(v) && closure_ok(v@, pred_edges(ts, predicate), subject)
                } else {
                    r is None
                },
            },
    {
        self.ensure_pclos();
        match &self.mem_pclos {
            Some(Some(m)) => m.closure_forward(predicate, subject),
            _ => None,
        }
    }

    /// Reverse closure: the subjects that reach `object` by one or more
    /// `predicate` edges over all the file's triples, ascending; `None` as
    /// for the forward closure.
    pub fn closure_reverse(&mut self, predicate: u64, object: u64) -> (r: Option<Vec<u64>>)
        requires
            old(self).wf(),
        ensures
            final(self).wf(),
            final(self).file_view() == old(self).file_view(),
            final(self).logical() == old(self).logical(),
            match closure_tuples(&old(self).file_view()) {
                None => r is None,
                Some(ts) => if closure_pred_ids(&old(self).file_view()).contains(predicate)
                    && has_out(inverse_edges(pred_edges(ts, predicate)), object) {
                    r matches Some(v) && closure_ok(v@, inverse_edges(pred_edges(ts, predicate)), object)
                } else {
                    r is None
                },
            },
    {
        self.ensure_pclos();
        match &self.mem_pclos {
            Some(Some(m)) => m.closure_reverse(predicate, object),
            _ => None,
        }
    }

    /// Whether closure data is available: the file holds a closure
    /// predicate and its groups can be read.
    pub fn has_closures(&mut self) -> (r: bool)
        requires
            old(self).wf(),
        ensures
            final(self).wf(),
            final(self).file_view() == old(self).file_view(),
            final(self).logical() == old(self).logical(),
            r == closure_tuples(&old(self).file_view()) is Some,
    {
        self.ensure_pclos();
        match &self.mem_pclos {
            Some(Some(_)) => true,
            _ => false,
        }
    }

    /// Whether the index of permutation `kind` was built (or tried).
    fn slot_built(&self, kind: IdxKind) -> (r: bool)
        ensures
            r == self.slot(kind) is Some,
    {
        match kind {
            IdxKind::Pso => self.mem_pso.is_some(),
            IdxKind::Pos => self.mem_pos.is_some(),
            IdxKind::Spo => self.mem_spo.is_some(),
            IdxKind::Osp => self.mem_osp.is_some(),
            IdxKind::PClos => false,
        }
    }

    /// The built index of permutation `kind`, if building it succeeded.
    fn index_of(&self, kind: IdxKind) -> (r: Option<&MemSection>)
        requires
            self.wf(),
            kind != IdxKind::PClos,
            self.slot(kind) is Some,
        ensures
            r matches Some(m) ==> m.wf() && file_index(&self.file_view(), kind) == Some((m.key_seq(), m.posting_seq())),
            r is None ==> file_index(&self.file_view(), kind) is None,
    {
        let slot = match kind {
            IdxKind::Pso => &self.mem_pso,
            IdxKind::Pos => &self.mem_pos,
            IdxKind::Spo => &self.mem_spo,
            _ => &self.mem_osp,
        };
        match slot {
            Some(Some(m)) => Some(m),
            _ => None,
        }
    }

    /// Eagerly build all four permutation indexes (PSO, POS, SPO, OSP);
    /// indexes already built are kept, and one that cannot be built is left
    /// out (scans then read the graph groups).
    pub fn build_indexes(&mut self)
        requires
            old(self).wf(),
        ensures
            final(self).wf(),
            final(self).file_view() == old(self).file_view(),
            final(self).logical() == old(self).logical(),
            final(self).slot(IdxKind::Pso) is Some,
            final(self).slot(IdxKind::Pos) is Some,
            final(self).slot(IdxKind::Spo) is Some,
            final(self).slot(IdxKind::Osp) is Some,
    {
        self.ensure_index(IdxKind::Pso);
        self.ensure_index(IdxKind::Pos);
        self.ensure_index(IdxKind::Spo);
        self.ensure_index(IdxKind::Osp);
    }

    /// The gids of all logical graphs, graph after graph.
    fn all_gids(&self) -> (r: Vec<u64>)
        requires
            self.wf(),
        ensures
            r@ == flatten_gids(self.logical()),
    {
        let mut out: Vec<u64> = Vec::new();
        let mut i: usize = 0;
        assert(self.logical().take(0) =~= Seq::<(Seq<char>, Seq<u64>, u64)>::empty());
        while i < self.groups.len()
            invariant
                self.wf(),
                i <= self.groups@.len(),
                out@ == flatten_gids(self.logical().take(i as int)),
            decreases self.groups@.len() - i,
        {
            let g = &self.groups[i];
            let mut k: usize = 0;
            let ghost o0 = out@;
            while k < g.len()
                invariant
                    k <= g@.len(),
                    out@ == o0 + g@.take(k as int),
                decreases g@.len() - k,
            {
                out.push(g[k]);
                assert(g@.take(k + 1) =~= g@.take(k as int).push(g@[k as int]));
                assert(o0 + g@.take(k + 1) =~= (o0 + g@.take(k as int)).push(g@[k as int]));
                k = k + 1;
            }
            assert(g@.take(g@.len() as int) =~= g@);
            assert(self.logical().take(i + 1).drop_last() =~= self.logical().take(i as int));
            assert(self.logical().take(i + 1).last().1 == g@);
            i = i + 1;
        }
        assert(self.logical().take(self.groups@.len() as int) =~= self.logical());
        out
    }

    /// Stream the `(gid, s, p, o)` matches of `pat` within `scope`: from a
    /// permutation index when a term is bound and the index has it,
    /// otherwise by reading each graph group (a group that cannot be read
    /// yields its error). A logical graph of more than one gid reports each
    /// triple once; nothing matches a term id outside the dictionary.
    pub fn scan(&mut self, pat: Pattern, scope: Scope<'_>) -> (r: Vec<Result<Match>>)
        requires
            old(self).wf(),
        ensures
            final(self).wf(),
            final(self).file_view() == old(self).file_view(),
            final(self).logical() == old(self).logical(),
            items_are(r@, scan_items(&old(self).file_view(), old(self).logical(), pat, scope_view(scope))),
    {
        let n_terms = self.file.num_terms();
        if out_of_range(pat, n_terms) {
            assert(items_are(Seq::<Result<Match>>::empty(), Seq::<Outcome<Match>>::empty()));
            return Vec::new();
        }
        let gids: Vec<u64>;
        let dedup: bool;
        match scope {
            Scope::All => {
                gids = self.all_gids();
                dedup = false;
            },
            Scope::Gids(g) => {
                gids = ids_of(g);
                dedup = false;
            },
            Scope::ByName(name) => match self.find_name(name) {
                Some(i) => {
                    proof {
                        let lg = self.logical();
                        assert(name_at(lg, name@, i as int));
                        let c = choose|j: int| name_at(lg, name@, j);
                        assert(lg[c].0 == lg[i as int].0);
                        assert(c == i as int);
                        assert(lg[i as int].1 == self.groups@[i as int]@);
                    }
                    gids = copy_ids(&self.groups[i]);
                    dedup = self.groups[i].len() > 1;
                    proof {
                        let lg = self.logical();
                        assert(scope_view(scope) == ScopeView::ByName(name@));
                        assert(exists|j: int| name_at(lg, name@, j));
                        let c = choose|j: int| name_at(lg, name@, j);
                        assert(c == i as int);
                        assert(scope_gids(lg, ScopeView::ByName(name@)) == Some((lg[c].1, lg[c].1.len() > 1)));
                    }
                },
                None => {
                    assert(items_are(Seq::<Result<Match>>::empty(), Seq::<Outcome<Match>>::empty()));
                    return Vec::new();
                },
            },
        }
        assert(scope_gids(self.logical(), scope_view(scope)) == Some((gids@, dedup)));
        let mut sink = ItemSink::new(dedup);
        let ghost f = self.file;
        match choose_index(pat) {
            None => {
                full_scan(&self.file, gids.as_slice(), pat, &mut sink);
            },
            Some((kind, key)) => {
                self.ensure_index(kind);
                match self.index_of(kind) {
                    Some(sec) => match sec.lookup(key) {
                        Some(post) => {
                            proof {
                                let keys = sec.key_seq();
                                let j = choose|j: int| 0 <= j < keys.len() && keys[j] == key && post.view() == sec.posting_seq()[j];
                                assert(keys.contains(key));
                                let c = choose|i: int| 0 <= i < keys.len() && keys[i] == key;
                                sec.lemma_key_at(c, j);
                            }
                            index_scan(post, gids.as_slice(), kind, key, pat, &mut sink);
                        },
                        None => {
                            full_scan(&self.file, gids.as_slice(), pat, &mut sink);
                        },
                    },
                    None => {
                        full_scan(&self.file, gids.as_slice(), pat, &mut sink);
                    },
                }
            },
        }
        assert(sink.emitted() =~= base_items(&f, gids@, pat));
        sink.finish()
    }

    /// The number of distinct triples in `scope`: the scope's graph groups
    /// are read (and a failure to read one is returned); an unknown name
    /// counts zero.
    pub fn triple_count(&self, scope: Scope<'_>) -> (r: Result<usize>)
        requires
            self.wf(),
        ensures
            match scope_view(scope) {
                ScopeView::ByName(n) => if exists|i: int| name_at(self.logical(), n, i) {
                    let i = choose|i: int| name_at(self.logical(), n, i);
                    count_result(r, gids_triples(&self.file_view(), self.logical()[i].1))
                } else {
                    r matches Ok(n) && n == 0
                },
                ScopeView::Gids(g) => count_result(r, gids_triples(&self.file_view(), g)),
                ScopeView::All => count_result(r, gids_triples(&self.file_view(), flatten_gids(self.logical()))),
            },
    {
        match scope {
            Scope::ByName(name) => match self.find_name(name) {
                None => Ok(0),
                Some(i) => {
                    proof {
                        let lg = self.logical();
                        let c = choose|j: int| name_at(lg, name@, j);
                        assert(lg[c].0 == lg[i as int].0);
                        assert(c == i as int);
                    }
                    count_unique(&self.file, self.groups[i].as_slice())
                },
            },
            Scope::Gids(g) => count_unique(&self.file, g),
            Scope::All => {
                let gids = self.all_gids();
                count_unique(&self.file, gids.as_slice())
            },
        }
    }

    /// The names of the logical graphs in which `pat` has a match, in the
    /// order of the names; the first failure a scan meets is returned.
    pub fn names_containing(&mut self, pat: Pattern) -> (r: Result<Vec<String>>)
        requires
            old(self).wf(),
        ensures
            final(self).wf(),
            final(self).file_view() == old(self).file_view(),
            final(self).logical() == old(self).logical(),
            match names_hits(&old(self).file_view(), old(self).logical(), pat, old(self).logical().len()) {
                Outcome::Invalid => r matches Err(e) && e is Invalid,
                Outcome::Corrupt => r matches Err(e) && e is Corrupt,
                Outcome::Value(v) => r matches Ok(x) && x@.map_values(|s: String| s@) == v,
            },
    {
        let ghost f = self.file;
        let ghost lg = self.logical();
        let mut out: Vec<String> = Vec::new();
        let mut i: usize = 0;
        assert(out@.map_values(|s: String| s@) =~= Seq::<Seq<char>>::empty());
        while i < self.names.len()
            invariant
                self.wf(),
                self.file_view() == f,
                self.logical() == lg,
                f == old(self).file_view(),
                lg == old(self).logical(),
                lg.len() == self.names@.len(),
                i <= lg.len(),
                names_hits(&f, lg, pat, i as nat) == Outcome::Value(out@.map_values(|s: String| s@)),
            decreases lg.len() - i,
        {
            let nm = owned(self.names[i].as_str());
            assert(nm@ == lg[i as int].0);
            let ghost v = out@.map_values(|s: String| s@);
            let mut items = self.scan(pat, Scope::ByName(nm.as_str()));
            let ghost want = scan_items(&f, lg, pat, ScopeView::ByName(lg[i as int].0));
            if items.len() > 0 {
                let first = items.remove(0);
                match first {
                    Ok(_) => {
                        out.push(nm);
                        assert(out@.map_values(|s: String| s@) =~= v.push(lg[i as int].0));
                    },
                    Err(e) => {
                        proof {
                            lemma_names_hits_sticks(&f, lg, pat, (i + 1) as nat, lg.len());
                        }
                        return Err(e);
                    },
                }
            }
            i = i + 1;
        }
        Ok(out)
    }

    /// The physical gids backing a logical-graph name, if any.
    pub fn gids_for_name(&self, name: &str) -> (r: Option<&[u64]>)
        requires
            self.wf(),
        ensures
            r matches Some(g) ==> exists|i: int| name_at(self.logical(), name@, i) && g@ == self.logical()[i].1,
            r is None ==> !exists|i: int| name_at(self.logical(), name@, i),
    {
        match self.find_name(name) {
            Some(i) => Some(self.groups[i].as_slice()),
            None => None,
        }
    }
}


/// Whether some bound term is outside the dictionary.
pub(crate) fn out_of_range(pat: Pattern, n_terms: u64) -> (r: bool)
    ensures
        r == pattern_out_of_range(pat, n_terms),
{
    let a = match pat.s {
        Some(x) => x >= n_terms,
        None => false,
    };
    let b = match pat.p {
        Some(x) => x >= n_terms,
        None => false,
    };
    let c = match pat.o {
        Some(x) => x >= n_terms,
        None => false,
    };
    a || b || c
}

/// The permutation index that serves a pattern, and its key.
fn choose_index(pat: Pattern) -> (r: Option<(IdxKind, u64)>)
    ensures
        r == index_choice(pat),
{
    match (pat.s, pat.p, pat.o) {
        (_, Some(p), Some(_)) => Some((IdxKind::Pos, p)),
        (_, Some(p), None) => Some((IdxKind::Pso, p)),
        (Some(s), None, _) => Some((IdxKind::Spo, s)),
        (None, None, Some(o)) => Some((IdxKind::Osp, o)),
        (None, None, None) => None,
    }
}

/// The ids of a slice, as a vector.
fn ids_of(g: &[u64]) -> (r: Vec<u64>)
    ensures
        r@ == g@,
{
    let mut out: Vec<u64> = Vec::new();
    let mut k: usize = 0;
    while k < g.len()
        invariant
            k <= g@.len(),
            out@ == g@.take(k as int),
        decreases g@.len() - k,
    {
        out.push(g[k]);
        assert(g@.take(k + 1) =~= g@.take(k as int).push(g@[k as int]));
        k = k + 1;
    }
    assert(g@.take(g@.len() as int) =~= g@);
    out
}


/// Count the distinct triples of the graph groups `gids`.
pub(crate) fn count_unique(file: &R5tuFile, gids: &[u64]) -> (r: Result<usize>)
    ensures
        count_result(r, gids_triples(file, gids@)),
{
    let mut seen: Vec<Triple> = Vec::new();
    let ghost mut acc: Seq<Triple> = Seq::empty();
    let mut i: usize = 0;
    assert(gids@.take(0) =~= Seq::<u64>::empty());
    while i < gids.len()
        invariant
            i <= gids@.len(),
            gids_triples(file, gids@.take(i as int)) == Outcome::Value(acc),
            seen@.no_duplicates(),
            forall|u: Triple| #[trigger] seen@.contains(u) <==> acc.contains(u),
        decreases gids@.len() - i,
    {
        let gid = gids[i];
        assert(gids@.take(i + 1).drop_last() =~= gids@.take(i as int));
        assert(gids@.take(i + 1).last() == gid);
        let mut it = match file.triples_ids(gid) {
            Ok(it) => it,
            Err(e) => {
                proof {
                    lemma_gids_triples_fail(file, gids@, i as int + 1);
                }
                return Err(e);
            },
        };
        let ts = it.collect_all();
        let ghost acc0 = acc;
        let mut j: usize = 0;
        assert(acc0 + ts@.take(0) =~= acc0);
        while j < ts.len()
            invariant
                j <= ts@.len(),
                seen@.no_duplicates(),
                forall|u: Triple| #[trigger] seen@.contains(u) <==> (acc0 + ts@.take(j as int)).contains(u),
            decreases ts@.len() - j,
        {
            let t = ts[j];
            let ghost x0 = acc0 + ts@.take(j as int);
            let ghost x1 = acc0 + ts@.take(j + 1);
            assert(x1 =~= x0.push(t));
            let found = holds_triple(&seen, t);
            let ghost s0 = seen@;
            if !found {
                seen.push(t);
            }
            proof {
                assert forall|u: Triple| #[trigger] seen@.contains(u) <==> x1.contains(u) by {
                    if x1.contains(u) {
                        let k = choose|k: int| 0 <= k < x1.len() && x1[k] == u;
                        if k < x0.len() {
                            assert(x0[k] == u);
                            assert(s0.contains(u));
                            let m = choose|m: int| 0 <= m < s0.len() && s0[m] == u;
                            assert(seen@[m] == u);
                        } else {
                            if !found {
                                assert(seen@[s0.len() as int] == t);
                            }
                        }
                    }
                    if seen@.contains(u) {
                        let m = choose|m: int| 0 <= m < seen@.len() && seen@[m] == u;
                        if m < s0.len() {
                            assert(s0[m] == u);
                            assert(s0.contains(u));
                            assert(x0.contains(u));
                            let k = choose|k: int| 0 <= k < x0.len() && x0[k] == u;
                            assert(x1[k] == u);
                        } else {
                            assert(x1[x0.len() as int] == t);
                        }
                    }
                }
                if !found {
                    assert forall|a: int, b: int| 0 <= a < seen@.len() && 0 <= b < seen@.len() && a != b
                        implies seen@[a] != seen@[b] by {
                        if a == s0.len() {
                            assert(!s0.contains(t));
                            if seen@[a] == seen@[b] {
                                assert(s0[b] == t);
                            }
                        } else if b == s0.len() {
                            if seen@[a] == seen@[b] {
                                assert(s0[a] == t);
                            }
                        }
                    }
                }
            }
            j = j + 1;
        }
        assert(ts@.take(ts@.len() as int) =~= ts@);
        proof {
            acc = acc0 + ts@;
        }
        i = i + 1;
    }
    assert(gids@.take(gids@.len() as int) =~= gids@);
    proof {
        seen@.unique_seq_to_set();
        assert(seen@.to_set() =~= acc.to_set());
    }
    Ok(seen.len())
}

/// Once reading a graph group fails, reading more groups fails the same way.
proof fn lemma_gids_triples_fail(f: &R5tuFile, gids: Seq<u64>, k: int)
    requires
        0 < k <= gids.len(),
        gids_triples(f, gids.take(k - 1)) is Value,
        !(spec_block_triples(f.file_bytes(), f.gdir_view(), gids[k - 1]) is Value),
    ensures
        gids_triples(f, gids.take(k)) == (match spec_block_triples(f.file_bytes(), f.gdir_view(), gids[k - 1]) {
            Outcome::Invalid => Outcome::<Seq<Triple>>::Invalid,
            _ => Outcome::<Seq<Triple>>::Corrupt,
        }),
        gids_triples(f, gids) == gids_triples(f, gids.take(k)),
    decreases gids.len() - k,
{
    assert(gids.take(k).drop_last() =~= gids.take(k - 1));
    if k < gids.len() {
        assert(gids.take(k + 1).drop_last() =~= gids.take(k));
        lemma_gids_triples_fail_sticks(f, gids, k);
    } else {
        assert(gids.take(k) =~= gids);
    }
}

/// A failure among the first `k` groups is the failure of them all.
proof fn lemma_gids_triples_fail_sticks(f: &R5tuFile, gids: Seq<u64>, k: int)
    requires
        0 < k <= gids.len(),
        !(gids_triples(f, gids.take(k)) is Value),
    ensures
        gids_triples(f, gids) == gids_triples(f, gids.take(k)),
    decreases gids.len() - k,
{
    if k < gids.len() {
        assert(gids.take(k + 1).drop_last() =~= gids.take(k));
        lemma_gids_triples_fail_sticks(f, gids, k + 1);
    } else {
        assert(gids.take(k) =~= gids);
    }
}

} // verus!
