//! Scoped views over a subset of a snapshot's graph groups.
use vstd::prelude::*;
use crate::layout::Outcome;
use crate::reader::{R5Error, R5tuFile, Result};
use crate::snapshot::{
    count_result, count_unique, dedup_items, full_scan, full_scan_items, gids_triples, items_are, name_at, out_of_range,
    pattern_out_of_range, ItemSink, Match, Pattern, Snapshot,
};
use crate::sort::{ascending, order_le, sort_unstable};
use crate::index::{build_mem_pclos_for_gids, closure_ok, has_out, inverse_edges, pred_edges, tuples_in_gids, MemPClos};
use crate::sidecar_build::{spec_file_tuples, IdxTuple};
use crate::snapshot::closure_pred_ids;

verus! {

/// What a view's scan yields: nothing when a bound term is not in the
/// dictionary; otherwise the matches of each of its graph groups in turn,
/// each triple reported once when the view has more than one group.
pub open spec fn view_scan_items(f: &R5tuFile, gids: Seq<u64>, pat: Pattern) -> Seq<Outcome<Match>> {
    if pattern_out_of_range(pat, f.term_dict_view().n_terms) {
        seq![]
    } else if gids.len() > 1 {
        dedup_items(full_scan_items(f, gids, pat))
    } else {
        full_scan_items(f, gids, pat)
    }
}

/// The tuples a view's closures are computed over: those of its graph
/// groups; none when the file holds no closure predicate or its groups
/// cannot be read.
pub open spec fn view_closure_tuples(f: &R5tuFile, gids: Seq<u64>) -> Option<Seq<IdxTuple>> {
    if closure_pred_ids(f).len() == 0 {
        None
    } else {
        match spec_file_tuples(f) {
            Outcome::Value(ts) => Some(tuples_in_gids(ts, gids)),
            _ => None,
        }
    }
}

/// Graph group `g` belongs to one of the named logical graphs.
pub open spec fn named_gid(lg: Seq<(Seq<char>, Seq<u64>, u64)>, names: Seq<Seq<char>>, g: u64) -> bool {
    exists|k: int, i: int| 0 <= k < names.len() && name_at(lg, names[k], i) && lg[i].1.contains(g)
}

/// One more name adds the gids of its logical graph.
proof fn lemma_named_push(lg: Seq<(Seq<char>, Seq<u64>, u64)>, nk: Seq<Seq<char>>, n: Seq<char>, x: u64)
    ensures
        named_gid(lg, nk.push(n), x) <==> (named_gid(lg, nk, x) || exists|i: int| name_at(lg, n, i) && lg[i].1.contains(x)),
{
    let nk1 = nk.push(n);
    if named_gid(lg, nk1, x) {
        let (k, i) = choose|k: int, i: int| 0 <= k < nk1.len() && name_at(lg, nk1[k], i) && lg[i].1.contains(x);
        if k < nk.len() {
            assert(nk[k] == nk1[k]);
        } else {
            assert(nk1[k] == n);
        }
    }
    if named_gid(lg, nk, x) {
        let (k, i) = choose|k: int, i: int| 0 <= k < nk.len() && name_at(lg, nk[k], i) && lg[i].1.contains(x);
        assert(nk1[k] == nk[k]);
    }
    if exists|i: int| name_at(lg, n, i) && lg[i].1.contains(x) {
        let i = choose|i: int| name_at(lg, n, i) && lg[i].1.contains(x);
        assert(nk1[nk.len() as int] == n);
        assert(name_at(lg, nk1[nk.len() as int], i));
    }
}

/// A scoped view over some of a snapshot's graph groups.
pub struct ScopedView<'a> {
    snapshot: &'a Snapshot,
    gids: Vec<u64>,
}

/// After a push, a sequence holds what it held and the new value.
proof fn lemma_push_contains(s: Seq<u64>, x: u64, g: u64)
    ensures
        s.push(x).contains(g) <==> (s.contains(g) || g == x),
{
    if s.contains(g) {
        let i = choose|i: int| 0 <= i < s.len() && s[i] == g;
        assert(s.push(x)[i] == g);
    }
    if g == x {
        assert(s.push(x)[s.len() as int] == x);
    }
    if s.push(x).contains(g) {
        let i = choose|i: int| 0 <= i < s.push(x).len() && s.push(x)[i] == g;
        if i < s.len() {
            assert(s[i] == g);
        }
    }
}

/// Append the ids of `g`.
fn extend_ids(all: &mut Vec<u64>, g: &[u64])
    ensures
        forall|x: u64| final(all)@.contains(x) <==> (old(all)@.contains(x) || g@.contains(x)),
{
    let ghost a0 = all@;
    let mut m: usize = 0;
    while m < g.len()
        invariant
            m <= g@.len(),
            forall|x: u64| #[trigger] all@.contains(x) <==> (a0.contains(x) || g@.take(m as int).contains(x)),
        decreases g@.len() - m,
    {
        let ghost b0 = all@;
        let ghost gm = g@.take(m as int);
        let v = g[m];
        all.push(v);
        let ghost gm1 = g@.take(m + 1);
        proof {
            assert(gm1 =~= gm.push(v));
            assert forall|x: u64| #[trigger] all@.contains(x) <==> (a0.contains(x) || gm1.contains(x)) by {
                lemma_push_contains(b0, v, x);
                lemma_push_contains(gm, v, x);
                assert(b0.contains(x) <==> (a0.contains(x) || gm.contains(x)));
            }
        }
        m = m + 1;
        assert(g@.take(m as int) == gm1);
    }
    assert(g@.take(g@.len() as int) =~= g@);
}

/// Sort ids ascending and drop repeats.
fn sorted_distinct(v: Vec<u64>) -> (r: Vec<u64>)
    ensures
        forall|i: int, j: int| 0 <= i < j < r@.len() ==> r@[i] < r@[j],
        forall|g: u64| r@.contains(g) <==> v@.contains(g),
{
    let mut w = v;
    let ghost orig = w@;
    assert(crate::sort::obeys_order::<u64>());
    sort_unstable(&mut w);
    proof {
        assert(ascending(w@));
        assert forall|g: u64| w@.contains(g) <==> orig.contains(g) by {
            assert(w@.to_multiset().count(g) == orig.to_multiset().count(g));
            w@.to_multiset_ensures();
            orig.to_multiset_ensures();
        }
    }
    let mut out: Vec<u64> = Vec::new();
    let mut k: usize = 0;
    while k < w.len()
        invariant
            k <= w@.len(),
            ascending(w@),
            forall|i: int, j: int| 0 <= i < j < out@.len() ==> out@[i] < out@[j],
            forall|g: u64| out@.contains(g) <==> w@.take(k as int).contains(g),
            out@.len() > 0 ==> k > 0 && out@.last() == w@[k - 1],
        decreases w@.len() - k,
    {
        let x = w[k];
        let ghost o0 = out@;
        let ghost pre = w@.take(k as int);
        let ghost pre1 = w@.take(k + 1);
        assert(pre1 =~= pre.push(x));
        if out.len() == 0 || out[out.len() - 1] != x {
            if out.len() > 0 {
                assert(order_le(w@[k - 1], w@[k as int]));
            }
            out.push(x);
            proof {
                assert(out@ =~= o0.push(x));
                assert forall|g: u64| out@.contains(g) <==> pre1.contains(g) by {
                    lemma_push_contains(o0, x, g);
                    lemma_push_contains(pre, x, g);
                }
            }
        } else {
            proof {
                assert forall|g: u64| out@.contains(g) <==> pre1.contains(g) by {
                    lemma_push_contains(pre, x, g);
                    assert(out@[out@.len() - 1] == x);
                }
            }
        }
        k = k + 1;
    }
    assert(w@.take(w@.len() as int) =~= w@);
    out
}

impl<'a> ScopedView<'a> {
    /// The snapshot the view ranges over.
    pub closed spec fn snap(&self) -> Snapshot {
        *self.snapshot
    }

    /// The view's graph groups.
    pub closed spec fn gid_seq(&self) -> Seq<u64> {
        self.gids@
    }

    /// A view of the named logical graphs: all their gids, ascending, each
    /// once. Names the snapshot does not have are skipped.
    pub fn from_names(snapshot: &'a Snapshot, names: &[&str]) -> (r: ScopedView<'a>)
        requires
            snapshot.wf(),
        ensures
            r.snap() == *snapshot,
            forall|i: int, j: int| 0 <= i < j < r.gid_seq().len() ==> r.gid_seq()[i] < r.gid_seq()[j],
            forall|g: u64| r.gid_seq().contains(g)
                <==> named_gid(snapshot.logical(), names@.map_values(|n: &str| n@), g),
    {
        let ghost lg = snapshot.logical();
        let ghost nv = names@.map_values(|n: &str| n@);
        proof {
            snapshot.lemma_names_distinct();
        }
        let mut all: Vec<u64> = Vec::new();
        let mut k: usize = 0;
        while k < names.len()
            invariant
                snapshot.wf(),
                lg == snapshot.logical(),
                crate::snapshot::names_distinct(lg),
                nv == names@.map_values(|n: &str| n@),
                k <= names@.len(),
                forall|g: u64| all@.contains(g) <==> named_gid(lg, nv.take(k as int), g),
            decreases names@.len() - k,
        {
            let ghost a0 = all@;
            assert(nv.take(k + 1) =~= nv.take(k as int).push(names[k as int]@));
            match snapshot.gids_for_name(names[k]) {
                Some(g) => {
                    let ghost i0 = choose|i: int| name_at(lg, names[k as int]@, i) && g@ == lg[i].1;
                    extend_ids(&mut all, g);
                    proof {
                        assert forall|x: u64| all@.contains(x) <==> named_gid(lg, nv.take(k + 1), x) by {
                            lemma_named_push(lg, nv.take(k as int), names[k as int]@, x);
                            if exists|i: int| name_at(lg, names[k as int]@, i) && lg[i].1.contains(x) {
                                let i = choose|i: int| name_at(lg, names[k as int]@, i) && lg[i].1.contains(x);
                                crate::snapshot::lemma_name_unique(lg, i, i0);
                            }
                            if g@.contains(x) {
                                assert(name_at(lg, names[k as int]@, i0) && lg[i0].1.contains(x));
                            }
                        }
                    }
                },
                None => {
                    proof {
                        assert forall|x: u64| all@.contains(x) <==> named_gid(lg, nv.take(k + 1), x) by {
                            lemma_named_push(lg, nv.take(k as int), names[k as int]@, x);
                        }
                    }
                },
            }
            k = k + 1;
        }
        assert(nv.take(names@.len() as int) =~= nv);
        let gids = sorted_distinct(all);
        ScopedView { snapshot, gids }
    }

    /// A view of the given graph groups, as given.
    pub fn from_gids(snapshot: &'a Snapshot, gids: Vec<u64>) -> (r: ScopedView<'a>)
        ensures
            r.snap() == *snapshot,
            r.gid_seq() == gids@,
    {
        ScopedView { snapshot, gids }
    }

    /// The view's graph groups.
    pub fn gids(&self) -> (r: &[u64])
        ensures
            r@ == self.gid_seq(),
    {
        self.gids.as_slice()
    }

    /// The number of graph groups in the view.
    pub fn n_gids(&self) -> (r: usize)
        ensures
            r == self.gid_seq().len(),
    {
        self.gids.len()
    }

    /// Stream the `(gid, s, p, o)` matches of `pat` within the view, reading
    /// each of its graph groups; a view of several groups reports each
    /// triple once.
    pub fn scan(&self, pat: Pattern) -> (r: Vec<Result<Match>>)
        ensures
            items_are(r@, view_scan_items(&self.snap().file_view(), self.gid_seq(), pat)),
    {
        let file = self.snapshot.file();
        let n_terms = file.num_terms();
        if out_of_range(pat, n_terms) {
            assert(items_are(Seq::<Result<Match>>::empty(), Seq::<Outcome<Match>>::empty()));
            return Vec::new();
        }
        let mut sink = ItemSink::new(self.gids.len() > 1);
        full_scan(file, self.gids.as_slice(), pat, &mut sink);
        assert(sink.emitted() =~= full_scan_items(file, self.gids@, pat));
        sink.finish()
    }

    /// The number of distinct triples in the view's graph groups.
    pub fn triple_count(&self) -> (r: Result<usize>)
        ensures
            count_result(r, gids_triples(&self.snap().file_view(), self.gid_seq())),
    {
        count_unique(self.snapshot.file(), self.gids.as_slice())
    }

    /// The closure predicates' closures over the view's graph groups.
    fn view_pclos(&self) -> (r: Option<MemPClos>)
        ensures
            match view_closure_tuples(&self.snap().file_view(), self.gid_seq()) {
                None => r is None,
                Some(ts) => r matches Some(m) && m.wf()
                    && (forall|p: u64| m.has_pred(p) <==> closure_pred_ids(&self.snap().file_view()).contains(p))
                    && (forall|p: u64| m.has_pred(p) ==> m.edges_of(p) == pred_edges(ts, p)),
            },
    {
        let file = self.snapshot.file();
        let mut preds: Vec<u64> = Vec::new();
        match file.iri_term_id("http://www.w3.org/2000/01/rdf-schema#subClassOf") {
            Some(id) => preds.push(id),
            None => {},
        }
        match file.iri_term_id("http://www.w3.org/2000/01/rdf-schema#subPropertyOf") {
            Some(id) => preds.push(id),
            None => {},
        }
        match file.iri_term_id("http://www.w3.org/2002/07/owl#sameAs") {
            Some(id) => preds.push(id),
            None => {},
        }
        assert(preds@ =~= closure_pred_ids(file));
        if preds.len() == 0 {
            return None;
        }
        match build_mem_pclos_for_gids(file, &preds, self.gids.as_slice()) {
            Ok(m) => Some(m),
            Err(_) => None,
        }
    }

    /// Forward closure within the view: the objects reachable from
    /// `subject` by one or more `predicate` edges among the view's graph
    /// groups, ascending; `None` when `predicate` is not one of the closure
    /// predicates the file holds, when the subject has no such edge in the
    /// view, or when the file's groups cannot be read.
    pub fn closure_forward(&self, predicate: u64, subject: u64) -> (r: Option<Vec<u64>>)
        ensures
            match view_closure_tuples(&self.snap().file_view(), self.gid_seq()) {
                None => r is None,
                Some(ts) => if closure_pred_ids(&self.snap().file_view()).contains(predicate)
                    && has_out(pred_edges(ts, predicate), subject) {
                    r matches Some(v) && closure_ok(v@, pred_edges(ts, predicate), subject)
                } else {
                    r is None
                },
            },
    {
        match self.view_pclos() {
            Some(m) => m.closure_forward(predicate, subject),
            None => None,
        }
    }

    /// Reverse closure within the view: the subjects that reach `object` by
    /// one or more `predicate` edges among the view's graph groups.
    pub fn closure_reverse(&self, predicate: u64, object: u64) -> (r: Option<Vec<u64>>)
        ensures
            match view_closure_tuples(&self.snap().file_view(), self.gid_seq()) {
                None => r is None,
                Some(ts) => if closure_pred_ids(&self.snap().file_view()).contains(predicate)
                    && has_out(inverse_edges(pred_edges(ts, predicate)), object) {
                    r matches Some(v) && closure_ok(v@, inverse_edges(pred_edges(ts, predicate)), object)
                } else {
                    r is None
                },
            },
    {
        match self.view_pclos() {
            Some(m) => m.closure_reverse(predicate, object),
            None => None,
        }
    }

    /// Whether some triple of the view matches the slots given.
    pub fn contains(&self, s: Option<u64>, p: Option<u64>, o: Option<u64>) -> (r: Result<bool>)
        ensures
            r == Ok::<bool, R5Error>(exists|i: int| 0 <= i < view_scan_items(&self.snap().file_view(), self.gid_seq(),
                Pattern { s, p, o }).len() && view_scan_items(&self.snap().file_view(), self.gid_seq(),
                Pattern { s, p, o })[i] is Value),
    {
        let pat = Pattern { s, p, o };
        let items = self.scan(pat);
        let ghost want = view_scan_items(&self.snap().file_view(), self.gid_seq(), pat);
        let mut i: usize = 0;
        while i < items.len()
            invariant
                i <= items@.len(),
                pat == (Pattern { s, p, o }),
                want == view_scan_items(&self.snap().file_view(), self.gid_seq(), pat),
                items_are(items@, want),
                forall|j: int| 0 <= j < i ==> !(want[j] is Value),
            decreases items@.len() - i,
        {
            if items[i].is_ok() {
                assert(want[i as int] is Value);
                return Ok(true);
            }
            i = i + 1;
        }
        Ok(false)
    }
}

} // verus!
