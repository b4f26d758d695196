//! Index and scan agree: the matches a snapshot finds through a permutation
//! index are the matches it finds by reading the graph groups.
use vstd::prelude::*;
use crate::index::{gid_groups, lemma_gid_groups_last, IdxKind};
use crate::layout::Outcome;
use crate::reader::R5tuFile;
use crate::snapshot::{
    as_items, block_at, block_of, full_scan_items, gid_items, gid_matches, index_matches, pair_match, pairs_matches,
    pattern_accepts, Match, Pattern,
};
use crate::layout::spec_block_triples;
use crate::index::{key_triples, lemma_pred_groups_sorted, remap, remap_all, spec_keys, spec_postings};
use crate::snapshot::{base_items, file_index, index_choice};
use crate::sidecar_build::{spec_file_groups, spec_file_tuples};
use crate::layout::{all_gids, spec_graphrefs, GraphRefView};
use crate::reader::Dict;
use crate::header::Section;
use crate::sidecar_build::{pred_groups, sorted_tuples, spec_tuples_from, tuple_le, tuples_sorted, IdxTuple};
use crate::sidecar_laws::{group_ok, lemma_groups_ok};
use crate::sort::{ascending, lemma_idx_tuple_obeys, order_le};
use crate::triples::Triple;

verus! {

/// The triple of a match.
pub open spec fn triple_of(m: Match) -> Triple {
    (m.s, m.p, m.o)
}

/// A graph group's matches are its triples that the pattern accepts.
proof fn lemma_gid_matches_contains(gid: u64, ts: Seq<Triple>, pat: Pattern, m: Match)
    ensures
        gid_matches(gid, ts, pat).contains(m) <==> (m.gid == gid && ts.contains(triple_of(m))
            && pattern_accepts(pat, triple_of(m))),
    decreases ts.len(),
{
    if ts.len() > 0 {
        let init = ts.drop_last();
        let t = ts.last();
        lemma_gid_matches_contains(gid, init, pat, m);
        let r0 = gid_matches(gid, init, pat);
        let mt = Match { gid, s: t.0, p: t.1, o: t.2 };
        if r0.contains(m) {
            let k = choose|k: int| 0 <= k < r0.len() && r0[k] == m;
            assert(gid_matches(gid, ts, pat)[k] == m);
            let q = choose|q: int| 0 <= q < init.len() && init[q] == triple_of(m);
            assert(ts[q] == triple_of(m));
        }
        if pattern_accepts(pat, t) {
            assert(gid_matches(gid, ts, pat)[r0.len() as int] == mt);
        }
        if gid_matches(gid, ts, pat).contains(m) {
            let k = choose|k: int| 0 <= k < gid_matches(gid, ts, pat).len() && gid_matches(gid, ts, pat)[k] == m;
            if k < r0.len() {
                assert(r0[k] == m);
            } else {
                assert(m == mt);
                assert(ts[ts.len() - 1] == t);
            }
        }
        if m.gid == gid && ts.contains(triple_of(m)) && pattern_accepts(pat, triple_of(m)) {
            let q = choose|q: int| 0 <= q < ts.len() && ts[q] == triple_of(m);
            if q < init.len() {
                assert(init[q] == triple_of(m));
            } else {
                assert(m == mt);
            }
        }
    }
}

/// A block's matches come from its pairs.
proof fn lemma_pairs_matches_contains(kind: IdxKind, key: u64, gid: u64, pairs: Seq<(u64, u64)>, pat: Pattern, m: Match)
    ensures
        pairs_matches(kind, key, gid, pairs, pat).contains(m) <==> exists|k: int|
            0 <= k < pairs.len() && pair_match(kind, key, gid, #[trigger] pairs[k], pat) == Some(m),
    decreases pairs.len(),
{
    if pairs.len() > 0 {
        let init = pairs.drop_last();
        let r0 = pairs_matches(kind, key, gid, init, pat);
        let r = pairs_matches(kind, key, gid, pairs, pat);
        lemma_pairs_matches_contains(kind, key, gid, init, pat, m);
        if r.contains(m) {
            let j = choose|j: int| 0 <= j < r.len() && r[j] == m;
            if j < r0.len() {
                assert(r0[j] == m);
                let k = choose|k: int| 0 <= k < init.len() && pair_match(kind, key, gid, #[trigger] init[k], pat) == Some(m);
                assert(pairs[k] == init[k]);
            } else {
                assert(pair_match(kind, key, gid, pairs[pairs.len() - 1], pat) == Some(m));
            }
        }
        if exists|k: int| 0 <= k < pairs.len() && pair_match(kind, key, gid, #[trigger] pairs[k], pat) == Some(m) {
            let k = choose|k: int| 0 <= k < pairs.len() && pair_match(kind, key, gid, #[trigger] pairs[k], pat) == Some(m);
            if k < init.len() {
                assert(init[k] == pairs[k]);
                let j = choose|j: int| 0 <= j < r0.len() && r0[j] == m;
                assert(r[j] == m);
            } else {
                assert(r[r0.len() as int] == m);
            }
        }
    }
}

/// An index's matches over graph groups: those of the blocks of the
/// groups listed.
proof fn lemma_index_matches_contains(
    pv: Seq<(u32, Seq<(u64, u64)>)>,
    gids: Seq<u64>,
    kind: IdxKind,
    key: u64,
    pat: Pattern,
    m: Match,
)
    requires
        kind != IdxKind::PClos,
    ensures
        index_matches(pv, gids, kind, key, pat).contains(m) <==> (gids.contains(m.gid)
            && pairs_matches(kind, key, m.gid, block_of(pv, m.gid), pat).contains(m)),
    decreases gids.len(),
{
    if gids.len() > 0 {
        let init = gids.drop_last();
        let g = gids.last();
        let r0 = index_matches(pv, init, kind, key, pat);
        let b = pairs_matches(kind, key, g, block_of(pv, g), pat);
        let r = index_matches(pv, gids, kind, key, pat);
        assert(r == r0 + b);
        lemma_index_matches_contains(pv, init, kind, key, pat, m);
        lemma_pairs_gid(kind, key, g, block_of(pv, g), pat, m);
        if r.contains(m) {
            let j = choose|j: int| 0 <= j < r.len() && r[j] == m;
            if j < r0.len() {
                assert(r0[j] == m);
                let q = choose|q: int| 0 <= q < init.len() && init[q] == m.gid;
                assert(gids[q] == m.gid);
            } else {
                assert(b[j - r0.len()] == m);
                assert(b.contains(m));
                assert(gids[gids.len() - 1] == g);
            }
        }
        if gids.contains(m.gid) && pairs_matches(kind, key, m.gid, block_of(pv, m.gid), pat).contains(m) {
            let q = choose|q: int| 0 <= q < gids.len() && gids[q] == m.gid;
            if q < init.len() {
                assert(init[q] == m.gid);
                let j = choose|j: int| 0 <= j < r0.len() && r0[j] == m;
                assert(r[j] == m);
            } else {
                let j = choose|j: int| 0 <= j < b.len() && b[j] == m;
                assert(r[r0.len() + j] == m);
            }
        }
    }
}

/// Every match of a block is in the block's graph group.
proof fn lemma_pairs_gid(kind: IdxKind, key: u64, gid: u64, pairs: Seq<(u64, u64)>, pat: Pattern, m: Match)
    requires
        kind != IdxKind::PClos,
    ensures
        pairs_matches(kind, key, gid, pairs, pat).contains(m) ==> m.gid == gid,
{
    lemma_pairs_matches_contains(kind, key, gid, pairs, pat, m);
}


/// Matches as items: a match is among them exactly when it is among the
/// matches, and every item is a match.
proof fn lemma_as_items(ms: Seq<Match>, m: Match)
    ensures
        as_items(ms).contains(Outcome::Value(m)) <==> ms.contains(m),
        forall|i: int| 0 <= i < as_items(ms).len() ==> #[trigger] as_items(ms)[i] is Value,
{
    if ms.contains(m) {
        let k = choose|k: int| 0 <= k < ms.len() && ms[k] == m;
        assert(as_items(ms)[k] == Outcome::Value(m));
    }
    if as_items(ms).contains(Outcome::Value(m)) {
        let k = choose|k: int| 0 <= k < as_items(ms).len() && as_items(ms)[k] == Outcome::Value(m);
        assert(ms[k] == m);
    }
}

/// The graph groups can all be read.
pub open spec fn gids_readable(f: &R5tuFile, gids: Seq<u64>) -> bool {
    forall|k: int| 0 <= k < gids.len() ==> #[trigger] spec_block_triples(f.file_bytes(), f.gdir_view(), gids[k]) is Value
}

/// The triples of a readable graph group.
pub open spec fn group_triples(f: &R5tuFile, gid: u64) -> Seq<Triple> {
    spec_block_triples(f.file_bytes(), f.gdir_view(), gid)->Value_0
}

/// Scanning readable graph groups yields only matches: those of the
/// groups' triples that the pattern accepts.
proof fn lemma_full_scan_contains(f: &R5tuFile, gids: Seq<u64>, pat: Pattern, m: Match)
    requires
        gids_readable(f, gids),
    ensures
        forall|i: int| 0 <= i < full_scan_items(f, gids, pat).len() ==> #[trigger] full_scan_items(f, gids, pat)[i] is Value,
        full_scan_items(f, gids, pat).contains(Outcome::Value(m)) <==> (gids.contains(m.gid)
            && group_triples(f, m.gid).contains(triple_of(m)) && pattern_accepts(pat, triple_of(m))),
    decreases gids.len(),
{
    if gids.len() > 0 {
        let init = gids.drop_last();
        let g = gids.last();
        assert(gids_readable(f, init)) by {
            assert forall|k: int| 0 <= k < init.len() implies #[trigger] spec_block_triples(f.file_bytes(), f.gdir_view(), init[k]) is Value by {
                assert(init[k] == gids[k]);
            }
        }
        assert(spec_block_triples(f.file_bytes(), f.gdir_view(), gids[gids.len() - 1]) is Value);
        lemma_full_scan_contains(f, init, pat, m);
        let r0 = full_scan_items(f, init, pat);
        let gm = gid_matches(g, group_triples(f, g), pat);
        let b = gid_items(f, g, pat);
        assert(b == as_items(gm));
        let r = full_scan_items(f, gids, pat);
        assert(r == r0 + b);
        lemma_as_items(gm, m);
        lemma_gid_matches_contains(g, group_triples(f, g), pat, m);
        assert forall|i: int| 0 <= i < r.len() implies #[trigger] r[i] is Value by {
            if i < r0.len() {
                assert(r[i] == r0[i]);
            } else {
                assert(r[i] == b[i - r0.len()]);
            }
        }
        if r.contains(Outcome::Value(m)) {
            let j = choose|j: int| 0 <= j < r.len() && r[j] == Outcome::Value(m);
            if j < r0.len() {
                assert(r0[j] == Outcome::Value(m));
                let q = choose|q: int| 0 <= q < init.len() && init[q] == m.gid;
                assert(gids[q] == m.gid);
            } else {
                assert(b[j - r0.len()] == Outcome::Value(m));
                assert(gids[gids.len() - 1] == g);
            }
        }
        if gids.contains(m.gid) && group_triples(f, m.gid).contains(triple_of(m)) && pattern_accepts(pat, triple_of(m)) {
            let q = choose|q: int| 0 <= q < gids.len() && gids[q] == m.gid;
            if q < init.len() {
                assert(init[q] == m.gid);
                let j = choose|j: int| 0 <= j < r0.len() && r0[j] == Outcome::Value(m);
                assert(r[j] == Outcome::Value(m));
            } else {
                let j = choose|j: int| 0 <= j < b.len() && b[j] == Outcome::Value(m);
                assert(r[r0.len() + j] == Outcome::Value(m));
            }
        }
    }
}


/// Some tuple of `u` is in graph group `g` with pair `ab`.
pub open spec fn has_pair(u: Seq<IdxTuple>, g: u64, ab: (u64, u64)) -> bool {
    exists|m: int| 0 <= m < u.len() && u[m].1 as u64 == g && (#[trigger] u[m]).2 == ab.0 && u[m].3 == ab.1
}

/// Over tuples ordered by graph group, the groups of `gid_groups` have
/// strictly increasing ids, and the block of group `g` holds exactly the
/// pairs of the tuples in `g`.
proof fn lemma_gid_blocks(u: Seq<IdxTuple>)
    requires
        forall|i: int, j: int| 0 <= i < j < u.len() ==> #[trigger] u[i].1 <= #[trigger] u[j].1,
    ensures
        forall|a: int, b: int| 0 <= a < b < gid_groups(u).len() ==> gid_groups(u)[a].0 < gid_groups(u)[b].0,
        forall|g: u64, ab: (u64, u64)| #[trigger] block_of(gid_groups(u), g).contains(ab) <==> has_pair(u, g, ab),
    decreases u.len(),
{
    let gg = gid_groups(u);
    if u.len() == 0 {
        assert forall|g: u64, ab: (u64, u64)| #[trigger] block_of(gg, g).contains(ab) <==> has_pair(u, g, ab) by {
            assert(!exists|i: int| block_at(gg, g, i));
        }
    } else {
        let init = u.drop_last();
        let t = u.last();
        assert forall|i: int, j: int| 0 <= i < j < init.len() implies #[trigger] init[i].1 <= #[trigger] init[j].1 by {
            assert(init[i] == u[i] && init[j] == u[j]);
        }
        lemma_gid_blocks(init);
        let gg0 = gid_groups(init);
        let pair = (t.2, t.3);
        assert forall|g: u64, ab: (u64, u64)| has_pair(u, g, ab) <==> (has_pair(init, g, ab) || (t.1 as u64 == g && ab == pair)) by {
            if has_pair(u, g, ab) {
                let m = choose|m: int| 0 <= m < u.len() && u[m].1 as u64 == g && (#[trigger] u[m]).2 == ab.0 && u[m].3 == ab.1;
                if m < init.len() {
                    assert(init[m] == u[m]);
                }
            }
            if has_pair(init, g, ab) {
                let m = choose|m: int| 0 <= m < init.len() && init[m].1 as u64 == g && (#[trigger] init[m]).2 == ab.0 && init[m].3 == ab.1;
                assert(u[m] == init[m]);
            }
            if t.1 as u64 == g && ab == pair {
                assert(u[u.len() - 1] == t);
            }
        }
        if gg0.len() > 0 && gg0.last().0 == t.1 {
            let li = gg0.len() - 1;
            assert(gg == gg0.update(li, (t.1, gg0.last().1.push(pair))));
            assert forall|g: u64, ab: (u64, u64)| #[trigger] block_of(gg, g).contains(ab) <==> has_pair(u, g, ab) by {
                assert forall|i: int| block_at(gg, g, i) <==> block_at(gg0, g, i) by {}
                if t.1 as u64 == g {
                    assert(block_at(gg0, g, li));
                    let c = choose|i: int| block_at(gg0, g, i);
                    assert(c == li);
                    assert(block_of(gg0, g) == gg0[li].1);
                    assert(block_of(gg, g) == gg0[li].1.push(pair));
                    assert(block_of(gg, g).contains(ab) <==> (block_of(gg0, g).contains(ab) || ab == pair)) by {
                        let s0 = gg0[li].1;
                        if s0.contains(ab) {
                            let k = choose|k: int| 0 <= k < s0.len() && s0[k] == ab;
                            assert(s0.push(pair)[k] == ab);
                        }
                        if ab == pair {
                            assert(s0.push(pair)[s0.len() as int] == pair);
                        }
                        if s0.push(pair).contains(ab) {
                            let k = choose|k: int| 0 <= k < s0.push(pair).len() && s0.push(pair)[k] == ab;
                            if k < s0.len() {
                                assert(s0[k] == ab);
                            }
                        }
                    }
                    assert(block_of(gg0, g).contains(ab) <==> has_pair(init, g, ab));
                } else {
                    if exists|i: int| block_at(gg0, g, i) {
                        let c = choose|i: int| block_at(gg0, g, i);
                        assert(c != li);
                        assert(gg[c] == gg0[c]);
                    }
                    assert(block_of(gg, g) == block_of(gg0, g));
                    assert(block_of(gg0, g).contains(ab) <==> has_pair(init, g, ab));
                }
            }
        } else {
            assert(gg == gg0.push((t.1, seq![pair])));
            let ni = gg0.len() as int;
            if gg0.len() > 0 {
                lemma_gid_groups_last(init);
                assert(init.last().1 <= t.1) by {
                    assert(u[init.len() - 1].1 <= u[u.len() - 1].1);
                }
            }
            assert forall|a: int, b: int| 0 <= a < b < gg.len() implies gg[a].0 < gg[b].0 by {
                if b == ni {
                    if a < ni - 1 {
                        assert(gg0[a].0 < gg0[ni - 1].0);
                    }
                }
            }
            assert forall|g: u64, ab: (u64, u64)| #[trigger] block_of(gg, g).contains(ab) <==> has_pair(u, g, ab) by {
                if t.1 as u64 == g {
                    assert(block_at(gg, g, ni));
                    let c = choose|i: int| block_at(gg, g, i);
                    if c < ni {
                        if c < ni - 1 {
                            assert(gg0[c].0 < gg0[ni - 1].0);
                        }
                    }
                    assert(c == ni);
                    assert(block_of(gg, g) == seq![pair]);
                    assert(!exists|i: int| block_at(gg0, g, i)) by {
                        if exists|i: int| block_at(gg0, g, i) {
                            let i = choose|i: int| block_at(gg0, g, i);
                            if i < ni - 1 {
                                assert(gg0[i].0 < gg0[ni - 1].0);
                            }
                        }
                    }
                    assert(block_of(gg0, g) == Seq::<(u64, u64)>::empty());
                    assert(!has_pair(init, g, ab));
                    if seq![pair].contains(ab) {
                        let k = choose|k: int| 0 <= k < 1 && seq![pair][k] == ab;
                    }
                    if ab == pair {
                        assert(seq![pair][0] == pair);
                    }
                } else {
                    assert forall|i: int| block_at(gg, g, i) <==> block_at(gg0, g, i) by {}
                    if exists|i: int| block_at(gg0, g, i) {
                        let c = choose|i: int| block_at(gg0, g, i);
                        assert(gg[c] == gg0[c]);
                    }
                    assert(block_of(gg, g) == block_of(gg0, g));
                    assert(block_of(gg0, g).contains(ab) <==> has_pair(init, g, ab));
                }
            }
        }
    }
}


/// The ascending arrangement of tuples exists: it is sorted and holds the
/// same tuples.
proof fn lemma_sorted_tuples(ts: Seq<IdxTuple>)
    ensures
        tuples_sorted(sorted_tuples(ts)),
        forall|t: IdxTuple| #[trigger] sorted_tuples(ts).contains(t) <==> ts.contains(t),
{
    lemma_idx_tuple_obeys();
    let leq = |a: IdxTuple, b: IdxTuple| order_le(a, b);
    ts.lemma_sort_by_ensures(leq);
    let x = ts.sort_by(leq);
    assert(ascending(x)) by {
        assert forall|i: int, j: int| 0 <= i < j < x.len() implies order_le(#[trigger] x[i], #[trigger] x[j]) by {
            assert(leq(x[i], x[j]));
        }
    }
    assert(x.to_multiset() == ts.to_multiset());
    let c = sorted_tuples(ts);
    assert(ascending(c) && c.to_multiset() == ts.to_multiset());
    assert forall|i: int, j: int| 0 <= i < j < c.len() implies tuple_le(#[trigger] c[i], #[trigger] c[j]) by {
        assert(order_le(c[i], c[j]));
    }
    assert forall|t: IdxTuple| #[trigger] c.contains(t) <==> ts.contains(t) by {
        c.to_multiset_ensures();
        ts.to_multiset_ensures();
        assert(c.to_multiset().count(t) == ts.to_multiset().count(t));
    }
}

/// The triples recorded for a key are those of the tuples with the key.
proof fn lemma_key_triples_contains(ts: Seq<IdxTuple>, key: u64, x: (u64, u64, u64))
    ensures
        key_triples(ts, key).contains(x) <==> exists|m: int| 0 <= m < ts.len() && (#[trigger] ts[m]).0 == key
            && ts[m].1 as u64 == x.0 && ts[m].2 == x.1 && ts[m].3 == x.2,
    decreases ts.len(),
{
    if ts.len() > 0 {
        let init = ts.drop_last();
        let t = ts.last();
        lemma_key_triples_contains(init, key, x);
        let k0 = key_triples(init, key);
        let k1 = key_triples(ts, key);
        if k1.contains(x) {
            let j = choose|j: int| 0 <= j < k1.len() && k1[j] == x;
            if j < k0.len() {
                assert(k0[j] == x);
                let m = choose|m: int| 0 <= m < init.len() && (#[trigger] init[m]).0 == key
                    && init[m].1 as u64 == x.0 && init[m].2 == x.1 && init[m].3 == x.2;
                assert(ts[m] == init[m]);
            } else {
                assert(ts[ts.len() - 1] == t);
            }
        }
        if exists|m: int| 0 <= m < ts.len() && (#[trigger] ts[m]).0 == key && ts[m].1 as u64 == x.0 && ts[m].2 == x.1 && ts[m].3 == x.2 {
            let m = choose|m: int| 0 <= m < ts.len() && (#[trigger] ts[m]).0 == key && ts[m].1 as u64 == x.0 && ts[m].2 == x.1 && ts[m].3 == x.2;
            if m < init.len() {
                assert(init[m] == ts[m]);
                let j = choose|j: int| 0 <= j < k0.len() && k0[j] == x;
                assert(k1[j] == x);
            } else {
                assert(k1[k0.len() as int] == x);
            }
        }
    }
}

/// The key group `i` of sorted tuples: ordered by graph group, and holding
/// in graph group `g` pair `ab` exactly when some tuple with the key does.
proof fn lemma_key_group(ts: Seq<IdxTuple>, i: int, g: u64, ab: (u64, u64))
    requires
        tuples_sorted(ts),
        0 <= i < pred_groups(ts).len(),
    ensures
        forall|a: int, b: int| 0 <= a < b < pred_groups(ts)[i].1.len() ==> #[trigger] pred_groups(ts)[i].1[a].1
            <= #[trigger] pred_groups(ts)[i].1[b].1,
        has_pair(pred_groups(ts)[i].1, g, ab) <==> exists|m: int| 0 <= m < ts.len() && (#[trigger] ts[m]).0
            == pred_groups(ts)[i].0 && ts[m].1 as u64 == g && ts[m].2 == ab.0 && ts[m].3 == ab.1,
{
    let grp = pred_groups(ts)[i];
    let u = grp.1;
    lemma_groups_ok(ts);
    assert(group_ok(ts, grp));
    assert forall|a: int, b: int| 0 <= a < b < u.len() implies #[trigger] u[a].1 <= #[trigger] u[b].1 by {
        assert(tuple_le(u[a], u[b]));
        assert(u[a].0 == grp.0 && u[b].0 == grp.0);
    }
    lemma_pred_groups_sorted(ts);
    let f3 = |t: IdxTuple| (t.1 as u64, t.2, t.3);
    assert(u.map_values(f3) == key_triples(ts, grp.0));
    let x = (g, ab.0, ab.1);
    lemma_key_triples_contains(ts, grp.0, x);
    if has_pair(u, g, ab) {
        let m = choose|m: int| 0 <= m < u.len() && u[m].1 as u64 == g && (#[trigger] u[m]).2 == ab.0 && u[m].3 == ab.1;
        assert(u.map_values(f3)[m] == x);
        assert(key_triples(ts, grp.0).contains(x));
    }
    if key_triples(ts, grp.0).contains(x) {
        let j = choose|j: int| 0 <= j < u.map_values(f3).len() && u.map_values(f3)[j] == x;
        assert(u[j].1 as u64 == g && u[j].2 == ab.0 && u[j].3 == ab.1);
    }
}

/// The graph references of the ids `gids` carry those ids, in order.
proof fn lemma_graphrefs_gids(d: Seq<u8>, id_dict: Dict, gn_dict: Dict, gdir: Section, gids: Seq<u64>)
    requires
        spec_graphrefs(d, id_dict, gn_dict, gdir, gids) is Value,
    ensures
        spec_graphrefs(d, id_dict, gn_dict, gdir, gids)->Value_0.len() == gids.len(),
        forall|k: int| 0 <= k < gids.len() ==> (#[trigger] spec_graphrefs(d, id_dict, gn_dict, gdir, gids)->Value_0[k]).gid
            == gids[k],
    decreases gids.len(),
{
    if gids.len() > 0 {
        lemma_graphrefs_gids(d, id_dict, gn_dict, gdir, gids.drop_first());
        let rest = spec_graphrefs(d, id_dict, gn_dict, gdir, gids.drop_first())->Value_0;
        let all = spec_graphrefs(d, id_dict, gn_dict, gdir, gids)->Value_0;
        assert forall|k: int| 0 <= k < gids.len() implies (#[trigger] all[k]).gid == gids[k] by {
            if k > 0 {
                assert(all[k] == rest[k - 1]);
                assert(gids.drop_first()[k - 1] == gids[k]);
            }
        }
    }
}

/// Tuple `t` of the graph groups `grs`: made of a triple `x` of group `k`.
pub open spec fn from_group(d: Seq<u8>, gdir: Section, grs: Seq<GraphRefView>, t: IdxTuple, k: int, x: Triple) -> bool {
    &&& 0 <= k < grs.len()
    &&& spec_block_triples(d, gdir, grs[k].gid) matches Outcome::Value(tk) && tk.contains(x)
    &&& t == (x.1, grs[k].gid as u32, x.0, x.2)
}

/// When all the groups' tuples can be gathered, every group has a `u32` id
/// and readable triples, and the tuples are exactly those made from the
/// groups' triples.
proof fn lemma_tuples_from(d: Seq<u8>, gdir: Section, grs: Seq<GraphRefView>)
    requires
        spec_tuples_from(d, gdir, grs) is Value,
    ensures
        forall|k: int| 0 <= k < grs.len() ==> (#[trigger] grs[k]).gid <= u32::MAX
            && spec_block_triples(d, gdir, grs[k].gid) is Value,
        forall|t: IdxTuple| #[trigger] spec_tuples_from(d, gdir, grs)->Value_0.contains(t) <==> exists|k: int, x: Triple|
            from_group(d, gdir, grs, t, k, x),
    decreases grs.len(),
{
    if grs.len() > 0 {
        let init = grs.drop_last();
        let g = grs.last().gid;
        lemma_tuples_from(d, gdir, init);
        let acc = spec_tuples_from(d, gdir, init)->Value_0;
        let tk = spec_block_triples(d, gdir, g)->Value_0;
        let all = spec_tuples_from(d, gdir, grs)->Value_0;
        let gt = crate::sidecar_build::group_tuples(g, tk);
        assert(all == acc + gt);
        assert forall|k: int| 0 <= k < grs.len() implies (#[trigger] grs[k]).gid <= u32::MAX
            && spec_block_triples(d, gdir, grs[k].gid) is Value by {
            if k < init.len() {
                assert(init[k] == grs[k]);
            }
        }
        assert forall|t: IdxTuple| #[trigger] all.contains(t) <==> exists|k: int, x: Triple| from_group(d, gdir, grs, t, k, x) by {
            if all.contains(t) {
                let j = choose|j: int| 0 <= j < all.len() && all[j] == t;
                if j < acc.len() {
                    assert(acc[j] == t);
                    assert(acc.contains(t));
                    let (k, x) = choose|k: int, x: Triple| from_group(d, gdir, init, t, k, x);
                    assert(init[k] == grs[k]);
                    assert(from_group(d, gdir, grs, t, k, x));
                } else {
                    let q = j - acc.len();
                    assert(gt[q] == t);
                    let x = tk[q];
                    assert(tk.contains(x));
                    assert(grs[grs.len() - 1].gid == g);
                    assert(from_group(d, gdir, grs, t, grs.len() - 1, x));
                }
            }
            if exists|k: int, x: Triple| from_group(d, gdir, grs, t, k, x) {
                let (k, x) = choose|k: int, x: Triple| from_group(d, gdir, grs, t, k, x);
                if k < init.len() {
                    assert(init[k] == grs[k]);
                    assert(from_group(d, gdir, init, t, k, x));
                    assert(acc.contains(t));
                    let j = choose|j: int| 0 <= j < acc.len() && acc[j] == t;
                    assert(all[j] == t);
                } else {
                    let q = choose|q: int| 0 <= q < tk.len() && tk[q] == x;
                    assert(gt[q] == t);
                    assert(all[acc.len() + q] == t);
                }
            }
        }
    }
}


/// The index tuples of a file, which the in-memory sections and the
/// sidecar are built from, are exactly the file's triples as
/// `enumerate_all` and `triples_ids` read them: a tuple
/// (predicate, group, subject, object) is there exactly when some listed
/// group's block holds that triple.
pub proof fn lemma_file_tuples_are_group_triples(f: &R5tuFile)
    requires
        spec_file_tuples(f) is Value,
    ensures
        spec_file_groups(f) is Value,
        forall|t: IdxTuple| #[trigger] spec_file_tuples(f)->Value_0.contains(t) <==> exists|k: int, x: Triple|
            from_group(f.file_bytes(), f.gdir_view(), spec_file_groups(f)->Value_0, t, k, x),
{
    lemma_tuples_from(f.file_bytes(), f.gdir_view(), spec_file_groups(f)->Value_0);
}

/// A triple of graph group `g` and the index tuple it gives for
/// permutation `kind` (group ids fit `u32`).
pub open spec fn tuple_for(kind: IdxKind, g: u64, x: Triple) -> IdxTuple {
    remap(kind, (x.1, g as u32, x.0, x.2))
}

/// Index and scan agree: over graph groups of the file, when all of the
/// file's triples can be read, the matches a pattern finds through the
/// permutation index that serves it are exactly the matches found by
/// reading the groups, and the index path yields no failure.
pub proof fn lemma_index_agrees_with_scan(f: &R5tuFile, gids: Seq<u64>, pat: Pattern, m: Match)
    requires
        spec_file_groups(f) is Value,
        spec_file_tuples(f) is Value,
        forall|k: int| 0 <= k < gids.len() ==> #[trigger] gids[k] < spec_file_groups(f)->Value_0.len(),
    ensures
        forall|i: int| 0 <= i < base_items(f, gids, pat).len() ==> #[trigger] base_items(f, gids, pat)[i] is Value,
        base_items(f, gids, pat).contains(Outcome::Value(m)) <==> full_scan_items(f, gids, pat).contains(Outcome::Value(m)),
{
    let d = f.file_bytes();
    let gdir = f.gdir_view();
    let n_rows = crate::layout::spec_gdir_header(d, gdir).unwrap().0;
    let grs = spec_file_groups(f)->Value_0;
    lemma_graphrefs_gids(d, f.id_dict_view(), f.gname_dict_view(), gdir, all_gids(n_rows));
    let ts = spec_file_tuples(f)->Value_0;
    lemma_tuples_from(d, gdir, grs);
    assert forall|g: int| 0 <= g < grs.len() implies (#[trigger] grs[g]).gid == g by {
        assert(all_gids(n_rows)[g] == g);
    }
    assert(gids_readable(f, gids)) by {
        assert forall|k: int| 0 <= k < gids.len() implies #[trigger] spec_block_triples(d, gdir, gids[k]) is Value by {
            let g = gids[k] as int;
            assert(grs[g].gid == g);
        }
    }
    lemma_full_scan_contains(f, gids, pat, m);
    if let Some((kind, key)) = index_choice(pat) {
        let rts = remap_all(kind, ts);
        let srt = sorted_tuples(rts);
        lemma_sorted_tuples(rts);
        let keys = spec_keys(srt);
        let posts = spec_postings(srt);
        assert(file_index(f, kind) == Some((keys, posts)));
        if keys.contains(key) {
            let i = choose|i: int| 0 <= i < keys.len() && keys[i] == key;
            let pg = pred_groups(srt);
            let u = pg[i].1;
            assert(pg[i].0 == key);
            assert(posts[i] == gid_groups(u));
            let pv = posts[i];
            let im = index_matches(pv, gids, kind, key, pat);
            lemma_as_items(im, m);
            lemma_index_matches_contains(pv, gids, kind, key, pat, m);
            let g = m.gid;
            let blk = block_of(pv, g);
            lemma_pairs_matches_contains(kind, key, g, blk, pat, m);
            lemma_key_group(srt, i, 0, (0, 0));
            lemma_gid_blocks(u);
            if im.contains(m) {
                let k = choose|k: int| 0 <= k < blk.len() && pair_match(kind, key, g, #[trigger] blk[k], pat) == Some(m);
                let ab = blk[k];
                assert(blk.contains(ab));
                assert(has_pair(u, g, ab));
                lemma_key_group(srt, i, g, ab);
                let q = choose|q: int| 0 <= q < srt.len() && (#[trigger] srt[q]).0 == key && srt[q].1 as u64 == g
                    && srt[q].2 == ab.0 && srt[q].3 == ab.1;
                let t = srt[q];
                assert(srt.contains(t));
                assert(rts.contains(t));
                let j = choose|j: int| 0 <= j < rts.len() && rts[j] == t;
                let t0 = ts[j];
                assert(t == remap(kind, t0));
                assert(ts.contains(t0));
                let (kk, x) = choose|kk: int, x: Triple| from_group(d, gdir, grs, t0, kk, x);
                assert(grs[kk].gid == kk);
                assert(t0.1 as u64 == kk);
                assert(kk == g);
                assert(group_triples(f, g).contains(x));
                assert(t == tuple_for(kind, g, x));
                assert(triple_of(m) == x && pattern_accepts(pat, x));
            }
            if full_scan_items(f, gids, pat).contains(Outcome::Value(m)) {
                let x = triple_of(m);
                let t0 = (x.1, g as u32, x.0, x.2);
                assert(from_group(d, gdir, grs, t0, g as int, x));
                assert(ts.contains(t0));
                let j = choose|j: int| 0 <= j < ts.len() && ts[j] == t0;
                let t = remap(kind, t0);
                assert(rts[j] == t);
                assert(rts.contains(t));
                assert(srt.contains(t));
                let q = choose|q: int| 0 <= q < srt.len() && srt[q] == t;
                let ab = (t.2, t.3);
                assert(t.0 == key);
                lemma_key_group(srt, i, g, ab);
                assert(has_pair(u, g, ab));
                assert(blk.contains(ab));
                let k = choose|k: int| 0 <= k < blk.len() && blk[k] == ab;
                assert(pair_match(kind, key, g, blk[k], pat) == Some(m));
                assert(im.contains(m));
            }
        }
    }
}

} // verus!
