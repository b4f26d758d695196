//! In-memory permutation indexes over the triples of an R5TU file.
//!
//! A [`MemSection`] maps a key term id to a [`Posting`]: the graph groups that
//! contain the key, each with its (A, B) pairs. The permutations are PSO and
//! POS (key = predicate), SPO (key = subject) and OSP (key = object).
use vstd::prelude::*;
use std::collections::HashMap;
use crate::layout::Outcome;
use crate::reader::{R5Error, R5tuFile, Result};
use crate::sidecar_build::{
    collect_tuples, lemma_pred_groups_run, pred_groups, sort_tuples, sorted_tuples, spec_file_tuples,
    tuple_le, tuples_sorted, IdxTuple,
};

verus! {

/// The permutation a [`MemSection`] indexes.
#[derive(Debug, Clone, Copy, PartialEq, Eq, Hash, Structural)]
pub enum IdxKind {
    /// predicate, subject, object
    Pso,
    /// predicate, object, subject
    Pos,
    /// the precomputed transitive closure of chosen predicates
    PClos,
    /// subject, predicate, object
    Spo,
    /// object, subject, predicate
    Osp,
}

/// One key's postings: the graph groups containing the key, in ascending
/// order, each with its (A, B) pairs.
#[derive(Debug)]
pub struct Posting {
    pub(crate) gids: Vec<u32>,
    pub(crate) blocks: Vec<Vec<(u64, u64)>>,
}

impl Posting {
    /// The groups with their pairs.
    pub closed spec fn view(&self) -> Seq<(u32, Seq<(u64, u64)>)> {
        Seq::new(self.gids@.len(), |i: int| (self.gids@[i], self.blocks@[i]@))
    }

    /// Group ids and blocks run in parallel and the ids strictly increase.
    pub closed spec fn wf(&self) -> bool {
        &&& self.gids@.len() == self.blocks@.len()
        &&& forall|i: int, j: int| 0 <= i < j < self.gids@.len() ==> self.gids@[i] < self.gids@[j]
    }
}

/// A borrowed view of one key's [`Posting`].
#[derive(Debug, Clone, Copy)]
pub struct IdxPosting<'a> {
    posting: &'a Posting,
}

/// The number of pairs of the blocks.
pub open spec fn total_pairs(ps: Seq<(u32, Seq<(u64, u64)>)>) -> nat
    decreases ps.len(),
{
    if ps.len() == 0 {
        0
    } else {
        total_pairs(ps.drop_last()) + ps.last().1.len()
    }
}

/// Every pair tagged with its group id, block after block.
pub open spec fn tagged_pairs(ps: Seq<(u32, Seq<(u64, u64)>)>) -> Seq<(u64, u64, u64)>
    decreases ps.len(),
{
    if ps.len() == 0 {
        seq![]
    } else {
        tagged_pairs(ps.drop_last()) + ps.last().1.map_values(|x: (u64, u64)| (ps.last().0 as u64, x.0, x.1))
    }
}

impl<'a> IdxPosting<'a> {
    /// A graph group appears in one block only.
    pub proof fn lemma_gid_at(&self, i: int, j: int)
        requires
            self.wf(),
            0 <= i < self.view().len(),
            0 <= j < self.view().len(),
            self.view()[i].0 == self.view()[j].0,
        ensures
            i == j,
    {
        if i < j {
            assert(self.posting.gids@[i] < self.posting.gids@[j]);
        } else if j < i {
            assert(self.posting.gids@[j] < self.posting.gids@[i]);
        }
    }

    /// The posting's groups with their pairs.
    pub closed spec fn view(&self) -> Seq<(u32, Seq<(u64, u64)>)> {
        self.posting.view()
    }

    /// The posting is well formed.
    pub closed spec fn wf(&self) -> bool {
        self.posting.wf()
    }

    /// Number of graph groups (truncated to `u32`).
    pub fn n_gids(&self) -> (r: u32)
        ensures
            r == self.view().len() as u32,
    {
        #[verifier::truncate]
        let n = self.posting.gids.len() as u32;
        n
    }

    /// Number of pairs over all groups (truncated to `u32`).
    pub fn n_triples(&self) -> (r: u32)
        requires
            self.wf(),
        ensures
            r == total_pairs(self.view()) as u32,
    {
        let mut total: u128 = 0;
        let mut i: usize = 0;
        let ghost v = self.view();
        while i < self.posting.blocks.len()
            invariant
                self.wf(),
                v == self.view(),
                i <= v.len(),
                total == total_pairs(v.subrange(0, i as int)),
                total <= i * 0x1_0000_0000_0000_0000u128,
            decreases v.len() - i,
        {
            let n = self.posting.blocks[i].len();
            proof {
                assert(v.subrange(0, i + 1).drop_last() =~= v.subrange(0, i as int));
                assert(v[i as int].1.len() == n);
            }
            total = total + n as u128;
            i = i + 1;
        }
        assert(v.subrange(0, v.len() as int) =~= v);
        #[verifier::truncate]
        let r = total as u32;
        r
    }

    /// The graph-group ids, ascending.
    pub fn gids(&self) -> (r: Vec<u64>)
        ensures
            r@ == self.view().map_values(|x: (u32, Seq<(u64, u64)>)| x.0 as u64),
            self.wf() ==> forall|i: int, j: int| 0 <= i < j < r@.len() ==> r@[i] < r@[j],
    {
        let mut out: Vec<u64> = Vec::new();
        let mut i: usize = 0;
        let ghost v = self.view();
        while i < self.posting.gids.len()
            invariant
                v == self.view(),
                v.len() == self.posting.gids@.len(),
                i <= v.len(),
                out@ =~= v.subrange(0, i as int).map_values(|x: (u32, Seq<(u64, u64)>)| x.0 as u64),
            decreases v.len() - i,
        {
            out.push(self.posting.gids[i] as u64);
            i = i + 1;
        }
        assert(v.subrange(0, v.len() as int) =~= v);
        proof {
            if self.wf() {
                assert forall|i: int, j: int| 0 <= i < j < out@.len() implies out@[i] < out@[j] by {
                    assert(out@[i] == v[i].0 as u64);
                    assert(out@[j] == v[j].0 as u64);
                    assert(v[i].0 == self.posting.gids@[i]);
                    assert(v[j].0 == self.posting.gids@[j]);
                }
            }
        }
        out
    }

    /// The block index of group `gid`.
    pub fn block_for_gid(&self, gid: u64) -> (r: Option<usize>)
        requires
            self.wf(),
        ensures
            r matches Some(i) ==> i < self.view().len() && self.view()[i as int].0 == gid,
            r is None ==> forall|i: int| 0 <= i < self.view().len() ==> self.view()[i].0 != gid,
    {
        if gid > u32::MAX as u64 {
            return None;
        }
        let g = gid as u32;
        let gids = &self.posting.gids;
        let mut lo: usize = 0;
        let mut hi: usize = gids.len();
        while lo < hi
            invariant
                self.wf(),
                hi <= gids@.len(),
                gids == &self.posting.gids,
                g == gid,
                forall|i: int| 0 <= i < lo ==> gids@[i] < g,
                forall|i: int| hi <= i < gids@.len() ==> gids@[i] > g,
            decreases hi - lo,
        {
            let mid = lo + (hi - lo) / 2;
            if gids[mid] == g {
                return Some(mid);
            } else if gids[mid] < g {
                lo = mid + 1;
            } else {
                hi = mid;
            }
        }
        None
    }

    /// The (A, B) pairs of block `block_idx`.
    pub fn iter_block(self, block_idx: usize) -> (r: Vec<(u64, u64)>)
        requires
            self.wf(),
            block_idx < self.view().len(),
        ensures
            r@ == self.view()[block_idx as int].1,
    {
        let block = &self.posting.blocks[block_idx];
        let mut out: Vec<(u64, u64)> = Vec::new();
        let mut k: usize = 0;
        while k < block.len()
            invariant
                k <= block@.len(),
                out@ == block@.subrange(0, k as int),
            decreases block@.len() - k,
        {
            out.push(block[k]);
            assert(block@.subrange(0, k + 1) =~= block@.subrange(0, k as int).push(block@[k as int]));
            k = k + 1;
        }
        assert(block@.subrange(0, block@.len() as int) =~= block@);
        out
    }

    /// The (group, A, B) triples of every block, block after block.
    pub fn iter_all(self) -> (r: Vec<(u64, u64, u64)>)
        requires
            self.wf(),
        ensures
            r@ == tagged_pairs(self.view()),
    {
        let mut out: Vec<(u64, u64, u64)> = Vec::new();
        let ghost v = self.view();
        let mut i: usize = 0;
        while i < self.posting.gids.len()
            invariant
                self.wf(),
                v == self.view(),
                v.len() == self.posting.gids@.len(),
                i <= v.len(),
                out@ == tagged_pairs(v.subrange(0, i as int)),
            decreases v.len() - i,
        {
            let g = self.posting.gids[i] as u64;
            let block = &self.posting.blocks[i];
            let ghost before = out@;
            let mut k: usize = 0;
            while k < block.len()
                invariant
                    k <= block@.len(),
                    out@ == before + block@.subrange(0, k as int).map_values(|x: (u64, u64)| (g, x.0, x.1)),
                decreases block@.len() - k,
            {
                let (a, b) = block[k];
                out.push((g, a, b));
                assert(block@.subrange(0, k + 1).map_values(|x: (u64, u64)| (g, x.0, x.1))
                    =~= block@.subrange(0, k as int).map_values(|x: (u64, u64)| (g, x.0, x.1)).push((g, a, b)));
                k = k + 1;
            }
            proof {
                assert(block@.subrange(0, block@.len() as int) =~= block@);
                assert(v.subrange(0, i + 1).drop_last() =~= v.subrange(0, i as int));
                assert(v[i as int] == (self.posting.gids@[i as int], block@));
            }
            i = i + 1;
        }
        assert(v.subrange(0, v.len() as int) =~= v);
        out
    }
}

/// One permutation index: the keys in ascending order, parallel to their
/// postings.
#[derive(Debug)]
pub struct MemSection {
    pub(crate) kind: IdxKind,
    pub(crate) keys: Vec<u64>,
    pub(crate) postings: Vec<Posting>,
}

impl MemSection {
    /// A key appears at one position only.
    pub proof fn lemma_key_at(&self, i: int, j: int)
        requires
            self.wf(),
            0 <= i < self.key_seq().len(),
            0 <= j < self.key_seq().len(),
            self.key_seq()[i] == self.key_seq()[j],
        ensures
            i == j,
    {
        if i < j {
            assert(self.keys@[i] < self.keys@[j]);
        } else if j < i {
            assert(self.keys@[j] < self.keys@[i]);
        }
    }

    /// The keys, ascending.
    pub closed spec fn key_seq(&self) -> Seq<u64> {
        self.keys@
    }

    /// The posting of each key.
    pub closed spec fn posting_seq(&self) -> Seq<Seq<(u32, Seq<(u64, u64)>)>> {
        Seq::new(self.postings@.len(), |i: int| self.postings@[i].view())
    }

    /// Keys strictly increase, run parallel to well-formed postings.
    pub closed spec fn wf(&self) -> bool {
        &&& self.keys@.len() == self.postings@.len()
        &&& forall|i: int, j: int| 0 <= i < j < self.keys@.len() ==> self.keys@[i] < self.keys@[j]
        &&& forall|i: int| 0 <= i < self.postings@.len() ==> #[trigger] self.postings@[i].wf()
    }

    /// The permutation, as recorded.
    pub closed spec fn kind_view(&self) -> IdxKind {
        self.kind
    }

    /// The permutation this section indexes.
    pub fn kind(&self) -> (r: IdxKind)
        ensures
            r == self.kind_view(),
    {
        self.kind
    }

    /// The posting of `key`.
    pub fn lookup(&self, key: u64) -> (r: Option<IdxPosting<'_>>)
        requires
            self.wf(),
        ensures
            r matches Some(p) ==> p.wf() && exists|i: int| 0 <= i < self.key_seq().len() && self.key_seq()[i] == key
                && p.view() == self.posting_seq()[i],
            r is None ==> !self.key_seq().contains(key),
    {
        let keys = &self.keys;
        let mut lo: usize = 0;
        let mut hi: usize = keys.len();
        while lo < hi
            invariant
                self.wf(),
                hi <= keys@.len(),
                keys == &self.keys,
                forall|i: int| 0 <= i < lo ==> keys@[i] < key,
                forall|i: int| hi <= i < keys@.len() ==> keys@[i] > key,
            decreases hi - lo,
        {
            let mid = lo + (hi - lo) / 2;
            if keys[mid] == key {
                let p = IdxPosting { posting: &self.postings[mid] };
                assert(self.postings@[mid as int].wf());
                assert(self.posting_seq()[mid as int] == p.view());
                return Some(p);
            } else if keys[mid] < key {
                lo = mid + 1;
            } else {
                hi = mid;
            }
        }
        None
    }
}

// ---------------------------------------------------------------- building

/// A (p, group, s, o) tuple arranged for permutation `kind`: (key, group, A, B).
pub open spec fn remap(kind: IdxKind, t: IdxTuple) -> IdxTuple {
    match kind {
        IdxKind::Pso => (t.0, t.1, t.2, t.3),
        IdxKind::Pos => (t.0, t.1, t.3, t.2),
        IdxKind::Spo => (t.2, t.1, t.0, t.3),
        IdxKind::Osp => (t.3, t.1, t.2, t.0),
        IdxKind::PClos => t,
    }
}

/// Every tuple arranged for permutation `kind`.
pub open spec fn remap_all(kind: IdxKind, ts: Seq<IdxTuple>) -> Seq<IdxTuple> {
    ts.map_values(|t: IdxTuple| remap(kind, t))
}

/// The (A, B) pairs of tuples.
pub open spec fn pairs_of(ts: Seq<IdxTuple>) -> Seq<(u64, u64)> {
    ts.map_values(|t: IdxTuple| (t.2, t.3))
}

/// The tuples grouped into maximal runs of one graph group, with their pairs.
pub open spec fn gid_groups(ts: Seq<IdxTuple>) -> Seq<(u32, Seq<(u64, u64)>)>
    decreases ts.len(),
{
    if ts.len() == 0 {
        seq![]
    } else {
        let g = gid_groups(ts.drop_last());
        let t = ts.last();
        if g.len() > 0 && g.last().0 == t.1 {
            g.update(g.len() - 1, (t.1, g.last().1.push((t.2, t.3))))
        } else {
            g.push((t.1, seq![(t.2, t.3)]))
        }
    }
}

/// The last group holds the last tuple's group id.
pub(crate) proof fn lemma_gid_groups_last(ts: Seq<IdxTuple>)
    requires
        ts.len() > 0,
    ensures
        gid_groups(ts).len() > 0,
        gid_groups(ts).last().0 == ts.last().1,
    decreases ts.len(),
{
    if ts.len() > 1 {
        lemma_gid_groups_last(ts.drop_last());
    }
}

/// Extending a run of one graph group that follows a different group (or
/// starts the tuples) adds one group holding the run's pairs.
proof fn lemma_gid_groups_run(ts: Seq<IdxTuple>, i: int, j: int)
    requires
        0 <= i < j <= ts.len(),
        forall|m: int| i <= m < j ==> #[trigger] ts[m].1 == ts[i].1,
        i == 0 || ts[i - 1].1 != ts[i].1,
    ensures
        gid_groups(ts.subrange(0, j)) == gid_groups(ts.subrange(0, i)).push((ts[i].1, pairs_of(ts.subrange(i, j)))),
    decreases j - i,
{
    let pre = ts.subrange(0, i);
    assert(ts.subrange(0, j).drop_last() =~= ts.subrange(0, j - 1));
    if j == i + 1 {
        assert(ts.subrange(0, i + 1).drop_last() =~= pre);
        if i > 0 {
            assert(pre.last() == ts[i - 1]);
            lemma_gid_groups_last(pre);
        }
        assert(pairs_of(ts.subrange(i, j)) =~= seq![(ts[i].2, ts[i].3)]);
    } else {
        lemma_gid_groups_run(ts, i, j - 1);
        let g = gid_groups(ts.subrange(0, j - 1));
        assert(pairs_of(ts.subrange(i, j - 1)).push((ts[j - 1].2, ts[j - 1].3)) =~= pairs_of(ts.subrange(i, j)));
        assert(g.update(g.len() - 1, (ts[i].1, g.last().1.push((ts[j - 1].2, ts[j - 1].3))))
            =~= gid_groups(pre).push((ts[i].1, pairs_of(ts.subrange(i, j)))));
    }
}

/// The keys of the section built from sorted tuples.
pub open spec fn spec_keys(ts: Seq<IdxTuple>) -> Seq<u64> {
    pred_groups(ts).map_values(|g: (u64, Seq<IdxTuple>)| g.0)
}

/// The postings of the section built from sorted tuples.
pub open spec fn spec_postings(ts: Seq<IdxTuple>) -> Seq<Seq<(u32, Seq<(u64, u64)>)>> {
    pred_groups(ts).map_values(|g: (u64, Seq<IdxTuple>)| gid_groups(g.1))
}

/// The posting of the key run `ts[i..j]`.
fn build_posting(ts: &Vec<IdxTuple>, i: usize, j: usize) -> (p: Posting)
    requires
        i < j <= ts@.len(),
        tuples_sorted(ts@),
        forall|m: int| i <= m < j ==> #[trigger] ts@[m].0 == ts@[i as int].0,
    ensures
        p.wf(),
        p.view() == gid_groups(ts@.subrange(i as int, j as int)),
{
    let ghost u = ts@.subrange(i as int, j as int);
    let mut gids: Vec<u32> = Vec::new();
    let mut blocks: Vec<Vec<(u64, u64)>> = Vec::new();
    let mut k: usize = i;
    assert(u.subrange(0, 0) =~= Seq::<IdxTuple>::empty());
    while k < j
        invariant
            i <= k <= j <= ts@.len(),
            u == ts@.subrange(i as int, j as int),
            tuples_sorted(ts@),
            forall|m: int| i <= m < j ==> #[trigger] ts@[m].0 == ts@[i as int].0,
            gids@.len() == blocks@.len(),
            Seq::new(gids@.len(), |x: int| (gids@[x], blocks@[x]@)) == gid_groups(u.subrange(0, k - i)),
            forall|a: int, b: int| 0 <= a < b < gids@.len() ==> gids@[a] < gids@[b],
            k > i ==> gids@.len() > 0 && gids@.last() == ts@[k - 1].1,
            k < j && k > i ==> ts@[k - 1].1 != ts@[k as int].1,
        decreases j - k,
    {
        let gid = ts[k].1;
        let start = k;
        let mut block: Vec<(u64, u64)> = Vec::new();
        while k < j && ts[k].1 == gid
            invariant
                start <= k <= j <= ts@.len(),
                start < j,
                gid == ts@[start as int].1,
                forall|m: int| start <= m < k ==> #[trigger] ts@[m].1 == gid,
                block@ == pairs_of(ts@.subrange(start as int, k as int)),
            decreases j - k,
        {
            block.push((ts[k].2, ts[k].3));
            assert(pairs_of(ts@.subrange(start as int, k + 1)) =~= pairs_of(ts@.subrange(start as int, k as int)).push((ts@[k as int].2, ts@[k as int].3)));
            k = k + 1;
        }
        proof {
            let s0 = (start - i) as int;
            let k0 = (k - i) as int;
            assert forall|m: int| s0 <= m < k0 implies #[trigger] u[m].1 == u[s0].1 by {
                assert(u[m] == ts@[m + i]);
            }
            if start > i {
                assert(u[s0 - 1] == ts@[start - 1]);
                assert(u[s0] == ts@[start as int]);
            }
            lemma_gid_groups_run(u, s0, k0);
            assert(u.subrange(0, k0).subrange(0, s0) =~= u.subrange(0, s0));
            assert(u.subrange(s0, k0) =~= ts@.subrange(start as int, k as int));
            if start > i {
                assert(tuple_le(ts@[start - 1], ts@[start as int]));
            }
        }
        let ghost old_gids = gids@;
        let ghost old_blocks = blocks@;
        gids.push(gid);
        blocks.push(block);
        proof {
            assert(Seq::new(gids@.len(), |x: int| (gids@[x], blocks@[x]@))
                =~= Seq::new(old_gids.len(), |x: int| (old_gids[x], old_blocks[x]@)).push((gid, pairs_of(ts@.subrange(start as int, k as int)))));
            assert(ts@[k - 1].1 == gid);
        }
    }
    assert(u.subrange(0, (j - i) as int) =~= u);
    Posting { gids, blocks }
}

/// Build one permutation index from the triples of a file (PSO, POS, SPO or
/// OSP; the closure index has its own builder, so `PClos` is `Invalid`).
pub fn build_mem_section(r5tu: &R5tuFile, kind: IdxKind) -> (r: Result<MemSection>)
    ensures
        kind == IdxKind::PClos ==> (r matches Err(e) && e is Invalid),
        kind != IdxKind::PClos ==> match spec_file_tuples(r5tu) {
            Outcome::Invalid => r matches Err(e) && e is Invalid,
            Outcome::Corrupt => r matches Err(e) && e is Corrupt,
            Outcome::Value(ts) => r matches Ok(m) && m.wf() && m.kind_view() == kind
                && m.key_seq() == spec_keys(sorted_tuples(remap_all(kind, ts)))
                && m.posting_seq() == spec_postings(sorted_tuples(remap_all(kind, ts))),
        },
{
    if kind == IdxKind::PClos {
        return Err(R5Error::Invalid("use build_mem_pclos for PClos"));
    }
    let raw = collect_tuples(r5tu)?;
    let mut ts: Vec<IdxTuple> = Vec::new();
    let mut i: usize = 0;
    while i < raw.len()
        invariant
            i <= raw@.len(),
            ts@ == remap_all(kind, raw@.subrange(0, i as int)),
        decreases raw@.len() - i,
    {
        let t = raw[i];
        let x = match kind {
            IdxKind::Pso => (t.0, t.1, t.2, t.3),
            IdxKind::Pos => (t.0, t.1, t.3, t.2),
            IdxKind::Spo => (t.2, t.1, t.0, t.3),
            IdxKind::Osp => (t.3, t.1, t.2, t.0),
            IdxKind::PClos => t,
        };
        ts.push(x);
        assert(remap_all(kind, raw@.subrange(0, i + 1)) =~= remap_all(kind, raw@.subrange(0, i as int)).push(x));
        i = i + 1;
    }
    assert(raw@.subrange(0, raw@.len() as int) =~= raw@);
    sort_tuples(&mut ts);
    let n = ts.len();
    let mut keys: Vec<u64> = Vec::new();
    let mut postings: Vec<Posting> = Vec::new();
    let mut i: usize = 0;
    assert(ts@.subrange(0, 0) =~= Seq::<IdxTuple>::empty());
    while i < n
        invariant
            i <= n == ts@.len(),
            tuples_sorted(ts@),
            keys@.len() == postings@.len(),
            keys@ == spec_keys(ts@.subrange(0, i as int)),
            Seq::new(postings@.len(), |x: int| postings@[x].view()) == spec_postings(ts@.subrange(0, i as int)),
            forall|x: int| 0 <= x < postings@.len() ==> #[trigger] postings@[x].wf(),
            forall|a: int, b: int| 0 <= a < b < keys@.len() ==> keys@[a] < keys@[b],
            i > 0 ==> keys@.len() > 0 && keys@.last() == ts@[i - 1].0,
            0 < i < n ==> ts@[i - 1].0 != ts@[i as int].0,
        decreases n - i,
    {
        let key = ts[i].0;
        let mut j = i + 1;
        while j < n && ts[j].0 == key
            invariant
                i < j <= n == ts@.len(),
                key == ts@[i as int].0,
                forall|m: int| i <= m < j ==> #[trigger] ts@[m].0 == key,
            decreases n - j,
        {
            j = j + 1;
        }
        let p = build_posting(&ts, i, j);
        proof {
            lemma_pred_groups_run(ts@, i as int, j as int);
            if i > 0 {
                assert(tuple_le(ts@[i - 1], ts@[i as int]));
            }
        }
        let ghost old_keys = keys@;
        let ghost old_posts = postings@;
        keys.push(key);
        postings.push(p);
        proof {
            let grp = (key, ts@.subrange(i as int, j as int));
            assert(spec_keys(ts@.subrange(0, j as int)) =~= old_keys.push(key));
            assert(Seq::new(postings@.len(), |x: int| postings@[x].view())
                =~= Seq::new(old_posts.len(), |x: int| old_posts[x].view()).push(gid_groups(grp.1)));
            assert(spec_postings(ts@.subrange(0, j as int)) =~= spec_postings(ts@.subrange(0, i as int)).push(gid_groups(grp.1)));
            assert(ts@[j - 1].0 == key);
        }
        i = j;
    }
    assert(ts@.subrange(0, n as int) =~= ts@);
    let m = MemSection { kind, keys, postings };
    assert(m.posting_seq() =~= Seq::new(m.postings@.len(), |x: int| m.postings@[x].view()));
    Ok(m)
}

// ---------------------------------------------------------------- transitive closure

/// The (subject, object) edges of predicate `p` among the tuples, in order.
pub open spec fn pred_edges(ts: Seq<IdxTuple>, p: u64) -> Seq<(u64, u64)>
    decreases ts.len(),
{
    if ts.len() == 0 {
        seq![]
    } else if ts.last().0 == p {
        pred_edges(ts.drop_last(), p).push((ts.last().2, ts.last().3))
    } else {
        pred_edges(ts.drop_last(), p)
    }
}

/// The edges reversed.
pub open spec fn inverse_edges(es: Seq<(u64, u64)>) -> Seq<(u64, u64)> {
    es.map_values(|e: (u64, u64)| (e.1, e.0))
}

/// Step `k` of `path` follows an edge.
pub open spec fn walk_step(es: Seq<(u64, u64)>, path: Seq<u64>, k: int) -> bool {
    es.contains((path[k], path[k + 1]))
}

/// Every step of `path` follows an edge.
pub open spec fn is_walk(es: Seq<(u64, u64)>, path: Seq<u64>) -> bool {
    forall|k: int| 0 <= k < path.len() - 1 ==> #[trigger] walk_step(es, path, k)
}

/// `b` is reachable from `a` by one or more edges.
pub open spec fn reaches(es: Seq<(u64, u64)>, a: u64, b: u64) -> bool {
    exists|path: Seq<u64>| path.len() >= 2 && path[0] == a && path.last() == b && is_walk(es, path)
}

/// `a` has an outgoing edge.
pub open spec fn has_out(es: Seq<(u64, u64)>, a: u64) -> bool {
    exists|b: u64| es.contains((a, b))
}

/// The values strictly increase.
pub open spec fn strictly_sorted(v: Seq<u64>) -> bool {
    forall|i: int, j: int| 0 <= i < j < v.len() ==> v[i] < v[j]
}

/// `v` lists, in ascending order, exactly the nodes reachable from `a`.
pub open spec fn closure_ok(v: Seq<u64>, es: Seq<(u64, u64)>, a: u64) -> bool {
    &&& strictly_sorted(v)
    &&& forall|x: u64| v.contains(x) <==> reaches(es, a, x)
}

/// A direct edge is a walk of one step.
proof fn lemma_edge_reaches(es: Seq<(u64, u64)>, a: u64, b: u64)
    requires
        es.contains((a, b)),
    ensures
        reaches(es, a, b),
{
    let path = seq![a, b];
    assert(path[0] == a && path[1] == b && path.last() == b);
    assert(walk_step(es, path, 0));
    assert(is_walk(es, path));
}

/// A walk read backwards is a walk along the reversed edges.
proof fn lemma_walk_reversed(es: Seq<(u64, u64)>, path: Seq<u64>)
    requires
        is_walk(es, path),
    ensures
        is_walk(inverse_edges(es), path.reverse()),
{
    let inv = inverse_edges(es);
    let rev = path.reverse();
    let n = path.len();
    assert forall|k: int| 0 <= k < rev.len() - 1 implies #[trigger] walk_step(inv, rev, k) by {
        let j = n - 2 - k;
        assert(walk_step(es, path, j));
        assert(rev[k] == path[j + 1] && rev[k + 1] == path[j]);
        let i = choose|i: int| 0 <= i < es.len() && es[i] == (path[j], path[j + 1]);
        assert(inv[i] == (path[j + 1], path[j]));
    }
}

/// Reversing every edge reverses reachability: `x` reaches `o` along `es`
/// exactly when `o` reaches `x` along the reversed edges. So the reverse
/// closure of `o` holds `x` exactly when the forward closure of `x` holds `o`.
pub proof fn lemma_reverse_reaches(es: Seq<(u64, u64)>, x: u64, o: u64)
    ensures
        reaches(inverse_edges(es), o, x) <==> reaches(es, x, o),
{
    assert(inverse_edges(inverse_edges(es)) =~= es);
    if reaches(es, x, o) {
        let path = choose|path: Seq<u64>| path.len() >= 2 && path[0] == x && path.last() == o && is_walk(es, path);
        lemma_walk_reversed(es, path);
        let rev = path.reverse();
        assert(rev[0] == o && rev.last() == x);
    }
    if reaches(inverse_edges(es), o, x) {
        let path = choose|path: Seq<u64>| path.len() >= 2 && path[0] == o && path.last() == x
            && is_walk(inverse_edges(es), path);
        lemma_walk_reversed(inverse_edges(es), path);
        let rev = path.reverse();
        assert(rev[0] == x && rev.last() == o);
    }
}

/// The two closures of one predicate agree: when `v` is the reverse
/// closure of `o` and `w` the forward closure of `x`, `v` holds `x`
/// exactly when `w` holds `o`.
pub proof fn lemma_closures_agree(es: Seq<(u64, u64)>, x: u64, o: u64, v: Seq<u64>, w: Seq<u64>)
    requires
        closure_ok(v, inverse_edges(es), o),
        closure_ok(w, es, x),
    ensures
        v.contains(x) <==> w.contains(o),
{
    lemma_reverse_reaches(es, x, o);
}

/// A walk to `x` extended by an edge from `x` reaches the edge's end.
proof fn lemma_reaches_extend(es: Seq<(u64, u64)>, a: u64, x: u64, y: u64)
    requires
        reaches(es, a, x),
        es.contains((x, y)),
    ensures
        reaches(es, a, y),
{
    let path = choose|path: Seq<u64>| path.len() >= 2 && path[0] == a && path.last() == x && is_walk(es, path);
    let np = path.push(y);
    assert forall|k: int| 0 <= k < np.len() - 1 implies #[trigger] walk_step(es, np, k) by {
        if k < path.len() - 1 {
            assert(walk_step(es, path, k));
        }
    }
    assert(np.last() == y);
}

/// A set holding the successors of `a` and closed under edges holds every
/// node reachable from `a`.
proof fn lemma_closed_holds_reachable(es: Seq<(u64, u64)>, a: u64, v: Seq<u64>, x: u64)
    requires
        forall|b: u64| es.contains((a, b)) ==> v.contains(b),
        forall|y: u64, b: u64| v.contains(y) && es.contains((y, b)) ==> v.contains(b),
        reaches(es, a, x),
    ensures
        v.contains(x),
{
    let path = choose|path: Seq<u64>| path.len() >= 2 && path[0] == a && path.last() == x && is_walk(es, path);
    assert(walk_step(es, path, 0));
    lemma_walk_stays(es, path, v, 1);
}

/// Along a walk whose node `k` lies in an edge-closed set, every later node
/// lies in it too.
proof fn lemma_walk_stays(es: Seq<(u64, u64)>, path: Seq<u64>, v: Seq<u64>, k: int)
    requires
        1 <= k < path.len(),
        v.contains(path[k]),
        is_walk(es, path),
        forall|y: u64, b: u64| v.contains(y) && es.contains((y, b)) ==> v.contains(b),
    ensures
        v.contains(path.last()),
    decreases path.len() - k,
{
    if k < path.len() - 1 {
        assert(walk_step(es, path, k));
        lemma_walk_stays(es, path, v, k + 1);
    }
}

/// Distinct values drawn from `targets` are no more than `targets`.
proof fn lemma_distinct_bound(v: Seq<u64>, targets: Seq<u64>)
    requires
        v.no_duplicates(),
        forall|x: u64| v.contains(x) ==> targets.contains(x),
    ensures
        v.len() <= targets.len(),
{
    v.unique_seq_to_set();
    targets.lemma_cardinality_of_set();
    vstd::seq_lib::seq_to_set_is_finite(targets);
    assert(v.to_set().subset_of(targets.to_set()));
    vstd::set_lib::lemma_len_subset(v.to_set(), targets.to_set());
}

/// The ends of the edges.
pub open spec fn edge_targets(es: Seq<(u64, u64)>) -> Seq<u64> {
    es.map_values(|e: (u64, u64)| e.1)
}

/// Append to `visited` each successor of `x` it does not hold yet.
fn add_succs(es: &Vec<(u64, u64)>, x: u64, visited: &mut Vec<u64>)
    requires
        old(visited)@.no_duplicates(),
    ensures
        final(visited)@.no_duplicates(),
        final(visited)@.subrange(0, old(visited)@.len() as int) == old(visited)@,
        final(visited)@.len() >= old(visited)@.len(),
        forall|j: int| old(visited)@.len() <= j < final(visited)@.len() ==> es@.contains((x, #[trigger] final(visited)@[j])),
        forall|b: u64| es@.contains((x, b)) ==> final(visited)@.contains(b),
{
    let ghost v0 = visited@;
    let mut k: usize = 0;
    while k < es.len()
        invariant
            k <= es@.len(),
            visited@.no_duplicates(),
            visited@.len() >= v0.len(),
            visited@.subrange(0, v0.len() as int) == v0,
            v0 == old(visited)@,
            forall|j: int| v0.len() <= j < visited@.len() ==> es@.contains((x, #[trigger] visited@[j])),
            forall|m: int| 0 <= m < k && es@[m].0 == x ==> visited@.contains(#[trigger] es@[m].1),
        decreases es@.len() - k,
    {
        let (a, b) = es[k];
        if a == x {
            let mut found = false;
            let mut q: usize = 0;
            while q < visited.len()
                invariant
                    q <= visited@.len(),
                    found == exists|m: int| 0 <= m < q && visited@[m] == b,
                decreases visited@.len() - q,
            {
                if visited[q] == b {
                    found = true;
                }
                q = q + 1;
            }
            if !found {
                let ghost before = visited@;
                visited.push(b);
                proof {
                    assert(visited@.subrange(0, v0.len() as int) =~= before.subrange(0, v0.len() as int));
                    assert(es@.contains((x, b))) by {
                        assert(es@[k as int] == (x, b));
                    }
                    assert forall|i: int, j: int| 0 <= i < visited@.len() && 0 <= j < visited@.len() && i != j
                        implies visited@[i] != visited@[j] by {
                        if i < before.len() && j < before.len() {
                        } else if i == before.len() {
                            assert(!before.contains(b));
                        } else {
                            assert(!before.contains(b));
                        }
                    }
                    assert forall|m: int| 0 <= m < k + 1 && es@[m].0 == x implies visited@.contains(#[trigger] es@[m].1) by {
                        if m < k {
                            assert(before.contains(es@[m].1));
                            let w = choose|w: int| 0 <= w < before.len() && before[w] == es@[m].1;
                            assert(visited@[w] == es@[m].1);
                        } else {
                            assert(visited@[before.len() as int] == b);
                        }
                    }
                }
            } else {
                proof {
                    let w = choose|w: int| 0 <= w < visited@.len() && visited@[w] == b;
                    assert(visited@.contains(b));
                }
            }
        }
        k = k + 1;
    }
    proof {
        assert forall|b: u64| es@.contains((x, b)) implies visited@.contains(b) by {
            let m = choose|m: int| 0 <= m < es@.len() && es@[m] == (x, b);
            assert(es@[m].0 == x);
            assert(visited@.contains(es@[m].1));
        }
    }
}

/// Insert `x` into a strictly increasing vector, keeping it so.
fn insert_sorted(v: &mut Vec<u64>, x: u64)
    requires
        strictly_sorted(old(v)@),
    ensures
        strictly_sorted(final(v)@),
        forall|y: u64| final(v)@.contains(y) <==> (old(v)@.contains(y) || y == x),
{
    let mut i: usize = 0;
    while i < v.len() && v[i] < x
        invariant
            i <= v@.len(),
            v@ == old(v)@,
            forall|j: int| 0 <= j < i ==> v@[j] < x,
        decreases v@.len() - i,
    {
        i = i + 1;
    }
    if i < v.len() && v[i] == x {
        assert(v@[i as int] == x);
        return;
    }
    let ghost before = v@;
    v.insert(i, x);
    proof {
        assert(v@ =~= before.subrange(0, i as int).push(x) + before.subrange(i as int, before.len() as int));
        assert forall|a: int, b: int| 0 <= a < b < v@.len() implies v@[a] < v@[b] by {
            if b < i {
            } else if b == i {
            } else if a < i {
                assert(before[b - 1] > before[i as int] || b - 1 == i);
            } else if a == i {
                assert(before[b - 1] >= before[i as int]);
            } else {
            }
        }
        assert forall|y: u64| v@.contains(y) <==> (before.contains(y) || y == x) by {
            if v@.contains(y) {
                let w = choose|w: int| 0 <= w < v@.len() && v@[w] == y;
                if w < i {
                    assert(before[w] == y);
                } else if w > i {
                    assert(before[w - 1] == y);
                }
            }
            if before.contains(y) {
                let w = choose|w: int| 0 <= w < before.len() && before[w] == y;
                if w < i {
                    assert(v@[w] == y);
                } else {
                    assert(v@[w + 1] == y);
                }
            }
            if y == x {
                assert(v@[i as int] == x);
            }
        }
    }
}

/// The nodes reachable from `start` by one or more edges, ascending.
fn closure_from(es: &Vec<(u64, u64)>, start: u64) -> (r: Vec<u64>)
    ensures
        closure_ok(r@, es@, start),
{
    let ghost targets = edge_targets(es@);
    let mut visited: Vec<u64> = Vec::new();
    add_succs(es, start, &mut visited);
    proof {
        assert forall|x: u64| #[trigger] visited@.contains(x) implies reaches(es@, start, x) && targets.contains(x) by {
            let j = choose|j: int| 0 <= j < visited@.len() && visited@[j] == x;
            assert(es@.contains((start, visited@[j])));
            lemma_edge_reaches(es@, start, x);
            let m = choose|m: int| 0 <= m < es@.len() && es@[m] == (start, x);
            assert(targets[m] == x);
        }
    }
    let mut qi: usize = 0;
    while qi < visited.len()
        invariant
            qi <= visited@.len(),
            targets == edge_targets(es@),
            visited@.no_duplicates(),
            forall|x: u64| #[trigger] visited@.contains(x) ==> reaches(es@, start, x) && targets.contains(x),
            forall|b: u64| es@.contains((start, b)) ==> visited@.contains(b),
            forall|j: int, b: u64| 0 <= j < qi && es@.contains((visited@[j], b)) ==> visited@.contains(b),
        decreases es@.len() - qi,
    {
        proof {
            lemma_distinct_bound(visited@, targets);
        }
        let x = visited[qi];
        let ghost before = visited@;
        assert(before[qi as int] == x);
        assert(before.contains(x));
        assert(reaches(es@, start, x));
        add_succs(es, x, &mut visited);
        proof {
            assert forall|j: int| 0 <= j < before.len() implies visited@[j] == before[j] by {
                assert(visited@.subrange(0, before.len() as int)[j] == visited@[j]);
            }
            assert forall|y: u64| #[trigger] visited@.contains(y) implies reaches(es@, start, y) && targets.contains(y) by {
                let j = choose|j: int| 0 <= j < visited@.len() && visited@[j] == y;
                if j < before.len() {
                    assert(before[j] == y);
                    assert(before.contains(y));
                } else {
                    assert(es@.contains((x, visited@[j])));
                    lemma_reaches_extend(es@, start, x, y);
                    let m = choose|m: int| 0 <= m < es@.len() && es@[m] == (x, y);
                    assert(targets[m] == y);
                }
            }
            assert forall|y: u64| before.contains(y) implies visited@.contains(y) by {
                let j = choose|j: int| 0 <= j < before.len() && before[j] == y;
                assert(visited@[j] == y);
            }
            assert forall|b: u64| es@.contains((start, b)) implies visited@.contains(b) by {
                assert(before.contains(b));
            }
            assert forall|j: int, b: u64| 0 <= j < qi + 1 && es@.contains((visited@[j], b)) implies visited@.contains(b) by {
                assert(visited@[j] == before[j]);
                if j < qi {
                    assert(before.contains(b));
                }
            }
        }
        qi = qi + 1;
    }
    let mut out: Vec<u64> = Vec::new();
    let mut k: usize = 0;
    while k < visited.len()
        invariant
            k <= visited@.len(),
            strictly_sorted(out@),
            forall|y: u64| out@.contains(y) <==> exists|j: int| 0 <= j < k && visited@[j] == y,
        decreases visited@.len() - k,
    {
        insert_sorted(&mut out, visited[k]);
        k = k + 1;
    }
    proof {
        assert forall|y: u64, b: u64| visited@.contains(y) && es@.contains((y, b)) implies visited@.contains(b) by {
            let j = choose|j: int| 0 <= j < visited@.len() && visited@[j] == y;
            assert(es@.contains((visited@[j], b)));
        }
        assert forall|x: u64| out@.contains(x) <==> reaches(es@, start, x) by {
            if reaches(es@, start, x) {
                lemma_closed_holds_reachable(es@, start, visited@, x);
                let j = choose|j: int| 0 <= j < visited@.len() && visited@[j] == x;
            }
            if out@.contains(x) {
                let j = choose|j: int| 0 <= j < visited@.len() && visited@[j] == x;
                assert(visited@.contains(x));
            }
        }
    }
    out
}

/// A copy of a vector of ids.
pub(crate) fn copy_ids(v: &Vec<u64>) -> (r: Vec<u64>)
    ensures
        r@ == v@,
{
    let mut out: Vec<u64> = Vec::new();
    let mut k: usize = 0;
    while k < v.len()
        invariant
            k <= v@.len(),
            out@ == v@.subrange(0, k as int),
        decreases v@.len() - k,
    {
        out.push(v[k]);
        assert(v@.subrange(0, k + 1) =~= v@.subrange(0, k as int).push(v@[k as int]));
        k = k + 1;
    }
    assert(v@.subrange(0, v@.len() as int) =~= v@);
    out
}

/// The closure table of an edge list: for each node with an outgoing edge,
/// ascending, the nodes it reaches.
pub open spec fn table_ok(tab: Seq<(u64, Seq<u64>)>, es: Seq<(u64, u64)>) -> bool {
    &&& forall|i: int, j: int| 0 <= i < j < tab.len() ==> tab[i].0 < tab[j].0
    &&& forall|a: u64| has_out(es, a) <==> exists|i: int| 0 <= i < tab.len() && tab[i].0 == a
    &&& forall|i: int| 0 <= i < tab.len() ==> closure_ok(#[trigger] tab[i].1, es, tab[i].0)
}

/// The view of a closure table.
pub open spec fn table_view(tab: Seq<(u64, Vec<u64>)>) -> Seq<(u64, Seq<u64>)> {
    tab.map_values(|e: (u64, Vec<u64>)| (e.0, e.1@))
}

/// Build the closure table of an edge list.
fn closure_table(es: &Vec<(u64, u64)>) -> (r: Vec<(u64, Vec<u64>)>)
    ensures
        table_ok(table_view(r@), es@),
{
    let mut sources: Vec<u64> = Vec::new();
    let mut k: usize = 0;
    while k < es.len()
        invariant
            k <= es@.len(),
            strictly_sorted(sources@),
            forall|y: u64| sources@.contains(y) <==> exists|m: int| 0 <= m < k && es@[m].0 == y,
        decreases es@.len() - k,
    {
        insert_sorted(&mut sources, es[k].0);
        k = k + 1;
    }
    let mut tab: Vec<(u64, Vec<u64>)> = Vec::new();
    let mut i: usize = 0;
    while i < sources.len()
        invariant
            i <= sources@.len(),
            strictly_sorted(sources@),
            tab@.len() == i,
            forall|j: int| 0 <= j < i ==> #[trigger] tab@[j].0 == sources@[j],
            forall|j: int| 0 <= j < i ==> closure_ok(#[trigger] tab@[j].1@, es@, tab@[j].0),
        decreases sources@.len() - i,
    {
        let s0 = sources[i];
        let c = closure_from(es, s0);
        tab.push((s0, c));
        i = i + 1;
    }
    proof {
        let tv = table_view(tab@);
        assert forall|a: u64| has_out(es@, a) <==> exists|i: int| 0 <= i < tv.len() && tv[i].0 == a by {
            if has_out(es@, a) {
                let b = choose|b: u64| es@.contains((a, b));
                let m = choose|m: int| 0 <= m < es@.len() && es@[m] == (a, b);
                assert(es@[m].0 == a);
                assert(sources@.contains(a));
                let j = choose|j: int| 0 <= j < sources@.len() && sources@[j] == a;
                assert(tv[j].0 == a);
            }
            if exists|i: int| 0 <= i < tv.len() && tv[i].0 == a {
                let i = choose|i: int| 0 <= i < tv.len() && tv[i].0 == a;
                assert(sources@[i] == a);
                assert(sources@.contains(a));
                let m = choose|m: int| 0 <= m < es@.len() && es@[m].0 == a;
                assert(es@.contains((a, es@[m].1)));
            }
        }
        assert forall|i: int| 0 <= i < tv.len() implies closure_ok(#[trigger] tv[i].1, es@, tv[i].0) by {
            assert(closure_ok(tab@[i].1@, es@, tab@[i].0));
        }
    }
    tab
}

/// The closure map of an edge list: a node has an entry exactly when it
/// has an outgoing edge, and its entry lists, ascending, the nodes it
/// reaches.
pub open spec fn map_ok(m: Map<u64, Vec<u64>>, es: Seq<(u64, u64)>) -> bool {
    &&& forall|a: u64| #[trigger] m.contains_key(a) <==> has_out(es, a)
    &&& forall|a: u64| #[trigger] m.contains_key(a) ==> closure_ok(m[a]@, es, a)
}

/// A closure table as a map from node to closure.
fn table_to_map(tab: &Vec<(u64, Vec<u64>)>, es: &Vec<(u64, u64)>) -> (m: HashMap<u64, Vec<u64>>)
    requires
        table_ok(table_view(tab@), es@),
    ensures
        map_ok(m@, es@),
{
    broadcast use vstd::std_specs::hash::group_hash_axioms;
    let ghost tv = table_view(tab@);
    let mut m: HashMap<u64, Vec<u64>> = HashMap::new();
    let mut k: usize = 0;
    while k < tab.len()
        invariant
            k <= tab@.len(),
            tv == table_view(tab@),
            table_ok(tv, es@),
            forall|a: u64| #[trigger] m@.contains_key(a) <==> exists|i: int| 0 <= i < k && tab@[i].0 == a,
            forall|i: int| 0 <= i < k ==> #[trigger] m@.contains_key(tab@[i].0) && m@[tab@[i].0]@ == tab@[i].1@,
        decreases tab@.len() - k,
    {
        let a = tab[k].0;
        let v = copy_ids(&tab[k].1);
        let ghost m0 = m@;
        m.insert(a, v);
        proof {
            assert forall|i: int| 0 <= i < k + 1 implies #[trigger] m@.contains_key(tab@[i].0)
                && m@[tab@[i].0]@ == tab@[i].1@ by {
                if i < k {
                    assert(tv[i].0 == tab@[i].0 && tv[k as int].0 == tab@[k as int].0);
                    assert(tab@[i].0 != a);
                }
            }
        }
        k = k + 1;
    }
    proof {
        assert forall|a: u64| #[trigger] m@.contains_key(a) <==> has_out(es@, a) by {
            if m@.contains_key(a) {
                let i = choose|i: int| 0 <= i < k && tab@[i].0 == a;
                assert(tv[i].0 == a);
            }
            if has_out(es@, a) {
                let i = choose|i: int| 0 <= i < tv.len() && tv[i].0 == a;
                assert(tab@[i].0 == a);
            }
        }
        assert forall|a: u64| #[trigger] m@.contains_key(a) implies closure_ok(m@[a]@, es@, a) by {
            let i = choose|i: int| 0 <= i < k && tab@[i].0 == a;
            assert(m@[tab@[i].0]@ == tab@[i].1@);
            assert(tv[i].1 == tab@[i].1@ && tv[i].0 == a);
            assert(closure_ok(tv[i].1, es@, tv[i].0));
        }
    }
    m
}

/// Both directions of the transitive closure of one predicate.
pub(crate) struct PClosPred {
    forward: HashMap<u64, Vec<u64>>,
    reverse: HashMap<u64, Vec<u64>>,
    edges: Ghost<Seq<(u64, u64)>>,
}

/// The precomputed transitive closures of chosen predicates, over the whole
/// file (graph groups are ignored), in both directions.
pub struct MemPClos {
    preds: HashMap<u64, PClosPred>,
}

impl MemPClos {
    /// Whether predicate `p` has a precomputed closure.
    pub closed spec fn has_pred(&self, p: u64) -> bool {
        self.preds@.contains_key(p)
    }

    /// The edges the closure of predicate `p` was computed from.
    pub closed spec fn edges_of(&self, p: u64) -> Seq<(u64, u64)> {
        self.preds@[p].edges@
    }

    /// Each predicate's maps are the closures of its edges.
    pub closed spec fn wf(&self) -> bool {
        forall|p: u64| #[trigger] self.preds@.contains_key(p) ==> {
            &&& map_ok(self.preds@[p].forward@, self.preds@[p].edges@)
            &&& map_ok(self.preds@[p].reverse@, inverse_edges(self.preds@[p].edges@))
        }
    }

    /// Forward closure: the objects reachable from `subject` by one or more
    /// `predicate` edges, ascending; `None` when the predicate has no closure
    /// or the subject no outgoing edge under it.
    pub fn closure_forward(&self, predicate: u64, subject: u64) -> (r: Option<Vec<u64>>)
        requires
            self.wf(),
        ensures
            !self.has_pred(predicate) ==> r is None,
            self.has_pred(predicate) ==> if has_out(self.edges_of(predicate), subject) {
                r matches Some(v) && closure_ok(v@, self.edges_of(predicate), subject)
            } else {
                r is None
            },
    {
        broadcast use vstd::std_specs::hash::group_hash_axioms;
        match self.preds.get(&predicate) {
            None => None,
            Some(pc) => {
                assert(self.preds@.contains_key(predicate));
                match pc.forward.get(&subject) {
                    None => None,
                    Some(v) => {
                        assert(pc.forward@.contains_key(subject));
                        Some(copy_ids(v))
                    },
                }
            },
        }
    }

    /// Reverse closure: the subjects that reach `object` by one or more
    /// `predicate` edges, ascending.
    pub fn closure_reverse(&self, predicate: u64, object: u64) -> (r: Option<Vec<u64>>)
        requires
            self.wf(),
        ensures
            !self.has_pred(predicate) ==> r is None,
            self.has_pred(predicate) ==> if has_out(inverse_edges(self.edges_of(predicate)), object) {
                r matches Some(v) && closure_ok(v@, inverse_edges(self.edges_of(predicate)), object)
            } else {
                r is None
            },
    {
        broadcast use vstd::std_specs::hash::group_hash_axioms;
        match self.preds.get(&predicate) {
            None => None,
            Some(pc) => {
                assert(self.preds@.contains_key(predicate));
                match pc.reverse.get(&object) {
                    None => None,
                    Some(v) => {
                        assert(pc.reverse@.contains_key(object));
                        Some(copy_ids(v))
                    },
                }
            },
        }
    }
}

/// The (subject, object) edges of predicate `p`.
fn edges_for(ts: &Vec<IdxTuple>, p: u64) -> (es: Vec<(u64, u64)>)
    ensures
        es@ == pred_edges(ts@, p),
{
    let mut es: Vec<(u64, u64)> = Vec::new();
    let mut k: usize = 0;
    while k < ts.len()
        invariant
            k <= ts@.len(),
            es@ == pred_edges(ts@.subrange(0, k as int), p),
        decreases ts@.len() - k,
    {
        let t = ts[k];
        assert(ts@.subrange(0, k + 1).drop_last() =~= ts@.subrange(0, k as int));
        if t.0 == p {
            es.push((t.2, t.3));
        }
        k = k + 1;
    }
    assert(ts@.subrange(0, ts@.len() as int) =~= ts@);
    es
}

/// The edges reversed.
fn invert(es: &Vec<(u64, u64)>) -> (r: Vec<(u64, u64)>)
    ensures
        r@ == inverse_edges(es@),
{
    let mut out: Vec<(u64, u64)> = Vec::new();
    let mut k: usize = 0;
    while k < es.len()
        invariant
            k <= es@.len(),
            out@ == inverse_edges(es@.subrange(0, k as int)),
        decreases es@.len() - k,
    {
        let (a, b) = es[k];
        out.push((b, a));
        assert(inverse_edges(es@.subrange(0, k + 1)) =~= inverse_edges(es@.subrange(0, k as int)).push((b, a)));
        k = k + 1;
    }
    assert(es@.subrange(0, es@.len() as int) =~= es@);
    out
}

/// The closures of `predicates` over the tuples `ts`.
fn pclos_from_tuples(ts: &Vec<IdxTuple>, predicates: &Vec<u64>) -> (m: MemPClos)
    ensures
        m.wf(),
        forall|p: u64| m.has_pred(p) <==> predicates@.contains(p),
        forall|p: u64| m.has_pred(p) ==> m.edges_of(p) == pred_edges(ts@, p),
{
    let mut wanted: Vec<u64> = Vec::new();
    let mut k: usize = 0;
    while k < predicates.len()
        invariant
            k <= predicates@.len(),
            strictly_sorted(wanted@),
            forall|y: u64| wanted@.contains(y) <==> exists|m: int| 0 <= m < k && predicates@[m] == y,
        decreases predicates@.len() - k,
    {
        insert_sorted(&mut wanted, predicates[k]);
        k = k + 1;
    }
    broadcast use vstd::std_specs::hash::group_hash_axioms;
    let mut preds: HashMap<u64, PClosPred> = HashMap::new();
    let mut i: usize = 0;
    while i < wanted.len()
        invariant
            i <= wanted@.len(),
            forall|p: u64| #[trigger] preds@.contains_key(p) <==> exists|j: int| 0 <= j < i && wanted@[j] == p,
            forall|p: u64| #[trigger] preds@.contains_key(p) ==> {
                &&& preds@[p].edges@ == pred_edges(ts@, p)
                &&& map_ok(preds@[p].forward@, preds@[p].edges@)
                &&& map_ok(preds@[p].reverse@, inverse_edges(preds@[p].edges@))
            },
        decreases wanted@.len() - i,
    {
        let p = wanted[i];
        let es = edges_for(ts, p);
        let inv = invert(&es);
        let ft = closure_table(&es);
        let rt = closure_table(&inv);
        let forward = table_to_map(&ft, &es);
        let reverse = table_to_map(&rt, &inv);
        preds.insert(p, PClosPred { forward, reverse, edges: Ghost(es@) });
        i = i + 1;
    }
    let m = MemPClos { preds };
    proof {
        assert forall|p: u64| m.has_pred(p) <==> predicates@.contains(p) by {
            if m.has_pred(p) {
                let j = choose|j: int| 0 <= j < wanted@.len() && wanted@[j] == p;
                assert(wanted@.contains(p));
                let q = choose|q: int| 0 <= q < predicates@.len() && predicates@[q] == p;
            }
            if predicates@.contains(p) {
                let q = choose|q: int| 0 <= q < predicates@.len() && predicates@[q] == p;
                assert(wanted@.contains(p));
                let j = choose|j: int| 0 <= j < wanted@.len() && wanted@[j] == p;
                assert(m.preds@.contains_key(p));
            }
        }
        assert forall|p: u64| m.has_pred(p) implies m.edges_of(p) == pred_edges(ts@, p) by {
            assert(m.preds@.contains_key(p));
        }
    }
    m
}

/// The tuples whose graph group is one of `gids`, in order.
pub open spec fn tuples_in_gids(ts: Seq<IdxTuple>, gids: Seq<u64>) -> Seq<IdxTuple>
    decreases ts.len(),
{
    if ts.len() == 0 {
        seq![]
    } else if gids.contains(ts.last().1 as u64) {
        tuples_in_gids(ts.drop_last(), gids).push(ts.last())
    } else {
        tuples_in_gids(ts.drop_last(), gids)
    }
}

/// Precompute the closures of `predicates` over the triples of the graph
/// groups `gids` only.
pub fn build_mem_pclos_for_gids(r5tu: &R5tuFile, predicates: &Vec<u64>, gids: &[u64]) -> (r: Result<MemPClos>)
    ensures
        match spec_file_tuples(r5tu) {
            Outcome::Invalid => r matches Err(e) && e is Invalid,
            Outcome::Corrupt => r matches Err(e) && e is Corrupt,
            Outcome::Value(ts) => r matches Ok(m) && m.wf()
                && (forall|p: u64| m.has_pred(p) <==> predicates@.contains(p))
                && (forall|p: u64| m.has_pred(p) ==> m.edges_of(p) == pred_edges(tuples_in_gids(ts, gids@), p)),
        },
{
    let all = collect_tuples(r5tu)?;
    let mut ts: Vec<IdxTuple> = Vec::new();
    let mut i: usize = 0;
    assert(all@.take(0) =~= Seq::<IdxTuple>::empty());
    while i < all.len()
        invariant
            i <= all@.len(),
            ts@ == tuples_in_gids(all@.take(i as int), gids@),
        decreases all@.len() - i,
    {
        let t = all[i];
        assert(all@.take(i + 1).drop_last() =~= all@.take(i as int));
        let mut found = false;
        let mut j: usize = 0;
        while j < gids.len()
            invariant
                j <= gids@.len(),
                found == (exists|q: int| 0 <= q < j && gids@[q] == t.1 as u64),
            decreases gids@.len() - j,
        {
            if gids[j] == t.1 as u64 {
                found = true;
            }
            j = j + 1;
        }
        if found {
            ts.push(t);
        }
        i = i + 1;
    }
    assert(all@.take(i as int) =~= all@);
    Ok(pclos_from_tuples(&ts, predicates))
}

/// Build the transitive closures of `predicates` over the whole file.
pub fn build_mem_pclos(r5tu: &R5tuFile, predicates: &Vec<u64>) -> (r: Result<MemPClos>)
    ensures
        match spec_file_tuples(r5tu) {
            Outcome::Invalid => r matches Err(e) && e is Invalid,
            Outcome::Corrupt => r matches Err(e) && e is Corrupt,
            Outcome::Value(ts) => r matches Ok(m) && m.wf()
                && (forall|p: u64| m.has_pred(p) <==> predicates@.contains(p))
                && (forall|p: u64| m.has_pred(p) ==> m.edges_of(p) == pred_edges(ts, p)),
        },
{
    let ts = collect_tuples(r5tu)?;
    Ok(pclos_from_tuples(&ts, predicates))
}

// ---------------------------------------------------------------- laws

/// The (group, A, B) triples of the tuples with key `key`, in order.
pub open spec fn key_triples(ts: Seq<IdxTuple>, key: u64) -> Seq<(u64, u64, u64)>
    decreases ts.len(),
{
    if ts.len() == 0 {
        seq![]
    } else if ts.last().0 == key {
        key_triples(ts.drop_last(), key).push((ts.last().1 as u64, ts.last().2, ts.last().3))
    } else {
        key_triples(ts.drop_last(), key)
    }
}

/// Some group has key `k`.
pub open spec fn group_has_key(g: Seq<(u64, Seq<IdxTuple>)>, k: u64) -> bool {
    exists|i: int| 0 <= i < g.len() && g[i].0 == k
}

/// Some tuple has key `k`.
pub open spec fn tuples_have_key(ts: Seq<IdxTuple>, k: u64) -> bool {
    exists|m: int| 0 <= m < ts.len() && ts[m].0 == k
}

/// Grouping by graph group and flattening again gives every tuple back.
proof fn lemma_gid_groups_flatten(u: Seq<IdxTuple>)
    ensures
        tagged_pairs(gid_groups(u)) == u.map_values(|t: IdxTuple| (t.1 as u64, t.2, t.3)),
    decreases u.len(),
{
    if u.len() > 0 {
        let init = u.drop_last();
        let t = u.last();
        lemma_gid_groups_flatten(init);
        let g = gid_groups(init);
        assert(u.map_values(|t: IdxTuple| (t.1 as u64, t.2, t.3))
            =~= init.map_values(|t: IdxTuple| (t.1 as u64, t.2, t.3)).push((t.1 as u64, t.2, t.3)));
        if g.len() > 0 && g.last().0 == t.1 {
            let g2 = g.update(g.len() - 1, (t.1, g.last().1.push((t.2, t.3))));
            assert(g2.drop_last() =~= g.drop_last());
            assert(g2.last().1.map_values(|x: (u64, u64)| (g2.last().0 as u64, x.0, x.1))
                =~= g.last().1.map_values(|x: (u64, u64)| (g.last().0 as u64, x.0, x.1)).push((t.1 as u64, t.2, t.3)));
        } else {
            let g2 = g.push((t.1, seq![(t.2, t.3)]));
            assert(g2.drop_last() =~= g);
            assert(seq![(t.2, t.3)].map_values(|x: (u64, u64)| (t.1 as u64, x.0, x.1)) =~= seq![(t.1 as u64, t.2, t.3)]);
        }
    }
}

/// Over sorted tuples, the key groups have strictly increasing keys, each
/// group holds exactly the tuples of its key, and the last group is the last
/// tuple's.
pub proof fn lemma_pred_groups_sorted(ts: Seq<IdxTuple>)
    requires
        tuples_sorted(ts),
    ensures
        forall|i: int, j: int| 0 <= i < j < pred_groups(ts).len() ==> pred_groups(ts)[i].0 < pred_groups(ts)[j].0,
        forall|i: int| 0 <= i < pred_groups(ts).len() ==>
            (#[trigger] pred_groups(ts)[i]).1.map_values(|t: IdxTuple| (t.1 as u64, t.2, t.3)) == key_triples(ts, pred_groups(ts)[i].0),
        forall|k: u64| #[trigger] group_has_key(pred_groups(ts), k) <==> tuples_have_key(ts, k),
        ts.len() > 0 ==> pred_groups(ts).len() > 0 && pred_groups(ts).last().0 == ts.last().0,
        forall|k: u64| !tuples_have_key(ts, k) ==> #[trigger] key_triples(ts, k) == Seq::<(u64, u64, u64)>::empty(),
    decreases ts.len(),
{
    let g = pred_groups(ts);
    if ts.len() > 0 {
        let init = ts.drop_last();
        let t = ts.last();
        assert(tuples_sorted(init)) by {
            assert forall|i: int, j: int| 0 <= i < j < init.len() implies tuple_le(#[trigger] init[i], #[trigger] init[j]) by {
                assert(init[i] == ts[i] && init[j] == ts[j]);
            }
        }
        lemma_pred_groups_sorted(init);
        let g0 = pred_groups(init);
        let f = |t: IdxTuple| (t.1 as u64, t.2, t.3);
        if init.len() > 0 {
            assert(tuple_le(ts[ts.len() - 2], ts[ts.len() - 1]));
            assert(init.last() == ts[ts.len() - 2]);
        }
        // every earlier key is at most t's key
        assert forall|m: int| 0 <= m < init.len() implies init[m].0 <= t.0 by {
            assert(tuple_le(ts[m], ts[ts.len() - 1]));
            assert(init[m] == ts[m]);
        }
        if g0.len() > 0 && g0.last().0 == t.0 {
            assert forall|i: int| 0 <= i < g.len() implies
                (#[trigger] g[i]).1.map_values(f) == key_triples(ts, g[i].0) by {
                if i < g.len() - 1 {
                    assert(g[i] == g0[i]);
                    assert(g0[i].0 < g0.last().0);
                    assert(key_triples(ts, g[i].0) == key_triples(init, g[i].0));
                } else {
                    assert(g[i].1 == g0.last().1.push(t));
                    assert(g[i].1.map_values(f) =~= g0.last().1.map_values(f).push(f(t)));
                    assert(g0[g0.len() - 1] == g0.last());
                }
            }
            assert forall|k: u64| #[trigger] group_has_key(g, k) <==> tuples_have_key(ts, k) by {
                if exists|i: int| 0 <= i < g.len() && g[i].0 == k {
                    let i = choose|i: int| 0 <= i < g.len() && g[i].0 == k;
                    if i < g.len() - 1 {
                        assert(g[i] == g0[i]);
                        assert(group_has_key(g0, k));
                        let m = choose|m: int| 0 <= m < init.len() && init[m].0 == k;
                        assert(ts[m] == init[m]);
                    } else {
                        assert(ts[ts.len() - 1].0 == k);
                    }
                }
                if exists|m: int| 0 <= m < ts.len() && ts[m].0 == k {
                    let m = choose|m: int| 0 <= m < ts.len() && ts[m].0 == k;
                    if m < ts.len() - 1 {
                        assert(init[m] == ts[m]);
                        assert(tuples_have_key(init, k));
                        assert(group_has_key(g0, k));
                        let i = choose|i: int| 0 <= i < g0.len() && g0[i].0 == k;
                        assert(g[i].0 == k);
                    } else {
                        assert(g[g.len() - 1].0 == k);
                    }
                }
            }
        } else {
            if g0.len() > 0 {
                assert(init.len() > 0);
            }
            assert forall|i: int| 0 <= i < g.len() implies
                (#[trigger] g[i]).1.map_values(f) == key_triples(ts, g[i].0) by {
                if i < g.len() - 1 {
                    assert(g[i] == g0[i]);
                    assert(g0[i].0 <= g0.last().0);
                    assert(g0.last().0 == init.last().0);
                    assert(g0[i].0 < t.0);
                    assert(key_triples(ts, g[i].0) == key_triples(init, g[i].0));
                } else {
                    assert forall|m: int| 0 <= m < init.len() implies init[m].0 != t.0 by {
                        assert(init[m].0 <= init.last().0) by {
                            if m < init.len() - 1 {
                                assert(tuple_le(ts[m], ts[init.len() - 1]));
                                assert(init[m] == ts[m]);
                            }
                        }
                    }
                    assert(!tuples_have_key(init, t.0));
                    assert(key_triples(init, t.0) == Seq::<(u64, u64, u64)>::empty());
                    assert(seq![t].map_values(f) =~= seq![f(t)]);
                    assert(key_triples(ts, t.0) =~= seq![f(t)]);
                }
            }
            assert forall|k: u64| #[trigger] group_has_key(g, k) <==> tuples_have_key(ts, k) by {
                if exists|i: int| 0 <= i < g.len() && g[i].0 == k {
                    let i = choose|i: int| 0 <= i < g.len() && g[i].0 == k;
                    if i < g.len() - 1 {
                        assert(g[i] == g0[i]);
                        assert(group_has_key(g0, k));
                        let m = choose|m: int| 0 <= m < init.len() && init[m].0 == k;
                        assert(ts[m] == init[m]);
                    } else {
                        assert(ts[ts.len() - 1].0 == k);
                    }
                }
                if exists|m: int| 0 <= m < ts.len() && ts[m].0 == k {
                    let m = choose|m: int| 0 <= m < ts.len() && ts[m].0 == k;
                    if m < ts.len() - 1 {
                        assert(init[m] == ts[m]);
                        assert(tuples_have_key(init, k));
                        assert(group_has_key(g0, k));
                        let i = choose|i: int| 0 <= i < g0.len() && g0[i].0 == k;
                        assert(g[i].0 == k);
                    } else {
                        assert(g[g.len() - 1].0 == k);
                    }
                }
            }
            assert forall|i: int, j: int| 0 <= i < j < g.len() implies g[i].0 < g[j].0 by {
                if j < g.len() - 1 {
                    assert(g[i] == g0[i] && g[j] == g0[j]);
                } else {
                    assert(g[i] == g0[i]);
                    assert(g0[i].0 <= g0.last().0);
                    assert(g0.last().0 == init.last().0);
                }
            }
        }
        assert forall|k: u64| !tuples_have_key(ts, k)
            implies #[trigger] key_triples(ts, k) == Seq::<(u64, u64, u64)>::empty() by {
            assert forall|m: int| 0 <= m < init.len() implies init[m].0 != k by {
                assert(init[m] == ts[m]);
                if init[m].0 == k {
                    assert(tuples_have_key(ts, k));
                }
            }
            assert(!tuples_have_key(init, k));
            assert(key_triples(init, k) == Seq::<(u64, u64, u64)>::empty());
            if ts[ts.len() - 1].0 == k {
                assert(tuples_have_key(ts, k));
            }
        }
    }
}

/// A key's posting in a section built from sorted tuples lists exactly the
/// tuples with that key, as (group, A, B), in order; a key without tuples has
/// no posting.
pub proof fn lemma_section_postings(ts: Seq<IdxTuple>, key: u64)
    requires
        tuples_sorted(ts),
    ensures
        spec_keys(ts).contains(key) <==> exists|m: int| 0 <= m < ts.len() && ts[m].0 == key,
        forall|i: int| 0 <= i < spec_keys(ts).len() && #[trigger] spec_keys(ts)[i] == key
            ==> tagged_pairs(spec_postings(ts)[i]) == key_triples(ts, key),
{
    lemma_pred_groups_sorted(ts);
    let g = pred_groups(ts);
    assert forall|i: int| 0 <= i < spec_keys(ts).len() && #[trigger] spec_keys(ts)[i] == key
        implies tagged_pairs(spec_postings(ts)[i]) == key_triples(ts, key) by {
        assert(g[i].0 == key);
        lemma_gid_groups_flatten(g[i].1);
        assert(spec_postings(ts)[i] == gid_groups(g[i].1));
    }
    if spec_keys(ts).contains(key) {
        let i = choose|i: int| 0 <= i < spec_keys(ts).len() && spec_keys(ts)[i] == key;
        assert(g[i].0 == key);
        assert(group_has_key(g, key));
        assert(tuples_have_key(ts, key));
    }
    if exists|m: int| 0 <= m < ts.len() && ts[m].0 == key {
        assert(tuples_have_key(ts, key));
        assert(group_has_key(g, key));
        let i = choose|i: int| 0 <= i < g.len() && g[i].0 == key;
        assert(spec_keys(ts)[i] == key);
    }
}

} // verus!
