//! Sidecar index files: per-predicate postings of an R5TU file, once in
//! predicate-subject-object order (PSO) and once in predicate-object-subject
//! order (POS).
//!
//! A posting holds, for one predicate, the graph groups that use it and, per
//! group, the delta-coded outer values (subjects for PSO, objects for POS),
//! each followed by its delta-coded run of inner values.
use vstd::prelude::*;
use crate::header::{crc32_ieee, spec_crc32};
use crate::layout::Outcome;
use crate::le::{le_u16_at, le_u32_at, le_u64_at, read_u16_at, read_u32_at, read_u64_at};
use crate::reader::{error_text, R5Error, Result};
use crate::text::{bytes_eq, string_from_utf8_lossy, utf8_lossy};
use crate::varint::{read_uvarint, spec_read_uvarint};

verus! {

/// Kinds of sections within a sidecar file.
#[derive(Debug, Clone, Copy, PartialEq, Eq, Hash, Structural)]
pub enum IdxKind {
    Pso,
    Pos,
}

/// The on-disk code of a section kind.
pub open spec fn idx_kind_code(k: IdxKind) -> u16 {
    match k {
        IdxKind::Pso => 1,
        IdxKind::Pos => 2,
    }
}

/// The section kind with on-disk code `v`, if any.
pub open spec fn spec_idx_kind(v: u16) -> Option<IdxKind> {
    if v == 1 {
        Some(IdxKind::Pso)
    } else if v == 2 {
        Some(IdxKind::Pos)
    } else {
        None
    }
}

impl IdxKind {
    /// The kind with on-disk code `v`.
    pub fn from_u16(v: u16) -> (r: Option<Self>)
        ensures
            r == spec_idx_kind(v),
    {
        if v == 1 {
            Some(IdxKind::Pso)
        } else if v == 2 {
            Some(IdxKind::Pos)
        } else {
            None
        }
    }

    /// The on-disk code of this kind.
    pub fn as_u16(&self) -> (r: u16)
        ensures
            r == idx_kind_code(*self),
    {
        match self {
            IdxKind::Pso => 1,
            IdxKind::Pos => 2,
        }
    }
}

/// Reading the code of a kind gives the kind back.
pub proof fn lemma_idx_kind_roundtrip(k: IdxKind)
    ensures
        spec_idx_kind(idx_kind_code(k)) == Some(k),
{
}

// ---------------------------------------------------------------- postings

/// Where the arrays of a posting lie within its bytes.
pub struct PostingShape {
    pub n_gids: int,
    pub gid_vals_off: int,
    pub s_heads_off: int,
    pub s_byte_heads_off: int,
    pub n_s: int,
    pub s_vals_off: int,
    pub o_heads_off: int,
    pub o_byte_heads_off: int,
    pub n_t: int,
    pub o_vals_off: int,
}

/// The layout of a posting: `u32 n_gids`, `gid_vals[n_gids]`,
/// `s_heads[n_gids + 1]`, `s_byte_heads[n_gids + 1]`, `u32 n_s`, the outer value
/// stream (whose byte length is `s_byte_heads[n_gids]`), `o_heads[n_s + 1]`,
/// `o_byte_heads[n_s + 1]`, `u32 n_t` and the inner value stream; `None` when
/// the fixed parts do not fit.
pub open spec fn spec_parse_posting(p: Seq<u8>) -> Option<PostingShape> {
    if p.len() < 4 {
        None
    } else {
        let n = le_u32_at(p, 0) as int;
        let s_heads_off = 4 + 4 * n;
        let sbh_off = s_heads_off + 4 * (n + 1);
        let off = sbh_off + 4 * (n + 1);
        if off + 4 > p.len() {
            None
        } else {
            let n_s = le_u32_at(p, off) as int;
            let s_vals_off = off + 4;
            let o_heads_off = s_vals_off + le_u32_at(p, sbh_off + 4 * n) as int;
            let obh_off = o_heads_off + 4 * (n_s + 1);
            let off2 = obh_off + 4 * (n_s + 1);
            if off2 + 4 > p.len() {
                None
            } else {
                Some(
                    PostingShape {
                        n_gids: n,
                        gid_vals_off: 4,
                        s_heads_off,
                        s_byte_heads_off: sbh_off,
                        n_s,
                        s_vals_off,
                        o_heads_off,
                        o_byte_heads_off: obh_off,
                        n_t: le_u32_at(p, off2) as int,
                        o_vals_off: off2 + 4,
                    },
                )
            }
        }
    }
}

/// Entry `i` of the `u32` array at `base`, when it lies within `p`.
pub open spec fn u32_entry(p: Seq<u8>, base: int, i: int) -> Option<u32> {
    if 0 <= base && 0 <= i && base + 4 * i + 4 <= p.len() {
        Some(le_u32_at(p, base + 4 * i))
    } else {
        None
    }
}

/// The next value of a delta-coded run: the first value is stored as it is,
/// each later one as its difference to the one before; `None` on overflow.
pub open spec fn step_val(prev: Option<u64>, d: u64) -> Option<u64> {
    match prev {
        None => Some(d),
        Some(v) => if v + d <= u64::MAX {
            Some((v + d) as u64)
        } else {
            None
        },
    }
}

/// The values of a delta-coded run of (at most) `n` varints at `off`, and
/// whether all `n` decoded.
pub open spec fn run_vals(p: Seq<u8>, off: int, n: nat, prev: Option<u64>) -> (Seq<u64>, bool)
    decreases n,
{
    if n == 0 {
        (seq![], true)
    } else {
        match spec_read_uvarint(p, off) {
            None => (seq![], false),
            Some((d, next)) => match step_val(prev, d) {
                None => (seq![], false),
                Some(v) => {
                    let rest = run_vals(p, next, (n - 1) as nat, Some(v));
                    (seq![v] + rest.0, rest.1)
                },
            },
        }
    }
}

/// Each inner value paired with the outer value `s`.
pub open spec fn pairs_with(s: u64, os: Seq<u64>) -> Seq<(u64, u64)> {
    os.map_values(|o: u64| (s, o))
}

/// Where the inner arrays of a posting start.
pub struct InnerShape {
    pub o_heads_off: int,
    pub o_byte_heads_off: int,
    pub o_vals_off: int,
}

/// The pairs of outer rows `r..s_end`: the outer values are read from `s_off`
/// on, and row `r`'s inner run spans entries `o_heads[r]..o_heads[r + 1]`,
/// starting at byte `o_byte_heads[r]` of the inner stream. A value that does
/// not decode or an array entry out of bounds ends the pairs there.
pub open spec fn rows_from(
    p: Seq<u8>,
    ish: InnerShape,
    r: int,
    s_end: int,
    s_off: int,
    prev: Option<u64>,
) -> Seq<(u64, u64)>
    decreases s_end - r,
{
    if r >= s_end {
        seq![]
    } else {
        match spec_read_uvarint(p, s_off) {
            None => seq![],
            Some((d, next)) => match step_val(prev, d) {
                None => seq![],
                Some(s) => match (u32_entry(p, ish.o_heads_off, r), u32_entry(p, ish.o_heads_off, r + 1)) {
                    (Some(o0), Some(o1)) => if o1 > o0 {
                        match u32_entry(p, ish.o_byte_heads_off, r) {
                            None => seq![],
                            Some(ob) => {
                                let run = run_vals(p, ish.o_vals_off + ob, (o1 - o0) as nat, None);
                                pairs_with(s, run.0) + if run.1 {
                                    rows_from(p, ish, r + 1, s_end, next, Some(s))
                                } else {
                                    seq![]
                                }
                            },
                        }
                    } else {
                        rows_from(p, ish, r + 1, s_end, next, Some(s))
                    },
                    _ => seq![],
                },
            },
        }
    }
}

/// The inner part of a posting shape.
pub open spec fn inner_of(sh: PostingShape) -> InnerShape {
    InnerShape {
        o_heads_off: sh.o_heads_off,
        o_byte_heads_off: sh.o_byte_heads_off,
        o_vals_off: sh.o_vals_off,
    }
}

/// The (outer, inner) pairs of block `b`: its rows are
/// `s_heads[b]..s_heads[b + 1]` and its outer values start at byte
/// `s_byte_heads[b]` of the outer stream; nothing when those entries are out of
/// bounds.
pub open spec fn spec_block_pairs(p: Seq<u8>, sh: PostingShape, b: int) -> Seq<(u64, u64)> {
    match (
        u32_entry(p, sh.s_heads_off, b),
        u32_entry(p, sh.s_heads_off, b + 1),
        u32_entry(p, sh.s_byte_heads_off, b),
    ) {
        (Some(s0), Some(s1), Some(sb)) => rows_from(
            p,
            inner_of(sh),
            s0 as int,
            s1 as int,
            sh.s_vals_off + sb,
            None,
        ),
        _ => seq![],
    }
}

/// The graph-group ids of the posting, in stored order.
pub open spec fn spec_gids(p: Seq<u8>, sh: PostingShape) -> Seq<u64> {
    Seq::new(sh.n_gids as nat, |i: int| le_u32_at(p, sh.gid_vals_off + 4 * i) as u64)
}

/// Each pair of a block tagged with the block's graph-group id.
pub open spec fn with_gid(g: u64, ps: Seq<(u64, u64)>) -> Seq<(u64, u64, u64)> {
    ps.map_values(|x: (u64, u64)| (g, x.0, x.1))
}

/// The tagged pairs of blocks `0..k`, block after block.
pub open spec fn spec_all_blocks(p: Seq<u8>, sh: PostingShape, k: int) -> Seq<(u64, u64, u64)>
    decreases k,
{
    if k <= 0 {
        seq![]
    } else {
        spec_all_blocks(p, sh, k - 1) + with_gid(spec_gids(p, sh)[k - 1], spec_block_pairs(p, sh, k - 1))
    }
}

/// Binary search of the graph-group ids `lo..hi` for `g`.
pub open spec fn gid_search(p: Seq<u8>, base: int, g: u32, lo: int, hi: int) -> Option<int>
    decreases hi - lo,
{
    if lo >= hi {
        None
    } else {
        let mid = (lo + hi) / 2;
        let v = le_u32_at(p, base + 4 * mid);
        if v == g {
            Some(mid)
        } else if v < g {
            gid_search(p, base, g, mid + 1, hi)
        } else {
            gid_search(p, base, g, lo, mid)
        }
    }
}

/// The graph-group ids `lo..hi` strictly increase.
pub open spec fn gids_sorted(p: Seq<u8>, base: int, lo: int, hi: int) -> bool {
    forall|i: int, j: int| lo <= i < j < hi ==>
        le_u32_at(p, #[trigger] (base + 4 * i)) < le_u32_at(p, #[trigger] (base + 4 * j))
}

/// A found block holds the searched id.
pub proof fn lemma_gid_search_sound(p: Seq<u8>, base: int, g: u32, lo: int, hi: int)
    ensures
        gid_search(p, base, g, lo, hi) matches Some(i) ==> lo <= i < hi && le_u32_at(p, base + 4 * i) == g,
    decreases hi - lo,
{
    if lo < hi {
        let mid = (lo + hi) / 2;
        let v = le_u32_at(p, base + 4 * mid);
        if v != g {
            if v < g {
                lemma_gid_search_sound(p, base, g, mid + 1, hi);
            } else {
                lemma_gid_search_sound(p, base, g, lo, mid);
            }
        }
    }
}

/// Over strictly increasing ids, the search finds every stored id at its
/// own position.
pub proof fn lemma_gid_search_complete(p: Seq<u8>, base: int, lo: int, hi: int, k: int)
    requires
        gids_sorted(p, base, lo, hi),
        lo <= k < hi,
    ensures
        gid_search(p, base, le_u32_at(p, base + 4 * k), lo, hi) == Some(k),
    decreases hi - lo,
{
    let g = le_u32_at(p, base + 4 * k);
    let mid = (lo + hi) / 2;
    let v = le_u32_at(p, base + 4 * mid);
    if mid < k {
        assert(v < g);
        lemma_gid_search_complete(p, base, mid + 1, hi, k);
    } else if mid > k {
        assert(g < v);
        lemma_gid_search_complete(p, base, lo, mid, k);
    }
}

/// Read-only view of one predicate's posting. For PSO the outer values are
/// subjects and the inner ones objects; for POS the other way round.
#[derive(Debug, Clone)]
pub struct IdxPosting<'a> {
    bytes: &'a [u8],
    n_gids: u32,
    gid_vals_off: usize,
    s_heads_off: usize,
    s_byte_heads_off: usize,
    n_s: u32,
    s_vals_off: usize,
    o_heads_off: usize,
    o_byte_heads_off: usize,
    n_t: u32,
    o_vals_off: usize,
}

/// Read entry `i` of the `u32` array at `base`, when it lies within `buf`.
fn read_u32_entry(buf: &[u8], base: usize, i: u64) -> (r: Option<u32>)
    ensures
        r == u32_entry(buf@, base as int, i as int),
{
    let len = buf.len();
    if base as u128 + 4 * (i as u128) + 4 <= len as u128 {
        Some(read_u32_at(buf, base + 4 * (i as usize)))
    } else {
        None
    }
}

/// Parse the arrays of a posting.
pub fn parse_posting(payload: &[u8]) -> (r: Option<IdxPosting<'_>>)
    ensures
        match spec_parse_posting(payload@) {
            None => r is None,
            Some(sh) => r matches Some(post) && post.payload() == payload@ && post.shape() == sh && post.wf(),
        },
{
    let len = payload.len();
    if len < 4 {
        return None;
    }
    let n = read_u32_at(payload, 0);
    let n128 = n as u128;
    let s_heads_off = 4 + 4 * n128;
    let sbh_off = s_heads_off + 4 * (n128 + 1);
    let off = sbh_off + 4 * (n128 + 1);
    if off + 4 > len as u128 {
        return None;
    }
    let n_s = read_u32_at(payload, off as usize);
    let s_vals_off = off + 4;
    let sbl = read_u32_at(payload, (sbh_off + 4 * n128) as usize);
    let o_heads_off = s_vals_off + sbl as u128;
    let obh_off = o_heads_off + 4 * (n_s as u128 + 1);
    let off2 = obh_off + 4 * (n_s as u128 + 1);
    if off2 + 4 > len as u128 {
        return None;
    }
    let n_t = read_u32_at(payload, off2 as usize);
    Some(IdxPosting {
        bytes: payload,
        n_gids: n,
        gid_vals_off: 4,
        s_heads_off: s_heads_off as usize,
        s_byte_heads_off: sbh_off as usize,
        n_s,
        s_vals_off: s_vals_off as usize,
        o_heads_off: o_heads_off as usize,
        o_byte_heads_off: obh_off as usize,
        n_t,
        o_vals_off: (off2 + 4) as usize,
    })
}

impl<'a> IdxPosting<'a> {
    /// The posting's bytes.
    pub closed spec fn payload(&self) -> Seq<u8> {
        self.bytes@
    }

    /// Where the posting's arrays lie.
    pub closed spec fn shape(&self) -> PostingShape {
        PostingShape {
            n_gids: self.n_gids as int,
            gid_vals_off: self.gid_vals_off as int,
            s_heads_off: self.s_heads_off as int,
            s_byte_heads_off: self.s_byte_heads_off as int,
            n_s: self.n_s as int,
            s_vals_off: self.s_vals_off as int,
            o_heads_off: self.o_heads_off as int,
            o_byte_heads_off: self.o_byte_heads_off as int,
            n_t: self.n_t as int,
            o_vals_off: self.o_vals_off as int,
        }
    }

    /// The shape is the one the bytes give.
    pub closed spec fn wf(&self) -> bool {
        spec_parse_posting(self.bytes@) == Some(self.shape())
    }

    /// A parsed posting is well formed.
    pub proof fn lemma_parsed_wf(&self)
        requires
            spec_parse_posting(self.payload()) == Some(self.shape()),
        ensures
            self.wf(),
    {
    }

    /// Number of graph groups in the posting.
    pub fn n_gids(&self) -> (r: u32)
        ensures
            r == self.shape().n_gids,
    {
        self.n_gids
    }

    /// Number of (outer, inner) pairs recorded in the posting.
    pub fn n_triples(&self) -> (r: u32)
        ensures
            r == self.shape().n_t,
    {
        self.n_t
    }

    /// The graph-group ids, in stored order.
    pub fn gids(&self) -> (r: Vec<u64>)
        requires
            self.wf(),
        ensures
            r@ == spec_gids(self.payload(), self.shape()),
    {
        let mut out: Vec<u64> = Vec::new();
        let mut i: u32 = 0;
        while i < self.n_gids
            invariant
                self.wf(),
                i <= self.n_gids,
                self.gid_vals_off == 4,
                4 + 4 * self.n_gids <= self.bytes@.len(),
                out@ =~= spec_gids(self.payload(), self.shape()).subrange(0, i as int),
            decreases self.n_gids - i,
        {
            let v = read_u32_at(self.bytes, 4 + 4 * (i as usize));
            out.push(v as u64);
            i = i + 1;
        }
        out
    }

    /// Iterate the (outer, inner) pairs of block `block_idx`.
    pub fn iter_block(&self, block_idx: usize) -> (it: IdxBlockIter<'a>)
        requires
            self.wf(),
        ensures
            it.wf(),
            it.rest() == spec_block_pairs(self.payload(), self.shape(), block_idx as int),
    {
        let b = block_idx as u64;
        let len = self.bytes.len();
        let s0 = match read_u32_entry(self.bytes, self.s_heads_off, b) {
            None => return IdxBlockIter::empty(self.bytes),
            Some(x) => x,
        };
        if b == u64::MAX {
            return IdxBlockIter::empty(self.bytes);
        }
        let s1 = match read_u32_entry(self.bytes, self.s_heads_off, b + 1) {
            None => return IdxBlockIter::empty(self.bytes),
            Some(x) => x,
        };
        let sb = match read_u32_entry(self.bytes, self.s_byte_heads_off, b) {
            None => return IdxBlockIter::empty(self.bytes),
            Some(x) => x,
        };
        let start = if self.s_vals_off as u128 + sb as u128 <= len as u128 {
            self.s_vals_off + sb as usize
        } else {
            len
        };
        let it = IdxBlockIter {
            bytes: self.bytes,
            o_heads_off: self.o_heads_off,
            o_byte_heads_off: self.o_byte_heads_off,
            o_vals_off: self.o_vals_off,
            s_idx: s0 as u64,
            s_end: s1 as u64,
            s_byte_off: start,
            prev_s: None,
            current_s: 0,
            o_left: 0,
            o_byte_off: 0,
            prev_o: None,
            done: false,
        };
        proof {
            let p = self.bytes@;
            let ish = inner_of(self.shape());
            assert(it.inner() == ish);
            assert(run_vals(p, 0, 0, None) == (Seq::<u64>::empty(), true));
            assert(pairs_with(0, Seq::<u64>::empty()) =~= Seq::<(u64, u64)>::empty());
            let full = self.s_vals_off + sb;
            if full > len && s0 < s1 {
                assert(spec_read_uvarint(p, full) is None);
                assert(spec_read_uvarint(p, len as int) is None);
            }
            assert(it.rest() =~= rows_from(p, ish, s0 as int, s1 as int, start as int, None));
            assert(rows_from(p, ish, s0 as int, s1 as int, start as int, None)
                == rows_from(p, ish, s0 as int, s1 as int, full, None));
        }
        it
    }

    /// The (graph group, outer, inner) triples of every block, block after block.
    pub fn iter_all(&self) -> (r: Vec<(u64, u64, u64)>)
        requires
            self.wf(),
        ensures
            r@ == spec_all_blocks(self.payload(), self.shape(), self.shape().n_gids),
    {
        let mut out: Vec<(u64, u64, u64)> = Vec::new();
        let mut bi: u32 = 0;
        while bi < self.n_gids
            invariant
                self.wf(),
                bi <= self.n_gids,
                self.gid_vals_off == 4,
                4 + 4 * self.n_gids <= self.bytes@.len(),
                out@ == spec_all_blocks(self.payload(), self.shape(), bi as int),
            decreases self.n_gids - bi,
        {
            let gid = read_u32_at(self.bytes, 4 + 4 * (bi as usize)) as u64;
            let mut it = self.iter_block(bi as usize);
            let pairs = it.collect_all();
            let ghost before = out@;
            let mut k: usize = 0;
            while k < pairs.len()
                invariant
                    k <= pairs@.len(),
                    out@ == before + with_gid(gid, pairs@.subrange(0, k as int)),
                decreases pairs@.len() - k,
            {
                let (a, b) = pairs[k];
                out.push((gid, a, b));
                assert(pairs@.subrange(0, k + 1) =~= pairs@.subrange(0, k as int).push((a, b)));
                assert(with_gid(gid, pairs@.subrange(0, k + 1)) =~= with_gid(gid, pairs@.subrange(0, k as int)).push((gid, a, b)));
                k = k + 1;
            }
            proof {
                assert(pairs@.subrange(0, pairs@.len() as int) =~= pairs@);
                assert(spec_gids(self.payload(), self.shape())[bi as int] == gid);
            }
            bi = bi + 1;
        }
        out
    }

    /// Binary search of the graph-group ids for `gid`: the block index.
    pub fn block_for_gid(&self, gid: u64) -> (r: Option<usize>)
        requires
            self.wf(),
        ensures
            gid > u32::MAX ==> r is None,
            gid <= u32::MAX ==> match gid_search(self.payload(), 4, gid as u32, 0, self.shape().n_gids) {
                None => r is None,
                Some(i) => r == Some(i as usize),
            },
    {
        if gid > u32::MAX as u64 {
            return None;
        }
        let g = gid as u32;
        let mut lo: u64 = 0;
        let mut hi: u64 = self.n_gids as u64;
        while lo < hi
            invariant
                self.wf(),
                lo <= hi <= self.n_gids,
                gid <= u32::MAX,
                g == gid,
                self.gid_vals_off == 4,
                4 + 4 * self.n_gids <= self.bytes@.len(),
                gid_search(self.bytes@, 4, g, 0, self.n_gids as int)
                    == gid_search(self.bytes@, 4, g, lo as int, hi as int),
            decreases hi - lo,
        {
            let mid = (lo + hi) / 2;
            let v = read_u32_at(self.bytes, 4 + 4 * (mid as usize));
            assert(v == le_u32_at(self.bytes@, 4 + 4 * mid));
            if v == g {
                assert(gid_search(self.bytes@, 4, g, lo as int, hi as int) == Some(mid as int));
                return Some(mid as usize);
            } else if v < g {
                lo = mid + 1;
            } else {
                hi = mid;
            }
        }
        None
    }
}

/// Iterator over the (outer, inner) pairs of one block of a posting.
pub struct IdxBlockIter<'a> {
    bytes: &'a [u8],
    o_heads_off: usize,
    o_byte_heads_off: usize,
    o_vals_off: usize,
    s_idx: u64,
    s_end: u64,
    s_byte_off: usize,
    prev_s: Option<u64>,
    current_s: u64,
    o_left: u64,
    o_byte_off: usize,
    prev_o: Option<u64>,
    done: bool,
}

impl<'a> IdxBlockIter<'a> {
    /// Where the inner arrays lie.
    pub closed spec fn inner(&self) -> InnerShape {
        InnerShape {
            o_heads_off: self.o_heads_off as int,
            o_byte_heads_off: self.o_byte_heads_off as int,
            o_vals_off: self.o_vals_off as int,
        }
    }

    /// The pairs not yet returned.
    pub closed spec fn rest(&self) -> Seq<(u64, u64)> {
        if self.done {
            seq![]
        } else {
            let run = run_vals(self.bytes@, self.o_byte_off as int, self.o_left as nat, self.prev_o);
            pairs_with(self.current_s, run.0) + if run.1 {
                rows_from(
                    self.bytes@,
                    self.inner(),
                    self.s_idx as int,
                    self.s_end as int,
                    self.s_byte_off as int,
                    self.prev_s,
                )
            } else {
                seq![]
            }
        }
    }

    /// Internal consistency of the cursor.
    pub closed spec fn wf(&self) -> bool {
        &&& self.o_vals_off <= self.bytes@.len()
        &&& self.s_end <= u32::MAX + 1
    }

    /// An iterator with nothing left.
    fn empty(bytes: &'a [u8]) -> (it: Self)
        ensures
            it.wf(),
            it.rest() == Seq::<(u64, u64)>::empty(),
    {
        IdxBlockIter {
            bytes,
            o_heads_off: 0,
            o_byte_heads_off: 0,
            o_vals_off: 0,
            s_idx: 0,
            s_end: 0,
            s_byte_off: 0,
            prev_s: None,
            current_s: 0,
            o_left: 0,
            o_byte_off: 0,
            prev_o: None,
            done: true,
        }
    }

    /// The next pair, if any.
    pub fn next(&mut self) -> (r: Option<(u64, u64)>)
        requires
            old(self).wf(),
        ensures
            final(self).wf(),
            match r {
                None => old(self).rest() == Seq::<(u64, u64)>::empty() && final(self).rest() == Seq::<(u64, u64)>::empty(),
                Some(x) => old(self).rest() == seq![x] + final(self).rest(),
            },
    {
        let ghost r0 = self.rest();
        loop
            invariant
                self.wf(),
                self.rest() == r0,
                r0 == old(self).rest(),
            decreases self.s_end - self.s_idx,
        {
            if self.done {
                return None;
            }
            let len = self.bytes.len();
            if self.o_left > 0 {
                let ghost run = run_vals(self.bytes@, self.o_byte_off as int, self.o_left as nat, self.prev_o);
                match read_uvarint(self.bytes, self.o_byte_off) {
                    None => {
                        assert(run.0.len() == 0 && !run.1);
                        assert(self.rest() =~= Seq::<(u64, u64)>::empty());
                        self.done = true;
                        return None;
                    },
                    Some((d, n)) => {
                        let v = match self.prev_o {
                            None => d,
                            Some(p) => {
                                if d > u64::MAX - p {
                                    assert(run.0.len() == 0 && !run.1);
                                    assert(self.rest() =~= Seq::<(u64, u64)>::empty());
                                    self.done = true;
                                    return None;
                                }
                                p + d
                            },
                        };
                        let ghost before = self.rest();
                        self.o_byte_off = n;
                        self.prev_o = Some(v);
                        self.o_left = self.o_left - 1;
                        let x = (self.current_s, v);
                        proof {
                            let tail = run_vals(self.bytes@, n as int, self.o_left as nat, Some(v));
                            assert(run.0 =~= seq![v] + tail.0);
                            assert(run.1 == tail.1);
                            assert(pairs_with(self.current_s, run.0) =~= seq![x] + pairs_with(self.current_s, tail.0));
                            assert(before =~= seq![x] + self.rest());
                        }
                        return Some(x);
                    },
                }
            }
            assert(run_vals(self.bytes@, self.o_byte_off as int, 0, self.prev_o) == (Seq::<u64>::empty(), true));
            assert(pairs_with(self.current_s, Seq::<u64>::empty()) =~= Seq::<(u64, u64)>::empty());
            let ghost rows = rows_from(
                self.bytes@,
                self.inner(),
                self.s_idx as int,
                self.s_end as int,
                self.s_byte_off as int,
                self.prev_s,
            );
            assert(self.rest() =~= rows);
            if self.s_idx >= self.s_end {
                self.done = true;
                return None;
            }
            let (d, next) = match read_uvarint(self.bytes, self.s_byte_off) {
                None => {
                    self.done = true;
                    return None;
                },
                Some(x) => x,
            };
            let s = match self.prev_s {
                None => d,
                Some(p) => {
                    if d > u64::MAX - p {
                        self.done = true;
                        return None;
                    }
                    p + d
                },
            };
            let o0 = match read_u32_entry(self.bytes, self.o_heads_off, self.s_idx) {
                None => {
                    self.done = true;
                    return None;
                },
                Some(x) => x,
            };
            let o1 = match read_u32_entry(self.bytes, self.o_heads_off, self.s_idx + 1) {
                None => {
                    self.done = true;
                    return None;
                },
                Some(x) => x,
            };
            if o1 > o0 {
                let ob = match read_u32_entry(self.bytes, self.o_byte_heads_off, self.s_idx) {
                    None => {
                        self.done = true;
                        return None;
                    },
                    Some(x) => x,
                };
                let start = if self.o_vals_off as u128 + ob as u128 <= len as u128 {
                    self.o_vals_off + ob as usize
                } else {
                    len
                };
                proof {
                    let n = (o1 - o0) as nat;
                    let full = (self.o_vals_off + ob) as int;
                    if full > len {
                        assert(spec_read_uvarint(self.bytes@, full) is None);
                        assert(spec_read_uvarint(self.bytes@, len as int) is None);
                        assert(run_vals(self.bytes@, full, n, None) == run_vals(self.bytes@, len as int, n, None));
                    }
                }
                self.o_byte_off = start;
                self.o_left = (o1 - o0) as u64;
                self.prev_o = None;
            } else {
                self.o_left = 0;
            }
            self.current_s = s;
            self.prev_s = Some(s);
            self.s_byte_off = next;
            self.s_idx = self.s_idx + 1;
        }
    }

    /// All remaining pairs, in order.
    pub fn collect_all(&mut self) -> (r: Vec<(u64, u64)>)
        requires
            old(self).wf(),
        ensures
            r@ == old(self).rest(),
            final(self).wf(),
    {
        let mut out: Vec<(u64, u64)> = Vec::new();
        let ghost r0 = self.rest();
        loop
            invariant
                self.wf(),
                r0 == out@ + self.rest(),
                r0 == old(self).rest(),
            decreases self.rest().len(),
        {
            match self.next() {
                None => {
                    assert(out@ =~= r0);
                    return out;
                },
                Some(x) => {
                    out.push(x);
                },
            }
        }
    }
}

// ---------------------------------------------------------------- sections

/// One parsed permutation section.
#[derive(Debug, Clone, Copy)]
pub struct IdxSection {
    pub kind: IdxKind,
    pub off: u64,
    pub len: u64,
    n_predicates: u64,
    pred_keys_off: u64,
    key2post_offs_off: u64,
    blob_off: u64,
}

/// Binary search of the predicate keys `lo..hi` (`u64` each, at `keys_off`)
/// for `key`; a probe outside the bytes ends the search without a result.
pub open spec fn pred_search(b: Seq<u8>, keys_off: int, key: u64, lo: int, hi: int) -> Option<int>
    decreases hi - lo,
{
    if lo >= hi {
        None
    } else {
        let mid = (lo + hi) / 2;
        if keys_off + 8 * mid + 8 > b.len() {
            None
        } else {
            let v = le_u64_at(b, keys_off + 8 * mid);
            if v == key {
                Some(mid)
            } else if v < key {
                pred_search(b, keys_off, key, mid + 1, hi)
            } else {
                pred_search(b, keys_off, key, lo, mid)
            }
        }
    }
}

/// The predicate keys `lo..hi` lie within the bytes and strictly increase.
pub open spec fn preds_sorted(b: Seq<u8>, keys_off: int, lo: int, hi: int) -> bool {
    &&& keys_off >= 0
    &&& keys_off + 8 * hi <= b.len()
    &&& forall|i: int, j: int| lo <= i < j < hi ==>
        le_u64_at(b, #[trigger] (keys_off + 8 * i)) < le_u64_at(b, #[trigger] (keys_off + 8 * j))
}

/// Over strictly increasing keys the search finds every stored key at its
/// own position, and a found position holds the key.
pub proof fn lemma_pred_search(b: Seq<u8>, keys_off: int, key: u64, lo: int, hi: int, k: int)
    requires
        preds_sorted(b, keys_off, lo, hi),
    ensures
        lo <= k < hi && le_u64_at(b, keys_off + 8 * k) == key ==> pred_search(b, keys_off, key, lo, hi) == Some(k),
        pred_search(b, keys_off, key, lo, hi) matches Some(i) ==> lo <= i < hi && le_u64_at(b, keys_off + 8 * i) == key,
    decreases hi - lo,
{
    if lo < hi {
        let mid = (lo + hi) / 2;
        let v = le_u64_at(b, keys_off + 8 * mid);
        if v < key {
            lemma_pred_search(b, keys_off, key, mid + 1, hi, k);
            if lo <= k < hi && le_u64_at(b, keys_off + 8 * k) == key && k <= mid {
                if k < mid {
                    assert(le_u64_at(b, keys_off + 8 * k) < le_u64_at(b, keys_off + 8 * mid));
                }
            }
        } else if v > key {
            lemma_pred_search(b, keys_off, key, lo, mid, k);
            if lo <= k < hi && le_u64_at(b, keys_off + 8 * k) == key && k >= mid {
                if k > mid {
                    assert(le_u64_at(b, keys_off + 8 * mid) < le_u64_at(b, keys_off + 8 * k));
                }
            }
        } else {
            if lo <= k < hi && le_u64_at(b, keys_off + 8 * k) == key && k != mid {
                if k < mid {
                    assert(le_u64_at(b, keys_off + 8 * k) < le_u64_at(b, keys_off + 8 * mid));
                } else {
                    assert(le_u64_at(b, keys_off + 8 * mid) < le_u64_at(b, keys_off + 8 * k));
                }
            }
        }
    }
}

impl IdxSection {
    /// The section's kind.
    pub closed spec fn kind_of(&self) -> IdxKind {
        self.kind
    }

    /// Number of predicates the section's header declares.
    pub closed spec fn n_preds(&self) -> int {
        self.n_predicates as int
    }

    /// Where the predicate keys start.
    pub closed spec fn keys_off(&self) -> int {
        self.pred_keys_off as int
    }

    /// Where the posting offsets start.
    pub closed spec fn offs_off(&self) -> int {
        self.key2post_offs_off as int
    }

    /// Where the concatenated postings start.
    pub closed spec fn blob(&self) -> int {
        self.blob_off as int
    }

    /// Binary-search the predicate keys for `p_id` and view its posting.
    pub fn lookup<'a>(&self, bytes: &'a [u8], p_id: u64) -> (r: Option<IdxPosting<'a>>)
        ensures
            match spec_lookup_payload(bytes@, *self, p_id) {
                None => r is None,
                Some(pl) => match spec_parse_posting(pl) {
                    None => r is None,
                    Some(sh) => r matches Some(post) && post.payload() == pl && post.shape() == sh && post.wf(),
                },
            },
    {
        let n = self.n_predicates;
        if n == 0 {
            return None;
        }
        let len = bytes.len();
        let keys_off = self.pred_keys_off;
        let mut lo: u64 = 0;
        let mut hi: u64 = n;
        let mut found: Option<u64> = None;
        while lo < hi
            invariant_except_break
                lo <= hi <= n,
                found is None,
                len == bytes@.len(),
                pred_search(bytes@, keys_off as int, p_id, 0, n as int)
                    == pred_search(bytes@, keys_off as int, p_id, lo as int, hi as int),
            ensures
                found matches Some(i) ==> pred_search(bytes@, keys_off as int, p_id, 0, n as int) == Some(i as int),
                found is None ==> pred_search(bytes@, keys_off as int, p_id, 0, n as int) is None,
                found matches Some(i) ==> i < n,
            decreases hi - lo,
        {
            let mid = lo + (hi - lo) / 2;
            assert(mid == (lo + hi) / 2);
            if keys_off as u128 + 8 * (mid as u128) + 8 > len as u128 {
                break;
            }
            let v = read_u64_at(bytes, (keys_off as u128 + 8 * (mid as u128)) as usize);
            if v == p_id {
                found = Some(mid);
                break;
            } else if v < p_id {
                lo = mid + 1;
            } else {
                hi = mid;
            }
        }
        let idx = match found {
            None => return None,
            Some(i) => i,
        };
        let pe = self.key2post_offs_off as u128 + 8 * (idx as u128);
        if pe + 16 > len as u128 {
            return None;
        }
        let pe = pe as usize;
        let s_off = read_u64_at(bytes, pe);
        let e_off = read_u64_at(bytes, pe + 8);
        let start = self.blob_off as u128 + s_off as u128;
        let end = self.blob_off as u128 + e_off as u128;
        if start > end || end > len as u128 {
            return None;
        }
        parse_posting(&bytes[start as usize..end as usize])
    }
}

/// The bytes of the posting of `key` in section `sec`: found by the binary
/// search, its byte range taken from the posting offsets; `None` when the key
/// is not found or a range lies outside the bytes.
pub open spec fn spec_lookup_payload(b: Seq<u8>, sec: IdxSection, key: u64) -> Option<Seq<u8>> {
    if sec.n_preds() == 0 {
        None
    } else {
        match pred_search(b, sec.keys_off(), key, 0, sec.n_preds()) {
            None => None,
            Some(idx) => {
                let pe = sec.offs_off() + 8 * idx;
                if pe + 16 > b.len() {
                    None
                } else {
                    let start = sec.blob() + le_u64_at(b, pe);
                    let end = sec.blob() + le_u64_at(b, pe + 8);
                    if start <= end && end <= b.len() {
                        Some(b.subrange(start, end))
                    } else {
                        None
                    }
                }
            },
        }
    }
}

// ---------------------------------------------------------------- files

/// Current sidecar format version.
pub const SIDECAR_VERSION: u16 = 1;

/// Length of the fixed part of the sidecar header; the source path follows.
pub const SIDECAR_HEADER_FIXED: usize = 47;

/// ASCII "R5IDX", the first bytes of every sidecar file.
pub open spec fn sidecar_magic() -> Seq<u8> {
    seq![0x52u8, 0x35, 0x49, 0x44, 0x58]
}

/// ASCII "R5IDX_ENDM" and two zero bytes, the last bytes of every sidecar file.
pub open spec fn sidecar_eof_magic() -> Seq<u8> {
    seq![0x52u8, 0x35, 0x49, 0x44, 0x58, 0x5F, 0x45, 0x4E, 0x44, 0x4D, 0x00, 0x00]
}

/// Parsed sidecar header.
#[derive(Debug, Clone)]
pub struct IdxHeader {
    pub version: u16,
    pub flags: u16,
    pub src_mtime_ns: i64,
    pub src_len: u64,
    pub src_gdir_crc: u32,
    pub toc_off: u64,
    pub toc_len: u32,
    pub src_path: String,
}

/// The header fields of a sidecar image: version at byte 5, flags at 7, the
/// source path's length at 9, the source's modification time at 11, its
/// length at 19, its graph-directory CRC at 27, the TOC offset at 31 and
/// entry count at 39, and the source path (read leniently as UTF-8) at 47.
pub open spec fn idx_header_fields(h: IdxHeader, b: Seq<u8>) -> bool {
    &&& h.version == le_u16_at(b, 5)
    &&& h.flags == le_u16_at(b, 7)
    &&& h.src_mtime_ns == le_u64_at(b, 11) as i64
    &&& h.src_len == le_u64_at(b, 19)
    &&& h.src_gdir_crc == le_u32_at(b, 27)
    &&& h.toc_off == le_u64_at(b, 31)
    &&& h.toc_len == le_u32_at(b, 39)
    &&& h.src_path@ == utf8_lossy(b.subrange(47, 47 + le_u16_at(b, 9)))
}

/// One TOC entry (32 bytes: `u16` kind, `u16` reserved, `u64` offset,
/// `u64` length, `u32` CRC, reserved).
#[derive(Debug, Clone, Copy)]
pub struct IdxToc {
    pub kind: IdxKind,
    pub off: u64,
    pub len: u64,
    pub crc: u32,
}

/// The TOC entry at `base`.
pub open spec fn spec_toc_entry_at(b: Seq<u8>, base: int) -> Outcome<IdxToc> {
    if base + 32 > b.len() {
        Outcome::Corrupt
    } else {
        match spec_idx_kind(le_u16_at(b, base)) {
            None => Outcome::Invalid,
            Some(k) => Outcome::Value(
                IdxToc {
                    kind: k,
                    off: le_u64_at(b, base + 4),
                    len: le_u64_at(b, base + 12),
                    crc: le_u32_at(b, base + 20),
                },
            ),
        }
    }
}

/// The section a TOC entry points at; its 32-byte header holds the number
/// of predicates and the offsets of the keys, posting offsets and postings.
pub closed spec fn spec_section_of(b: Seq<u8>, t: IdxToc) -> Outcome<IdxSection> {
    if t.off + 32 > b.len() {
        Outcome::Corrupt
    } else {
        Outcome::Value(
            IdxSection {
                kind: t.kind,
                off: t.off,
                len: t.len,
                n_predicates: le_u64_at(b, t.off as int),
                pred_keys_off: le_u64_at(b, t.off + 8),
                key2post_offs_off: le_u64_at(b, t.off + 16),
                blob_off: le_u64_at(b, t.off + 24),
            },
        )
    }
}

/// The sections of the first `n` TOC entries at `toc_off`, or the first
/// failure among them.
pub open spec fn spec_idx_sections(b: Seq<u8>, toc_off: int, n: nat) -> Outcome<Seq<IdxSection>>
    decreases n,
{
    if n == 0 {
        Outcome::Value(seq![])
    } else {
        match spec_idx_sections(b, toc_off, (n - 1) as nat) {
            Outcome::Invalid => Outcome::Invalid,
            Outcome::Corrupt => Outcome::Corrupt,
            Outcome::Value(secs) => match spec_toc_entry_at(b, toc_off + 32 * (n - 1)) {
                Outcome::Invalid => Outcome::Invalid,
                Outcome::Corrupt => Outcome::Corrupt,
                Outcome::Value(t) => match spec_section_of(b, t) {
                    Outcome::Invalid => Outcome::Invalid,
                    Outcome::Corrupt => Outcome::Corrupt,
                    Outcome::Value(sec) => Outcome::Value(secs.push(sec)),
                },
            },
        }
    }
}

/// A failure among the first `i` entries is the failure of the first `n`.
proof fn lemma_sections_failure_sticks(b: Seq<u8>, toc_off: int, i: nat, n: nat)
    requires
        i <= n,
        !(spec_idx_sections(b, toc_off, i) is Value),
    ensures
        spec_idx_sections(b, toc_off, n) == spec_idx_sections(b, toc_off, i),
    decreases n - i,
{
    if i < n {
        lemma_sections_failure_sticks(b, toc_off, i, (n - 1) as nat);
    }
}

/// What opening a sidecar image gives: the file is too short for its header
/// or source path (`Corrupt`), has the wrong magic, version or end marker
/// (`Invalid`), fails its global CRC (`Corrupt`), or has a TOC whose entries
/// give the sections.
pub open spec fn spec_idx_file(b: Seq<u8>) -> Outcome<Seq<IdxSection>> {
    if b.len() < 47 {
        Outcome::Corrupt
    } else if b.subrange(0, 5) != sidecar_magic() {
        Outcome::Invalid
    } else if 47 + le_u16_at(b, 9) > b.len() {
        Outcome::Corrupt
    } else if le_u16_at(b, 5) != SIDECAR_VERSION {
        Outcome::Invalid
    } else if b.subrange(b.len() - 12, b.len() as int) != sidecar_eof_magic() {
        Outcome::Invalid
    } else if spec_crc32(b.subrange(0, b.len() - 16)) != le_u32_at(b, b.len() - 16) {
        Outcome::Corrupt
    } else {
        spec_idx_sections(b, le_u64_at(b, 31) as int, le_u32_at(b, 39) as nat)
    }
}

/// The message a sidecar image is rejected with when its fixed header,
/// source path, version, footer marker or global CRC is wrong; `None` when
/// those checks pass.
pub open spec fn spec_idx_header_message(b: Seq<u8>) -> Option<Seq<char>> {
    if b.len() < 47 {
        Some("sidecar too short"@)
    } else if b.subrange(0, 5) != sidecar_magic() {
        Some("bad sidecar magic"@)
    } else if 47 + le_u16_at(b, 9) > b.len() {
        Some("sidecar src path OOB"@)
    } else if le_u16_at(b, 5) != SIDECAR_VERSION {
        Some("unsupported sidecar version"@)
    } else if b.subrange(b.len() - 12, b.len() as int) != sidecar_eof_magic() {
        Some("bad sidecar footer magic"@)
    } else if spec_crc32(b.subrange(0, b.len() - 16)) != le_u32_at(b, b.len() - 16) {
        Some("sidecar global CRC mismatch"@)
    } else {
        None
    }
}

/// The first section of kind `k` from position `i` on.
pub closed spec fn first_kind_from(secs: Seq<IdxSection>, k: IdxKind, i: int) -> Option<int>
    decreases secs.len() - i,
{
    if i < 0 || i >= secs.len() {
        None
    } else if secs[i].kind == k {
        Some(i)
    } else {
        first_kind_from(secs, k, i + 1)
    }
}

/// The posting bytes of `key` in the first section of kind `k`.
pub open spec fn spec_lookup_in(b: Seq<u8>, secs: Seq<IdxSection>, k: IdxKind, key: u64) -> Option<Seq<u8>> {
    match first_kind_from(secs, k, 0) {
        None => None,
        Some(i) => spec_lookup_payload(b, secs[i], key),
    }
}

/// Open sidecar file.
#[derive(Debug)]
pub struct IdxFile {
    bytes: Vec<u8>,
    header: IdxHeader,
    sections: Vec<IdxSection>,
}

/// Whether `b[off..off + expected.len()]` equals `expected`.
fn bytes_match_at(b: &[u8], off: usize, expected: &Vec<u8>) -> (r: bool)
    requires
        off + expected@.len() <= b@.len(),
    ensures
        r == (b@.subrange(off as int, off + expected@.len()) == expected@),
{
    let n = expected.len();
    let _bl = b.len();
    bytes_eq(&b[off..off + n], expected.as_slice())
}

/// Read the TOC entry at `base`.
fn parse_toc_entry(b: &[u8], base: u128) -> (r: Result<IdxToc>)
    ensures
        match spec_toc_entry_at(b@, base as int) {
            Outcome::Invalid => r matches Err(e) && e is Invalid,
            Outcome::Corrupt => r matches Err(e) && e is Corrupt,
            Outcome::Value(t) => r == Ok::<IdxToc, R5Error>(t),
        },
{
    if b.len() < 32 || base > (b.len() - 32) as u128 {
        return Err(R5Error::corrupt_msg("sidecar TOC entry OOB"));
    }
    let base = base as usize;
    let kind = match IdxKind::from_u16(read_u16_at(b, base)) {
        None => return Err(R5Error::Invalid("unknown sidecar section kind")),
        Some(k) => k,
    };
    Ok(IdxToc {
        kind,
        off: read_u64_at(b, base + 4),
        len: read_u64_at(b, base + 12),
        crc: read_u32_at(b, base + 20),
    })
}

/// Read the header of the section a TOC entry points at.
fn parse_section(b: &[u8], t: IdxToc) -> (r: Result<IdxSection>)
    ensures
        match spec_section_of(b@, t) {
            Outcome::Invalid => r matches Err(e) && e is Invalid,
            Outcome::Corrupt => r matches Err(e) && e is Corrupt,
            Outcome::Value(sec) => r == Ok::<IdxSection, R5Error>(sec),
        },
{
    if t.off as u128 + 32 > b.len() as u128 {
        return Err(R5Error::corrupt_msg("sidecar section header OOB"));
    }
    let o = t.off as usize;
    Ok(IdxSection {
        kind: t.kind,
        off: t.off,
        len: t.len,
        n_predicates: read_u64_at(b, o),
        pred_keys_off: read_u64_at(b, o + 8),
        key2post_offs_off: read_u64_at(b, o + 16),
        blob_off: read_u64_at(b, o + 24),
    })
}

impl IdxFile {
    /// The file's bytes.
    pub closed spec fn data(&self) -> Seq<u8> {
        self.bytes@
    }

    /// The parsed header.
    pub closed spec fn hdr(&self) -> IdxHeader {
        self.header
    }

    /// The parsed sections, in TOC order.
    pub closed spec fn secs(&self) -> Seq<IdxSection> {
        self.sections@
    }

    /// Validate a sidecar image and open it.
    pub fn from_bytes(bytes: Vec<u8>) -> (r: Result<IdxFile>)
        ensures
            match spec_idx_file(bytes@) {
                Outcome::Invalid => r matches Err(e) && e is Invalid,
                Outcome::Corrupt => r matches Err(e) && e is Corrupt,
                Outcome::Value(secs) => r matches Ok(f) && f.data() == bytes@ && f.secs() == secs
                    && idx_header_fields(f.hdr(), bytes@),
            },
            spec_idx_header_message(bytes@) matches Some(m) ==> r matches Err(e) && error_text(e) == m,
    {
        let b = bytes.as_slice();
        let len = b.len();
        if len < SIDECAR_HEADER_FIXED {
            return Err(R5Error::corrupt_msg("sidecar too short"));
        }
        let magic: Vec<u8> = vec![0x52u8, 0x35, 0x49, 0x44, 0x58];
        assert(magic@ =~= sidecar_magic());
        if !bytes_match_at(b, 0, &magic) {
            return Err(R5Error::Invalid("bad sidecar magic"));
        }
        let version = read_u16_at(b, 5);
        let flags = read_u16_at(b, 7);
        let src_path_len = read_u16_at(b, 9) as usize;
        #[verifier::truncate]
        let src_mtime_ns = read_u64_at(b, 11) as i64;
        let src_len = read_u64_at(b, 19);
        let src_gdir_crc = read_u32_at(b, 27);
        let toc_off = read_u64_at(b, 31);
        let toc_len = read_u32_at(b, 39);
        if SIDECAR_HEADER_FIXED + src_path_len > len {
            return Err(R5Error::corrupt_msg("sidecar src path OOB"));
        }
        let src_path = string_from_utf8_lossy(&b[SIDECAR_HEADER_FIXED..SIDECAR_HEADER_FIXED + src_path_len]);
        if version != SIDECAR_VERSION {
            return Err(R5Error::Invalid("unsupported sidecar version"));
        }
        let footer_base = len - 16;
        let eof: Vec<u8> = vec![0x52u8, 0x35, 0x49, 0x44, 0x58, 0x5F, 0x45, 0x4E, 0x44, 0x4D, 0x00, 0x00];
        assert(eof@ =~= sidecar_eof_magic());
        if !bytes_match_at(b, footer_base + 4, &eof) {
            return Err(R5Error::Invalid("bad sidecar footer magic"));
        }
        let footer_crc = read_u32_at(b, footer_base);
        let computed = crc32_ieee(&b[0..footer_base]);
        if computed != footer_crc {
            return Err(R5Error::corrupt_msg("sidecar global CRC mismatch"));
        }
        let ghost bs = b@;
        assert(spec_idx_file(bs) == spec_idx_sections(bs, toc_off as int, toc_len as nat));
        assert(spec_idx_header_message(bs) is None);
        let mut sections: Vec<IdxSection> = Vec::new();
        let mut i: u32 = 0;
        while i < toc_len
            invariant
                i <= toc_len,
                b@ == bs,
                bs == bytes@,
                toc_off == le_u64_at(bs, 31),
                spec_idx_file(bs) == spec_idx_sections(bs, toc_off as int, toc_len as nat),
                spec_idx_header_message(bs) is None,
                spec_idx_sections(bs, toc_off as int, i as nat) == Outcome::Value(sections@),
            decreases toc_len - i,
        {
            let base = toc_off as u128 + 32 * (i as u128);
            let t = match parse_toc_entry(b, base) {
                Err(e) => {
                    proof {
                        lemma_sections_failure_sticks(bs, toc_off as int, (i + 1) as nat, toc_len as nat);
                    }
                    return Err(e);
                },
                Ok(t) => t,
            };
            let sec = match parse_section(b, t) {
                Err(e) => {
                    proof {
                        lemma_sections_failure_sticks(bs, toc_off as int, (i + 1) as nat, toc_len as nat);
                    }
                    return Err(e);
                },
                Ok(sec) => sec,
            };
            sections.push(sec);
            i = i + 1;
        }
        let header = IdxHeader {
            version,
            flags,
            src_mtime_ns,
            src_len,
            src_gdir_crc,
            toc_off,
            toc_len,
            src_path,
        };
        Ok(IdxFile { bytes, header, sections })
    }

    /// The parsed header.
    pub fn header(&self) -> (r: &IdxHeader)
        ensures
            *r == self.hdr(),
    {
        &self.header
    }

    /// The file's bytes.
    pub fn bytes(&self) -> (r: &[u8])
        ensures
            r@ == self.data(),
    {
        self.bytes.as_slice()
    }

    /// The first section of kind `kind`.
    pub fn section(&self, kind: IdxKind) -> (r: Option<&IdxSection>)
        ensures
            match first_kind_from(self.secs(), kind, 0) {
                None => r is None,
                Some(i) => r matches Some(sec) && *sec == self.secs()[i],
            },
    {
        let mut i: usize = 0;
        while i < self.sections.len()
            invariant
                i <= self.sections@.len(),
                first_kind_from(self.secs(), kind, 0) == first_kind_from(self.secs(), kind, i as int),
            decreases self.sections@.len() - i,
        {
            if self.sections[i].kind == kind {
                return Some(&self.sections[i]);
            }
            i = i + 1;
        }
        None
    }

    /// Look up the PSO posting of predicate term id `p_id`.
    pub fn lookup_pso(&self, p_id: u64) -> (r: Option<IdxPosting<'_>>)
        ensures
            match spec_lookup_in(self.data(), self.secs(), IdxKind::Pso, p_id) {
                None => r is None,
                Some(pl) => match spec_parse_posting(pl) {
                    None => r is None,
                    Some(sh) => r matches Some(post) && post.payload() == pl && post.shape() == sh && post.wf(),
                },
            },
    {
        match self.section(IdxKind::Pso) {
            None => None,
            Some(sec) => sec.lookup(self.bytes.as_slice(), p_id),
        }
    }

    /// Look up the POS posting of predicate term id `p_id`.
    pub fn lookup_pos(&self, p_id: u64) -> (r: Option<IdxPosting<'_>>)
        ensures
            match spec_lookup_in(self.data(), self.secs(), IdxKind::Pos, p_id) {
                None => r is None,
                Some(pl) => match spec_parse_posting(pl) {
                    None => r is None,
                    Some(sh) => r matches Some(post) && post.payload() == pl && post.shape() == sh && post.wf(),
                },
            },
    {
        match self.section(IdxKind::Pos) {
            None => None,
            Some(sec) => sec.lookup(self.bytes.as_slice(), p_id),
        }
    }

    /// Whether the sidecar still describes a source file of length `src_len`,
    /// modified at `src_mtime_ns`, whose graph-directory CRC is `gdir_crc`.
    pub fn matches_source(&self, src_len: u64, src_mtime_ns: i64, gdir_crc: u32) -> (r: bool)
        ensures
            r == (self.hdr().src_len == src_len && self.hdr().src_mtime_ns == src_mtime_ns
                && self.hdr().src_gdir_crc == gdir_crc),
    {
        self.header.src_len == src_len && self.header.src_mtime_ns == src_mtime_ns
            && self.header.src_gdir_crc == gdir_crc
    }
}

/// What the section a TOC entry points at holds, in terms of the accessors.
pub proof fn lemma_section_of(b: Seq<u8>, t: IdxToc)
    ensures
        t.off + 32 > b.len() ==> spec_section_of(b, t) == Outcome::<IdxSection>::Corrupt,
        t.off + 32 <= b.len() ==> (spec_section_of(b, t) matches Outcome::Value(sec) && {
            &&& sec.kind_of() == t.kind
            &&& sec.n_preds() == le_u64_at(b, t.off as int)
            &&& sec.keys_off() == le_u64_at(b, t.off + 8)
            &&& sec.offs_off() == le_u64_at(b, t.off + 16)
            &&& sec.blob() == le_u64_at(b, t.off + 24)
        }),
{
}

/// In a PSO section followed by a POS section, each kind is found at its
/// own position.
pub proof fn lemma_first_kind_two(secs: Seq<IdxSection>)
    requires
        secs.len() == 2,
        secs[0].kind_of() == IdxKind::Pso,
        secs[1].kind_of() == IdxKind::Pos,
    ensures
        first_kind_from(secs, IdxKind::Pso, 0) == Some(0int),
        first_kind_from(secs, IdxKind::Pos, 0) == Some(1int),
{
    assert(first_kind_from(secs, IdxKind::Pos, 2) is None);
    assert(first_kind_from(secs, IdxKind::Pos, 1) == Some(1int));
    assert(secs[0].kind != IdxKind::Pos);
    assert(first_kind_from(secs, IdxKind::Pos, 0) == first_kind_from(secs, IdxKind::Pos, 1));
}

} // verus!
