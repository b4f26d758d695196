//! Building sidecar index files from the triples of an R5TU file.
use vstd::prelude::*;
use vstd::bytes::*;
use crate::header::{crc32_ieee, spec_crc32};
use crate::le::{extend_bytes, push_u16, push_u32, push_u32s, push_u64, push_u64s, u32s_le, u64s_le};
use crate::sidecar::{sidecar_eof_magic, sidecar_magic, SIDECAR_VERSION};
use crate::text::{str_bytes, utf8_bytes};
use crate::header::Section;
use crate::layout::{all_gids, spec_block_triples, spec_gdir_header, spec_graphrefs, GraphRefView, Outcome};
use crate::reader::{graphref_views, GraphRef, R5Error, R5tuFile, Result};
use crate::sort::{ascending, lemma_ascending_unique, lemma_idx_tuple_obeys, sort_unstable};
use crate::triples::Triple;
use crate::varint::{push_uvarint, uvarint_bytes};

verus! {

/// An index tuple: predicate, graph group, outer value, inner value.
pub type IdxTuple = (u64, u32, u64, u64);

/// `x` comes no later than `y` in lexicographic order.
pub open spec fn tuple_le(x: IdxTuple, y: IdxTuple) -> bool {
    ||| x.0 < y.0
    ||| x.0 == y.0 && x.1 < y.1
    ||| x.0 == y.0 && x.1 == y.1 && x.2 < y.2
    ||| x.0 == y.0 && x.1 == y.1 && x.2 == y.2 && x.3 <= y.3
}

/// The tuples are in lexicographic order.
pub open spec fn tuples_sorted(ts: Seq<IdxTuple>) -> bool {
    forall|i: int, j: int| 0 <= i < j < ts.len() ==> tuple_le(#[trigger] ts[i], #[trigger] ts[j])
}

// ---------------------------------------------------------------- posting blocks

/// The arrays of a posting while its tuples are encoded one by one.
#[verifier::ext_equal]
pub struct BlockState {
    pub gids: Seq<u32>,
    pub s_heads: Seq<u32>,
    pub s_byte_heads: Seq<u32>,
    pub s_bytes: Seq<u8>,
    pub o_heads: Seq<u32>,
    pub o_byte_heads: Seq<u32>,
    pub o_bytes: Seq<u8>,
    pub n_s: nat,
    pub n_t: nat,
    pub prev: Option<(u32, u64, u64)>,
}

/// Nothing encoded yet: each head array starts with a zero.
pub open spec fn block_init() -> BlockState {
    BlockState {
        gids: seq![],
        s_heads: seq![0u32],
        s_byte_heads: seq![0u32],
        s_bytes: seq![],
        o_heads: seq![0u32],
        o_byte_heads: seq![0u32],
        o_bytes: seq![],
        n_s: 0,
        n_t: 0,
        prev: None,
    }
}

/// Whether tuple `t` starts a new graph group after `prev`.
pub open spec fn starts_gid(prev: Option<(u32, u64, u64)>, t: IdxTuple) -> bool {
    match prev {
        None => true,
        Some(pv) => pv.0 != t.1,
    }
}

/// Whether tuple `t` starts a new outer row after `prev`.
pub open spec fn starts_row(prev: Option<(u32, u64, u64)>, t: IdxTuple) -> bool {
    match prev {
        None => true,
        Some(pv) => pv.0 != t.1 || pv.1 != t.2,
    }
}

/// Encode one more tuple. A new outer row closes the previous one (its end in
/// `o_heads` and `o_byte_heads`) and appends the outer value, as it is at the
/// start of a graph group and as the difference to the previous one after;
/// a new graph group also closes the previous group (its end in `s_heads` and
/// `s_byte_heads`) and records its id. The inner value is appended as it is at
/// the start of a row and as a difference within it.
pub open spec fn block_step(st: BlockState, t: IdxTuple) -> BlockState {
    let new_gid = starts_gid(st.prev, t);
    let new_row = starts_row(st.prev, t);
    let (pa, pb) = match st.prev {
        None => (0u64, 0u64),
        Some(pv) => (pv.1, pv.2),
    };
    let close_row = st.prev is Some && new_row;
    let close_gid = st.prev is Some && new_gid;
    BlockState {
        gids: if new_gid { st.gids.push(t.1) } else { st.gids },
        s_heads: if close_gid { st.s_heads.push(st.n_s as u32) } else { st.s_heads },
        s_byte_heads: if close_gid { st.s_byte_heads.push(st.s_bytes.len() as u32) } else { st.s_byte_heads },
        s_bytes: if new_row {
            st.s_bytes + uvarint_bytes(if new_gid { t.2 } else { (t.2 - pa) as u64 })
        } else {
            st.s_bytes
        },
        o_heads: if close_row { st.o_heads.push(st.n_t as u32) } else { st.o_heads },
        o_byte_heads: if close_row { st.o_byte_heads.push(st.o_bytes.len() as u32) } else { st.o_byte_heads },
        o_bytes: st.o_bytes + uvarint_bytes(if new_row { t.3 } else { (t.3 - pb) as u64 }),
        n_s: if new_row { st.n_s + 1 } else { st.n_s },
        n_t: st.n_t + 1,
        prev: Some((t.1, t.2, t.3)),
    }
}

/// The state after encoding `ts` in order.
pub open spec fn block_fold(ts: Seq<IdxTuple>) -> BlockState
    decreases ts.len(),
{
    if ts.len() == 0 {
        block_init()
    } else {
        block_step(block_fold(ts.drop_last()), ts.last())
    }
}

/// Close the last row and graph group.
pub open spec fn block_close(st: BlockState) -> BlockState {
    if st.prev is Some {
        BlockState {
            s_heads: st.s_heads.push(st.n_s as u32),
            s_byte_heads: st.s_byte_heads.push(st.s_bytes.len() as u32),
            o_heads: st.o_heads.push(st.n_t as u32),
            o_byte_heads: st.o_byte_heads.push(st.o_bytes.len() as u32),
            ..st
        }
    } else {
        st
    }
}

/// The bytes of the posting of `ts`, tuples of one predicate sorted by graph
/// group, outer and inner value: `u32` group count, group ids, `s_heads`,
/// `s_byte_heads`, `u32` row count, outer stream, `o_heads`, `o_byte_heads`,
/// `u32` pair count, inner stream.
pub open spec fn block_bytes(ts: Seq<IdxTuple>) -> Seq<u8> {
    let st = block_close(block_fold(ts));
    spec_u32_to_le_bytes(st.gids.len() as u32) + u32s_le(st.gids) + u32s_le(st.s_heads)
        + u32s_le(st.s_byte_heads) + spec_u32_to_le_bytes(st.n_s as u32) + st.s_bytes
        + u32s_le(st.o_heads) + u32s_le(st.o_byte_heads) + spec_u32_to_le_bytes(st.n_t as u32)
        + st.o_bytes
}

/// The encoder's exec state.
struct BlockBuf {
    gids: Vec<u32>,
    s_heads: Vec<u32>,
    s_byte_heads: Vec<u32>,
    s_bytes: Vec<u8>,
    o_heads: Vec<u32>,
    o_byte_heads: Vec<u32>,
    o_bytes: Vec<u8>,
    n_s: u32,
    n_t: u32,
    prev: Option<(u32, u64, u64)>,
}

impl BlockBuf {
    spec fn view(&self) -> BlockState {
        BlockState {
            gids: self.gids@,
            s_heads: self.s_heads@,
            s_byte_heads: self.s_byte_heads@,
            s_bytes: self.s_bytes@,
            o_heads: self.o_heads@,
            o_byte_heads: self.o_byte_heads@,
            o_bytes: self.o_bytes@,
            n_s: self.n_s as nat,
            n_t: self.n_t as nat,
            prev: self.prev,
        }
    }
}

/// Encode the posting of `ts[lo..hi]`.
fn build_posting_block(ts: &Vec<IdxTuple>, lo: usize, hi: usize) -> (out: Vec<u8>)
    requires
        lo <= hi <= ts@.len(),
        hi - lo <= u32::MAX,
        tuples_sorted(ts@),
        forall|k: int| lo <= k < hi ==> #[trigger] ts@[k].0 == ts@[lo as int].0,
    ensures
        out@ == block_bytes(ts@.subrange(lo as int, hi as int)),
{
    let mut st = BlockBuf {
        gids: Vec::new(),
        s_heads: vec![0u32],
        s_byte_heads: vec![0u32],
        s_bytes: Vec::new(),
        o_heads: vec![0u32],
        o_byte_heads: vec![0u32],
        o_bytes: Vec::new(),
        n_s: 0,
        n_t: 0,
        prev: None,
    };
    assert(st.view() =~= block_init());
    assert(ts@.subrange(lo as int, lo as int) =~= Seq::<IdxTuple>::empty());
    let mut k: usize = lo;
    while k < hi
        invariant
            lo <= k <= hi <= ts@.len(),
            hi - lo <= u32::MAX,
            tuples_sorted(ts@),
            forall|m: int| lo <= m < hi ==> #[trigger] ts@[m].0 == ts@[lo as int].0,
            st.view() == block_fold(ts@.subrange(lo as int, k as int)),
            st.n_t == k - lo,
            st.n_s <= st.n_t,
            k == lo <==> st.prev is None,
            k > lo ==> st.prev == Some((ts@[k - 1].1, ts@[k - 1].2, ts@[k - 1].3)),
        decreases hi - k,
    {
        let t = ts[k];
        let ghost old_st = st.view();
        proof {
            if k > lo {
                assert(tuple_le(ts@[k - 1], ts@[k as int]));
                assert(ts@[k - 1].0 == ts@[k as int].0);
            }
        }
        let (new_gid, new_row, pa, pb) = match st.prev {
            None => (true, true, 0u64, 0u64),
            Some(pv) => (pv.0 != t.1, pv.0 != t.1 || pv.1 != t.2, pv.1, pv.2),
        };
        if st.prev.is_some() && new_row {
            let nt = st.n_t;
            st.o_heads.push(nt);
            #[verifier::truncate]
            let ol = st.o_bytes.len() as u32;
            st.o_byte_heads.push(ol);
        }
        if st.prev.is_some() && new_gid {
            let ns = st.n_s;
            st.s_heads.push(ns);
            #[verifier::truncate]
            let sl = st.s_bytes.len() as u32;
            st.s_byte_heads.push(sl);
        }
        if new_gid {
            st.gids.push(t.1);
        }
        if new_row {
            let d = if new_gid { t.2 } else { t.2 - pa };
            push_uvarint(d, &mut st.s_bytes);
            st.n_s = st.n_s + 1;
        }
        let od = if new_row { t.3 } else { t.3 - pb };
        push_uvarint(od, &mut st.o_bytes);
        st.n_t = st.n_t + 1;
        st.prev = Some((t.1, t.2, t.3));
        proof {
            let sub = ts@.subrange(lo as int, k + 1);
            assert(sub.drop_last() =~= ts@.subrange(lo as int, k as int));
            assert(sub.last() == t);
            assert(st.view() =~= block_step(old_st, t));
        }
        k = k + 1;
    }
    if st.prev.is_some() {
        let ns = st.n_s;
        st.s_heads.push(ns);
        #[verifier::truncate]
        let sl = st.s_bytes.len() as u32;
        st.s_byte_heads.push(sl);
        let nt = st.n_t;
        st.o_heads.push(nt);
        #[verifier::truncate]
        let ol = st.o_bytes.len() as u32;
        st.o_byte_heads.push(ol);
    }
    let ghost fin = block_close(block_fold(ts@.subrange(lo as int, hi as int)));
    assert(st.view() =~= fin);
    let mut out: Vec<u8> = Vec::new();
    #[verifier::truncate]
    let ng = st.gids.len() as u32;
    push_u32(&mut out, ng);
    push_u32s(&mut out, &st.gids);
    push_u32s(&mut out, &st.s_heads);
    push_u32s(&mut out, &st.s_byte_heads);
    push_u32(&mut out, st.n_s);
    let mut sb = st.s_bytes;
    out.append(&mut sb);
    push_u32s(&mut out, &st.o_heads);
    push_u32s(&mut out, &st.o_byte_heads);
    push_u32(&mut out, st.n_t);
    let mut ob = st.o_bytes;
    out.append(&mut ob);
    assert(out@ =~= block_bytes(ts@.subrange(lo as int, hi as int)));
    out
}

// ---------------------------------------------------------------- sections

/// The tuples grouped into maximal runs of one predicate, in order.
pub open spec fn pred_groups(ts: Seq<IdxTuple>) -> Seq<(u64, Seq<IdxTuple>)>
    decreases ts.len(),
{
    if ts.len() == 0 {
        seq![]
    } else {
        let g = pred_groups(ts.drop_last());
        let t = ts.last();
        if g.len() > 0 && g.last().0 == t.0 {
            g.update(g.len() - 1, (t.0, g.last().1.push(t)))
        } else {
            g.push((t.0, seq![t]))
        }
    }
}

/// The predicates and posting bytes of the groups of `ts`.
pub open spec fn postings_of(ts: Seq<IdxTuple>) -> Seq<(u64, Seq<u8>)> {
    pred_groups(ts).map_values(|g: (u64, Seq<IdxTuple>)| (g.0, block_bytes(g.1)))
}

/// The predicate keys of the postings.
pub open spec fn posting_keys(ps: Seq<(u64, Seq<u8>)>) -> Seq<u64> {
    ps.map_values(|x: (u64, Seq<u8>)| x.0)
}

/// The concatenated posting bytes.
pub open spec fn posting_blob(ps: Seq<(u64, Seq<u8>)>) -> Seq<u8>
    decreases ps.len(),
{
    if ps.len() == 0 {
        seq![]
    } else {
        posting_blob(ps.drop_last()) + ps.last().1
    }
}

/// Where each posting starts in the blob, and where the blob ends.
pub open spec fn posting_offsets(ps: Seq<(u64, Seq<u8>)>) -> Seq<u64>
    decreases ps.len(),
{
    if ps.len() == 0 {
        seq![0u64]
    } else {
        posting_offsets(ps.drop_last()).push(posting_blob(ps).len() as u64)
    }
}

/// A section placed at file offset `base`: `u64` predicate count, the file
/// offsets of the keys, of the posting offsets and of the blob, then the keys,
/// the posting offsets (relative to the blob) and the blob.
pub open spec fn section_bytes(ps: Seq<(u64, Seq<u8>)>, base: int) -> Seq<u8> {
    let n = ps.len();
    spec_u64_to_le_bytes(n as u64) + spec_u64_to_le_bytes((base + 32) as u64)
        + spec_u64_to_le_bytes((base + 32 + 8 * n) as u64)
        + spec_u64_to_le_bytes((base + 32 + 8 * n + 8 * (n + 1)) as u64)
        + u64s_le(posting_keys(ps)) + u64s_le(posting_offsets(ps)) + posting_blob(ps)
}

/// Extending a run of one predicate that follows a different predicate (or
/// starts the tuples) adds one group holding the run.
pub proof fn lemma_pred_groups_run(ts: Seq<IdxTuple>, i: int, j: int)
    requires
        0 <= i < j <= ts.len(),
        forall|m: int| i <= m < j ==> #[trigger] ts[m].0 == ts[i].0,
        i == 0 || ts[i - 1].0 != ts[i].0,
    ensures
        pred_groups(ts.subrange(0, j)) == pred_groups(ts.subrange(0, i)).push((ts[i].0, ts.subrange(i, j))),
    decreases j - i,
{
    let pre = ts.subrange(0, i);
    assert(ts.subrange(0, j).drop_last() =~= ts.subrange(0, j - 1));
    assert(pre.len() > 0 ==> pre.last() == ts[i - 1]);
    if j == i + 1 {
        assert(ts.subrange(0, i + 1).drop_last() =~= pre);
        if i > 0 {
            lemma_pred_groups_last(pre);
        }
        assert(ts.subrange(i, j) =~= seq![ts[i]]);
    } else {
        lemma_pred_groups_run(ts, i, j - 1);
        let g = pred_groups(ts.subrange(0, j - 1));
        assert(g.last().0 == ts[i].0);
        assert(ts.subrange(i, j - 1).push(ts[j - 1]) =~= ts.subrange(i, j));
        assert(g.update(g.len() - 1, (ts[i].0, g.last().1.push(ts[j - 1])))
            =~= pred_groups(pre).push((ts[i].0, ts.subrange(i, j))));
    }
}

/// The last group holds the last tuple's predicate.
pub proof fn lemma_pred_groups_last(ts: Seq<IdxTuple>)
    requires
        ts.len() > 0,
    ensures
        pred_groups(ts).len() > 0,
        pred_groups(ts).last().0 == ts.last().0,
    decreases ts.len(),
{
    if ts.len() > 1 {
        lemma_pred_groups_last(ts.drop_last());
    }
}

/// The postings of `ts` placed at file offset `base`.
fn build_section(ts: &Vec<IdxTuple>, base: u64) -> (out: Vec<u8>)
    requires
        ts@.len() <= u32::MAX,
        tuples_sorted(ts@),
    ensures
        out@ == section_bytes(postings_of(ts@), base as int),
{
    let n = ts.len();
    let mut keys: Vec<u64> = Vec::new();
    let mut offs: Vec<u64> = vec![0u64];
    let mut blob: Vec<u8> = Vec::new();
    let mut i: usize = 0;
    assert(ts@.subrange(0, 0) =~= Seq::<IdxTuple>::empty());
    while i < n
        invariant
            i <= n == ts@.len() <= u32::MAX,
            tuples_sorted(ts@),
            0 < i < n ==> ts@[i - 1].0 != ts@[i as int].0,
            keys@ == posting_keys(postings_of(ts@.subrange(0, i as int))),
            offs@ == posting_offsets(postings_of(ts@.subrange(0, i as int))),
            blob@ == posting_blob(postings_of(ts@.subrange(0, i as int))),
        decreases n - i,
    {
        let p = ts[i].0;
        let mut j = i + 1;
        while j < n && ts[j].0 == p
            invariant
                i < j <= n == ts@.len(),
                p == ts@[i as int].0,
                forall|m: int| i <= m < j ==> #[trigger] ts@[m].0 == p,
            decreases n - j,
        {
            j = j + 1;
        }
        let block = build_posting_block(ts, i, j);
        let ghost old_ps = postings_of(ts@.subrange(0, i as int));
        let ghost grp = (p, ts@.subrange(i as int, j as int));
        proof {
            lemma_pred_groups_run(ts@, i as int, j as int);
            assert(postings_of(ts@.subrange(0, j as int)) =~= old_ps.push((p, block_bytes(grp.1))));
        }
        keys.push(p);
        let mut b = block;
        blob.append(&mut b);
        let bl = blob.len() as u64;
        offs.push(bl);
        proof {
            let ps = postings_of(ts@.subrange(0, j as int));
            assert(ps.drop_last() =~= old_ps);
            assert(keys@ =~= posting_keys(ps));
        }
        i = j;
    }
    assert(ts@.subrange(0, n as int) =~= ts@);
    let ghost ps = postings_of(ts@);
    let np = keys.len() as u128;
    let mut out: Vec<u8> = Vec::new();
    push_u64(&mut out, np as u64);
    #[verifier::truncate]
    let keys_off = (base as u128 + 32) as u64;
    #[verifier::truncate]
    let offs_off = (base as u128 + 32 + 8 * np) as u64;
    #[verifier::truncate]
    let blob_off = (base as u128 + 32 + 8 * np + 8 * (np + 1)) as u64;
    push_u64(&mut out, keys_off);
    push_u64(&mut out, offs_off);
    push_u64(&mut out, blob_off);
    push_u64s(&mut out, &keys);
    push_u64s(&mut out, &offs);
    let mut b = blob;
    out.append(&mut b);
    assert(out@ =~= section_bytes(ps, base as int));
    out
}

// ---------------------------------------------------------------- files

/// A 32-byte TOC entry.
pub open spec fn toc_entry_bytes(kind: u16, off: u64, len: u64, crc: u32) -> Seq<u8> {
    spec_u16_to_le_bytes(kind) + spec_u16_to_le_bytes(0) + spec_u64_to_le_bytes(off)
        + spec_u64_to_le_bytes(len) + spec_u32_to_le_bytes(crc) + spec_u32_to_le_bytes(0)
        + spec_u32_to_le_bytes(0)
}

/// A sidecar file without its footer: the header (magic, version, zero flags,
/// the source path's length, the source's modification time, length and
/// graph-directory CRC, the TOC offset, two TOC entries, a reserved word, the
/// source path), the PSO section, the POS section and the TOC.
pub open spec fn sidecar_body(
    pso: Seq<IdxTuple>,
    pos: Seq<IdxTuple>,
    mtime_ns: i64,
    src_len: u64,
    gdir_crc: u32,
    path: Seq<u8>,
) -> Seq<u8> {
    let h = (47 + path.len()) as u64;
    let a = section_bytes(postings_of(pso), h as int);
    let pos_off = (h + a.len()) as u64;
    let b = section_bytes(postings_of(pos), pos_off as int);
    let toc_off = (pos_off + b.len()) as u64;
    sidecar_magic() + spec_u16_to_le_bytes(SIDECAR_VERSION) + spec_u16_to_le_bytes(0)
        + spec_u16_to_le_bytes(path.len() as u16) + spec_u64_to_le_bytes(mtime_ns as u64)
        + spec_u64_to_le_bytes(src_len) + spec_u32_to_le_bytes(gdir_crc)
        + spec_u64_to_le_bytes(toc_off) + spec_u32_to_le_bytes(2) + spec_u32_to_le_bytes(0) + path
        + a + b + toc_entry_bytes(1, h as u64, a.len() as u64, spec_crc32(a))
        + toc_entry_bytes(2, pos_off, b.len() as u64, spec_crc32(b))
}

/// A sidecar file: its body, the body's CRC and the end marker.
pub open spec fn sidecar_image(
    pso: Seq<IdxTuple>,
    pos: Seq<IdxTuple>,
    mtime_ns: i64,
    src_len: u64,
    gdir_crc: u32,
    path: Seq<u8>,
) -> Seq<u8> {
    let body = sidecar_body(pso, pos, mtime_ns, src_len, gdir_crc, path);
    body + spec_u32_to_le_bytes(spec_crc32(body)) + sidecar_eof_magic()
}

/// Append a TOC entry.
fn push_toc_entry(out: &mut Vec<u8>, kind: u16, off: u64, len: u64, crc: u32)
    ensures
        final(out)@ == old(out)@ + toc_entry_bytes(kind, off, len, crc),
{
    push_u16(out, kind);
    push_u16(out, 0);
    push_u64(out, off);
    push_u64(out, len);
    push_u32(out, crc);
    push_u32(out, 0);
    push_u32(out, 0);
    assert(out@ =~= old(out)@ + toc_entry_bytes(kind, off, len, crc));
}

/// The sidecar file of the PSO tuples `pso` (sorted by predicate, graph
/// group, subject, object) and the POS tuples `pos` (sorted by predicate,
/// graph group, object, subject), recording the source file's modification
/// time, length, graph-directory CRC and path.
pub fn sidecar_bytes(
    pso: &Vec<IdxTuple>,
    pos: &Vec<IdxTuple>,
    src_mtime_ns: i64,
    src_len: u64,
    src_gdir_crc: u32,
    src_path: &str,
) -> (out: Vec<u8>)
    requires
        pso@.len() <= u32::MAX,
        pos@.len() <= u32::MAX,
        tuples_sorted(pso@),
        tuples_sorted(pos@),
    ensures
        out@ == sidecar_image(pso@, pos@, src_mtime_ns, src_len, src_gdir_crc, utf8_bytes(src_path@)),
{
    let path = str_bytes(src_path);
    let h = 47 + path.len() as u128;
    #[verifier::truncate]
    let pso_off = h as u64;
    let a = build_section(pso, pso_off);
    #[verifier::truncate]
    let pos_off = (pso_off as u128 + a.len() as u128) as u64;
    let b = build_section(pos, pos_off);
    #[verifier::truncate]
    let toc_off = (pos_off as u128 + b.len() as u128) as u64;
    let a_crc = crc32_ieee(a.as_slice());
    let b_crc = crc32_ieee(b.as_slice());
    let mut out: Vec<u8> = vec![0x52u8, 0x35, 0x49, 0x44, 0x58];
    assert(out@ =~= sidecar_magic());
    push_u16(&mut out, SIDECAR_VERSION);
    push_u16(&mut out, 0);
    #[verifier::truncate]
    let pl = path.len() as u16;
    push_u16(&mut out, pl);
    #[verifier::truncate]
    let mt = src_mtime_ns as u64;
    push_u64(&mut out, mt);
    push_u64(&mut out, src_len);
    push_u32(&mut out, src_gdir_crc);
    push_u64(&mut out, toc_off);
    push_u32(&mut out, 2);
    push_u32(&mut out, 0);
    extend_bytes(&mut out, path);
    #[verifier::truncate]
    let a_len = a.len() as u64;
    #[verifier::truncate]
    let b_len = b.len() as u64;
    extend_bytes(&mut out, a.as_slice());
    extend_bytes(&mut out, b.as_slice());
    push_toc_entry(&mut out, 1, pso_off, a_len, a_crc);
    push_toc_entry(&mut out, 2, pos_off, b_len, b_crc);
    let ghost body = sidecar_body(pso@, pos@, src_mtime_ns, src_len, src_gdir_crc, path@);
    assert(out@ =~= body);
    let crc = crc32_ieee(out.as_slice());
    push_u32(&mut out, crc);
    let eof: Vec<u8> = vec![0x52u8, 0x35, 0x49, 0x44, 0x58, 0x5F, 0x45, 0x4E, 0x44, 0x4D, 0x00, 0x00];
    assert(eof@ =~= sidecar_eof_magic());
    extend_bytes(&mut out, eof.as_slice());
    out
}

// ---------------------------------------------------------------- from a file

/// The index tuples of the triples `ts` of graph group `gid`.
pub open spec fn group_tuples(gid: u64, ts: Seq<Triple>) -> Seq<IdxTuple> {
    ts.map_values(|t: Triple| (t.1, gid as u32, t.0, t.2))
}

/// The index tuples of the graph groups `grs`, group after group; a group id
/// beyond `u32` is `Invalid`, and a group whose triples do not decode fails
/// as the decoding does.
pub open spec fn spec_tuples_from(d: Seq<u8>, gdir: Section, grs: Seq<GraphRefView>) -> Outcome<Seq<IdxTuple>>
    decreases grs.len(),
{
    if grs.len() == 0 {
        Outcome::Value(seq![])
    } else {
        match spec_tuples_from(d, gdir, grs.drop_last()) {
            Outcome::Invalid => Outcome::Invalid,
            Outcome::Corrupt => Outcome::Corrupt,
            Outcome::Value(acc) => {
                let g = grs.last().gid;
                if g > u32::MAX {
                    Outcome::Invalid
                } else {
                    match spec_block_triples(d, gdir, g) {
                        Outcome::Invalid => Outcome::Invalid,
                        Outcome::Corrupt => Outcome::Corrupt,
                        Outcome::Value(ts) => Outcome::Value(acc + group_tuples(g, ts)),
                    }
                }
            },
        }
    }
}

/// A failure among the first `i` groups is the failure of the first `n`.
proof fn lemma_tuples_failure_sticks(d: Seq<u8>, gdir: Section, grs: Seq<GraphRefView>, i: int)
    requires
        0 <= i <= grs.len(),
        !(spec_tuples_from(d, gdir, grs.subrange(0, i)) is Value),
    ensures
        spec_tuples_from(d, gdir, grs) == spec_tuples_from(d, gdir, grs.subrange(0, i)),
    decreases grs.len() - i,
{
    if i < grs.len() {
        assert(grs.drop_last().subrange(0, i) =~= grs.subrange(0, i));
        lemma_tuples_failure_sticks(d, gdir, grs.drop_last(), i);
    } else {
        assert(grs.subrange(0, i) =~= grs);
    }
}

/// The graph groups of a file, in id order.
pub open spec fn spec_file_groups(f: &R5tuFile) -> Outcome<Seq<GraphRefView>> {
    match spec_gdir_header(f.file_bytes(), f.gdir_view()) {
        None => Outcome::Corrupt,
        Some((n_rows, _)) => spec_graphrefs(
            f.file_bytes(),
            f.id_dict_view(),
            f.gname_dict_view(),
            f.gdir_view(),
            all_gids(n_rows),
        ),
    }
}

/// The index tuples (predicate, group, subject, object) of every triple of a
/// file, group after group.
pub open spec fn spec_file_tuples(f: &R5tuFile) -> Outcome<Seq<IdxTuple>> {
    match spec_file_groups(f) {
        Outcome::Invalid => Outcome::Invalid,
        Outcome::Corrupt => Outcome::Corrupt,
        Outcome::Value(grs) => spec_tuples_from(f.file_bytes(), f.gdir_view(), grs),
    }
}

/// `r` is what the outcome `o` calls for.
pub open spec fn outcome_result<T, V>(r: Result<T>, o: Outcome<V>, view: spec_fn(T) -> V) -> bool {
    match o {
        Outcome::Invalid => r matches Err(e) && e is Invalid,
        Outcome::Corrupt => r matches Err(e) && e is Corrupt,
        Outcome::Value(v) => r matches Ok(x) && view(x) == v,
    }
}

/// The index tuples of every triple of a file.
pub fn collect_tuples(r5tu: &R5tuFile) -> (r: Result<Vec<IdxTuple>>)
    ensures
        outcome_result(r, spec_file_tuples(r5tu), |v: Vec<IdxTuple>| v@),
{
    let graphs = r5tu.enumerate_all()?;
    let ghost grs = graphref_views(graphs@);
    let ghost d = r5tu.file_bytes();
    let ghost gdir = r5tu.gdir_view();
    assert(spec_file_groups(r5tu) == Outcome::Value(grs));
    let mut out: Vec<IdxTuple> = Vec::new();
    let mut i: usize = 0;
    assert(grs.subrange(0, 0) =~= Seq::<GraphRefView>::empty());
    while i < graphs.len()
        invariant
            i <= graphs@.len(),
            grs == graphref_views(graphs@),
            d == r5tu.file_bytes(),
            gdir == r5tu.gdir_view(),
            spec_file_tuples(r5tu) == spec_tuples_from(d, gdir, grs),
            spec_tuples_from(d, gdir, grs.subrange(0, i as int)) == Outcome::Value(out@),
        decreases graphs@.len() - i,
    {
        let gid = graphs[i].gid;
        let ghost pre = grs.subrange(0, i as int);
        let ghost next = grs.subrange(0, i + 1);
        assert(next.drop_last() =~= pre);
        assert(next.last().gid == gid);
        if gid > u32::MAX as u64 {
            proof {
                lemma_tuples_failure_sticks(d, gdir, grs, i + 1);
            }
            return Err(R5Error::Invalid("gid exceeds u32 (sidecar limit)"));
        }
        let mut it = match r5tu.triples_ids(gid) {
            Err(e) => {
                proof {
                    lemma_tuples_failure_sticks(d, gdir, grs, i + 1);
                }
                return Err(e);
            },
            Ok(it) => it,
        };
        let ts = it.collect_all();
        let ghost before = out@;
        let mut k: usize = 0;
        while k < ts.len()
            invariant
                k <= ts@.len(),
                gid <= u32::MAX,
                out@ == before + group_tuples(gid, ts@.subrange(0, k as int)),
            decreases ts@.len() - k,
        {
            let t = ts[k];
            out.push((t.1, gid as u32, t.0, t.2));
            assert(group_tuples(gid, ts@.subrange(0, k + 1))
                =~= group_tuples(gid, ts@.subrange(0, k as int)).push((t.1, gid as u32, t.0, t.2)));
            k = k + 1;
        }
        assert(ts@.subrange(0, ts@.len() as int) =~= ts@);
        i = i + 1;
    }
    assert(grs.subrange(0, graphs@.len() as int) =~= grs);
    Ok(out)
}

/// The bytes of one graph-directory summary row: the group id and triple
/// count, then the id and graph name, each followed by a zero byte.
pub open spec fn summary_row(g: GraphRefView) -> Seq<u8> {
    spec_u64_to_le_bytes(g.gid) + spec_u64_to_le_bytes(g.n_triples) + utf8_bytes(g.id) + seq![0u8]
        + utf8_bytes(g.graphname) + seq![0u8]
}

/// The summary rows of the graph groups, in order.
pub open spec fn summary_rows(grs: Seq<GraphRefView>) -> Seq<u8>
    decreases grs.len(),
{
    if grs.len() == 0 {
        seq![]
    } else {
        summary_rows(grs.drop_last()) + summary_row(grs.last())
    }
}

/// The CRC of the graph-directory summary: the group count, then the rows.
pub open spec fn summary_crc(grs: Seq<GraphRefView>) -> u32 {
    spec_crc32(spec_u64_to_le_bytes(grs.len() as u64) + summary_rows(grs))
}

/// The "graph-directory CRC" recorded in a sidecar: the CRC of a summary of
/// the file's graph groups, stable across reopenings of an unchanged file.
pub fn gdir_crc(r5tu: &R5tuFile) -> (r: Result<u32>)
    ensures
        match spec_file_groups(r5tu) {
            Outcome::Invalid => r matches Err(e) && e is Invalid,
            Outcome::Corrupt => r matches Err(e) && e is Corrupt,
            Outcome::Value(grs) => r == Ok::<u32, R5Error>(summary_crc(grs)),
        },
{
    let graphs = r5tu.enumerate_all()?;
    let ghost grs = graphref_views(graphs@);
    let mut buf: Vec<u8> = Vec::new();
    push_u64(&mut buf, graphs.len() as u64);
    let ghost head = buf@;
    let mut i: usize = 0;
    assert(grs.subrange(0, 0) =~= Seq::<GraphRefView>::empty());
    while i < graphs.len()
        invariant
            i <= graphs@.len(),
            grs == graphref_views(graphs@),
            buf@ == head + summary_rows(grs.subrange(0, i as int)),
        decreases graphs@.len() - i,
    {
        let g = &graphs[i];
        push_u64(&mut buf, g.gid);
        push_u64(&mut buf, g.n_triples);
        extend_bytes(&mut buf, str_bytes(g.id.as_str()));
        buf.push(0u8);
        extend_bytes(&mut buf, str_bytes(g.graphname.as_str()));
        buf.push(0u8);
        proof {
            let next = grs.subrange(0, i + 1);
            assert(next.drop_last() =~= grs.subrange(0, i as int));
            assert(buf@ =~= head + summary_rows(next));
        }
        i = i + 1;
    }
    assert(grs.subrange(0, graphs@.len() as int) =~= grs);
    Ok(crc32_ieee(buf.as_slice()))
}

/// The tuples in ascending order.
pub open spec fn sorted_tuples(ts: Seq<IdxTuple>) -> Seq<IdxTuple> {
    choose|x: Seq<IdxTuple>| ascending(x) && x.to_multiset() == ts.to_multiset()
}

/// Each tuple with its outer and inner values swapped (subject-object to
/// object-subject).
pub open spec fn swap_inner(ts: Seq<IdxTuple>) -> Seq<IdxTuple> {
    ts.map_values(|t: IdxTuple| (t.0, t.1, t.3, t.2))
}

/// Sort tuples; the result is the ascending arrangement, which is sorted
/// lexicographically.
pub(crate) fn sort_tuples(v: &mut Vec<IdxTuple>)
    ensures
        final(v)@ == sorted_tuples(old(v)@),
        tuples_sorted(final(v)@),
        final(v)@.len() == old(v)@.len(),
{
    let ghost orig = v@;
    proof {
        lemma_idx_tuple_obeys();
    }
    sort_unstable(v);
    proof {
        lemma_idx_tuple_obeys();
        let c = sorted_tuples(orig);
        assert(ascending(v@) && v@.to_multiset() == orig.to_multiset());
        assert(ascending(c) && c.to_multiset() == orig.to_multiset());
        lemma_ascending_unique(c, v@);
        assert forall|i: int, j: int| 0 <= i < j < v@.len() implies tuple_le(#[trigger] v@[i], #[trigger] v@[j]) by {
            assert(crate::sort::order_le(v@[i], v@[j]));
        }
    }
}

/// Build the sidecar file of an R5TU file: the tuples of all its triples in
/// PSO and POS order, with the source's modification time, length, summary
/// CRC and path. More than `u32::MAX` triples cannot be indexed (`Invalid`).
pub fn build(r5tu: &R5tuFile, src_mtime_ns: i64, src_len: u64, src_path: &str) -> (r: Result<Vec<u8>>)
    ensures
        match spec_file_tuples(r5tu) {
            Outcome::Invalid => r matches Err(e) && e is Invalid,
            Outcome::Corrupt => r matches Err(e) && e is Corrupt,
            Outcome::Value(ts) => if ts.len() > u32::MAX {
                r matches Err(e) && e is Invalid
            } else {
                spec_file_groups(r5tu) matches Outcome::Value(grs) && r matches Ok(b) && b@ == sidecar_image(
                    sorted_tuples(ts),
                    sorted_tuples(swap_inner(ts)),
                    src_mtime_ns,
                    src_len,
                    summary_crc(grs),
                    utf8_bytes(src_path@),
                )
            },
        },
{
    let mut pso = collect_tuples(r5tu)?;
    if pso.len() > u32::MAX as usize {
        return Err(R5Error::Invalid("too many triples for a sidecar index"));
    }
    let crc = gdir_crc(r5tu)?;
    let ghost ts = pso@;
    let mut pos: Vec<IdxTuple> = Vec::new();
    let mut i: usize = 0;
    while i < pso.len()
        invariant
            i <= pso@.len(),
            pso@ == ts,
            pos@ == swap_inner(ts.subrange(0, i as int)),
        decreases pso@.len() - i,
    {
        let t = pso[i];
        pos.push((t.0, t.1, t.3, t.2));
        assert(swap_inner(ts.subrange(0, i + 1)) =~= swap_inner(ts.subrange(0, i as int)).push((t.0, t.1, t.3, t.2)));
        i = i + 1;
    }
    assert(ts.subrange(0, ts.len() as int) =~= ts);
    sort_tuples(&mut pso);
    sort_tuples(&mut pos);
    Ok(sidecar_bytes(&pso, &pos, src_mtime_ns, src_len, crc, src_path))
}

} // verus!
