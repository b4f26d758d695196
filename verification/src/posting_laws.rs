//! What a sidecar posting holds: decoding the posting of sorted tuples gives
//! the tuples back.
use vstd::prelude::*;
use vstd::bytes::*;
use crate::le::{le_u32_at, lemma_u32s_le_len, u32s_le};
use crate::sidecar::{
    inner_of, pairs_with, rows_from, run_vals, spec_all_blocks, spec_block_pairs, spec_gids, spec_parse_posting,
    step_val, u32_entry, with_gid, InnerShape, PostingShape,
};
use crate::sidecar_build::{
    block_bytes, block_close, block_fold, block_init, block_step, starts_gid, starts_row, tuple_le,
    tuples_sorted, BlockState, IdxTuple,
};
use crate::varint::{lemma_uvarint_roundtrip, spec_read_uvarint, uvarint_bytes};

verus! {

/// The encoder's state after the first `m` tuples.
pub open spec fn st(ts: Seq<IdxTuple>, m: int) -> BlockState {
    block_fold(ts.subrange(0, m))
}

/// Tuple `i` starts a new outer row.
pub open spec fn opens_row(ts: Seq<IdxTuple>, i: int) -> bool {
    i == 0 || ts[i - 1].1 != ts[i].1 || ts[i - 1].2 != ts[i].2
}

/// Tuple `i` starts a new graph group.
pub open spec fn opens_gid(ts: Seq<IdxTuple>, i: int) -> bool {
    i == 0 || ts[i - 1].1 != ts[i].1
}

/// `a` is a prefix of `b`.
pub open spec fn pre<T>(a: Seq<T>, b: Seq<T>) -> bool {
    a.len() <= b.len() && forall|k: int| 0 <= k < a.len() ==> #[trigger] a[k] == b[k]
}

proof fn lemma_pre_at<T>(a: Seq<T>, b: Seq<T>, k: int)
    requires
        pre(a, b),
        0 <= k < a.len(),
    ensures
        a[k] == b[k],
{
}

proof fn lemma_step(ts: Seq<IdxTuple>, m: int)
    requires
        0 <= m < ts.len(),
    ensures
        st(ts, m + 1) == block_step(st(ts, m), ts[m]),
{
    assert(ts.subrange(0, m + 1).drop_last() =~= ts.subrange(0, m));
    assert(ts.subrange(0, m + 1).last() == ts[m]);
}

/// Counts, lengths and the remembered tuple of the encoder's state.
proof fn lemma_shape(ts: Seq<IdxTuple>, m: int)
    requires
        0 <= m <= ts.len(),
    ensures
        st(ts, m).n_t == m,
        m == 0 ==> st(ts, m) == block_init(),
        m > 0 ==> st(ts, m).prev == Some((ts[m - 1].1, ts[m - 1].2, ts[m - 1].3)),
        m > 0 ==> st(ts, m).o_heads.len() == st(ts, m).n_s && st(ts, m).o_byte_heads.len() == st(ts, m).n_s,
        m > 0 ==> st(ts, m).s_heads.len() == st(ts, m).gids.len() && st(ts, m).s_byte_heads.len() == st(ts, m).gids.len(),
        m > 0 ==> 1 <= st(ts, m).gids.len() <= st(ts, m).n_s <= m,
    decreases m,
{
    if m == 0 {
        assert(ts.subrange(0, 0) =~= Seq::<IdxTuple>::empty());
    } else {
        lemma_shape(ts, m - 1);
        lemma_step(ts, m - 1);
    }
}

/// Encoding more tuples only extends the arrays.
proof fn lemma_prefix(ts: Seq<IdxTuple>, m: int, m2: int)
    requires
        0 <= m <= m2 <= ts.len(),
    ensures
        pre(st(ts, m).gids, st(ts, m2).gids),
        pre(st(ts, m).s_heads, st(ts, m2).s_heads),
        pre(st(ts, m).s_byte_heads, st(ts, m2).s_byte_heads),
        pre(st(ts, m).s_bytes, st(ts, m2).s_bytes),
        pre(st(ts, m).o_heads, st(ts, m2).o_heads),
        pre(st(ts, m).o_byte_heads, st(ts, m2).o_byte_heads),
        pre(st(ts, m).o_bytes, st(ts, m2).o_bytes),
        st(ts, m).n_s <= st(ts, m2).n_s,
    decreases m2 - m,
{
    if m < m2 {
        lemma_prefix(ts, m, m2 - 1);
        lemma_step(ts, m2 - 1);
        let a = st(ts, m2 - 1);
        let b = st(ts, m2);
        assert(pre(a.gids, b.gids));
        assert(pre(a.s_heads, b.s_heads));
        assert(pre(a.s_byte_heads, b.s_byte_heads));
        assert(pre(a.o_heads, b.o_heads));
        assert(pre(a.o_byte_heads, b.o_byte_heads));
        assert(pre(a.s_bytes, b.s_bytes));
        assert(pre(a.o_bytes, b.o_bytes));
    }
}

/// Opening a row: the row's start and the inner stream's length at that
/// point are recorded at the row's index, and the outer value is appended.
proof fn lemma_row_open(ts: Seq<IdxTuple>, i: int)
    requires
        0 <= i < ts.len() <= u32::MAX,
        opens_row(ts, i),
    ensures
        st(ts, i + 1).n_s == st(ts, i).n_s + 1,
        st(ts, i + 1).o_heads.len() > st(ts, i).n_s,
        st(ts, i + 1).o_heads[st(ts, i).n_s as int] == i,
        st(ts, i + 1).o_byte_heads[st(ts, i).n_s as int] == st(ts, i).o_bytes.len() as u32,
        st(ts, i + 1).s_bytes == st(ts, i).s_bytes + uvarint_bytes(
            if opens_gid(ts, i) { ts[i].2 } else { (ts[i].2 - ts[i - 1].2) as u64 },
        ),
        st(ts, i + 1).o_bytes == st(ts, i).o_bytes + uvarint_bytes(ts[i].3),
{
    lemma_shape(ts, i);
    lemma_step(ts, i);
}

/// Inside a row: only the inner value is appended.
proof fn lemma_row_continue(ts: Seq<IdxTuple>, i: int)
    requires
        0 < i < ts.len(),
        !opens_row(ts, i),
    ensures
        st(ts, i + 1).n_s == st(ts, i).n_s,
        st(ts, i + 1).s_bytes == st(ts, i).s_bytes,
        st(ts, i + 1).gids == st(ts, i).gids,
        st(ts, i + 1).s_heads == st(ts, i).s_heads,
        st(ts, i + 1).s_byte_heads == st(ts, i).s_byte_heads,
        st(ts, i + 1).o_heads == st(ts, i).o_heads,
        st(ts, i + 1).o_byte_heads == st(ts, i).o_byte_heads,
        st(ts, i + 1).o_bytes == st(ts, i).o_bytes + uvarint_bytes((ts[i].3 - ts[i - 1].3) as u64),
{
    lemma_shape(ts, i);
    lemma_step(ts, i);
}

/// Opening a graph group: the group's first row and the outer stream's length
/// are recorded at the group's index, with its id.
proof fn lemma_gid_open(ts: Seq<IdxTuple>, i: int)
    requires
        0 <= i < ts.len(),
        opens_gid(ts, i),
    ensures
        opens_row(ts, i),
        st(ts, i + 1).gids == st(ts, i).gids.push(ts[i].1),
        st(ts, i + 1).s_heads.len() > st(ts, i).gids.len(),
        st(ts, i + 1).s_heads[st(ts, i).gids.len() as int] == st(ts, i).n_s as u32,
        st(ts, i + 1).s_byte_heads[st(ts, i).gids.len() as int] == st(ts, i).s_bytes.len() as u32,
{
    lemma_shape(ts, i);
    lemma_step(ts, i);
}

/// A row that does not open a group keeps the group arrays.
proof fn lemma_gid_continue(ts: Seq<IdxTuple>, i: int)
    requires
        0 < i < ts.len(),
        !opens_gid(ts, i),
    ensures
        st(ts, i + 1).gids == st(ts, i).gids,
        st(ts, i + 1).s_heads == st(ts, i).s_heads,
        st(ts, i + 1).s_byte_heads == st(ts, i).s_byte_heads,
{
    lemma_shape(ts, i);
    lemma_step(ts, i);
}

/// Where the row holding tuple `i` ends: the next tuple that opens a row,
/// or the end.
pub open spec fn row_end(ts: Seq<IdxTuple>, i: int) -> int
    decreases ts.len() - i,
{
    if i + 1 >= ts.len() {
        ts.len() as int
    } else if opens_row(ts, i + 1) {
        i + 1
    } else {
        row_end(ts, i + 1)
    }
}

/// Where the graph group holding tuple `i` ends.
pub open spec fn gid_end(ts: Seq<IdxTuple>, i: int) -> int
    decreases ts.len() - i,
{
    if i + 1 >= ts.len() {
        ts.len() as int
    } else if opens_gid(ts, i + 1) {
        i + 1
    } else {
        gid_end(ts, i + 1)
    }
}

proof fn lemma_row_end(ts: Seq<IdxTuple>, i: int)
    requires
        0 <= i < ts.len(),
    ensures
        i < row_end(ts, i) <= ts.len(),
        row_end(ts, i) < ts.len() ==> opens_row(ts, row_end(ts, i)),
        forall|k: int| i < k < row_end(ts, i) ==> !opens_row(ts, k),
    decreases ts.len() - i,
{
    if i + 1 < ts.len() && !opens_row(ts, i + 1) {
        lemma_row_end(ts, i + 1);
    }
}

proof fn lemma_gid_end(ts: Seq<IdxTuple>, i: int)
    requires
        0 <= i < ts.len(),
    ensures
        i < gid_end(ts, i) <= ts.len(),
        gid_end(ts, i) < ts.len() ==> opens_gid(ts, gid_end(ts, i)),
        forall|k: int| i < k < gid_end(ts, i) ==> !opens_gid(ts, k),
    decreases ts.len() - i,
{
    if i + 1 < ts.len() && !opens_gid(ts, i + 1) {
        lemma_gid_end(ts, i + 1);
    }
}

/// Across tuples that open no row, the outer arrays stay as they were.
proof fn lemma_row_stable(ts: Seq<IdxTuple>, i: int, k: int)
    requires
        0 <= i < k <= ts.len(),
        forall|m: int| i < m < k ==> !opens_row(ts, m),
    ensures
        st(ts, k).n_s == st(ts, i + 1).n_s,
        st(ts, k).s_bytes == st(ts, i + 1).s_bytes,
        st(ts, k).gids == st(ts, i + 1).gids,
        st(ts, k).s_heads == st(ts, i + 1).s_heads,
        st(ts, k).s_byte_heads == st(ts, i + 1).s_byte_heads,
        st(ts, k).o_heads == st(ts, i + 1).o_heads,
        st(ts, k).o_byte_heads == st(ts, i + 1).o_byte_heads,
    decreases k - i,
{
    if k > i + 1 {
        lemma_row_stable(ts, i, k - 1);
        lemma_row_continue(ts, k - 1);
    }
}

/// Across tuples that open no graph group, the group arrays stay as they were.
proof fn lemma_gid_stable(ts: Seq<IdxTuple>, i: int, k: int)
    requires
        0 <= i < k <= ts.len(),
        forall|m: int| i < m < k ==> !opens_gid(ts, m),
    ensures
        st(ts, k).gids == st(ts, i + 1).gids,
        st(ts, k).s_heads == st(ts, i + 1).s_heads,
        st(ts, k).s_byte_heads == st(ts, i + 1).s_byte_heads,
    decreases k - i,
{
    if k > i + 1 {
        lemma_gid_stable(ts, i, k - 1);
        lemma_gid_continue(ts, k - 1);
    }
}

/// The closed state.
pub open spec fn fin(ts: Seq<IdxTuple>) -> BlockState {
    block_close(block_fold(ts))
}

/// The row heads of a row opened by tuple `i` in the closed state: its
/// start and end, and the inner stream's length at both.
proof fn lemma_fin_row(ts: Seq<IdxTuple>, i: int)
    requires
        0 <= i < ts.len() <= u32::MAX,
        opens_row(ts, i),
    ensures
        fin(ts).o_heads.len() == st(ts, ts.len() as int).n_s + 1,
        fin(ts).o_byte_heads.len() == st(ts, ts.len() as int).n_s + 1,
        st(ts, i).n_s + 1 < fin(ts).o_heads.len(),
        fin(ts).o_heads[st(ts, i).n_s as int] == i,
        fin(ts).o_heads[st(ts, i).n_s + 1int] == row_end(ts, i),
        fin(ts).o_byte_heads[st(ts, i).n_s as int] == st(ts, i).o_bytes.len() as u32,
        fin(ts).o_byte_heads[st(ts, i).n_s + 1int] == st(ts, row_end(ts, i)).o_bytes.len() as u32,
        st(ts, row_end(ts, i)).n_s == st(ts, i).n_s + 1,
        st(ts, row_end(ts, i)).s_bytes == st(ts, i + 1).s_bytes,
{
    let n = ts.len() as int;
    assert(ts.subrange(0, n) =~= ts);
    lemma_shape(ts, n);
    let j = row_end(ts, i);
    lemma_row_end(ts, i);
    lemma_row_open(ts, i);
    lemma_row_stable(ts, i, j);
    lemma_prefix(ts, i + 1, n);
    lemma_shape(ts, i + 1);
    let f = fin(ts);
    let sn = st(ts, n);
    lemma_pre_at(st(ts, i + 1).o_heads, sn.o_heads, st(ts, i).n_s as int);
    lemma_pre_at(st(ts, i + 1).o_byte_heads, sn.o_byte_heads, st(ts, i).n_s as int);
    assert(f.o_heads == sn.o_heads.push(n as u32));
    assert(f.o_byte_heads == sn.o_byte_heads.push(sn.o_bytes.len() as u32));
    assert(f.o_heads[st(ts, i).n_s as int] == st(ts, i + 1).o_heads[st(ts, i).n_s as int]);
    if j < n {
        lemma_row_open(ts, j);
        lemma_prefix(ts, j + 1, n);
        lemma_shape(ts, j);
        lemma_shape(ts, j + 1);
        lemma_pre_at(st(ts, j + 1).o_heads, sn.o_heads, st(ts, j).n_s as int);
        lemma_pre_at(st(ts, j + 1).o_byte_heads, sn.o_byte_heads, st(ts, j).n_s as int);
        assert(f.o_heads[st(ts, j).n_s as int] == st(ts, j + 1).o_heads[st(ts, j).n_s as int]);
        assert(f.o_byte_heads[st(ts, j).n_s as int] == st(ts, j + 1).o_byte_heads[st(ts, j).n_s as int]);
    } else {
        assert(sn.o_byte_heads.len() == sn.n_s);
        assert(f.o_byte_heads[sn.n_s as int] == sn.o_bytes.len() as u32);
    }
}

/// The group heads of a group opened by tuple `g` in the closed state.
#[verifier::rlimit(50)]
proof fn lemma_fin_gid(ts: Seq<IdxTuple>, g: int)
    requires
        0 <= g < ts.len() <= u32::MAX,
        opens_gid(ts, g),
    ensures
        fin(ts).s_heads.len() == fin(ts).gids.len() + 1,
        fin(ts).s_byte_heads.len() == fin(ts).gids.len() + 1,
        st(ts, g).gids.len() < fin(ts).gids.len(),
        fin(ts).gids[st(ts, g).gids.len() as int] == ts[g].1,
        fin(ts).s_heads[st(ts, g).gids.len() as int] == st(ts, g).n_s,
        fin(ts).s_heads[st(ts, g).gids.len() + 1int] == st(ts, gid_end(ts, g)).n_s,
        fin(ts).s_byte_heads[st(ts, g).gids.len() as int] == st(ts, g).s_bytes.len() as u32,
        fin(ts).s_byte_heads[st(ts, g).gids.len() + 1int] == st(ts, gid_end(ts, g)).s_bytes.len() as u32,
        st(ts, gid_end(ts, g)).gids.len() == st(ts, g).gids.len() + 1,
{
    let n = ts.len() as int;
    assert(ts.subrange(0, n) =~= ts);
    let j = gid_end(ts, g);
    let sn = st(ts, n);
    let f = fin(ts);
    let k = st(ts, g).gids.len() as int;
    lemma_shape(ts, n);
    lemma_shape(ts, g);
    lemma_gid_end(ts, g);
    lemma_gid_open(ts, g);
    lemma_gid_stable(ts, g, j);
    assert(f.s_heads == sn.s_heads.push(sn.n_s as u32));
    assert(f.s_byte_heads == sn.s_byte_heads.push(sn.s_bytes.len() as u32));
    assert(f.gids == sn.gids);
    lemma_fin_gid_start(ts, g);
    if j < n {
        lemma_fin_gid_start(ts, j);
        lemma_shape(ts, j);
    } else {
        assert(f.s_heads[sn.gids.len() as int] == sn.n_s as u32);
        assert(f.s_byte_heads[sn.gids.len() as int] == sn.s_bytes.len() as u32);
    }
}

/// The entries a group opened by tuple `g` leaves in the closed state.
proof fn lemma_fin_gid_start(ts: Seq<IdxTuple>, g: int)
    requires
        0 <= g < ts.len() <= u32::MAX,
        opens_gid(ts, g),
    ensures
        st(ts, g).gids.len() < fin(ts).gids.len(),
        fin(ts).gids[st(ts, g).gids.len() as int] == ts[g].1,
        fin(ts).s_heads[st(ts, g).gids.len() as int] == st(ts, g).n_s as u32,
        fin(ts).s_byte_heads[st(ts, g).gids.len() as int] == st(ts, g).s_bytes.len() as u32,
{
    let n = ts.len() as int;
    assert(ts.subrange(0, n) =~= ts);
    let sn = st(ts, n);
    let f = fin(ts);
    let k = st(ts, g).gids.len() as int;
    lemma_shape(ts, n);
    lemma_gid_open(ts, g);
    lemma_prefix(ts, g + 1, n);
    assert(f.s_heads == sn.s_heads.push(sn.n_s as u32));
    assert(f.s_byte_heads == sn.s_byte_heads.push(sn.s_bytes.len() as u32));
    assert(f.gids == sn.gids);
    lemma_shape(ts, g + 1);
    assert(st(ts, g + 1).gids[k] == ts[g].1);
    lemma_pre_at(st(ts, g + 1).gids, sn.gids, k);
    lemma_pre_at(st(ts, g + 1).s_heads, sn.s_heads, k);
    lemma_pre_at(st(ts, g + 1).s_byte_heads, sn.s_byte_heads, k);
}

// ---------------------------------------------------------------- reading the bytes

/// Entry `k` of an encoded `u32` array.
pub(crate) proof fn lemma_u32s_entry(xs: Seq<u32>, k: int)
    requires
        0 <= k < xs.len(),
    ensures
        u32s_le(xs).len() == 4 * xs.len(),
        u32s_le(xs).subrange(4 * k, 4 * k + 4) == spec_u32_to_le_bytes(xs[k]),
    decreases xs.len(),
{
    lemma_u32s_le_len(xs);
    lemma_u32s_le_len(xs.drop_last());
    lemma_auto_spec_u32_to_from_le_bytes();
    let init = xs.drop_last();
    if k < xs.len() - 1 {
        lemma_u32s_entry(init, k);
        assert(u32s_le(xs).subrange(4 * k, 4 * k + 4) =~= u32s_le(init).subrange(4 * k, 4 * k + 4));
    } else {
        assert(u32s_le(xs).subrange(4 * k, 4 * k + 4) =~= spec_u32_to_le_bytes(xs.last()));
    }
}

/// Reading entry `k` of an array placed after `a`.
proof fn lemma_read_array(p: Seq<u8>, a: Seq<u8>, xs: Seq<u32>, b: Seq<u8>, k: int)
    requires
        p == a + u32s_le(xs) + b,
        0 <= k < xs.len(),
    ensures
        u32_entry(p, a.len() as int, k) == Some(xs[k]),
{
    lemma_u32s_entry(xs, k);
    lemma_auto_spec_u32_to_from_le_bytes();
    assert(p.subrange(a.len() + 4 * k, a.len() + 4 * k + 4) =~= u32s_le(xs).subrange(4 * k, 4 * k + 4));
}

/// Reading a single `u32` placed after `a`.
proof fn lemma_read_word(p: Seq<u8>, a: Seq<u8>, v: u32, b: Seq<u8>)
    requires
        p == a + spec_u32_to_le_bytes(v) + b,
    ensures
        le_u32_at(p, a.len() as int) == v,
{
    lemma_auto_spec_u32_to_from_le_bytes();
    assert(p.subrange(a.len() as int, a.len() + 4int) =~= spec_u32_to_le_bytes(v));
}

/// Where the arrays of the posting of `ts` lie.
pub open spec fn layout_of(ts: Seq<IdxTuple>) -> PostingShape {
    let f = fin(ts);
    let ng = f.gids.len() as int;
    let ns = f.n_s as int;
    let s_heads_off = 4 + 4 * ng;
    let sbh_off = s_heads_off + 4 * (ng + 1);
    let s_vals_off = sbh_off + 4 * (ng + 1) + 4;
    let o_heads_off = s_vals_off + f.s_bytes.len();
    let obh_off = o_heads_off + 4 * (ns + 1);
    PostingShape {
        n_gids: ng,
        gid_vals_off: 4,
        s_heads_off,
        s_byte_heads_off: sbh_off,
        n_s: ns,
        s_vals_off,
        o_heads_off,
        o_byte_heads_off: obh_off,
        n_t: ts.len() as int,
        o_vals_off: obh_off + 4 * (ns + 1) + 4,
    }
}

/// The arrays of the closed state have their heads' lengths.
proof fn lemma_fin_lengths(ts: Seq<IdxTuple>)
    requires
        ts.len() <= u32::MAX,
    ensures
        fin(ts).s_heads.len() == fin(ts).gids.len() + 1,
        fin(ts).s_byte_heads.len() == fin(ts).gids.len() + 1,
        fin(ts).o_heads.len() == fin(ts).n_s + 1,
        fin(ts).o_byte_heads.len() == fin(ts).n_s + 1,
        fin(ts).n_t == ts.len(),
        fin(ts).gids.len() <= fin(ts).n_s <= ts.len(),
        fin(ts).s_byte_heads[fin(ts).gids.len() as int] == fin(ts).s_bytes.len() as u32,
        fin(ts).s_bytes == st(ts, ts.len() as int).s_bytes,
        fin(ts).o_bytes == st(ts, ts.len() as int).o_bytes,
        fin(ts).n_s == st(ts, ts.len() as int).n_s,
        fin(ts).gids == st(ts, ts.len() as int).gids,
{
    let n = ts.len() as int;
    assert(ts.subrange(0, n) =~= ts);
    lemma_shape(ts, n);
    if n == 0 {
        assert(fin(ts) == block_init());
    }
}

/// The posting of `ts` parses to its layout, holding each array and stream
/// where the layout says.
#[verifier::rlimit(60)]
proof fn lemma_layout(ts: Seq<IdxTuple>)
    requires
        ts.len() <= u32::MAX,
        block_bytes(ts).len() <= u32::MAX,
    ensures
        spec_parse_posting(block_bytes(ts)) == Some(layout_of(ts)),
        ({
            let p = block_bytes(ts);
            let f = fin(ts);
            let sh = layout_of(ts);
            &&& p.subrange(sh.s_vals_off, sh.s_vals_off + f.s_bytes.len()) == f.s_bytes
            &&& p.subrange(sh.o_vals_off, sh.o_vals_off + f.o_bytes.len()) == f.o_bytes
            &&& sh.o_vals_off + f.o_bytes.len() == p.len()
            &&& forall|k: int| 0 <= k < f.gids.len() ==> #[trigger] le_u32_at(p, 4 + 4 * k) == f.gids[k]
            &&& forall|k: int| 0 <= k < f.s_heads.len() ==> #[trigger] u32_entry(p, sh.s_heads_off, k) == Some(f.s_heads[k])
            &&& forall|k: int| 0 <= k < f.s_byte_heads.len() ==> #[trigger] u32_entry(p, sh.s_byte_heads_off, k) == Some(f.s_byte_heads[k])
            &&& forall|k: int| 0 <= k < f.o_heads.len() ==> #[trigger] u32_entry(p, sh.o_heads_off, k) == Some(f.o_heads[k])
            &&& forall|k: int| 0 <= k < f.o_byte_heads.len() ==> #[trigger] u32_entry(p, sh.o_byte_heads_off, k) == Some(f.o_byte_heads[k])
        }),
{
    let p = block_bytes(ts);
    let f = fin(ts);
    let sh = layout_of(ts);
    lemma_fin_lengths(ts);
    lemma_u32s_le_len(f.gids);
    lemma_u32s_le_len(f.s_heads);
    lemma_u32s_le_len(f.s_byte_heads);
    lemma_u32s_le_len(f.o_heads);
    lemma_u32s_le_len(f.o_byte_heads);
    lemma_auto_spec_u32_to_from_le_bytes();
    let w0 = spec_u32_to_le_bytes(f.gids.len() as u32);
    let g = u32s_le(f.gids);
    let sh_b = u32s_le(f.s_heads);
    let sbh_b = u32s_le(f.s_byte_heads);
    let ns_b = spec_u32_to_le_bytes(f.n_s as u32);
    let oh_b = u32s_le(f.o_heads);
    let obh_b = u32s_le(f.o_byte_heads);
    let nt_b = spec_u32_to_le_bytes(f.n_t as u32);
    assert(p == w0 + g + sh_b + sbh_b + ns_b + f.s_bytes + oh_b + obh_b + nt_b + f.o_bytes);
    // the words
    assert(p =~= seq![] + w0 + (g + sh_b + sbh_b + ns_b + f.s_bytes + oh_b + obh_b + nt_b + f.o_bytes));
    lemma_read_word(p, seq![], f.gids.len() as u32, g + sh_b + sbh_b + ns_b + f.s_bytes + oh_b + obh_b + nt_b + f.o_bytes);
    let a_ns = w0 + g + sh_b + sbh_b;
    assert(p =~= a_ns + ns_b + (f.s_bytes + oh_b + obh_b + nt_b + f.o_bytes));
    lemma_read_word(p, a_ns, f.n_s as u32, f.s_bytes + oh_b + obh_b + nt_b + f.o_bytes);
    let a_nt = w0 + g + sh_b + sbh_b + ns_b + f.s_bytes + oh_b + obh_b;
    assert(p =~= a_nt + nt_b + f.o_bytes);
    lemma_read_word(p, a_nt, f.n_t as u32, f.o_bytes);
    // the arrays
    assert(p =~= w0 + g + (sh_b + sbh_b + ns_b + f.s_bytes + oh_b + obh_b + nt_b + f.o_bytes));
    assert(p =~= (w0 + g) + sh_b + (sbh_b + ns_b + f.s_bytes + oh_b + obh_b + nt_b + f.o_bytes));
    assert(p =~= (w0 + g + sh_b) + sbh_b + (ns_b + f.s_bytes + oh_b + obh_b + nt_b + f.o_bytes));
    assert(p =~= (w0 + g + sh_b + sbh_b + ns_b + f.s_bytes) + oh_b + (obh_b + nt_b + f.o_bytes));
    assert(p =~= (w0 + g + sh_b + sbh_b + ns_b + f.s_bytes + oh_b) + obh_b + (nt_b + f.o_bytes));
    assert forall|k: int| 0 <= k < f.gids.len() implies #[trigger] le_u32_at(p, 4 + 4 * k) == f.gids[k] by {
        lemma_read_array(p, w0, f.gids, sh_b + sbh_b + ns_b + f.s_bytes + oh_b + obh_b + nt_b + f.o_bytes, k);
    }
    assert forall|k: int| 0 <= k < f.s_heads.len() implies #[trigger] u32_entry(p, sh.s_heads_off, k) == Some(f.s_heads[k]) by {
        lemma_read_array(p, w0 + g, f.s_heads, sbh_b + ns_b + f.s_bytes + oh_b + obh_b + nt_b + f.o_bytes, k);
    }
    assert forall|k: int| 0 <= k < f.s_byte_heads.len() implies #[trigger] u32_entry(p, sh.s_byte_heads_off, k) == Some(f.s_byte_heads[k]) by {
        lemma_read_array(p, w0 + g + sh_b, f.s_byte_heads, ns_b + f.s_bytes + oh_b + obh_b + nt_b + f.o_bytes, k);
    }
    assert forall|k: int| 0 <= k < f.o_heads.len() implies #[trigger] u32_entry(p, sh.o_heads_off, k) == Some(f.o_heads[k]) by {
        lemma_read_array(p, w0 + g + sh_b + sbh_b + ns_b + f.s_bytes, f.o_heads, obh_b + nt_b + f.o_bytes, k);
    }
    assert forall|k: int| 0 <= k < f.o_byte_heads.len() implies #[trigger] u32_entry(p, sh.o_byte_heads_off, k) == Some(f.o_byte_heads[k]) by {
        lemma_read_array(p, w0 + g + sh_b + sbh_b + ns_b + f.s_bytes + oh_b, f.o_byte_heads, nt_b + f.o_bytes, k);
    }
    // the stream length recorded last in the outer byte heads
    assert(u32_entry(p, sh.s_byte_heads_off, f.gids.len() as int) == Some(f.s_byte_heads[f.gids.len() as int]));
    assert(p.subrange(sh.s_vals_off, sh.s_vals_off + f.s_bytes.len()) =~= f.s_bytes);
    assert(p.subrange(sh.o_vals_off, sh.o_vals_off + f.o_bytes.len()) =~= f.o_bytes);
}

// ---------------------------------------------------------------- decoding

/// The tuples of one predicate, sorted, fitting the posting's `u32` fields.
pub open spec fn posting_ready(ts: Seq<IdxTuple>) -> bool {
    &&& tuples_sorted(ts)
    &&& forall|k: int| 0 <= k < ts.len() ==> #[trigger] ts[k].0 == ts[0].0
    &&& ts.len() <= u32::MAX
    &&& block_bytes(ts).len() <= u32::MAX
}

/// Consecutive tuples of one predicate are ordered by group, outer and
/// inner value.
proof fn lemma_consecutive(ts: Seq<IdxTuple>, k: int)
    requires
        posting_ready(ts),
        0 < k < ts.len(),
    ensures
        ts[k - 1].1 <= ts[k].1,
        ts[k - 1].1 == ts[k].1 ==> ts[k - 1].2 <= ts[k].2,
        ts[k - 1].1 == ts[k].1 && ts[k - 1].2 == ts[k].2 ==> ts[k - 1].3 <= ts[k].3,
{
    assert(tuple_le(ts[k - 1], ts[k]));
    assert(ts[k - 1].0 == ts[0].0 && ts[k].0 == ts[0].0);
}

/// The tuples of a row share its group and outer value.
proof fn lemma_row_same(ts: Seq<IdxTuple>, i: int, k: int)
    requires
        0 <= i <= k < row_end(ts, i),
        i < ts.len(),
    ensures
        ts[k].1 == ts[i].1,
        ts[k].2 == ts[i].2,
    decreases k - i,
{
    lemma_row_end(ts, i);
    if k > i {
        lemma_row_same(ts, i, k - 1);
        assert(!opens_row(ts, k));
    }
}

/// The tuples of a group share its id.
proof fn lemma_gid_same(ts: Seq<IdxTuple>, g: int, k: int)
    requires
        0 <= g <= k < gid_end(ts, g),
        g < ts.len(),
    ensures
        ts[k].1 == ts[g].1,
    decreases k - g,
{
    lemma_gid_end(ts, g);
    if k > g {
        lemma_gid_same(ts, g, k - 1);
        assert(!opens_gid(ts, k));
    }
}

/// Reading the varint `v` placed at `off` of `p`, given as `p[off..end]`.
proof fn lemma_read_placed(p: Seq<u8>, off: int, end: int, v: u64)
    requires
        0 <= off <= end <= p.len(),
        p.subrange(off, end) == uvarint_bytes(v),
    ensures
        spec_read_uvarint(p, off) == Some((v, end)),
{
    let a = p.subrange(0, off);
    let b = p.subrange(end, p.len() as int);
    assert(p =~= a + uvarint_bytes(v) + b);
    lemma_uvarint_roundtrip(a, v, b);
}

/// The bytes a stream gained between two prefixes of it, placed in `p`.
proof fn lemma_stream_piece(p: Seq<u8>, base: int, full: Seq<u8>, x: Seq<u8>, y: Seq<u8>)
    requires
        0 <= base,
        base + full.len() <= p.len(),
        p.subrange(base, base + full.len()) == full,
        pre(y, full),
        pre(x, y),
    ensures
        p.subrange(base + x.len(), base + y.len()) == y.subrange(x.len() as int, y.len() as int),
{
    assert forall|t: int| 0 <= t < y.len() - x.len() implies
        #[trigger] p.subrange(base + x.len(), base + y.len())[t] == y.subrange(x.len() as int, y.len() as int)[t] by {
        assert(p.subrange(base, base + full.len())[x.len() + t] == full[x.len() + t]);
        assert(full[x.len() + t] == y[x.len() + t]);
    }
    assert(p.subrange(base + x.len(), base + y.len()) =~= y.subrange(x.len() as int, y.len() as int));
}

/// The inner run of the row opened by tuple `i`, read from tuple `k` on.
#[verifier::rlimit(40)]
proof fn lemma_o_run(ts: Seq<IdxTuple>, i: int, k: int)
    requires
        posting_ready(ts),
        0 <= i <= k <= row_end(ts, i),
        i < ts.len(),
        opens_row(ts, i),
    ensures
        run_vals(
            block_bytes(ts),
            layout_of(ts).o_vals_off + st(ts, k).o_bytes.len(),
            (row_end(ts, i) - k) as nat,
            if k == i { None } else { Some(ts[k - 1].3) },
        ) == (ts.subrange(k, row_end(ts, i)).map_values(|t: IdxTuple| t.3), true),
    decreases row_end(ts, i) - k,
{
    let j = row_end(ts, i);
    let n = ts.len() as int;
    lemma_row_end(ts, i);
    if k == j {
        assert(ts.subrange(k, j).map_values(|t: IdxTuple| t.3) =~= Seq::<u64>::empty());
    } else {
        let p = block_bytes(ts);
        let sh = layout_of(ts);
        let f = fin(ts);
        lemma_layout(ts);
        lemma_fin_lengths(ts);
        lemma_prefix(ts, k + 1, n);
        lemma_prefix(ts, k, k + 1);
        let d: u64 = if k == i {
            lemma_row_open(ts, i);
            ts[i].3
        } else {
            lemma_row_continue(ts, k);
            lemma_row_same(ts, i, k);
            lemma_row_same(ts, i, k - 1);
            lemma_consecutive(ts, k);
            (ts[k].3 - ts[k - 1].3) as u64
        };
        let x = st(ts, k).o_bytes;
        let y = st(ts, k + 1).o_bytes;
        assert(y == x + uvarint_bytes(d));
        lemma_stream_piece(p, sh.o_vals_off, f.o_bytes, x, y);
        assert(y.subrange(x.len() as int, y.len() as int) =~= uvarint_bytes(d));
        lemma_read_placed(p, sh.o_vals_off + x.len(), sh.o_vals_off + y.len(), d);
        assert(step_val(if k == i { None } else { Some(ts[k - 1].3) }, d) == Some(ts[k].3));
        lemma_o_run(ts, i, k + 1);
        assert(ts.subrange(k, j).map_values(|t: IdxTuple| t.3)
            =~= seq![ts[k].3] + ts.subrange(k + 1, j).map_values(|t: IdxTuple| t.3));
    }
}

/// A row ends no later than a group that ends at a row opener (or the end).
proof fn lemma_row_within(ts: Seq<IdxTuple>, i: int, e: int)
    requires
        0 <= i < e <= ts.len(),
        e == ts.len() || opens_row(ts, e),
    ensures
        row_end(ts, i) <= e,
{
    lemma_row_end(ts, i);
}

/// The (outer, inner) pairs of tuples.
pub open spec fn pair_seq(ts: Seq<IdxTuple>) -> Seq<(u64, u64)> {
    ts.map_values(|t: IdxTuple| (t.2, t.3))
}

/// The rows of the group opened by tuple `g`, read from the row opened by
/// tuple `i` on.
#[verifier::rlimit(80)]
proof fn lemma_rows(ts: Seq<IdxTuple>, g: int, i: int)
    requires
        posting_ready(ts),
        0 <= g < ts.len(),
        opens_gid(ts, g),
        g <= i <= gid_end(ts, g),
        i == gid_end(ts, g) || opens_row(ts, i),
    ensures
        rows_from(
            block_bytes(ts),
            inner_of(layout_of(ts)),
            st(ts, i).n_s as int,
            st(ts, gid_end(ts, g)).n_s as int,
            layout_of(ts).s_vals_off + st(ts, i).s_bytes.len(),
            if i == g { None } else { Some(ts[i - 1].2) },
        ) == pair_seq(ts.subrange(i, gid_end(ts, g))),
    decreases gid_end(ts, g) - i,
{
    let e = gid_end(ts, g);
    let n = ts.len() as int;
    lemma_gid_end(ts, g);
    if i == e {
        assert(pair_seq(ts.subrange(i, e)) =~= Seq::<(u64, u64)>::empty());
    } else {
        let p = block_bytes(ts);
        let sh = layout_of(ts);
        let ish = inner_of(sh);
        let f = fin(ts);
        let j = row_end(ts, i);
        lemma_layout(ts);
        lemma_fin_lengths(ts);
        lemma_fin_row(ts, i);
        lemma_row_end(ts, i);
        if e < n {
            lemma_gid_open(ts, e);
        }
        lemma_row_within(ts, i, e);
        lemma_prefix(ts, j, e);
        lemma_prefix(ts, i + 1, n);
        lemma_prefix(ts, i, i + 1);
        lemma_prefix(ts, i, n);
        lemma_row_open(ts, i);
        let r = st(ts, i).n_s as int;
        // the outer value
        let sd: u64 = if i == g {
            ts[i].2
        } else {
            assert(!opens_gid(ts, i));
            lemma_gid_same(ts, g, i - 1);
            lemma_gid_same(ts, g, i);
            lemma_consecutive(ts, i);
            (ts[i].2 - ts[i - 1].2) as u64
        };
        assert(opens_gid(ts, i) == (i == g));
        let x = st(ts, i).s_bytes;
        let y = st(ts, i + 1).s_bytes;
        assert(y == x + uvarint_bytes(sd));
        lemma_stream_piece(p, sh.s_vals_off, f.s_bytes, x, y);
        assert(y.subrange(x.len() as int, y.len() as int) =~= uvarint_bytes(sd));
        lemma_read_placed(p, sh.s_vals_off + x.len(), sh.s_vals_off + y.len(), sd);
        let prev = if i == g { None } else { Some(ts[i - 1].2) };
        assert(step_val(prev, sd) == Some(ts[i].2));
        // the row's inner run
        assert(u32_entry(p, sh.o_heads_off, r) == Some(f.o_heads[r]));
        assert(u32_entry(p, sh.o_heads_off, r + 1) == Some(f.o_heads[r + 1]));
        assert(u32_entry(p, sh.o_byte_heads_off, r) == Some(f.o_byte_heads[r]));
        assert(st(ts, i).o_bytes.len() <= f.o_bytes.len());
        lemma_o_run(ts, i, i);
        let run = run_vals(p, ish.o_vals_off + f.o_byte_heads[r], (j - i) as nat, None);
        assert(run == (ts.subrange(i, j).map_values(|t: IdxTuple| t.3), true));
        // the rest of the group
        if j < e {
            lemma_row_same(ts, i, j - 1);
            lemma_rows(ts, g, j);
        } else {
            lemma_rows(ts, g, j);
        }
        assert forall|k: int| i <= k < j implies ts[k].2 == ts[i].2 by {
            lemma_row_same(ts, i, k);
        }
        assert(pairs_with(ts[i].2, ts.subrange(i, j).map_values(|t: IdxTuple| t.3))
            =~= pair_seq(ts.subrange(i, j)));
        assert(pair_seq(ts.subrange(i, e)) =~= pair_seq(ts.subrange(i, j)) + pair_seq(ts.subrange(j, e)));
        assert(r < st(ts, e).n_s);
    }
}

/// Each tuple as (group, outer, inner).
pub open spec fn triple_seq(ts: Seq<IdxTuple>) -> Seq<(u64, u64, u64)> {
    ts.map_values(|t: IdxTuple| (t.1 as u64, t.2, t.3))
}

/// The block of the group opened by tuple `g` decodes to the group's pairs.
#[verifier::rlimit(40)]
proof fn lemma_block(ts: Seq<IdxTuple>, g: int)
    requires
        posting_ready(ts),
        0 <= g < ts.len(),
        opens_gid(ts, g),
    ensures
        spec_block_pairs(block_bytes(ts), layout_of(ts), st(ts, g).gids.len() as int)
            == pair_seq(ts.subrange(g, gid_end(ts, g))),
{
    let p = block_bytes(ts);
    let sh = layout_of(ts);
    let f = fin(ts);
    let k = st(ts, g).gids.len() as int;
    lemma_layout(ts);
    lemma_fin_lengths(ts);
    lemma_fin_gid(ts, g);
    lemma_gid_end(ts, g);
    let e = gid_end(ts, g);
    assert(u32_entry(p, sh.s_heads_off, k) == Some(f.s_heads[k]));
    assert(u32_entry(p, sh.s_heads_off, k + 1) == Some(f.s_heads[k + 1]));
    assert(u32_entry(p, sh.s_byte_heads_off, k) == Some(f.s_byte_heads[k]));
    lemma_prefix(ts, g, ts.len() as int);
    assert(st(ts, g).s_bytes.len() <= f.s_bytes.len());
    lemma_gid_open(ts, g);
    lemma_rows(ts, g, g);
}

/// The blocks of the groups from the one opened by tuple `g` on decode to
/// the remaining tuples.
proof fn lemma_blocks_from(ts: Seq<IdxTuple>, g: int)
    requires
        posting_ready(ts),
        0 <= g <= ts.len(),
        g == ts.len() || opens_gid(ts, g),
        spec_all_blocks(block_bytes(ts), layout_of(ts), st(ts, g).gids.len() as int)
            == triple_seq(ts.subrange(0, g)),
    ensures
        spec_all_blocks(block_bytes(ts), layout_of(ts), layout_of(ts).n_gids) == triple_seq(ts),
    decreases ts.len() - g,
{
    let n = ts.len() as int;
    let p = block_bytes(ts);
    let sh = layout_of(ts);
    lemma_fin_lengths(ts);
    if g == n {
        assert(ts.subrange(0, n) =~= ts);
    } else {
        let e = gid_end(ts, g);
        let k = st(ts, g).gids.len() as int;
        lemma_gid_end(ts, g);
        lemma_fin_gid(ts, g);
        lemma_layout(ts);
        lemma_block(ts, g);
        assert(spec_gids(p, sh)[k] == ts[g].1 as u64);
        assert forall|m: int| g <= m < e implies ts[m].1 == ts[g].1 by {
            lemma_gid_same(ts, g, m);
        }
        assert(with_gid(ts[g].1 as u64, pair_seq(ts.subrange(g, e))) =~= triple_seq(ts.subrange(g, e)));
        assert(triple_seq(ts.subrange(0, e)) =~= triple_seq(ts.subrange(0, g)) + triple_seq(ts.subrange(g, e)));
        assert(spec_all_blocks(p, sh, k + 1) == spec_all_blocks(p, sh, k) + with_gid(spec_gids(p, sh)[k], spec_block_pairs(p, sh, k)));
        lemma_blocks_from(ts, e);
    }
}

/// Decoding the posting of sorted tuples of one predicate gives back every
/// tuple as (graph group, outer value, inner value), in order, and its
/// header counts one triple per tuple.
pub proof fn lemma_posting_roundtrip(ts: Seq<IdxTuple>)
    requires
        posting_ready(ts),
    ensures
        spec_parse_posting(block_bytes(ts)) matches Some(sh)
            && spec_all_blocks(block_bytes(ts), sh, sh.n_gids) == triple_seq(ts)
            && sh.n_t == ts.len(),
{
    lemma_layout(ts);
    lemma_shape(ts, 0);
    assert(triple_seq(ts.subrange(0, 0)) =~= Seq::<(u64, u64, u64)>::empty());
    lemma_blocks_from(ts, 0);
}

} // verus!
