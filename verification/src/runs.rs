//! The spilled form of a sorted run of the streaming writer: each record as
//! 32 little-endian bytes, the id and graph-name ids as `u32`, then the
//! subject, predicate and object ids as `u64`.
use vstd::prelude::*;
use vstd::bytes::*;
use crate::le::{lemma_cat, lemma_read_placed, lemma_within, le_u32_at, le_u64_at, placed, push_u32, push_u64,
    read_u32_at, read_u64_at};
use crate::writer::Encoded;

verus! {

/// The 32 bytes of one record.
pub open spec fn record_bytes(r: Encoded) -> Seq<u8> {
    spec_u32_to_le_bytes(r.0) + spec_u32_to_le_bytes(r.1) + spec_u64_to_le_bytes(r.2) + spec_u64_to_le_bytes(r.3)
        + spec_u64_to_le_bytes(r.4)
}

/// The bytes of a run: its records one after the other.
pub open spec fn run_bytes(rs: Seq<Encoded>) -> Seq<u8>
    decreases rs.len(),
{
    if rs.len() == 0 {
        seq![]
    } else {
        run_bytes(rs.drop_last()) + record_bytes(rs.last())
    }
}

/// The record whose bytes start at `off`.
pub open spec fn record_at(b: Seq<u8>, off: int) -> Encoded {
    (le_u32_at(b, off), le_u32_at(b, off + 4), le_u64_at(b, off + 8), le_u64_at(b, off + 16), le_u64_at(b, off + 24))
}

/// The records of run bytes: `None` unless the length is a multiple of 32.
pub open spec fn spec_decode_run(b: Seq<u8>) -> Option<Seq<Encoded>> {
    if b.len() % 32 != 0 {
        None
    } else {
        Some(Seq::new((b.len() / 32) as nat, |i: int| record_at(b, 32 * i)))
    }
}

/// A record reads back where its bytes stand.
proof fn lemma_record_read(s: Seq<u8>, off: int, r: Encoded)
    requires
        placed(s, off, record_bytes(r)),
    ensures
        record_at(s, off) == r,
{
    lemma_auto_spec_u32_to_from_le_bytes();
    lemma_auto_spec_u64_to_from_le_bytes();
    let a = spec_u32_to_le_bytes(r.0);
    let b = spec_u32_to_le_bytes(r.1);
    let c = spec_u64_to_le_bytes(r.2);
    let d = spec_u64_to_le_bytes(r.3);
    let e = spec_u64_to_le_bytes(r.4);
    let ab = a + b;
    let abc = ab + c;
    let abcd = abc + d;
    lemma_cat(abcd, e);
    lemma_cat(abc, d);
    lemma_cat(ab, c);
    lemma_cat(a, b);
    lemma_within(s, off, abcd + e, 0, abcd);
    lemma_within(s, off, abcd, 0, abc);
    lemma_within(s, off, abc, 0, ab);
    lemma_within(s, off, ab, 0, a);
    lemma_within(s, off, ab, 4, b);
    lemma_within(s, off, abc, 8, c);
    lemma_within(s, off, abcd, 16, d);
    lemma_within(s, off, abcd + e, 24, e);
    lemma_read_placed(s, off);
    lemma_read_placed(s, off + 4);
    lemma_read_placed(s, off + 8);
    lemma_read_placed(s, off + 16);
    lemma_read_placed(s, off + 24);
}

/// Run bytes hold 32 bytes per record, record `i` at `32 * i`.
proof fn lemma_run_layout(rs: Seq<Encoded>)
    ensures
        run_bytes(rs).len() == 32 * rs.len(),
        forall|i: int| 0 <= i < rs.len() ==> #[trigger] record_at(run_bytes(rs), 32 * i) == rs[i],
    decreases rs.len(),
{
    lemma_auto_spec_u32_to_from_le_bytes();
    lemma_auto_spec_u64_to_from_le_bytes();
    if rs.len() > 0 {
        let init = rs.drop_last();
        lemma_run_layout(init);
        let p = run_bytes(init);
        let x = record_bytes(rs.last());
        lemma_cat(p, x);
        assert forall|i: int| 0 <= i < rs.len() implies #[trigger] record_at(run_bytes(rs), 32 * i) == rs[i] by {
            if i < init.len() {
                assert(record_at(p, 32 * i) == init[i]);
                assert(placed(p, 32 * i, record_bytes(init[i]))) by {
                    lemma_record_placed_in(init, i);
                }
                lemma_within(p + x, 0, p, 32 * i, record_bytes(init[i]));
                lemma_record_read(p + x, 32 * i, init[i]);
            } else {
                lemma_record_read(p + x, p.len() as int, rs.last());
            }
        }
    }
}

/// Record `i` of a run stands at `32 * i` of its bytes.
proof fn lemma_record_placed_in(rs: Seq<Encoded>, i: int)
    requires
        0 <= i < rs.len(),
    ensures
        placed(run_bytes(rs), 32 * i, record_bytes(rs[i])),
    decreases rs.len(),
{
    lemma_auto_spec_u32_to_from_le_bytes();
    lemma_auto_spec_u64_to_from_le_bytes();
    let init = rs.drop_last();
    let p = run_bytes(init);
    let x = record_bytes(rs.last());
    lemma_cat(p, x);
    lemma_run_len(init);
    if i < init.len() {
        lemma_record_placed_in(init, i);
        lemma_within(p + x, 0, p, 32 * i, record_bytes(init[i]));
    }
}

/// Run bytes hold 32 bytes per record.
proof fn lemma_run_len(rs: Seq<Encoded>)
    ensures
        run_bytes(rs).len() == 32 * rs.len(),
    decreases rs.len(),
{
    lemma_auto_spec_u32_to_from_le_bytes();
    lemma_auto_spec_u64_to_from_le_bytes();
    if rs.len() > 0 {
        lemma_run_len(rs.drop_last());
    }
}

/// Decoding the bytes of a run gives back its records.
pub proof fn lemma_decode_run(rs: Seq<Encoded>)
    ensures
        spec_decode_run(run_bytes(rs)) == Some(rs),
{
    lemma_run_layout(rs);
    let b = run_bytes(rs);
    assert(b.len() % 32 == 0 && b.len() / 32 == rs.len());
    assert(Seq::new((b.len() / 32) as nat, |i: int| record_at(b, 32 * i)) =~= rs);
}

/// The bytes of a run.
pub fn encode_run(run: &Vec<Encoded>) -> (r: Vec<u8>)
    ensures
        r@ == run_bytes(run@),
{
    let mut out: Vec<u8> = Vec::new();
    let mut k: usize = 0;
    while k < run.len()
        invariant
            k <= run@.len(),
            out@ == run_bytes(run@.take(k as int)),
        decreases run@.len() - k,
    {
        let r = run[k];
        let ghost before = out@;
        push_u32(&mut out, r.0);
        push_u32(&mut out, r.1);
        push_u64(&mut out, r.2);
        push_u64(&mut out, r.3);
        push_u64(&mut out, r.4);
        assert(run@.take(k + 1).drop_last() =~= run@.take(k as int));
        assert(out@ =~= before + record_bytes(r));
        k = k + 1;
    }
    assert(run@.take(run@.len() as int) =~= run@);
    out
}

/// The records of run bytes, when the length is a multiple of 32.
pub fn decode_run(b: &Vec<u8>) -> (r: Option<Vec<Encoded>>)
    ensures
        match spec_decode_run(b@) {
            None => r is None,
            Some(v) => r matches Some(x) && x@ == v,
        },
{
    if b.len() % 32 != 0 {
        return None;
    }
    let len = b.len();
    let n = len / 32;
    assert(32 * n == b@.len());
    let mut out: Vec<Encoded> = Vec::new();
    let mut i: usize = 0;
    while i < n
        invariant
            i <= n,
            n == b@.len() / 32,
            32 * n == b@.len(),
            b@.len() <= usize::MAX,
            b@.len() % 32 == 0,
            out@.len() == i,
            forall|j: int| 0 <= j < i ==> #[trigger] out@[j] == record_at(b@, 32 * j),
        decreases n - i,
    {
        let o = 32 * i;
        let rec: Encoded = (read_u32_at(b.as_slice(), o), read_u32_at(b.as_slice(), o + 4),
            read_u64_at(b.as_slice(), o + 8), read_u64_at(b.as_slice(), o + 16), read_u64_at(b.as_slice(), o + 24));
        out.push(rec);
        i = i + 1;
    }
    assert(out@ =~= Seq::new((b@.len() / 32) as nat, |j: int| record_at(b@, 32 * j)));
    Some(out)
}

} // verus!
