//! Little-endian fixed-width integer access on byte buffers.
use vstd::prelude::*;
use vstd::bytes::*;

verus! {

/// The `u16` stored little-endian at `buf[off..off + 2]`.
pub open spec fn le_u16_at(buf: Seq<u8>, off: int) -> u16 {
    spec_u16_from_le_bytes(buf.subrange(off, off + 2))
}

/// The `u32` stored little-endian at `buf[off..off + 4]`.
pub open spec fn le_u32_at(buf: Seq<u8>, off: int) -> u32 {
    spec_u32_from_le_bytes(buf.subrange(off, off + 4))
}

/// The `u64` stored little-endian at `buf[off..off + 8]`.
pub open spec fn le_u64_at(buf: Seq<u8>, off: int) -> u64 {
    spec_u64_from_le_bytes(buf.subrange(off, off + 8))
}

/// Read a little-endian `u16` at `off`.
pub fn read_u16_at(buf: &[u8], off: usize) -> (v: u16)
    requires
        off + 2 <= buf@.len(),
    ensures
        v == le_u16_at(buf@, off as int),
{
    let _len = buf.len();
    u16_from_le_bytes(&buf[off..off + 2])
}

/// Read a little-endian `u32` at `off`.
pub fn read_u32_at(buf: &[u8], off: usize) -> (v: u32)
    requires
        off + 4 <= buf@.len(),
    ensures
        v == le_u32_at(buf@, off as int),
{
    let _len = buf.len();
    u32_from_le_bytes(&buf[off..off + 4])
}

/// Read a little-endian `u64` at `off`.
pub fn read_u64_at(buf: &[u8], off: usize) -> (v: u64)
    requires
        off + 8 <= buf@.len(),
    ensures
        v == le_u64_at(buf@, off as int),
{
    let _len = buf.len();
    u64_from_le_bytes(&buf[off..off + 8])
}

/// Append the little-endian bytes of `v`.
pub fn push_u16(out: &mut Vec<u8>, v: u16)
    ensures
        final(out)@ == old(out)@ + spec_u16_to_le_bytes(v),
{
    let mut b = u16_to_le_bytes(v);
    out.append(&mut b);
}

/// Append the little-endian bytes of `v`.
pub fn push_u32(out: &mut Vec<u8>, v: u32)
    ensures
        final(out)@ == old(out)@ + spec_u32_to_le_bytes(v),
{
    let mut b = u32_to_le_bytes(v);
    out.append(&mut b);
}

/// Append the little-endian bytes of `v`.
pub fn push_u64(out: &mut Vec<u8>, v: u64)
    ensures
        final(out)@ == old(out)@ + spec_u64_to_le_bytes(v),
{
    let mut b = u64_to_le_bytes(v);
    out.append(&mut b);
}

/// Reading back an appended little-endian value gives the value.
pub proof fn lemma_read_pushed(prefix: Seq<u8>, rest: Seq<u8>)
    ensures
        forall|v: u16| #![trigger spec_u16_to_le_bytes(v)]
            le_u16_at(prefix + spec_u16_to_le_bytes(v) + rest, prefix.len() as int) == v,
        forall|v: u32| #![trigger spec_u32_to_le_bytes(v)]
            le_u32_at(prefix + spec_u32_to_le_bytes(v) + rest, prefix.len() as int) == v,
        forall|v: u64| #![trigger spec_u64_to_le_bytes(v)]
            le_u64_at(prefix + spec_u64_to_le_bytes(v) + rest, prefix.len() as int) == v,
{
    lemma_auto_spec_u16_to_from_le_bytes();
    lemma_auto_spec_u32_to_from_le_bytes();
    lemma_auto_spec_u64_to_from_le_bytes();
    assert forall|v: u16| #![trigger spec_u16_to_le_bytes(v)]
        le_u16_at(prefix + spec_u16_to_le_bytes(v) + rest, prefix.len() as int) == v by {
        let b = spec_u16_to_le_bytes(v);
        assert((prefix + b + rest).subrange(prefix.len() as int, prefix.len() + 2int) =~= b);
    }
    assert forall|v: u32| #![trigger spec_u32_to_le_bytes(v)]
        le_u32_at(prefix + spec_u32_to_le_bytes(v) + rest, prefix.len() as int) == v by {
        let b = spec_u32_to_le_bytes(v);
        assert((prefix + b + rest).subrange(prefix.len() as int, prefix.len() + 4int) =~= b);
    }
    assert forall|v: u64| #![trigger spec_u64_to_le_bytes(v)]
        le_u64_at(prefix + spec_u64_to_le_bytes(v) + rest, prefix.len() as int) == v by {
        let b = spec_u64_to_le_bytes(v);
        assert((prefix + b + rest).subrange(prefix.len() as int, prefix.len() + 8int) =~= b);
    }
}


/// Append the bytes of `b`.
pub fn extend_bytes(out: &mut Vec<u8>, b: &[u8])
    ensures
        final(out)@ == old(out)@ + b@,
{
    let mut i: usize = 0;
    while i < b.len()
        invariant
            i <= b@.len(),
            out@ == old(out)@ + b@.subrange(0, i as int),
        decreases b@.len() - i,
    {
        out.push(b[i]);
        assert(b@.subrange(0, i + 1) =~= b@.subrange(0, i as int).push(b@[i as int]));
        i = i + 1;
    }
    assert(b@.subrange(0, b@.len() as int) =~= b@);
}

/// The little-endian bytes of each value of `xs`, in order.
pub open spec fn u32s_le(xs: Seq<u32>) -> Seq<u8>
    decreases xs.len(),
{
    if xs.len() == 0 {
        seq![]
    } else {
        u32s_le(xs.drop_last()) + spec_u32_to_le_bytes(xs.last())
    }
}

/// The little-endian bytes of each value of `xs`, in order.
pub open spec fn u64s_le(xs: Seq<u64>) -> Seq<u8>
    decreases xs.len(),
{
    if xs.len() == 0 {
        seq![]
    } else {
        u64s_le(xs.drop_last()) + spec_u64_to_le_bytes(xs.last())
    }
}

/// Append the little-endian bytes of each value of `xs`.
pub fn push_u32s(out: &mut Vec<u8>, xs: &Vec<u32>)
    ensures
        final(out)@ == old(out)@ + u32s_le(xs@),
{
    let mut i: usize = 0;
    while i < xs.len()
        invariant
            i <= xs@.len(),
            out@ == old(out)@ + u32s_le(xs@.subrange(0, i as int)),
        decreases xs@.len() - i,
    {
        push_u32(out, xs[i]);
        assert(xs@.subrange(0, i + 1).drop_last() =~= xs@.subrange(0, i as int));
        i = i + 1;
    }
    assert(xs@.subrange(0, xs@.len() as int) =~= xs@);
}

/// Append the little-endian bytes of each value of `xs`.
pub fn push_u64s(out: &mut Vec<u8>, xs: &Vec<u64>)
    ensures
        final(out)@ == old(out)@ + u64s_le(xs@),
{
    let mut i: usize = 0;
    while i < xs.len()
        invariant
            i <= xs@.len(),
            out@ == old(out)@ + u64s_le(xs@.subrange(0, i as int)),
        decreases xs@.len() - i,
    {
        push_u64(out, xs[i]);
        assert(xs@.subrange(0, i + 1).drop_last() =~= xs@.subrange(0, i as int));
        i = i + 1;
    }
    assert(xs@.subrange(0, xs@.len() as int) =~= xs@);
}

/// The encoding of `n` values takes four bytes each.
pub proof fn lemma_u32s_le_len(xs: Seq<u32>)
    ensures
        u32s_le(xs).len() == 4 * xs.len(),
    decreases xs.len(),
{
    if xs.len() > 0 {
        lemma_u32s_le_len(xs.drop_last());
        lemma_auto_spec_u32_to_from_le_bytes();
    }
}

/// The encoding of `n` values takes eight bytes each.
pub proof fn lemma_u64s_le_len(xs: Seq<u64>)
    ensures
        u64s_le(xs).len() == 8 * xs.len(),
    decreases xs.len(),
{
    if xs.len() > 0 {
        lemma_u64s_le_len(xs.drop_last());
        lemma_auto_spec_u64_to_from_le_bytes();
    }
}

/// The bytes of `p` from `off` on are `x`: any piece of `x` is that piece of `p`.
pub proof fn lemma_sub_piece(p: Seq<u8>, off: int, x: Seq<u8>, a: int, b: int)
    requires
        0 <= off,
        off + x.len() <= p.len(),
        p.subrange(off, off + x.len()) == x,
        0 <= a <= b <= x.len(),
    ensures
        p.subrange(off + a, off + b) == x.subrange(a, b),
{
    assert forall|t: int| 0 <= t < b - a implies #[trigger] p.subrange(off + a, off + b)[t] == x.subrange(a, b)[t] by {
        assert(p.subrange(off, off + x.len())[a + t] == x[a + t]);
    }
    assert(p.subrange(off + a, off + b) =~= x.subrange(a, b));
}

/// `x` stands in `s` at offset `off`.
pub open spec fn placed(s: Seq<u8>, off: int, x: Seq<u8>) -> bool {
    0 <= off && off + x.len() <= s.len() && s.subrange(off, off + x.len()) == x
}

/// Both parts of a concatenation stand in it.
pub proof fn lemma_cat(p: Seq<u8>, q: Seq<u8>)
    ensures
        placed(p + q, 0, p),
        placed(p + q, p.len() as int, q),
{
    assert((p + q).subrange(0, p.len() as int) =~= p);
    assert((p + q).subrange(p.len() as int, (p.len() + q.len()) as int) =~= q);
}

/// What stands in a piece of `s` stands in `s`.
pub proof fn lemma_within(s: Seq<u8>, off: int, t: Seq<u8>, o2: int, x: Seq<u8>)
    requires
        placed(s, off, t),
        placed(t, o2, x),
    ensures
        placed(s, off + o2, x),
{
    lemma_sub_piece(s, off, t, o2, o2 + x.len());
}

/// Fixed-width values read back where their bytes stand.
pub proof fn lemma_read_placed(s: Seq<u8>, off: int)
    ensures
        forall|v: u16| #![trigger spec_u16_to_le_bytes(v)]
            placed(s, off, spec_u16_to_le_bytes(v)) ==> le_u16_at(s, off) == v,
        forall|v: u32| #![trigger spec_u32_to_le_bytes(v)]
            placed(s, off, spec_u32_to_le_bytes(v)) ==> le_u32_at(s, off) == v,
        forall|v: u64| #![trigger spec_u64_to_le_bytes(v)]
            placed(s, off, spec_u64_to_le_bytes(v)) ==> le_u64_at(s, off) == v,
{
    lemma_auto_spec_u16_to_from_le_bytes();
    lemma_auto_spec_u32_to_from_le_bytes();
    lemma_auto_spec_u64_to_from_le_bytes();
}

} // verus!
