//! LEB128 unsigned variable-length integers, as used throughout the format.
use vstd::prelude::*;

verus! {

/// The LEB128 encoding of `v`: seven bits per byte, least significant group
/// first, the high bit set on every byte but the last.
pub open spec fn uvarint_bytes(v: u64) -> Seq<u8>
    decreases v,
{
    if v >> 7u64 == 0 {
        seq![v as u8]
    } else {
        proof {
            lemma_shift_decreases(v);
        }
        seq![((v & 0x7f) | 0x80) as u8] + uvarint_bytes(v >> 7u64)
    }
}

/// Shifting a nonzero-after-shift value right by seven makes it smaller.
pub proof fn lemma_shift_decreases(v: u64)
    ensures
        v >> 7u64 != 0 ==> v >> 7u64 < v,
{
    assert(v >> 7u64 != 0 ==> v >> 7u64 < v) by (bit_vector);
}

/// Decoding state of the reader: `i` bytes consumed from `off`, value so far `x`.
/// At most ten bytes are read; the seventh-bit groups are shifted in with
/// `u64` shift semantics (bits shifted past bit 63 are dropped).
pub open spec fn uvarint_from(buf: Seq<u8>, off: int, i: nat, x: u64) -> Option<(u64, int)>
    decreases 10 - i,
{
    if i >= 10 {
        None
    } else if off + i >= buf.len() {
        None
    } else {
        let b = buf[off + i];
        let x2 = x | (((b & 0x7f) as u64) << ((7 * i) as u64));
        if b & 0x80 == 0 {
            Some((x2, off + i + 1))
        } else {
            uvarint_from(buf, off, i + 1, x2)
        }
    }
}

/// The value and the offset just past it, when a varint can be read at `off`.
pub open spec fn spec_read_uvarint(buf: Seq<u8>, off: int) -> Option<(u64, int)> {
    uvarint_from(buf, off, 0, 0)
}

/// Append the LEB128 encoding of `v` to `out`.
pub fn push_uvarint(v: u64, out: &mut Vec<u8>)
    ensures
        final(out)@ == old(out)@ + uvarint_bytes(v),
{
    let ghost target = old(out)@ + uvarint_bytes(v);
    let mut v = v;
    loop
        invariant_except_break
            out@ + uvarint_bytes(v) == target,
        ensures
            out@ == target,
        decreases v,
    {
        let ghost before = v;
        let mut b = (v & 0x7f) as u8;
        v = v >> 7;
        if v != 0 {
            b = b | 0x80;
        }
        proof {
            lemma_shift_decreases(before);
            assert(v == 0 ==> (before & 0x7f) as u8 == before as u8) by (bit_vector)
                requires v == before >> 7u64;
            assert(v != 0 ==> (((before & 0x7f) as u8) | 0x80u8) == ((before & 0x7f) | 0x80) as u8)
                by (bit_vector);
            if v == 0 {
                assert(uvarint_bytes(before) == seq![b]);
            } else {
                assert(uvarint_bytes(before) == seq![b] + uvarint_bytes(v));
            }
        }
        out.push(b);
        if v == 0 {
            assert(out@ =~= target);
            break;
        }
        assert(out@ + uvarint_bytes(v) =~= target);
    }
}

/// Number of bytes in the LEB128 encoding of `v`.
pub fn uvarint_len(v: u64) -> (n: usize)
    ensures
        n == uvarint_bytes(v).len(),
        1 <= n <= 10,
{
    proof {
        lemma_uvarint_len_bound(v);
    }
    let ghost v0 = v;
    let mut v = v;
    let mut len = 1usize;
    while v >= 0x80
        invariant
            1 <= len,
            len + uvarint_bytes(v).len() == uvarint_bytes(v0).len() + 1,
            uvarint_bytes(v0).len() <= 10,
        decreases v,
    {
        let ghost before = v;
        assert(before >= 0x80 ==> before >> 7u64 != 0) by (bit_vector);
        proof {
            lemma_shift_decreases(before);
        }
        v = v >> 7;
        len = len + 1;
    }
    assert(v < 0x80 ==> v >> 7u64 == 0) by (bit_vector);
    len
}

/// An encoding is between one and ten bytes long.
pub proof fn lemma_uvarint_len_bound(v: u64)
    ensures
        1 <= uvarint_bytes(v).len() <= 10,
{
    assert(v >> 0u64 == v) by (bit_vector);
    lemma_uvarint_len_shift(v, 0);
}

proof fn lemma_uvarint_len_shift(v: u64, k: u64)
    requires
        k <= 9,
    ensures
        1 <= uvarint_bytes(v >> mul7(k)).len() <= 10 - k,
    decreases 9 - k,
{
    let w = v >> mul7(k);
    if w >> 7u64 == 0 {
        assert(uvarint_bytes(w) == seq![w as u8]);
    } else {
        assert(k <= 9 && w == v >> mul7(k) && w >> 7u64 != 0 ==> k < 9 && w >> 7u64 == v >> mul7((k + 1) as u64))
            by (bit_vector);
        lemma_uvarint_len_shift(v, (k + 1) as u64);
        assert(uvarint_bytes(w) == seq![((w & 0x7f) | 0x80) as u8] + uvarint_bytes(w >> 7u64));
    }
}

/// Seven times `k`, as a shift amount.
pub open spec fn mul7(k: u64) -> u64 {
    (7 * k) as u64
}

/// Read a varint at `off`; `None` when the buffer ends first or ten bytes
/// pass without a terminating byte.
pub fn read_uvarint(buf: &[u8], off: usize) -> (r: Option<(u64, usize)>)
    ensures
        match r {
            Some((v, next)) => spec_read_uvarint(buf@, off as int) == Some((v, next as int)),
            None => spec_read_uvarint(buf@, off as int) is None,
        },
{
    let ghost off0 = off;
    let mut cur = off;
    let mut x: u64 = 0;
    let mut s: u32 = 0;
    let mut i: usize = 0;
    while i < 10
        invariant
            i <= 10,
            s == 7 * i,
            cur == off0 + i,
            off0 == off,
            uvarint_from(buf@, off0 as int, i as nat, x) == spec_read_uvarint(buf@, off0 as int),
        decreases 10 - i,
    {
        if cur >= buf.len() {
            assert(uvarint_from(buf@, off0 as int, i as nat, x) is None);
            return None;
        }
        let b = buf[cur] as u64;
        cur = cur + 1;
        let ghost xold = x;
        x = x | ((b & 0x7f) << s);
        proof {
            let bb = buf@[off0 + i];
            let sh = (7 * i) as u64;
            assert(s as u64 == sh);
            assert(x == xold | (((bb & 0x7f) as u64) << sh)) by (bit_vector)
                requires b == bb as u64, x == xold | ((b & 0x7f) << s), s as u64 == sh, s < 64;
            assert((b & 0x80 == 0) == (bb & 0x80 == 0)) by (bit_vector)
                requires b == bb as u64;
        }
        if b & 0x80 == 0 {
            assert(uvarint_from(buf@, off0 as int, i as nat, xold) == Some((x, cur as int)));
            return Some((x, cur));
        }
        s = s + 7;
        i = i + 1;
    }
    None
}

/// Reading back a written varint gives the value, whatever follows it.
pub proof fn lemma_uvarint_roundtrip(prefix: Seq<u8>, v: u64, rest: Seq<u8>)
    ensures
        spec_read_uvarint(prefix + uvarint_bytes(v) + rest, prefix.len() as int)
            == Some((v, (prefix.len() + uvarint_bytes(v).len()) as int)),
{
    let buf = prefix + uvarint_bytes(v) + rest;
    assert(v >> 0u64 == v) by (bit_vector);
    assert(v ^ ((v >> 0u64) << 0u64) == 0u64) by (bit_vector);
    assert(buf.subrange(prefix.len() as int, (prefix.len() + uvarint_bytes(v).len()) as int) =~= uvarint_bytes(v));
    lemma_decode_step(v, 0, buf, prefix.len() as int);
}

proof fn lemma_decode_step(v: u64, k: u64, buf: Seq<u8>, off: int)
    requires
        k <= 9,
        0 <= off,
        off + k + uvarint_bytes(v >> mul7(k)).len() <= buf.len(),
        buf.subrange(off + k, off + k + uvarint_bytes(v >> mul7(k)).len()) == uvarint_bytes(v >> mul7(k)),
        uvarint_bytes(v).len() == k + uvarint_bytes(v >> mul7(k)).len(),
    ensures
        uvarint_from(buf, off, k as nat, v ^ ((v >> mul7(k)) << mul7(k)))
            == Some((v, (off + uvarint_bytes(v).len()) as int)),
    decreases 9 - k,
{
    let w = v >> mul7(k);
    let enc = uvarint_bytes(w);
    lemma_uvarint_len_shift(v, k);
    let b = buf[off + k];
    assert(b == enc[0]);
    let x = v ^ ((v >> mul7(k)) << mul7(k));
    if w >> 7u64 == 0 {
        assert(b == w as u8);
        assert(k <= 9 && w == v >> mul7(k) && w >> 7u64 == 0 && b == w as u8 ==>
            (x | (((b & 0x7f) as u64) << mul7(k))) == v && b & 0x80 == 0)
            by (bit_vector) requires x == v ^ ((v >> mul7(k)) << mul7(k));
    } else {
        assert(b == ((w & 0x7f) | 0x80) as u8);
        assert(k <= 9 && w == v >> mul7(k) && w >> 7u64 != 0 && b == ((w & 0x7f) | 0x80) as u8 ==>
            k < 9 && b & 0x80 != 0 && w >> 7u64 == v >> mul7((k + 1) as u64)
            && (x | (((b & 0x7f) as u64) << mul7(k))) == v ^ ((v >> mul7((k + 1) as u64)) << mul7((k + 1) as u64)))
            by (bit_vector) requires x == v ^ ((v >> mul7(k)) << mul7(k));
        let k1 = (k + 1) as u64;
        let rest_enc = uvarint_bytes(w >> 7u64);
        assert(enc == seq![b] + rest_enc);
        assert(buf.subrange(off + k1, off + k1 + rest_enc.len()) =~= rest_enc) by {
            assert forall|j: int| 0 <= j < rest_enc.len() implies
                buf.subrange(off + k1, off + k1 + rest_enc.len())[j] == rest_enc[j] by {
                assert(buf.subrange(off + k, off + k + enc.len())[j + 1] == enc[j + 1]);
            }
        }
        lemma_decode_step(v, k1, buf, off);
    }
}

} // verus!
