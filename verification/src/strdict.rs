//! Encoding of the string dictionaries (dataset ids and graph names): the
//! string storage and the key index.
use vstd::prelude::*;
use vstd::bytes::{spec_u32_to_le_bytes, spec_u64_to_le_bytes};
use crate::le::{extend_bytes, push_u32, push_u64, u32s_le};
use crate::header::Section;
use crate::reader::R5Error;
use crate::text::{str_bytes, utf8_bytes};
use crate::reader::{key16, spec_key16};
use crate::sort::{ascending, order_le, sort_unstable};
use vstd::relations::{sorted_by, total_ordering};
use vstd::seq_lib::lemma_sorted_unique;

verus! {

/// The UTF-8 bytes of every string, one after the other.
pub open spec fn concat_utf8(ss: Seq<Seq<char>>) -> Seq<u8>
    decreases ss.len(),
{
    if ss.len() == 0 {
        seq![]
    } else {
        concat_utf8(ss.drop_last()) + utf8_bytes(ss.last())
    }
}

/// The `u32` start offsets of the strings followed by the end offset, each
/// string's byte length taken modulo 2^32; `None` when a sum passes `u32`.
pub open spec fn plain_offsets(ss: Seq<Seq<char>>) -> Option<Seq<u32>>
    decreases ss.len(),
{
    if ss.len() == 0 {
        Some(seq![0u32])
    } else {
        match plain_offsets(ss.drop_last()) {
            None => None,
            Some(o) => {
                let cur = o.last();
                let l = utf8_bytes(ss.last()).len() as u32;
                if cur + l > u32::MAX {
                    None
                } else {
                    Some(o.push((cur + l) as u32))
                }
            },
        }
    }
}

/// Plain storage: the concatenated strings and their `u32` offsets.
pub open spec fn spec_plain_storage(ss: Seq<Seq<char>>) -> Option<(Seq<u8>, Seq<u8>)> {
    match plain_offsets(ss) {
        None => None,
        Some(o) => Some((concat_utf8(ss), u32s_le(o))),
    }
}

/// The views of a vector of strings.
pub open spec fn strs_view(v: Seq<String>) -> Seq<Seq<char>> {
    v.map_values(|s: String| s@)
}

pub(crate) proof fn lemma_plain_offsets_last(ss: Seq<Seq<char>>)
    ensures
        plain_offsets(ss) matches Some(o) ==> o.len() == ss.len() + 1,
    decreases ss.len(),
{
    if ss.len() > 0 {
        lemma_plain_offsets_last(ss.drop_last());
    }
}

/// Build the plain storage of `strings`.
pub fn build_plain_str_dict_storage(strings: &Vec<String>) -> (r: Result<(Vec<u8>, Vec<u8>), ()>)
    ensures
        match spec_plain_storage(strs_view(strings@)) {
            None => r is Err,
            Some((b, o)) => r matches Ok((x, y)) && x@ == b && y@ == o,
        },
{
    let ghost ss = strs_view(strings@);
    let mut blob: Vec<u8> = Vec::new();
    let mut offs: Vec<u8> = Vec::new();
    let mut cur: u32 = 0;
    let mut i: usize = 0;
    let ghost mut o: Seq<u32> = seq![0u32];
    assert(ss.take(0) =~= Seq::<Seq<char>>::empty());
    while i < strings.len()
        invariant
            i <= strings@.len(),
            ss == strs_view(strings@),
            plain_offsets(ss.take(i as int)) == Some(o),
            o.len() == i + 1,
            o.last() == cur,
            blob@ == concat_utf8(ss.take(i as int)),
            offs@ == u32s_le(o.drop_last()),
        decreases strings@.len() - i,
    {
        let ghost prev = ss.take(i as int);
        let ghost next = ss.take(i + 1);
        assert(next.drop_last() =~= prev);
        assert(next.last() == strings@[i as int]@);
        push_u32(&mut offs, cur);
        assert(o.drop_last().push(cur) =~= o);
        let b = str_bytes(strings[i].as_str());
        extend_bytes(&mut blob, b);
        let l = #[verifier::truncate] (b.len() as u32);
        cur = match cur.checked_add(l) {
            Some(c) => c,
            None => {
                assert(plain_offsets(next) is None);
                proof {
                    lemma_plain_none_extends(ss, i as int + 1);
                }
                return Err(());
            },
        };
        proof {
            let old_o = o;
            o = o.push(cur);
            assert(o.drop_last() =~= old_o);
        }
        i = i + 1;
    }
    push_u32(&mut offs, cur);
    assert(ss.take(i as int) =~= ss);
    assert(o.drop_last().push(cur) =~= o);
    Ok((blob, offs))
}

/// Once the offsets overflow for a prefix, they overflow for the whole.
proof fn lemma_plain_none_extends(ss: Seq<Seq<char>>, k: int)
    requires
        0 <= k <= ss.len(),
        plain_offsets(ss.take(k)) is None,
    ensures
        plain_offsets(ss) is None,
    decreases ss.len() - k,
{
    if k < ss.len() {
        assert(ss.take(k + 1).drop_last() =~= ss.take(k));
        lemma_plain_none_extends(ss, k + 1);
    } else {
        assert(ss.take(k) =~= ss);
    }
}

// ---------------------------------------------------------------- key index

/// The big-endian number of a byte string.
pub open spec fn key_num(k: Seq<u8>) -> int
    decreases k.len(),
{
    if k.len() == 0 {
        0
    } else {
        key_num(k.drop_last()) * 256 + k.last()
    }
}

/// `256` to the `n`.
pub open spec fn pow256(n: nat) -> int
    decreases n,
{
    if n == 0 {
        1
    } else {
        256 * pow256((n - 1) as nat)
    }
}

proof fn lemma_key_num_bound(k: Seq<u8>)
    ensures
        0 <= key_num(k) < pow256(k.len()),
    decreases k.len(),
{
    if k.len() > 0 {
        lemma_key_num_bound(k.drop_last());
        let a = key_num(k.drop_last());
        let p = pow256((k.len() - 1) as nat);
        assert(a * 256 + 255 < p * 256) by (nonlinear_arith)
            requires 0 <= a < p;
    }
}

/// The big-endian number of a 16-byte key.
pub fn key_number(k: &Vec<u8>) -> (r: u128)
    requires
        k@.len() == 16,
    ensures
        r == key_num(k@),
{
    let mut acc: u128 = 0;
    let mut i: usize = 0;
    assert(pow256(16) == 0x1_0000_0000_0000_0000_0000_0000_0000_0000int) by {
        reveal_with_fuel(pow256, 17);
    }
    while i < 16
        invariant
            i <= 16,
            k@.len() == 16,
            acc == key_num(k@.take(i as int)),
            pow256(16) == 0x1_0000_0000_0000_0000_0000_0000_0000_0000int,
        decreases 16 - i,
    {
        proof {
            assert(k@.take(i + 1).drop_last() =~= k@.take(i as int));
            lemma_key_num_bound(k@.take(i + 1));
            lemma_pow256_mono((i + 1) as nat, 16);
        }
        acc = acc * 256 + k[i] as u128;
        i = i + 1;
    }
    assert(k@.take(16) =~= k@);
    acc
}

proof fn lemma_pow256_mono(a: nat, b: nat)
    requires
        a <= b,
    ensures
        pow256(a) <= pow256(b),
    decreases b,
{
    if a < b {
        lemma_pow256_mono(a, (b - 1) as nat);
        assert(pow256((b - 1) as nat) >= 1) by {
            lemma_pow256_pos((b - 1) as nat);
        }
    }
}

proof fn lemma_pow256_pos(a: nat)
    ensures
        pow256(a) >= 1,
    decreases a,
{
    if a > 0 {
        lemma_pow256_pos((a - 1) as nat);
    }
}

/// One index entry per string: its key's number and its id, in id order.
pub open spec fn index_base(ss: Seq<Seq<char>>) -> Seq<(u128, u32)> {
    Seq::new(ss.len(), |i: int| (key_num(spec_key16(ss[i])) as u128, i as u32))
}

/// The index entries in ascending (key, id) order.
pub open spec fn sorted_index(ss: Seq<Seq<char>>) -> Seq<(u128, u32)> {
    choose|e: Seq<(u128, u32)>| ascending(e) && e.to_multiset() == index_base(ss).to_multiset()
}

/// The key index: per entry, 24 bytes: the 16-byte key, the little-endian
/// id, and four zero bytes.
pub open spec fn flat_index(ss: Seq<Seq<char>>, e: Seq<(u128, u32)>) -> Seq<u8>
    decreases e.len(),
{
    if e.len() == 0 {
        seq![]
    } else {
        flat_index(ss, e.drop_last()) + spec_key16(ss[e.last().1 as int]) + spec_u32_to_le_bytes(e.last().1)
            + spec_u32_to_le_bytes(0)
    }
}

/// The order on index entries is a total order.
proof fn lemma_entry_order_total()
    ensures
        total_ordering(|a: (u128, u32), b: (u128, u32)| order_le(a, b)),
{
    let leq = |a: (u128, u32), b: (u128, u32)| order_le(a, b);
    assert forall|x: (u128, u32)| #[trigger] leq(x, x) by {}
    assert forall|x: (u128, u32), y: (u128, u32)| #[trigger] leq(x, y) && #[trigger] leq(y, x) implies x == y by {}
    assert forall|x: (u128, u32), y: (u128, u32), z: (u128, u32)| #[trigger] leq(x, y) && #[trigger] leq(y, z) implies leq(x, z) by {}
    assert forall|x: (u128, u32), y: (u128, u32)| #[trigger] leq(x, y) || #[trigger] leq(y, x) by {}
}

/// A sequence of entries that is ascending and holds the same entries as the
/// base is the sorted index.
proof fn lemma_sorted_index_unique(ss: Seq<Seq<char>>, e: Seq<(u128, u32)>)
    requires
        ascending(e),
        e.to_multiset() == index_base(ss).to_multiset(),
    ensures
        sorted_index(ss) == e,
{
    let c = sorted_index(ss);
    assert(ascending(c) && c.to_multiset() == index_base(ss).to_multiset());
    let leq = |a: (u128, u32), b: (u128, u32)| order_le(a, b);
    lemma_entry_order_total();
    assert(sorted_by(c, leq));
    assert(sorted_by(e, leq));
    lemma_sorted_unique(c, e, leq);
}

/// The index entries of `strings`, sorted by (key, id).
pub fn build_index_entries(strings: &Vec<String>) -> (e: Vec<(u128, u32)>)
    requires
        strings@.len() <= u32::MAX,
    ensures
        e@ == sorted_index(strs_view(strings@)),
        e@.len() == strings@.len(),
        ascending(e@),
        e@.to_multiset() == index_base(strs_view(strings@)).to_multiset(),
{
    let ghost ss = strs_view(strings@);
    let mut e: Vec<(u128, u32)> = Vec::new();
    let mut i: usize = 0;
    while i < strings.len()
        invariant
            i <= strings@.len() <= u32::MAX,
            ss == strs_view(strings@),
            e@ == index_base(ss).take(i as int),
        decreases strings@.len() - i,
    {
        let k = key16(strings[i].as_str());
        let num = key_number(&k);
        e.push((num, i as u32));
        assert(e@ =~= index_base(ss).take(i + 1));
        i = i + 1;
    }
    assert(e@ =~= index_base(ss));
    let ghost base = e@;
    proof {
        crate::sort::lemma_entry_obeys();
    }
    sort_unstable(&mut e);
    proof {
        crate::sort::lemma_entry_obeys();
        lemma_sorted_index_unique(ss, e@);
    }
    e
}


/// Every entry of a permutation of the base names a string and carries its
/// key's number.
proof fn lemma_index_entry_valid(ss: Seq<Seq<char>>, e: Seq<(u128, u32)>, j: int)
    requires
        ss.len() <= u32::MAX,
        e.to_multiset() == index_base(ss).to_multiset(),
        0 <= j < e.len(),
    ensures
        (e[j].1 as int) < ss.len(),
        e[j].0 == key_num(spec_key16(ss[e[j].1 as int])) as u128,
{
    broadcast use vstd::seq_lib::group_to_multiset_ensures;
    let base = index_base(ss);
    assert(e.to_multiset().count(e[j]) > 0);
    assert(base.to_multiset().count(e[j]) > 0);
    assert(base.contains(e[j]));
    let i = choose|i: int| 0 <= i < base.len() && base[i] == e[j];
    assert(base[i].1 == i as u32);
}

/// The flat index over the entries `e`.
pub fn build_flat_dict_index(strings: &Vec<String>, e: &Vec<(u128, u32)>) -> (out: Vec<u8>)
    requires
        strings@.len() <= u32::MAX,
        e@.to_multiset() == index_base(strs_view(strings@)).to_multiset(),
    ensures
        out@ == flat_index(strs_view(strings@), e@),
{
    let ghost ss = strs_view(strings@);
    let mut out: Vec<u8> = Vec::new();
    let mut j: usize = 0;
    assert(e@.take(0) =~= Seq::<(u128, u32)>::empty());
    while j < e.len()
        invariant
            j <= e@.len(),
            ss == strs_view(strings@),
            strings@.len() <= u32::MAX,
            e@.to_multiset() == index_base(ss).to_multiset(),
            out@ == flat_index(ss, e@.take(j as int)),
        decreases e@.len() - j,
    {
        proof {
            lemma_index_entry_valid(ss, e@, j as int);
            assert(e@.take(j + 1).drop_last() =~= e@.take(j as int));
        }
        let id = e[j].1;
        let k = key16(strings[id as usize].as_str());
        extend_bytes(&mut out, k.as_slice());
        push_u32(&mut out, id);
        push_u32(&mut out, 0);
        j = j + 1;
    }
    assert(e@.take(j as int) =~= e@);
    out
}

/// The 52-byte header of a string dictionary.
pub open spec fn dict_header(n: u32, blob_off: u64, blob_len: u64, offs_off: u64, offs_len: u64, idx_off: u64, idx_len: u64) -> Seq<u8> {
    spec_u32_to_le_bytes(n) + spec_u64_to_le_bytes(blob_off) + spec_u64_to_le_bytes(blob_len)
        + spec_u64_to_le_bytes(offs_off) + spec_u64_to_le_bytes(offs_len) + spec_u64_to_le_bytes(idx_off)
        + spec_u64_to_le_bytes(idx_len)
}

/// The bytes of a string dictionary section that starts at `base`: a 52-byte
/// header (count, then offset and length of the blob, the offsets and the
/// index), the blob, the `u32` offsets and the key index (offset 0 when it
/// is empty). `None` when the blob does not fit its offsets.
pub closed spec fn spec_str_dict(base: int, ss: Seq<Seq<char>>) -> Option<Seq<u8>> {
    match spec_plain_storage(ss) {
        None => None,
        Some((blob, offs)) => {
            let idx = flat_index(ss, sorted_index(ss));
            let blob_off = base + 52;
            let offs_off = blob_off + blob.len();
            let idx_off = if idx.len() > 0 { offs_off + offs.len() } else { 0 };
            Some(dict_header(ss.len() as u32, blob_off as u64, blob.len() as u64, offs_off as u64,
                offs.len() as u64, idx_off as u64, idx.len() as u64) + blob + offs + idx)
        },
    }
}

/// A string dictionary's bytes, when its offsets fit.
pub proof fn lemma_str_dict_bytes(base: int, ss: Seq<Seq<char>>)
    ensures
        spec_str_dict(base, ss) == (match spec_plain_storage(ss) {
            None => None,
            Some((blob, offs)) => {
                let idx = flat_index(ss, sorted_index(ss));
                let blob_off = base + 52;
                let offs_off = blob_off + blob.len();
                let idx_off = if idx.len() > 0 { offs_off + offs.len() } else { 0 };
                Some(dict_header(ss.len() as u32, blob_off as u64, blob.len() as u64, offs_off as u64,
                    offs.len() as u64, idx_off as u64, idx.len() as u64) + blob + offs + idx)
            },
        }),
{
}

fn push_dict_header(buf: &mut Vec<u8>, n: u32, blob_off: u64, blob_len: u64, offs_off: u64, offs_len: u64, idx_off: u64, idx_len: u64)
    ensures
        final(buf)@ == old(buf)@ + dict_header(n, blob_off, blob_len, offs_off, offs_len, idx_off, idx_len),
{
    push_u32(buf, n);
    push_u64(buf, blob_off);
    push_u64(buf, blob_len);
    push_u64(buf, offs_off);
    push_u64(buf, offs_len);
    push_u64(buf, idx_off);
    push_u64(buf, idx_len);
    assert(final(buf)@ =~= old(buf)@ + dict_header(n, blob_off, blob_len, offs_off, offs_len, idx_off, idx_len));
}

/// Append a string dictionary section for `strings`.
pub fn write_str_dict(buf: &mut Vec<u8>, strings: &Vec<String>) -> (r: Result<Section, R5Error>)
    requires
        strings@.len() <= u32::MAX,
    ensures
        match spec_str_dict(old(buf)@.len() as int, strs_view(strings@)) {
            None => r matches Err(e) && e is Corrupt && final(buf)@ == old(buf)@,
            Some(bytes) => {
                &&& final(buf)@ == old(buf)@ + bytes
                &&& r matches Ok(sec) && sec.off == old(buf)@.len() && sec.len == bytes.len()
            },
        },
{
    let off = buf.len();
    let (blob, offs) = match build_plain_str_dict_storage(strings) {
        Ok(x) => x,
        Err(()) => return Err(R5Error::corrupt_msg("blob size")),
    };
    let e = build_index_entries(strings);
    let idx = build_flat_dict_index(strings, &e);
    let blob_off: u128 = off as u128 + 52;
    let offs_off: u128 = blob_off + blob.len() as u128;
    let idx_off: u128 = if idx.len() > 0 { offs_off + offs.len() as u128 } else { 0 };
    let ghost start = buf@;
    let ghost header = dict_header(strings@.len() as u32, blob_off as u64, blob@.len() as u64, offs_off as u64,
        offs@.len() as u64, idx_off as u64, idx@.len() as u64);
    push_dict_header(buf, strings.len() as u32, #[verifier::truncate] (blob_off as u64), blob.len() as u64,
        #[verifier::truncate] (offs_off as u64), offs.len() as u64, #[verifier::truncate] (idx_off as u64),
        idx.len() as u64);
    extend_bytes(buf, blob.as_slice());
    extend_bytes(buf, offs.as_slice());
    extend_bytes(buf, idx.as_slice());
    let total = buf.len() - off;
    assert(buf@ =~= start + (header + blob@ + offs@ + idx@));
    Ok(Section { off: off as u64, len: total as u64 })
}

} // verus!
