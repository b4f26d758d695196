//! What a sidecar file gives back: looking a predicate up in the file built
//! from sorted tuples finds exactly that predicate's tuples.
use vstd::prelude::*;
use vstd::bytes::*;
use crate::header::spec_crc32;
use crate::le::{
    le_u16_at, le_u32_at, le_u64_at, lemma_cat, lemma_read_placed, lemma_sub_piece, lemma_u64s_le_len, lemma_within, placed,
    u64s_le,
};
use crate::index::{group_has_key, key_triples, lemma_pred_groups_sorted, tuples_have_key};
use crate::posting_laws::{lemma_posting_roundtrip, posting_ready, triple_seq};
use crate::sidecar::{
    lemma_first_kind_two, spec_all_blocks, spec_lookup_in, spec_parse_posting, lemma_pred_search, lemma_section_of, pred_search, preds_sorted, sidecar_eof_magic, sidecar_magic,
    spec_idx_file, spec_idx_sections, spec_lookup_payload, spec_toc_entry_at, IdxKind, IdxSection, IdxToc,
    SIDECAR_VERSION,
};
use crate::sidecar_build::{
    postings_of, posting_blob, posting_keys, posting_offsets, pred_groups, section_bytes, sidecar_body,
    block_bytes, sidecar_image, toc_entry_bytes, tuple_le, tuples_sorted, IdxTuple,
};
use crate::layout::Outcome;

verus! {

/// Entry `k` of an encoded `u64` array.
pub(crate) proof fn lemma_u64s_entry(xs: Seq<u64>, k: int)
    requires
        0 <= k < xs.len(),
    ensures
        u64s_le(xs).len() == 8 * xs.len(),
        u64s_le(xs).subrange(8 * k, 8 * k + 8) == spec_u64_to_le_bytes(xs[k]),
    decreases xs.len(),
{
    lemma_u64s_le_len(xs);
    lemma_u64s_le_len(xs.drop_last());
    lemma_auto_spec_u64_to_from_le_bytes();
    let init = xs.drop_last();
    if k < xs.len() - 1 {
        lemma_u64s_entry(init, k);
        assert(u64s_le(xs).subrange(8 * k, 8 * k + 8) =~= u64s_le(init).subrange(8 * k, 8 * k + 8));
    } else {
        assert(u64s_le(xs).subrange(8 * k, 8 * k + 8) =~= spec_u64_to_le_bytes(xs.last()));
    }
}

/// Reading entry `k` of a `u64` array placed at `off` of `p`.
proof fn lemma_read_u64s(p: Seq<u8>, off: int, xs: Seq<u64>, k: int)
    requires
        0 <= off,
        off + u64s_le(xs).len() <= p.len(),
        p.subrange(off, off + u64s_le(xs).len()) == u64s_le(xs),
        0 <= k < xs.len(),
    ensures
        le_u64_at(p, off + 8 * k) == xs[k],
{
    lemma_u64s_entry(xs, k);
    lemma_auto_spec_u64_to_from_le_bytes();
    assert(p.subrange(off + 8 * k, off + 8 * k + 8) =~= u64s_le(xs).subrange(8 * k, 8 * k + 8)) by {
        assert forall|t: int| 0 <= t < 8 implies #[trigger] p.subrange(off + 8 * k, off + 8 * k + 8)[t]
            == u64s_le(xs).subrange(8 * k, 8 * k + 8)[t] by {
            assert(p.subrange(off, off + u64s_le(xs).len())[8 * k + t] == u64s_le(xs)[8 * k + t]);
        }
    }
}

/// The first `k` postings' bytes, and where posting `k` starts.
proof fn lemma_offsets(ps: Seq<(u64, Seq<u8>)>, k: int)
    requires
        0 <= k <= ps.len(),
        posting_blob(ps).len() <= u64::MAX,
    ensures
        posting_offsets(ps).len() == ps.len() + 1,
        posting_offsets(ps)[k] == posting_blob(ps.subrange(0, k)).len(),
        posting_blob(ps.subrange(0, k)).len() <= posting_blob(ps).len(),
        posting_blob(ps).subrange(0, posting_blob(ps.subrange(0, k)).len() as int) == posting_blob(ps.subrange(0, k)),
        k < ps.len() ==> posting_blob(ps.subrange(0, k + 1)) == posting_blob(ps.subrange(0, k)) + ps[k].1,
    decreases ps.len(),
{
    if ps.len() == 0 {
        assert(ps.subrange(0, 0) =~= ps);
    } else {
        let init = ps.drop_last();
        assert(posting_blob(ps) == posting_blob(init) + ps.last().1);
        if k == ps.len() {
            assert(ps.subrange(0, k) =~= ps);
            lemma_offsets(init, 0);
            assert(posting_blob(ps).subrange(0, posting_blob(ps).len() as int) =~= posting_blob(ps));
        } else {
            lemma_offsets(init, k);
            assert(init.subrange(0, k) =~= ps.subrange(0, k));
            if k + 1 <= init.len() {
                assert(init.subrange(0, k + 1) =~= ps.subrange(0, k + 1));
            } else {
                assert(ps.subrange(0, k + 1) =~= ps);
                assert(init.subrange(0, k) =~= init);
            }
            assert(posting_offsets(ps)[k] == posting_offsets(init)[k]);
            assert(posting_blob(ps).subrange(0, posting_blob(ps.subrange(0, k)).len() as int)
                =~= posting_blob(init).subrange(0, posting_blob(ps.subrange(0, k)).len() as int));
        }
        let kk = if k < ps.len() { k + 1 } else { k };
        assert(ps.subrange(0, kk).drop_last() =~= ps.subrange(0, kk - 1) || kk == 0);
    }
}

/// Posting `key` of a section placed in `img` at `base`: with the section's
/// fields read from its header, the lookup finds the posting of the key, or
/// nothing when no posting has it.
pub proof fn lemma_section_lookup(img: Seq<u8>, base: int, ps: Seq<(u64, Seq<u8>)>, sec: IdxSection, key: u64)
    requires
        0 <= base,
        base + section_bytes(ps, base).len() <= img.len() <= u32::MAX,
        img.subrange(base, base + section_bytes(ps, base).len()) == section_bytes(ps, base),
        forall|i: int, j: int| 0 <= i < j < ps.len() ==> ps[i].0 < ps[j].0,
        sec.n_preds() == ps.len(),
        sec.keys_off() == base + 32,
        sec.offs_off() == base + 32 + 8 * ps.len(),
        sec.blob() == base + 32 + 8 * ps.len() + 8 * (ps.len() + 1),
    ensures
        (exists|i: int| 0 <= i < ps.len() && ps[i].0 == key) ==> (exists|i: int| 0 <= i < ps.len() && ps[i].0 == key
            && spec_lookup_payload(img, sec, key) == Some(ps[i].1)),
        !(exists|i: int| 0 <= i < ps.len() && ps[i].0 == key) ==> spec_lookup_payload(img, sec, key) is None,
{
    let n = ps.len() as int;
    let keys = posting_keys(ps);
    let offs = posting_offsets(ps);
    let blob = posting_blob(ps);
    let sb = section_bytes(ps, base);
    lemma_u64s_le_len(keys);
    lemma_u64s_le_len(offs);
    lemma_offsets(ps, 0);
    let h = spec_u64_to_le_bytes(n as u64) + spec_u64_to_le_bytes((base + 32) as u64)
        + spec_u64_to_le_bytes((base + 32 + 8 * n) as u64)
        + spec_u64_to_le_bytes((base + 32 + 8 * n + 8 * (n + 1)) as u64);
    lemma_auto_spec_u64_to_from_le_bytes();
    assert(h.len() == 32);
    assert(sb == h + u64s_le(keys) + u64s_le(offs) + blob);
    let keys_off = base + 32;
    let offs_off = base + 32 + 8 * n;
    let blob_off = base + 32 + 8 * n + 8 * (n + 1);
    lemma_sub_piece(img, base, sb, 32, 32 + 8 * n);
    assert(sb.subrange(32, 32 + 8 * n) =~= u64s_le(keys));
    lemma_sub_piece(img, base, sb, 32 + 8 * n, 32 + 8 * n + 8 * (n + 1));
    assert(sb.subrange(32 + 8 * n, 32 + 8 * n + 8 * (n + 1)) =~= u64s_le(offs));
    lemma_sub_piece(img, base, sb, 32 + 8 * n + 8 * (n + 1), sb.len() as int);
    assert(sb.subrange(32 + 8 * n + 8 * (n + 1), sb.len() as int) =~= blob);
    assert forall|i: int| 0 <= i < n implies #[trigger] le_u64_at(img, keys_off + 8 * i) == ps[i].0 by {
        lemma_read_u64s(img, keys_off, keys, i);
    }
    assert(preds_sorted(img, keys_off, 0, n)) by {
        assert forall|i: int, j: int| 0 <= i < j < n implies
            le_u64_at(img, #[trigger] (keys_off + 8 * i)) < le_u64_at(img, #[trigger] (keys_off + 8 * j)) by {
            assert(le_u64_at(img, keys_off + 8 * i) == ps[i].0);
            assert(le_u64_at(img, keys_off + 8 * j) == ps[j].0);
        }
    }
    if exists|i: int| 0 <= i < n && ps[i].0 == key {
        let k = choose|i: int| 0 <= i < n && ps[i].0 == key;
        lemma_pred_search(img, keys_off, key, 0, n, k);
        lemma_read_u64s(img, offs_off, offs, k);
        lemma_read_u64s(img, offs_off, offs, k + 1);
        lemma_offsets(ps, k);
        lemma_offsets(ps, k + 1);
        let s0 = posting_blob(ps.subrange(0, k)).len() as int;
        let s1 = posting_blob(ps.subrange(0, k + 1)).len() as int;
        assert(blob.subrange(s0, s1) =~= ps[k].1) by {
            assert forall|t: int| 0 <= t < s1 - s0 implies #[trigger] blob.subrange(s0, s1)[t] == ps[k].1[t] by {
                assert(blob.subrange(0, s1)[s0 + t] == posting_blob(ps.subrange(0, k + 1))[s0 + t]);
            }
        }
        lemma_sub_piece(img, blob_off, blob, s0, s1);
        assert(img.subrange(base, base + sb.len()).subrange(32 + 8 * n + 8 * (n + 1), sb.len() as int)
            =~= img.subrange(blob_off, base + sb.len()));
        assert(img.subrange(blob_off, blob_off + blob.len()) == blob);
        assert(spec_lookup_payload(img, sec, key) == Some(ps[k].1));
    } else {
        if n > 0 {
            lemma_pred_search(img, keys_off, key, 0, n, 0);
            if let Some(i) = pred_search(img, keys_off, key, 0, n) {
                assert(le_u64_at(img, keys_off + 8 * i) == ps[i].0);
            }
        }
    }
}


/// The fields of a TOC entry placed at `base`.
pub(crate) proof fn lemma_toc_placed(s: Seq<u8>, base: int, kind: u16, off: u64, len: u64, crc: u32)
    requires
        placed(s, base, toc_entry_bytes(kind, off, len, crc)),
    ensures
        base + 32 <= s.len(),
        le_u16_at(s, base) == kind,
        le_u64_at(s, base + 4) == off,
        le_u64_at(s, base + 12) == len,
        le_u32_at(s, base + 20) == crc,
{
    lemma_auto_spec_u16_to_from_le_bytes();
    lemma_auto_spec_u32_to_from_le_bytes();
    lemma_auto_spec_u64_to_from_le_bytes();
    let e1 = spec_u16_to_le_bytes(kind);
    let e2 = e1 + spec_u16_to_le_bytes(0);
    let e3 = e2 + spec_u64_to_le_bytes(off);
    let e4 = e3 + spec_u64_to_le_bytes(len);
    let e5 = e4 + spec_u32_to_le_bytes(crc);
    let e6 = e5 + spec_u32_to_le_bytes(0);
    let e7 = e6 + spec_u32_to_le_bytes(0);
    assert(e7 == toc_entry_bytes(kind, off, len, crc));
    lemma_cat(e6, spec_u32_to_le_bytes(0));
    lemma_within(s, base, e7, 0, e6);
    lemma_cat(e5, spec_u32_to_le_bytes(0));
    lemma_within(s, base, e6, 0, e5);
    lemma_cat(e4, spec_u32_to_le_bytes(crc));
    lemma_within(s, base, e5, 0, e4);
    lemma_within(s, base, e5, 20, spec_u32_to_le_bytes(crc));
    lemma_cat(e3, spec_u64_to_le_bytes(len));
    lemma_within(s, base, e4, 0, e3);
    lemma_within(s, base, e4, 12, spec_u64_to_le_bytes(len));
    lemma_cat(e2, spec_u64_to_le_bytes(off));
    lemma_within(s, base, e3, 0, e2);
    lemma_within(s, base, e3, 4, spec_u64_to_le_bytes(off));
    lemma_cat(e1, spec_u16_to_le_bytes(0));
    lemma_within(s, base, e2, 0, e1);
    lemma_read_placed(s, base);
    lemma_read_placed(s, base + 4);
    lemma_read_placed(s, base + 12);
    lemma_read_placed(s, base + 20);
}

/// There is one posting offset more than postings.
proof fn lemma_offsets_len(ps: Seq<(u64, Seq<u8>)>)
    ensures
        posting_offsets(ps).len() == ps.len() + 1,
    decreases ps.len(),
{
    if ps.len() > 0 {
        lemma_offsets_len(ps.drop_last());
    }
}

/// The header fields of a section placed at `base`.
proof fn lemma_section_header_placed(s: Seq<u8>, base: int, ps: Seq<(u64, Seq<u8>)>)
    requires
        placed(s, base, section_bytes(ps, base)),
    ensures
        base + 32 <= s.len(),
        le_u64_at(s, base) == ps.len() as u64,
        le_u64_at(s, base + 8) == (base + 32) as u64,
        le_u64_at(s, base + 16) == (base + 32 + 8 * ps.len()) as u64,
        le_u64_at(s, base + 24) == (base + 32 + 8 * ps.len() + 8 * (ps.len() + 1)) as u64,
        section_bytes(ps, base).len() >= 32 + 8 * ps.len() + 8 * (ps.len() + 1),
{
    lemma_auto_spec_u64_to_from_le_bytes();
    let n = ps.len();
    lemma_u64s_le_len(posting_keys(ps));
    lemma_u64s_le_len(posting_offsets(ps));
    assert(posting_offsets(ps).len() == n + 1) by {
        lemma_offsets_len(ps);
    }
    let f1 = spec_u64_to_le_bytes(n as u64);
    let f2 = f1 + spec_u64_to_le_bytes((base + 32) as u64);
    let f3 = f2 + spec_u64_to_le_bytes((base + 32 + 8 * n) as u64);
    let f4 = f3 + spec_u64_to_le_bytes((base + 32 + 8 * n + 8 * (n + 1)) as u64);
    let f5 = f4 + u64s_le(posting_keys(ps));
    let f6 = f5 + u64s_le(posting_offsets(ps));
    let f7 = f6 + posting_blob(ps);
    assert(f7 == section_bytes(ps, base));
    lemma_cat(f6, posting_blob(ps));
    lemma_within(s, base, f7, 0, f6);
    lemma_cat(f5, u64s_le(posting_offsets(ps)));
    lemma_within(s, base, f6, 0, f5);
    lemma_cat(f4, u64s_le(posting_keys(ps)));
    lemma_within(s, base, f5, 0, f4);
    lemma_cat(f3, spec_u64_to_le_bytes((base + 32 + 8 * n + 8 * (n + 1)) as u64));
    lemma_within(s, base, f4, 0, f3);
    lemma_within(s, base, f4, 24, spec_u64_to_le_bytes((base + 32 + 8 * n + 8 * (n + 1)) as u64));
    lemma_cat(f2, spec_u64_to_le_bytes((base + 32 + 8 * n) as u64));
    lemma_within(s, base, f3, 0, f2);
    lemma_within(s, base, f3, 16, spec_u64_to_le_bytes((base + 32 + 8 * n) as u64));
    lemma_cat(f1, spec_u64_to_le_bytes((base + 32) as u64));
    lemma_within(s, base, f2, 0, f1);
    lemma_within(s, base, f2, 8, spec_u64_to_le_bytes((base + 32) as u64));
    lemma_read_placed(s, base);
    lemma_read_placed(s, base + 8);
    lemma_read_placed(s, base + 16);
    lemma_read_placed(s, base + 24);
}


/// Where the sections of a sidecar image stand: the PSO section right after
/// the header and source path, the POS section right after it.
pub open spec fn pso_at(path: Seq<u8>) -> int {
    47 + path.len() as int
}

/// Where the POS section of a sidecar image stands.
pub open spec fn pos_at(pso: Seq<IdxTuple>, path: Seq<u8>) -> int {
    pso_at(path) + section_bytes(postings_of(pso), pso_at(path)).len()
}

/// A section read from a TOC whose header gives the layout of `ps` placed at
/// `base`.
pub open spec fn section_layout(sec: IdxSection, ps: Seq<(u64, Seq<u8>)>, base: int) -> bool {
    &&& sec.n_preds() == ps.len()
    &&& sec.keys_off() == base + 32
    &&& sec.offs_off() == base + 32 + 8 * ps.len()
    &&& sec.blob() == base + 32 + 8 * ps.len() + 8 * (ps.len() + 1)
}

/// Opening a sidecar image gives its two sections, PSO then POS, laid out
/// where they were written.
#[verifier::rlimit(40)]
proof fn lemma_image_sections(
    pso: Seq<IdxTuple>,
    pos: Seq<IdxTuple>,
    mtime_ns: i64,
    src_len: u64,
    gdir_crc: u32,
    path: Seq<u8>,
)
    requires
        sidecar_image(pso, pos, mtime_ns, src_len, gdir_crc, path).len() <= u32::MAX,
    ensures
        ({
            let img = sidecar_image(pso, pos, mtime_ns, src_len, gdir_crc, path);
            &&& spec_idx_file(img) matches Outcome::Value(secs)
            &&& secs.len() == 2
            &&& secs[0].kind_of() == IdxKind::Pso
            &&& secs[1].kind_of() == IdxKind::Pos
            &&& section_layout(secs[0], postings_of(pso), pso_at(path))
            &&& section_layout(secs[1], postings_of(pos), pos_at(pso, path))
            &&& placed(img, pso_at(path), section_bytes(postings_of(pso), pso_at(path)))
            &&& placed(img, pos_at(pso, path), section_bytes(postings_of(pos), pos_at(pso, path)))
        }),
{
    lemma_auto_spec_u16_to_from_le_bytes();
    lemma_auto_spec_u32_to_from_le_bytes();
    lemma_auto_spec_u64_to_from_le_bytes();
    let h = (47 + path.len()) as u64;
    let a = section_bytes(postings_of(pso), h as int);
    let pos_off = (h + a.len()) as u64;
    let b = section_bytes(postings_of(pos), pos_off as int);
    let toc_off = (pos_off + b.len()) as u64;
    let t1 = toc_entry_bytes(1, h as u64, a.len() as u64, spec_crc32(a));
    let t2 = toc_entry_bytes(2, pos_off, b.len() as u64, spec_crc32(b));
    let v_ver = spec_u16_to_le_bytes(SIDECAR_VERSION);
    let v_pl = spec_u16_to_le_bytes(path.len() as u16);
    let v_toc = spec_u64_to_le_bytes(toc_off);
    let v_cnt = spec_u32_to_le_bytes(2);
    let p1 = sidecar_magic();
    let p2 = p1 + v_ver;
    let p3 = p2 + spec_u16_to_le_bytes(0);
    let p4 = p3 + v_pl;
    let p5 = p4 + spec_u64_to_le_bytes(mtime_ns as u64);
    let p6 = p5 + spec_u64_to_le_bytes(src_len);
    let p7 = p6 + spec_u32_to_le_bytes(gdir_crc);
    let p8 = p7 + v_toc;
    let p9 = p8 + v_cnt;
    let p10 = p9 + spec_u32_to_le_bytes(0);
    let p11 = p10 + path;
    let p12 = p11 + a;
    let p13 = p12 + b;
    let p14 = p13 + t1;
    let body = p14 + t2;
    assert(body == sidecar_body(pso, pos, mtime_ns, src_len, gdir_crc, path));
    let crcw = spec_u32_to_le_bytes(spec_crc32(body));
    let q = body + crcw;
    let img = q + sidecar_eof_magic();
    assert(img == sidecar_image(pso, pos, mtime_ns, src_len, gdir_crc, path));
    assert(p10.len() == 47);
    assert(h == 47 + path.len());
    assert(pos_off == pos_at(pso, path));
    assert(toc_off == pos_off + b.len());
    // the whole image and its footer
    lemma_cat(q, sidecar_eof_magic());
    lemma_cat(body, crcw);
    lemma_within(img, 0, q, 0, body);
    lemma_within(img, 0, q, body.len() as int, crcw);
    lemma_read_placed(img, body.len() as int);
    assert(img.subrange(0, img.len() - 16) == body);
    assert(img.subrange(img.len() - 12, img.len() as int) == sidecar_eof_magic());
    // the prefixes of the body
    lemma_cat(p14, t2);
    lemma_within(img, 0, body, 0, p14);
    lemma_within(img, 0, body, p14.len() as int, t2);
    lemma_cat(p13, t1);
    lemma_within(img, 0, p14, 0, p13);
    lemma_within(img, 0, p14, p13.len() as int, t1);
    lemma_cat(p12, b);
    lemma_within(img, 0, p13, 0, p12);
    lemma_within(img, 0, p13, p12.len() as int, b);
    lemma_cat(p11, a);
    lemma_within(img, 0, p12, 0, p11);
    lemma_within(img, 0, p12, p11.len() as int, a);
    lemma_cat(p10, path);
    lemma_within(img, 0, p11, 0, p10);
    lemma_cat(p9, spec_u32_to_le_bytes(0));
    lemma_within(img, 0, p10, 0, p9);
    lemma_cat(p8, v_cnt);
    lemma_within(img, 0, p9, 0, p8);
    lemma_within(img, 0, p9, 39, v_cnt);
    lemma_cat(p7, v_toc);
    lemma_within(img, 0, p8, 0, p7);
    lemma_within(img, 0, p8, 31, v_toc);
    lemma_cat(p6, spec_u32_to_le_bytes(gdir_crc));
    lemma_within(img, 0, p7, 0, p6);
    lemma_cat(p5, spec_u64_to_le_bytes(src_len));
    lemma_within(img, 0, p6, 0, p5);
    lemma_cat(p4, spec_u64_to_le_bytes(mtime_ns as u64));
    lemma_within(img, 0, p5, 0, p4);
    lemma_cat(p3, v_pl);
    lemma_within(img, 0, p4, 0, p3);
    lemma_within(img, 0, p4, 9, v_pl);
    lemma_cat(p2, spec_u16_to_le_bytes(0));
    lemma_within(img, 0, p3, 0, p2);
    lemma_cat(p1, v_ver);
    lemma_within(img, 0, p2, 0, p1);
    lemma_within(img, 0, p2, 5, v_ver);
    lemma_read_placed(img, 5);
    lemma_read_placed(img, 9);
    lemma_read_placed(img, 31);
    lemma_read_placed(img, 39);
    assert(le_u16_at(img, 9) <= path.len()) by {
        if path.len() <= u16::MAX {
            assert(le_u16_at(img, 9) == path.len());
        }
    }
    assert(img.subrange(0, 5) == sidecar_magic());
    // the TOC and the sections it points at
    lemma_toc_placed(img, toc_off as int, 1, h, a.len() as u64, spec_crc32(a));
    lemma_toc_placed(img, toc_off + 32, 2, pos_off, b.len() as u64, spec_crc32(b));
    lemma_section_header_placed(img, h as int, postings_of(pso));
    lemma_section_header_placed(img, pos_off as int, postings_of(pos));
    let e1 = IdxToc { kind: IdxKind::Pso, off: h, len: a.len() as u64, crc: spec_crc32(a) };
    let e2 = IdxToc { kind: IdxKind::Pos, off: pos_off, len: b.len() as u64, crc: spec_crc32(b) };
    assert(spec_toc_entry_at(img, toc_off as int) == Outcome::Value(e1));
    assert(spec_toc_entry_at(img, toc_off + 32) == Outcome::Value(e2));
    lemma_section_of(img, e1);
    lemma_section_of(img, e2);
    let sec0 = crate::sidecar::spec_section_of(img, e1)->Value_0;
    let sec1 = crate::sidecar::spec_section_of(img, e2)->Value_0;
    assert(spec_idx_sections(img, toc_off as int, 0) == Outcome::Value(Seq::<IdxSection>::empty()));
    assert(spec_idx_sections(img, toc_off as int, 1) == Outcome::Value(seq![sec0])) by {
        assert(Seq::<IdxSection>::empty().push(sec0) =~= seq![sec0]);
    }
    assert(spec_idx_sections(img, toc_off as int, 2) == Outcome::Value(seq![sec0, sec1])) by {
        assert(seq![sec0].push(sec1) =~= seq![sec0, sec1]);
    }
    assert(spec_idx_file(img) == spec_idx_sections(img, toc_off as int, 2));
    assert(section_layout(sec0, postings_of(pso), pso_at(path)));
    assert(section_layout(sec1, postings_of(pos), pos_at(pso, path)));
}


/// A group of sorted tuples: not empty, no longer than the tuples, every
/// member one of the tuples and of the group's predicate, and sorted.
pub open spec fn group_ok(ts: Seq<IdxTuple>, g: (u64, Seq<IdxTuple>)) -> bool {
    &&& 0 < g.1.len() <= ts.len()
    &&& forall|k: int| 0 <= k < g.1.len() ==> (#[trigger] g.1[k]).0 == g.0 && ts.contains(g.1[k])
    &&& tuples_sorted(g.1)
}

/// Every predicate group of sorted tuples is a sorted run of one predicate.
pub(crate) proof fn lemma_groups_ok(ts: Seq<IdxTuple>)
    requires
        tuples_sorted(ts),
    ensures
        forall|i: int| 0 <= i < pred_groups(ts).len() ==> group_ok(ts, #[trigger] pred_groups(ts)[i]),
    decreases ts.len(),
{
    if ts.len() > 0 {
        let init = ts.drop_last();
        let t = ts.last();
        assert(tuples_sorted(init)) by {
            assert forall|i: int, j: int| 0 <= i < j < init.len() implies tuple_le(#[trigger] init[i], #[trigger] init[j]) by {
                assert(init[i] == ts[i] && init[j] == ts[j]);
            }
        }
        lemma_groups_ok(init);
        let g0 = pred_groups(init);
        let g = pred_groups(ts);
        assert forall|x: IdxTuple| init.contains(x) implies ts.contains(x) && tuple_le(x, t) by {
            let m = choose|m: int| 0 <= m < init.len() && init[m] == x;
            assert(ts[m] == x);
            assert(tuple_le(ts[m], ts[ts.len() - 1]));
        }
        assert(ts.contains(t)) by {
            assert(ts[ts.len() - 1] == t);
        }
        assert forall|i: int| 0 <= i < g0.len() implies group_ok(ts, #[trigger] g0[i]) by {
            assert(group_ok(init, g0[i]));
            assert forall|k: int| 0 <= k < g0[i].1.len() implies (#[trigger] g0[i].1[k]).0 == g0[i].0
                && ts.contains(g0[i].1[k]) by {
                assert(init.contains(g0[i].1[k]));
            }
        }
        if g0.len() > 0 && g0.last().0 == t.0 {
            let last = g0.last();
            let ng = (t.0, last.1.push(t));
            assert(group_ok(init, last));
            assert forall|k: int| 0 <= k < ng.1.len() implies (#[trigger] ng.1[k]).0 == ng.0 && ts.contains(ng.1[k]) by {
                if k < last.1.len() {
                    assert(ng.1[k] == last.1[k]);
                    assert(init.contains(last.1[k]));
                }
            }
            assert forall|i: int, j: int| 0 <= i < j < ng.1.len() implies tuple_le(#[trigger] ng.1[i], #[trigger] ng.1[j]) by {
                assert(ng.1[i] == last.1[i]);
                assert(init.contains(last.1[i]));
                if j < last.1.len() {
                    assert(ng.1[j] == last.1[j]);
                }
            }
            assert(group_ok(ts, ng));
            assert forall|i: int| 0 <= i < g.len() implies group_ok(ts, #[trigger] g[i]) by {
                if i < g0.len() - 1 {
                    assert(g[i] == g0[i]);
                } else {
                    assert(g[i] == ng);
                }
            }
        } else {
            let ng = (t.0, seq![t]);
            assert(group_ok(ts, ng));
            assert forall|i: int| 0 <= i < g.len() implies group_ok(ts, #[trigger] g[i]) by {
                if i < g0.len() {
                    assert(g[i] == g0[i]);
                } else {
                    assert(g[i] == ng);
                }
            }
        }
    }
}


/// What looking `key` up in the section of kind `k` answers for the tuples
/// `ts`: when some tuple has the key, a posting that decodes to the key's
/// tuples as (graph group, outer, inner), in order, and counts them;
/// otherwise nothing.
pub open spec fn sidecar_answers(
    img: Seq<u8>,
    secs: Seq<IdxSection>,
    k: IdxKind,
    ts: Seq<IdxTuple>,
    key: u64,
) -> bool {
    if tuples_have_key(ts, key) {
        spec_lookup_in(img, secs, k, key) matches Some(pl) && spec_parse_posting(pl) matches Some(sh)
            && spec_all_blocks(pl, sh, sh.n_gids) == key_triples(ts, key)
            && sh.n_t == key_triples(ts, key).len()
    } else {
        spec_lookup_in(img, secs, k, key) is None
    }
}

/// Looking `key` up in a section built from sorted tuples and placed at
/// `base`.
proof fn lemma_section_answers(img: Seq<u8>, base: int, ts: Seq<IdxTuple>, sec: IdxSection, key: u64)
    requires
        placed(img, base, section_bytes(postings_of(ts), base)),
        section_layout(sec, postings_of(ts), base),
        tuples_sorted(ts),
        ts.len() <= u32::MAX,
        img.len() <= u32::MAX,
    ensures
        tuples_have_key(ts, key) ==> (spec_lookup_payload(img, sec, key) matches Some(pl)
            && spec_parse_posting(pl) matches Some(sh) && spec_all_blocks(pl, sh, sh.n_gids) == key_triples(ts, key)
            && sh.n_t == key_triples(ts, key).len()),
        !tuples_have_key(ts, key) ==> spec_lookup_payload(img, sec, key) is None,
{
    let ps = postings_of(ts);
    let g = pred_groups(ts);
    lemma_pred_groups_sorted(ts);
    lemma_groups_ok(ts);
    assert forall|i: int| 0 <= i < ps.len() implies (#[trigger] ps[i]) == (g[i].0, block_bytes(g[i].1)) by {}
    assert forall|i: int, j: int| 0 <= i < j < ps.len() implies ps[i].0 < ps[j].0 by {
        assert(ps[i].0 == g[i].0 && ps[j].0 == g[j].0);
    }
    lemma_section_lookup(img, base, ps, sec, key);
    if tuples_have_key(ts, key) {
        assert(group_has_key(g, key));
        let j = choose|i: int| 0 <= i < g.len() && g[i].0 == key;
        assert(ps[j].0 == key);
        let i = choose|i: int| 0 <= i < ps.len() && ps[i].0 == key && spec_lookup_payload(img, sec, key) == Some(ps[i].1);
        assert(g[i].0 == key);
        let grp = g[i].1;
        assert(group_ok(ts, g[i]));
        lemma_offsets(ps, i);
        lemma_offsets(ps, i + 1);
        assert(block_bytes(grp).len() <= u32::MAX);
        assert(posting_ready(grp)) by {
            assert forall|k: int| 0 <= k < grp.len() implies #[trigger] grp[k].0 == grp[0].0 by {
                assert(grp[k].0 == g[i].0);
                assert(grp[0].0 == g[i].0);
            }
        }
        lemma_posting_roundtrip(grp);
        assert(triple_seq(grp) =~= grp.map_values(|t: IdxTuple| (t.1 as u64, t.2, t.3)));
    } else {
        if exists|i: int| 0 <= i < ps.len() && ps[i].0 == key {
            let i = choose|i: int| 0 <= i < ps.len() && ps[i].0 == key;
            assert(g[i].0 == key);
            assert(group_has_key(g, key));
        }
    }
}

/// What a sidecar file built from sorted PSO and POS tuples answers: it
/// opens, and looking a predicate up in either section finds a posting
/// exactly when some tuple has that predicate, a posting that decodes to
/// that predicate's tuples as (graph group, outer, inner), in order.
pub proof fn lemma_sidecar_roundtrip(
    pso: Seq<IdxTuple>,
    pos: Seq<IdxTuple>,
    mtime_ns: i64,
    src_len: u64,
    gdir_crc: u32,
    path: Seq<u8>,
    key: u64,
)
    requires
        tuples_sorted(pso),
        tuples_sorted(pos),
        pso.len() <= u32::MAX,
        pos.len() <= u32::MAX,
        sidecar_image(pso, pos, mtime_ns, src_len, gdir_crc, path).len() <= u32::MAX,
    ensures
        ({
            let img = sidecar_image(pso, pos, mtime_ns, src_len, gdir_crc, path);
            spec_idx_file(img) matches Outcome::Value(secs) && sidecar_answers(img, secs, IdxKind::Pso, pso, key)
                && sidecar_answers(img, secs, IdxKind::Pos, pos, key)
        }),
{
    let img = sidecar_image(pso, pos, mtime_ns, src_len, gdir_crc, path);
    lemma_image_sections(pso, pos, mtime_ns, src_len, gdir_crc, path);
    let secs = spec_idx_file(img)->Value_0;
    lemma_first_kind_two(secs);
    lemma_section_answers(img, pso_at(path), pso, secs[0], key);
    lemma_section_answers(img, pos_at(pso, path), pos, secs[1], key);
}

} // verus!
