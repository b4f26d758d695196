//! Encoding of the graph directory, the triple blocks, the postings and
//! pair indexes, and the table of contents.
use vstd::prelude::*;
use vstd::bytes::{
    lemma_auto_spec_u16_to_from_le_bytes, lemma_auto_spec_u32_to_from_le_bytes, lemma_auto_spec_u64_to_from_le_bytes,
    spec_u16_to_le_bytes, spec_u32_to_le_bytes, spec_u64_to_le_bytes};
use crate::block_laws::lemma_block_roundtrip;
use crate::compress::{zstd_compressed, zstd_decompressed, zstd_encode};
use crate::layout::{raw_outcome, spec_block, BlockPayload, GDirRow, Outcome};
use crate::header::{crc32_ieee, section_kind_code, spec_crc32, Section, SectionKind, TocEntry};
use crate::le::{extend_bytes, lemma_cat, lemma_read_placed, lemma_within, placed, push_u16, push_u32, push_u64};
use crate::reader::R5Error;
use crate::triples::{build_raw_spo, csr_build, raw_numbers, raw_numbers_ok, uvarint_cat, Triple};
use crate::varint::{push_uvarint, uvarint_bytes};

verus! {

/// One row of the graph directory being written.
#[derive(Debug, Clone, Copy)]
pub struct GidRow {
    pub id_id: u32,
    pub gn_id: u32,
    pub sec: Section,
    pub n_triples: u64,
    pub n_s: u32,
    pub n_p: u32,
    pub n_o: u32,
}

/// The bytes of one 44-byte directory row: id and graph-name ids, block
/// offset, block length and triple count as `u64`, then the distinct
/// subject, predicate and object counts.
pub open spec fn gdir_row_bytes(r: GidRow) -> Seq<u8> {
    spec_u32_to_le_bytes(r.id_id) + spec_u32_to_le_bytes(r.gn_id)
        + spec_u64_to_le_bytes(r.sec.off) + spec_u64_to_le_bytes(r.sec.len) + spec_u64_to_le_bytes(r.n_triples)
        + spec_u32_to_le_bytes(r.n_s) + spec_u32_to_le_bytes(r.n_p) + spec_u32_to_le_bytes(r.n_o)
}

/// The bytes of the rows, one after the other.
pub open spec fn gdir_rows_bytes(rows: Seq<GidRow>) -> Seq<u8>
    decreases rows.len(),
{
    if rows.len() == 0 {
        seq![]
    } else {
        gdir_rows_bytes(rows.drop_last()) + gdir_row_bytes(rows.last())
    }
}

/// The graph directory: row count, row size 44, a reserved word, the rows.
pub closed spec fn gdir_bytes(rows: Seq<GidRow>) -> Seq<u8> {
    spec_u64_to_le_bytes(rows.len() as u64) + spec_u32_to_le_bytes(44u32)
        + spec_u32_to_le_bytes(0) + gdir_rows_bytes(rows)
}

/// The graph directory's bytes: row count, row size, reserved word, rows.
pub proof fn lemma_gdir_bytes(rows: Seq<GidRow>)
    ensures
        gdir_bytes(rows) == spec_u64_to_le_bytes(rows.len() as u64) + spec_u32_to_le_bytes(44u32)
            + spec_u32_to_le_bytes(0) + gdir_rows_bytes(rows),
{
}

/// Append the graph directory for `rows`.
pub fn write_gdir_rows(buf: &mut Vec<u8>, rows: &Vec<GidRow>)
    ensures
        final(buf)@ == old(buf)@ + gdir_bytes(rows@),
{
    push_u64(buf, rows.len() as u64);
    push_u32(buf, 44);
    push_u32(buf, 0);
    let ghost head = buf@;
    let mut i: usize = 0;
    assert(rows@.take(0) =~= Seq::<GidRow>::empty());
    while i < rows.len()
        invariant
            i <= rows@.len(),
            buf@ == head + gdir_rows_bytes(rows@.take(i as int)),
        decreases rows@.len() - i,
    {
        assert(rows@.take(i + 1).drop_last() =~= rows@.take(i as int));
        let r = rows[i];
        let ghost before = buf@;
        push_u32(buf, r.id_id);
        push_u32(buf, r.gn_id);
        push_u64(buf, r.sec.off);
        push_u64(buf, r.sec.len);
        push_u64(buf, r.n_triples);
        push_u32(buf, r.n_s);
        push_u32(buf, r.n_p);
        push_u32(buf, r.n_o);
        assert(buf@ =~= before + gdir_row_bytes(r));
        i = i + 1;
    }
    assert(rows@.take(i as int) =~= rows@);
    assert(buf@ =~= old(buf)@ + gdir_bytes(rows@));
}

// ---------------------------------------------------------------- triple blocks

/// The block of a group's sorted triples: encoding byte 0, the payload
/// length and the raw payload; or, with zstd, encoding byte 1 and the
/// compressed payload. `None` when the triples are out of order.
pub closed spec fn spec_group_block(t: Seq<Triple>, zstd: bool) -> Option<Seq<u8>> {
    if !raw_numbers_ok(t) {
        None
    } else {
        let raw = uvarint_cat(raw_numbers(t));
        if zstd {
            let c = zstd_compressed(raw);
            Some(seq![1u8] + spec_u32_to_le_bytes(c.len() as u32) + c)
        } else {
            Some(seq![0u8] + spec_u32_to_le_bytes(raw.len() as u32) + raw)
        }
    }
}

/// The directory row of a group whose block starts at `start`.
pub closed spec fn spec_group_row(id_id: u32, gn_id: u32, t: Seq<Triple>, start: int, block_len: int) -> GidRow {
    let c = csr_build(t);
    GidRow {
        id_id,
        gn_id,
        sec: Section { off: start as u64, len: block_len as u64 },
        n_triples: c.o_vals.len() as u32 as u64,
        n_s: c.s_vals.len() as u32,
        n_p: c.p_vals.len() as u32,
        n_o: c.o_vals.len() as u32,
    }
}

/// The identifying fields of a group's directory row.
pub proof fn lemma_group_row_fields(id_id: u32, gn_id: u32, t: Seq<Triple>, start: int, block_len: int)
    ensures
        spec_group_row(id_id, gn_id, t, start, block_len).id_id == id_id,
        spec_group_row(id_id, gn_id, t, start, block_len).gn_id == gn_id,
        spec_group_row(id_id, gn_id, t, start, block_len).sec == (Section { off: start as u64, len: block_len as u64 }),
        t.len() <= u32::MAX ==> spec_group_row(id_id, gn_id, t, start, block_len).n_triples == t.len(),
{
    crate::triples::lemma_csr_starts(t);
}

/// Append the block of one group and its directory row.
pub fn write_group_block(file: &mut Vec<u8>, gid_rows: &mut Vec<GidRow>, zstd: bool, id_id: u32, gn_id: u32, spo: &[Triple])
    -> (r: Result<(), R5Error>)
    ensures
        match spec_group_block(spo@, zstd) {
            None => r matches Err(e) && e is Corrupt,
            Some(b) => {
                &&& r is Ok
                &&& final(file)@ == old(file)@ + b
                &&& final(gid_rows)@ == old(gid_rows)@.push(spec_group_row(id_id, gn_id, spo@, old(file)@.len() as int, b.len() as int))
            },
        },
        r is Ok && spo@.len() <= u64::MAX && final(file)@.len() - old(file)@.len() <= u32::MAX
            ==> block_triples_at(final(file)@, old(file)@.len() as int, final(file)@.len() - old(file)@.len())
            == Outcome::Value(spo@),
{
    let start = file.len();
    let raw = build_raw_spo(spo)?;
    if zstd {
        let compressed = match zstd_encode(raw.raw.as_slice()) {
            Some(c) => c,
            None => return Err(R5Error::corrupt_msg("zstd encode")),
        };
        assert(zstd_decompressed(zstd_compressed(raw.raw@)) == Some(raw.raw@));
        file.push(1u8);
        push_u32(file, #[verifier::truncate] (compressed.len() as u32));
        extend_bytes(file, compressed.as_slice());
    } else {
        file.push(0u8);
        push_u32(file, #[verifier::truncate] (raw.raw.len() as u32));
        extend_bytes(file, raw.raw.as_slice());
    }
    let sec = Section { off: start as u64, len: (file.len() - start) as u64 };
    gid_rows.push(GidRow {
        id_id,
        gn_id,
        sec,
        n_triples: raw.n_t as u64,
        n_s: raw.n_s,
        n_p: raw.n_p,
        n_o: raw.n_t,
    });
    proof {
        let b = spec_group_block(spo@, zstd).unwrap();
        assert(file@ =~= old(file)@ + b);
        if spo@.len() <= u64::MAX && b.len() <= u32::MAX {
            lemma_block_roundtrip(spo@);
            let d = file@;
            let base = old(file)@.len() as int;
            lemma_auto_spec_u32_to_from_le_bytes();
            let payload = if zstd { zstd_compressed(raw.raw@) } else { raw.raw@ };
            let head = seq![(if zstd { 1u8 } else { 0u8 })] + spec_u32_to_le_bytes(payload.len() as u32);
            assert(b == head + payload);
            assert(d.subrange(base + 1, base + 5) =~= spec_u32_to_le_bytes(payload.len() as u32));
            assert(d.subrange(base + 5, base + 5 + payload.len()) =~= payload);
            assert(d[base] == (if zstd { 1u8 } else { 0u8 }));
        }
    }
    Ok(())
}

/// The triples of a block of `len` bytes at `off` of `d`, read as a graph
/// directory row pointing there would be.
pub open spec fn block_triples_at(d: Seq<u8>, off: int, len: int) -> Outcome<Seq<Triple>> {
    match spec_block(d, GDirRow {
        id_id: 0,
        gn_id: 0,
        triples_off: off as u64,
        triples_len: len as u64,
        n_triples: 0,
        n_s: 0,
        n_p: 0,
        n_o: 0,
    }) {
        None => Outcome::Corrupt,
        Some(BlockPayload::Raw(p)) => raw_outcome(Some(p)),
        Some(BlockPayload::Zstd(f)) => raw_outcome(zstd_decompressed(f)),
    }
}

/// An uncompressed group block read back: wherever the bytes the writer
/// made for triples `t` stand in a file, the block there decodes to `t`.
pub proof fn lemma_block_read_back(d: Seq<u8>, off: int, t: Seq<Triple>)
    requires
        spec_group_block(t, false) is Some,
        placed(d, off, spec_group_block(t, false).unwrap()),
        t.len() <= u64::MAX,
        spec_group_block(t, false).unwrap().len() <= u32::MAX,
        off + spec_group_block(t, false).unwrap().len() <= u64::MAX,
    ensures
        block_triples_at(d, off, spec_group_block(t, false).unwrap().len() as int) == Outcome::Value(t),
{
    let b = spec_group_block(t, false).unwrap();
    lemma_block_roundtrip(t);
    lemma_auto_spec_u32_to_from_le_bytes();
    let raw = uvarint_cat(raw_numbers(t));
    let head = seq![0u8] + spec_u32_to_le_bytes(raw.len() as u32);
    assert(b == head + raw);
    lemma_cat(head, raw);
    lemma_cat(seq![0u8], spec_u32_to_le_bytes(raw.len() as u32));
    lemma_within(d, off, b, 0, head);
    lemma_within(d, off, head, 1, spec_u32_to_le_bytes(raw.len() as u32));
    lemma_within(d, off, b, 5, raw);
    lemma_within(d, off, head, 0, seq![0u8]);
    assert(d.subrange(off, off + 1)[0] == 0u8);
    assert(d[off] == 0u8);
    lemma_read_placed(d, off + 1);
}

// ---------------------------------------------------------------- postings index

/// The encoding of one posting list: its length, then the first gid and the
/// deltas between consecutive gids; a single 0 when empty.
pub open spec fn posting_list_bytes(l: Seq<u64>) -> Seq<u8> {
    if l.len() == 0 {
        uvarint_bytes(0)
    } else {
        uvarint_bytes(l.len() as u64) + uvarint_bytes(l[0]) + posting_deltas(l)
    }
}

/// The varint deltas between consecutive gids of `l`.
pub open spec fn posting_deltas(l: Seq<u64>) -> Seq<u8>
    decreases l.len(),
{
    if l.len() <= 1 {
        seq![]
    } else {
        posting_deltas(l.drop_last()) + uvarint_bytes((l.last() - l[l.len() - 2]) as u64)
    }
}

/// The blob of all posting lists.
pub open spec fn postings_blob(lists: Seq<Seq<u64>>) -> Seq<u8>
    decreases lists.len(),
{
    if lists.len() == 0 {
        seq![]
    } else {
        postings_blob(lists.drop_last()) + posting_list_bytes(lists.last())
    }
}

/// The offsets of each list's end in the blob, after a leading 0.
pub open spec fn postings_offs(lists: Seq<Seq<u64>>) -> Seq<u8>
    decreases lists.len(),
{
    if lists.len() == 0 {
        spec_u64_to_le_bytes(0)
    } else {
        postings_offs(lists.drop_last()) + spec_u64_to_le_bytes(postings_blob(lists).len() as u64)
    }
}

/// A postings index section at `base`: key count, offsets position, blob
/// position, the `n + 1` offsets and the blob.
pub closed spec fn postings_section(base: int, lists: Seq<Seq<u64>>) -> Seq<u8> {
    let n = lists.len();
    spec_u64_to_le_bytes(n as u64) + spec_u64_to_le_bytes((base + 24) as u64)
        + spec_u64_to_le_bytes((base + 24 + 8 * (n + 1)) as u64) + postings_offs(lists) + postings_blob(lists)
}

/// Every list is in non-decreasing order.
pub open spec fn lists_sorted(lists: Seq<Seq<u64>>) -> bool {
    forall|k: int, i: int, j: int| 0 <= k < lists.len() && 0 <= i <= j < lists[k].len()
        ==> #[trigger] lists[k][i] <= #[trigger] lists[k][j]
}

fn push_posting_list(blob: &mut Vec<u8>, l: &Vec<u64>)
    requires
        forall|i: int, j: int| 0 <= i <= j < l@.len() ==> l@[i] <= l@[j],
    ensures
        final(blob)@ == old(blob)@ + posting_list_bytes(l@),
{
    if l.len() == 0 {
        push_uvarint(0, blob);
        return;
    }
    push_uvarint(l.len() as u64, blob);
    push_uvarint(l[0], blob);
    let ghost head = blob@;
    let mut i: usize = 1;
    assert(posting_deltas(l@.take(1)) =~= Seq::<u8>::empty());
    while i < l.len()
        invariant
            1 <= i <= l@.len(),
            forall|a: int, b: int| 0 <= a <= b < l@.len() ==> l@[a] <= l@[b],
            blob@ == head + posting_deltas(l@.take(i as int)),
        decreases l@.len() - i,
    {
        assert(l@.take(i + 1).drop_last() =~= l@.take(i as int));
        push_uvarint(l[i] - l[i - 1], blob);
        i = i + 1;
    }
    assert(l@.take(i as int) =~= l@);
}

/// The views of the lists.
pub open spec fn lists_view(v: Seq<Vec<u64>>) -> Seq<Seq<u64>> {
    v.map_values(|l: Vec<u64>| l@)
}

/// Append a postings index section for `lists`.
pub fn write_postings_index(buf: &mut Vec<u8>, lists: &Vec<Vec<u64>>) -> (sec: Section)
    requires
        lists_sorted(lists_view(lists@)),
    ensures
        final(buf)@ == old(buf)@ + postings_section(old(buf)@.len() as int, lists_view(lists@)),
        sec.off == old(buf)@.len(),
        sec.len == postings_section(old(buf)@.len() as int, lists_view(lists@)).len(),
{
    let ghost ls = lists_view(lists@);
    let off = buf.len();
    let mut offs: Vec<u8> = Vec::new();
    let mut blob: Vec<u8> = Vec::new();
    push_u64(&mut offs, 0);
    let mut k: usize = 0;
    assert(ls.take(0) =~= Seq::<Seq<u64>>::empty());
    while k < lists.len()
        invariant
            k <= lists@.len(),
            ls == lists_view(lists@),
            lists_sorted(ls),
            blob@ == postings_blob(ls.take(k as int)),
            offs@ == postings_offs(ls.take(k as int)),
        decreases lists@.len() - k,
    {
        assert(ls.take(k + 1).drop_last() =~= ls.take(k as int));
        assert(ls[k as int] == lists@[k as int]@);
        push_posting_list(&mut blob, &lists[k]);
        push_u64(&mut offs, blob.len() as u64);
        k = k + 1;
    }
    assert(ls.take(k as int) =~= ls);
    let n = lists.len() as u128;
    let ghost start = buf@;
    push_u64(buf, lists.len() as u64);
    push_u64(buf, #[verifier::truncate] ((off as u128 + 24) as u64));
    push_u64(buf, #[verifier::truncate] ((off as u128 + 24 + 8 * (n + 1)) as u64));
    extend_bytes(buf, offs.as_slice());
    extend_bytes(buf, blob.as_slice());
    assert(buf@ =~= start + postings_section(off as int, ls));
    Section { off: off as u64, len: (buf.len() - off) as u64 }
}

// ---------------------------------------------------------------- pair index

/// A pair entry: id, graph name, gid.
pub type PairEntry = (u32, u32, u64);

/// The 16-byte entries: id, graph name, gid as `u64`.
pub open spec fn pair_entries_bytes(pairs: Seq<PairEntry>) -> Seq<u8>
    decreases pairs.len(),
{
    if pairs.len() == 0 {
        seq![]
    } else {
        let p = pairs.last();
        pair_entries_bytes(pairs.drop_last()) + spec_u32_to_le_bytes(p.0) + spec_u32_to_le_bytes(p.1)
            + spec_u64_to_le_bytes(p.2)
    }
}

/// A pair index section at `base`: entry count, entries position, entries.
pub closed spec fn pair_section(base: int, pairs: Seq<PairEntry>) -> Seq<u8> {
    spec_u64_to_le_bytes(pairs.len() as u64) + spec_u64_to_le_bytes((base + 16) as u64)
        + pair_entries_bytes(pairs)
}

/// Append a pair index section for `pairs`.
pub fn write_pair_index(buf: &mut Vec<u8>, pairs: &Vec<PairEntry>) -> (sec: Section)
    ensures
        final(buf)@ == old(buf)@ + pair_section(old(buf)@.len() as int, pairs@),
        sec.off == old(buf)@.len(),
        sec.len == pair_section(old(buf)@.len() as int, pairs@).len(),
{
    let off = buf.len();
    let ghost start = buf@;
    push_u64(buf, pairs.len() as u64);
    push_u64(buf, #[verifier::truncate] ((off as u128 + 16) as u64));
    let ghost head = buf@;
    let mut k: usize = 0;
    assert(pairs@.take(0) =~= Seq::<PairEntry>::empty());
    while k < pairs.len()
        invariant
            k <= pairs@.len(),
            buf@ == head + pair_entries_bytes(pairs@.take(k as int)),
        decreases pairs@.len() - k,
    {
        assert(pairs@.take(k + 1).drop_last() =~= pairs@.take(k as int));
        let p = pairs[k];
        let ghost before = buf@;
        push_u32(buf, p.0);
        push_u32(buf, p.1);
        push_u64(buf, p.2);
        assert(buf@ =~= before + spec_u32_to_le_bytes(p.0) + spec_u32_to_le_bytes(p.1) + spec_u64_to_le_bytes(p.2));
        k = k + 1;
    }
    assert(pairs@.take(k as int) =~= pairs@);
    assert(buf@ =~= start + pair_section(off as int, pairs@));
    Section { off: off as u64, len: (buf.len() - off) as u64 }
}

// ---------------------------------------------------------------- table of contents

/// A TOC entry of 32 bytes: kind, reserved, offset, length, CRC (0 when
/// absent), reserved.
pub open spec fn toc_entry_bytes(kind: SectionKind, sec: Section, crc: u32) -> Seq<u8> {
    spec_u16_to_le_bytes(section_kind_code(kind)) + spec_u16_to_le_bytes(0) + spec_u64_to_le_bytes(sec.off)
        + spec_u64_to_le_bytes(sec.len) + spec_u32_to_le_bytes(crc) + spec_u32_to_le_bytes(0)
        + spec_u32_to_le_bytes(0)
}

/// The CRC recorded for a section of `file`: its CRC-32 when CRCs are on
/// and the section lies in the file, else 0.
pub open spec fn toc_crc(file: Seq<u8>, sec: Section, with_crc: bool) -> u32 {
    if with_crc && sec.off + sec.len <= file.len() {
        spec_crc32(file.subrange(sec.off as int, sec.off + sec.len))
    } else {
        0
    }
}

/// The TOC of `entries` for the sections of `file`.
pub closed spec fn toc_bytes(file: Seq<u8>, entries: Seq<TocEntry>, with_crc: bool) -> Seq<u8>
    decreases entries.len(),
{
    if entries.len() == 0 {
        seq![]
    } else {
        let e = entries.last();
        toc_bytes(file, entries.drop_last(), with_crc) + toc_entry_bytes(e.kind, e.section, toc_crc(file, e.section, with_crc))
    }
}

/// The TOC takes 32 bytes per entry.
pub proof fn lemma_toc_bytes_len(file: Seq<u8>, entries: Seq<TocEntry>, with_crc: bool)
    ensures
        toc_bytes(file, entries, with_crc).len() == 32 * entries.len(),
    decreases entries.len(),
{
    lemma_auto_spec_u16_to_from_le_bytes();
    lemma_auto_spec_u32_to_from_le_bytes();
    lemma_auto_spec_u64_to_from_le_bytes();
    if entries.len() > 0 {
        lemma_toc_bytes_len(file, entries.drop_last(), with_crc);
    }
}

/// The TOC takes 32 bytes per entry, entry `i` in bytes `32 i..32 i + 32`.
pub proof fn lemma_toc_bytes_entry(file: Seq<u8>, entries: Seq<TocEntry>, with_crc: bool, i: int)
    requires
        0 <= i < entries.len(),
    ensures
        toc_bytes(file, entries, with_crc).len() == 32 * entries.len(),
        toc_bytes(file, entries, with_crc).subrange(32 * i, 32 * i + 32)
            == toc_entry_bytes(entries[i].kind, entries[i].section, toc_crc(file, entries[i].section, with_crc)),
    decreases entries.len(),
{
    lemma_auto_spec_u16_to_from_le_bytes();
    lemma_auto_spec_u32_to_from_le_bytes();
    lemma_auto_spec_u64_to_from_le_bytes();
    let init = entries.drop_last();
    let e = entries.last();
    let eb = toc_entry_bytes(e.kind, e.section, toc_crc(file, e.section, with_crc));
    assert(eb.len() == 32);
    if i < entries.len() - 1 {
        lemma_toc_bytes_entry(file, init, with_crc, i);
        assert(init[i] == entries[i]);
        assert(toc_bytes(file, entries, with_crc).subrange(32 * i, 32 * i + 32)
            =~= toc_bytes(file, init, with_crc).subrange(32 * i, 32 * i + 32));
    } else {
        if init.len() > 0 {
            lemma_toc_bytes_entry(file, init, with_crc, 0);
        } else {
            assert(toc_bytes(file, init, with_crc) == Seq::<u8>::empty());
        }
        assert(toc_bytes(file, entries, with_crc).subrange(32 * i, 32 * i + 32) =~= eb);
    }
}

/// Append the TOC for `toc`, with CRCs of the sections of `file` when asked.
pub fn write_toc(file: &mut Vec<u8>, toc: &Vec<TocEntry>, with_crc: bool)
    requires
        forall|i: int| 0 <= i < toc@.len() ==> #[trigger] toc@[i].section.off + toc@[i].section.len <= old(file)@.len(),
    ensures
        final(file)@ == old(file)@ + toc_bytes(old(file)@, toc@, with_crc),
{
    let ghost base = file@;
    let mut i: usize = 0;
    assert(toc@.take(0) =~= Seq::<TocEntry>::empty());
    while i < toc.len()
        invariant
            i <= toc@.len(),
            forall|j: int| 0 <= j < toc@.len() ==> #[trigger] toc@[j].section.off + toc@[j].section.len <= base.len(),
            base.len() <= file@.len(),
            file@ == base + toc_bytes(base, toc@.take(i as int), with_crc),
        decreases toc@.len() - i,
    {
        assert(toc@.take(i + 1).drop_last() =~= toc@.take(i as int));
        let e = toc[i];
        let flen = file.len();
        assert(e.section.off + e.section.len <= base.len());
        let crc = if with_crc {
            let start = e.section.off as usize;
            let end = (e.section.off + e.section.len) as usize;
            assert(file@.subrange(start as int, end as int) =~= base.subrange(start as int, end as int));
            crc32_ieee(&file.as_slice()[start..end])
        } else {
            0
        };
        let ghost before = file@;
        push_u16(file, e.kind.as_u16());
        push_u16(file, 0);
        push_u64(file, e.section.off);
        push_u64(file, e.section.len);
        push_u32(file, crc);
        push_u32(file, 0);
        push_u32(file, 0);
        assert(file@ =~= before + toc_entry_bytes(e.kind, e.section, toc_crc(base, e.section, with_crc)));
        i = i + 1;
    }
    assert(toc@.take(i as int) =~= toc@);
}

} // verus!
