//! What a written file reads back as: it opens; its graph directory, string
//! dictionaries and triple blocks give back the rows, strings and triples
//! the writer put there; every tuple lands in the group of its id and graph
//! name, every triple of a group comes from a tuple, and no two groups share
//! an id and a graph name.
use vstd::prelude::*;
use vstd::bytes::*;
use crate::header::Section;
use crate::layout::{spec_gdir_row, GDirRow, Outcome};
use crate::le::{lemma_cat, lemma_read_placed, lemma_sub_piece, lemma_u32s_le_len, lemma_within, placed, le_u32_at};
use crate::posting_laws::lemma_u32s_entry;
use crate::reader::{spec_dict_get, spec_dict_parse, Dict, EntryRead};
use crate::sections::{gdir_bytes, gdir_row_bytes, gdir_rows_bytes, lemma_gdir_bytes, GidRow};
use crate::strdict::{concat_utf8, dict_header, flat_index, lemma_plain_offsets_last, lemma_str_dict_bytes,
    plain_offsets, sorted_index, spec_str_dict};
use crate::text::{lemma_utf8_roundtrip, utf8_bytes};
use crate::sections::{spec_group_block, spec_group_row};
use crate::writer::{dict_gnames, dict_ids, dict_terms, encode_all, group_runs, quint_gnames, quint_ids,
    sorted_encoded, spec_blocks, spec_file_image, spec_finish, toc_layout, Encoded, QuintView, Run, WriterOptions};
use crate::header::{SectionKind, TocEntry};
use crate::layout::{all_gids, spec_block_triples, spec_gdir_header, spec_graphref, spec_graphrefs, GraphRefView};
use crate::reader::{spec_term_parts, views_from_toc, R5tuFile, TermRead};
use crate::reader::{spec_find_section, spec_open_status, spec_toc, spec_toc_len, spec_toc_off};
use crate::sections::{block_triples_at, lemma_block_read_back, lemma_group_row_fields, lemma_toc_bytes_len, toc_bytes};
use crate::container_laws::{lemma_frame_roundtrip, written_entry};
use crate::termdict::spec_term_dict;
use crate::intern::{index_in, lemma_distinct_in_order};
use crate::sort::{ascending, lemma_encoded_obeys, order_le};
use vstd::relations::sorted_by;

verus! {

/// The directory row the reader finds for a written row.
pub open spec fn row_read(r: GidRow) -> GDirRow {
    GDirRow {
        id_id: r.id_id,
        gn_id: r.gn_id,
        triples_off: r.sec.off,
        triples_len: r.sec.len,
        n_triples: r.n_triples,
        n_s: r.n_s,
        n_p: r.n_p,
        n_o: r.n_o,
    }
}

proof fn lemma_rows_len(rows: Seq<GidRow>)
    ensures
        gdir_rows_bytes(rows).len() == 44 * rows.len(),
    decreases rows.len(),
{
    lemma_auto_spec_u32_to_from_le_bytes();
    lemma_auto_spec_u64_to_from_le_bytes();
    if rows.len() > 0 {
        lemma_rows_len(rows.drop_last());
    }
}

/// Row `k` stands at `44 * k` of the rows' bytes.
proof fn lemma_row_at(rows: Seq<GidRow>, k: int)
    requires
        0 <= k < rows.len(),
    ensures
        placed(gdir_rows_bytes(rows), 44 * k, gdir_row_bytes(rows[k])),
    decreases rows.len(),
{
    lemma_auto_spec_u32_to_from_le_bytes();
    lemma_auto_spec_u64_to_from_le_bytes();
    let init = rows.drop_last();
    lemma_rows_len(init);
    lemma_cat(gdir_rows_bytes(init), gdir_row_bytes(rows.last()));
    if k < rows.len() - 1 {
        lemma_row_at(init, k);
        lemma_within(gdir_rows_bytes(rows), 0, gdir_rows_bytes(init), 44 * k, gdir_row_bytes(rows[k]));
    }
}

/// The fields of a row read back where its bytes stand.
proof fn lemma_row_fields(d: Seq<u8>, off: int, r: GidRow)
    requires
        placed(d, off, gdir_row_bytes(r)),
    ensures
        le_u32_at(d, off) == r.id_id,
        le_u32_at(d, off + 4) == r.gn_id,
        crate::le::le_u64_at(d, off + 8) == r.sec.off,
        crate::le::le_u64_at(d, off + 16) == r.sec.len,
        crate::le::le_u64_at(d, off + 24) == r.n_triples,
        le_u32_at(d, off + 32) == r.n_s,
        le_u32_at(d, off + 36) == r.n_p,
        le_u32_at(d, off + 40) == r.n_o,
{
    lemma_auto_spec_u32_to_from_le_bytes();
    lemma_auto_spec_u64_to_from_le_bytes();
    let a1 = spec_u32_to_le_bytes(r.id_id);
    let a2 = a1 + spec_u32_to_le_bytes(r.gn_id);
    let a3 = a2 + spec_u64_to_le_bytes(r.sec.off);
    let a4 = a3 + spec_u64_to_le_bytes(r.sec.len);
    let a5 = a4 + spec_u64_to_le_bytes(r.n_triples);
    let a6 = a5 + spec_u32_to_le_bytes(r.n_s);
    let a7 = a6 + spec_u32_to_le_bytes(r.n_p);
    let a8 = a7 + spec_u32_to_le_bytes(r.n_o);
    assert(a8 == gdir_row_bytes(r));
    lemma_cat(a7, spec_u32_to_le_bytes(r.n_o));
    lemma_within(d, off, a8, 0, a7);
    lemma_within(d, off, a8, 40, spec_u32_to_le_bytes(r.n_o));
    lemma_cat(a6, spec_u32_to_le_bytes(r.n_p));
    lemma_within(d, off, a7, 0, a6);
    lemma_within(d, off, a7, 36, spec_u32_to_le_bytes(r.n_p));
    lemma_cat(a5, spec_u32_to_le_bytes(r.n_s));
    lemma_within(d, off, a6, 0, a5);
    lemma_within(d, off, a6, 32, spec_u32_to_le_bytes(r.n_s));
    lemma_cat(a4, spec_u64_to_le_bytes(r.n_triples));
    lemma_within(d, off, a5, 0, a4);
    lemma_within(d, off, a5, 24, spec_u64_to_le_bytes(r.n_triples));
    lemma_cat(a3, spec_u64_to_le_bytes(r.sec.len));
    lemma_within(d, off, a4, 0, a3);
    lemma_within(d, off, a4, 16, spec_u64_to_le_bytes(r.sec.len));
    lemma_cat(a2, spec_u64_to_le_bytes(r.sec.off));
    lemma_within(d, off, a3, 0, a2);
    lemma_within(d, off, a3, 8, spec_u64_to_le_bytes(r.sec.off));
    lemma_cat(a1, spec_u32_to_le_bytes(r.gn_id));
    lemma_within(d, off, a2, 0, a1);
    lemma_within(d, off, a2, 4, spec_u32_to_le_bytes(r.gn_id));
    lemma_read_placed(d, off);
    lemma_read_placed(d, off + 4);
    lemma_read_placed(d, off + 8);
    lemma_read_placed(d, off + 16);
    lemma_read_placed(d, off + 24);
    lemma_read_placed(d, off + 32);
    lemma_read_placed(d, off + 36);
    lemma_read_placed(d, off + 40);
}

/// A graph directory read back: wherever its bytes stand in a file, row
/// `k` of the written rows is what the reader finds for gid `k`, and a gid
/// past the rows is out of range.
pub proof fn lemma_gdir_read_back(d: Seq<u8>, off: int, rows: Seq<GidRow>, k: u64)
    requires
        placed(d, off, gdir_bytes(rows)),
        off + gdir_bytes(rows).len() <= u64::MAX,
    ensures
        crate::layout::spec_gdir_header(d, Section { off: off as u64, len: gdir_bytes(rows).len() as u64 })
            == Some((rows.len() as u64, 44u32)),
        spec_gdir_row(d, Section { off: off as u64, len: gdir_bytes(rows).len() as u64 }, k)
            == (if k < rows.len() { Outcome::Value(row_read(rows[k as int])) } else { Outcome::<GDirRow>::Invalid }),
{
    lemma_auto_spec_u32_to_from_le_bytes();
    lemma_auto_spec_u64_to_from_le_bytes();
    lemma_gdir_bytes(rows);
    lemma_rows_len(rows);
    let h1 = spec_u64_to_le_bytes(rows.len() as u64);
    let h2 = h1 + spec_u32_to_le_bytes(44u32);
    let h3 = h2 + spec_u32_to_le_bytes(0);
    let g = gdir_bytes(rows);
    assert(g == h3 + gdir_rows_bytes(rows));
    lemma_cat(h3, gdir_rows_bytes(rows));
    lemma_within(d, off, g, 0, h3);
    lemma_within(d, off, g, 16, gdir_rows_bytes(rows));
    lemma_cat(h2, spec_u32_to_le_bytes(0));
    lemma_within(d, off, h3, 0, h2);
    lemma_cat(h1, spec_u32_to_le_bytes(44u32));
    lemma_within(d, off, h2, 0, h1);
    lemma_within(d, off, h2, 8, spec_u32_to_le_bytes(44u32));
    lemma_read_placed(d, off);
    lemma_read_placed(d, off + 8);
    assert(crate::le::le_u64_at(d, off) == rows.len() as u64);
    assert(rows.len() <= u64::MAX);
    if k < rows.len() {
        let ki = k as int;
        lemma_row_at(rows, ki);
        lemma_within(d, off + 16, gdir_rows_bytes(rows), 44 * ki, gdir_row_bytes(rows[ki]));
        lemma_row_fields(d, off + 16 + 44 * ki, rows[ki]);
    }
}

// ---------------------------------------------------------------- string dictionaries

/// Where each string starts: the length of the strings before it.
proof fn lemma_offsets_are_prefix_lengths(ss: Seq<Seq<char>>, k: int)
    requires
        plain_offsets(ss) is Some,
        forall|i: int| 0 <= i < ss.len() ==> #[trigger] utf8_bytes(ss[i]).len() <= u32::MAX,
        0 <= k <= ss.len(),
    ensures
        plain_offsets(ss).unwrap().len() == ss.len() + 1,
        plain_offsets(ss).unwrap()[k] == concat_utf8(ss.take(k)).len(),
    decreases ss.len(),
{
    lemma_plain_offsets_last(ss);
    if ss.len() > 0 {
        let init = ss.drop_last();
        assert forall|i: int| 0 <= i < init.len() implies #[trigger] utf8_bytes(init[i]).len() <= u32::MAX by {
            assert(init[i] == ss[i]);
        }
        lemma_plain_offsets_last(init);
        if k < ss.len() {
            lemma_offsets_are_prefix_lengths(init, k);
            assert(init.take(k) =~= ss.take(k));
        } else {
            lemma_offsets_are_prefix_lengths(init, k - 1);
            assert(init.take(k - 1) =~= init);
            assert(ss.take(k) =~= ss);
            assert(utf8_bytes(ss[ss.len() - 1]).len() <= u32::MAX);
        }
    }
}

/// The strings before `k` are a prefix of all of them.
proof fn lemma_concat_prefix(ss: Seq<Seq<char>>, k: int)
    requires
        0 <= k <= ss.len(),
    ensures
        concat_utf8(ss.take(k)).len() <= concat_utf8(ss).len(),
        concat_utf8(ss).subrange(0, concat_utf8(ss.take(k)).len() as int) == concat_utf8(ss.take(k)),
    decreases ss.len() - k,
{
    if k == ss.len() {
        assert(ss.take(k) =~= ss);
        assert(concat_utf8(ss).subrange(0, concat_utf8(ss).len() as int) =~= concat_utf8(ss));
    } else {
        lemma_concat_prefix(ss, k + 1);
        assert(ss.take(k + 1).drop_last() =~= ss.take(k));
        let a = concat_utf8(ss.take(k));
        let b = concat_utf8(ss.take(k + 1));
        assert(b == a + utf8_bytes(ss[k]));
        assert(concat_utf8(ss).subrange(0, a.len() as int) =~= b.subrange(0, a.len() as int));
        assert(b.subrange(0, a.len() as int) =~= a);
    }
}

/// String `i` stands between its offsets in the blob.
proof fn lemma_string_at(ss: Seq<Seq<char>>, i: int)
    requires
        0 <= i < ss.len(),
    ensures
        concat_utf8(ss.take(i + 1)).len() == concat_utf8(ss.take(i)).len() + utf8_bytes(ss[i]).len(),
        concat_utf8(ss.take(i + 1)).len() <= concat_utf8(ss).len(),
        concat_utf8(ss).subrange(concat_utf8(ss.take(i)).len() as int, concat_utf8(ss.take(i + 1)).len() as int)
            == utf8_bytes(ss[i]),
{
    lemma_concat_prefix(ss, i + 1);
    assert(ss.take(i + 1).drop_last() =~= ss.take(i));
    let a = concat_utf8(ss.take(i));
    let b = concat_utf8(ss.take(i + 1));
    assert(b == a + utf8_bytes(ss[i]));
    lemma_sub_piece(concat_utf8(ss), 0, b, a.len() as int, b.len() as int);
    assert(b.subrange(a.len() as int, b.len() as int) =~= utf8_bytes(ss[i]));
}

/// The fields of a dictionary header read back where its bytes stand.
proof fn lemma_dict_header_fields(d: Seq<u8>, off: int, n: u32, a: u64, b: u64, c: u64, e: u64, f: u64, g: u64)
    requires
        placed(d, off, dict_header(n, a, b, c, e, f, g)),
    ensures
        le_u32_at(d, off) == n,
        crate::le::le_u64_at(d, off + 4) == a,
        crate::le::le_u64_at(d, off + 12) == b,
        crate::le::le_u64_at(d, off + 20) == c,
        crate::le::le_u64_at(d, off + 28) == e,
        crate::le::le_u64_at(d, off + 36) == f,
        crate::le::le_u64_at(d, off + 44) == g,
{
    lemma_auto_spec_u32_to_from_le_bytes();
    lemma_auto_spec_u64_to_from_le_bytes();
    let h1 = spec_u32_to_le_bytes(n);
    let h2 = h1 + spec_u64_to_le_bytes(a);
    let h3 = h2 + spec_u64_to_le_bytes(b);
    let h4 = h3 + spec_u64_to_le_bytes(c);
    let h5 = h4 + spec_u64_to_le_bytes(e);
    let h6 = h5 + spec_u64_to_le_bytes(f);
    let h7 = h6 + spec_u64_to_le_bytes(g);
    assert(h7 == dict_header(n, a, b, c, e, f, g));
    lemma_cat(h6, spec_u64_to_le_bytes(g));
    lemma_within(d, off, h7, 0, h6);
    lemma_within(d, off, h7, 44, spec_u64_to_le_bytes(g));
    lemma_cat(h5, spec_u64_to_le_bytes(f));
    lemma_within(d, off, h6, 0, h5);
    lemma_within(d, off, h6, 36, spec_u64_to_le_bytes(f));
    lemma_cat(h4, spec_u64_to_le_bytes(e));
    lemma_within(d, off, h5, 0, h4);
    lemma_within(d, off, h5, 28, spec_u64_to_le_bytes(e));
    lemma_cat(h3, spec_u64_to_le_bytes(c));
    lemma_within(d, off, h4, 0, h3);
    lemma_within(d, off, h4, 20, spec_u64_to_le_bytes(c));
    lemma_cat(h2, spec_u64_to_le_bytes(b));
    lemma_within(d, off, h3, 0, h2);
    lemma_within(d, off, h3, 12, spec_u64_to_le_bytes(b));
    lemma_cat(h1, spec_u64_to_le_bytes(a));
    lemma_within(d, off, h2, 0, h1);
    lemma_within(d, off, h2, 4, spec_u64_to_le_bytes(a));
    lemma_read_placed(d, off);
    lemma_read_placed(d, off + 4);
    lemma_read_placed(d, off + 12);
    lemma_read_placed(d, off + 20);
    lemma_read_placed(d, off + 28);
    lemma_read_placed(d, off + 36);
    lemma_read_placed(d, off + 44);
}

/// A string dictionary read back: wherever the bytes the writer made for
/// strings `ss` stand in a file, the reader parses the dictionary, finds
/// `ss.len()` entries, and entry `i` is `ss[i]`. (Each string's UTF-8 length
/// fits `u32`, as the offsets are `u32`.)
#[verifier::rlimit(50)]
#[verifier::spinoff_prover]
pub proof fn lemma_dict_read_back(d: Seq<u8>, base: int, ss: Seq<Seq<char>>, i: u32)
    requires
        spec_str_dict(base, ss) is Some,
        placed(d, base, spec_str_dict(base, ss).unwrap()),
        base + spec_str_dict(base, ss).unwrap().len() <= u64::MAX,
        ss.len() <= u32::MAX,
        forall|j: int| 0 <= j < ss.len() ==> #[trigger] utf8_bytes(ss[j]).len() <= u32::MAX,
    ensures
        ({
            let sec = Section { off: base as u64, len: spec_str_dict(base, ss).unwrap().len() as u64 };
            &&& spec_dict_parse(d, sec) is Some
            &&& spec_dict_parse(d, sec).unwrap().n == ss.len()
            &&& i < ss.len() ==> spec_dict_get(d, spec_dict_parse(d, sec).unwrap(), i) == EntryRead::Found(ss[i as int])
        }),
{
    lemma_auto_spec_u32_to_from_le_bytes();
    lemma_auto_spec_u64_to_from_le_bytes();
    lemma_str_dict_bytes(base, ss);
    let x = spec_str_dict(base, ss).unwrap();
    let o = plain_offsets(ss).unwrap();
    let blob = concat_utf8(ss);
    let offs = crate::le::u32s_le(o);
    let idx = flat_index(ss, sorted_index(ss));
    let blob_off = base + 52;
    let offs_off = blob_off + blob.len();
    let idx_off = if idx.len() > 0 { offs_off + offs.len() } else { 0 };
    let hd = dict_header(ss.len() as u32, blob_off as u64, blob.len() as u64, offs_off as u64,
        offs.len() as u64, idx_off as u64, idx.len() as u64);
    assert(x == hd + blob + offs + idx);
    assert(hd.len() == 52);
    lemma_cat(hd + blob + offs, idx);
    lemma_cat(hd + blob, offs);
    lemma_cat(hd, blob);
    lemma_within(d, base, x, 0, hd + blob + offs);
    lemma_within(d, base, hd + blob + offs, 0, hd + blob);
    lemma_within(d, base, hd + blob, 0, hd);
    lemma_within(d, base, hd + blob, 52, blob);
    lemma_within(d, base, hd + blob + offs, (52 + blob.len()) as int, offs);
    lemma_dict_header_fields(d, base, ss.len() as u32, blob_off as u64, blob.len() as u64, offs_off as u64,
        offs.len() as u64, idx_off as u64, idx.len() as u64);
    let sec = Section { off: base as u64, len: x.len() as u64 };
    let dict = Dict {
        sec,
        n: ss.len() as u32,
        blob: Section { off: blob_off as u64, len: blob.len() as u64 },
        offs: Section { off: offs_off as u64, len: offs.len() as u64 },
        idx: if idx_off as u64 != 0 { Some(Section { off: idx_off as u64, len: idx.len() as u64 }) } else { None },
    };
    assert(spec_dict_parse(d, sec) == Some(dict));
    if i < ss.len() {
        let ii = i as int;
        lemma_offsets_are_prefix_lengths(ss, ii);
        lemma_offsets_are_prefix_lengths(ss, ii + 1);
        lemma_string_at(ss, ii);
        lemma_u32s_entry(o, ii);
        lemma_u32s_entry(o, ii + 1);
        lemma_u32s_le_len(o);
        lemma_within(d, offs_off, offs, 4 * ii, spec_u32_to_le_bytes(o[ii]));
        lemma_within(d, offs_off, offs, 4 * ii + 4, spec_u32_to_le_bytes(o[ii + 1]));
        lemma_read_placed(d, offs_off + 4 * ii);
        lemma_read_placed(d, offs_off + 4 * ii + 4);
        let s0 = o[ii] as int;
        let e0 = o[ii + 1] as int;
        lemma_sub_piece(d, blob_off, blob, s0, e0);
        lemma_utf8_roundtrip(ss[ii]);
    }
}

// ---------------------------------------------------------------- triple blocks

/// Where group `k`'s block stands among the blocks written from `start`:
/// after the blocks of the groups before it, with the row that records it.
pub proof fn lemma_blocks_layout(start: int, runs: Seq<Run>, k: int)
    requires
        spec_blocks(start, runs, false) is Some,
        0 <= k < runs.len(),
    ensures
        ({
            let (b, rows) = spec_blocks(start, runs, false).unwrap();
            &&& rows.len() == runs.len()
            &&& spec_blocks(start, runs.take(k), false) is Some
            &&& spec_group_block(runs[k].triples, false) is Some
            &&& {
                let pb = spec_blocks(start, runs.take(k), false).unwrap().0;
                let gb = spec_group_block(runs[k].triples, false).unwrap();
                &&& rows[k] == spec_group_row(runs[k].key.0, runs[k].key.1, runs[k].triples, start + pb.len(),
                    gb.len() as int)
                &&& placed(b, pb.len() as int, gb)
            }
        }),
    decreases runs.len(),
{
    let init = runs.drop_last();
    lemma_blocks_rows_len(start, runs);
    if k < runs.len() - 1 {
        lemma_blocks_layout(start, init, k);
        assert(init.take(k) =~= runs.take(k));
        let (b0, rows0) = spec_blocks(start, init, false).unwrap();
        let gb = spec_group_block(runs.last().triples, false).unwrap();
        lemma_cat(b0, gb);
        let pb = spec_blocks(start, runs.take(k), false).unwrap().0;
        let gk = spec_group_block(runs[k].triples, false).unwrap();
        assert(init[k] == runs[k]);
        lemma_within(b0 + gb, 0, b0, pb.len() as int, gk);
    } else {
        assert(runs.take(k) =~= init);
        let (b0, rows0) = spec_blocks(start, init, false).unwrap();
        let gb = spec_group_block(runs.last().triples, false).unwrap();
        lemma_cat(b0, gb);
    }
}

proof fn lemma_blocks_rows_len(start: int, runs: Seq<Run>)
    requires
        spec_blocks(start, runs, false) is Some,
    ensures
        spec_blocks(start, runs, false).unwrap().1.len() == runs.len(),
    decreases runs.len(),
{
    if runs.len() > 0 {
        lemma_blocks_rows_len(start, runs.drop_last());
    }
}

/// Every run's key is the id and graph name of one of the records.
pub proof fn lemma_run_keys(e: Seq<Encoded>, k: int)
    requires
        0 <= k < group_runs(e).len(),
    ensures
        exists|j: int| 0 <= j < e.len() && group_runs(e)[k].key == (#[trigger] e[j].0, e[j].1),
    decreases e.len(),
{
    let init = e.drop_last();
    let r = group_runs(init);
    let x = e.last();
    if r.len() > 0 && r.last().key == (x.0, x.1) {
        if k < r.len() - 1 {
            lemma_run_keys(init, k);
            let j = choose|j: int| 0 <= j < init.len() && r[k].key == (#[trigger] init[j].0, init[j].1);
            assert(e[j] == init[j]);
        } else {
            assert(e[e.len() - 1] == x);
        }
    } else {
        if k < r.len() {
            lemma_run_keys(init, k);
            let j = choose|j: int| 0 <= j < init.len() && r[k].key == (#[trigger] init[j].0, init[j].1);
            assert(e[j] == init[j]);
        } else {
            assert(e[e.len() - 1] == x);
        }
    }
}

// ---------------------------------------------------------------- a written file

/// The groups a set of tuples is written as: the records sorted by (id,
/// graph name, S, P, O), one run per (id, graph name), in that order.
pub open spec fn written_runs(qs: Seq<QuintView>) -> Seq<Run> {
    group_runs(sorted_encoded(qs))
}

/// The image written for `qs`, when there is one.
pub open spec fn written_image(qs: Seq<QuintView>, opts: WriterOptions) -> Seq<u8> {
    match spec_file_image(qs, opts) {
        Outcome::Value(b) => b,
        _ => seq![],
    }
}

/// The sorted records are a sorted arrangement of the records.
proof fn lemma_sorted_encoded(qs: Seq<QuintView>)
    ensures
        ascending(sorted_encoded(qs)),
        sorted_encoded(qs).to_multiset() == encode_all(qs).to_multiset(),
{
    lemma_encoded_obeys();
    let leq = |a: Encoded, b: Encoded| order_le(a, b);
    let e = encode_all(qs);
    e.lemma_sort_by_ensures(leq);
    let w = e.sort_by(leq);
    assert(sorted_by(w, leq));
    assert(ascending(w)) by {
        assert forall|i: int, j: int| 0 <= i < j < w.len() implies order_le(#[trigger] w[i], #[trigger] w[j]) by {
            assert(leq(w[i], w[j]));
        }
    }
    assert(ascending(w) && w.to_multiset() == e.to_multiset());
}

/// A run's id and graph name are entries of the dictionaries.
proof fn lemma_run_key_bounds(qs: Seq<QuintView>, k: int)
    requires
        0 <= k < written_runs(qs).len(),
        dict_ids(qs).len() <= u32::MAX,
        dict_gnames(qs).len() <= u32::MAX,
    ensures
        (written_runs(qs)[k].key.0 as int) < dict_ids(qs).len(),
        (written_runs(qs)[k].key.1 as int) < dict_gnames(qs).len(),
{
    broadcast use vstd::seq_lib::group_to_multiset_ensures;
    let e = sorted_encoded(qs);
    lemma_sorted_encoded(qs);
    lemma_run_keys(e, k);
    let j = choose|j: int| 0 <= j < e.len() && written_runs(qs)[k].key == (#[trigger] e[j].0, e[j].1);
    assert(e.to_multiset().count(e[j]) > 0);
    assert(encode_all(qs).contains(e[j]));
    let m = choose|m: int| 0 <= m < encode_all(qs).len() && encode_all(qs)[m] == e[j];
    lemma_distinct_in_order(quint_ids(qs));
    lemma_distinct_in_order(quint_gnames(qs));
    assert(quint_ids(qs)[m] == qs[m].id);
    assert(quint_gnames(qs)[m] == qs[m].gname);
    assert(dict_ids(qs).contains(qs[m].id));
    assert(dict_gnames(qs).contains(qs[m].gname));
    let a = index_in(dict_ids(qs), qs[m].id);
    let b = index_in(dict_gnames(qs), qs[m].gname);
    assert(0 <= a < dict_ids(qs).len());
    assert(0 <= b < dict_gnames(qs).len());
}

/// The first entry of each kind in a TOC laid out as the writer lays it out.
proof fn lemma_find_in_layout(t: Seq<TocEntry>)
    requires
        t.len() == 8,
        t[0].kind == SectionKind::IdDict,
        t[1].kind == SectionKind::GNameDict,
        t[2].kind == SectionKind::TermDict,
        t[3].kind == SectionKind::TripleBlocks,
        t[4].kind == SectionKind::GDir,
        t[5].kind == SectionKind::IdxId2Gid,
        t[6].kind == SectionKind::IdxGName2Gid,
        t[7].kind == SectionKind::IdxPair2Gid,
    ensures
        spec_find_section(t, SectionKind::IdDict) == Some(t[0].section),
        spec_find_section(t, SectionKind::GNameDict) == Some(t[1].section),
        spec_find_section(t, SectionKind::TermDict) == Some(t[2].section),
        spec_find_section(t, SectionKind::TripleBlocks) == Some(t[3].section),
        spec_find_section(t, SectionKind::GDir) == Some(t[4].section),
        spec_find_section(t, SectionKind::IdxId2Gid) == Some(t[5].section),
        spec_find_section(t, SectionKind::IdxGName2Gid) == Some(t[6].section),
        spec_find_section(t, SectionKind::IdxPair2Gid) == Some(t[7].section),
{
    reveal_with_fuel(spec_find_section, 9);
    let t1 = t.drop_first();
    let t2 = t1.drop_first();
    let t3 = t2.drop_first();
    let t4 = t3.drop_first();
    let t5 = t4.drop_first();
    let t6 = t5.drop_first();
    let t7 = t6.drop_first();
    assert(t1[0] == t[1]);
    assert(t2[0] == t[2]);
    assert(t3[0] == t[3]);
    assert(t4[0] == t[4]);
    assert(t5[0] == t[5]);
    assert(t6[0] == t[6]);
    assert(t7[0] == t[7]);
}

/// Every triple of a run is the (S, P, O) of one of the records, and the
/// record has the run's id and graph name.
pub proof fn lemma_run_triples(e: Seq<Encoded>, k: int, t: int)
    requires
        0 <= k < group_runs(e).len(),
        0 <= t < group_runs(e)[k].triples.len(),
    ensures
        exists|j: int| 0 <= j < e.len() && group_runs(e)[k].triples[t] == (#[trigger] e[j].2, e[j].3, e[j].4)
            && group_runs(e)[k].key == (e[j].0, e[j].1),
    decreases e.len(),
{
    let init = e.drop_last();
    let r = group_runs(init);
    let x = e.last();
    assert(e[e.len() - 1] == x);
    if r.len() > 0 && r.last().key == (x.0, x.1) {
        if k < r.len() - 1 {
            lemma_run_triples(init, k, t);
            let j = choose|j: int| 0 <= j < init.len() && r[k].triples[t] == (#[trigger] init[j].2, init[j].3, init[j].4)
                && r[k].key == (init[j].0, init[j].1);
            assert(e[j] == init[j]);
        } else if t < r.last().triples.len() {
            lemma_run_triples(init, k, t);
            let j = choose|j: int| 0 <= j < init.len() && r[k].triples[t] == (#[trigger] init[j].2, init[j].3, init[j].4)
                && r[k].key == (init[j].0, init[j].1);
            assert(e[j] == init[j]);
        }
    } else {
        if k < r.len() {
            lemma_run_triples(init, k, t);
            let j = choose|j: int| 0 <= j < init.len() && r[k].triples[t] == (#[trigger] init[j].2, init[j].3, init[j].4)
                && r[k].key == (init[j].0, init[j].1);
            assert(e[j] == init[j]);
        }
    }
}

/// A run's term ids are entries of the term dictionary.
proof fn lemma_run_term_bounds(qs: Seq<QuintView>, k: int, t: int)
    requires
        0 <= k < written_runs(qs).len(),
        0 <= t < written_runs(qs)[k].triples.len(),
    ensures
        (written_runs(qs)[k].triples[t].0 as int) < dict_terms(qs).len(),
        (written_runs(qs)[k].triples[t].1 as int) < dict_terms(qs).len(),
        (written_runs(qs)[k].triples[t].2 as int) < dict_terms(qs).len(),
{
    broadcast use vstd::seq_lib::group_to_multiset_ensures;
    let e = sorted_encoded(qs);
    lemma_sorted_encoded(qs);
    lemma_run_triples(e, k, t);
    let j = choose|j: int| 0 <= j < e.len() && written_runs(qs)[k].triples[t] == (#[trigger] e[j].2, e[j].3, e[j].4)
        && written_runs(qs)[k].key == (e[j].0, e[j].1);
    assert(e.to_multiset().count(e[j]) > 0);
    assert(encode_all(qs).contains(e[j]));
    let m = choose|m: int| 0 <= m < encode_all(qs).len() && encode_all(qs)[m] == e[j];
    crate::writer::lemma_quint_terms_at(qs, m);
    lemma_distinct_in_order(crate::writer::quint_terms(qs));
    let qt = crate::writer::quint_terms(qs);
    assert(qt[3 * m] == qs[m].s && qt[3 * m + 1] == qs[m].p && qt[3 * m + 2] == qs[m].o);
    assert(dict_terms(qs).contains(qt[3 * m]));
    assert(dict_terms(qs).contains(qt[3 * m + 1]));
    assert(dict_terms(qs).contains(qt[3 * m + 2]));
    let a = index_in(dict_terms(qs), qs[m].s);
    let b = index_in(dict_terms(qs), qs[m].p);
    let c = index_in(dict_terms(qs), qs[m].o);
    assert(0 <= a < dict_terms(qs).len());
    assert(0 <= b < dict_terms(qs).len());
    assert(0 <= c < dict_terms(qs).len());
}

/// The terms of a written file read back: each term id of each group's
/// triples decodes, through the term dictionary the file's TOC lists, to
/// the term the tuples had there. Stated for uncompressed blocks, for
/// images that fit `u64` offsets, and for terms whose parts fit `u64`
/// lengths.
#[verifier::rlimit(100)]
#[verifier::spinoff_prover]
pub proof fn lemma_written_terms_read_back(qs: Seq<QuintView>, opts: WriterOptions, k: int, t: int)
    requires
        !opts.zstd,
        spec_file_image(qs, opts) is Value,
        written_image(qs, opts).len() <= u64::MAX,
        forall|j: int| 0 <= j < dict_terms(qs).len() ==> crate::term_laws::term_fits(#[trigger] dict_terms(qs)[j]),
        0 <= k < written_runs(qs).len(),
        0 <= t < written_runs(qs)[k].triples.len(),
    ensures
        ({
            let img = written_image(qs, opts);
            let td = crate::reader::spec_term_dict_parse(img, spec_find_section(spec_toc(img), SectionKind::TermDict).unwrap());
            let tr = written_runs(qs)[k].triples[t];
            &&& td is Some
            &&& crate::reader::spec_term_parts(img, td.unwrap(), tr.0) == crate::reader::TermRead::Found(dict_terms(qs)[tr.0 as int])
            &&& crate::reader::spec_term_parts(img, td.unwrap(), tr.1) == crate::reader::TermRead::Found(dict_terms(qs)[tr.1 as int])
            &&& crate::reader::spec_term_parts(img, td.unwrap(), tr.2) == crate::reader::TermRead::Found(dict_terms(qs)[tr.2 as int])
        }),
{
    let ids = dict_ids(qs);
    let gns = dict_gnames(qs);
    let terms = dict_terms(qs);
    let sorted = sorted_encoded(qs);
    let runs = group_runs(sorted);
    let img = written_image(qs, opts);
    assert(ids.len() <= u32::MAX && gns.len() <= u32::MAX);
    let d1 = spec_str_dict(32, ids).unwrap();
    let d2 = spec_str_dict((32 + d1.len()) as int, gns).unwrap();
    let d3 = spec_term_dict((32 + d1.len() + d2.len()) as int, terms, None)->Value_0;
    let tb_off: int = (32 + d1.len() + d2.len() + d3.len()) as int;
    let tb = spec_blocks(tb_off, runs, false).unwrap().0;
    let rows = spec_blocks(tb_off, runs, false).unwrap().1;
    let gd = gdir_bytes(rows);
    let ix_off: int = tb_off + tb.len() + gd.len();
    let p1 = crate::sections::postings_section(ix_off, crate::writer::gid_lists(crate::writer::row_ids(rows), ids.len()));
    let p2 = crate::sections::postings_section(ix_off + p1.len(), crate::writer::gid_lists(crate::writer::row_gns(rows), gns.len()));
    let p3 = crate::sections::pair_section(ix_off + p1.len() + p2.len(), crate::writer::sorted_pairs(rows));
    let f0 = Seq::new(32, |i: int| 0u8);
    let pre = f0 + d1 + d2 + d3 + tb + gd + (p1 + p2 + p3);
    let toc = toc_layout(d1.len() as int, d2.len() as int, d3.len() as int, tb.len() as int,
        gd.len() as int, p1.len() as int, p2.len() as int, p3.len() as int);
    assert(img == spec_finish(pre, toc, opts));
    // lengths
    lemma_toc_bytes_len(pre, toc, opts.with_crc);
    lemma_auto_spec_u16_to_from_le_bytes();
    lemma_auto_spec_u32_to_from_le_bytes();
    lemma_auto_spec_u64_to_from_le_bytes();
    let full = pre + toc_bytes(pre, toc, opts.with_crc);
    assert(crate::writer::header_bytes(pre.len() as int, toc.len() as int, opts.zstd).len() == 32);
    let body = crate::writer::header_bytes(pre.len() as int, toc.len() as int, opts.zstd) + full.subrange(32, full.len() as int);
    assert(crate::writer::footer_bytes(body).len() == 16);
    assert(img.len() == pre.len() + 32 * 8 + 16);
    lemma_frame_roundtrip(pre, toc, opts);
    // the TOC the reader sees
    let rt = spec_toc(img);
    assert(spec_toc_off(img) == pre.len());
    assert(spec_toc_len(img) == 8);
    assert forall|i: int| 0 <= i < 8 implies #[trigger] rt[i] == written_entry(pre, toc[i], opts.with_crc) by {
        assert(crate::header::spec_toc_entry(img, pre.len() + 32 * i) == Some(written_entry(pre, toc[i], opts.with_crc)));
    }
    assert(rt[0] == written_entry(pre, toc[0], opts.with_crc));
    assert(rt[1] == written_entry(pre, toc[1], opts.with_crc));
    assert(rt[2] == written_entry(pre, toc[2], opts.with_crc));
    assert(rt[3] == written_entry(pre, toc[3], opts.with_crc));
    assert(rt[4] == written_entry(pre, toc[4], opts.with_crc));
    assert(rt[5] == written_entry(pre, toc[5], opts.with_crc));
    assert(rt[6] == written_entry(pre, toc[6], opts.with_crc));
    assert(rt[7] == written_entry(pre, toc[7], opts.with_crc));
    lemma_find_in_layout(rt);
    // the pieces of `pre`
    let a1 = f0 + d1;
    let a2 = a1 + d2;
    let a3 = a2 + d3;
    let a4 = a3 + tb;
    let a5 = a4 + gd;
    assert(pre == a5 + (p1 + p2 + p3));
    lemma_cat(a5, p1 + p2 + p3);
    lemma_cat(a4, gd);
    lemma_cat(a3, tb);
    lemma_cat(a2, d3);
    lemma_cat(a1, d2);
    lemma_cat(f0, d1);
    lemma_within(pre, 0, a5, 0, a4);
    lemma_within(pre, 0, a5, a4.len() as int, gd);
    lemma_within(pre, 0, a4, 0, a3);
    lemma_within(pre, 0, a4, a3.len() as int, tb);
    lemma_within(pre, 0, a3, 0, a2);
    lemma_within(pre, 0, a2, 0, a1);
    lemma_within(pre, 0, a2, a1.len() as int, d2);
    lemma_within(pre, 0, a1, 32, d1);
    // the same pieces in the image
    assert forall|i: int| 0 <= i < 5 implies #[trigger] placed(img, toc[i].section.off as int,
        pre.subrange(toc[i].section.off as int, toc[i].section.off + toc[i].section.len)) by {
        assert(32 <= toc[i].section.off);
    }
    assert(placed(img, 32, d1)) by {
        assert(placed(img, toc[0].section.off as int, pre.subrange(toc[0].section.off as int, toc[0].section.off + toc[0].section.len)));
    }
    assert(placed(img, a1.len() as int, d2)) by {
        assert(placed(img, toc[1].section.off as int, pre.subrange(toc[1].section.off as int, toc[1].section.off + toc[1].section.len)));
    }
    assert(placed(img, tb_off, tb)) by {
        assert(placed(img, toc[3].section.off as int, pre.subrange(toc[3].section.off as int, toc[3].section.off + toc[3].section.len)));
    }
    assert(placed(img, a4.len() as int, gd)) by {
        assert(placed(img, toc[4].section.off as int, pre.subrange(toc[4].section.off as int, toc[4].section.off + toc[4].section.len)));
    }
    lemma_within(pre, 0, a3, a2.len() as int, d3);
    assert(placed(img, a2.len() as int, d3)) by {
        assert(placed(img, toc[2].section.off as int, pre.subrange(toc[2].section.off as int, toc[2].section.off + toc[2].section.len)));
    }
    assert(rt[2].section == Section { off: a2.len() as u64, len: d3.len() as u64 });
    lemma_run_term_bounds(qs, k, t);
    let tr = runs[k].triples[t];
    crate::term_laws::lemma_term_dict_read_back(img, a2.len() as int, terms, tr.0);
    crate::term_laws::lemma_term_dict_read_back(img, a2.len() as int, terms, tr.1);
    crate::term_laws::lemma_term_dict_read_back(img, a2.len() as int, terms, tr.2);
}

/// Every record lands in a run: in the run of its id and graph name, at
/// some position, as its (S, P, O).
proof fn lemma_runs_cover(e: Seq<Encoded>, j: int)
    requires
        0 <= j < e.len(),
    ensures
        exists|k: int, t: int| 0 <= k < group_runs(e).len() && 0 <= t < group_runs(e)[k].triples.len()
            && #[trigger] group_runs(e)[k].key == (e[j].0, e[j].1)
            && #[trigger] group_runs(e)[k].triples[t] == (e[j].2, e[j].3, e[j].4),
    decreases e.len(),
{
    let init = e.drop_last();
    let r = group_runs(init);
    let x = e.last();
    let g = group_runs(e);
    if j < e.len() - 1 {
        lemma_runs_cover(init, j);
        assert(init[j] == e[j]);
        let (k, t) = choose|k: int, t: int| 0 <= k < r.len() && 0 <= t < r[k].triples.len()
            && #[trigger] r[k].key == (init[j].0, init[j].1) && #[trigger] r[k].triples[t] == (init[j].2, init[j].3, init[j].4);
        if r.len() > 0 && r.last().key == (x.0, x.1) {
            assert(g[k].key == r[k].key);
            assert(g[k].triples[t] == r[k].triples[t]);
        } else {
            assert(g[k] == r[k]);
        }
    } else {
        if r.len() > 0 && r.last().key == (x.0, x.1) {
            let k = r.len() - 1;
            let t = r.last().triples.len() as int;
            assert(g[k].key == (e[j].0, e[j].1));
            assert(g[k].triples[t] == (e[j].2, e[j].3, e[j].4));
        } else {
            let k = r.len() as int;
            assert(g[k].key == (e[j].0, e[j].1));
            assert(g[k].triples[0] == (e[j].2, e[j].3, e[j].4));
        }
    }
}

/// The record of tuple `m` names its id, graph name and terms.
proof fn lemma_encoded_names(qs: Seq<QuintView>, m: int)
    requires
        0 <= m < qs.len(),
        dict_ids(qs).len() <= u32::MAX,
        dict_gnames(qs).len() <= u32::MAX,
        dict_terms(qs).len() <= u64::MAX,
    ensures
        ({
            let x = encode_all(qs)[m];
            &&& (x.0 as int) < dict_ids(qs).len() && dict_ids(qs)[x.0 as int] == qs[m].id
            &&& (x.1 as int) < dict_gnames(qs).len() && dict_gnames(qs)[x.1 as int] == qs[m].gname
            &&& (x.2 as int) < dict_terms(qs).len() && dict_terms(qs)[x.2 as int] == qs[m].s
            &&& (x.3 as int) < dict_terms(qs).len() && dict_terms(qs)[x.3 as int] == qs[m].p
            &&& (x.4 as int) < dict_terms(qs).len() && dict_terms(qs)[x.4 as int] == qs[m].o
        }),
{
    lemma_distinct_in_order(quint_ids(qs));
    lemma_distinct_in_order(quint_gnames(qs));
    lemma_distinct_in_order(crate::writer::quint_terms(qs));
    crate::writer::lemma_quint_terms_at(qs, m);
    let qt = crate::writer::quint_terms(qs);
    assert(quint_ids(qs)[m] == qs[m].id);
    assert(quint_gnames(qs)[m] == qs[m].gname);
    assert(dict_ids(qs).contains(quint_ids(qs)[m]));
    assert(dict_gnames(qs).contains(quint_gnames(qs)[m]));
    assert(dict_terms(qs).contains(qt[3 * m]));
    assert(dict_terms(qs).contains(qt[3 * m + 1]));
    assert(dict_terms(qs).contains(qt[3 * m + 2]));
    let a = index_in(dict_ids(qs), qs[m].id);
    let b = index_in(dict_gnames(qs), qs[m].gname);
    let c = index_in(dict_terms(qs), qs[m].s);
    let d = index_in(dict_terms(qs), qs[m].p);
    let f = index_in(dict_terms(qs), qs[m].o);
    assert(0 <= a < dict_ids(qs).len() && dict_ids(qs)[a] == qs[m].id);
    assert(0 <= b < dict_gnames(qs).len() && dict_gnames(qs)[b] == qs[m].gname);
    assert(0 <= c < dict_terms(qs).len() && dict_terms(qs)[c] == qs[m].s);
    assert(0 <= d < dict_terms(qs).len() && dict_terms(qs)[d] == qs[m].p);
    assert(0 <= f < dict_terms(qs).len() && dict_terms(qs)[f] == qs[m].o);
}

/// Every tuple is written into a group: the group of its id and graph
/// name holds its subject, predicate and object. With the read-back laws
/// of groups and terms, every tuple of a written file is read back.
pub proof fn lemma_every_tuple_has_a_group(qs: Seq<QuintView>, m: int)
    requires
        0 <= m < qs.len(),
        dict_ids(qs).len() <= u32::MAX,
        dict_gnames(qs).len() <= u32::MAX,
        dict_terms(qs).len() <= u64::MAX,
    ensures
        exists|k: int, t: int| #![trigger written_runs(qs)[k].triples[t]]
            0 <= k < written_runs(qs).len() && 0 <= t < written_runs(qs)[k].triples.len()
            && dict_ids(qs)[written_runs(qs)[k].key.0 as int] == qs[m].id
            && dict_gnames(qs)[written_runs(qs)[k].key.1 as int] == qs[m].gname
            && dict_terms(qs)[written_runs(qs)[k].triples[t].0 as int] == qs[m].s
            && dict_terms(qs)[written_runs(qs)[k].triples[t].1 as int] == qs[m].p
            && dict_terms(qs)[written_runs(qs)[k].triples[t].2 as int] == qs[m].o,
{
    broadcast use vstd::seq_lib::group_to_multiset_ensures;
    let e = sorted_encoded(qs);
    lemma_sorted_encoded(qs);
    let x = encode_all(qs)[m];
    assert(encode_all(qs).to_multiset().count(x) > 0);
    assert(e.contains(x));
    let j = choose|j: int| 0 <= j < e.len() && e[j] == x;
    lemma_runs_cover(e, j);
    lemma_encoded_names(qs, m);
    let (k, t) = choose|k: int, t: int| 0 <= k < group_runs(e).len() && 0 <= t < group_runs(e)[k].triples.len()
        && #[trigger] group_runs(e)[k].key == (e[j].0, e[j].1)
        && #[trigger] group_runs(e)[k].triples[t] == (e[j].2, e[j].3, e[j].4);
    let run = written_runs(qs)[k];
    assert(run.triples[t] == (x.2, x.3, x.4));
}

/// Every triple of every group comes from a tuple: one with the group's id
/// and graph name and with those terms. With the read-back laws, nothing is
/// read back from a written file that the tuples did not hold.
pub proof fn lemma_every_group_triple_has_a_tuple(qs: Seq<QuintView>, k: int, t: int)
    requires
        0 <= k < written_runs(qs).len(),
        0 <= t < written_runs(qs)[k].triples.len(),
        dict_ids(qs).len() <= u32::MAX,
        dict_gnames(qs).len() <= u32::MAX,
        dict_terms(qs).len() <= u64::MAX,
    ensures
        exists|m: int| 0 <= m < qs.len() && {
            let run = written_runs(qs)[k];
            let tr = run.triples[t];
            &&& dict_ids(qs)[run.key.0 as int] == (#[trigger] qs[m]).id
            &&& dict_gnames(qs)[run.key.1 as int] == qs[m].gname
            &&& dict_terms(qs)[tr.0 as int] == qs[m].s
            &&& dict_terms(qs)[tr.1 as int] == qs[m].p
            &&& dict_terms(qs)[tr.2 as int] == qs[m].o
        },
{
    broadcast use vstd::seq_lib::group_to_multiset_ensures;
    let e = sorted_encoded(qs);
    lemma_sorted_encoded(qs);
    lemma_run_triples(e, k, t);
    let j = choose|j: int| 0 <= j < e.len() && written_runs(qs)[k].triples[t] == (#[trigger] e[j].2, e[j].3, e[j].4)
        && written_runs(qs)[k].key == (e[j].0, e[j].1);
    assert(e.to_multiset().count(e[j]) > 0);
    assert(encode_all(qs).contains(e[j]));
    let m = choose|m: int| 0 <= m < encode_all(qs).len() && encode_all(qs)[m] == e[j];
    lemma_encoded_names(qs, m);
}

/// A written file opens: the image the writer makes for a set of tuples
/// passes every check the reader makes on opening (header, TOC, section
/// bounds and CRCs, section order, required sections, dictionaries, global
/// CRC). Stated for images that fit `u64` offsets and for ids and graph
/// names whose UTF-8 fits `u32` offsets.
#[verifier::rlimit(100)]
#[verifier::spinoff_prover]
pub proof fn lemma_written_file_opens(qs: Seq<QuintView>, opts: WriterOptions)
    requires
        !opts.zstd,
        spec_file_image(qs, opts) is Value,
        written_image(qs, opts).len() <= u64::MAX,
        forall|j: int| 0 <= j < dict_ids(qs).len() ==> #[trigger] utf8_bytes(dict_ids(qs)[j]).len() <= u32::MAX,
        forall|j: int| 0 <= j < dict_gnames(qs).len() ==> #[trigger] utf8_bytes(dict_gnames(qs)[j]).len() <= u32::MAX,
    ensures
        spec_open_status(written_image(qs, opts)) == 0,
{
    let ids = dict_ids(qs);
    let gns = dict_gnames(qs);
    let terms = dict_terms(qs);
    let sorted = sorted_encoded(qs);
    let runs = group_runs(sorted);
    let img = written_image(qs, opts);
    assert(ids.len() <= u32::MAX && gns.len() <= u32::MAX);
    let d1 = spec_str_dict(32, ids).unwrap();
    let d2 = spec_str_dict((32 + d1.len()) as int, gns).unwrap();
    let d3 = spec_term_dict((32 + d1.len() + d2.len()) as int, terms, None)->Value_0;
    let tb_off: int = (32 + d1.len() + d2.len() + d3.len()) as int;
    let tb = spec_blocks(tb_off, runs, false).unwrap().0;
    let rows = spec_blocks(tb_off, runs, false).unwrap().1;
    let gd = gdir_bytes(rows);
    let ix_off: int = tb_off + tb.len() + gd.len();
    let p1 = crate::sections::postings_section(ix_off, crate::writer::gid_lists(crate::writer::row_ids(rows), ids.len()));
    let p2 = crate::sections::postings_section(ix_off + p1.len(), crate::writer::gid_lists(crate::writer::row_gns(rows), gns.len()));
    let p3 = crate::sections::pair_section(ix_off + p1.len() + p2.len(), crate::writer::sorted_pairs(rows));
    let f0 = Seq::new(32, |i: int| 0u8);
    let pre = f0 + d1 + d2 + d3 + tb + gd + (p1 + p2 + p3);
    let toc = toc_layout(d1.len() as int, d2.len() as int, d3.len() as int, tb.len() as int,
        gd.len() as int, p1.len() as int, p2.len() as int, p3.len() as int);
    assert(img == spec_finish(pre, toc, opts));
    // lengths
    lemma_toc_bytes_len(pre, toc, opts.with_crc);
    lemma_auto_spec_u16_to_from_le_bytes();
    lemma_auto_spec_u32_to_from_le_bytes();
    lemma_auto_spec_u64_to_from_le_bytes();
    let full = pre + toc_bytes(pre, toc, opts.with_crc);
    assert(crate::writer::header_bytes(pre.len() as int, toc.len() as int, opts.zstd).len() == 32);
    let body = crate::writer::header_bytes(pre.len() as int, toc.len() as int, opts.zstd) + full.subrange(32, full.len() as int);
    assert(crate::writer::footer_bytes(body).len() == 16);
    assert(img.len() == pre.len() + 32 * 8 + 16);
    lemma_frame_roundtrip(pre, toc, opts);
    // the TOC the reader sees
    let rt = spec_toc(img);
    assert(spec_toc_off(img) == pre.len());
    assert(spec_toc_len(img) == 8);
    assert forall|i: int| 0 <= i < 8 implies #[trigger] rt[i] == written_entry(pre, toc[i], opts.with_crc) by {
        assert(crate::header::spec_toc_entry(img, pre.len() + 32 * i) == Some(written_entry(pre, toc[i], opts.with_crc)));
    }
    assert(rt[0] == written_entry(pre, toc[0], opts.with_crc));
    assert(rt[1] == written_entry(pre, toc[1], opts.with_crc));
    assert(rt[2] == written_entry(pre, toc[2], opts.with_crc));
    assert(rt[3] == written_entry(pre, toc[3], opts.with_crc));
    assert(rt[4] == written_entry(pre, toc[4], opts.with_crc));
    assert(rt[5] == written_entry(pre, toc[5], opts.with_crc));
    assert(rt[6] == written_entry(pre, toc[6], opts.with_crc));
    assert(rt[7] == written_entry(pre, toc[7], opts.with_crc));
    lemma_find_in_layout(rt);
    // the pieces of `pre`
    let a1 = f0 + d1;
    let a2 = a1 + d2;
    let a3 = a2 + d3;
    let a4 = a3 + tb;
    let a5 = a4 + gd;
    assert(pre == a5 + (p1 + p2 + p3));
    lemma_cat(a5, p1 + p2 + p3);
    lemma_cat(a4, gd);
    lemma_cat(a3, tb);
    lemma_cat(a2, d3);
    lemma_cat(a1, d2);
    lemma_cat(f0, d1);
    lemma_within(pre, 0, a5, 0, a4);
    lemma_within(pre, 0, a5, a4.len() as int, gd);
    lemma_within(pre, 0, a4, 0, a3);
    lemma_within(pre, 0, a4, a3.len() as int, tb);
    lemma_within(pre, 0, a3, 0, a2);
    lemma_within(pre, 0, a2, 0, a1);
    lemma_within(pre, 0, a2, a1.len() as int, d2);
    lemma_within(pre, 0, a1, 32, d1);
    // the same pieces in the image
    assert forall|i: int| 0 <= i < 5 implies #[trigger] placed(img, toc[i].section.off as int,
        pre.subrange(toc[i].section.off as int, toc[i].section.off + toc[i].section.len)) by {
        assert(32 <= toc[i].section.off);
    }
    assert(placed(img, 32, d1)) by {
        assert(placed(img, toc[0].section.off as int, pre.subrange(toc[0].section.off as int, toc[0].section.off + toc[0].section.len)));
    }
    assert(placed(img, a1.len() as int, d2)) by {
        assert(placed(img, toc[1].section.off as int, pre.subrange(toc[1].section.off as int, toc[1].section.off + toc[1].section.len)));
    }
    assert(placed(img, tb_off, tb)) by {
        assert(placed(img, toc[3].section.off as int, pre.subrange(toc[3].section.off as int, toc[3].section.off + toc[3].section.len)));
    }
    assert(placed(img, a4.len() as int, gd)) by {
        assert(placed(img, toc[4].section.off as int, pre.subrange(toc[4].section.off as int, toc[4].section.off + toc[4].section.len)));
    }
    // every entry lies in the file and keeps its CRC
    let o = seq![32int, a1.len() as int, a2.len() as int, a3.len() as int, a4.len() as int, a5.len() as int,
        (a5.len() + p1.len()) as int, (a5.len() + p1.len() + p2.len()) as int, pre.len() as int];
    assert forall|i: int| 0 <= i < 8 implies (#[trigger] rt[i]).section.off == o[i] && rt[i].section.off + rt[i].section.len == o[i + 1] by {}
    assert forall|i: int| 0 <= i < 8 implies crate::reader::toc_entry_ok(img, #[trigger] rt[i]) by {
        assert(32 <= toc[i].section.off);
        assert(img.subrange(toc[i].section.off as int, toc[i].section.off + toc[i].section.len)
            == pre.subrange(toc[i].section.off as int, toc[i].section.off + toc[i].section.len));
    }
    assert(crate::reader::toc_no_overlap(rt)) by {
        assert forall|i: int, j: int| #![trigger rt[i], rt[j]]
            0 <= i < rt.len() && 0 <= j < rt.len() && i != j
                && (rt[i].section.off < rt[j].section.off
                    || (rt[i].section.off == rt[j].section.off && i < j))
                implies rt[i].section.off + rt[i].section.len <= rt[j].section.off by {
            assert(forall|a: int, b: int| 0 <= a <= b <= 8 ==> o[a] <= o[b]) by {
                assert(o[0] <= o[1] && o[1] <= o[2] && o[2] <= o[3] && o[3] <= o[4]);
                assert(o[4] <= o[5] && o[5] <= o[6] && o[6] <= o[7] && o[7] <= o[8]);
            }
            if j < i {
                assert(o[j] <= o[i]);
            } else {
                assert(o[i + 1] <= o[j]);
            }
        }
    }
    // the dictionaries parse
    lemma_dict_read_back(img, 32, ids, 0);
    lemma_dict_read_back(img, a1.len() as int, gns, 0);
    crate::termdict::lemma_term_dict_len((32 + d1.len() + d2.len()) as int, terms, None);
    assert(rt[0].section == Section { off: 32u64, len: d1.len() as u64 });
    assert(rt[1].section == Section { off: a1.len() as u64, len: d2.len() as u64 });
    assert(rt[2].section == Section { off: a2.len() as u64, len: d3.len() as u64 });
    assert(crate::reader::spec_term_dict_parse(img, rt[2].section) is Some);
    assert(crate::reader::dicts_ok(img, rt));
    assert(crate::reader::required_sections_present(rt));
    assert(crate::reader::footer_ok(img));
    assert(crate::reader::spec_toc_ok(img));
}

/// Every group of a written file reads back: the graph directory the TOC
/// lists counts one group per (id, graph name) run of the tuples, and for
/// each run, the reader's graph group of the same position names that
/// id and graph name through the dictionaries, and its triple block decodes
/// to the run's triples (as term ids), all through the sections the file's
/// TOC lists. Stated for uncompressed blocks, for images that fit `u64`
/// offsets, for ids and graph names whose UTF-8 fits `u32` offsets, and for
/// a block that fits the `u32` length its header records.
#[verifier::rlimit(100)]
#[verifier::spinoff_prover]
pub proof fn lemma_written_groups_read_back(qs: Seq<QuintView>, opts: WriterOptions, k: int)
    requires
        !opts.zstd,
        spec_file_image(qs, opts) is Value,
        written_image(qs, opts).len() <= u64::MAX,
        forall|j: int| 0 <= j < dict_ids(qs).len() ==> #[trigger] utf8_bytes(dict_ids(qs)[j]).len() <= u32::MAX,
        forall|j: int| 0 <= j < dict_gnames(qs).len() ==> #[trigger] utf8_bytes(dict_gnames(qs)[j]).len() <= u32::MAX,
        0 <= k < written_runs(qs).len() ==> {
            &&& spec_group_block(written_runs(qs)[k].triples, false) is Some
            &&& spec_group_block(written_runs(qs)[k].triples, false).unwrap().len() <= u32::MAX
            &&& written_runs(qs)[k].triples.len() <= u64::MAX
        },
    ensures
        ({
            let img = written_image(qs, opts);
            let toc = spec_toc(img);
            let run = written_runs(qs)[k];
            let gdir = spec_find_section(toc, SectionKind::GDir).unwrap();
            let id_dict = spec_dict_parse(img, spec_find_section(toc, SectionKind::IdDict).unwrap());
            let gn_dict = spec_dict_parse(img, spec_find_section(toc, SectionKind::GNameDict).unwrap());
            &&& spec_toc_len(img) == 8
            &&& crate::layout::spec_gdir_header(img, gdir) == Some((written_runs(qs).len() as u64, 44u32))
            &&& id_dict is Some
            &&& gn_dict is Some
            &&& written_runs(qs).len() <= u64::MAX
            &&& 0 <= k < written_runs(qs).len() ==> {
                &&& spec_graphref(img, id_dict.unwrap(), gn_dict.unwrap(), gdir, k as u64) matches Outcome::Value(g)
                    && g.gid == k && g.id == dict_ids(qs)[run.key.0 as int]
                    && g.graphname == dict_gnames(qs)[run.key.1 as int]
                    && (run.triples.len() <= u32::MAX ==> g.n_triples == run.triples.len())
                &&& spec_block_triples(img, gdir, k as u64) == Outcome::Value(run.triples)
            }
        }),
{
    let ids = dict_ids(qs);
    let gns = dict_gnames(qs);
    let terms = dict_terms(qs);
    let sorted = sorted_encoded(qs);
    let runs = group_runs(sorted);
    let img = written_image(qs, opts);
    assert(ids.len() <= u32::MAX && gns.len() <= u32::MAX);
    let d1 = spec_str_dict(32, ids).unwrap();
    let d2 = spec_str_dict((32 + d1.len()) as int, gns).unwrap();
    let d3 = spec_term_dict((32 + d1.len() + d2.len()) as int, terms, None)->Value_0;
    let tb_off: int = (32 + d1.len() + d2.len() + d3.len()) as int;
    let tb = spec_blocks(tb_off, runs, false).unwrap().0;
    let rows = spec_blocks(tb_off, runs, false).unwrap().1;
    let gd = gdir_bytes(rows);
    let ix_off: int = tb_off + tb.len() + gd.len();
    let p1 = crate::sections::postings_section(ix_off, crate::writer::gid_lists(crate::writer::row_ids(rows), ids.len()));
    let p2 = crate::sections::postings_section(ix_off + p1.len(), crate::writer::gid_lists(crate::writer::row_gns(rows), gns.len()));
    let p3 = crate::sections::pair_section(ix_off + p1.len() + p2.len(), crate::writer::sorted_pairs(rows));
    let f0 = Seq::new(32, |i: int| 0u8);
    let pre = f0 + d1 + d2 + d3 + tb + gd + (p1 + p2 + p3);
    let toc = toc_layout(d1.len() as int, d2.len() as int, d3.len() as int, tb.len() as int,
        gd.len() as int, p1.len() as int, p2.len() as int, p3.len() as int);
    assert(img == spec_finish(pre, toc, opts));
    // lengths
    lemma_toc_bytes_len(pre, toc, opts.with_crc);
    lemma_auto_spec_u16_to_from_le_bytes();
    lemma_auto_spec_u32_to_from_le_bytes();
    lemma_auto_spec_u64_to_from_le_bytes();
    let full = pre + toc_bytes(pre, toc, opts.with_crc);
    assert(crate::writer::header_bytes(pre.len() as int, toc.len() as int, opts.zstd).len() == 32);
    let body = crate::writer::header_bytes(pre.len() as int, toc.len() as int, opts.zstd) + full.subrange(32, full.len() as int);
    assert(crate::writer::footer_bytes(body).len() == 16);
    assert(img.len() == pre.len() + 32 * 8 + 16);
    lemma_frame_roundtrip(pre, toc, opts);
    // the TOC the reader sees
    let rt = spec_toc(img);
    assert(spec_toc_off(img) == pre.len());
    assert(spec_toc_len(img) == 8);
    assert forall|i: int| 0 <= i < 8 implies #[trigger] rt[i] == written_entry(pre, toc[i], opts.with_crc) by {
        assert(crate::header::spec_toc_entry(img, pre.len() + 32 * i) == Some(written_entry(pre, toc[i], opts.with_crc)));
    }
    assert(rt[0] == written_entry(pre, toc[0], opts.with_crc));
    assert(rt[1] == written_entry(pre, toc[1], opts.with_crc));
    assert(rt[2] == written_entry(pre, toc[2], opts.with_crc));
    assert(rt[3] == written_entry(pre, toc[3], opts.with_crc));
    assert(rt[4] == written_entry(pre, toc[4], opts.with_crc));
    assert(rt[5] == written_entry(pre, toc[5], opts.with_crc));
    assert(rt[6] == written_entry(pre, toc[6], opts.with_crc));
    assert(rt[7] == written_entry(pre, toc[7], opts.with_crc));
    lemma_find_in_layout(rt);
    // the pieces of `pre`
    let a1 = f0 + d1;
    let a2 = a1 + d2;
    let a3 = a2 + d3;
    let a4 = a3 + tb;
    let a5 = a4 + gd;
    assert(pre == a5 + (p1 + p2 + p3));
    lemma_cat(a5, p1 + p2 + p3);
    lemma_cat(a4, gd);
    lemma_cat(a3, tb);
    lemma_cat(a2, d3);
    lemma_cat(a1, d2);
    lemma_cat(f0, d1);
    lemma_within(pre, 0, a5, 0, a4);
    lemma_within(pre, 0, a5, a4.len() as int, gd);
    lemma_within(pre, 0, a4, 0, a3);
    lemma_within(pre, 0, a4, a3.len() as int, tb);
    lemma_within(pre, 0, a3, 0, a2);
    lemma_within(pre, 0, a2, 0, a1);
    lemma_within(pre, 0, a2, a1.len() as int, d2);
    lemma_within(pre, 0, a1, 32, d1);
    // the same pieces in the image
    assert forall|i: int| 0 <= i < 5 implies #[trigger] placed(img, toc[i].section.off as int,
        pre.subrange(toc[i].section.off as int, toc[i].section.off + toc[i].section.len)) by {
        assert(32 <= toc[i].section.off);
    }
    assert(placed(img, 32, d1)) by {
        assert(placed(img, toc[0].section.off as int, pre.subrange(toc[0].section.off as int, toc[0].section.off + toc[0].section.len)));
    }
    assert(placed(img, a1.len() as int, d2)) by {
        assert(placed(img, toc[1].section.off as int, pre.subrange(toc[1].section.off as int, toc[1].section.off + toc[1].section.len)));
    }
    assert(placed(img, tb_off, tb)) by {
        assert(placed(img, toc[3].section.off as int, pre.subrange(toc[3].section.off as int, toc[3].section.off + toc[3].section.len)));
    }
    assert(placed(img, a4.len() as int, gd)) by {
        assert(placed(img, toc[4].section.off as int, pre.subrange(toc[4].section.off as int, toc[4].section.off + toc[4].section.len)));
    }
    // the directory's header
    if runs.len() == 0 {
        assert(rows.len() == 0);
    } else {
        lemma_blocks_layout(tb_off, runs, 0);
    }
    lemma_gdir_bytes(rows);
    lemma_rows_len(rows);
    lemma_gdir_read_back(img, a4.len() as int, rows, 0);
    assert(rt[4].section == Section { off: a4.len() as u64, len: gd.len() as u64 });
    lemma_dict_read_back(img, 32, ids, 0);
    lemma_dict_read_back(img, a1.len() as int, gns, 0);
    assert(rt[0].section == Section { off: 32u64, len: d1.len() as u64 });
    assert(rt[1].section == Section { off: a1.len() as u64, len: d2.len() as u64 });
    if 0 <= k < runs.len() {
    // the dictionaries, the directory and the block
    lemma_run_key_bounds(qs, k);
    let run = runs[k];
    lemma_dict_read_back(img, 32, ids, run.key.0);
    lemma_dict_read_back(img, a1.len() as int, gns, run.key.1);
    lemma_gdir_read_back(img, a4.len() as int, rows, k as u64);
    lemma_blocks_layout(tb_off, runs, k);
    let pb = spec_blocks(tb_off, runs.take(k), false).unwrap().0;
    let gb = spec_group_block(run.triples, false).unwrap();
    lemma_group_row_fields(run.key.0, run.key.1, run.triples, tb_off + pb.len(), gb.len() as int);
    lemma_within(img, tb_off, tb, pb.len() as int, gb);
    lemma_block_read_back(img, tb_off + pb.len(), run.triples);
    let gsec = Section { off: a4.len() as u64, len: gd.len() as u64 };
    assert(rt[4].section == gsec);
    assert(rt[0].section == Section { off: 32u64, len: d1.len() as u64 });
    assert(rt[1].section == Section { off: a1.len() as u64, len: d2.len() as u64 });
    let idd = spec_dict_parse(img, rt[0].section).unwrap();
    let gnd = spec_dict_parse(img, rt[1].section).unwrap();
    let row = rows[k];
    lemma_gdir_bytes(rows);
    lemma_rows_len(rows);
    assert(gd.len() == 16 + 44 * rows.len());
    assert(k < rows.len() && rows.len() <= u64::MAX);
    assert((k as u64) as int == k);
    assert(row.id_id == run.key.0 && row.gn_id == run.key.1);
    assert(row.sec == Section { off: (tb_off + pb.len()) as u64, len: gb.len() as u64 });
    assert(spec_gdir_row(img, gsec, k as u64) == Outcome::Value(row_read(row)));
    assert(spec_dict_get(img, idd, row.id_id) == EntryRead::Found(ids[run.key.0 as int]));
    assert(spec_dict_get(img, gnd, row.gn_id) == EntryRead::Found(gns[run.key.1 as int]));
    assert(block_triples_at(img, tb_off + pb.len(), gb.len() as int) == Outcome::Value(run.triples));
    }
}

/// In the order of records, the id and graph name come first.
proof fn lemma_record_order(a: Encoded, b: Encoded)
    requires
        order_le(a, b),
    ensures
        a.0 < b.0 || (a.0 == b.0 && a.1 <= b.1),
{
    lemma_encoded_obeys();
}

/// (id, graph name) keys in strictly increasing order.
pub open spec fn key_lt(a: (u32, u32), b: (u32, u32)) -> bool {
    a.0 < b.0 || (a.0 == b.0 && a.1 < b.1)
}

/// The runs of sorted records have strictly increasing keys, each no
/// greater than the last record's.
proof fn lemma_run_keys_increasing(e: Seq<Encoded>)
    requires
        ascending(e),
    ensures
        forall|i: int, j: int| 0 <= i < j < group_runs(e).len() ==> key_lt(#[trigger] group_runs(e)[i].key, #[trigger] group_runs(e)[j].key),
        e.len() > 0 ==> group_runs(e).len() > 0 && group_runs(e).last().key == (e.last().0, e.last().1),
    decreases e.len(),
{
    if e.len() > 0 {
        let init = e.drop_last();
        assert(ascending(init)) by {
            assert forall|i: int, j: int| 0 <= i < j < init.len() implies order_le(#[trigger] init[i], #[trigger] init[j]) by {
                assert(init[i] == e[i] && init[j] == e[j]);
            }
        }
        lemma_run_keys_increasing(init);
        let r = group_runs(init);
        let x = e.last();
        let g = group_runs(e);
        if r.len() > 0 {
            assert(order_le(e[e.len() - 2], e[e.len() - 1]));
            lemma_record_order(init.last(), x);
        }
        if r.len() > 0 && r.last().key == (x.0, x.1) {
            assert forall|i: int, j: int| 0 <= i < j < g.len() implies key_lt(#[trigger] g[i].key, #[trigger] g[j].key) by {
                assert(g[i].key == r[i].key && g[j].key == r[j].key);
            }
        } else {
            assert forall|i: int, j: int| 0 <= i < j < g.len() implies key_lt(#[trigger] g[i].key, #[trigger] g[j].key) by {
                if j == r.len() {
                    assert(g[i] == r[i]);
                    if i < r.len() - 1 {
                        assert(key_lt(r[i].key, r[r.len() - 1].key));
                    }
                } else {
                    assert(g[i] == r[i] && g[j] == r[j]);
                }
            }
        }
    }
}

/// One group per (id, graph name): two different groups of a written file
/// differ in id or in graph name.
pub proof fn lemma_groups_distinct(qs: Seq<QuintView>, k1: int, k2: int)
    requires
        0 <= k1 < written_runs(qs).len(),
        0 <= k2 < written_runs(qs).len(),
        k1 != k2,
        dict_ids(qs).len() <= u32::MAX,
        dict_gnames(qs).len() <= u32::MAX,
    ensures
        dict_ids(qs)[written_runs(qs)[k1].key.0 as int] != dict_ids(qs)[written_runs(qs)[k2].key.0 as int]
            || dict_gnames(qs)[written_runs(qs)[k1].key.1 as int] != dict_gnames(qs)[written_runs(qs)[k2].key.1 as int],
{
    lemma_sorted_encoded(qs);
    lemma_run_keys_increasing(sorted_encoded(qs));
    lemma_run_key_bounds(qs, k1);
    lemma_run_key_bounds(qs, k2);
    lemma_distinct_in_order(quint_ids(qs));
    lemma_distinct_in_order(quint_gnames(qs));
    let a = written_runs(qs)[k1].key;
    let b = written_runs(qs)[k2].key;
    if k1 < k2 {
        assert(key_lt(a, b));
    } else {
        assert(key_lt(b, a));
    }
}


/// The graph groups a written file lists: one per run, in order, with the
/// run's id, graph name and number of triples.
pub open spec fn written_refs(qs: Seq<QuintView>) -> Seq<GraphRefView> {
    Seq::new(written_runs(qs).len(), |k: int| GraphRefView {
        gid: k as u64,
        id: dict_ids(qs)[written_runs(qs)[k].key.0 as int],
        graphname: dict_gnames(qs)[written_runs(qs)[k].key.1 as int],
        n_triples: written_runs(qs)[k].triples.len() as u64,
    })
}

/// Tuple `m` is read back: some group has its id and graph name, and some
/// triple of that group stands for its subject, predicate and object.
pub open spec fn tuple_read_back(qs: Seq<QuintView>, m: int) -> bool {
    exists|k: int, t: int| #![trigger written_runs(qs)[k].triples[t]]
        0 <= k < written_runs(qs).len() && 0 <= t < written_runs(qs)[k].triples.len()
        && written_refs(qs)[k].id == qs[m].id && written_refs(qs)[k].graphname == qs[m].gname
        && dict_terms(qs)[written_runs(qs)[k].triples[t].0 as int] == qs[m].s
        && dict_terms(qs)[written_runs(qs)[k].triples[t].1 as int] == qs[m].p
        && dict_terms(qs)[written_runs(qs)[k].triples[t].2 as int] == qs[m].o
}

/// Triple `t` of group `k` comes from a tuple with the group's id and graph
/// name and with the terms the triple stands for.
pub open spec fn triple_from_tuple(qs: Seq<QuintView>, k: int, t: int) -> bool {
    exists|m: int| 0 <= m < qs.len() && {
        let tr = written_runs(qs)[k].triples[t];
        &&& written_refs(qs)[k].id == (#[trigger] qs[m]).id
        &&& written_refs(qs)[k].graphname == qs[m].gname
        &&& dict_terms(qs)[tr.0 as int] == qs[m].s
        &&& dict_terms(qs)[tr.1 as int] == qs[m].p
        &&& dict_terms(qs)[tr.2 as int] == qs[m].o
    }
}

/// Reading the groups of `gids` one by one.
proof fn lemma_graphrefs_each(d: Seq<u8>, idd: Dict, gnd: Dict, gdir: Section, gids: Seq<u64>,
    vals: Seq<GraphRefView>)
    requires
        gids.len() == vals.len(),
        forall|i: int| 0 <= i < gids.len() ==> spec_graphref(d, idd, gnd, gdir, #[trigger] gids[i]) == Outcome::Value(vals[i]),
    ensures
        spec_graphrefs(d, idd, gnd, gdir, gids) == Outcome::Value(vals),
    decreases gids.len(),
{
    if gids.len() == 0 {
        assert(vals =~= seq![]);
    } else {
        assert(spec_graphref(d, idd, gnd, gdir, gids[0]) == Outcome::Value(vals[0]));
        let g2 = gids.drop_first();
        let v2 = vals.drop_first();
        assert forall|i: int| 0 <= i < g2.len() implies spec_graphref(d, idd, gnd, gdir, #[trigger] g2[i])
            == Outcome::Value(v2[i]) by {
            assert(g2[i] == gids[i + 1]);
        }
        lemma_graphrefs_each(d, idd, gnd, gdir, g2, v2);
        assert(seq![vals[0]] + v2 =~= vals);
    }
}

/// The groups, their directory and their blocks, read back.
#[verifier::spinoff_prover]
proof fn lemma_read_back_groups(qs: Seq<QuintView>, opts: WriterOptions, f: &R5tuFile)
    requires
        !opts.zstd,
        spec_file_image(qs, opts) is Value,
        f.file_bytes() == written_image(qs, opts),
        views_from_toc(f),
        written_image(qs, opts).len() <= u64::MAX,
        forall|j: int| 0 <= j < dict_ids(qs).len() ==> #[trigger] utf8_bytes(dict_ids(qs)[j]).len() <= u32::MAX,
        forall|j: int| 0 <= j < dict_gnames(qs).len() ==> #[trigger] utf8_bytes(dict_gnames(qs)[j]).len() <= u32::MAX,
        forall|k: int| 0 <= k < written_runs(qs).len() ==> {
            &&& spec_group_block(#[trigger] written_runs(qs)[k].triples, false) is Some
            &&& spec_group_block(written_runs(qs)[k].triples, false).unwrap().len() <= u32::MAX
            &&& written_runs(qs)[k].triples.len() <= u32::MAX
        },
    ensures
        spec_gdir_header(f.file_bytes(), f.gdir_view()) == Some((written_runs(qs).len() as u64, 44u32)),
        spec_graphrefs(f.file_bytes(), f.id_dict_view(), f.gname_dict_view(), f.gdir_view(),
            all_gids(written_runs(qs).len() as u64)) == Outcome::Value(written_refs(qs)),
        forall|k: int| 0 <= k < written_runs(qs).len() ==> spec_block_triples(f.file_bytes(), f.gdir_view(), k as u64)
            == Outcome::Value(#[trigger] written_runs(qs)[k].triples),
{
    let img = written_image(qs, opts);
    let runs = written_runs(qs);
    let n = runs.len();
    lemma_written_groups_read_back(qs, opts, 0);
    let toc = spec_toc(img);
    assert(f.gdir_view() == spec_find_section(toc, SectionKind::GDir).unwrap());
    assert(f.id_dict_view() == spec_dict_parse(img, spec_find_section(toc, SectionKind::IdDict).unwrap()).unwrap());
    assert(f.gname_dict_view() == spec_dict_parse(img, spec_find_section(toc, SectionKind::GNameDict).unwrap()).unwrap());
    let gids = all_gids(n as u64);
    let refs = written_refs(qs);
    assert forall|k: int| 0 <= k < n implies {
        &&& spec_graphref(img, f.id_dict_view(), f.gname_dict_view(), f.gdir_view(), #[trigger] gids[k])
            == Outcome::Value(refs[k])
        &&& spec_block_triples(img, f.gdir_view(), k as u64) == Outcome::Value(runs[k].triples)
    } by {
        assert(spec_group_block(runs[k].triples, false) is Some);
        lemma_written_groups_read_back(qs, opts, k);
        assert(gids[k] == k as u64);
    }
    lemma_graphrefs_each(img, f.id_dict_view(), f.gname_dict_view(), f.gdir_view(), gids, refs);
    assert forall|k: int| 0 <= k < n implies spec_block_triples(f.file_bytes(), f.gdir_view(), k as u64)
        == Outcome::Value(#[trigger] runs[k].triples) by {
        assert(gids[k] == k as u64);
    }
}

/// Every id of a written triple reads back as its term.
#[verifier::spinoff_prover]
proof fn lemma_read_back_terms(qs: Seq<QuintView>, opts: WriterOptions, f: &R5tuFile)
    requires
        !opts.zstd,
        spec_file_image(qs, opts) is Value,
        f.file_bytes() == written_image(qs, opts),
        views_from_toc(f),
        written_image(qs, opts).len() <= u64::MAX,
        forall|j: int| 0 <= j < dict_terms(qs).len() ==> crate::term_laws::term_fits(#[trigger] dict_terms(qs)[j]),
    ensures
        forall|k: int, t: int| 0 <= k < written_runs(qs).len() && 0 <= t < written_runs(qs)[k].triples.len() ==> {
            let tr = #[trigger] written_runs(qs)[k].triples[t];
            &&& spec_term_parts(f.file_bytes(), f.term_dict_view(), tr.0) == TermRead::Found(dict_terms(qs)[tr.0 as int])
            &&& spec_term_parts(f.file_bytes(), f.term_dict_view(), tr.1) == TermRead::Found(dict_terms(qs)[tr.1 as int])
            &&& spec_term_parts(f.file_bytes(), f.term_dict_view(), tr.2) == TermRead::Found(dict_terms(qs)[tr.2 as int])
        },
{
    assert forall|k: int, t: int| 0 <= k < written_runs(qs).len() && 0 <= t < written_runs(qs)[k].triples.len() implies {
        let tr = #[trigger] written_runs(qs)[k].triples[t];
        &&& spec_term_parts(f.file_bytes(), f.term_dict_view(), tr.0) == TermRead::Found(dict_terms(qs)[tr.0 as int])
        &&& spec_term_parts(f.file_bytes(), f.term_dict_view(), tr.1) == TermRead::Found(dict_terms(qs)[tr.1 as int])
        &&& spec_term_parts(f.file_bytes(), f.term_dict_view(), tr.2) == TermRead::Found(dict_terms(qs)[tr.2 as int])
    } by {
        lemma_written_terms_read_back(qs, opts, k, t);
    }
}

/// Every tuple is in the group of its id and graph name.
#[verifier::spinoff_prover]
proof fn lemma_tuples_in_groups(qs: Seq<QuintView>)
    requires
        dict_ids(qs).len() <= u32::MAX,
        dict_gnames(qs).len() <= u32::MAX,
        dict_terms(qs).len() <= u64::MAX,
    ensures
        forall|m: int| 0 <= m < qs.len() ==> #[trigger] tuple_read_back(qs, m),
{
    assert forall|m: int| 0 <= m < qs.len() implies #[trigger] tuple_read_back(qs, m) by {
        lemma_every_tuple_has_a_group(qs, m);
        let (k, t) = choose|k: int, t: int| #![trigger written_runs(qs)[k].triples[t]]
            0 <= k < written_runs(qs).len() && 0 <= t < written_runs(qs)[k].triples.len()
            && dict_ids(qs)[written_runs(qs)[k].key.0 as int] == qs[m].id
            && dict_gnames(qs)[written_runs(qs)[k].key.1 as int] == qs[m].gname
            && dict_terms(qs)[written_runs(qs)[k].triples[t].0 as int] == qs[m].s
            && dict_terms(qs)[written_runs(qs)[k].triples[t].1 as int] == qs[m].p
            && dict_terms(qs)[written_runs(qs)[k].triples[t].2 as int] == qs[m].o;
        assert(written_refs(qs)[k].id == dict_ids(qs)[written_runs(qs)[k].key.0 as int]);
        assert(written_refs(qs)[k].graphname == dict_gnames(qs)[written_runs(qs)[k].key.1 as int]);
    }
}

/// Every triple of a group comes from a tuple with its id and graph name.
#[verifier::spinoff_prover]
proof fn lemma_groups_from_tuples(qs: Seq<QuintView>)
    requires
        dict_ids(qs).len() <= u32::MAX,
        dict_gnames(qs).len() <= u32::MAX,
        dict_terms(qs).len() <= u64::MAX,
    ensures
        forall|k: int, t: int| 0 <= k < written_runs(qs).len() && 0 <= t < written_runs(qs)[k].triples.len() ==>
            #[trigger] triple_from_tuple(qs, k, t),
{
    assert forall|k: int, t: int| 0 <= k < written_runs(qs).len() && 0 <= t < written_runs(qs)[k].triples.len() implies
        #[trigger] triple_from_tuple(qs, k, t) by {
        lemma_every_group_triple_has_a_tuple(qs, k, t);
        assert(written_refs(qs)[k].id == dict_ids(qs)[written_runs(qs)[k].key.0 as int]);
        assert(written_refs(qs)[k].graphname == dict_gnames(qs)[written_runs(qs)[k].key.1 as int]);
    }
}

/// Write, then read back: a file opened from the image written for `qs`
/// lists one graph group per (id, graph name) of the tuples, in order, with
/// its id, graph name and number of triples; the triples of each group are
/// those the writer put there, and each of their ids reads back, through
/// the file's term dictionary, as a term of the tuples. Every tuple is read
/// back from the group of its id and graph name, and every triple read back
/// comes from a tuple of that group's id and graph name. Stated for
/// uncompressed blocks, for images within `u64` offsets, for strings and
/// terms whose parts fit the lengths the format stores, and for groups of
/// at most `u32::MAX` triples.
#[verifier::spinoff_prover]
pub proof fn lemma_write_then_read(qs: Seq<QuintView>, opts: WriterOptions, f: &R5tuFile)
    requires
        !opts.zstd,
        spec_file_image(qs, opts) is Value,
        f.file_bytes() == written_image(qs, opts),
        views_from_toc(f),
        written_image(qs, opts).len() <= u64::MAX,
        forall|j: int| 0 <= j < dict_ids(qs).len() ==> #[trigger] utf8_bytes(dict_ids(qs)[j]).len() <= u32::MAX,
        forall|j: int| 0 <= j < dict_gnames(qs).len() ==> #[trigger] utf8_bytes(dict_gnames(qs)[j]).len() <= u32::MAX,
        dict_terms(qs).len() <= u64::MAX,
        forall|j: int| 0 <= j < dict_terms(qs).len() ==> crate::term_laws::term_fits(#[trigger] dict_terms(qs)[j]),
        forall|k: int| 0 <= k < written_runs(qs).len() ==> {
            &&& spec_group_block(#[trigger] written_runs(qs)[k].triples, false) is Some
            &&& spec_group_block(written_runs(qs)[k].triples, false).unwrap().len() <= u32::MAX
            &&& written_runs(qs)[k].triples.len() <= u32::MAX
        },
    ensures
        spec_gdir_header(f.file_bytes(), f.gdir_view()) == Some((written_runs(qs).len() as u64, 44u32)),
        spec_graphrefs(f.file_bytes(), f.id_dict_view(), f.gname_dict_view(), f.gdir_view(),
            all_gids(written_runs(qs).len() as u64)) == Outcome::Value(written_refs(qs)),
        forall|k: int| 0 <= k < written_runs(qs).len() ==> spec_block_triples(f.file_bytes(), f.gdir_view(), k as u64)
            == Outcome::Value(#[trigger] written_runs(qs)[k].triples),
        forall|k: int, t: int| 0 <= k < written_runs(qs).len() && 0 <= t < written_runs(qs)[k].triples.len() ==> {
            let tr = #[trigger] written_runs(qs)[k].triples[t];
            &&& spec_term_parts(f.file_bytes(), f.term_dict_view(), tr.0) == TermRead::Found(dict_terms(qs)[tr.0 as int])
            &&& spec_term_parts(f.file_bytes(), f.term_dict_view(), tr.1) == TermRead::Found(dict_terms(qs)[tr.1 as int])
            &&& spec_term_parts(f.file_bytes(), f.term_dict_view(), tr.2) == TermRead::Found(dict_terms(qs)[tr.2 as int])
        },
        forall|m: int| 0 <= m < qs.len() ==> #[trigger] tuple_read_back(qs, m),
        forall|k: int, t: int| 0 <= k < written_runs(qs).len() && 0 <= t < written_runs(qs)[k].triples.len() ==>
            #[trigger] triple_from_tuple(qs, k, t),
{
    lemma_read_back_groups(qs, opts, f);
    lemma_read_back_terms(qs, opts, f);
    lemma_image_dict_bounds(qs, opts);
    lemma_tuples_in_groups(qs);
    lemma_groups_from_tuples(qs);
}

/// An image is written only when the dictionaries fit `u32` ids.
proof fn lemma_image_dict_bounds(qs: Seq<QuintView>, opts: WriterOptions)
    requires
        spec_file_image(qs, opts) is Value,
    ensures
        dict_ids(qs).len() <= u32::MAX,
        dict_gnames(qs).len() <= u32::MAX,
{
}

} // verus!
