//! What the frame of a written file reads back as: the header, the table of
//! contents and the footer that the writer puts around the sections are the
//! ones the reader's parsers find.
use vstd::prelude::*;
use vstd::bytes::*;
use crate::header::{footer_magic, lemma_section_kind_code_roundtrip, section_kind_code, spec_crc32, spec_toc_entry, TocEntry};
use crate::le::{le_u16_at, le_u32_at, le_u64_at, lemma_cat, lemma_read_placed, lemma_within, placed};
use crate::reader::file_magic;
use crate::sections::{lemma_toc_bytes_entry, lemma_toc_bytes_len, toc_bytes, toc_crc, toc_entry_bytes};
use crate::sidecar_laws::lemma_toc_placed;
use crate::writer::{footer_bytes, header_bytes, spec_file_image, spec_finish, spec_image_from, spec_sections, WriterOptions,
    dict_gnames, dict_ids, dict_terms, sorted_encoded, QuintView};
use crate::header::SectionKind;
use crate::layout::Outcome;

verus! {

/// The TOC entry the reader finds for a written entry: its kind and section,
/// with the CRC the writer recorded (the section's CRC-32 when CRCs are on).
pub open spec fn written_entry(pre: Seq<u8>, e: TocEntry, with_crc: bool) -> TocEntry {
    TocEntry { kind: e.kind, section: e.section, crc32_u32: toc_crc(pre, e.section, with_crc) }
}

/// A finished image read back: the header names the format, version, block
/// compression and the TOC (where the sections end, one entry per written
/// entry); each TOC entry parses to the kind and section written, with its
/// CRC; a section after the header keeps its bytes, so a recorded CRC is the
/// CRC of the section as it stands in the image; the footer holds the end
/// marker and the CRC-32 of everything before it.
pub proof fn lemma_frame_roundtrip(pre: Seq<u8>, toc: Seq<TocEntry>, opts: WriterOptions)
    requires
        pre.len() >= 32,
        toc.len() <= u32::MAX,
        pre.len() + 32 * toc.len() + 16 <= u64::MAX,
    ensures
        ({
            let img = spec_finish(pre, toc, opts);
            &&& img.len() == pre.len() + 32 * toc.len() + 16
            &&& img.subrange(0, 4) == file_magic()
            &&& le_u16_at(img, 4) == 1
            &&& le_u16_at(img, 6) == (if opts.zstd { 2u16 } else { 0u16 })
            &&& le_u64_at(img, 16) == pre.len()
            &&& le_u32_at(img, 24) == toc.len()
            &&& forall|i: int| 0 <= i < toc.len() ==> spec_toc_entry(img, pre.len() + 32 * i)
                == Some(written_entry(pre, #[trigger] toc[i], opts.with_crc))
            &&& forall|i: int| 0 <= i < toc.len() && 32 <= (#[trigger] toc[i]).section.off
                && toc[i].section.off + toc[i].section.len <= pre.len()
                ==> img.subrange(toc[i].section.off as int, toc[i].section.off + toc[i].section.len)
                == pre.subrange(toc[i].section.off as int, toc[i].section.off + toc[i].section.len)
            &&& img.subrange(img.len() - 12, img.len() as int) == footer_magic()
            &&& le_u32_at(img, img.len() - 16) == spec_crc32(img.subrange(0, img.len() - 16))
        }),
{
    lemma_auto_spec_u16_to_from_le_bytes();
    lemma_auto_spec_u32_to_from_le_bytes();
    lemma_auto_spec_u64_to_from_le_bytes();
    let n = toc.len() as int;
    let tb = toc_bytes(pre, toc, opts.with_crc);
    lemma_toc_bytes_len(pre, toc, opts.with_crc);
    let full = pre + tb;
    let rest = full.subrange(32, full.len() as int);
    let h1 = file_magic();
    let h2 = h1 + spec_u16_to_le_bytes(1);
    let h3 = h2 + spec_u16_to_le_bytes(if opts.zstd { 2u16 } else { 0u16 });
    let h4 = h3 + spec_u64_to_le_bytes(0);
    let h5 = h4 + spec_u64_to_le_bytes(pre.len() as u64);
    let h6 = h5 + spec_u32_to_le_bytes(n as u32);
    let hb = h6 + spec_u32_to_le_bytes(0);
    assert(hb == header_bytes(pre.len() as int, n, opts.zstd));
    let body = hb + rest;
    let fb = footer_bytes(body);
    let img = body + fb;
    assert(img == spec_finish(pre, toc, opts));
    assert(hb.len() == 32);
    // the footer
    lemma_cat(body, fb);
    lemma_cat(spec_u32_to_le_bytes(spec_crc32(body)), footer_magic());
    lemma_within(img, body.len() as int, fb, 0, spec_u32_to_le_bytes(spec_crc32(body)));
    lemma_within(img, body.len() as int, fb, 4, footer_magic());
    lemma_read_placed(img, body.len() as int);
    assert(img.subrange(0, img.len() - 16) == body);
    // the header
    lemma_cat(hb, rest);
    lemma_within(img, 0, body, 0, hb);
    lemma_cat(h6, spec_u32_to_le_bytes(0));
    lemma_within(img, 0, hb, 0, h6);
    lemma_cat(h5, spec_u32_to_le_bytes(n as u32));
    lemma_within(img, 0, h6, 0, h5);
    lemma_within(img, 0, h6, 24, spec_u32_to_le_bytes(n as u32));
    lemma_cat(h4, spec_u64_to_le_bytes(pre.len() as u64));
    lemma_within(img, 0, h5, 0, h4);
    lemma_within(img, 0, h5, 16, spec_u64_to_le_bytes(pre.len() as u64));
    lemma_cat(h3, spec_u64_to_le_bytes(0));
    lemma_within(img, 0, h4, 0, h3);
    lemma_cat(h2, spec_u16_to_le_bytes(if opts.zstd { 2u16 } else { 0u16 }));
    lemma_within(img, 0, h3, 0, h2);
    lemma_within(img, 0, h3, 6, spec_u16_to_le_bytes(if opts.zstd { 2u16 } else { 0u16 }));
    lemma_cat(h1, spec_u16_to_le_bytes(1));
    lemma_within(img, 0, h2, 0, h1);
    lemma_within(img, 0, h2, 4, spec_u16_to_le_bytes(1));
    lemma_read_placed(img, 4);
    lemma_read_placed(img, 6);
    lemma_read_placed(img, 16);
    lemma_read_placed(img, 24);
    // the sections and the TOC keep their place past the header
    lemma_cat(hb, rest);
    assert(placed(img, 32, rest)) by {
        lemma_within(img, 0, body, 32, rest);
    }
    assert forall|i: int| 0 <= i < n implies spec_toc_entry(img, pre.len() + 32 * i)
        == Some(written_entry(pre, #[trigger] toc[i], opts.with_crc)) by {
        lemma_toc_bytes_entry(pre, toc, opts.with_crc, i);
        let e = toc[i];
        let crc = toc_crc(pre, e.section, opts.with_crc);
        let eb = toc_entry_bytes(e.kind, e.section, crc);
        lemma_cat(pre, tb);
        assert(tb.subrange(32 * i, 32 * i + 32) == eb);
        lemma_within(full, pre.len() as int, tb, 32 * i, eb);
        assert(placed(rest, pre.len() - 32 + 32 * i, eb)) by {
            assert(rest.subrange(pre.len() - 32 + 32 * i, pre.len() + 32 * i) =~= full.subrange(pre.len() + 32 * i, pre.len() + 32 * i + 32));
        }
        lemma_within(img, 32, rest, pre.len() - 32 + 32 * i, eb);
        lemma_toc_placed(img, pre.len() + 32 * i, section_kind_code(e.kind), e.section.off, e.section.len, crc);
        lemma_section_kind_code_roundtrip(e.kind);
    }
    assert forall|i: int| 0 <= i < n && 32 <= (#[trigger] toc[i]).section.off
        && toc[i].section.off + toc[i].section.len <= pre.len()
        implies img.subrange(toc[i].section.off as int, toc[i].section.off + toc[i].section.len)
        == pre.subrange(toc[i].section.off as int, toc[i].section.off + toc[i].section.len) by {
        let a = toc[i].section.off as int;
        let b = toc[i].section.off + toc[i].section.len;
        assert forall|t: int| 0 <= t < b - a implies #[trigger] img.subrange(a, b)[t] == pre.subrange(a, b)[t] by {
            assert(img.subrange(32, 32 + rest.len() as int)[a - 32 + t] == rest[a - 32 + t]);
        }
        assert(img.subrange(a, b) =~= pre.subrange(a, b));
    }
}


/// The section kinds of a written file's TOC, in order.
pub open spec fn written_kinds() -> Seq<SectionKind> {
    seq![SectionKind::IdDict, SectionKind::GNameDict, SectionKind::TermDict, SectionKind::TripleBlocks,
        SectionKind::GDir, SectionKind::IdxId2Gid, SectionKind::IdxGName2Gid, SectionKind::IdxPair2Gid]
}

/// The frame of every written file, blocks compressed or not: the header
/// names the format, version 1 and the block compression asked for, and a
/// TOC of eight entries that ends where the 16-byte footer starts; the
/// entries list the dictionaries, the triple blocks, the directory and the
/// three indexes in that order; the footer holds the end marker and the
/// CRC-32 of everything before it.
pub proof fn lemma_written_frame(qs: Seq<QuintView>, opts: WriterOptions)
    requires
        spec_file_image(qs, opts) is Value,
        spec_file_image(qs, opts)->Value_0.len() <= u64::MAX,
    ensures
        ({
            let img = spec_file_image(qs, opts)->Value_0;
            &&& img.subrange(0, 4) == file_magic()
            &&& le_u16_at(img, 4) == 1
            &&& le_u16_at(img, 6) == (if opts.zstd { 2u16 } else { 0u16 })
            &&& le_u32_at(img, 24) == 8
            &&& le_u64_at(img, 16) + 32 * 8 + 16 == img.len()
            &&& forall|i: int| 0 <= i < 8 ==> ((#[trigger] spec_toc_entry(img, le_u64_at(img, 16) + 32 * i)) matches Some(e)
                && e.kind == written_kinds()[i])
            &&& img.subrange(img.len() - 12, img.len() as int) == footer_magic()
            &&& le_u32_at(img, img.len() - 16) == spec_crc32(img.subrange(0, img.len() - 16))
        }),
{
    let (pre, toc) = spec_sections(dict_ids(qs), dict_gnames(qs), dict_terms(qs), sorted_encoded(qs), opts.zstd)->Value_0;
    let img = spec_file_image(qs, opts)->Value_0;
    assert(img == spec_finish(pre, toc, opts));
    lemma_auto_spec_u16_to_from_le_bytes();
    lemma_auto_spec_u32_to_from_le_bytes();
    lemma_auto_spec_u64_to_from_le_bytes();
    assert(pre.len() >= 32);
    assert(toc.len() == 8);
    lemma_toc_bytes_len(pre, toc, opts.with_crc);
    let full = pre + toc_bytes(pre, toc, opts.with_crc);
    assert(header_bytes(pre.len() as int, toc.len() as int, opts.zstd).len() == 32);
    let body = header_bytes(pre.len() as int, toc.len() as int, opts.zstd) + full.subrange(32, full.len() as int);
    assert(footer_bytes(body).len() == 16);
    assert(img.len() == pre.len() + 32 * 8 + 16);
    lemma_frame_roundtrip(pre, toc, opts);
    assert forall|i: int| 0 <= i < 8 implies ((#[trigger] spec_toc_entry(img, le_u64_at(img, 16) + 32 * i)) matches Some(e)
        && e.kind == written_kinds()[i]) by {
        assert(spec_toc_entry(img, pre.len() + 32 * i) == Some(written_entry(pre, toc[i], opts.with_crc)));
    }
}

} // verus!
