//! What the term dictionary of a written file reads back as: term `i` of
//! the dictionary the writer made is the `i`-th term it was given.
use vstd::prelude::*;
use vstd::bytes::*;
use vstd::utf8::{decode_utf8, valid_utf8};
use crate::header::Section;
use crate::le::{lemma_cat, lemma_read_placed, lemma_sub_piece, lemma_within, placed, le_u64_at, u32s_le, u64s_le};
use crate::posting_laws::lemma_u32s_entry;
use crate::reader::{spec_literal, spec_opt_part, spec_term_dict_parse, spec_term_parts, spec_utf8_at, TermDict, TermRead};
use crate::termdict::{inline_data, inline_term_bytes, lemma_term_dict_bytes, offs_bytes, opt_part_bytes, spec_term_dict,
    term_dict_header, term_kind};
use crate::text::{lemma_utf8_roundtrip, utf8_bytes};
use crate::varint::{lemma_uvarint_roundtrip, uvarint_bytes};
use crate::writer::TermView;

verus! {

/// Every part of a term fits the `u64` lengths of its encoding.
pub open spec fn term_fits(t: TermView) -> bool {
    match t {
        TermView::Iri(s) => utf8_bytes(s).len() <= u64::MAX,
        TermView::BNode(s) => utf8_bytes(s).len() <= u64::MAX,
        TermView::Literal(lex, dt, lang) => {
            &&& utf8_bytes(lex).len() <= u64::MAX
            &&& dt matches Some(d) ==> utf8_bytes(d).len() <= u64::MAX
            &&& lang matches Some(l) ==> utf8_bytes(l).len() <= u64::MAX
        },
    }
}

/// An optional part read back at `off`, after its presence byte: its string
/// and the offset past it.
proof fn lemma_opt_part_read(pre: Seq<u8>, s: Seq<char>, rest: Seq<u8>)
    requires
        utf8_bytes(s).len() <= u64::MAX,
    ensures
        spec_opt_part(pre + seq![1u8] + uvarint_bytes(utf8_bytes(s).len() as u64) + utf8_bytes(s) + rest,
            (pre.len() + 1) as int)
            == Some((s, (pre.len() + 1 + uvarint_bytes(utf8_bytes(s).len() as u64).len() + utf8_bytes(s).len()) as int)),
{
    let l = utf8_bytes(s).len() as u64;
    let u = uvarint_bytes(l);
    let b = utf8_bytes(s);
    let p = pre + seq![1u8] + u + b + rest;
    let pre1 = pre + seq![1u8];
    assert(p =~= pre1 + u + (b + rest));
    lemma_uvarint_roundtrip(pre1, l, b + rest);
    let o2 = pre1.len() + u.len();
    assert(p.subrange(o2 as int, o2 + l) =~= b);
    lemma_utf8_roundtrip(s);
}

/// A literal's inline bytes decode to the literal.
pub proof fn lemma_literal_read(lex: Seq<char>, dt: Option<Seq<char>>, lang: Option<Seq<char>>)
    requires
        term_fits(TermView::Literal(lex, dt, lang)),
    ensures
        spec_literal(inline_term_bytes(TermView::Literal(lex, dt, lang))) == Some(TermView::Literal(lex, dt, lang)),
{
    let a = uvarint_bytes(utf8_bytes(lex).len() as u64);
    let b = utf8_bytes(lex);
    let c = opt_part_bytes(dt);
    let d = opt_part_bytes(lang);
    let p = inline_term_bytes(TermView::Literal(lex, dt, lang));
    assert(p == a + b + c + d);
    // the lexical form
    lemma_uvarint_roundtrip(seq![], utf8_bytes(lex).len() as u64, b + c + d);
    assert(seq![] + a + (b + c + d) =~= p);
    let off = a.len() as int;
    assert(p.subrange(off, off + b.len()) =~= b);
    lemma_utf8_roundtrip(lex);
    assert(spec_utf8_at(p, off, b.len() as int) == Some(lex));
    let off2 = off + b.len();
    // the datatype
    let ab = a + b;
    let off4 = off2 + c.len();
    match dt {
        Some(x) => {
            assert(p[off2] == 1u8);
            let xb = utf8_bytes(x);
            assert(p =~= ab + seq![1u8] + uvarint_bytes(xb.len() as u64) + xb + d);
            lemma_opt_part_read(ab, x, d);
        },
        None => {
            assert(p[off2] == 0u8);
        },
    }
    // the language tag
    let abc = a + b + c;
    assert(abc.len() == off4);
    match lang {
        Some(y) => {
            assert(p[off4] == 1u8);
            let yb = utf8_bytes(y);
            assert(p =~= abc + seq![1u8] + uvarint_bytes(yb.len() as u64) + yb + seq![]);
            lemma_opt_part_read(abc, y, seq![]);
        },
        None => {
            assert(p[off4] == 0u8);
        },
    }
}

/// The shape of the inline term data: one kind and one offset per term,
/// plus the final offset, which is the data's length.
proof fn lemma_inline_shape(ts: Seq<TermView>)
    ensures
        inline_data(ts).kinds.len() == ts.len(),
        inline_data(ts).offs.len() == ts.len() + 1,
        inline_data(ts).offs.last() == inline_data(ts).data.len() as u64,
    decreases ts.len(),
{
    if ts.len() > 0 {
        lemma_inline_shape(ts.drop_last());
    }
}

/// The data of the first `k` terms is a prefix of the data of all of them.
proof fn lemma_inline_prefix(ts: Seq<TermView>, k: int)
    requires
        0 <= k <= ts.len(),
    ensures
        inline_data(ts.take(k)).kinds == inline_data(ts).kinds.take(k),
        inline_data(ts.take(k)).offs == inline_data(ts).offs.take(k + 1),
        inline_data(ts.take(k)).data.len() <= inline_data(ts).data.len(),
        inline_data(ts).data.subrange(0, inline_data(ts.take(k)).data.len() as int) == inline_data(ts.take(k)).data,
    decreases ts.len() - k,
{
    lemma_inline_shape(ts);
    lemma_inline_shape(ts.take(k));
    if k == ts.len() {
        assert(ts.take(k) =~= ts);
        assert(inline_data(ts).kinds.take(k) =~= inline_data(ts).kinds);
        assert(inline_data(ts).offs.take(k + 1) =~= inline_data(ts).offs);
        assert(inline_data(ts).data.subrange(0, inline_data(ts).data.len() as int) =~= inline_data(ts).data);
    } else {
        lemma_inline_prefix(ts, k + 1);
        lemma_inline_shape(ts.take(k + 1));
        assert(ts.take(k + 1).drop_last() =~= ts.take(k));
        let a = inline_data(ts.take(k));
        let b = inline_data(ts.take(k + 1));
        assert(b.kinds == a.kinds.push(term_kind(ts[k])));
        assert(b.offs == a.offs.push(b.data.len() as u64));
        assert(b.data == a.data + inline_term_bytes(ts[k]));
        assert(a.kinds =~= b.kinds.drop_last());
        assert(inline_data(ts).kinds.take(k) =~= inline_data(ts).kinds.take(k + 1).drop_last());
        assert(a.offs =~= b.offs.drop_last());
        assert(inline_data(ts).offs.take(k + 1) =~= inline_data(ts).offs.take(k + 2).drop_last());
        assert(inline_data(ts).data.subrange(0, a.data.len() as int) =~= b.data.subrange(0, a.data.len() as int));
        assert(b.data.subrange(0, a.data.len() as int) =~= a.data);
    }
}

/// Term `i`'s kind, its offsets, and its bytes between them.
proof fn lemma_inline_term(ts: Seq<TermView>, i: int)
    requires
        0 <= i < ts.len(),
        inline_data(ts).data.len() <= u64::MAX,
    ensures
        inline_data(ts).kinds[i] == term_kind(ts[i]),
        inline_data(ts).offs[i] <= inline_data(ts).offs[i + 1] <= inline_data(ts).data.len(),
        inline_data(ts).data.subrange(inline_data(ts).offs[i] as int, inline_data(ts).offs[i + 1] as int)
            == inline_term_bytes(ts[i]),
{
    lemma_inline_prefix(ts, i);
    lemma_inline_prefix(ts, i + 1);
    lemma_inline_shape(ts.take(i));
    lemma_inline_shape(ts.take(i + 1));
    lemma_inline_shape(ts);
    assert(ts.take(i + 1).drop_last() =~= ts.take(i));
    let a = inline_data(ts.take(i));
    let b = inline_data(ts.take(i + 1));
    let all = inline_data(ts);
    assert(b.data == a.data + inline_term_bytes(ts[i]));
    assert(b.kinds == a.kinds.push(term_kind(ts[i])));
    assert(all.kinds[i] == b.kinds[i]);
    assert(all.offs[i] == a.offs.last());
    assert(all.offs[i + 1] == b.offs.last());
    lemma_sub_piece(all.data, 0, b.data, a.data.len() as int, b.data.len() as int);
    assert(b.data.subrange(a.data.len() as int, b.data.len() as int) =~= inline_term_bytes(ts[i]));
}

/// A term's inline bytes, with its kind, decode to the term.
proof fn lemma_term_bytes_read(t: TermView)
    requires
        term_fits(t),
    ensures
        match t {
            TermView::Iri(s) => valid_utf8(inline_term_bytes(t)) && decode_utf8(inline_term_bytes(t)) == s,
            TermView::BNode(s) => valid_utf8(inline_term_bytes(t)) && decode_utf8(inline_term_bytes(t)) == s,
            TermView::Literal(_, _, _) => spec_literal(inline_term_bytes(t)) == Some(t),
        },
{
    match t {
        TermView::Iri(s) => lemma_utf8_roundtrip(s),
        TermView::BNode(s) => lemma_utf8_roundtrip(s),
        TermView::Literal(lex, dt, lang) => lemma_literal_read(lex, dt, lang),
    }
}

/// The fields of a term dictionary header read back where its bytes stand.
proof fn lemma_term_header_fields(d: Seq<u8>, off: int, w: u8, n: u64, ko: u64, dof: u64, oo: u64)
    requires
        placed(d, off, term_dict_header(w, n, ko, dof, oo)),
    ensures
        d[off] == w,
        le_u64_at(d, off + 1) == n,
        le_u64_at(d, off + 9) == ko,
        le_u64_at(d, off + 17) == dof,
        le_u64_at(d, off + 25) == oo,
{
    lemma_auto_spec_u64_to_from_le_bytes();
    let h1 = seq![w];
    let h2 = h1 + spec_u64_to_le_bytes(n);
    let h3 = h2 + spec_u64_to_le_bytes(ko);
    let h4 = h3 + spec_u64_to_le_bytes(dof);
    let h5 = h4 + spec_u64_to_le_bytes(oo);
    assert(h5 == term_dict_header(w, n, ko, dof, oo));
    lemma_cat(h4, spec_u64_to_le_bytes(oo));
    lemma_within(d, off, h5, 0, h4);
    lemma_within(d, off, h5, 25, spec_u64_to_le_bytes(oo));
    lemma_cat(h3, spec_u64_to_le_bytes(dof));
    lemma_within(d, off, h4, 0, h3);
    lemma_within(d, off, h4, 17, spec_u64_to_le_bytes(dof));
    lemma_cat(h2, spec_u64_to_le_bytes(ko));
    lemma_within(d, off, h3, 0, h2);
    lemma_within(d, off, h3, 9, spec_u64_to_le_bytes(ko));
    lemma_cat(h1, spec_u64_to_le_bytes(n));
    lemma_within(d, off, h2, 0, h1);
    lemma_within(d, off, h2, 1, spec_u64_to_le_bytes(n));
    assert(d.subrange(off, off + 1)[0] == w);
    lemma_read_placed(d, off + 1);
    lemma_read_placed(d, off + 9);
    lemma_read_placed(d, off + 17);
    lemma_read_placed(d, off + 25);
}

/// A term dictionary read back: wherever the bytes the writer made for
/// terms `ts` stand in a file, the reader parses the dictionary, counts
/// `ts.len()` terms, and term `i` decodes to `ts[i]`.
#[verifier::rlimit(60)]
#[verifier::spinoff_prover]
pub proof fn lemma_term_dict_read_back(d: Seq<u8>, base: int, ts: Seq<TermView>, i: u64)
    requires
        spec_term_dict(base, ts, None) is Value,
        placed(d, base, spec_term_dict(base, ts, None)->Value_0),
        base + (spec_term_dict(base, ts, None)->Value_0).len() <= u64::MAX,
        forall|j: int| 0 <= j < ts.len() ==> term_fits(#[trigger] ts[j]),
    ensures
        ({
            let sec = Section { off: base as u64, len: (spec_term_dict(base, ts, None)->Value_0).len() as u64 };
            &&& spec_term_dict_parse(d, sec) is Some
            &&& spec_term_dict_parse(d, sec).unwrap().n_terms == ts.len()
            &&& i < ts.len() ==> spec_term_parts(d, spec_term_dict_parse(d, sec).unwrap(), i) == TermRead::Found(ts[i as int])
        }),
{
    lemma_auto_spec_u32_to_from_le_bytes();
    lemma_auto_spec_u64_to_from_le_bytes();
    lemma_term_dict_bytes(base, ts, None);
    lemma_inline_shape(ts);
    let x = spec_term_dict(base, ts, None)->Value_0;
    let td = inline_data(ts);
    let width: u8 = if td.offs.last() <= u32::MAX { 4u8 } else { 8u8 };
    let kinds_off = base + 33;
    let data_off = kinds_off + td.kinds.len();
    let offs_off = data_off + td.data.len();
    let ob = offs_bytes(td.offs, width);
    let hd = term_dict_header(width, ts.len() as u64, kinds_off as u64, data_off as u64, offs_off as u64);
    assert(x == hd + td.kinds + td.data + ob);
    assert(hd.len() == 33);
    lemma_cat(hd + td.kinds + td.data, ob);
    lemma_cat(hd + td.kinds, td.data);
    lemma_cat(hd, td.kinds);
    lemma_within(d, base, x, 0, hd + td.kinds + td.data);
    lemma_within(d, base, hd + td.kinds + td.data, 0, hd + td.kinds);
    lemma_within(d, base, hd + td.kinds, 0, hd);
    lemma_within(d, base, hd + td.kinds, 33, td.kinds);
    lemma_within(d, base, hd + td.kinds + td.data, (33 + td.kinds.len()) as int, td.data);
    lemma_within(d, base, x, (33 + td.kinds.len() + td.data.len()) as int, ob);
    lemma_term_header_fields(d, base, width, ts.len() as u64, kinds_off as u64, data_off as u64, offs_off as u64);
    let sec = Section { off: base as u64, len: x.len() as u64 };
    let tdict = TermDict {
        width,
        n_terms: ts.len() as u64,
        kinds_off: kinds_off as u64,
        data_off: data_off as u64,
        offs_off: offs_off as u64,
    };
    assert(spec_term_dict_parse(d, sec) == Some(tdict));
    if i < ts.len() {
        let ii = i as int;
        lemma_inline_term(ts, ii);
        let s0 = td.offs[ii];
        let e0 = td.offs[ii + 1];
        if width == 4 {
            let m = td.offs.map_values(|o: u64| o as u32);
            assert(ob == u32s_le(m));
            lemma_u32s_entry(m, ii);
            lemma_u32s_entry(m, ii + 1);
            lemma_within(d, offs_off, ob, 4 * ii, spec_u32_to_le_bytes(m[ii]));
            lemma_within(d, offs_off, ob, 4 * ii + 4, spec_u32_to_le_bytes(m[ii + 1]));
            lemma_read_placed(d, offs_off + 4 * ii);
            lemma_read_placed(d, offs_off + 4 * ii + 4);
            assert(td.offs[ii] <= u32::MAX && td.offs[ii + 1] <= u32::MAX);
        } else {
            assert(ob == u64s_le(td.offs));
            crate::sidecar_laws::lemma_u64s_entry(td.offs, ii);
            crate::sidecar_laws::lemma_u64s_entry(td.offs, ii + 1);
            lemma_within(d, offs_off, ob, 8 * ii, spec_u64_to_le_bytes(td.offs[ii]));
            lemma_within(d, offs_off, ob, 8 * ii + 8, spec_u64_to_le_bytes(td.offs[ii + 1]));
            lemma_read_placed(d, offs_off + 8 * ii);
            lemma_read_placed(d, offs_off + 8 * ii + 8);
        }
        lemma_sub_piece(d, data_off, td.data, s0 as int, e0 as int);
        assert(d[kinds_off + ii] == td.kinds[ii]) by {
            assert(d.subrange(kinds_off, kinds_off + td.kinds.len())[ii] == td.kinds[ii]);
        }
        lemma_term_bytes_read(ts[ii]);
    }
}

} // verus!
