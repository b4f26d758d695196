//! Encoding of the term dictionary: per-term kinds, the term data (literals
//! inline) and the offsets into it.
use vstd::prelude::*;
use vstd::bytes::{lemma_auto_spec_u64_to_from_le_bytes, spec_u64_to_le_bytes};
use crate::header::Section;
use crate::intern::{index_in, no_dups};
use crate::layout::Outcome;
use crate::le::{extend_bytes, push_u32, push_u64, u32s_le, u64s_le};
use crate::reader::R5Error;
use crate::text::{str_bytes, utf8_bytes};
use crate::varint::{push_uvarint, uvarint_bytes};
use crate::writer::{Term, TermView};

verus! {

/// Byte length of the varint encoding of `v`.
pub open spec fn ulen(v: int) -> int {
    uvarint_bytes(v as u64).len() as int
}

/// An optional part of an inline literal: a presence byte, then the
/// varint-prefixed bytes when present.
pub open spec fn opt_part_bytes(o: Option<Seq<char>>) -> Seq<u8> {
    match o {
        Some(s) => seq![1u8] + uvarint_bytes(utf8_bytes(s).len() as u64) + utf8_bytes(s),
        None => seq![0u8],
    }
}

/// The inline encoding of a term: IRIs and blank nodes as their UTF-8
/// bytes, literals as varint-prefixed lexical form, datatype and language.
pub open spec fn inline_term_bytes(t: TermView) -> Seq<u8> {
    match t {
        TermView::Iri(s) => utf8_bytes(s),
        TermView::BNode(s) => utf8_bytes(s),
        TermView::Literal(lex, dt, lang) => uvarint_bytes(utf8_bytes(lex).len() as u64) + utf8_bytes(lex)
            + opt_part_bytes(dt) + opt_part_bytes(lang),
    }
}

/// The kind byte of a term: 0 IRI, 1 blank node, 2 literal.
pub open spec fn term_kind(t: TermView) -> u8 {
    match t {
        TermView::Iri(_) => 0,
        TermView::BNode(_) => 1,
        TermView::Literal(_, _, _) => 2,
    }
}

/// Term data: kind bytes, data bytes, and `n + 1` offsets into the data.
pub struct TermData {
    pub kinds: Seq<u8>,
    pub data: Seq<u8>,
    pub offs: Seq<u64>,
}

/// The inline term data of `ts`.
pub open spec fn inline_data(ts: Seq<TermView>) -> TermData
    decreases ts.len(),
{
    if ts.len() == 0 {
        TermData { kinds: seq![], data: seq![], offs: seq![0u64] }
    } else {
        let d = inline_data(ts.drop_last());
        let data = d.data + inline_term_bytes(ts.last());
        TermData {
            kinds: d.kinds.push(term_kind(ts.last())),
            data,
            offs: d.offs.push(data.len() as u64),
        }
    }
}

/// Build data as owned vectors.
pub struct TermDataBuild {
    pub kinds: Vec<u8>,
    pub data: Vec<u8>,
    pub offs: Vec<u64>,
}

impl TermDataBuild {
    /// The data it holds.
    pub open spec fn data_view(&self) -> TermData {
        TermData { kinds: self.kinds@, data: self.data@, offs: self.offs@ }
    }
}

/// The views of a vector of terms.
pub open spec fn terms_view(v: Seq<Term>) -> Seq<TermView> {
    v.map_values(|t: Term| t@)
}

/// Append the inline encoding of an optional literal part.
fn push_opt_part(data: &mut Vec<u8>, o: &Option<String>)
    ensures
        final(data)@ == old(data)@ + opt_part_bytes(crate::writer::opt_view(*o)),
{
    match o {
        Some(s) => {
            data.push(1u8);
            let b = str_bytes(s.as_str());
            push_uvarint(b.len() as u64, data);
            extend_bytes(data, b);
            assert(final(data)@ =~= old(data)@ + opt_part_bytes(crate::writer::opt_view(*o)));
        },
        None => {
            data.push(0u8);
            assert(final(data)@ =~= old(data)@ + opt_part_bytes(crate::writer::opt_view(*o)));
        },
    }
}

/// Build the inline term data of `terms`.
pub fn build_inline_term_data(terms: &Vec<Term>) -> (r: TermDataBuild)
    ensures
        r.data_view() == inline_data(terms_view(terms@)),
        r.offs@.len() == terms@.len() + 1,
{
    let ghost ts = terms_view(terms@);
    let mut kinds: Vec<u8> = Vec::new();
    let mut data: Vec<u8> = Vec::new();
    let mut offs: Vec<u64> = Vec::new();
    offs.push(0u64);
    let mut i: usize = 0;
    assert(ts.take(0) =~= Seq::<TermView>::empty());
    while i < terms.len()
        invariant
            i <= terms@.len(),
            ts == terms_view(terms@),
            (TermData { kinds: kinds@, data: data@, offs: offs@ }) == inline_data(ts.take(i as int)),
            offs@.len() == i + 1,
        decreases terms@.len() - i,
    {
        assert(ts.take(i + 1).drop_last() =~= ts.take(i as int));
        assert(ts.take(i + 1).last() == terms@[i as int]@);
        let ghost d0 = data@;
        match &terms[i] {
            Term::Iri(s) => {
                kinds.push(0u8);
                extend_bytes(&mut data, str_bytes(s.as_str()));
            },
            Term::BNode(s) => {
                kinds.push(1u8);
                extend_bytes(&mut data, str_bytes(s.as_str()));
            },
            Term::Literal { lex, dt, lang } => {
                kinds.push(2u8);
                let b = str_bytes(lex.as_str());
                push_uvarint(b.len() as u64, &mut data);
                extend_bytes(&mut data, b);
                push_opt_part(&mut data, dt);
                push_opt_part(&mut data, lang);
            },
        }
        assert(data@ =~= d0 + inline_term_bytes(terms@[i as int]@));
        offs.push(data.len() as u64);
        i = i + 1;
    }
    assert(ts.take(i as int) =~= ts);
    TermDataBuild { kinds, data, offs }
}

/// The offsets as little-endian values of `width` bytes.
pub open spec fn offs_bytes(offs: Seq<u64>, width: u8) -> Seq<u8> {
    if width == 4 {
        u32s_le(offs.map_values(|o: u64| o as u32))
    } else {
        u64s_le(offs)
    }
}

/// The bytes of a term dictionary section starting at `base`: a 33-byte
/// header (offsets width byte, term count, offsets of kinds, data and
/// offsets), then the kinds, the data and the offsets at the chosen width.
pub closed spec fn spec_term_dict(base: int, ts: Seq<TermView>, force_width: Option<u8>) -> Outcome<Seq<u8>> {
    let td = inline_data(ts);
    let data_len = td.offs.last();
    let width: u8 = match force_width {
        Some(w) => w,
        None => if data_len <= u32::MAX { 4u8 } else { 8u8 },
    };
    if width != 4 && width != 8 {
        Outcome::Invalid
    } else if width == 4 && exists|i: int| 0 <= i < td.offs.len() && td.offs[i] > u32::MAX {
        Outcome::Invalid
    } else {
        let kinds_off = base + 33;
        let data_off = kinds_off + td.kinds.len();
        let offs_off = data_off + td.data.len();
        Outcome::Value(term_dict_header(width, ts.len() as u64, kinds_off as u64, data_off as u64,
            offs_off as u64) + td.kinds + td.data + offs_bytes(td.offs, width))
    }
}

/// A term dictionary's bytes: the header with the width, then kinds,
/// data and offsets.
pub proof fn lemma_term_dict_bytes(base: int, ts: Seq<TermView>, force_width: Option<u8>)
    ensures
        spec_term_dict(base, ts, force_width) == ({
            let td = inline_data(ts);
            let data_len = td.offs.last();
            let width: u8 = match force_width {
                Some(w) => w,
                None => if data_len <= u32::MAX { 4u8 } else { 8u8 },
            };
            if width != 4 && width != 8 {
                Outcome::Invalid
            } else if width == 4 && exists|i: int| 0 <= i < td.offs.len() && td.offs[i] > u32::MAX {
                Outcome::Invalid
            } else {
                let kinds_off = base + 33;
                let data_off = kinds_off + td.kinds.len();
                let offs_off = data_off + td.data.len();
                Outcome::Value(term_dict_header(width, ts.len() as u64, kinds_off as u64, data_off as u64,
                    offs_off as u64) + td.kinds + td.data + offs_bytes(td.offs, width))
            }
        }),
{
}

/// A term dictionary section starts with its 33-byte header.
pub proof fn lemma_term_dict_len(base: int, ts: Seq<TermView>, force_width: Option<u8>)
    ensures
        spec_term_dict(base, ts, force_width) matches Outcome::Value(x) ==> x.len() >= 33,
{
    lemma_auto_spec_u64_to_from_le_bytes();
}

proof fn lemma_offs_nonempty_inline(ts: Seq<TermView>)
    ensures
        inline_data(ts).offs.len() == ts.len() + 1,
    decreases ts.len(),
{
    if ts.len() > 0 {
        lemma_offs_nonempty_inline(ts.drop_last());
    }
}

/// The offsets as little-endian values of `width` bytes; fails when a
/// value does not fit four bytes.
fn encode_offsets(offs: &Vec<u64>, width: u8) -> (r: Result<Vec<u8>, R5Error>)
    requires
        width == 4 || width == 8,
    ensures
        (width == 4 && exists|i: int| 0 <= i < offs@.len() && offs@[i] > u32::MAX)
            ==> (r matches Err(e) && e is Invalid),
        !(width == 4 && exists|i: int| 0 <= i < offs@.len() && offs@[i] > u32::MAX)
            ==> (r matches Ok(b) && b@ == offs_bytes(offs@, width)),
{
    let mut out: Vec<u8> = Vec::new();
    let mut i: usize = 0;
    while i < offs.len()
        invariant
            i <= offs@.len(),
            width == 4 || width == 8,
            width == 4 ==> forall|j: int| 0 <= j < i ==> offs@[j] <= u32::MAX,
            out@ == offs_bytes(offs@.take(i as int), width),
        decreases offs@.len() - i,
    {
        assert(offs@.take(i + 1).drop_last() =~= offs@.take(i as int));
        assert(offs@.take(i + 1).map_values(|o: u64| o as u32).drop_last()
            =~= offs@.take(i as int).map_values(|o: u64| o as u32));
        let o = offs[i];
        if width == 4 {
            if o > 0xffff_ffff {
                assert(offs@[i as int] > u32::MAX);
                return Err(R5Error::Invalid("term dict width overflow"));
            }
            push_u32(&mut out, o as u32);
        } else {
            push_u64(&mut out, o);
        }
        i = i + 1;
    }
    assert(offs@.take(i as int) =~= offs@);
    Ok(out)
}

/// The 33-byte header of a term dictionary.
pub open spec fn term_dict_header(flags: u8, n: u64, kinds_off: u64, data_off: u64, offs_off: u64) -> Seq<u8> {
    seq![flags] + spec_u64_to_le_bytes(n) + spec_u64_to_le_bytes(kinds_off) + spec_u64_to_le_bytes(data_off)
        + spec_u64_to_le_bytes(offs_off)
}

fn push_term_dict_header(buf: &mut Vec<u8>, flags: u8, n: u64, kinds_off: u64, data_off: u64, offs_off: u64)
    ensures
        final(buf)@ == old(buf)@ + term_dict_header(flags, n, kinds_off, data_off, offs_off),
{
    buf.push(flags);
    push_u64(buf, n);
    push_u64(buf, kinds_off);
    push_u64(buf, data_off);
    push_u64(buf, offs_off);
    assert(final(buf)@ =~= old(buf)@ + term_dict_header(flags, n, kinds_off, data_off, offs_off));
}

/// Append a term dictionary section for `terms`, with the offsets width
/// forced or chosen (4 bytes when the data fits `u32` offsets, else 8).
pub fn write_term_dict_with_width(buf: &mut Vec<u8>, terms: &Vec<Term>, force_width: Option<u8>)
    -> (r: Result<Section, R5Error>)
    ensures
        match spec_term_dict(old(buf)@.len() as int, terms_view(terms@), force_width) {
            Outcome::Invalid => r matches Err(e) && e is Invalid,
            Outcome::Corrupt => r matches Err(e) && e is Corrupt,
            Outcome::Value(bytes) => {
                &&& final(buf)@ == old(buf)@ + bytes
                &&& r matches Ok(sec) && sec.off == old(buf)@.len() && sec.len == bytes.len()
            },
        },
{
    let ghost ts = terms_view(terms@);
    let off = buf.len();
    let td = build_inline_term_data(terms);
    let data_len = td.offs[td.offs.len() - 1];
    let width: u8 = match force_width {
        Some(w) => w,
        None => if data_len <= 0xffff_ffff { 4u8 } else { 8u8 },
    };
    if width != 4 && width != 8 {
        return Err(R5Error::Invalid("unsupported term dict width"));
    }
    let offs_b = encode_offsets(&td.offs, width)?;
    let kinds_off: u128 = off as u128 + 33;
    let data_off: u128 = kinds_off + td.kinds.len() as u128;
    let offs_off: u128 = data_off + td.data.len() as u128;
    let flags: u8 = width;
    let ghost start = buf@;
    push_term_dict_header(buf, flags, terms.len() as u64, #[verifier::truncate] (kinds_off as u64),
        #[verifier::truncate] (data_off as u64), #[verifier::truncate] (offs_off as u64));
    extend_bytes(buf, td.kinds.as_slice());
    extend_bytes(buf, td.data.as_slice());
    extend_bytes(buf, offs_b.as_slice());
    let total = buf.len() - off;
    let ghost hdr = term_dict_header(flags, terms@.len() as u64, kinds_off as u64, data_off as u64, offs_off as u64);
    assert(buf@ =~= start + (hdr + td.kinds@ + td.data@ + offs_b@));
    Ok(Section { off: off as u64, len: total as u64 })
}

/// Append a term dictionary section for `terms` with the chosen width.
pub fn write_term_dict(buf: &mut Vec<u8>, terms: &Vec<Term>) -> (r: Result<Section, R5Error>)
    ensures
        match spec_term_dict(old(buf)@.len() as int, terms_view(terms@), None) {
            Outcome::Invalid => r matches Err(e) && e is Invalid,
            Outcome::Corrupt => r matches Err(e) && e is Corrupt,
            Outcome::Value(bytes) => {
                &&& final(buf)@ == old(buf)@ + bytes
                &&& r matches Ok(sec) && sec.off == old(buf)@.len() && sec.len == bytes.len()
            },
        },
{
    write_term_dict_with_width(buf, terms, None)
}

/// In a duplicate-free sequence, the index of a value is where it stands.
pub proof fn lemma_index_in_unique<T>(xs: Seq<T>, i: int, x: T)
    requires
        no_dups(xs),
        0 <= i < xs.len(),
        xs[i] == x,
    ensures
        index_in(xs, x) == i,
{
    let j = index_in(xs, x);
    assert(0 <= j < xs.len() && xs[j] == x);
}

} // verus!
