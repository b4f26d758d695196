//! Reader for R5TU files: validate a file image, look up graph groups and
//! iterate their triples.
use vstd::prelude::*;
use vstd::utf8::{decode_utf8, valid_utf8};
use crate::header::{
    crc32_ieee, footer_magic, header_fields_match, parse_footer, parse_toc, section_in_bounds,
    spec_crc32, spec_saturating_end, spec_toc_entry, toc_in_bounds, toc_kinds_known, Header,
    Section, SectionKind, TocEntry,
};
use crate::le::{le_u32_at, le_u64_at, read_u32_at, read_u64_at};
use crate::text::{owned, str_eq, str_from_utf8, utf8_bytes, str_bytes};
use vstd::string::StringExecFns;
use crate::varint::{read_uvarint, spec_read_uvarint};
use crate::writer::{Term, TermView};
use crate::layout::{
    all_gids, spec_block, spec_block_triples, spec_gdir_header, spec_gdir_row, spec_graphref,
    spec_graphrefs, spec_pair_lookup, spec_pair_search, spec_post_deltas, spec_postings, spec_enumerate, spec_resolve, pair_key,
    pair_order, pair_gid, BlockPayload, GDirRow, GraphRefView, Outcome,
};
use crate::triples::{decode_raw_payload, spec_raw_triples, spec_decode_raw, TripleIter};
use crate::compress::{zstd_decode, zstd_decompressed};

verus! {

/// The standard I/O error, carried through unchanged.
#[verifier::external_type_specification]
#[verifier::external_body]
pub struct ExIoError(std::io::Error);

/// Errors that can arise when parsing or validating an R5TU file.
#[derive(Debug)]
pub enum R5Error {
    /// Underlying I/O error.
    Io(std::io::Error),
    /// Structural problem with inputs or unsupported feature.
    Invalid(&'static str),
    /// The file failed an integrity or bounds check.
    Corrupt(String),
}

impl R5Error {
    /// A `Corrupt` error carrying `msg`.
    pub fn corrupt_msg(msg: &str) -> (e: R5Error)
        ensures
            e matches R5Error::Corrupt(m) && m@ == msg@,
    {
        R5Error::Corrupt(owned(msg))
    }

    /// The error's message: the text carried by `Invalid` and `Corrupt`, a
    /// fixed text for an I/O error.
    pub fn message(&self) -> (r: String)
        ensures
            match self {
                R5Error::Io(_) => r@ == "I/O error"@,
                R5Error::Invalid(m) => r@ == m@,
                R5Error::Corrupt(m) => r@ == m@,
            },
    {
        match self {
            R5Error::Io(_) => owned("I/O error"),
            R5Error::Invalid(m) => owned(m),
            R5Error::Corrupt(m) => m.clone(),
        }
    }
}

/// The text an error carries: the message of `Invalid` and `Corrupt`, a
/// fixed text for an I/O error.
pub open spec fn error_text(e: R5Error) -> Seq<char> {
    match e {
        R5Error::Io(_) => "I/O error"@,
        R5Error::Invalid(m) => m@,
        R5Error::Corrupt(m) => m@,
    }
}

/// Crate-level result type using the reader error.
pub type Result<T> = core::result::Result<T, R5Error>;

/// `section` lies within a buffer of `len` bytes (the reader's bounds check).
pub open spec fn spec_in_bounds(len: int, section: Section) -> bool {
    section.off <= len && spec_saturating_end(section) <= len
}

/// Lightweight description of a logical graph group inside an R5TU file.
#[derive(Debug, Clone)]
pub struct GraphRef {
    /// Stable group id within the file.
    pub gid: u64,
    /// Dataset identifier (as stored in the id dictionary).
    pub id: String,
    /// Graph name (as stored in the graph name dictionary).
    pub graphname: String,
    /// Number of triples in this group.
    pub n_triples: u64,
}

impl View for GraphRef {
    type V = GraphRefView;

    open spec fn view(&self) -> GraphRefView {
        GraphRefView { gid: self.gid, id: self.id@, graphname: self.graphname@, n_triples: self.n_triples }
    }
}

/// The views of a sequence of graph groups.
pub open spec fn graphref_views(v: Seq<GraphRef>) -> Seq<GraphRefView> {
    v.map_values(|g: GraphRef| g@)
}

/// `r` is what the lookup outcome `o` calls for.
pub open spec fn graphref_result(r: Result<GraphRef>, o: Outcome<GraphRefView>) -> bool {
    match o {
        Outcome::Invalid => r matches Err(e) && e is Invalid,
        Outcome::Corrupt => r matches Err(e) && e is Corrupt,
        Outcome::Value(v) => r matches Ok(g) && g@ == v,
    }
}

/// `r` is what the lookup outcome `o` calls for.
/// The dictionaries and the directory a file reads through are those its
/// table of contents lists.
pub open spec fn views_from_toc(f: &R5tuFile) -> bool {
    let d = f.file_bytes();
    let toc = spec_toc(d);
    &&& spec_find_section(toc, SectionKind::IdDict) is Some
    &&& spec_dict_parse(d, spec_find_section(toc, SectionKind::IdDict).unwrap()) == Some(f.id_dict_view())
    &&& spec_find_section(toc, SectionKind::GNameDict) is Some
    &&& spec_dict_parse(d, spec_find_section(toc, SectionKind::GNameDict).unwrap()) == Some(f.gname_dict_view())
    &&& spec_term_dict_parse(d, spec_find_section(toc, SectionKind::TermDict).unwrap()) == Some(f.term_dict_view())
    &&& spec_find_section(toc, SectionKind::GDir) == Some(f.gdir_view())
}

pub open spec fn graphrefs_result(r: Result<Vec<GraphRef>>, o: Outcome<Seq<GraphRefView>>) -> bool {
    match o {
        Outcome::Invalid => r matches Err(e) && e is Invalid,
        Outcome::Corrupt => r matches Err(e) && e is Corrupt,
        Outcome::Value(v) => r matches Ok(g) && graphref_views(g@) == v,
    }
}

// ---------------------------------------------------------------- string dictionaries

/// A string dictionary (ids or graph names): `n` strings stored in a blob,
/// delimited by `n + 1` little-endian `u32` offsets, with an optional sorted
/// key index.
#[derive(Debug, Clone, Copy)]
pub struct Dict {
    pub sec: Section,
    pub n: u32,
    pub blob: Section,
    pub offs: Section,
    pub idx: Option<Section>,
}

/// The dictionary whose 52-byte header starts the section, when the section,
/// header, blob, offsets and (present) index lie within the file.
pub open spec fn spec_dict_parse(data: Seq<u8>, sec: Section) -> Option<Dict> {
    let base = sec.off as int;
    if !spec_in_bounds(data.len() as int, sec) || base + 52 > data.len() {
        None
    } else {
        let blob = Section { off: le_u64_at(data, base + 4), len: le_u64_at(data, base + 12) };
        let offs = Section { off: le_u64_at(data, base + 20), len: le_u64_at(data, base + 28) };
        let idx_off = le_u64_at(data, base + 36);
        let idx = if idx_off != 0 {
            Some(Section { off: idx_off, len: le_u64_at(data, base + 44) })
        } else {
            None
        };
        if !spec_in_bounds(data.len() as int, blob) || !spec_in_bounds(data.len() as int, offs) {
            None
        } else if idx matches Some(s) && !spec_in_bounds(data.len() as int, s) {
            None
        } else {
            Some(Dict { sec, n: le_u32_at(data, base), blob, offs, idx })
        }
    }
}

/// Outcome of reading one dictionary entry.
pub enum EntryRead {
    /// The offsets or the string lie outside the file.
    OutOfBounds,
    /// The id is past the end or the bytes are not UTF-8.
    Missing,
    /// The entry's string.
    Found(Seq<char>),
}

/// Entry `id` of a dictionary.
pub open spec fn spec_dict_get(data: Seq<u8>, d: Dict, id: u32) -> EntryRead {
    if id >= d.n {
        EntryRead::Missing
    } else {
        let o = d.offs.off + 4 * id;
        if o + 8 > data.len() {
            EntryRead::OutOfBounds
        } else {
            let s = le_u32_at(data, o);
            let e = le_u32_at(data, o + 4);
            let b = d.blob.off as int;
            if s > e || b + e > data.len() {
                EntryRead::OutOfBounds
            } else {
                let bytes = data.subrange(b + s, b + e);
                if valid_utf8(bytes) {
                    EntryRead::Found(decode_utf8(bytes))
                } else {
                    EntryRead::Missing
                }
            }
        }
    }
}

/// ASCII lower-casing of one byte.
pub open spec fn ascii_lower(b: u8) -> u8 {
    if 65 <= b <= 90 {
        (b + 32) as u8
    } else {
        b
    }
}

/// The 16-byte index key of a string: its first 16 UTF-8 bytes, ASCII
/// lower-cased, zero padded.
pub open spec fn spec_key16(s: Seq<char>) -> Seq<u8> {
    let b = utf8_bytes(s);
    Seq::new(16, |i: int| if i < b.len() { ascii_lower(b[i]) } else { 0u8 })
}

/// Lexicographic comparison of two byte sequences of equal length:
/// -1, 0 or 1.
pub open spec fn spec_compare_bytes(a: Seq<u8>, b: Seq<u8>) -> int
    decreases a.len(),
{
    if a.len() == 0 || b.len() == 0 {
        0
    } else if a[0] < b[0] {
        -1
    } else if a[0] > b[0] {
        1
    } else {
        spec_compare_bytes(a.drop_first(), b.drop_first())
    }
}

/// Index entries are 24 bytes: a 16-byte key and a little-endian id.
pub open spec fn idx_entry_key(data: Seq<u8>, ib: int, m: int) -> Seq<u8> {
    data.subrange(ib + 24 * m, ib + 24 * m + 16)
}

/// Binary search of the key index in `lo..hi`: the position of an entry
/// with key `key`, or `None`; `Err` when an entry lies outside the file.
pub open spec fn spec_idx_search(data: Seq<u8>, ib: int, key: Seq<u8>, lo: int, hi: int)
    -> core::result::Result<Option<int>, ()>
    decreases hi - lo,
{
    if lo >= hi {
        Ok(None)
    } else {
        let mid = (lo + hi) / 2;
        if ib + 24 * mid + 16 > data.len() {
            Err(())
        } else {
            let c = spec_compare_bytes(idx_entry_key(data, ib, mid), key);
            if c < 0 {
                spec_idx_search(data, ib, key, mid + 1, hi)
            } else if c > 0 {
                spec_idx_search(data, ib, key, lo, mid)
            } else {
                Ok(Some(mid))
            }
        }
    }
}

/// Step back from `m` over the entries whose key equals `k`.
pub open spec fn spec_scan_back(data: Seq<u8>, ib: int, k: Seq<u8>, m: int)
    -> core::result::Result<int, ()>
    decreases m,
{
    if m <= 0 {
        Ok(m)
    } else if ib + 24 * (m - 1) + 16 > data.len() {
        Err(())
    } else if idx_entry_key(data, ib, m - 1) != k {
        Ok(m)
    } else {
        spec_scan_back(data, ib, k, m - 1)
    }
}

/// Walk forward from `m` over entries with key `k`, returning the first id
/// whose dictionary entry is `s`.
pub open spec fn spec_scan_fwd(data: Seq<u8>, d: Dict, ib: int, k: Seq<u8>, s: Seq<char>, m: int)
    -> core::result::Result<Option<u32>, ()>
    decreases d.n - m,
{
    if m < 0 || m >= d.n {
        Ok(None)
    } else if ib + 24 * m + 16 > data.len() {
        Err(())
    } else if idx_entry_key(data, ib, m) != k {
        Ok(None)
    } else if ib + 24 * m + 20 > data.len() {
        Err(())
    } else {
        let id = le_u32_at(data, ib + 24 * m + 16);
        match spec_dict_get(data, d, id) {
            EntryRead::OutOfBounds => Err(()),
            EntryRead::Found(ss) => if ss == s {
                Ok(Some(id))
            } else {
                spec_scan_fwd(data, d, ib, k, s, m + 1)
            },
            EntryRead::Missing => spec_scan_fwd(data, d, ib, k, s, m + 1),
        }
    }
}

/// Linear search over ids `i..n` for an entry equal to `s`.
pub open spec fn spec_linear_find(data: Seq<u8>, d: Dict, s: Seq<char>, i: int)
    -> core::result::Result<Option<u32>, ()>
    decreases d.n - i,
{
    if i < 0 || i >= d.n {
        Ok(None)
    } else {
        match spec_dict_get(data, d, i as u32) {
            EntryRead::OutOfBounds => Err(()),
            EntryRead::Found(ss) => if ss == s {
                Ok(Some(i as u32))
            } else {
                spec_linear_find(data, d, s, i + 1)
            },
            EntryRead::Missing => spec_linear_find(data, d, s, i + 1),
        }
    }
}

/// The id of string `s`: through the key index when the dictionary has one,
/// else by linear search. `Err` when the file is too short for a read.
pub open spec fn spec_find_id(data: Seq<u8>, d: Dict, s: Seq<char>) -> core::result::Result<Option<u32>, ()> {
    match d.idx {
        Some(idx) => {
            let ib = idx.off as int;
            let key = spec_key16(s);
            match spec_idx_search(data, ib, key, 0, d.n as int) {
                Err(()) => Err(()),
                Ok(None) => Ok(None),
                Ok(Some(mid)) => match spec_scan_back(data, ib, idx_entry_key(data, ib, mid), mid) {
                    Err(()) => Err(()),
                    Ok(m) => spec_scan_fwd(data, d, ib, idx_entry_key(data, ib, mid), s, m),
                },
            }
        },
        None => spec_linear_find(data, d, s, 0),
    }
}

impl Dict {
    /// Parse a dictionary header at the start of `sec`.
    pub fn parse(data: &[u8], sec: Section) -> (r: Result<Dict>)
        ensures
            r is Ok <==> spec_dict_parse(data@, sec) is Some,
            r matches Ok(d) ==> spec_dict_parse(data@, sec) == Some(d),
            r matches Err(e) ==> e is Corrupt,
    {
        let len = data.len();
        if !section_in_bounds(len, sec) {
            return Err(R5Error::corrupt_msg("dict section OOB"));
        }
        let base = sec.off as usize;
        if len - base < 52 {
            return Err(R5Error::corrupt_msg("short dict header"));
        }
        let n = read_u32_at(data, base);
        let blob = Section { off: read_u64_at(data, base + 4), len: read_u64_at(data, base + 12) };
        let offs = Section { off: read_u64_at(data, base + 20), len: read_u64_at(data, base + 28) };
        let idx_off = read_u64_at(data, base + 36);
        let idx_len = read_u64_at(data, base + 44);
        let idx = if idx_off != 0 {
            Some(Section { off: idx_off, len: idx_len })
        } else {
            None
        };
        if !section_in_bounds(len, blob) || !section_in_bounds(len, offs) {
            return Err(R5Error::corrupt_msg("dict blob/offs OOB"));
        }
        if let Some(s) = idx {
            if !section_in_bounds(len, s) {
                return Err(R5Error::corrupt_msg("dict index OOB"));
            }
        }
        Ok(Dict { sec, n, blob, offs, idx })
    }

    /// Entry `id`: `Ok(None)` when the id is past the end or the bytes are not
    /// UTF-8; `Err` when the entry lies outside the file.
    pub fn get<'a>(&self, data: &'a [u8], id: u32) -> (r: Result<Option<&'a str>>)
        ensures
            match spec_dict_get(data@, *self, id) {
                EntryRead::OutOfBounds => r is Err,
                EntryRead::Missing => r matches Ok(None),
                EntryRead::Found(s) => r matches Ok(Some(x)) && x@ == s,
            },
            r matches Err(e) ==> e is Corrupt,
    {
        if id >= self.n {
            return Ok(None);
        }
        let len = data.len() as u64;
        let o = self.offs.off as u128 + 4 * (id as u128);
        if o + 8 > len as u128 {
            return Err(R5Error::corrupt_msg("dict offsets OOB"));
        }
        let o = o as usize;
        let s = read_u32_at(data, o) as u64;
        let e = read_u32_at(data, o + 4) as u64;
        let b = self.blob.off;
        if s > e || b as u128 + e as u128 > len as u128 {
            return Err(R5Error::corrupt_msg("dict string OOB"));
        }
        let bytes = &data[(b + s) as usize..(b + e) as usize];
        Ok(str_from_utf8(bytes))
    }
}

/// The 16-byte index key of `s`.
pub fn key16(s: &str) -> (k: Vec<u8>)
    ensures
        k@ == spec_key16(s@),
{
    let b = str_bytes(s);
    let mut k: Vec<u8> = Vec::new();
    let mut i: usize = 0;
    while i < 16
        invariant
            i <= 16,
            b@ == utf8_bytes(s@),
            k@.len() == i,
            forall|j: int| 0 <= j < i ==> #[trigger] k@[j] == spec_key16(s@)[j],
        decreases 16 - i,
    {
        let x = if i < b.len() {
            let c = b[i];
            if 65 <= c && c <= 90 { c + 32 } else { c }
        } else {
            0u8
        };
        k.push(x);
        i = i + 1;
    }
    assert(k@ =~= spec_key16(s@));
    k
}

/// Lexicographic comparison of equal-length byte slices: -1, 0 or 1.
pub fn compare_bytes(a: &[u8], b: &[u8]) -> (c: i8)
    requires
        a@.len() == b@.len(),
    ensures
        c == spec_compare_bytes(a@, b@),
{
    let mut i: usize = 0;
    assert(a@.subrange(0, a@.len() as int) =~= a@);
    assert(b@.subrange(0, b@.len() as int) =~= b@);
    while i < a.len()
        invariant
            i <= a@.len(),
            a@.len() == b@.len(),
            spec_compare_bytes(a@, b@) == spec_compare_bytes(a@.subrange(i as int, a@.len() as int), b@.subrange(i as int, b@.len() as int)),
        decreases a@.len() - i,
    {
        let ghost sa = a@.subrange(i as int, a@.len() as int);
        let ghost sb = b@.subrange(i as int, b@.len() as int);
        proof {
            assert(sa.drop_first() =~= a@.subrange(i + 1, a@.len() as int));
            assert(sb.drop_first() =~= b@.subrange(i + 1, b@.len() as int));
        }
        if a[i] < b[i] {
            return -1;
        } else if a[i] > b[i] {
            return 1;
        }
        i = i + 1;
    }
    0
}

impl Dict {
    /// Look up the id of string `s`: a binary search over the key index
    /// (scanning the run of equal keys), or a linear search without an index.
    pub fn find_id(&self, data: &[u8], s: &str) -> (r: Result<Option<u32>>)
        ensures
            match spec_find_id(data@, *self, s@) {
                Err(()) => r is Err,
                Ok(x) => r matches Ok(y) && y == x,
            },
            r matches Err(e) ==> e is Corrupt,
            r matches Ok(Some(id)) ==> spec_dict_get(data@, *self, id) == EntryRead::Found(s@),
    {
        let len = data.len() as u64;
        assert(data@.len() <= usize::MAX);
        match self.idx {
            Some(idx) => {
                let ib = idx.off;
                let key = key16(s);
                let n = self.n as u64;
                let mut lo: u64 = 0;
                let mut hi: u64 = n;
                let ghost key_s = spec_key16(s@);
                while lo < hi
                    invariant
                        lo <= hi <= n,
                        n == self.n,
                        len == data@.len(),
                        data@.len() <= usize::MAX,
                        key@ == key_s,
                        key_s == spec_key16(s@),
                        ib == idx.off,
                        self.idx == Some(idx),
                        spec_find_id(data@, *self, s@) == (match spec_idx_search(data@, ib as int, key_s, lo as int, hi as int) {
                            Err(()) => Err(()),
                            Ok(None) => Ok(None),
                            Ok(Some(mid)) => match spec_scan_back(data@, ib as int, idx_entry_key(data@, ib as int, mid), mid) {
                                Err(()) => Err(()),
                                Ok(m) => spec_scan_fwd(data@, *self, ib as int, idx_entry_key(data@, ib as int, mid), s@, m),
                            },
                        }),
                    decreases hi - lo,
                {
                    let mid = (lo + hi) / 2;
                    if ib as u128 + 24 * (mid as u128) + 16 > len as u128 {
                        return Err(R5Error::corrupt_msg("dict index OOB"));
                    }
                    let off = (ib + 24 * mid) as usize;
                    let k = &data[off..off + 16];
                    assert(k@ == idx_entry_key(data@, ib as int, mid as int));
                    let c = compare_bytes(k, key.as_slice());
                    if c < 0 {
                        lo = mid + 1;
                    } else if c > 0 {
                        hi = mid;
                    } else {
                        return self.scan_equal_keys(data, s, ib, mid);
                    }
                }
                Ok(None)
            },
            None => {
                let mut i: u32 = 0;
                while i < self.n
                    invariant
                        i <= self.n,
                        spec_find_id(data@, *self, s@) == spec_linear_find(data@, *self, s@, i as int),
                        self.idx is None,
                    decreases self.n - i,
                {
                    match self.get(data, i)? {
                        Some(ss) => {
                            if str_eq(ss, s) {
                                return Ok(Some(i));
                            }
                        },
                        None => {},
                    }
                    i = i + 1;
                }
                Ok(None)
            },
        }
    }

    /// Scan the run of index entries whose key equals the one found at `mid`.
    fn scan_equal_keys(&self, data: &[u8], s: &str, ib: u64, mid: u64) -> (r: Result<Option<u32>>)
        requires
            mid < self.n,
            ib + 24 * mid + 16 <= data@.len(),
        ensures
            match spec_scan_back(data@, ib as int, idx_entry_key(data@, ib as int, mid as int), mid as int) {
                Err(()) => r is Err,
                Ok(m) => match spec_scan_fwd(data@, *self, ib as int, idx_entry_key(data@, ib as int, mid as int), s@, m) {
                    Err(()) => r is Err,
                    Ok(x) => r matches Ok(y) && y == x,
                },
            },
            r matches Err(e) ==> e is Corrupt,
            r matches Ok(Some(id)) ==> spec_dict_get(data@, *self, id) == EntryRead::Found(s@),
    {
        let len = data.len() as u64;
        assert(data@.len() <= usize::MAX);
        let n = self.n as u64;
        let off = (ib + 24 * mid) as usize;
        let k = &data[off..off + 16];
        let ghost kk = idx_entry_key(data@, ib as int, mid as int);
        assert(k@ == kk);
        let mut m: u64 = mid;
        while m > 0
            invariant
                m <= mid < n,
                n == self.n,
                len == data@.len(),
                data@.len() <= usize::MAX,
                k@ == kk,
                k@.len() == 16,
                kk == idx_entry_key(data@, ib as int, mid as int),
                spec_scan_back(data@, ib as int, kk, mid as int) == spec_scan_back(data@, ib as int, kk, m as int),
            ensures
                spec_scan_back(data@, ib as int, kk, mid as int) == Ok::<int, ()>(m as int),
                m <= n,
            decreases m,
        {
            if ib as u128 + 24 * ((m - 1) as u128) + 16 > len as u128 {
                return Err(R5Error::corrupt_msg("dict index OOB"));
            }
            let o = (ib + 24 * (m - 1)) as usize;
            let prev = &data[o..o + 16];
            assert(prev@ == idx_entry_key(data@, ib as int, m - 1));
            if compare_bytes(prev, k) != 0 {
                proof {
                    lemma_compare_zero_eq(prev@, k@);
                }
                break;
            }
            proof {
                lemma_compare_zero_eq(prev@, k@);
            }
            m = m - 1;
        }
        let ghost m0 = m as int;
        while m < n
            invariant
                m <= n,
                n == self.n,
                len == data@.len(),
                data@.len() <= usize::MAX,
                k@ == kk,
                k@.len() == 16,
                kk == idx_entry_key(data@, ib as int, mid as int),
                spec_scan_back(data@, ib as int, kk, mid as int) == Ok::<int, ()>(m0),
                spec_scan_fwd(data@, *self, ib as int, kk, s@, m as int) == spec_scan_fwd(data@, *self, ib as int, kk, s@, m0),
            decreases n - m,
        {
            if ib as u128 + 24 * (m as u128) + 20 > len as u128 {
                if ib as u128 + 24 * (m as u128) + 16 > len as u128 {
                    assert(spec_scan_fwd(data@, *self, ib as int, kk, s@, m as int) == Err::<Option<u32>, ()>(()));
                    return Err(R5Error::corrupt_msg("dict index OOB"));
                }
                let o = (ib + 24 * m) as usize;
                let cur = &data[o..o + 16];
                assert(cur@ == idx_entry_key(data@, ib as int, m as int));
                if compare_bytes(cur, k) != 0 {
                    proof {
                        lemma_compare_zero_eq(cur@, k@);
                    }
                    return Ok(None);
                }
                proof {
                    lemma_compare_zero_eq(cur@, k@);
                }
                return Err(R5Error::corrupt_msg("dict index OOB"));
            }
            let o = (ib + 24 * m) as usize;
            let cur = &data[o..o + 16];
            assert(cur@ == idx_entry_key(data@, ib as int, m as int));
            if compare_bytes(cur, k) != 0 {
                proof {
                    lemma_compare_zero_eq(cur@, k@);
                }
                return Ok(None);
            }
            proof {
                lemma_compare_zero_eq(cur@, k@);
            }
            let id = read_u32_at(data, o + 16);
            match self.get(data, id)? {
                Some(ss) => {
                    if str_eq(ss, s) {
                        return Ok(Some(id));
                    }
                },
                None => {},
            }
            m = m + 1;
        }
        Ok(None)
    }
}

/// Comparison yields 0 exactly for equal sequences of equal length.
pub proof fn lemma_compare_zero_eq(a: Seq<u8>, b: Seq<u8>)
    requires
        a.len() == b.len(),
    ensures
        (spec_compare_bytes(a, b) == 0) == (a == b),
    decreases a.len(),
{
    if a.len() > 0 {
        lemma_compare_zero_eq(a.drop_first(), b.drop_first());
        if a[0] == b[0] && a.drop_first() == b.drop_first() {
            assert(a =~= seq![a[0]] + a.drop_first());
            assert(b =~= seq![b[0]] + b.drop_first());
        }
        if a == b {
            assert(a.drop_first() == b.drop_first());
        }
    } else {
        assert(a =~= b);
    }
}

// ---------------------------------------------------------------- term dictionary

/// The term dictionary: `n_terms` kind bytes, a data blob and `n_terms + 1`
/// little-endian offsets into it, of four bytes when the width byte is 4
/// and of eight bytes otherwise.
#[derive(Debug, Clone, Copy)]
pub struct TermDict {
    pub width: u8,
    pub n_terms: u64,
    pub kinds_off: u64,
    pub data_off: u64,
    pub offs_off: u64,
}

/// The term dictionary whose 33-byte header starts the section.
pub open spec fn spec_term_dict_parse(data: Seq<u8>, sec: Section) -> Option<TermDict> {
    let base = sec.off as int;
    if !spec_in_bounds(data.len() as int, sec) || base + 33 > data.len() {
        None
    } else {
        Some(TermDict {
            width: data[base],
            n_terms: le_u64_at(data, base + 1),
            kinds_off: le_u64_at(data, base + 9),
            data_off: le_u64_at(data, base + 17),
            offs_off: le_u64_at(data, base + 25),
        })
    }
}

/// A decoded term, as owned strings.
#[derive(Debug, Clone)]
pub enum TermParts {
    Iri(String),
    BNode(String),
    Literal { lex: String, dt: Option<String>, lang: Option<String> },
}

impl View for TermParts {
    type V = TermView;

    open spec fn view(&self) -> TermView {
        match self {
            TermParts::Iri(s) => TermView::Iri(s@),
            TermParts::BNode(s) => TermView::BNode(s@),
            TermParts::Literal { lex, dt, lang } => TermView::Literal(
                lex@,
                crate::writer::opt_view(*dt),
                crate::writer::opt_view(*lang),
            ),
        }
    }
}

/// Outcome of decoding a term.
pub enum TermRead {
    /// The id is not below the term count.
    OutOfRange,
    /// The stored term is malformed or lies outside the file.
    Corrupt,
    /// The term.
    Found(TermView),
}

/// The UTF-8 string stored in `p[start..start + len]`, if in bounds and valid.
pub open spec fn spec_utf8_at(p: Seq<u8>, start: int, len: int) -> Option<Seq<char>> {
    if start + len > p.len() || !valid_utf8(p.subrange(start, start + len)) {
        None
    } else {
        Some(decode_utf8(p.subrange(start, start + len)))
    }
}

/// An optional length-prefixed string at `off` after a presence byte read
/// already; returns the string and the offset after it.
pub open spec fn spec_opt_part(p: Seq<u8>, off: int) -> Option<(Seq<char>, int)> {
    match spec_read_uvarint(p, off) {
        None => None,
        Some((l, o2)) => match spec_utf8_at(p, o2, l as int) {
            None => None,
            Some(s) => Some((s, o2 + l)),
        },
    }
}

/// A literal payload: a varint-prefixed lexical form, then a presence byte
/// and varint-prefixed datatype, then a presence byte and language tag.
pub open spec fn spec_literal(p: Seq<u8>) -> Option<TermView> {
    match spec_read_uvarint(p, 0) {
        None => None,
        Some((lex_len, off)) => match spec_utf8_at(p, off, lex_len as int) {
            None => None,
            Some(lex) => {
                let off2 = off + lex_len;
                if off2 >= p.len() {
                    None
                } else {
                    let dt_part: Option<(Option<Seq<char>>, int)> = if p[off2] == 1 {
                        match spec_opt_part(p, off2 + 1) {
                            None => None,
                            Some((s, o)) => Some((Some(s), o)),
                        }
                    } else {
                        Some((None, off2 + 1))
                    };
                    match dt_part {
                        None => None,
                        Some((dt, off4)) => if off4 >= p.len() {
                            None
                        } else if p[off4] == 1 {
                            match spec_opt_part(p, off4 + 1) {
                                None => None,
                                Some((lang, o)) => Some(TermView::Literal(lex, dt, Some(lang))),
                            }
                        } else {
                            Some(TermView::Literal(lex, dt, None))
                        },
                    }
                }
            },
        },
    }
}

/// Term `id` of the dictionary.
pub open spec fn spec_term_parts(data: Seq<u8>, td: TermDict, id: u64) -> TermRead {
    if id >= td.n_terms {
        TermRead::OutOfRange
    } else {
        let w: int = if td.width == 4 { 4 } else { 8 };
        let o = td.offs_off + w * id;
        if o + 2 * w > data.len() {
            TermRead::Corrupt
        } else {
            let s: u64 = if w == 4 { le_u32_at(data, o) as u64 } else { le_u64_at(data, o) };
            let e: u64 = if w == 4 { le_u32_at(data, o + 4) as u64 } else { le_u64_at(data, o + 8) };
            let b = td.data_off as int;
            let k = td.kinds_off + id;
            if s > e || b + e > data.len() || k >= data.len() {
                TermRead::Corrupt
            } else {
                let p = data.subrange(b + s, b + e);
                let kind = data[k];
                if kind == 0 || kind == 1 {
                    if valid_utf8(p) {
                        if kind == 0 {
                            TermRead::Found(TermView::Iri(decode_utf8(p)))
                        } else {
                            TermRead::Found(TermView::BNode(decode_utf8(p)))
                        }
                    } else {
                        TermRead::Corrupt
                    }
                } else if kind == 2 {
                    match spec_literal(p) {
                        Some(t) => TermRead::Found(t),
                        None => TermRead::Corrupt,
                    }
                } else {
                    TermRead::Corrupt
                }
            }
        }
    }
}

/// The display form of a term: IRIs and blank nodes as they are, literals as
/// `"lex"^^<dt>`, `"lex"@lang` or `"lex"`.
pub open spec fn spec_term_string(t: TermView) -> Seq<char> {
    match t {
        TermView::Iri(s) => s,
        TermView::BNode(s) => s,
        TermView::Literal(lex, dt, lang) => match dt {
            Some(d) => seq!['"'] + lex + seq!['"', '^', '^', '<'] + d + seq!['>'],
            None => match lang {
                Some(l) => seq!['"'] + lex + seq!['"', '@'] + l,
                None => seq!['"'] + lex + seq!['"'],
            },
        },
    }
}

/// Decode the UTF-8 string at `p[start..start + len]`.
fn utf8_at(p: &[u8], start: usize, len: u64) -> (r: Option<String>)
    requires
        start <= p@.len(),
    ensures
        match spec_utf8_at(p@, start as int, len as int) {
            Some(s) => r matches Some(x) && x@ == s,
            None => r is None,
        },
{
    let n = p.len();
    if len > (n - start) as u64 {
        return None;
    }
    let end = start + len as usize;
    match str_from_utf8(&p[start..end]) {
        Some(s) => Some(owned(s)),
        None => None,
    }
}

/// Read an optional length-prefixed string at `off`.
fn opt_part(p: &[u8], off: usize) -> (r: Option<(String, usize)>)
    ensures
        match spec_opt_part(p@, off as int) {
            Some((s, o)) => r matches Some((x, y)) && x@ == s && y == o,
            None => r is None,
        },
{
    let _n = p.len();
    match read_uvarint(p, off) {
        None => None,
        Some((l, o2)) => {
            proof {
                crate::triples::lemma_read_uvarint_advances(p@, off as int);
            }
            match utf8_at(p, o2, l) {
                None => None,
                Some(s) => {
                    assert(o2 + l <= p@.len() <= usize::MAX);
                    Some((s, o2 + l as usize))
                },
            }
        },
    }
}

/// Decode a literal payload.
fn literal_parts(p: &[u8]) -> (r: Result<TermParts>)
    ensures
        match spec_literal(p@) {
            Some(t) => r matches Ok(x) && x@ == t,
            None => r matches Err(e) && e is Corrupt,
        },
{
    let (lex_len, off) = match read_uvarint(p, 0) {
        Some(x) => x,
        None => return Err(R5Error::corrupt_msg("lit lex")),
    };
    proof {
        crate::triples::lemma_read_uvarint_advances(p@, 0);
    }
    let _n = p.len();
    let lex = match utf8_at(p, off, lex_len) {
        Some(s) => s,
        None => return Err(R5Error::corrupt_msg("utf8")),
    };
    assert(off + lex_len <= p@.len() <= usize::MAX);
    let mut off = off + lex_len as usize;
    if off >= p.len() {
        return Err(R5Error::corrupt_msg("lit bounds"));
    }
    let has_dt = p[off];
    off = off + 1;
    let dt = if has_dt == 1 {
        match opt_part(p, off) {
            Some((s, o)) => {
                off = o;
                Some(s)
            },
            None => return Err(R5Error::corrupt_msg("dt len")),
        }
    } else {
        None
    };
    if off >= p.len() {
        return Err(R5Error::corrupt_msg("lit bounds2"));
    }
    let has_lang = p[off];
    off = off + 1;
    let lang = if has_lang == 1 {
        match opt_part(p, off) {
            Some((s, _o)) => Some(s),
            None => return Err(R5Error::corrupt_msg("lang len")),
        }
    } else {
        None
    };
    Ok(TermParts::Literal { lex, dt, lang })
}

impl TermDict {
    /// Parse a term dictionary header at the start of `sec`.
    pub fn parse(data: &[u8], sec: Section) -> (r: Result<TermDict>)
        ensures
            r is Ok <==> spec_term_dict_parse(data@, sec) is Some,
            r matches Ok(d) ==> spec_term_dict_parse(data@, sec) == Some(d),
            r matches Err(e) ==> e is Corrupt,
    {
        let len = data.len();
        if !section_in_bounds(len, sec) {
            return Err(R5Error::corrupt_msg("term dict OOB"));
        }
        let base = sec.off as usize;
        if len - base < 33 {
            return Err(R5Error::corrupt_msg("short term dict header"));
        }
        Ok(TermDict {
            width: data[base],
            n_terms: read_u64_at(data, base + 1),
            kinds_off: read_u64_at(data, base + 9),
            data_off: read_u64_at(data, base + 17),
            offs_off: read_u64_at(data, base + 25),
        })
    }

    /// Decode term `term_id` into its parts.
    pub fn term_parts(&self, data: &[u8], term_id: u64) -> (r: Result<TermParts>)
        ensures
            match spec_term_parts(data@, *self, term_id) {
                TermRead::OutOfRange => r matches Err(e) && e is Invalid && error_text(e) == "term id out of range"@,
                TermRead::Corrupt => r matches Err(e) && e is Corrupt,
                TermRead::Found(t) => r matches Ok(x) && x@ == t,
            },
    {
        if term_id >= self.n_terms {
            return Err(R5Error::Invalid("term id out of range"));
        }
        let len = data.len() as u64;
        let w: u128 = if self.width == 4 { 4 } else { 8 };
        let o = self.offs_off as u128 + w * (term_id as u128);
        if o + 2 * w > len as u128 {
            return Err(R5Error::corrupt_msg("term offsets OOB"));
        }
        let o = o as usize;
        let (s, e) = if w == 4 {
            (read_u32_at(data, o) as u64, read_u32_at(data, o + 4) as u64)
        } else {
            (read_u64_at(data, o), read_u64_at(data, o + 8))
        };
        let b = self.data_off;
        let k = self.kinds_off as u128 + term_id as u128;
        if s > e || b as u128 + e as u128 > len as u128 || k >= len as u128 {
            return Err(R5Error::corrupt_msg("term payload OOB"));
        }
        let payload = &data[(b + s) as usize..(b + e) as usize];
        let kind = data[k as usize];
        if kind == 0 || kind == 1 {
            match str_from_utf8(payload) {
                Some(x) => {
                    if kind == 0 {
                        Ok(TermParts::Iri(owned(x)))
                    } else {
                        Ok(TermParts::BNode(owned(x)))
                    }
                },
                None => Err(R5Error::corrupt_msg("utf8")),
            }
        } else if kind == 2 {
            literal_parts(payload)
        } else {
            Err(R5Error::corrupt_msg("unknown term kind"))
        }
    }

    /// Decode term `term_id` into its display string.
    pub fn term_to_string(&self, data: &[u8], term_id: u64) -> (r: Result<String>)
        ensures
            match spec_term_parts(data@, *self, term_id) {
                TermRead::OutOfRange => r matches Err(e) && e is Invalid && error_text(e) == "term id out of range"@,
                TermRead::Corrupt => r matches Err(e) && e is Corrupt,
                TermRead::Found(t) => r matches Ok(x) && x@ == spec_term_string(t),
            },
    {
        let parts = self.term_parts(data, term_id)?;
        Ok(term_display(&parts))
    }
}

/// The display string of decoded term parts.
pub fn term_display(t: &TermParts) -> (s: String)
    ensures
        s@ == spec_term_string(t@),
{
    match t {
        TermParts::Iri(x) => x.clone(),
        TermParts::BNode(x) => x.clone(),
        TermParts::Literal { lex, dt, lang } => {
            let mut out = String::new();
            proof {
                reveal_strlit("\"");
                reveal_strlit("\"^^<");
                reveal_strlit(">");
                reveal_strlit("\"@");
            }
            out.append("\"");
            out.append(lex.as_str());
            match dt {
                Some(d) => {
                    out.append("\"^^<");
                    out.append(d.as_str());
                    out.append(">");
                },
                None => match lang {
                    Some(l) => {
                        out.append("\"@");
                        out.append(l.as_str());
                    },
                    None => {
                        out.append("\"");
                    },
                },
            }
            assert(out@ =~= spec_term_string(t@));
            out
        },
    }
}

/// Convert decoded parts into a writer term with the same strings.
pub fn parts_to_term(p: TermParts) -> (t: Term)
    ensures
        t@ == p@,
{
    match p {
        TermParts::Iri(s) => Term::Iri(s),
        TermParts::BNode(s) => Term::BNode(s),
        TermParts::Literal { lex, dt, lang } => Term::Literal { lex, dt, lang },
    }
}

// ---------------------------------------------------------------- file validation

/// Term `i` of the file is the IRI `iri`.
pub open spec fn iri_at(f: &R5tuFile, i: u64, iri: Seq<char>) -> bool {
    i < f.term_dict_view().n_terms
        && spec_term_parts(f.file_bytes(), f.term_dict_view(), i) == TermRead::Found(TermView::Iri(iri))
}

/// Term `i` is the first term that is the IRI `iri`.
pub open spec fn first_iri(f: &R5tuFile, iri: Seq<char>, i: u64) -> bool {
    iri_at(f, i, iri) && forall|j: u64| j < i ==> !iri_at(f, j, iri)
}

/// The id of the first term that is the IRI `iri`, if any.
pub open spec fn spec_iri_id(f: &R5tuFile, iri: Seq<char>) -> Option<u64> {
    if exists|i: u64| first_iri(f, iri, i) {
        Some(choose|i: u64| first_iri(f, iri, i))
    } else {
        None
    }
}

/// The first term that is an IRI is unique.
pub proof fn lemma_first_iri_unique(f: &R5tuFile, iri: Seq<char>, i: u64)
    requires
        first_iri(f, iri, i),
    ensures
        spec_iri_id(f, iri) == Some(i),
{
    let c = choose|k: u64| first_iri(f, iri, k);
    assert(first_iri(f, iri, c));
    if c < i {
        assert(!iri_at(f, c, iri));
    } else if i < c {
        assert(!iri_at(f, i, iri));
    }
}

/// The ASCII magic "R5TU" at the start of every file.
pub open spec fn file_magic() -> Seq<u8> {
    seq![0x52u8, 0x35, 0x54, 0x55]
}

/// Offset of the TOC recorded in the header.
pub open spec fn spec_toc_off(data: Seq<u8>) -> u64 {
    le_u64_at(data, 16)
}

/// Number of TOC entries recorded in the header.
pub open spec fn spec_toc_len(data: Seq<u8>) -> u32 {
    le_u32_at(data, 24)
}

/// The TOC lies within the file and every entry has a known kind.
pub open spec fn spec_toc_ok(data: Seq<u8>) -> bool {
    &&& spec_toc_off(data) + 32 * spec_toc_len(data) <= data.len()
    &&& forall|i: int| 0 <= i < spec_toc_len(data) ==>
        #[trigger] spec_toc_entry(data, spec_toc_off(data) + 32 * i) is Some
}

/// The TOC entries of a file whose TOC parses.
pub open spec fn spec_toc(data: Seq<u8>) -> Seq<TocEntry> {
    Seq::new(spec_toc_len(data) as nat, |i: int| spec_toc_entry(data, spec_toc_off(data) + 32 * i).unwrap())
}

/// A TOC entry lies within the file and, when it carries a CRC, the CRC of
/// its bytes matches.
pub open spec fn toc_entry_ok(data: Seq<u8>, e: TocEntry) -> bool {
    &&& spec_in_bounds(data.len() as int, e.section)
    &&& e.crc32_u32 != 0 ==> e.section.off + e.section.len <= data.len()
        && spec_crc32(data.subrange(e.section.off as int, e.section.off + e.section.len)) == e.crc32_u32
}

/// No two sections overlap: whenever one starts before another (or at the
/// same offset and earlier in the TOC), it ends before the other starts.
pub open spec fn toc_no_overlap(toc: Seq<TocEntry>) -> bool {
    forall|i: int, j: int| #![trigger toc[i], toc[j]]
        0 <= i < toc.len() && 0 <= j < toc.len() && i != j
            && (toc[i].section.off < toc[j].section.off
                || (toc[i].section.off == toc[j].section.off && i < j))
            ==> toc[i].section.off + toc[i].section.len <= toc[j].section.off
}

/// The section of the first TOC entry of kind `k`.
pub open spec fn spec_find_section(toc: Seq<TocEntry>, k: SectionKind) -> Option<Section>
    decreases toc.len(),
{
    if toc.len() == 0 {
        None
    } else if toc[0].kind == k {
        Some(toc[0].section)
    } else {
        spec_find_section(toc.drop_first(), k)
    }
}

/// Every section kind the reader needs is present.
pub open spec fn required_sections_present(toc: Seq<TocEntry>) -> bool {
    &&& spec_find_section(toc, SectionKind::IdDict) is Some
    &&& spec_find_section(toc, SectionKind::GNameDict) is Some
    &&& spec_find_section(toc, SectionKind::TermDict) is Some
    &&& spec_find_section(toc, SectionKind::GDir) is Some
    &&& spec_find_section(toc, SectionKind::IdxId2Gid) is Some
    &&& spec_find_section(toc, SectionKind::IdxGName2Gid) is Some
    &&& spec_find_section(toc, SectionKind::IdxPair2Gid) is Some
    &&& spec_find_section(toc, SectionKind::TripleBlocks) is Some
}

/// The three dictionaries parse.
pub open spec fn dicts_ok(data: Seq<u8>, toc: Seq<TocEntry>) -> bool {
    &&& spec_dict_parse(data, spec_find_section(toc, SectionKind::IdDict).unwrap()) is Some
    &&& spec_dict_parse(data, spec_find_section(toc, SectionKind::GNameDict).unwrap()) is Some
    &&& spec_term_dict_parse(data, spec_find_section(toc, SectionKind::TermDict).unwrap()) is Some
}

/// When the file ends with the footer marker, the CRC before it matches.
pub open spec fn footer_ok(data: Seq<u8>) -> bool {
    (data.len() >= 16 && data.subrange(data.len() - 12, data.len() as int) == footer_magic())
        ==> spec_crc32(data.subrange(0, data.len() - 16)) == le_u32_at(data, data.len() - 16)
}

/// Outcome of validating a file image: 0 valid, 1 rejected as `Invalid`,
/// 2 rejected as `Corrupt`.
pub open spec fn spec_open_status(data: Seq<u8>) -> int {
    if data.len() < 32 {
        1
    } else {
        if data.subrange(0, 4) != file_magic() {
            1
        } else if spec_toc_off(data) > data.len() {
            2
        } else if !spec_toc_ok(data) {
            2
        } else {
            let toc = spec_toc(data);
            if !(forall|i: int| 0 <= i < toc.len() ==> toc_entry_ok(data, #[trigger] toc[i])) {
                2
            } else if !toc_no_overlap(toc) {
                2
            } else if !required_sections_present(toc) {
                1
            } else if !dicts_ok(data, toc) || !footer_ok(data) {
                2
            } else {
                0
            }
        }
    }
}

/// The message a file image is rejected with, where it is fixed by a check
/// on the header, the TOC as a whole, or the required sections; `None` when
/// the image opens or the message depends on the first damaged TOC entry or
/// on a dictionary.
pub open spec fn spec_open_message(data: Seq<u8>) -> Option<Seq<char>> {
    if data.len() < 32 {
        Some("short or invalid header"@)
    } else if data.subrange(0, 4) != file_magic() {
        Some("bad magic"@)
    } else if spec_toc_off(data) > data.len() {
        Some("TOC offset out of bounds"@)
    } else if !spec_toc_ok(data) {
        Some("TOC parse failed"@)
    } else {
        let toc = spec_toc(data);
        if !(forall|i: int| 0 <= i < toc.len() ==> toc_entry_ok(data, #[trigger] toc[i])) {
            None
        } else if !toc_no_overlap(toc) {
            Some("TOC sections overlap or unsorted"@)
        } else if !required_sections_present(toc) {
            Some("missing required section"@)
        } else {
            None
        }
    }
}

/// The message for a TOC entry of kind `k` whose section lies outside the
/// file: "section", the kind's name, "out of bounds".
pub open spec fn spec_out_of_bounds_message(k: SectionKind) -> Seq<char> {
    match k {
        SectionKind::TermDict => "section TermDict out of bounds"@,
        SectionKind::IdDict => "section IdDict out of bounds"@,
        SectionKind::GNameDict => "section GNameDict out of bounds"@,
        SectionKind::GDir => "section GDir out of bounds"@,
        SectionKind::IdxId2Gid => "section IdxId2Gid out of bounds"@,
        SectionKind::IdxGName2Gid => "section IdxGName2Gid out of bounds"@,
        SectionKind::IdxPair2Gid => "section IdxPair2Gid out of bounds"@,
        SectionKind::TripleBlocks => "section TripleBlocks out of bounds"@,
    }
}

/// Message for a TOC entry whose section lies outside the file.
fn out_of_bounds_message(k: SectionKind) -> (r: &'static str)
    ensures
        r@ == spec_out_of_bounds_message(k),
{
    match k {
        SectionKind::TermDict => "section TermDict out of bounds",
        SectionKind::IdDict => "section IdDict out of bounds",
        SectionKind::GNameDict => "section GNameDict out of bounds",
        SectionKind::GDir => "section GDir out of bounds",
        SectionKind::IdxId2Gid => "section IdxId2Gid out of bounds",
        SectionKind::IdxGName2Gid => "section IdxGName2Gid out of bounds",
        SectionKind::IdxPair2Gid => "section IdxPair2Gid out of bounds",
        SectionKind::TripleBlocks => "section TripleBlocks out of bounds",
    }
}

/// The first section of kind `k` in the TOC.
pub fn find_section(toc: &Vec<TocEntry>, k: SectionKind) -> (r: Option<Section>)
    ensures
        r == spec_find_section(toc@, k),
{
    let mut i: usize = 0;
    assert(toc@.subrange(0, toc@.len() as int) =~= toc@);
    while i < toc.len()
        invariant
            i <= toc@.len(),
            spec_find_section(toc@, k) == spec_find_section(toc@.subrange(i as int, toc@.len() as int), k),
        decreases toc@.len() - i,
    {
        let ghost rest = toc@.subrange(i as int, toc@.len() as int);
        assert(rest.drop_first() =~= toc@.subrange(i + 1, toc@.len() as int));
        if toc[i].kind == k {
            return Some(toc[i].section);
        }
        i = i + 1;
    }
    None
}

/// Whether sections `a` and `b` of the TOC are ordered without overlap.
pub open spec fn pair_ok(toc: Seq<TocEntry>, a: int, b: int) -> bool {
    (a != b && (toc[a].section.off < toc[b].section.off
        || (toc[a].section.off == toc[b].section.off && a < b)))
        ==> toc[a].section.off + toc[a].section.len <= toc[b].section.off
}

/// Check that no two sections of the TOC overlap.
fn sections_disjoint(toc: &Vec<TocEntry>) -> (r: bool)
    ensures
        r == toc_no_overlap(toc@),
{
    let n = toc.len();
    let mut i: usize = 0;
    while i < n
        invariant
            i <= n,
            n == toc@.len(),
            forall|a: int, b: int| 0 <= a < i && 0 <= b < n ==> #[trigger] pair_ok(toc@, a, b),
        decreases n - i,
    {
        let mut j: usize = 0;
        while j < n
            invariant
                j <= n,
                i < n,
                n == toc@.len(),
                forall|a: int, b: int| 0 <= a < i && 0 <= b < n ==> #[trigger] pair_ok(toc@, a, b),
                forall|b: int| 0 <= b < j ==> #[trigger] pair_ok(toc@, i as int, b),
            decreases n - j,
        {
            let a = toc[i].section;
            let b = toc[j].section;
            if i != j && (a.off < b.off || (a.off == b.off && i < j)) {
                if a.off as u128 + a.len as u128 > b.off as u128 {
                    assert(!pair_ok(toc@, i as int, j as int));
                    return false;
                }
            }
            j = j + 1;
        }
        i = i + 1;
    }
    assert forall|x: int, y: int| #![trigger toc@[x], toc@[y]]
        0 <= x < toc@.len() && 0 <= y < toc@.len() && x != y
            && (toc@[x].section.off < toc@[y].section.off
                || (toc@[x].section.off == toc@[y].section.off && x < y))
            implies toc@[x].section.off + toc@[x].section.len <= toc@[y].section.off by {
        assert(pair_ok(toc@, x, y));
    }
    true
}

/// An opened R5TU file: the validated bytes and the parsed header, TOC and
/// dictionary headers.
#[derive(Debug)]
pub struct R5tuFile {
    data: Vec<u8>,
    header: Header,
    toc: Vec<TocEntry>,
    id_dict: Dict,
    gname_dict: Dict,
    term_dict: TermDict,
    gdir: Section,
    idx_id2gid: Section,
    idx_gname2gid: Section,
    idx_pair2gid: Section,
    triple_blocks: Section,
}

impl R5tuFile {
    #[verifier::type_invariant]
    spec fn inv(self) -> bool {
        let d = self.data@;
        let toc = spec_toc(d);
        &&& spec_open_status(d) == 0
        &&& header_fields_match(self.header, d)
        &&& self.toc@ == toc
        &&& spec_find_section(toc, SectionKind::IdDict) == Some(self.id_dict.sec)
        &&& spec_find_section(toc, SectionKind::GNameDict) == Some(self.gname_dict.sec)
        &&& spec_dict_parse(d, self.id_dict.sec) == Some(self.id_dict)
        &&& spec_dict_parse(d, self.gname_dict.sec) == Some(self.gname_dict)
        &&& spec_term_dict_parse(d, spec_find_section(toc, SectionKind::TermDict).unwrap()) == Some(self.term_dict)
        &&& spec_find_section(toc, SectionKind::GDir) == Some(self.gdir)
        &&& spec_find_section(toc, SectionKind::IdxId2Gid) == Some(self.idx_id2gid)
        &&& spec_find_section(toc, SectionKind::IdxGName2Gid) == Some(self.idx_gname2gid)
        &&& spec_find_section(toc, SectionKind::IdxPair2Gid) == Some(self.idx_pair2gid)
        &&& spec_find_section(toc, SectionKind::TripleBlocks) == Some(self.triple_blocks)
    }

    /// The file's bytes.
    pub closed spec fn file_bytes(&self) -> Seq<u8> {
        self.data@
    }

    /// The id dictionary.
    pub closed spec fn id_dict_view(&self) -> Dict {
        self.id_dict
    }

    /// The graph-name dictionary.
    pub closed spec fn gname_dict_view(&self) -> Dict {
        self.gname_dict
    }

    /// The term dictionary.
    pub closed spec fn term_dict_view(&self) -> TermDict {
        self.term_dict
    }

    /// The graph directory section.
    pub closed spec fn gdir_view(&self) -> Section {
        self.gdir
    }

    /// The id-to-gid postings section.
    pub closed spec fn id2gid_view(&self) -> Section {
        self.idx_id2gid
    }

    /// The graph-name-to-gid postings section.
    pub closed spec fn gname2gid_view(&self) -> Section {
        self.idx_gname2gid
    }

    /// The (id, graph name) pair index section.
    pub closed spec fn pair2gid_view(&self) -> Section {
        self.idx_pair2gid
    }

    /// The header.
    pub closed spec fn header_view(&self) -> Header {
        self.header
    }

    /// The TOC.
    pub closed spec fn toc_view(&self) -> Seq<TocEntry> {
        self.toc@
    }

    /// Validate a file image and open it. `dicts_before_footer` selects
    /// whether the dictionaries are parsed before the global CRC is checked
    /// (the order only affects which error is reported first).
    pub fn from_bytes_ordered(data: Vec<u8>, dicts_before_footer: bool) -> (r: Result<R5tuFile>)
        ensures
            r is Ok <==> spec_open_status(data@) == 0,
            r matches Err(e) ==> (e is Invalid <==> spec_open_status(data@) == 1),
            r matches Err(e) ==> (e is Corrupt <==> spec_open_status(data@) == 2),
            spec_open_message(data@) matches Some(m) ==> r matches Err(e) && error_text(e) == m,
            r matches Ok(f) ==> f.file_bytes() == data@,
    {
        let len = data.len();
        let header = match Header::parse(data.as_slice()) {
            Some(h) => h,
            None => return Err(R5Error::Invalid("short or invalid header")),
        };
        let m = header.magic;
        if !(m[0] == 0x52 && m[1] == 0x35 && m[2] == 0x54 && m[3] == 0x55) {
            assert(data@.subrange(0, 4) != file_magic()) by {
                if data@.subrange(0, 4) == file_magic() {
                    assert(m@[0] == data@.subrange(0, 4)[0]);
                    assert(m@[1] == data@.subrange(0, 4)[1]);
                    assert(m@[2] == data@.subrange(0, 4)[2]);
                    assert(m@[3] == data@.subrange(0, 4)[3]);
                }
            }
            return Err(R5Error::Invalid("bad magic"));
        }
        assert(data@.subrange(0, 4) =~= file_magic()) by {
            assert(m@ == data@.subrange(0, 4));
        }
        if header.toc_off_u64 > len as u64 {
            return Err(R5Error::corrupt_msg("TOC offset out of bounds"));
        }
        let toc = match parse_toc(data.as_slice(), &header) {
            Some(t) => t,
            None => return Err(R5Error::corrupt_msg("TOC parse failed")),
        };
        assert(toc@ =~= spec_toc(data@));
        assert(spec_toc_ok(data@));
        let n = toc.len();
        let mut i: usize = 0;
        while i < n
            invariant
                i <= n,
                n == toc@.len(),
                len == data@.len(),
                toc@ == spec_toc(data@),
                data@.len() >= 32,
                data@.subrange(0, 4) == file_magic(),
                spec_toc_off(data@) <= data@.len(),
                spec_toc_ok(data@),
                forall|j: int| 0 <= j < i ==> toc_entry_ok(data@, #[trigger] toc@[j]),
            decreases n - i,
        {
            let e = toc[i];
            if !section_in_bounds(len, e.section) {
                assert(!toc_entry_ok(data@, toc@[i as int]));
                return Err(R5Error::corrupt_msg(out_of_bounds_message(e.kind)));
            }
            if e.crc32_u32 != 0 {
                let start = e.section.off as usize;
                if e.section.len > (len - start) as u64 {
                    assert(!toc_entry_ok(data@, toc@[i as int]));
                    return Err(R5Error::corrupt_msg("section crc OOB"));
                }
                let end = start + e.section.len as usize;
                let got = crc32_ieee(&data.as_slice()[start..end]);
                if got != e.crc32_u32 {
                    assert(data@.subrange(start as int, end as int)
                        == data@.subrange(e.section.off as int, e.section.off + e.section.len));
                    assert(!toc_entry_ok(data@, toc@[i as int]));
                    return Err(R5Error::corrupt_msg("section CRC mismatch"));
                }
                assert(data@.subrange(start as int, end as int)
                    == data@.subrange(e.section.off as int, e.section.off + e.section.len));
            }
            assert(toc_entry_ok(data@, toc@[i as int]));
            i = i + 1;
        }
        if !sections_disjoint(&toc) {
            return Err(R5Error::corrupt_msg("TOC sections overlap or unsorted"));
        }
        let id_sec = match find_section(&toc, SectionKind::IdDict) {
            Some(s) => s,
            None => return Err(R5Error::Invalid("missing required section")),
        };
        let gn_sec = match find_section(&toc, SectionKind::GNameDict) {
            Some(s) => s,
            None => return Err(R5Error::Invalid("missing required section")),
        };
        let term_sec = match find_section(&toc, SectionKind::TermDict) {
            Some(s) => s,
            None => return Err(R5Error::Invalid("missing required section")),
        };
        let gdir = match find_section(&toc, SectionKind::GDir) {
            Some(s) => s,
            None => return Err(R5Error::Invalid("missing required section")),
        };
        let idx_id2gid = match find_section(&toc, SectionKind::IdxId2Gid) {
            Some(s) => s,
            None => return Err(R5Error::Invalid("missing required section")),
        };
        let idx_gname2gid = match find_section(&toc, SectionKind::IdxGName2Gid) {
            Some(s) => s,
            None => return Err(R5Error::Invalid("missing required section")),
        };
        let idx_pair2gid = match find_section(&toc, SectionKind::IdxPair2Gid) {
            Some(s) => s,
            None => return Err(R5Error::Invalid("missing required section")),
        };
        let triple_blocks = match find_section(&toc, SectionKind::TripleBlocks) {
            Some(s) => s,
            None => return Err(R5Error::Invalid("missing required section")),
        };
        if !dicts_before_footer {
            Self::check_footer(data.as_slice())?;
        }
        let id_dict = Dict::parse(data.as_slice(), id_sec)?;
        let gname_dict = Dict::parse(data.as_slice(), gn_sec)?;
        let term_dict = TermDict::parse(data.as_slice(), term_sec)?;
        if dicts_before_footer {
            Self::check_footer(data.as_slice())?;
        }
        Ok(R5tuFile {
            data,
            header,
            toc,
            id_dict,
            gname_dict,
            term_dict,
            gdir,
            idx_id2gid,
            idx_gname2gid,
            idx_pair2gid,
            triple_blocks,
        })
    }

    /// Validate a file image and open it (dictionaries before the footer).
    pub fn from_bytes(data: Vec<u8>) -> (r: Result<R5tuFile>)
        ensures
            r is Ok <==> spec_open_status(data@) == 0,
            r matches Err(e) ==> (e is Invalid <==> spec_open_status(data@) == 1),
            r matches Err(e) ==> (e is Corrupt <==> spec_open_status(data@) == 2),
            spec_open_message(data@) matches Some(m) ==> r matches Err(e) && error_text(e) == m,
            r matches Ok(f) ==> f.file_bytes() == data@ && views_from_toc(&f),
    {
        match Self::from_bytes_ordered(data, true) {
            Ok(f) => {
                proof {
                    use_type_invariant(&f);
                }
                Ok(f)
            },
            Err(e) => Err(e),
        }
    }

    /// Check the global CRC when the file ends with the footer marker.
    fn check_footer(data: &[u8]) -> (r: Result<()>)
        ensures
            r is Ok <==> footer_ok(data@),
            r matches Err(e) ==> e is Corrupt,
    {
        match parse_footer(data) {
            Some((footer_crc, _magic)) => {
                let n = data.len();
                let got = crc32_ieee(&data[0..n - 16]);
                if got != footer_crc {
                    return Err(R5Error::corrupt_msg("global CRC mismatch"));
                }
                Ok(())
            },
            None => Ok(()),
        }
    }
}


// ---------------------------------------------------------------- graph directory and indexes

impl R5tuFile {
    /// The graph directory header: row count and row size.
    fn gdir_header(&self) -> (r: Result<(u64, u32)>)
        ensures
            match spec_gdir_header(self.data@, self.gdir) {
                None => r matches Err(e) && e is Corrupt,
                Some(h) => r == Ok::<(u64, u32), R5Error>(h),
            },
    {
        let d = self.data.as_slice();
        let base = self.gdir.off;
        if base as u128 + 16 > d.len() as u128 {
            return Err(R5Error::corrupt_msg("gdir header OOB"));
        }
        let base = base as usize;
        Ok((read_u64_at(d, base), read_u32_at(d, base + 8)))
    }

    /// Row `gid` of the graph directory.
    fn gdir_row(&self, gid: u64) -> (r: Result<GDirRow>)
        ensures
            match spec_gdir_row(self.data@, self.gdir, gid) {
                Outcome::Invalid => r matches Err(e) && e is Invalid,
                Outcome::Corrupt => r matches Err(e) && e is Corrupt,
                Outcome::Value(row) => r == Ok::<GDirRow, R5Error>(row),
            },
    {
        let (n_rows, rs) = self.gdir_header()?;
        if gid >= n_rows {
            return Err(R5Error::Invalid("gid out of range"));
        }
        let d = self.data.as_slice();
        let len = d.len();
        assert(gid as u128 * rs as u128 <= 0xffff_ffff_ffff_ffffu128 * 0xffff_ffffu128) by (nonlinear_arith)
            requires gid <= 0xffff_ffff_ffff_ffffu64, rs <= 0xffff_ffffu32;
        let off: u128 = self.gdir.off as u128 + 16 + gid as u128 * rs as u128;
        if off + rs as u128 > len as u128 || rs < 44 {
            return Err(R5Error::corrupt_msg("gdir row OOB"));
        }
        let off = off as usize;
        Ok(GDirRow {
            id_id: read_u32_at(d, off),
            gn_id: read_u32_at(d, off + 4),
            triples_off: read_u64_at(d, off + 8),
            triples_len: read_u64_at(d, off + 16),
            n_triples: read_u64_at(d, off + 24),
            n_s: read_u32_at(d, off + 32),
            n_p: read_u32_at(d, off + 36),
            n_o: read_u32_at(d, off + 40),
        })
    }

    /// The graph group `gid`, with its id and graph name resolved.
    fn graphref_for_gid(&self, gid: u64) -> (r: Result<GraphRef>)
        ensures
            graphref_result(r, spec_graphref(self.data@, self.id_dict, self.gname_dict, self.gdir, gid)),
    {
        let row = self.gdir_row(gid)?;
        let d = self.data.as_slice();
        let id = match self.id_dict.get(d, row.id_id) {
            Ok(Some(x)) => owned(x),
            _ => return Err(R5Error::corrupt_msg("id str OOB")),
        };
        let graphname = match self.gname_dict.get(d, row.gn_id) {
            Ok(Some(x)) => owned(x),
            _ => return Err(R5Error::corrupt_msg("gname str OOB")),
        };
        Ok(GraphRef { gid, id, graphname, n_triples: row.n_triples })
    }

    /// The graph groups of `gids`, in order.
    fn graphrefs(&self, gids: &Vec<u64>) -> (r: Result<Vec<GraphRef>>)
        ensures
            graphrefs_result(r, spec_graphrefs(self.data@, self.id_dict, self.gname_dict, self.gdir, gids@)),
    {
        let ghost all = spec_graphrefs(self.data@, self.id_dict, self.gname_dict, self.gdir, gids@);
        let mut out: Vec<GraphRef> = Vec::new();
        let mut i: usize = 0;
        assert(gids@.subrange(0, gids@.len() as int) =~= gids@);
        assert(graphref_views(out@) =~= seq![]);
        while i < gids.len()
            invariant
                i <= gids@.len(),
                all == spec_graphrefs(self.data@, self.id_dict, self.gname_dict, self.gdir, gids@),
                all == crate::layout::outcome_prepend(graphref_views(out@),
                    spec_graphrefs(self.data@, self.id_dict, self.gname_dict, self.gdir,
                        gids@.subrange(i as int, gids@.len() as int))),
            decreases gids@.len() - i,
        {
            let ghost rest = gids@.subrange(i as int, gids@.len() as int);
            assert(rest[0] == gids@[i as int]);
            assert(rest.drop_first() =~= gids@.subrange(i + 1, gids@.len() as int));
            let g = self.graphref_for_gid(gids[i])?;
            let ghost before = graphref_views(out@);
            out.push(g);
            proof {
                assert(graphref_views(out@) =~= before + seq![g@]);
                let tail = spec_graphrefs(self.data@, self.id_dict, self.gname_dict, self.gdir, rest.drop_first());
                if let Outcome::Value(t) = tail {
                    assert(before + (seq![g@] + t) =~= (before + seq![g@]) + t);
                }
            }
            i = i + 1;
        }
        assert(gids@.subrange(i as int, gids@.len() as int) =~= seq![]);
        assert(graphref_views(out@) + seq![] =~= graphref_views(out@));
        Ok(out)
    }

    /// The posting list of key `key` in the postings section `sec`.
    fn decode_posting_list(&self, sec: Section, key: u64) -> (r: Result<Vec<u64>>)
        ensures
            match spec_postings(self.data@, sec, key) {
                None => r matches Err(e) && e is Corrupt,
                Some(g) => r matches Ok(v) && v@ == g,
            },
    {
        let d = self.data.as_slice();
        let len = d.len();
        if sec.off as u128 + sec.len as u128 > len as u128 || sec.len < 24 {
            return Err(R5Error::corrupt_msg("postings header short"));
        }
        let b = sec.off as usize;
        let n_keys = read_u64_at(d, b);
        if key >= n_keys {
            return Ok(Vec::new());
        }
        let offs_off = read_u64_at(d, b + 8);
        let blob_off = read_u64_at(d, b + 16);
        if offs_off as u128 + (n_keys as u128 + 1) * 8 > len as u128 {
            return Err(R5Error::corrupt_msg("postings offs OOB"));
        }
        let s = read_u64_at(d, (offs_off + key * 8) as usize);
        let e = read_u64_at(d, (offs_off + (key + 1) * 8) as usize);
        if blob_off as u128 + e as u128 > len as u128 || s > e {
            return Err(R5Error::corrupt_msg("postings blob OOB"));
        }
        let mut off = (blob_off + s) as usize;
        let end = (blob_off + e) as usize;
        let (n, o1) = match read_uvarint(d, off) {
            Some(x) => x,
            None => return Err(R5Error::corrupt_msg("postings n")),
        };
        if n == 0 {
            return Ok(Vec::new());
        }
        let (first, o2) = match read_uvarint(d, o1) {
            Some(x) => x,
            None => return Err(R5Error::corrupt_msg("postings first")),
        };
        off = o2;
        let mut out: Vec<u64> = Vec::new();
        out.push(first);
        let mut cur = first;
        let mut i: u64 = 1;
        let ghost target = spec_postings(d@, sec, key);
        assert(target == crate::layout::opt_prepend(out@, spec_post_deltas(d@, off as int, end as int, cur, (n - i) as nat)));
        while i < n
            invariant
                1 <= i <= n,
                d@ == self.data@,
                target == spec_postings(d@, sec, key),
                target == crate::layout::opt_prepend(out@, spec_post_deltas(d@, off as int, end as int, cur, (n - i) as nat)),
            decreases n - i,
        {
            if off >= end {
                return Err(R5Error::corrupt_msg("postings truncated"));
            }
            let (delta, o3) = match read_uvarint(d, off) {
                Some(x) => x,
                None => return Err(R5Error::corrupt_msg("postings delta")),
            };
            cur = match cur.checked_add(delta) {
                Some(c) => c,
                None => return Err(R5Error::corrupt_msg("postings overflow")),
            };
            let ghost before = out@;
            out.push(cur);
            proof {
                let tail = spec_post_deltas(d@, o3 as int, end as int, cur, (n - i - 1) as nat);
                if let Some(t) = tail {
                    assert(before + (seq![cur] + t) =~= (before + seq![cur]) + t);
                }
            }
            off = o3;
            i = i + 1;
        }
        assert(out@ + seq![] =~= out@);
        Ok(out)
    }

    /// The graph groups listed under `key` in the postings section `sec`.
    fn postings_to_graphrefs(&self, sec: Section, key: u64) -> (r: Result<Vec<GraphRef>>)
        ensures
            match spec_postings(self.data@, sec, key) {
                None => r matches Err(e) && e is Corrupt,
                Some(gids) => graphrefs_result(r, spec_graphrefs(self.data@, self.id_dict, self.gname_dict, self.gdir, gids)),
            },
    {
        let gids = self.decode_posting_list(sec, key)?;
        self.graphrefs(&gids)
    }

    /// Binary search of the pair index for (`id_id`, `gn_id`).
    fn pair_lookup(&self, sec: Section, id_id: u32, gn_id: u32) -> (r: Result<Option<u64>>)
        ensures
            match spec_pair_lookup(self.data@, sec, (id_id, gn_id)) {
                None => r matches Err(e) && e is Corrupt,
                Some(x) => r == Ok::<Option<u64>, R5Error>(x),
            },
    {
        let d = self.data.as_slice();
        let len = d.len();
        if sec.off as u128 + sec.len as u128 > len as u128 || sec.len < 16 {
            return Err(R5Error::corrupt_msg("pair idx short"));
        }
        let b = sec.off as usize;
        let n_pairs = read_u64_at(d, b);
        let pairs_off = read_u64_at(d, b + 8);
        if pairs_off as u128 + n_pairs as u128 * 16 > len as u128 {
            return Err(R5Error::corrupt_msg("pairs OOB"));
        }
        let ghost key = (id_id, gn_id);
        let mut lo: u64 = 0;
        let mut hi: u64 = n_pairs;
        while lo < hi
            invariant
                lo <= hi <= n_pairs,
                d@ == self.data@,
                len == d@.len(),
                pairs_off + n_pairs * 16 <= len,
                key == (id_id, gn_id),
                spec_pair_lookup(d@, sec, key) == Some(spec_pair_search(d@, pairs_off as int, key, lo as int, hi as int)),
            decreases hi - lo,
        {
            let mid = (lo + hi) / 2;
            let off = (pairs_off + 16 * mid) as usize;
            let mid_id = read_u32_at(d, off);
            let mid_gn = read_u32_at(d, off + 4);
            assert(pair_key(d@, pairs_off as int, mid as int) == (mid_id, mid_gn));
            if mid_id < id_id || (mid_id == id_id && mid_gn < gn_id) {
                lo = mid + 1;
            } else if mid_id == id_id && mid_gn == gn_id {
                return Ok(Some(read_u64_at(d, off + 8)));
            } else {
                hi = mid;
            }
        }
        Ok(None)
    }

    /// Decode the triple block of graph group `gid`.
    fn decode_triple_block(&self, gid: u64) -> (r: Result<TripleIter>)
        ensures
            match spec_block_triples(self.data@, self.gdir, gid) {
                Outcome::Invalid => r matches Err(e) && e is Invalid,
                Outcome::Corrupt => r matches Err(e) && e is Corrupt,
                Outcome::Value(t) => r matches Ok(it) && it.wf() && it.remaining() == t,
            },
    {
        let row = self.gdir_row(gid)?;
        let d = self.data.as_slice();
        let len = d.len();
        let base = row.triples_off;
        let end = match base.checked_add(row.triples_len) {
            Some(x) => x,
            None => return Err(R5Error::corrupt_msg("block bounds")),
        };
        if end > len as u64 {
            return Err(R5Error::corrupt_msg("block OOB"));
        }
        if base as u128 + 5 > end as u128 {
            return Err(R5Error::corrupt_msg("block header short"));
        }
        let base = base as usize;
        let end = end as usize;
        let enc = d[base];
        let raw_len = read_u32_at(d, base + 1) as usize;
        let start = base + 5;
        if enc != 0 && enc != 1 {
            return Err(R5Error::corrupt_msg("unknown block encoding"));
        }
        if raw_len > end - start {
            return Err(R5Error::corrupt_msg("block payload OOB"));
        }
        let payload = &d[start..start + raw_len];
        if enc == 0 {
            decode_raw_payload(payload)
        } else {
            match zstd_decode(payload) {
                Some(raw) => decode_raw_payload(raw.as_slice()),
                None => Err(R5Error::corrupt_msg("zstd decode")),
            }
        }
    }
}


// ---------------------------------------------------------------- queries

impl R5tuFile {
    /// The file's bytes.
    pub fn bytes(&self) -> (r: &[u8])
        ensures
            r@ == self.file_bytes(),
    {
        self.data.as_slice()
    }

    /// The parsed file header.
    pub fn header(&self) -> (r: &Header)
        ensures
            *r == self.header_view(),
            header_fields_match(*r, self.file_bytes()),
    {
        proof {
            use_type_invariant(self);
        }
        &self.header
    }

    /// The parsed table of contents.
    pub fn toc(&self) -> (r: &[TocEntry])
        ensures
            r@ == self.toc_view(),
            r@ == spec_toc(self.file_bytes()),
    {
        proof {
            use_type_invariant(self);
        }
        self.toc.as_slice()
    }

    /// The byte span of the first section of kind `kind`, if present.
    pub fn section(&self, kind: SectionKind) -> (r: Option<Section>)
        ensures
            r == spec_find_section(self.toc_view(), kind),
    {
        find_section(&self.toc, kind)
    }

    /// The graph groups whose dataset id is `id`, in posting-list order.
    pub fn enumerate_by_id(&self, id: &str) -> (r: Result<Vec<GraphRef>>)
        ensures
            graphrefs_result(r, spec_enumerate(self.file_bytes(), self.id_dict_view(), self.id2gid_view(),
                self.id_dict_view(), self.gname_dict_view(), self.gdir_view(), id@)),
    {
        let key = match self.id_dict.find_id(self.data.as_slice(), id) {
            Ok(Some(k)) => k,
            Ok(None) => {
                let v: Vec<GraphRef> = Vec::new();
                assert(graphref_views(v@) =~= seq![]);
                return Ok(v);
            },
            Err(e) => return Err(e),
        };
        self.postings_to_graphrefs(self.idx_id2gid, key as u64)
    }

    /// The graph groups whose graph name is `gname`, in posting-list order.
    pub fn enumerate_by_graphname(&self, gname: &str) -> (r: Result<Vec<GraphRef>>)
        ensures
            graphrefs_result(r, spec_enumerate(self.file_bytes(), self.gname_dict_view(), self.gname2gid_view(),
                self.id_dict_view(), self.gname_dict_view(), self.gdir_view(), gname@)),
    {
        let key = match self.gname_dict.find_id(self.data.as_slice(), gname) {
            Ok(Some(k)) => k,
            Ok(None) => {
                let v: Vec<GraphRef> = Vec::new();
                assert(graphref_views(v@) =~= seq![]);
                return Ok(v);
            },
            Err(e) => return Err(e),
        };
        self.postings_to_graphrefs(self.idx_gname2gid, key as u64)
    }

    /// Resolve a (dataset id, graph name) pair to its graph group, if any.
    pub fn resolve_gid(&self, id: &str, gname: &str) -> (r: Result<Option<GraphRef>>)
        ensures
            match spec_resolve(self.file_bytes(), self.id_dict_view(), self.gname_dict_view(),
                self.pair2gid_view(), self.gdir_view(), id@, gname@) {
                Outcome::Invalid => r matches Err(e) && e is Invalid,
                Outcome::Corrupt => r matches Err(e) && e is Corrupt,
                Outcome::Value(None) => r matches Ok(None),
                Outcome::Value(Some(v)) => r matches Ok(Some(g)) && g@ == v,
            },
    {
        let d = self.data.as_slice();
        let id_id = match self.id_dict.find_id(d, id) {
            Ok(Some(k)) => k,
            Ok(None) => return Ok(None),
            Err(e) => return Err(e),
        };
        let gn_id = match self.gname_dict.find_id(d, gname) {
            Ok(Some(k)) => k,
            Ok(None) => return Ok(None),
            Err(e) => return Err(e),
        };
        match self.pair_lookup(self.idx_pair2gid, id_id, gn_id)? {
            Some(gid) => {
                let gr = self.graphref_for_gid(gid)?;
                Ok(Some(gr))
            },
            None => Ok(None),
        }
    }

    /// Number of terms in the term dictionary; every stored term id is below it.
    pub fn num_terms(&self) -> (r: u64)
        ensures
            r == self.term_dict_view().n_terms,
    {
        self.term_dict.n_terms
    }

    /// A cursor over the (S, P, O) term-id triples of graph group `gid`.
    pub fn triples_ids(&self, gid: u64) -> (r: Result<TripleIter>)
        ensures
            match spec_block_triples(self.file_bytes(), self.gdir_view(), gid) {
                Outcome::Invalid => r matches Err(e) && e is Invalid,
                Outcome::Corrupt => r matches Err(e) && e is Corrupt,
                Outcome::Value(t) => r matches Ok(it) && it.wf() && it.remaining() == t,
            },
    {
        self.decode_triple_block(gid)
    }

    /// The display string of term `term_id` (IRI, blank node or literal).
    pub fn term_to_string(&self, term_id: u64) -> (r: Result<String>)
        ensures
            match spec_term_parts(self.file_bytes(), self.term_dict_view(), term_id) {
                TermRead::OutOfRange => r matches Err(e) && e is Invalid && error_text(e) == "term id out of range"@,
                TermRead::Corrupt => r matches Err(e) && e is Corrupt,
                TermRead::Found(t) => r matches Ok(x) && x@ == spec_term_string(t),
            },
    {
        self.term_dict.term_to_string(self.data.as_slice(), term_id)
    }

    /// The id of the first term that is the IRI `iri`, if any.
    pub fn iri_term_id(&self, iri: &str) -> (r: Option<u64>)
        ensures
            r == spec_iri_id(self, iri@),
    {
        let n = self.term_dict.n_terms;
        let mut i: u64 = 0;
        while i < n
            invariant
                i <= n,
                n == self.term_dict_view().n_terms,
                forall|j: u64| j < i ==> !iri_at(self, j, iri@),
            decreases n - i,
        {
            match self.term_dict.term_parts(self.data.as_slice(), i) {
                Ok(TermParts::Iri(s)) => {
                    if str_eq(s.as_str(), iri) {
                        proof {
                            lemma_first_iri_unique(self, iri@, i);
                        }
                        return Some(i);
                    }
                },
                _ => {},
            }
            i = i + 1;
        }
        assert(!(exists|j: u64| first_iri(self, iri@, j)));
        None
    }

    /// Term `term_id` as a writer term.
    pub fn term_as_writer_term(&self, term_id: u64) -> (r: Result<Term>)
        ensures
            match spec_term_parts(self.file_bytes(), self.term_dict_view(), term_id) {
                TermRead::OutOfRange => r matches Err(e) && e is Invalid && error_text(e) == "term id out of range"@,
                TermRead::Corrupt => r matches Err(e) && e is Corrupt,
                TermRead::Found(t) => r matches Ok(x) && x@ == t,
            },
    {
        let parts = self.term_dict.term_parts(self.data.as_slice(), term_id)?;
        Ok(parts_to_term(parts))
    }

    /// Every graph group of the directory, in gid order.
    pub fn enumerate_all(&self) -> (r: Result<Vec<GraphRef>>)
        ensures
            match spec_gdir_header(self.file_bytes(), self.gdir_view()) {
                None => r matches Err(e) && e is Corrupt,
                Some((n_rows, _)) => graphrefs_result(r, spec_graphrefs(self.file_bytes(),
                    self.id_dict_view(), self.gname_dict_view(), self.gdir_view(), all_gids(n_rows))),
            },
    {
        let (n_rows, _rs) = self.gdir_header()?;
        let ghost gids = all_gids(n_rows);
        let ghost all = spec_graphrefs(self.data@, self.id_dict, self.gname_dict, self.gdir, gids);
        let mut out: Vec<GraphRef> = Vec::new();
        let mut gid: u64 = 0;
        assert(gids.subrange(0, gids.len() as int) =~= gids);
        assert(graphref_views(out@) =~= seq![]);
        while gid < n_rows
            invariant
                gid <= n_rows,
                gids == all_gids(n_rows),
                spec_gdir_header(self.data@, self.gdir) is Some,
                spec_gdir_header(self.data@, self.gdir).unwrap().0 == n_rows,
                all == spec_graphrefs(self.data@, self.id_dict, self.gname_dict, self.gdir, gids),
                all == crate::layout::outcome_prepend(graphref_views(out@),
                    spec_graphrefs(self.data@, self.id_dict, self.gname_dict, self.gdir,
                        gids.subrange(gid as int, gids.len() as int))),
            decreases n_rows - gid,
        {
            let ghost rest = gids.subrange(gid as int, gids.len() as int);
            assert(gids.len() == n_rows);
            assert(rest.len() > 0);
            assert(rest[0] == gid);
            assert(spec_graphrefs(self.data@, self.id_dict, self.gname_dict, self.gdir, rest) == match spec_graphref(self.data@, self.id_dict, self.gname_dict, self.gdir, gid) {
                Outcome::Invalid => Outcome::Invalid,
                Outcome::Corrupt => Outcome::Corrupt,
                Outcome::Value(g) => match spec_graphrefs(self.data@, self.id_dict, self.gname_dict, self.gdir, rest.drop_first()) {
                    Outcome::Invalid => Outcome::Invalid,
                    Outcome::Corrupt => Outcome::Corrupt,
                    Outcome::Value(t) => Outcome::<Seq<GraphRefView>>::Value(seq![g] + t),
                },
            });
            assert(rest.drop_first() =~= gids.subrange(gid + 1, gids.len() as int));
            let g = self.graphref_for_gid(gid)?;
            let ghost before = graphref_views(out@);
            out.push(g);
            proof {
                assert(graphref_views(out@) =~= before + seq![g@]);
                let tail = spec_graphrefs(self.data@, self.id_dict, self.gname_dict, self.gdir, rest.drop_first());
                if let Outcome::Value(t) = tail {
                    assert(before + (seq![g@] + t) =~= (before + seq![g@]) + t);
                }
            }
            gid = gid + 1;
        }
        assert(gids.subrange(gid as int, gids.len() as int) =~= seq![]);
        assert(graphref_views(out@) + seq![] =~= graphref_views(out@));
        Ok(out)
    }
}

} // verus!
