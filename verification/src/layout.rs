//! What the graph directory, the postings indexes, the pair index and the
//! triple blocks of a file image hold, stated over its bytes.
use vstd::prelude::*;
use crate::header::Section;
use crate::le::{le_u32_at, le_u64_at};
use crate::reader::{spec_dict_get, spec_find_id, Dict, EntryRead};
use crate::triples::{spec_raw_triples, Triple};
use crate::compress::zstd_decompressed;
use crate::varint::spec_read_uvarint;

verus! {

/// Outcome of a lookup in a file image: the request is out of range, the
/// file is damaged, or the value.
pub enum Outcome<T> {
    Invalid,
    Corrupt,
    Value(T),
}

/// One row of the graph directory.
#[derive(Debug, Clone, Copy)]
pub struct GDirRow {
    pub id_id: u32,
    pub gn_id: u32,
    pub triples_off: u64,
    pub triples_len: u64,
    pub n_triples: u64,
    pub n_s: u32,
    pub n_p: u32,
    pub n_o: u32,
}

/// Smallest row size that holds every field of a row.
pub open spec fn min_row_size() -> int {
    44
}

/// The directory header: row count and row size, when its 16 bytes fit.
pub open spec fn spec_gdir_header(d: Seq<u8>, gdir: Section) -> Option<(u64, u32)> {
    if gdir.off + 16 > d.len() {
        None
    } else {
        Some((le_u64_at(d, gdir.off as int), le_u32_at(d, gdir.off + 8)))
    }
}

/// Row `gid` of the graph directory.
pub open spec fn spec_gdir_row(d: Seq<u8>, gdir: Section, gid: u64) -> Outcome<GDirRow> {
    match spec_gdir_header(d, gdir) {
        None => Outcome::Corrupt,
        Some((n_rows, rs)) => if gid >= n_rows {
            Outcome::Invalid
        } else {
            let off = gdir.off + 16 + gid * rs;
            if off + rs > d.len() || rs < min_row_size() {
                Outcome::Corrupt
            } else {
                Outcome::Value(GDirRow {
                    id_id: le_u32_at(d, off),
                    gn_id: le_u32_at(d, off + 4),
                    triples_off: le_u64_at(d, off + 8),
                    triples_len: le_u64_at(d, off + 16),
                    n_triples: le_u64_at(d, off + 24),
                    n_s: le_u32_at(d, off + 32),
                    n_p: le_u32_at(d, off + 36),
                    n_o: le_u32_at(d, off + 40),
                })
            }
        },
    }
}

/// A graph group as seen through the dictionaries.
pub struct GraphRefView {
    pub gid: u64,
    pub id: Seq<char>,
    pub graphname: Seq<char>,
    pub n_triples: u64,
}

/// The graph group `gid`: its row, with the id and graph name resolved.
pub open spec fn spec_graphref(d: Seq<u8>, id_dict: Dict, gn_dict: Dict, gdir: Section, gid: u64)
    -> Outcome<GraphRefView>
{
    match spec_gdir_row(d, gdir, gid) {
        Outcome::Invalid => Outcome::Invalid,
        Outcome::Corrupt => Outcome::Corrupt,
        Outcome::Value(row) => match spec_dict_get(d, id_dict, row.id_id) {
            EntryRead::Found(id) => match spec_dict_get(d, gn_dict, row.gn_id) {
                EntryRead::Found(gn) => Outcome::Value(GraphRefView {
                    gid,
                    id,
                    graphname: gn,
                    n_triples: row.n_triples,
                }),
                _ => Outcome::Corrupt,
            },
            _ => Outcome::Corrupt,
        },
    }
}

/// The graph groups of `gids`, in order; the first failing one decides.
pub open spec fn spec_graphrefs(d: Seq<u8>, id_dict: Dict, gn_dict: Dict, gdir: Section, gids: Seq<u64>)
    -> Outcome<Seq<GraphRefView>>
    decreases gids.len(),
{
    if gids.len() == 0 {
        Outcome::Value(seq![])
    } else {
        match spec_graphref(d, id_dict, gn_dict, gdir, gids[0]) {
            Outcome::Invalid => Outcome::Invalid,
            Outcome::Corrupt => Outcome::Corrupt,
            Outcome::Value(g) => match spec_graphrefs(d, id_dict, gn_dict, gdir, gids.drop_first()) {
                Outcome::Invalid => Outcome::Invalid,
                Outcome::Corrupt => Outcome::Corrupt,
                Outcome::Value(rest) => Outcome::Value(seq![g] + rest),
            },
        }
    }
}

/// The gids `0..n`.
pub open spec fn all_gids(n: u64) -> Seq<u64> {
    Seq::new(n as nat, |i: int| i as u64)
}

// ---------------------------------------------------------------- postings

/// `k` more delta-coded gids after `cur`, read at `off`; each must start
/// before `end`, and the running sum must stay within `u64`.
pub open spec fn spec_post_deltas(d: Seq<u8>, off: int, end: int, cur: u64, k: nat) -> Option<Seq<u64>>
    decreases k,
{
    if k == 0 {
        Some(seq![])
    } else if off >= end {
        None
    } else {
        match spec_read_uvarint(d, off) {
            None => None,
            Some((delta, o2)) => if cur + delta > u64::MAX {
                None
            } else {
                match spec_post_deltas(d, o2, end, (cur + delta) as u64, (k - 1) as nat) {
                    None => None,
                    Some(rest) => Some(seq![(cur + delta) as u64] + rest),
                }
            },
        }
    }
}

/// `o` with `p` put in front of the sequence it holds.
pub open spec fn opt_prepend(p: Seq<u64>, o: Option<Seq<u64>>) -> Option<Seq<u64>> {
    match o {
        None => None,
        Some(rest) => Some(p + rest),
    }
}

/// `o` with `p` put in front of the sequence it holds.
pub open spec fn outcome_prepend(p: Seq<GraphRefView>, o: Outcome<Seq<GraphRefView>>) -> Outcome<Seq<GraphRefView>> {
    match o {
        Outcome::Invalid => Outcome::Invalid,
        Outcome::Corrupt => Outcome::Corrupt,
        Outcome::Value(rest) => Outcome::Value(p + rest),
    }
}

/// The posting list of key `key` in the postings section `sec`: `None` when
/// the section is damaged; empty when the key is past the key count.
pub open spec fn spec_postings(d: Seq<u8>, sec: Section, key: u64) -> Option<Seq<u64>> {
    let b = sec.off as int;
    if b + sec.len > d.len() || sec.len < 24 {
        None
    } else {
        let n_keys = le_u64_at(d, b);
        if key >= n_keys {
            Some(seq![])
        } else {
            let offs_off = le_u64_at(d, b + 8);
            let blob_off = le_u64_at(d, b + 16);
            if offs_off + (n_keys + 1) * 8 > d.len() {
                None
            } else {
                let s = le_u64_at(d, offs_off + key * 8);
                let e = le_u64_at(d, offs_off + (key + 1) * 8);
                if blob_off + e > d.len() || s > e {
                    None
                } else {
                    let end = blob_off + e;
                    match spec_read_uvarint(d, blob_off + s) {
                        None => None,
                        Some((n, o1)) => if n == 0 {
                            Some(seq![])
                        } else {
                            match spec_read_uvarint(d, o1) {
                                None => None,
                                Some((first, o2)) => match spec_post_deltas(d, o2, end, first, (n - 1) as nat) {
                                    None => None,
                                    Some(rest) => Some(seq![first] + rest),
                                },
                            }
                        },
                    }
                }
            }
        }
    }
}

// ---------------------------------------------------------------- pair index

/// Lexicographic order on (id, graph name) keys: -1, 0 or 1.
pub open spec fn pair_order(a: (u32, u32), b: (u32, u32)) -> int {
    if a.0 < b.0 || (a.0 == b.0 && a.1 < b.1) {
        -1
    } else if a == b {
        0
    } else {
        1
    }
}

/// The key of pair entry `m` (16 bytes each from `pairs_off`).
pub open spec fn pair_key(d: Seq<u8>, pairs_off: int, m: int) -> (u32, u32) {
    (le_u32_at(d, pairs_off + 16 * m), le_u32_at(d, pairs_off + 16 * m + 4))
}

/// The gid of pair entry `m`.
pub open spec fn pair_gid(d: Seq<u8>, pairs_off: int, m: int) -> u64 {
    le_u64_at(d, pairs_off + 16 * m + 8)
}

/// Binary search for `key` among the pair entries `lo..hi`.
pub open spec fn spec_pair_search(d: Seq<u8>, pairs_off: int, key: (u32, u32), lo: int, hi: int) -> Option<u64>
    decreases hi - lo,
{
    if lo >= hi {
        None
    } else {
        let mid = (lo + hi) / 2;
        let c = pair_order(pair_key(d, pairs_off, mid), key);
        if c < 0 {
            spec_pair_search(d, pairs_off, key, mid + 1, hi)
        } else if c > 0 {
            spec_pair_search(d, pairs_off, key, lo, mid)
        } else {
            Some(pair_gid(d, pairs_off, mid))
        }
    }
}

/// The pair index section's lookup of `key`: `None` when damaged, else the
/// binary search's result.
pub open spec fn spec_pair_lookup(d: Seq<u8>, sec: Section, key: (u32, u32)) -> Option<Option<u64>> {
    let b = sec.off as int;
    if b + sec.len > d.len() || sec.len < 16 {
        None
    } else {
        let n_pairs = le_u64_at(d, b);
        let pairs_off = le_u64_at(d, b + 8);
        if pairs_off + n_pairs * 16 > d.len() {
            None
        } else {
            Some(spec_pair_search(d, pairs_off as int, key, 0, n_pairs as int))
        }
    }
}

/// The pair entries `0..n` are strictly increasing by key.
pub open spec fn pairs_sorted(d: Seq<u8>, pairs_off: int, n: int) -> bool {
    forall|i: int, j: int| 0 <= i < j < n ==>
        pair_order(#[trigger] pair_key(d, pairs_off, i), #[trigger] pair_key(d, pairs_off, j)) < 0
}


/// A gid that the binary search returns belongs to an entry of the searched
/// range whose key is the one searched for.
pub proof fn lemma_pair_search_sound(d: Seq<u8>, pairs_off: int, key: (u32, u32), lo: int, hi: int)
    ensures
        spec_pair_search(d, pairs_off, key, lo, hi) matches Some(g) ==> exists|m: int|
            lo <= m < hi && #[trigger] pair_key(d, pairs_off, m) == key && pair_gid(d, pairs_off, m) == g,
    decreases hi - lo,
{
    if lo < hi {
        let mid = (lo + hi) / 2;
        lemma_pair_search_sound(d, pairs_off, key, mid + 1, hi);
        lemma_pair_search_sound(d, pairs_off, key, lo, mid);
    }
}

/// In a strictly sorted pair index, the binary search over a range that
/// holds an entry with the searched key returns that entry's gid.
pub proof fn lemma_pair_search_complete(d: Seq<u8>, pairs_off: int, key: (u32, u32), lo: int, hi: int, n: int, m: int)
    requires
        pairs_sorted(d, pairs_off, n),
        0 <= lo <= m < hi <= n,
        pair_key(d, pairs_off, m) == key,
    ensures
        spec_pair_search(d, pairs_off, key, lo, hi) == Some(pair_gid(d, pairs_off, m)),
    decreases hi - lo,
{
    let mid = (lo + hi) / 2;
    if mid < m {
        assert(pair_order(pair_key(d, pairs_off, mid), pair_key(d, pairs_off, m)) < 0);
        lemma_pair_search_complete(d, pairs_off, key, mid + 1, hi, n, m);
    } else if mid > m {
        assert(pair_order(pair_key(d, pairs_off, m), pair_key(d, pairs_off, mid)) < 0);
        lemma_pair_search_complete(d, pairs_off, key, lo, mid, n, m);
    }
}

/// The pair index answers exactly: a lookup that returns a gid found an
/// entry with the key; and when the index is strictly sorted, a key that has
/// an entry is found, with that entry's gid.
pub proof fn lemma_pair_lookup_exact(d: Seq<u8>, sec: Section, key: (u32, u32), m: int)
    requires
        spec_pair_lookup(d, sec, key) is Some,
    ensures
        ({
            let n_pairs = le_u64_at(d, sec.off as int) as int;
            let pairs_off = le_u64_at(d, sec.off + 8) as int;
            &&& spec_pair_lookup(d, sec, key) matches Some(Some(g)) ==> exists|k: int|
                0 <= k < n_pairs && #[trigger] pair_key(d, pairs_off, k) == key && pair_gid(d, pairs_off, k) == g
            &&& (pairs_sorted(d, pairs_off, n_pairs) && 0 <= m < n_pairs && pair_key(d, pairs_off, m) == key)
                ==> spec_pair_lookup(d, sec, key) == Some(Some(pair_gid(d, pairs_off, m)))
        }),
{
    let n_pairs = le_u64_at(d, sec.off as int) as int;
    let pairs_off = le_u64_at(d, sec.off + 8) as int;
    lemma_pair_search_sound(d, pairs_off, key, 0, n_pairs);
    if pairs_sorted(d, pairs_off, n_pairs) && 0 <= m < n_pairs && pair_key(d, pairs_off, m) == key {
        lemma_pair_search_complete(d, pairs_off, key, 0, n_pairs, n_pairs, m);
    }
}

// ---------------------------------------------------------------- triple blocks

/// The payload of a block: raw, or a zstd frame.
pub enum BlockPayload {
    Raw(Seq<u8>),
    Zstd(Seq<u8>),
}

/// The block that a directory row points at: a one-byte encoding, a `u32`
/// payload length, and the payload.
pub open spec fn spec_block(d: Seq<u8>, row: GDirRow) -> Option<BlockPayload> {
    let base = row.triples_off as int;
    let end = base + row.triples_len;
    if end > u64::MAX || end > d.len() || base + 5 > end {
        None
    } else {
        let enc = d[base];
        let raw_len = le_u32_at(d, base + 1);
        let start = base + 5;
        if enc != 0 && enc != 1 {
            None
        } else if start + raw_len > end {
            None
        } else if enc == 0 {
            Some(BlockPayload::Raw(d.subrange(start, start + raw_len)))
        } else {
            Some(BlockPayload::Zstd(d.subrange(start, start + raw_len)))
        }
    }
}

/// The triples that a block payload decodes to, once decompressed.
pub open spec fn raw_outcome(raw: Option<Seq<u8>>) -> Outcome<Seq<Triple>> {
    match raw {
        None => Outcome::Corrupt,
        Some(p) => match spec_raw_triples(p) {
            None => Outcome::Corrupt,
            Some(t) => Outcome::Value(t),
        },
    }
}

/// The triples of graph group `gid`.
pub open spec fn spec_block_triples(d: Seq<u8>, gdir: Section, gid: u64) -> Outcome<Seq<Triple>> {
    match spec_gdir_row(d, gdir, gid) {
        Outcome::Invalid => Outcome::Invalid,
        Outcome::Corrupt => Outcome::Corrupt,
        Outcome::Value(row) => match spec_block(d, row) {
            None => Outcome::Corrupt,
            Some(BlockPayload::Raw(p)) => raw_outcome(Some(p)),
            Some(BlockPayload::Zstd(f)) => raw_outcome(zstd_decompressed(f)),
        },
    }
}

/// The graph groups listed under string `s` of a dictionary, through the
/// postings section `post`.
pub open spec fn spec_enumerate(d: Seq<u8>, key_dict: Dict, post: Section, id_dict: Dict, gn_dict: Dict,
    gdir: Section, s: Seq<char>) -> Outcome<Seq<GraphRefView>>
{
    match spec_find_id(d, key_dict, s) {
        Err(()) => Outcome::Corrupt,
        Ok(None) => Outcome::Value(seq![]),
        Ok(Some(k)) => match spec_postings(d, post, k as u64) {
            None => Outcome::Corrupt,
            Some(gids) => spec_graphrefs(d, id_dict, gn_dict, gdir, gids),
        },
    }
}

/// The graph group of the pair (`id`, `gname`), through the pair index.
pub open spec fn spec_resolve(d: Seq<u8>, id_dict: Dict, gn_dict: Dict, pairs: Section, gdir: Section,
    id: Seq<char>, gname: Seq<char>) -> Outcome<Option<GraphRefView>>
{
    match spec_find_id(d, id_dict, id) {
        Err(()) => Outcome::Corrupt,
        Ok(None) => Outcome::Value(None),
        Ok(Some(i)) => match spec_find_id(d, gn_dict, gname) {
            Err(()) => Outcome::Corrupt,
            Ok(None) => Outcome::Value(None),
            Ok(Some(g)) => match spec_pair_lookup(d, pairs, (i, g)) {
                None => Outcome::Corrupt,
                Some(None) => Outcome::Value(None),
                Some(Some(gid)) => match spec_graphref(d, id_dict, gn_dict, gdir, gid) {
                    Outcome::Invalid => Outcome::Invalid,
                    Outcome::Corrupt => Outcome::Corrupt,
                    Outcome::Value(v) => Outcome::Value(Some(v)),
                },
            },
        },
    }
}

} // verus!
