//! Encoding and decoding of a graph's triple block: a two-level compressed
//! sparse layout over sorted (S, P, O) term ids.
//!
//! - S_vals / S_heads: distinct subjects, each head pointing into P_vals;
//! - P_vals / P_heads: distinct predicates per subject, each head pointing into O_vals;
//! - O_vals: the objects of each (S, P) run.
//!
//! Value arrays are delta-coded, restarting at every run; counts, heads and
//! values are LEB128 varints.
use vstd::prelude::*;
use crate::reader::R5Error;
use crate::varint::{push_uvarint, read_uvarint, spec_read_uvarint, uvarint_bytes, uvarint_from};

verus! {

/// A triple of term ids (subject, predicate, object).
pub type Triple = (u64, u64, u64);

// ---------------------------------------------------------------- model

/// Lexicographic order on triples.
pub open spec fn triple_le(a: Triple, b: Triple) -> bool {
    a.0 < b.0 || (a.0 == b.0 && (a.1 < b.1 || (a.1 == b.1 && a.2 <= b.2)))
}

/// `t` is sorted by (S, P, O).
pub open spec fn triples_sorted(t: Seq<Triple>) -> bool {
    forall|i: int| 0 <= i < t.len() - 1 ==> triple_le(#[trigger] t[i], t[i + 1])
}

/// The compressed sparse arrays of a triple sequence, before the closing heads.
pub struct CsrBuild {
    pub s_vals: Seq<u64>,
    pub s_heads: Seq<u64>,
    pub p_vals: Seq<u64>,
    pub p_heads: Seq<u64>,
    pub o_vals: Seq<u64>,
    /// `p_start[i]`: predicate `i` opens a subject run.
    pub p_start: Seq<bool>,
    /// `o_start[i]`: object `i` opens a (subject, predicate) run.
    pub o_start: Seq<bool>,
}

/// Triple `i` of `t` opens a new subject run.
pub open spec fn opens_subject(t: Seq<Triple>, i: int) -> bool {
    i == 0 || t[i - 1].0 != t[i].0
}

/// Triple `i` of `t` opens a new (subject, predicate) run.
pub open spec fn opens_predicate(t: Seq<Triple>, i: int) -> bool {
    opens_subject(t, i) || t[i - 1].1 != t[i].1
}

/// The arrays built by one left-to-right pass over `t`.
pub open spec fn csr_build(t: Seq<Triple>) -> CsrBuild
    decreases t.len(),
{
    if t.len() == 0 {
        CsrBuild {
            s_vals: seq![],
            s_heads: seq![],
            p_vals: seq![],
            p_heads: seq![],
            o_vals: seq![],
            p_start: seq![],
            o_start: seq![],
        }
    } else {
        let prev = csr_build(t.drop_last());
        let i = t.len() - 1;
        let x = t[i];
        let ns = opens_subject(t, i);
        let np = opens_predicate(t, i);
        let s_vals = if ns { prev.s_vals.push(x.0) } else { prev.s_vals };
        let s_heads = if ns { prev.s_heads.push(prev.p_vals.len() as u64) } else { prev.s_heads };
        let p_vals = if np { prev.p_vals.push(x.1) } else { prev.p_vals };
        let p_start = if np { prev.p_start.push(ns) } else { prev.p_start };
        let p_heads = if np { prev.p_heads.push(prev.o_vals.len() as u64) } else { prev.p_heads };
        CsrBuild {
            s_vals,
            s_heads,
            p_vals,
            p_heads,
            o_vals: prev.o_vals.push(x.2),
            p_start,
            o_start: prev.o_start.push(np),
        }
    }
}

/// Deltas of `v` restarting wherever `start` is set: the value itself at a
/// restart, the difference from the previous value elsewhere.
pub open spec fn restart_deltas(v: Seq<u64>, start: Seq<bool>) -> Seq<int> {
    Seq::new(v.len(), |i: int| if start[i] { v[i] as int } else { v[i] - v[i - 1] })
}

/// Only the first element restarts.
pub open spec fn first_only(n: nat) -> Seq<bool> {
    Seq::new(n, |i: int| i == 0)
}

/// Every delta is non-negative.
pub open spec fn deltas_ok(d: Seq<int>) -> bool {
    forall|i: int| 0 <= i < d.len() ==> #[trigger] d[i] >= 0
}

/// The sequence of numbers written for `t`, in stream order.
pub open spec fn raw_numbers(t: Seq<Triple>) -> Seq<int> {
    let c = csr_build(t);
    seq![c.s_vals.len() as int, c.p_vals.len() as int, c.o_vals.len() as int]
        + restart_deltas(c.s_vals, first_only(c.s_vals.len()))
        + c.s_heads.push(c.p_vals.len() as u64).map_values(|x: u64| x as int)
        + restart_deltas(c.p_vals, c.p_start)
        + c.p_heads.push(c.o_vals.len() as u64).map_values(|x: u64| x as int)
        + restart_deltas(c.o_vals, c.o_start)
}

/// Every number of the stream is non-negative (the triples were sorted).
pub open spec fn raw_numbers_ok(t: Seq<Triple>) -> bool {
    let c = csr_build(t);
    &&& deltas_ok(restart_deltas(c.s_vals, first_only(c.s_vals.len())))
    &&& deltas_ok(restart_deltas(c.p_vals, c.p_start))
    &&& deltas_ok(restart_deltas(c.o_vals, c.o_start))
}

/// Concatenated varint encodings of a stream of (non-negative) numbers.
pub open spec fn uvarint_cat(ns: Seq<int>) -> Seq<u8>
    decreases ns.len(),
{
    if ns.len() == 0 {
        seq![]
    } else {
        uvarint_cat(ns.drop_last()) + uvarint_bytes(ns.last() as u64)
    }
}

/// Result of encoding one group's triples.
#[derive(Debug)]
pub struct RawSpoBuild {
    pub raw: Vec<u8>,
    pub n_s: u32,
    pub n_p: u32,
    pub n_t: u32,
}

// ---------------------------------------------------------------- encoder

/// Push the varint of a non-negative stream number.
fn push_num(out: &mut Vec<u8>, v: u64, Ghost(ns): Ghost<Seq<int>>) -> (new_ns: Ghost<Seq<int>>)
    requires
        old(out)@ == uvarint_cat(ns),
    ensures
        new_ns@ == ns.push(v as int),
        final(out)@ == uvarint_cat(new_ns@),
{
    push_uvarint(v, out);
    let ghost n2 = ns.push(v as int);
    assert(n2.drop_last() =~= ns);
    Ghost(n2)
}

/// Push a delta-coded array; `Err` when a delta would be negative.
fn push_deltas(out: &mut Vec<u8>, v: &Vec<u64>, start: &Vec<bool>, Ghost(ns): Ghost<Seq<int>>)
    -> (r: Result<Ghost<Seq<int>>, R5Error>)
    requires
        old(out)@ == uvarint_cat(ns),
        v@.len() == start@.len(),
        v@.len() > 0 ==> start@[0],
    ensures
        r is Ok <==> deltas_ok(restart_deltas(v@, start@)),
        r matches Ok(g) ==> g@ == ns + restart_deltas(v@, start@) && final(out)@ == uvarint_cat(g@),
        r matches Err(e) ==> e is Corrupt,
{
    let ghost d = restart_deltas(v@, start@);
    let mut g = Ghost(ns);
    let mut i: usize = 0;
    while i < v.len()
        invariant
            i <= v@.len(),
            v@.len() == start@.len(),
            v@.len() > 0 ==> start@[0],
            d == restart_deltas(v@, start@),
            g@ == ns + d.subrange(0, i as int),
            out@ == uvarint_cat(g@),
            forall|j: int| 0 <= j < i ==> #[trigger] d[j] >= 0,
        decreases v@.len() - i,
    {
        let x: u64 = if start[i] {
            v[i]
        } else {
            match v[i].checked_sub(v[i - 1]) {
                Some(x) => x,
                None => {
                    assert(d[i as int] < 0);
                    return Err(R5Error::corrupt_msg("delta underflow"));
                },
            }
        };
        g = push_num(out, x, g);
        assert(d.subrange(0, i as int + 1) =~= d.subrange(0, i as int).push(x as int));
        i = i + 1;
    }
    assert(d.subrange(0, v@.len() as int) =~= d);
    Ok(g)
}

/// Push a plain array of numbers.
fn push_plain(out: &mut Vec<u8>, v: &Vec<u64>, Ghost(ns): Ghost<Seq<int>>) -> (g: Ghost<Seq<int>>)
    requires
        old(out)@ == uvarint_cat(ns),
    ensures
        g@ == ns + v@.map_values(|x: u64| x as int),
        final(out)@ == uvarint_cat(g@),
{
    let ghost m = v@.map_values(|x: u64| x as int);
    let mut g = Ghost(ns);
    let mut i: usize = 0;
    while i < v.len()
        invariant
            i <= v@.len(),
            m == v@.map_values(|x: u64| x as int),
            g@ == ns + m.subrange(0, i as int),
            out@ == uvarint_cat(g@),
        decreases v@.len() - i,
    {
        g = push_num(out, v[i], g);
        assert(m.subrange(0, i as int + 1) =~= m.subrange(0, i as int).push(v@[i as int] as int));
        i = i + 1;
    }
    assert(m.subrange(0, v@.len() as int) =~= m);
    g
}

/// Encode triples sorted by (S, P, O) into the compressed binary layout.
/// Fails exactly when the triples are out of order (a delta would be negative).
pub fn build_raw_spo(spo: &[Triple]) -> (r: Result<RawSpoBuild, R5Error>)
    ensures
        r is Ok <==> raw_numbers_ok(spo@),
        r matches Err(e) ==> e is Corrupt,
        r matches Ok(b) ==> {
            let c = csr_build(spo@);
            &&& b.raw@ == uvarint_cat(raw_numbers(spo@))
            &&& b.n_s == c.s_vals.len() as u32
            &&& b.n_p == c.p_vals.len() as u32
            &&& b.n_t == c.o_vals.len() as u32
        },
{
    let mut s_vals: Vec<u64> = Vec::new();
    let mut s_heads: Vec<u64> = Vec::new();
    let mut p_vals: Vec<u64> = Vec::new();
    let mut p_heads: Vec<u64> = Vec::new();
    let mut o_vals: Vec<u64> = Vec::new();
    let mut p_start: Vec<bool> = Vec::new();
    let mut o_start: Vec<bool> = Vec::new();
    let mut i: usize = 0;
    while i < spo.len()
        invariant
            i <= spo@.len(),
            ({
                let c = csr_build(spo@.subrange(0, i as int));
                &&& s_vals@ == c.s_vals
                &&& s_heads@ == c.s_heads
                &&& p_vals@ == c.p_vals
                &&& p_heads@ == c.p_heads
                &&& o_vals@ == c.o_vals
                &&& p_start@ == c.p_start
                &&& o_start@ == c.o_start
            }),
            o_vals@.len() == i,
            p_vals@.len() <= i,
        decreases spo@.len() - i,
    {
        let x = spo[i];
        let ns = i == 0 || spo[i - 1].0 != x.0;
        let np = ns || spo[i - 1].1 != x.1;
        proof {
            let t = spo@.subrange(0, i as int + 1);
            assert(t.drop_last() =~= spo@.subrange(0, i as int));
            assert(t[i as int] == x);
            assert(i > 0 ==> t[i - 1] == spo@[i - 1]);
        }
        if ns {
            s_vals.push(x.0);
            s_heads.push(p_vals.len() as u64);
        }
        if np {
            p_vals.push(x.1);
            p_start.push(ns);
            p_heads.push(o_vals.len() as u64);
        }
        o_vals.push(x.2);
        o_start.push(np);
        i = i + 1;
    }
    assert(spo@.subrange(0, spo@.len() as int) =~= spo@);
    let ghost c = csr_build(spo@);
    proof {
        lemma_csr_starts(spo@);
    }
    s_heads.push(p_vals.len() as u64);
    p_heads.push(o_vals.len() as u64);
    let mut s_first: Vec<bool> = Vec::new();
    let mut k: usize = 0;
    while k < s_vals.len()
        invariant
            k <= s_vals@.len(),
            s_first@ == first_only(k as nat),
        decreases s_vals@.len() - k,
    {
        s_first.push(k == 0);
        assert(s_first@ =~= first_only(k as nat + 1));
        k = k + 1;
    }
    let mut out: Vec<u8> = Vec::new();
    let g = Ghost(Seq::<int>::empty());
    assert(out@ =~= uvarint_cat(g@));
    let g = push_num(&mut out, s_vals.len() as u64, g);
    let g = push_num(&mut out, p_vals.len() as u64, g);
    let g = push_num(&mut out, o_vals.len() as u64, g);
    let g = push_deltas(&mut out, &s_vals, &s_first, g)?;
    let g = push_plain(&mut out, &s_heads, g);
    let g = push_deltas(&mut out, &p_vals, &p_start, g)?;
    let g = push_plain(&mut out, &p_heads, g);
    let g = push_deltas(&mut out, &o_vals, &o_start, g)?;
    assert(g@ =~= raw_numbers(spo@));
    Ok(RawSpoBuild {
        raw: out,
        n_s: s_vals.len() as u32,
        n_p: p_vals.len() as u32,
        n_t: o_vals.len() as u32,
    })
}

/// Structural facts of the pass: lengths agree and every array opens with a
/// run start.
pub proof fn lemma_csr_starts(t: Seq<Triple>)
    ensures
        ({
            let c = csr_build(t);
            &&& c.s_vals.len() == c.s_heads.len()
            &&& c.p_vals.len() == c.p_heads.len()
            &&& c.p_vals.len() == c.p_start.len()
            &&& c.o_vals.len() == c.o_start.len()
            &&& c.o_vals.len() == t.len()
            &&& c.p_vals.len() > 0 ==> c.p_start[0]
            &&& c.o_vals.len() > 0 ==> c.o_start[0]
            &&& t.len() > 0 ==> c.s_vals.len() > 0 && c.p_vals.len() > 0
        }),
    decreases t.len(),
{
    if t.len() > 0 {
        lemma_csr_starts(t.drop_last());
        if t.len() == 1 {
            assert(opens_subject(t, 0));
        }
    }
}

// ---------------------------------------------------------------- decoder

/// Reading a varint consumes between one and ten bytes of the buffer.
pub proof fn lemma_read_uvarint_advances(buf: Seq<u8>, off: int)
    requires
        0 <= off,
        spec_read_uvarint(buf, off) is Some,
    ensures
        ({
            let (v, next) = spec_read_uvarint(buf, off).unwrap();
            off < next <= buf.len() && next <= off + 10
        }),
{
    lemma_uvarint_from_advances(buf, off, 0, 0);
}

proof fn lemma_uvarint_from_advances(buf: Seq<u8>, off: int, i: nat, x: u64)
    requires
        0 <= off,
        uvarint_from(buf, off, i, x) is Some,
    ensures
        ({
            let (v, next) = uvarint_from(buf, off, i, x).unwrap();
            off + i < next <= buf.len() && next <= off + 10
        }),
    decreases 10 - i,
{
    if i < 10 && off + i < buf.len() {
        let b = buf[off + i];
        let x2 = x | (((b & 0x7f) as u64) << ((7 * i) as u64));
        if b & 0x80 != 0 {
            lemma_uvarint_from_advances(buf, off, i + 1, x2);
        }
    }
}

/// `n` consecutive varints starting at `off`, and the offset after them.
pub open spec fn read_nums(raw: Seq<u8>, off: int, n: nat) -> Option<(Seq<u64>, int)>
    decreases n,
{
    if n == 0 {
        Some((seq![], off))
    } else {
        match read_nums(raw, off, (n - 1) as nat) {
            Some((v, o)) => match spec_read_uvarint(raw, o) {
                Some((x, o2)) => Some((v.push(x), o2)),
                None => None,
            },
            None => None,
        }
    }
}

/// A delta-coded run of `n` values at `off`: the first value literally, then
/// differences; `None` when a sum overflows.
pub open spec fn read_run(raw: Seq<u8>, off: int, n: nat) -> Option<(Seq<u64>, int)>
    decreases n,
{
    if n == 0 {
        Some((seq![], off))
    } else {
        match read_run(raw, off, (n - 1) as nat) {
            Some((v, o)) => match spec_read_uvarint(raw, o) {
                Some((d, o2)) => if n == 1 {
                    Some((seq![d], o2))
                } else if v.last() + d > u64::MAX {
                    None
                } else {
                    Some((v.push((v.last() + d) as u64), o2))
                },
                None => None,
            },
            None => None,
        }
    }
}

/// The runs `heads[k - 1]..heads[k]` for `k` in `1..=upto`, concatenated;
/// `None` when a run is reversed or ends past `bound`, or a read fails.
pub open spec fn read_runs(raw: Seq<u8>, off: int, heads: Seq<u64>, upto: nat, bound: u64)
    -> Option<(Seq<u64>, int)>
    decreases upto,
{
    if upto == 0 {
        Some((seq![], off))
    } else {
        match read_runs(raw, off, heads, (upto - 1) as nat, bound) {
            Some((v, o)) => {
                let start = heads[upto - 1];
                let end = heads[upto as int];
                if start > end || end > bound {
                    None
                } else if start == end {
                    Some((v, o))
                } else {
                    match read_run(raw, o, (end - start) as nat) {
                        Some((r, o2)) => Some((v + r, o2)),
                        None => None,
                    }
                }
            },
            None => None,
        }
    }
}

/// `n` zeros.
pub open spec fn zeros(n: nat) -> Seq<u64> {
    Seq::new(n, |i: int| 0u64)
}

/// The five decoded arrays of a triple block.
pub struct Csr5 {
    pub s_vals: Seq<u64>,
    pub s_heads: Seq<u64>,
    pub p_vals: Seq<u64>,
    pub p_heads: Seq<u64>,
    pub o_vals: Seq<u64>,
}

/// Decoding of a raw (uncompressed) triple-block payload.
pub open spec fn spec_decode_raw(raw: Seq<u8>) -> Option<Csr5> {
    match read_nums(raw, 0, 3) {
        None => None,
        Some((c, o0)) => {
            let (n_s, n_p, n_t) = (c[0], c[1], c[2]);
            match read_run(raw, o0, n_s as nat) {
                None => None,
                Some((sv, o1)) => match read_nums(raw, o1, (n_s + 1) as nat) {
                    None => None,
                    Some((sh, o2)) => if sh.last() != n_p {
                        None
                    } else {
                        match read_runs(raw, o2, sh, n_s as nat, n_p) {
                            None => None,
                            Some((pr, o3)) => match read_nums(raw, o3, (n_p + 1) as nat) {
                                None => None,
                                Some((ph, o4)) => if ph.last() != n_t {
                                    None
                                } else {
                                    match read_runs(raw, o4, ph, n_p as nat, n_t) {
                                        None => None,
                                        Some((orun, o5)) => if n_t > 0 && (n_p == 0 || n_s == 0) {
                                            None
                                        } else {
                                            Some(Csr5 {
                                                s_vals: sv,
                                                s_heads: sh,
                                                p_vals: zeros(sh[0] as nat) + pr,
                                                p_heads: ph,
                                                o_vals: zeros(ph[0] as nat) + orun,
                                            })
                                        },
                                    }
                                },
                            },
                        }
                    },
                },
            }
        },
    }
}

/// Index of the predicate run that object `oi` belongs to, advancing from `pi`.
pub open spec fn advance(heads: Seq<u64>, i: int, target: u64) -> int
    decreases heads.len() - i,
{
    if 0 <= i && i + 1 < heads.len() && heads[i + 1] <= target {
        advance(heads, i + 1, target)
    } else {
        i
    }
}

/// The triples still to come from a cursor at (`si`, `pi`, `oi`).
pub open spec fn csr_remaining(c: Csr5, si: int, pi: int, oi: int) -> Seq<Triple>
    decreases c.o_vals.len() - oi,
{
    if oi < 0 || oi >= c.o_vals.len() {
        seq![]
    } else {
        let pi2 = advance(c.p_heads, pi, oi as u64);
        let si2 = advance(c.s_heads, si, pi2 as u64);
        seq![(c.s_vals[si2], c.p_vals[pi2], c.o_vals[oi])] + csr_remaining(c, si2, pi2, oi + 1)
    }
}

/// The triples a raw payload decodes to, if it decodes.
pub open spec fn spec_raw_triples(raw: Seq<u8>) -> Option<Seq<Triple>> {
    match spec_decode_raw(raw) {
        Some(c) => Some(csr_remaining(c, 0, 0, 0)),
        None => None,
    }
}

/// Cursor over the triples of one decoded block.
///
/// Predicate and object arrays may open with a run of implicit zeros (when
/// the first head is not zero); those are kept as a count.
#[derive(Debug)]
pub struct TripleIter {
    s_vals: Vec<u64>,
    s_heads: Vec<u64>,
    p_zero: u64,
    p_runs: Vec<u64>,
    p_heads: Vec<u64>,
    o_zero: u64,
    o_runs: Vec<u64>,
    si: u64,
    pi: u64,
    oi: u64,
}

impl TripleIter {
    /// The decoded arrays.
    pub closed spec fn csr(&self) -> Csr5 {
        Csr5 {
            s_vals: self.s_vals@,
            s_heads: self.s_heads@,
            p_vals: zeros(self.p_zero as nat) + self.p_runs@,
            p_heads: self.p_heads@,
            o_vals: zeros(self.o_zero as nat) + self.o_runs@,
        }
    }

    /// The triples not yet returned.
    pub closed spec fn remaining(&self) -> Seq<Triple> {
        csr_remaining(self.csr(), self.si as int, self.pi as int, self.oi as int)
    }

    /// Internal consistency of the cursor.
    pub closed spec fn wf(&self) -> bool {
        let c = self.csr();
        &&& c.s_heads.len() == c.s_vals.len() + 1
        &&& c.p_heads.len() == c.p_vals.len() + 1
        &&& c.s_heads.last() == c.p_vals.len()
        &&& c.p_heads.last() == c.o_vals.len()
        &&& c.o_vals.len() > 0 ==> c.s_vals.len() > 0 && c.p_vals.len() > 0
        &&& self.si < c.s_heads.len()
        &&& self.pi < c.p_heads.len()
        &&& self.oi <= c.o_vals.len()
        &&& self.o_zero + self.o_runs@.len() <= u64::MAX
        &&& self.p_zero + self.p_runs@.len() <= u64::MAX
        &&& c.s_vals.len() > 0 ==> self.si < c.s_vals.len()
        &&& c.p_vals.len() > 0 ==> self.pi < c.p_vals.len()
        &&& self.s_heads@.len() <= usize::MAX
        &&& self.p_heads@.len() <= usize::MAX
    }

    fn p_at(&self, i: u64) -> (v: u64)
        requires
            self.p_zero + self.p_runs@.len() <= u64::MAX,
            i < self.p_zero + self.p_runs@.len(),
        ensures
            v == self.csr().p_vals[i as int],
    {
        let ghost z = zeros(self.p_zero as nat);
        assert(self.csr().p_vals == z + self.p_runs@);
        let _n = self.p_runs.len();
        if i < self.p_zero {
            assert((z + self.p_runs@)[i as int] == z[i as int]);
            0
        } else {
            assert((z + self.p_runs@)[i as int] == self.p_runs@[i - self.p_zero]);
            self.p_runs[(i - self.p_zero) as usize]
        }
    }

    fn o_at(&self, i: u64) -> (v: u64)
        requires
            self.o_zero + self.o_runs@.len() <= u64::MAX,
            i < self.o_zero + self.o_runs@.len(),
        ensures
            v == self.csr().o_vals[i as int],
    {
        let ghost z = zeros(self.o_zero as nat);
        assert(self.csr().o_vals == z + self.o_runs@);
        let _n = self.o_runs.len();
        if i < self.o_zero {
            assert((z + self.o_runs@)[i as int] == z[i as int]);
            0
        } else {
            assert((z + self.o_runs@)[i as int] == self.o_runs@[i - self.o_zero]);
            self.o_runs[(i - self.o_zero) as usize]
        }
    }

    /// The next (S, P, O) triple of the block, if any.
    pub fn next(&mut self) -> (r: Option<Triple>)
        requires
            old(self).wf(),
        ensures
            final(self).wf(),
            old(self).remaining().len() == 0 ==> r is None && final(self).remaining().len() == 0,
            old(self).remaining().len() > 0 ==> r == Some(old(self).remaining()[0])
                && final(self).remaining() == old(self).remaining().drop_first(),
    {
        let n_t = self.o_zero + self.o_runs.len() as u64;
        if self.oi >= n_t {
            return None;
        }
        let ghost c = self.csr();
        let ghost si0 = self.si as int;
        let ghost pi0 = self.pi as int;
        let ghost oi0 = self.oi as int;
        let ghost rem = csr_remaining(c, si0, pi0, oi0);
        let lp = self.p_heads.len() as u64;
        let ls = self.s_heads.len() as u64;
        while self.pi + 1 < lp && self.p_heads[(self.pi + 1) as usize] <= self.oi
            invariant
                lp == c.p_heads.len(),
                self.csr() == c,
                self.wf(),
                self.oi < c.o_vals.len(),
                self.si == si0,
                oi0 == self.oi,
                advance(c.p_heads, self.pi as int, self.oi) == advance(c.p_heads, pi0, self.oi),
            decreases c.p_heads.len() - self.pi,
        {
            assert(c.p_heads[c.p_heads.len() - 1] == c.o_vals.len());
            assert(self.pi + 1 < c.p_vals.len());
            self.pi = self.pi + 1;
        }
        let ghost pi2 = self.pi as int;
        assert(advance(c.p_heads, pi2, self.oi) == pi2);
        assert(advance(c.p_heads, pi0, self.oi) == pi2);
        while self.si + 1 < ls && self.s_heads[(self.si + 1) as usize] <= self.pi
            invariant
                ls == c.s_heads.len(),
                self.csr() == c,
                self.wf(),
                self.oi < c.o_vals.len(),
                self.pi == pi2,
                oi0 == self.oi,
                advance(c.p_heads, pi0, self.oi) == pi2,
                advance(c.s_heads, self.si as int, self.pi) == advance(c.s_heads, si0, self.pi),
            decreases c.s_heads.len() - self.si,
        {
            assert(c.s_heads[c.s_heads.len() - 1] == c.p_vals.len());
            assert(self.si + 1 < c.s_vals.len());
            self.si = self.si + 1;
        }
        assert(advance(c.s_heads, self.si as int, self.pi) == self.si as int);
        assert(advance(c.p_heads, pi0, self.oi) == pi2);
        assert(advance(c.s_heads, si0, pi2 as u64) == self.si as int);
        assert(oi0 < c.o_vals.len());
        let s = self.s_vals[self.si as usize];
        let p = self.p_at(self.pi);
        let o = self.o_at(self.oi);
        self.oi = self.oi + 1;
        proof {
            let tail = csr_remaining(c, self.si as int, self.pi as int, oi0 + 1);
            assert(self.csr() == c);
            assert(s == c.s_vals[self.si as int]);
            assert(rem == seq![(c.s_vals[self.si as int], c.p_vals[pi2], c.o_vals[oi0])] + tail);
            assert(rem.drop_first() =~= tail);
            assert(self.remaining() == tail);
        }
        Some((s, p, o))
    }

    /// Drain the remaining triples into a vector.
    pub fn collect_all(&mut self) -> (v: Vec<Triple>)
        requires
            old(self).wf(),
        ensures
            v@ == old(self).remaining(),
    {
        let mut v: Vec<Triple> = Vec::new();
        let ghost all = self.remaining();
        loop
            invariant_except_break
                self.wf(),
                all == v@ + self.remaining(),
            ensures
                v@ == all,
            decreases self.remaining().len(),
        {
            match self.next() {
                Some(t) => {
                    v.push(t);
                },
                None => {
                    assert(v@ + seq![] =~= v@);
                    break;
                },
            }
        }
        v
    }
}

/// Once a read of `k` numbers fails, reading more fails too.
proof fn lemma_read_nums_none(raw: Seq<u8>, off: int, k: nat, n: nat)
    requires
        k <= n,
        read_nums(raw, off, k) is None,
    ensures
        read_nums(raw, off, n) is None,
    decreases n - k,
{
    if k < n {
        lemma_read_nums_none(raw, off, k, (n - 1) as nat);
    }
}

proof fn lemma_read_run_none(raw: Seq<u8>, off: int, k: nat, n: nat)
    requires
        k <= n,
        read_run(raw, off, k) is None,
    ensures
        read_run(raw, off, n) is None,
    decreases n - k,
{
    if k < n {
        lemma_read_run_none(raw, off, k, (n - 1) as nat);
    }
}

proof fn lemma_read_runs_none(raw: Seq<u8>, off: int, heads: Seq<u64>, k: nat, n: nat, bound: u64)
    requires
        k <= n,
        read_runs(raw, off, heads, k, bound) is None,
    ensures
        read_runs(raw, off, heads, n, bound) is None,
    decreases n - k,
{
    if k < n {
        lemma_read_runs_none(raw, off, heads, k, (n - 1) as nat, bound);
    }
}

/// A successful run read has the requested length.
proof fn lemma_read_run_len(raw: Seq<u8>, off: int, n: nat)
    requires
        read_run(raw, off, n) is Some,
    ensures
        read_run(raw, off, n).unwrap().0.len() == n,
    decreases n,
{
    if n > 0 {
        lemma_read_run_len(raw, off, (n - 1) as nat);
    }
}

/// Successful reads of runs cover `heads[0]..heads[upto]`, which is ordered
/// and within `bound`.
proof fn lemma_read_runs_len(raw: Seq<u8>, off: int, heads: Seq<u64>, upto: nat, bound: u64)
    requires
        read_runs(raw, off, heads, upto, bound) is Some,
        upto < heads.len(),
    ensures
        read_runs(raw, off, heads, upto, bound).unwrap().0.len() == heads[upto as int] - heads[0],
        heads[0] <= heads[upto as int],
        upto > 0 ==> heads[upto as int] <= bound,
    decreases upto,
{
    if upto > 0 {
        lemma_read_runs_len(raw, off, heads, (upto - 1) as nat, bound);
        let start = heads[upto - 1];
        let end = heads[upto as int];
        if start < end {
            let (v, o) = read_runs(raw, off, heads, (upto - 1) as nat, bound).unwrap();
            lemma_read_run_len(raw, o, (end - start) as nat);
        }
    }
}

/// Reading `n` numbers needs at least `n` bytes.
proof fn lemma_read_nums_bound(raw: Seq<u8>, off: int, n: nat)
    requires
        0 <= off <= raw.len(),
        read_nums(raw, off, n) is Some,
    ensures
        off + n <= read_nums(raw, off, n).unwrap().1 <= raw.len(),
    decreases n,
{
    if n > 0 {
        lemma_read_nums_bound(raw, off, (n - 1) as nat);
        let (v, o) = read_nums(raw, off, (n - 1) as nat).unwrap();
        lemma_read_uvarint_advances(raw, o);
    }
}

/// Read `n` varints.
fn dec_nums(raw: &[u8], off: usize, n: u64) -> (r: Option<(Vec<u64>, usize)>)
    requires
        off <= raw@.len(),
    ensures
        match r {
            Some((v, o)) => read_nums(raw@, off as int, n as nat) == Some((v@, o as int))
                && off + n <= o <= raw@.len() && v@.len() == n,
            None => read_nums(raw@, off as int, n as nat) is None,
        },
{
    let mut v: Vec<u64> = Vec::new();
    let mut cur = off;
    let mut i: u64 = 0;
    while i < n
        invariant
            i <= n,
            off <= raw@.len(),
            read_nums(raw@, off as int, i as nat) == Some((v@, cur as int)),
            off + i <= cur <= raw@.len(),
            v@.len() == i,
        decreases n - i,
    {
        match read_uvarint(raw, cur) {
            Some((x, o)) => {
                proof {
                    lemma_read_uvarint_advances(raw@, cur as int);
                }
                v.push(x);
                cur = o;
            },
            None => {
                proof {
                    lemma_read_nums_none(raw@, off as int, (i + 1) as nat, n as nat);
                }
                return None;
            },
        }
        i = i + 1;
    }
    Some((v, cur))
}

/// Read a delta-coded run of `n` values.
fn dec_run(raw: &[u8], off: usize, n: u64, v: &mut Vec<u64>) -> (r: Option<usize>)
    requires
        off <= raw@.len(),
    ensures
        match r {
            Some(o) => read_run(raw@, off as int, n as nat) == Some((final(v)@.subrange(old(v)@.len() as int, final(v)@.len() as int), o as int))
                && off + n <= o <= raw@.len()
                && final(v)@.len() == old(v)@.len() + n
                && final(v)@.subrange(0, old(v)@.len() as int) == old(v)@,
            None => read_run(raw@, off as int, n as nat) is None,
        },
{
    let ghost base = v@.len();
    let ghost v0 = v@;
    let mut cur = off;
    let mut i: u64 = 0;
    let mut last: u64 = 0;
    while i < n
        invariant
            i <= n,
            off <= raw@.len(),
            v@.len() == base + i,
            v@.subrange(0, base as int) == v0,
            read_run(raw@, off as int, i as nat) == Some((v@.subrange(base as int, v@.len() as int), cur as int)),
            i > 0 ==> last == v@.last(),
            off + i <= cur <= raw@.len(),
        decreases n - i,
    {
        match read_uvarint(raw, cur) {
            Some((d, o)) => {
                proof {
                    lemma_read_uvarint_advances(raw@, cur as int);
                }
                let x = if i == 0 {
                    d
                } else {
                    match last.checked_add(d) {
                        Some(x) => x,
                        None => {
                            proof {
                                assert(v@.subrange(base as int, v@.len() as int).last() == last);
                                lemma_read_run_none(raw@, off as int, (i + 1) as nat, n as nat);
                            }
                            return None;
                        },
                    }
                };
                let ghost before = v@;
                v.push(x);
                proof {
                    assert(v@.subrange(base as int, v@.len() as int) =~= before.subrange(base as int, before.len() as int).push(x));
                    assert(v@.subrange(0, base as int) =~= before.subrange(0, base as int));
                    if i > 0 {
                        assert(before.subrange(base as int, before.len() as int).last() == last);
                    } else {
                        assert(v@.subrange(base as int, v@.len() as int) =~= seq![x]);
                    }
                }
                last = x;
                cur = o;
            },
            None => {
                proof {
                    lemma_read_run_none(raw@, off as int, (i + 1) as nat, n as nat);
                }
                return None;
            },
        }
        i = i + 1;
    }
    Some(cur)
}

/// Read the delta-coded runs delimited by consecutive `heads`.
fn dec_runs(raw: &[u8], off: usize, heads: &Vec<u64>, upto: u64, bound: u64) -> (r: Option<(Vec<u64>, usize)>)
    requires
        off <= raw@.len(),
        upto < heads@.len(),
    ensures
        match r {
            Some((v, o)) => read_runs(raw@, off as int, heads@, upto as nat, bound) == Some((v@, o as int))
                && off <= o <= raw@.len(),
            None => read_runs(raw@, off as int, heads@, upto as nat, bound) is None,
        },
{
    let mut v: Vec<u64> = Vec::new();
    let mut cur = off;
    let mut k: u64 = 0;
    let _hl = heads.len();
    while k < upto
        invariant
            k <= upto,
            heads@.len() <= usize::MAX,
            upto < heads@.len(),
            off <= cur <= raw@.len(),
            read_runs(raw@, off as int, heads@, k as nat, bound) == Some((v@, cur as int)),
        decreases upto - k,
    {
        let start = heads[k as usize];
        let end = heads[(k + 1) as usize];
        if start > end || end > bound {
            proof {
                lemma_read_runs_none(raw@, off as int, heads@, (k + 1) as nat, upto as nat, bound);
            }
            return None;
        }
        if start < end {
            let ghost before = v@;
            match dec_run(raw, cur, end - start, &mut v) {
                Some(o) => {
                    proof {
                        assert(v@.subrange(0, before.len() as int) == before);
                        assert(v@ =~= before + v@.subrange(before.len() as int, v@.len() as int));
                    }
                    cur = o;
                },
                None => {
                    proof {
                        lemma_read_runs_none(raw@, off as int, heads@, (k + 1) as nat, upto as nat, bound);
                    }
                    return None;
                },
            }
        }
        k = k + 1;
    }
    Some((v, cur))
}

spec fn s_heads_len_ok(it: &TripleIter) -> bool {
    it.s_heads@.len() <= usize::MAX && it.p_heads@.len() <= usize::MAX
}

/// Decode a raw (uncompressed) triple-block payload into a triple cursor.
pub fn decode_raw_payload(raw: &[u8]) -> (r: Result<TripleIter, R5Error>)
    ensures
        r is Ok <==> spec_decode_raw(raw@) is Some,
        r matches Ok(it) ==> it.wf() && it.csr() == spec_decode_raw(raw@).unwrap()
            && it.remaining() == spec_raw_triples(raw@).unwrap(),
        r matches Err(e) ==> e is Corrupt,
{
    let _rl = raw.len();
    let (c, o0) = match dec_nums(raw, 0, 3) {
        Some(x) => x,
        None => return Err(R5Error::corrupt_msg("nS/nP/nT")),
    };
    let n_s = c[0];
    let n_p = c[1];
    let n_t = c[2];
    let mut s_vals: Vec<u64> = Vec::new();
    let o1 = match dec_run(raw, o0, n_s, &mut s_vals) {
        Some(o) => o,
        None => return Err(R5Error::corrupt_msg("S_vals")),
    };
    proof {
        assert(s_vals@.subrange(0, s_vals@.len() as int) =~= s_vals@);
    }
    let (s_heads, o2) = match dec_nums(raw, o1, n_s + 1) {
        Some(x) => x,
        None => return Err(R5Error::corrupt_msg("S_heads")),
    };
    if s_heads[n_s as usize] != n_p {
        assert(s_heads@.last() == s_heads@[n_s as int]);
        return Err(R5Error::corrupt_msg("S_heads last != nP"));
    }
    let (p_runs, o3) = match dec_runs(raw, o2, &s_heads, n_s, n_p) {
        Some(x) => x,
        None => return Err(R5Error::corrupt_msg("P run")),
    };
    proof {
        lemma_read_runs_len(raw@, o2 as int, s_heads@, n_s as nat, n_p);
    }
    if n_p == u64::MAX {
        proof {
            if read_nums(raw@, o3 as int, (n_p + 1) as nat) is Some {
                lemma_read_nums_bound(raw@, o3 as int, (n_p + 1) as nat);
            }
            assert(read_nums(raw@, o3 as int, (n_p + 1) as nat) is None);
        }
        return Err(R5Error::corrupt_msg("P_heads"));
    }
    let (p_heads, o4) = match dec_nums(raw, o3, n_p + 1) {
        Some(x) => x,
        None => return Err(R5Error::corrupt_msg("P_heads")),
    };
    if p_heads[n_p as usize] != n_t {
        assert(p_heads@.last() == p_heads@[n_p as int]);
        return Err(R5Error::corrupt_msg("P_heads last != nT"));
    }
    let (o_runs, _o5) = match dec_runs(raw, o4, &p_heads, n_p, n_t) {
        Some(x) => x,
        None => return Err(R5Error::corrupt_msg("O run")),
    };
    proof {
        lemma_read_runs_len(raw@, o4 as int, p_heads@, n_p as nat, n_t);
    }
    if n_t > 0 && (n_p == 0 || n_s == 0) {
        return Err(R5Error::corrupt_msg("objects without subject or predicate runs"));
    }
    let it = TripleIter {
        p_zero: s_heads[0],
        o_zero: p_heads[0],
        s_vals,
        s_heads,
        p_runs,
        p_heads,
        o_runs,
        si: 0,
        pi: 0,
        oi: 0,
    };
    proof {
        assert(it.csr().p_vals.len() == n_p);
        assert(it.csr().o_vals.len() == n_t);
        assert(s_heads_len_ok(&it));
        let d = spec_decode_raw(raw@).unwrap();
        assert(d.s_vals == it.csr().s_vals);
        assert(d.s_heads == it.csr().s_heads);
        assert(d.p_vals =~= it.csr().p_vals);
        assert(d.p_heads == it.csr().p_heads);
        assert(d.o_vals =~= it.csr().o_vals);
    }
    Ok(it)
}

} // verus!
