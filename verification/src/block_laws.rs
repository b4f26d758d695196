//! What a triple block gives back: decoding the bytes written for a group's
//! triples yields exactly those triples, in order.
use vstd::prelude::*;
use crate::triples::{
    advance, csr_build, csr_remaining, deltas_ok, first_only, opens_predicate, opens_subject, raw_numbers,
    raw_numbers_ok, read_nums, triple_le, triples_sorted, read_run, read_runs, restart_deltas, spec_decode_raw, spec_raw_triples, uvarint_cat,
    zeros, Csr5, CsrBuild, Triple,
};
use crate::varint::{lemma_uvarint_roundtrip, spec_read_uvarint, uvarint_bytes};

verus! {

/// Every number of the stream fits a `u64`.
pub open spec fn nums_fit(ns: Seq<int>) -> bool {
    forall|i: int| 0 <= i < ns.len() ==> 0 <= #[trigger] ns[i] <= u64::MAX
}

/// Where number `k` of the stream starts in its encoding.
pub open spec fn num_off(ns: Seq<int>, k: int) -> int {
    uvarint_cat(ns.take(k)).len() as int
}

/// The encoding of two streams one after the other is the encoding of
/// their concatenation.
proof fn lemma_cat_split(a: Seq<int>, b: Seq<int>)
    ensures
        uvarint_cat(a + b) == uvarint_cat(a) + uvarint_cat(b),
    decreases b.len(),
{
    if b.len() == 0 {
        assert(a + b =~= a);
        assert(uvarint_cat(a) + uvarint_cat(b) =~= uvarint_cat(a));
    } else {
        assert((a + b).drop_last() =~= a + b.drop_last());
        lemma_cat_split(a, b.drop_last());
        assert((a + b).last() == b.last());
        assert(uvarint_cat(a) + uvarint_cat(b.drop_last()) + uvarint_bytes(b.last() as u64)
            =~= uvarint_cat(a) + (uvarint_cat(b.drop_last()) + uvarint_bytes(b.last() as u64)));
    }
}

/// Reading number `k` of an encoded stream.
proof fn lemma_read_num(ns: Seq<int>, k: int)
    requires
        0 <= k < ns.len(),
        nums_fit(ns),
    ensures
        spec_read_uvarint(uvarint_cat(ns), num_off(ns, k)) == Some((ns[k] as u64, num_off(ns, k + 1))),
        num_off(ns, k) < num_off(ns, k + 1),
{
    let pre = ns.take(k);
    let one = seq![ns[k]];
    let post = ns.skip(k + 1);
    assert(ns =~= pre + one + post);
    assert(ns.take(k + 1) =~= pre + one);
    lemma_cat_split(pre + one, post);
    lemma_cat_split(pre, one);
    assert(one.drop_last() =~= Seq::<int>::empty());
    assert(uvarint_cat(one.drop_last()) == Seq::<u8>::empty());
    assert(one.last() == ns[k]);
    assert(uvarint_cat(one) =~= uvarint_bytes(ns[k] as u64));
    lemma_uvarint_roundtrip(uvarint_cat(pre), ns[k] as u64, uvarint_cat(post));
    assert(uvarint_bytes(ns[k] as u64).len() > 0) by {
        crate::varint::lemma_uvarint_len_bound(ns[k] as u64);
    }
}

/// Reading `n` plain numbers from number `k` on.
proof fn lemma_read_nums_stream(ns: Seq<int>, k: int, n: nat)
    requires
        0 <= k,
        k + n <= ns.len(),
        nums_fit(ns),
    ensures
        read_nums(uvarint_cat(ns), num_off(ns, k), n)
            == Some((ns.subrange(k, k + n).map_values(|x: int| x as u64), num_off(ns, k + n))),
    decreases n,
{
    if n > 0 {
        lemma_read_nums_stream(ns, k, (n - 1) as nat);
        lemma_read_num(ns, k + n - 1);
        assert(ns.subrange(k, k + n).map_values(|x: int| x as u64)
            =~= ns.subrange(k, k + n - 1).map_values(|x: int| x as u64).push(ns[k + n - 1] as u64));
    } else {
        assert(ns.subrange(k, k).map_values(|x: int| x as u64) =~= Seq::<u64>::empty());
    }
}

/// Reading a delta-coded run of `vals` from number `k` on.
proof fn lemma_read_run_stream(ns: Seq<int>, k: int, vals: Seq<u64>)
    requires
        0 <= k,
        k + vals.len() <= ns.len(),
        nums_fit(ns),
        forall|i: int| 0 <= i < vals.len() ==> #[trigger] ns[k + i] == (if i == 0 {
            vals[0] as int
        } else {
            vals[i] - vals[i - 1]
        }),
    ensures
        read_run(uvarint_cat(ns), num_off(ns, k), vals.len()) == Some((vals, num_off(ns, k + vals.len()))),
    decreases vals.len(),
{
    let n = vals.len();
    if n > 0 {
        let init = vals.drop_last();
        assert forall|i: int| 0 <= i < init.len() implies #[trigger] ns[k + i] == (if i == 0 {
            init[0] as int
        } else {
            init[i] - init[i - 1]
        }) by {
            assert(ns[k + i] == (if i == 0 { vals[0] as int } else { vals[i] - vals[i - 1] }));
        }
        lemma_read_run_stream(ns, k, init);
        lemma_read_num(ns, k + n - 1);
        assert(ns[k + (n - 1)] == (if n - 1 == 0 { vals[0] as int } else { vals[n - 1] - vals[n - 2] }));
        if n == 1 {
            assert(seq![vals[0]] =~= vals);
        } else {
            assert(init.push(vals[n - 1]) =~= vals);
        }
    }
}

/// Reading the runs between consecutive heads, `upto` of them, from number
/// `k` on: they give the values up to the last head back.
proof fn lemma_read_runs_stream(
    ns: Seq<int>,
    k: int,
    vals: Seq<u64>,
    starts: Seq<bool>,
    heads: Seq<u64>,
    upto: nat,
    bound: u64,
)
    requires
        0 <= k,
        nums_fit(ns),
        upto < heads.len(),
        heads[0] == 0,
        forall|j: int| 0 <= j < upto ==> #[trigger] heads[j] < heads[j + 1],
        heads[upto as int] <= bound,
        heads[upto as int] <= vals.len(),
        starts.len() == vals.len(),
        k + heads[upto as int] <= ns.len(),
        forall|j: int| 0 <= j < upto ==> #[trigger] starts[heads[j] as int],
        forall|j: int, m: int| #![trigger starts[m], heads[j]] 0 <= j < upto && heads[j] < m < heads[j + 1] ==> !starts[m],
        forall|m: int| 0 <= m < heads[upto as int] ==> #[trigger] ns[k + m] == restart_deltas(vals, starts)[m],
    ensures
        read_runs(uvarint_cat(ns), num_off(ns, k), heads, upto, bound)
            == Some((vals.subrange(0, heads[upto as int] as int), num_off(ns, k + heads[upto as int]))),
    decreases upto,
{
    if upto == 0 {
        assert(vals.subrange(0, 0) =~= Seq::<u64>::empty());
    } else {
        let u1 = (upto - 1) as nat;
        assert(heads[u1 as int] < heads[upto as int]);
        assert forall|j: int| 0 <= j < u1 implies #[trigger] heads[j] < heads[j + 1] by {}
        lemma_read_runs_stream(ns, k, vals, starts, heads, u1, bound);
        let start = heads[u1 as int] as int;
        let end = heads[upto as int] as int;
        let run = vals.subrange(start, end);
        assert forall|i: int| 0 <= i < run.len() implies #[trigger] ns[(k + start) + i] == (if i == 0 {
            run[0] as int
        } else {
            run[i] - run[i - 1]
        }) by {
            assert(ns[k + (start + i)] == restart_deltas(vals, starts)[start + i]);
            assert((k + start) + i == k + (start + i));
            if i == 0 {
                assert(starts[heads[u1 as int] as int]);
            } else {
                assert(!starts[start + i]);
            }
        }
        lemma_read_run_stream(ns, k + start, run);
        assert(vals.subrange(0, start) + run =~= vals.subrange(0, end));
        assert((end - start) as nat == run.len());
    }
}


/// The heads start at zero, increase strictly and stay below `end`.
pub open spec fn heads_ok(h: Seq<u64>, end: int) -> bool {
    &&& h.len() > 0 ==> h[0] == 0
    &&& forall|i: int, j: int| 0 <= i < j < h.len() ==> h[i] < h[j]
    &&& forall|i: int| 0 <= i < h.len() ==> #[trigger] h[i] < end
}

/// The start flags mark exactly the positions the heads point at.
pub open spec fn starts_at_heads(st: Seq<bool>, h: Seq<u64>) -> bool {
    forall|m: int| 0 <= m < st.len() ==> (#[trigger] st[m] <==> exists|j: int| 0 <= j < h.len() && h[j] == m)
}

/// Where run `j` ends: at the next head, or at `end` after the last.
pub open spec fn run_end(h: Seq<u64>, j: int, end: int) -> int {
    if j + 1 < h.len() {
        h[j + 1] as int
    } else {
        end
    }
}

/// Triple `m` lies in predicate run `pj`, which lies in subject run `sj`,
/// and is made of that subject, that predicate and object `m`.
pub open spec fn in_runs(t: Seq<Triple>, c: CsrBuild, m: int, pj: int, sj: int) -> bool {
    &&& 0 <= pj < c.p_vals.len()
    &&& c.p_heads[pj] <= m < run_end(c.p_heads, pj, t.len() as int)
    &&& 0 <= sj < c.s_vals.len()
    &&& c.s_heads[sj] <= pj < run_end(c.s_heads, sj, c.p_vals.len() as int)
    &&& t[m] == (c.s_vals[sj], c.p_vals[pj], c.o_vals[m])
}

/// Triple `m` lies in some predicate run and subject run.
pub open spec fn has_runs(t: Seq<Triple>, c: CsrBuild, m: int) -> bool {
    exists|pj: int, sj: int| #[trigger] in_runs(t, c, m, pj, sj)
}

/// The shape of the arrays built for `t`.
pub open spec fn csr_ok(t: Seq<Triple>, c: CsrBuild) -> bool {
    &&& c.s_vals.len() == c.s_heads.len()
    &&& c.p_vals.len() == c.p_heads.len()
    &&& c.p_vals.len() == c.p_start.len()
    &&& c.o_vals.len() == c.o_start.len()
    &&& c.o_vals.len() == t.len()
    &&& c.s_vals.len() <= c.p_vals.len() <= t.len()
    &&& heads_ok(c.s_heads, c.p_vals.len() as int)
    &&& heads_ok(c.p_heads, t.len() as int)
    &&& starts_at_heads(c.p_start, c.s_heads)
    &&& starts_at_heads(c.o_start, c.p_heads)
    &&& (t.len() == 0 <==> c.s_vals.len() == 0)
    &&& (t.len() == 0 <==> c.p_vals.len() == 0)
    &&& forall|m: int| 0 <= m < t.len() ==> #[trigger] has_runs(t, c, m)
    &&& t.len() > 0 ==> c.s_vals.last() == t.last().0 && c.p_vals.last() == t.last().1
}

/// The arrays of one left-to-right pass have that shape.
#[verifier::rlimit(60)]
proof fn lemma_csr_ok(t: Seq<Triple>)
    requires
        t.len() <= u64::MAX,
    ensures
        csr_ok(t, csr_build(t)),
    decreases t.len(),
{
    if t.len() > 0 {
        let init = t.drop_last();
        lemma_csr_ok(init);
        let c0 = csr_build(init);
        let c = csr_build(t);
        let i = t.len() - 1;
        let x = t[i];
        let ns = opens_subject(t, i);
        let np = opens_predicate(t, i);
        let n0 = init.len() as int;
        let p0 = c0.p_vals.len() as int;
        let s0 = c0.s_vals.len() as int;
        assert(i > 0 ==> t[i - 1] == init.last());
        assert(c.s_heads == (if ns { c0.s_heads.push(p0 as u64) } else { c0.s_heads }));
        assert(c.p_heads == (if np { c0.p_heads.push(n0 as u64) } else { c0.p_heads }));
        assert(ns ==> np);
        // heads
        assert(heads_ok(c.s_heads, c.p_vals.len() as int)) by {
            if ns {
                assert(s0 == 0 ==> p0 == 0);
                assert forall|a: int, b: int| 0 <= a < b < c.s_heads.len() implies c.s_heads[a] < c.s_heads[b] by {
                    if b == s0 {
                        assert(c0.s_heads[a] < p0);
                    }
                }
                assert forall|a: int| 0 <= a < c.s_heads.len() implies #[trigger] c.s_heads[a] < c.p_vals.len() by {
                    if a < s0 {
                        assert(c0.s_heads[a] < p0);
                    }
                }
            } else {
                assert forall|a: int| 0 <= a < c.s_heads.len() implies #[trigger] c.s_heads[a] < c.p_vals.len() by {
                    assert(c0.s_heads[a] < p0);
                }
            }
        }
        assert(heads_ok(c.p_heads, t.len() as int)) by {
            if np {
                assert(p0 == 0 ==> n0 == 0);
                assert forall|a: int, b: int| 0 <= a < b < c.p_heads.len() implies c.p_heads[a] < c.p_heads[b] by {
                    if b == p0 {
                        assert(c0.p_heads[a] < n0);
                    }
                }
                assert forall|a: int| 0 <= a < c.p_heads.len() implies #[trigger] c.p_heads[a] < t.len() by {
                    if a < p0 {
                        assert(c0.p_heads[a] < n0);
                    }
                }
            } else {
                assert forall|a: int| 0 <= a < c.p_heads.len() implies #[trigger] c.p_heads[a] < t.len() by {
                    assert(c0.p_heads[a] < n0);
                }
            }
        }
        // start flags
        assert forall|m: int| 0 <= m < c.p_start.len() implies (#[trigger] c.p_start[m]
            <==> exists|j: int| 0 <= j < c.s_heads.len() && c.s_heads[j] == m) by {
            if m < c0.p_start.len() {
                assert(c.p_start[m] == c0.p_start[m]);
                if exists|j: int| 0 <= j < c.s_heads.len() && c.s_heads[j] == m {
                    let j = choose|j: int| 0 <= j < c.s_heads.len() && c.s_heads[j] == m;
                    if j < c0.s_heads.len() {
                        assert(c0.s_heads[j] == m);
                    } else {
                        assert(c.s_heads[j] == p0);
                    }
                }
                if c0.p_start[m] {
                    let j = choose|j: int| 0 <= j < c0.s_heads.len() && c0.s_heads[j] == m;
                    assert(c.s_heads[j] == m);
                }
            } else {
                if ns {
                    assert(c.s_heads[s0] == m);
                } else {
                    if exists|j: int| 0 <= j < c.s_heads.len() && c.s_heads[j] == m {
                        let j = choose|j: int| 0 <= j < c.s_heads.len() && c.s_heads[j] == m;
                        assert(c0.s_heads[j] < p0);
                    }
                }
            }
        }
        assert forall|m: int| 0 <= m < c.o_start.len() implies (#[trigger] c.o_start[m]
            <==> exists|j: int| 0 <= j < c.p_heads.len() && c.p_heads[j] == m) by {
            if m < c0.o_start.len() {
                assert(c.o_start[m] == c0.o_start[m]);
                if exists|j: int| 0 <= j < c.p_heads.len() && c.p_heads[j] == m {
                    let j = choose|j: int| 0 <= j < c.p_heads.len() && c.p_heads[j] == m;
                    if j < c0.p_heads.len() {
                        assert(c0.p_heads[j] == m);
                    } else {
                        assert(c.p_heads[j] == n0);
                    }
                }
                if c0.o_start[m] {
                    let j = choose|j: int| 0 <= j < c0.p_heads.len() && c0.p_heads[j] == m;
                    assert(c.p_heads[j] == m);
                }
            } else {
                if np {
                    assert(c.p_heads[p0] == m);
                } else {
                    if exists|j: int| 0 <= j < c.p_heads.len() && c.p_heads[j] == m {
                        let j = choose|j: int| 0 <= j < c.p_heads.len() && c.p_heads[j] == m;
                        assert(c0.p_heads[j] < n0);
                    }
                }
            }
        }
        // every triple lies in its runs
        assert forall|m: int| 0 <= m < t.len() implies #[trigger] has_runs(t, c, m) by {
            if m < n0 {
                assert(has_runs(init, c0, m));
                let (pj, sj) = choose|pj: int, sj: int| #[trigger] in_runs(init, c0, m, pj, sj);
                assert(init[m] == t[m]);
                assert(c.p_heads[pj] == c0.p_heads[pj]);
                assert(c.s_heads[sj] == c0.s_heads[sj]);
                if pj + 1 < c0.p_heads.len() {
                    assert(c.p_heads[pj + 1] == c0.p_heads[pj + 1]);
                } else if np {
                    assert(c.p_heads[pj + 1] == n0);
                }
                if sj + 1 < c0.s_heads.len() {
                    assert(c.s_heads[sj + 1] == c0.s_heads[sj + 1]);
                } else if ns {
                    assert(c.s_heads[sj + 1] == p0);
                }
                assert(in_runs(t, c, m, pj, sj));
            } else {
                if ns {
                    assert(in_runs(t, c, m, p0, s0));
                } else if np {
                    assert(c0.s_heads[s0 - 1] < p0);
                    assert(in_runs(t, c, m, p0, s0 - 1));
                } else {
                    assert(c0.p_heads[p0 - 1] < n0);
                    assert(c0.s_heads[s0 - 1] < p0);
                    assert(in_runs(t, c, m, p0 - 1, s0 - 1));
                }
            }
        }
    }
}


/// The arrays a reader gets back for `t`: those of the pass, each head array
/// closed by its end.
pub open spec fn decoded_arrays(t: Seq<Triple>) -> Csr5 {
    let c = csr_build(t);
    Csr5 {
        s_vals: c.s_vals,
        s_heads: c.s_heads.push(c.p_vals.len() as u64),
        p_vals: c.p_vals,
        p_heads: c.p_heads.push(t.len() as u64),
        o_vals: c.o_vals,
    }
}

/// Advancing a cursor through strictly increasing heads stops at the run
/// that holds the target.
proof fn lemma_advance(h: Seq<u64>, i: int, j: int, target: u64)
    requires
        0 <= i <= j,
        j + 1 < h.len(),
        h[j] <= target < h[j + 1],
        forall|a: int, b: int| 0 <= a < b < h.len() ==> h[a] < h[b],
    ensures
        advance(h, i, target) == j,
    decreases j - i,
{
    if i < j {
        assert(h[i + 1] <= h[j]);
        lemma_advance(h, i + 1, j, target);
    }
}

/// A head array closed by an end above all its heads stays strictly
/// increasing.
proof fn lemma_closed_heads(h: Seq<u64>, end: u64)
    requires
        heads_ok(h, end as int),
    ensures
        forall|a: int, b: int| 0 <= a < b < h.push(end).len() ==> h.push(end)[a] < h.push(end)[b],
{
    assert forall|a: int, b: int| 0 <= a < b < h.push(end).len() implies h.push(end)[a] < h.push(end)[b] by {
        if b == h.len() {
            assert(h[a] < end);
        }
    }
}

/// From a cursor no later than the runs of triple `oi`, the reader yields
/// the triples from `oi` on.
proof fn lemma_remaining(t: Seq<Triple>, si: int, pi: int, oi: int)
    requires
        t.len() <= u64::MAX,
        csr_ok(t, csr_build(t)),
        0 <= oi <= t.len(),
        0 <= si,
        0 <= pi,
        oi < t.len() ==> exists|pj: int, sj: int| #[trigger] in_runs(t, csr_build(t), oi, pj, sj) && pi <= pj && si <= sj,
    ensures
        csr_remaining(decoded_arrays(t), si, pi, oi) == t.subrange(oi, t.len() as int),
    decreases t.len() - oi,
{
    let c = csr_build(t);
    let d = decoded_arrays(t);
    if oi < t.len() {
        let (pj, sj) = choose|pj: int, sj: int| #[trigger] in_runs(t, c, oi, pj, sj) && pi <= pj && si <= sj;
        lemma_closed_heads(c.p_heads, t.len() as u64);
        lemma_closed_heads(c.s_heads, c.p_vals.len() as u64);
        assert(d.p_heads[pj + 1] == run_end(c.p_heads, pj, t.len() as int));
        assert(d.s_heads[sj + 1] == run_end(c.s_heads, sj, c.p_vals.len() as int));
        lemma_advance(d.p_heads, pi, pj, oi as u64);
        lemma_advance(d.s_heads, si, sj, pj as u64);
        if oi + 1 < t.len() {
            assert(has_runs(t, c, oi + 1));
            let (pj2, sj2) = choose|pj2: int, sj2: int| #[trigger] in_runs(t, c, oi + 1, pj2, sj2);
            if pj2 < pj {
                assert(c.p_heads[pj2 + 1] <= c.p_heads[pj]);
            }
            if sj2 < sj {
                assert(c.s_heads[sj2 + 1] <= c.s_heads[sj]);
            }
            assert(in_runs(t, c, oi + 1, pj2, sj2) && pj <= pj2 && sj <= sj2);
        }
        lemma_remaining(t, sj, pj, oi + 1);
        assert(seq![t[oi]] + t.subrange(oi + 1, t.len() as int) =~= t.subrange(oi, t.len() as int));
    } else {
        assert(t.subrange(oi, t.len() as int) =~= Seq::<Triple>::empty());
    }
}

/// The numbers written for `t`: the three counts, then the subject deltas,
/// the closed subject heads, the predicate deltas, the closed predicate heads
/// and the object deltas, starting at these stream positions.
proof fn lemma_numbers_layout(t: Seq<Triple>)
    requires
        raw_numbers_ok(t),
        t.len() <= u64::MAX,
    ensures
        ({
            let c = csr_build(t);
            let ns = raw_numbers(t);
            let s = c.s_vals.len() as int;
            let p = c.p_vals.len() as int;
            let n = t.len() as int;
            &&& csr_ok(t, c)
            &&& nums_fit(ns)
            &&& ns.len() == 5 + 2 * s + 2 * p + n
            &&& ns[0] == s && ns[1] == p && ns[2] == n
            &&& forall|i: int| 0 <= i < s ==> #[trigger] ns[3 + i]
                == restart_deltas(c.s_vals, first_only(c.s_vals.len()))[i]
            &&& forall|i: int| 0 <= i <= s ==> #[trigger] ns[3 + s + i] == c.s_heads.push(p as u64)[i]
            &&& forall|i: int| 0 <= i < p ==> #[trigger] ns[4 + 2 * s + i] == restart_deltas(c.p_vals, c.p_start)[i]
            &&& forall|i: int| 0 <= i <= p ==> #[trigger] ns[4 + 2 * s + p + i] == c.p_heads.push(n as u64)[i]
            &&& forall|i: int| 0 <= i < n ==> #[trigger] ns[5 + 2 * s + 2 * p + i] == restart_deltas(c.o_vals, c.o_start)[i]
        }),
{
    let c = csr_build(t);
    lemma_csr_ok(t);
    let s = c.s_vals.len() as int;
    let p = c.p_vals.len() as int;
    let n = t.len() as int;
    let a = restart_deltas(c.s_vals, first_only(c.s_vals.len()));
    let b = c.s_heads.push(p as u64).map_values(|x: u64| x as int);
    let cc = restart_deltas(c.p_vals, c.p_start);
    let dd = c.p_heads.push(n as u64).map_values(|x: u64| x as int);
    let e = restart_deltas(c.o_vals, c.o_start);
    let ns = raw_numbers(t);
    assert(ns == seq![s, p, n] + a + b + cc + dd + e);
    let k_a: int = 3;
    let k_b: int = 3 + s;
    let k_c: int = 4 + 2 * s;
    let k_d: int = 4 + 2 * s + p;
    let k_e: int = 5 + 2 * s + 2 * p;
    assert forall|i: int| 0 <= i < s implies #[trigger] ns[k_a + i] == a[i] by {}
    assert forall|i: int| 0 <= i <= s implies #[trigger] ns[k_b + i] == b[i] by {}
    assert forall|i: int| 0 <= i < p implies #[trigger] ns[k_c + i] == cc[i] by {}
    assert forall|i: int| 0 <= i <= p implies #[trigger] ns[k_d + i] == dd[i] by {}
    assert forall|i: int| 0 <= i < n implies #[trigger] ns[k_e + i] == e[i] by {}
    assert forall|i: int| 0 <= i < ns.len() implies 0 <= #[trigger] ns[i] <= u64::MAX by {
        if i < 3 {
        } else if i < k_b {
            assert(ns[k_a + (i - k_a)] == a[i - k_a]);
            assert(a[i - k_a] >= 0);
        } else if i < k_c {
            assert(ns[k_b + (i - k_b)] == b[i - k_b]);
        } else if i < k_d {
            assert(ns[k_c + (i - k_c)] == cc[i - k_c]);
            assert(cc[i - k_c] >= 0);
        } else if i < k_e {
            assert(ns[k_d + (i - k_d)] == dd[i - k_d]);
        } else {
            assert(ns[k_e + (i - k_e)] == e[i - k_e]);
            assert(e[i - k_e] >= 0);
        }
    }
}

/// The runs between closed heads come back as the whole value array, when
/// the start flags mark exactly the heads.
proof fn lemma_runs_back(
    ns: Seq<int>,
    k: int,
    vals: Seq<u64>,
    starts: Seq<bool>,
    heads: Seq<u64>,
    end: int,
)
    requires
        0 <= k,
        nums_fit(ns),
        heads_ok(heads, vals.len() as int),
        starts_at_heads(starts, heads),
        starts.len() == vals.len(),
        heads.len() == 0 <==> vals.len() == 0,
        vals.len() == end,
        end <= u64::MAX,
        k + end <= ns.len(),
        forall|i: int| 0 <= i < end ==> #[trigger] ns[k + i] == restart_deltas(vals, starts)[i],
    ensures
        read_runs(uvarint_cat(ns), num_off(ns, k), heads.push(end as u64), heads.len(), end as u64)
            == Some((vals, num_off(ns, k + end))),
{
    let h = heads.push(end as u64);
    let u = heads.len() as int;
    assert(h[0] == 0);
    assert forall|j: int| 0 <= j < u implies #[trigger] h[j] < h[j + 1] by {
        if j + 1 >= u {
            assert(heads[j] < end);
        }
    }
    assert forall|j: int| 0 <= j < u implies #[trigger] starts[h[j] as int] by {
        assert(heads[j] < end);
        assert(exists|q: int| 0 <= q < heads.len() && heads[q] == h[j] as int);
    }
    assert forall|j: int, m: int| #![trigger starts[m], h[j]] 0 <= j < u && h[j] < m < h[j + 1] implies !starts[m] by {
        if starts[m] {
            let q = choose|q: int| 0 <= q < heads.len() && heads[q] == m;
            if q <= j {
                assert(heads[q] <= heads[j]);
            } else {
                assert(h[j + 1] <= h[q]);
            }
        }
    }
    assert forall|m: int| 0 <= m < h[u] implies #[trigger] ns[k + m] == restart_deltas(vals, starts)[m] by {}
    lemma_read_runs_stream(ns, k, vals, starts, h, u as nat, end as u64);
    assert(vals.subrange(0, end) =~= vals);
}

/// Decoding the bytes written for a group's triples gives the triples back,
/// in order, whenever the writer accepts them.
pub proof fn lemma_block_roundtrip(t: Seq<Triple>)
    requires
        raw_numbers_ok(t),
        t.len() <= u64::MAX,
    ensures
        spec_raw_triples(uvarint_cat(raw_numbers(t))) == Some(t),
{
    let c = csr_build(t);
    lemma_numbers_layout(t);
    let s = c.s_vals.len() as int;
    let p = c.p_vals.len() as int;
    let n = t.len() as int;
    let ns = raw_numbers(t);
    let raw = uvarint_cat(ns);
    let sh = c.s_heads.push(p as u64);
    let ph = c.p_heads.push(n as u64);
    // the three counts
    lemma_read_nums_stream(ns, 0, 3);
    assert(num_off(ns, 0) == 0) by {
        assert(ns.take(0) =~= Seq::<int>::empty());
    }
    let counts = ns.subrange(0, 3).map_values(|x: int| x as u64);
    assert(counts[0] == s && counts[1] == p && counts[2] == n);
    // subjects
    assert forall|i: int| 0 <= i < c.s_vals.len() implies #[trigger] ns[3 + i] == (if i == 0 {
        c.s_vals[0] as int
    } else {
        c.s_vals[i] - c.s_vals[i - 1]
    }) by {
        assert(ns[3 + i] == restart_deltas(c.s_vals, first_only(c.s_vals.len()))[i]);
    }
    lemma_read_run_stream(ns, 3, c.s_vals);
    // subject heads
    lemma_read_nums_stream(ns, 3 + s, (s + 1) as nat);
    assert(ns.subrange(3 + s, 3 + s + s + 1).map_values(|x: int| x as u64) =~= sh) by {
        assert forall|i: int| 0 <= i <= s implies ns.subrange(3 + s, 3 + s + s + 1).map_values(|x: int| x as u64)[i]
            == sh[i] by {
            assert(ns[3 + s + i] == sh[i]);
        }
    }
    // predicates, predicate heads, objects
    assert forall|i: int| 0 <= i < p implies #[trigger] ns[(4 + 2 * s) + i] == restart_deltas(c.p_vals, c.p_start)[i] by {
        assert(ns[4 + 2 * s + i] == restart_deltas(c.p_vals, c.p_start)[i]);
    }
    lemma_runs_back(ns, 4 + 2 * s, c.p_vals, c.p_start, c.s_heads, p);
    lemma_read_nums_stream(ns, 4 + 2 * s + p, (p + 1) as nat);
    assert(ns.subrange(4 + 2 * s + p, 4 + 2 * s + p + p + 1).map_values(|x: int| x as u64) =~= ph) by {
        assert forall|i: int| 0 <= i <= p implies ns.subrange(4 + 2 * s + p, 4 + 2 * s + p + p + 1).map_values(
            |x: int| x as u64,
        )[i] == ph[i] by {
            assert(ns[4 + 2 * s + p + i] == ph[i]);
        }
    }
    assert forall|i: int| 0 <= i < n implies #[trigger] ns[(5 + 2 * s + 2 * p) + i] == restart_deltas(c.o_vals, c.o_start)[i] by {
        assert(ns[5 + 2 * s + 2 * p + i] == restart_deltas(c.o_vals, c.o_start)[i]);
    }
    lemma_runs_back(ns, 5 + 2 * s + 2 * p, c.o_vals, c.o_start, c.p_heads, n);
    assert(sh[0] == 0 && ph[0] == 0);
    assert(zeros(0) + c.p_vals =~= c.p_vals);
    assert(zeros(0) + c.o_vals =~= c.o_vals);
    assert(spec_decode_raw(raw) == Some(decoded_arrays(t)));
    if n > 0 {
        assert(has_runs(t, c, 0));
    }
    lemma_remaining(t, 0, 0, 0);
    assert(t.subrange(0, n) =~= t);
}


/// The encoder accepts triples sorted by (S, P, O): no delta is negative.
pub proof fn lemma_sorted_accepted(t: Seq<Triple>)
    requires
        triples_sorted(t),
        t.len() <= u64::MAX,
    ensures
        raw_numbers_ok(t),
    decreases t.len(),
{
    if t.len() > 0 {
        let init = t.drop_last();
        assert(triples_sorted(init)) by {
            assert forall|i: int| 0 <= i < init.len() - 1 implies triple_le(#[trigger] init[i], init[i + 1]) by {
                assert(triple_le(t[i], t[i + 1]));
            }
        }
        lemma_sorted_accepted(init);
        lemma_csr_ok(init);
        lemma_csr_ok(t);
        let c0 = csr_build(init);
        let c = csr_build(t);
        let i = t.len() - 1;
        let x = t[i];
        let ns = opens_subject(t, i);
        let np = opens_predicate(t, i);
        if i > 0 {
            assert(triple_le(t[i - 1], t[i]));
            assert(t[i - 1] == init.last());
        }
        let s0 = c0.s_vals.len() as int;
        let p0 = c0.p_vals.len() as int;
        let n0 = init.len() as int;
        let ds0 = restart_deltas(c0.s_vals, first_only(c0.s_vals.len()));
        let ds = restart_deltas(c.s_vals, first_only(c.s_vals.len()));
        assert forall|k: int| 0 <= k < ds.len() implies #[trigger] ds[k] >= 0 by {
            if k < s0 {
                assert(ds[k] == ds0[k]);
            } else if ns && k > 0 {
                assert(c0.s_vals.last() == init.last().0);
            }
        }
        let dp0 = restart_deltas(c0.p_vals, c0.p_start);
        let dp = restart_deltas(c.p_vals, c.p_start);
        assert forall|k: int| 0 <= k < dp.len() implies #[trigger] dp[k] >= 0 by {
            if k < p0 {
                assert(dp[k] == dp0[k]);
            } else if np && !ns {
                assert(c0.p_vals.last() == init.last().1);
            }
        }
        let do0 = restart_deltas(c0.o_vals, c0.o_start);
        let dob = restart_deltas(c.o_vals, c.o_start);
        assert forall|k: int| 0 <= k < dob.len() implies #[trigger] dob[k] >= 0 by {
            if k < n0 {
                assert(dob[k] == do0[k]);
            } else if !np {
                assert(c0.o_vals[n0 - 1] == init[n0 - 1].2) by {
                    assert(has_runs(init, c0, n0 - 1));
                }
            }
        }
    }
}

} // verus!
