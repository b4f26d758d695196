//! Writer for R5TU files: intern terms, group and encode triples, and lay
//! out all sections of a file image.
use vstd::prelude::*;
use crate::intern::{distinct_in_order, index_in, intern_view, no_dups, StrInterner, TermInterner};
use crate::reader::R5Error;
use crate::sections::{
    gdir_bytes, lists_sorted, lists_view, pair_section, postings_section, spec_group_block, spec_group_row,
    toc_bytes, write_gdir_rows, write_group_block, write_pair_index, write_postings_index, write_toc, GidRow,
    PairEntry,
};
use crate::header::{crc32_ieee, footer_magic, spec_crc32, Section, SectionKind, TocEntry};
use crate::layout::Outcome;
use crate::le::{push_u16, push_u32, push_u64};
use crate::strdict::{spec_str_dict, write_str_dict};
use crate::termdict::{spec_term_dict, write_term_dict};
use vstd::bytes::{spec_u16_to_le_bytes, spec_u32_to_le_bytes, spec_u64_to_le_bytes};
use crate::runs::{decode_run, encode_run, lemma_decode_run, run_bytes};
use crate::sort::{ascending, lemma_ascending_unique, sort_unstable};
use crate::triples::Triple;

verus! {

/// RDF term used by the writer when constructing quads.
#[derive(Debug, Clone, PartialEq, Eq, Hash)]
pub enum Term {
    /// IRI/URI node.
    Iri(String),
    /// Blank node label (with or without `_:` prefix).
    BNode(String),
    /// Literal with optional datatype or language tag.
    Literal { lex: String, dt: Option<String>, lang: Option<String> },
}

/// The characters of a term.
pub enum TermView {
    Iri(Seq<char>),
    BNode(Seq<char>),
    Literal(Seq<char>, Option<Seq<char>>, Option<Seq<char>>),
}

/// The characters of an optional string.
pub open spec fn opt_view(s: Option<String>) -> Option<Seq<char>> {
    match s {
        Some(x) => Some(x@),
        None => None,
    }
}

impl View for Term {
    type V = TermView;

    open spec fn view(&self) -> TermView {
        match self {
            Term::Iri(s) => TermView::Iri(s@),
            Term::BNode(s) => TermView::BNode(s@),
            Term::Literal { lex, dt, lang } => TermView::Literal(lex@, opt_view(*dt), opt_view(*lang)),
        }
    }
}

/// 5-tuple (id, s, p, o, gname) used to build an R5TU file.
#[derive(Debug, Clone)]
pub struct Quint {
    /// Dataset identifier for grouping.
    pub id: String,
    /// Subject term.
    pub s: Term,
    /// Predicate term.
    pub p: Term,
    /// Object term.
    pub o: Term,
    /// Graph name for grouping.
    pub gname: String,
}


/// The characters of a 5-tuple.
pub struct QuintView {
    pub id: Seq<char>,
    pub s: TermView,
    pub p: TermView,
    pub o: TermView,
    pub gname: Seq<char>,
}

impl View for Quint {
    type V = QuintView;

    open spec fn view(&self) -> QuintView {
        QuintView { id: self.id@, s: self.s@, p: self.p@, o: self.o@, gname: self.gname@ }
    }
}

/// The views of a vector of 5-tuples.
pub open spec fn quints_view(v: Seq<Quint>) -> Seq<QuintView> {
    v.map_values(|q: Quint| q@)
}

/// The dataset ids of the tuples, in order.
pub open spec fn quint_ids(qs: Seq<QuintView>) -> Seq<Seq<char>> {
    qs.map_values(|q: QuintView| q.id)
}

/// The graph names of the tuples, in order.
pub open spec fn quint_gnames(qs: Seq<QuintView>) -> Seq<Seq<char>> {
    qs.map_values(|q: QuintView| q.gname)
}

/// The terms of the tuples in the order they are interned: subject,
/// predicate, object of each tuple in turn.
pub open spec fn quint_terms(qs: Seq<QuintView>) -> Seq<TermView>
    decreases qs.len(),
{
    if qs.len() == 0 {
        seq![]
    } else {
        quint_terms(qs.drop_last()) + seq![qs.last().s, qs.last().p, qs.last().o]
    }
}

/// An interned 5-tuple: id, graph name, subject, predicate, object ids.
pub type Encoded = (u32, u32, u64, u64, u64);

/// The dictionaries of a set of tuples: ids, graph names and terms, each in
/// order of first occurrence.
pub open spec fn dict_ids(qs: Seq<QuintView>) -> Seq<Seq<char>> {
    distinct_in_order(quint_ids(qs))
}

/// The graph-name dictionary of a set of tuples.
pub open spec fn dict_gnames(qs: Seq<QuintView>) -> Seq<Seq<char>> {
    distinct_in_order(quint_gnames(qs))
}

/// The term dictionary of a set of tuples.
pub open spec fn dict_terms(qs: Seq<QuintView>) -> Seq<TermView> {
    distinct_in_order(quint_terms(qs))
}

/// Tuple `q` with its strings replaced by their dictionary ids.
pub open spec fn encode_quint(qs: Seq<QuintView>, q: QuintView) -> Encoded {
    (
        index_in(dict_ids(qs), q.id) as u32,
        index_in(dict_gnames(qs), q.gname) as u32,
        index_in(dict_terms(qs), q.s) as u64,
        index_in(dict_terms(qs), q.p) as u64,
        index_in(dict_terms(qs), q.o) as u64,
    )
}

/// All tuples, encoded.
pub open spec fn encode_all(qs: Seq<QuintView>) -> Seq<Encoded> {
    qs.map_values(|q: QuintView| encode_quint(qs, q))
}

/// The distinct values of a prefix come first among those of the whole.
pub proof fn lemma_distinct_prefix<T>(xs: Seq<T>, k: int)
    requires
        0 <= k <= xs.len(),
    ensures
        distinct_in_order(xs.take(k)).is_prefix_of(distinct_in_order(xs)),
    decreases xs.len() - k,
{
    if k < xs.len() {
        lemma_distinct_prefix(xs, k + 1);
        assert(xs.take(k + 1).drop_last() =~= xs.take(k));
        crate::intern::lemma_distinct_in_order(xs.take(k));
        crate::intern::lemma_intern_view(distinct_in_order(xs.take(k)), xs[k]);
        let a = distinct_in_order(xs.take(k));
        let b = distinct_in_order(xs.take(k + 1));
        let c = distinct_in_order(xs);
        assert(a.is_prefix_of(b));
        assert(b.is_prefix_of(c));
        assert forall|i: int| 0 <= i < a.len() implies a[i] == c[i] by {
            assert(a[i] == b[i]);
        }
    } else {
        assert(xs.take(k) =~= xs);
    }
}

/// The tuple terms of a prefix are a prefix of the tuple terms.
proof fn lemma_quint_terms_prefix(qs: Seq<QuintView>, i: int)
    requires
        0 <= i < qs.len(),
    ensures
        quint_terms(qs.take(i + 1)) == quint_terms(qs.take(i)) + seq![qs[i].s, qs[i].p, qs[i].o],
        quint_terms(qs.take(i)).len() == 3 * i,
{
    assert(qs.take(i + 1).drop_last() =~= qs.take(i));
    lemma_quint_terms_len(qs.take(i));
}

proof fn lemma_quint_terms_len(qs: Seq<QuintView>)
    ensures
        quint_terms(qs).len() == 3 * qs.len(),
    decreases qs.len(),
{
    if qs.len() > 0 {
        lemma_quint_terms_len(qs.drop_last());
    }
}

proof fn lemma_quint_terms_take(qs: Seq<QuintView>, i: int)
    requires
        0 <= i <= qs.len(),
    ensures
        quint_terms(qs.take(i)) == quint_terms(qs).take(3 * i),
    decreases qs.len() - i,
{
    lemma_quint_terms_len(qs);
    if i < qs.len() {
        lemma_quint_terms_take(qs, i + 1);
        lemma_quint_terms_prefix(qs, i);
        assert(quint_terms(qs).take(3 * i) =~= quint_terms(qs).take(3 * (i + 1)).take(3 * i));
        assert(quint_terms(qs.take(i)) =~= quint_terms(qs.take(i + 1)).take(3 * i));
    } else {
        assert(qs.take(i) =~= qs);
        assert(quint_terms(qs).take(3 * i) =~= quint_terms(qs));
    }
}

/// Intern the ids, graph names and terms of the tuples, and encode each
/// tuple. Fails when there are more distinct ids or graph names than `u32`
/// numbers them.
pub fn intern_quads(quads: &Vec<Quint>) -> (r: Result<(StrInterner, StrInterner, TermInterner, Vec<Encoded>), R5Error>)
    ensures
        ({
            let qs = quints_view(quads@);
            &&& (dict_ids(qs).len() > u32::MAX || dict_gnames(qs).len() > u32::MAX) ==> (r matches Err(e) && e is Invalid)
            &&& !(dict_ids(qs).len() > u32::MAX || dict_gnames(qs).len() > u32::MAX) ==> (r matches Ok((ids, gns, terms, enc)) && {
                &&& ids@ == dict_ids(qs) && ids.wf()
                &&& gns@ == dict_gnames(qs) && gns.wf()
                &&& terms@ == dict_terms(qs) && terms.wf()
                &&& enc@ == encode_all(qs)
            })
        }),
{
    let ghost qs = quints_view(quads@);
    let mut ids = StrInterner::new();
    let mut gns = StrInterner::new();
    let mut terms = TermInterner::new();
    let mut enc: Vec<Encoded> = Vec::new();
    let mut i: usize = 0;
    assert(quint_ids(qs).take(0) =~= Seq::<Seq<char>>::empty());
    assert(quint_gnames(qs).take(0) =~= Seq::<Seq<char>>::empty());
    assert(qs.take(0) =~= Seq::<QuintView>::empty());
    while i < quads.len()
        invariant
            i <= quads@.len(),
            qs == quints_view(quads@),
            ids.wf() && gns.wf() && terms.wf(),
            ids@ == distinct_in_order(quint_ids(qs).take(i as int)),
            gns@ == distinct_in_order(quint_gnames(qs).take(i as int)),
            terms@ == distinct_in_order(quint_terms(qs.take(i as int))),
            ids@.len() <= u32::MAX + 1,
            gns@.len() <= u32::MAX + 1,
            enc@.len() == i,
            forall|j: int| 0 <= j < i ==> {
                &&& (#[trigger] enc@[j]).0 < ids@.len() && ids@[enc@[j].0 as int] == qs[j].id
                &&& enc@[j].1 < gns@.len() && gns@[enc@[j].1 as int] == qs[j].gname
                &&& enc@[j].2 < terms@.len() && terms@[enc@[j].2 as int] == qs[j].s
                &&& enc@[j].3 < terms@.len() && terms@[enc@[j].3 as int] == qs[j].p
                &&& enc@[j].4 < terms@.len() && terms@[enc@[j].4 as int] == qs[j].o
            },
        decreases quads@.len() - i,
    {
        let q = &quads[i];
        assert(qs[i as int] == q@);
        assert(quint_ids(qs).take(i + 1).drop_last() =~= quint_ids(qs).take(i as int));
        assert(quint_gnames(qs).take(i + 1).drop_last() =~= quint_gnames(qs).take(i as int));
        let ghost t0 = quint_terms(qs.take(i as int));
        let ghost t3 = quint_terms(qs.take(i + 1));
        proof {
            lemma_quint_terms_prefix(qs, i as int);
            assert(t3.drop_last().drop_last().drop_last() =~= t0);
            assert(t3.drop_last().drop_last() =~= t0.push(q.s@));
            assert(t3.drop_last() =~= t0.push(q.s@).push(q.p@));
            assert(t3.last() == q.o@);
            assert(t3.drop_last().last() == q.p@);
            assert(t3.drop_last().drop_last().last() == q.s@);
            assert(distinct_in_order(t3) == intern_view(distinct_in_order(t3.drop_last()), q.o@));
            assert(distinct_in_order(t3.drop_last()) == intern_view(distinct_in_order(t3.drop_last().drop_last()), q.p@));
            assert(distinct_in_order(t3.drop_last().drop_last()) == intern_view(distinct_in_order(t0), q.s@));
        }
        let ghost ids0 = ids@;
        let ghost gns0 = gns@;
        let ghost terms0 = terms@;
        let a = ids.intern(q.id.as_str());
        let b = gns.intern(q.gname.as_str());
        if a > 0xffff_ffff || b > 0xffff_ffff {
            proof {
                lemma_distinct_prefix(quint_ids(qs), i + 1);
                lemma_distinct_prefix(quint_gnames(qs), i + 1);
                assert(quint_ids(qs).len() == qs.len());
                assert(quint_gnames(qs).len() == qs.len());
            }
            return Err(R5Error::Invalid("too many distinct ids or graph names"));
        }
        let s = terms.intern(&q.s);
        let p = terms.intern(&q.p);
        let o = terms.intern(&q.o);
        enc.push((a as u32, b as u32, s as u64, p as u64, o as u64));
        proof {
            crate::intern::lemma_intern_view(ids0, q.id@);
            crate::intern::lemma_intern_view(gns0, q.gname@);
            crate::intern::lemma_intern_view(terms0, q.s@);
            crate::intern::lemma_intern_view(intern_view(terms0, q.s@), q.p@);
            crate::intern::lemma_intern_view(intern_view(intern_view(terms0, q.s@), q.p@), q.o@);
            assert forall|j: int| 0 <= j < i + 1 implies {
                &&& (#[trigger] enc@[j]).0 < ids@.len() && ids@[enc@[j].0 as int] == qs[j].id
                &&& enc@[j].1 < gns@.len() && gns@[enc@[j].1 as int] == qs[j].gname
                &&& enc@[j].2 < terms@.len() && terms@[enc@[j].2 as int] == qs[j].s
                &&& enc@[j].3 < terms@.len() && terms@[enc@[j].3 as int] == qs[j].p
                &&& enc@[j].4 < terms@.len() && terms@[enc@[j].4 as int] == qs[j].o
            } by {
                if j < i {
                    assert(ids0.is_prefix_of(ids@));
                    assert(gns0.is_prefix_of(gns@));
                    assert(terms0.is_prefix_of(terms@));
                    assert(ids@[enc@[j].0 as int] == ids0[enc@[j].0 as int]);
                    assert(gns@[enc@[j].1 as int] == gns0[enc@[j].1 as int]);
                    assert(terms@[enc@[j].2 as int] == terms0[enc@[j].2 as int]);
                    assert(terms@[enc@[j].3 as int] == terms0[enc@[j].3 as int]);
                    assert(terms@[enc@[j].4 as int] == terms0[enc@[j].4 as int]);
                }
            }
        }
        i = i + 1;
    }
    assert(quint_ids(qs).take(i as int) =~= quint_ids(qs));
    assert(quint_gnames(qs).take(i as int) =~= quint_gnames(qs));
    assert(qs.take(i as int) =~= qs);
    if ids.len() > 0xffff_ffff || gns.len() > 0xffff_ffff {
        return Err(R5Error::Invalid("too many distinct ids or graph names"));
    }
    proof {
        assert forall|j: int| 0 <= j < qs.len() implies #[trigger] enc@[j] == encode_quint(qs, qs[j]) by {
            crate::termdict::lemma_index_in_unique(ids@, enc@[j].0 as int, qs[j].id);
            crate::termdict::lemma_index_in_unique(gns@, enc@[j].1 as int, qs[j].gname);
            crate::termdict::lemma_index_in_unique(terms@, enc@[j].2 as int, qs[j].s);
            crate::termdict::lemma_index_in_unique(terms@, enc@[j].3 as int, qs[j].p);
            crate::termdict::lemma_index_in_unique(terms@, enc@[j].4 as int, qs[j].o);
        }
        assert(enc@ =~= encode_all(qs));
    }
    Ok((ids, gns, terms, enc))
}


// ---------------------------------------------------------------- grouping

/// A run of records sharing a (dataset id, graph name) key: the key and the
/// (S, P, O) triples in record order.
pub struct Run {
    pub key: (u32, u32),
    pub triples: Seq<Triple>,
}

/// The runs of consecutive records with equal keys.
pub open spec fn group_runs(e: Seq<Encoded>) -> Seq<Run>
    decreases e.len(),
{
    if e.len() == 0 {
        seq![]
    } else {
        let r = group_runs(e.drop_last());
        let x = e.last();
        let k = (x.0, x.1);
        let t = (x.2, x.3, x.4);
        if r.len() > 0 && r.last().key == k {
            r.drop_last().push(Run { key: k, triples: r.last().triples.push(t) })
        } else {
            r.push(Run { key: k, triples: seq![t] })
        }
    }
}

/// A run as built: key and triples.
pub struct GroupRun {
    pub key: (u32, u32),
    pub spo: Vec<Triple>,
}

impl View for GroupRun {
    type V = Run;

    open spec fn view(&self) -> Run {
        Run { key: self.key, triples: self.spo@ }
    }
}

/// The views of built runs.
pub open spec fn runs_view(v: Seq<GroupRun>) -> Seq<Run> {
    v.map_values(|r: GroupRun| r@)
}

/// Add one sorted record: extend the last run when its key matches, else
/// open a new run.
pub fn process_sorted_record(record: Encoded, runs: &mut Vec<GroupRun>)
    ensures
        ({
            let r = runs_view(old(runs)@);
            let k = (record.0, record.1);
            let t = (record.2, record.3, record.4);
            runs_view(final(runs)@) == if r.len() > 0 && r.last().key == k {
                r.drop_last().push(Run { key: k, triples: r.last().triples.push(t) })
            } else {
                r.push(Run { key: k, triples: seq![t] })
            }
        }),
{
    let key = (record.0, record.1);
    let t = (record.2, record.3, record.4);
    let n = runs.len();
    if n > 0 && runs[n - 1].key.0 == key.0 && runs[n - 1].key.1 == key.1 {
        let mut last = runs.pop().unwrap();
        last.spo.push(t);
        runs.push(last);
        assert(runs_view(runs@) =~= runs_view(old(runs)@).drop_last().push(Run { key, triples: runs_view(old(runs)@).last().triples.push(t) }));
    } else {
        let mut spo: Vec<Triple> = Vec::new();
        spo.push(t);
        runs.push(GroupRun { key, spo });
        assert(runs_view(runs@) =~= runs_view(old(runs)@).push(Run { key, triples: seq![t] }));
    }
}

/// Split sorted records into runs.
pub fn split_runs(records: &Vec<Encoded>) -> (runs: Vec<GroupRun>)
    ensures
        runs_view(runs@) == group_runs(records@),
{
    let mut runs: Vec<GroupRun> = Vec::new();
    let mut i: usize = 0;
    assert(records@.take(0) =~= Seq::<Encoded>::empty());
    assert(runs_view(runs@) =~= Seq::<Run>::empty());
    while i < records.len()
        invariant
            i <= records@.len(),
            runs_view(runs@) == group_runs(records@.take(i as int)),
        decreases records@.len() - i,
    {
        assert(records@.take(i + 1).drop_last() =~= records@.take(i as int));
        process_sorted_record(records[i], &mut runs);
        i = i + 1;
    }
    assert(records@.take(i as int) =~= records@);
    runs
}

/// The blocks of the runs, starting at `start`, and their directory rows;
/// `None` when a run's triples are out of order.
pub open spec fn spec_blocks(start: int, runs: Seq<Run>, zstd: bool) -> Option<(Seq<u8>, Seq<GidRow>)>
    decreases runs.len(),
{
    if runs.len() == 0 {
        Some((seq![], seq![]))
    } else {
        match spec_blocks(start, runs.drop_last(), zstd) {
            None => None,
            Some((b, rows)) => {
                let r = runs.last();
                match spec_group_block(r.triples, zstd) {
                    None => None,
                    Some(bb) => Some((b + bb, rows.push(spec_group_row(r.key.0, r.key.1, r.triples,
                        start + b.len(), bb.len() as int)))),
                }
            },
        }
    }
}

proof fn lemma_blocks_none_extends(start: int, runs: Seq<Run>, zstd: bool, k: int)
    requires
        0 <= k <= runs.len(),
        spec_blocks(start, runs.take(k), zstd) is None,
    ensures
        spec_blocks(start, runs, zstd) is None,
    decreases runs.len() - k,
{
    if k < runs.len() {
        assert(runs.take(k + 1).drop_last() =~= runs.take(k));
        lemma_blocks_none_extends(start, runs, zstd, k + 1);
    } else {
        assert(runs.take(k) =~= runs);
    }
}

/// Append the blocks of the runs, returning the directory rows.
pub fn write_blocks(file: &mut Vec<u8>, runs: &Vec<GroupRun>, zstd: bool) -> (r: Result<Vec<GidRow>, R5Error>)
    ensures
        match spec_blocks(old(file)@.len() as int, runs_view(runs@), zstd) {
            None => r matches Err(e) && e is Corrupt,
            Some((b, rows)) => r matches Ok(x) && final(file)@ == old(file)@ + b && x@ == rows,
        },
{
    let ghost rv = runs_view(runs@);
    let ghost start = file@.len() as int;
    let ghost base = file@;
    let mut rows: Vec<GidRow> = Vec::new();
    let mut k: usize = 0;
    assert(rv.take(0) =~= Seq::<Run>::empty());
    while k < runs.len()
        invariant
            k <= runs@.len(),
            rv == runs_view(runs@),
            base == old(file)@,
            start == base.len(),
            file@.len() >= base.len(),
            spec_blocks(start, rv.take(k as int), zstd) == Some((file@.subrange(start, file@.len() as int), rows@)),
            file@ == base + file@.subrange(start, file@.len() as int),
        decreases runs@.len() - k,
    {
        assert(rv.take(k + 1).drop_last() =~= rv.take(k as int));
        assert(rv.take(k + 1).last() == runs@[k as int]@);
        let ghost before = file@;
        let ghost rows0 = rows@;
        match write_group_block(file, &mut rows, zstd, runs[k].key.0, runs[k].key.1, runs[k].spo.as_slice()) {
            Ok(()) => {},
            Err(e) => {
                assert(e is Corrupt);
                proof {
                    if spec_group_block(runs@[k as int]@.triples, zstd) is None {
                        lemma_blocks_none_extends(start, rv, zstd, k + 1);
                    } else {
                        assert(zstd);
                    }
                }
                return Err(e);
            },
        }
        proof {
            let bb = spec_group_block(runs@[k as int]@.triples, zstd).unwrap();
            assert(file@.subrange(start, file@.len() as int) =~= before.subrange(start, before.len() as int) + bb);
            assert(file@ =~= base + file@.subrange(start, file@.len() as int));
        }
        k = k + 1;
    }
    assert(rv.take(k as int) =~= rv);
    Ok(rows)
}


// ---------------------------------------------------------------- indexes

/// For each key `k < n`, the positions (gids) whose key is `k`, ascending.
pub open spec fn gid_lists(keys: Seq<u32>, n: nat) -> Seq<Seq<u64>>
    decreases keys.len(),
{
    if keys.len() == 0 {
        Seq::new(n, |k: int| Seq::<u64>::empty())
    } else {
        let l = gid_lists(keys.drop_last(), n);
        let k = keys.last() as int;
        if k < n {
            l.update(k, l[k].push((keys.len() - 1) as u64))
        } else {
            l
        }
    }
}

/// The dataset ids of the directory rows.
pub open spec fn row_ids(rows: Seq<GidRow>) -> Seq<u32> {
    rows.map_values(|r: GidRow| r.id_id)
}

/// The graph names of the directory rows.
pub open spec fn row_gns(rows: Seq<GidRow>) -> Seq<u32> {
    rows.map_values(|r: GidRow| r.gn_id)
}

/// One pair entry per row: (id, graph name, gid).
pub open spec fn pair_base(rows: Seq<GidRow>) -> Seq<PairEntry> {
    Seq::new(rows.len(), |j: int| (rows[j].id_id, rows[j].gn_id, j as u64))
}

/// The pair entries in ascending order.
pub open spec fn sorted_pairs(rows: Seq<GidRow>) -> Seq<PairEntry> {
    choose|p: Seq<PairEntry>| ascending(p) && p.to_multiset() == pair_base(rows).to_multiset()
}

/// The gid lists have `n` entries, each ascending with gids below the
/// number of keys.
proof fn lemma_gid_lists(keys: Seq<u32>, n: nat)
    requires
        keys.len() <= u64::MAX,
    ensures
        gid_lists(keys, n).len() == n,
        forall|k: int, i: int| 0 <= k < n && 0 <= i < gid_lists(keys, n)[k].len()
            ==> #[trigger] gid_lists(keys, n)[k][i] < keys.len(),
        lists_sorted(gid_lists(keys, n)),
    decreases keys.len(),
{
    if keys.len() > 0 {
        lemma_gid_lists(keys.drop_last(), n);
        let l = gid_lists(keys.drop_last(), n);
        let m = gid_lists(keys, n);
        let k0 = keys.last() as int;
        let j = (keys.len() - 1) as u64;
        assert forall|k: int, i: int| 0 <= k < n && 0 <= i < m[k].len() implies #[trigger] m[k][i] < keys.len() by {
            if k == k0 && i == l[k].len() {
            } else {
                assert(m[k][i] == l[k][i]);
            }
        }
        assert forall|k: int, a: int, b: int| 0 <= k < m.len() && 0 <= a <= b < m[k].len()
            implies #[trigger] m[k][a] <= #[trigger] m[k][b] by {
            assert(m.len() == n && l.len() == n);
            if k0 < n {
                assert(m == l.update(k0, l[k0].push(j)));
                if k == k0 {
                    assert(m[k] == l[k].push(j));
                    if b == l[k].len() {
                        assert(m[k][b] == j);
                        if a < b {
                            assert(m[k][a] == l[k][a]);
                            assert(l[k][a] < keys.len() - 1);
                        }
                    } else {
                        assert(m[k][a] == l[k][a] && m[k][b] == l[k][b]);
                    }
                } else {
                    assert(m[k] == l[k]);
                    assert(m[k][a] == l[k][a] && m[k][b] == l[k][b]);
                }
            } else {
                assert(m == l);
                assert(m[k][a] == l[k][a] && m[k][b] == l[k][b]);
            }
        }
    } else {
        assert(lists_sorted(gid_lists(keys, n)));
    }
}

/// The bytes of the two postings indexes and the pair index written at `base`.
pub open spec fn spec_indexes(base: int, rows: Seq<GidRow>, n_ids: nat, n_gns: nat) -> Seq<u8> {
    let p1 = postings_section(base, gid_lists(row_ids(rows), n_ids));
    let p2 = postings_section(base + p1.len(), gid_lists(row_gns(rows), n_gns));
    let p3 = pair_section(base + p1.len() + p2.len(), sorted_pairs(rows));
    p1 + p2 + p3
}

/// Append the id-to-gid and graph-name-to-gid postings and the pair index.
pub fn write_indexes(file: &mut Vec<u8>, rows: &Vec<GidRow>, n_ids: usize, n_gns: usize) -> (r: (Section, Section, Section))
    ensures
        ({
            let base = old(file)@.len() as int;
            let p1 = postings_section(base, gid_lists(row_ids(rows@), n_ids as nat));
            let p2 = postings_section(base + p1.len(), gid_lists(row_gns(rows@), n_gns as nat));
            let p3 = pair_section(base + p1.len() + p2.len(), sorted_pairs(rows@));
            &&& final(file)@ == old(file)@ + spec_indexes(base, rows@, n_ids as nat, n_gns as nat)
            &&& r.0 == Section { off: base as u64, len: p1.len() as u64 }
            &&& r.1 == Section { off: (base + p1.len()) as u64, len: p2.len() as u64 }
            &&& r.2 == Section { off: (base + p1.len() + p2.len()) as u64, len: p3.len() as u64 }
        }),
{
    let mut id2: Vec<Vec<u64>> = Vec::new();
    let mut gn2: Vec<Vec<u64>> = Vec::new();
    let mut k: usize = 0;
    while k < n_ids
        invariant
            k <= n_ids,
            id2@.len() == k,
            lists_view(id2@) == Seq::new(k as nat, |q: int| Seq::<u64>::empty()),
        decreases n_ids - k,
    {
        let v: Vec<u64> = Vec::new();
        assert(v@ =~= Seq::<u64>::empty());
        let ghost old_l = id2@;
        id2.push(v);
        assert forall|q: int| 0 <= q < k + 1 implies #[trigger] lists_view(id2@)[q] == Seq::<u64>::empty() by {
            if q < k {
                assert(id2@[q] == old_l[q]);
                assert(lists_view(old_l)[q] == Seq::new(k as nat, |q: int| Seq::<u64>::empty())[q]);
            }
        }
        assert(lists_view(id2@) =~= Seq::new((k + 1) as nat, |q: int| Seq::<u64>::empty()));
        k = k + 1;
    }
    k = 0;
    while k < n_gns
        invariant
            k <= n_gns,
            gn2@.len() == k,
            lists_view(gn2@) == Seq::new(k as nat, |q: int| Seq::<u64>::empty()),
        decreases n_gns - k,
    {
        let v: Vec<u64> = Vec::new();
        assert(v@ =~= Seq::<u64>::empty());
        let ghost old_l = gn2@;
        gn2.push(v);
        assert forall|q: int| 0 <= q < k + 1 implies #[trigger] lists_view(gn2@)[q] == Seq::<u64>::empty() by {
            if q < k {
                assert(gn2@[q] == old_l[q]);
                assert(lists_view(old_l)[q] == Seq::new(k as nat, |q: int| Seq::<u64>::empty())[q]);
            }
        }
        assert(lists_view(gn2@) =~= Seq::new((k + 1) as nat, |q: int| Seq::<u64>::empty()));
        k = k + 1;
    }
    let mut pairs: Vec<PairEntry> = Vec::new();
    let mut j: usize = 0;
    assert(row_ids(rows@).take(0) =~= Seq::<u32>::empty());
    assert(row_gns(rows@).take(0) =~= Seq::<u32>::empty());
    while j < rows.len()
        invariant
            j <= rows@.len(),
            lists_view(id2@) == gid_lists(row_ids(rows@).take(j as int), n_ids as nat),
            lists_view(gn2@) == gid_lists(row_gns(rows@).take(j as int), n_gns as nat),
            id2@.len() == n_ids,
            gn2@.len() == n_gns,
            pairs@ == pair_base(rows@).take(j as int),
        decreases rows@.len() - j,
    {
        assert(row_ids(rows@).take(j + 1).drop_last() =~= row_ids(rows@).take(j as int));
        assert(row_gns(rows@).take(j + 1).drop_last() =~= row_gns(rows@).take(j as int));
        let r = rows[j];
        proof {
            lemma_gid_lists(row_ids(rows@).take(j as int), n_ids as nat);
            lemma_gid_lists(row_gns(rows@).take(j as int), n_gns as nat);
        }
        if (r.id_id as usize) < n_ids {
            let ghost before = lists_view(id2@);
            id2[r.id_id as usize].push(j as u64);
            assert(lists_view(id2@) =~= before.update(r.id_id as int, before[r.id_id as int].push(j as u64)));
        }
        if (r.gn_id as usize) < n_gns {
            let ghost before = lists_view(gn2@);
            gn2[r.gn_id as usize].push(j as u64);
            assert(lists_view(gn2@) =~= before.update(r.gn_id as int, before[r.gn_id as int].push(j as u64)));
        }
        pairs.push((r.id_id, r.gn_id, j as u64));
        assert(pairs@ =~= pair_base(rows@).take(j + 1));
        j = j + 1;
    }
    assert(row_ids(rows@).take(j as int) =~= row_ids(rows@));
    assert(row_gns(rows@).take(j as int) =~= row_gns(rows@));
    assert(pairs@ =~= pair_base(rows@));
    proof {
        lemma_gid_lists(row_ids(rows@), n_ids as nat);
        lemma_gid_lists(row_gns(rows@), n_gns as nat);
    }
    proof {
        crate::sort::lemma_pair_entry_obeys();
    }
    sort_unstable(&mut pairs);
    proof {
        crate::sort::lemma_pair_entry_obeys();
        let c = sorted_pairs(rows@);
        assert(ascending(c) && c.to_multiset() == pair_base(rows@).to_multiset());
        lemma_ascending_unique(c, pairs@);
    }
    let s1 = write_postings_index(file, &id2);
    let s2 = write_postings_index(file, &gn2);
    let s3 = write_pair_index(file, &pairs);
    assert(final(file)@ =~= old(file)@ + spec_indexes(old(file)@.len() as int, rows@, n_ids as nat, n_gns as nat));
    (s1, s2, s3)
}


// ---------------------------------------------------------------- file image

/// Options controlling file emission.
#[derive(Debug, Clone, Copy, PartialEq, Eq, Structural)]
pub struct WriterOptions {
    /// Compress triple blocks using zstd.
    pub zstd: bool,
    /// Compute and embed per-section CRCs (TOC) and a global footer CRC.
    pub with_crc: bool,
}

impl Default for WriterOptions {
    fn default() -> (r: Self)
        ensures
            r == (WriterOptions { zstd: false, with_crc: false }),
    {
        WriterOptions { zstd: false, with_crc: false }
    }
}

/// The 32-byte file header: magic, version 1, flags (bit 1: zstd blocks),
/// creation time 0, TOC offset and entry count, reserved word.
pub open spec fn header_bytes(toc_off: int, toc_len: int, zstd: bool) -> Seq<u8> {
    crate::reader::file_magic() + spec_u16_to_le_bytes(1) + spec_u16_to_le_bytes(if zstd { 2u16 } else { 0u16 })
        + spec_u64_to_le_bytes(0) + spec_u64_to_le_bytes(toc_off as u64) + spec_u32_to_le_bytes(toc_len as u32)
        + spec_u32_to_le_bytes(0)
}

/// The 16-byte footer of `body`: its CRC-32 and the end marker.
pub open spec fn footer_bytes(body: Seq<u8>) -> Seq<u8> {
    spec_u32_to_le_bytes(spec_crc32(body)) + footer_magic()
}

/// The TOC of a written file: the eight sections in writing order.
pub open spec fn toc_layout(d1: int, d2: int, d3: int, tb: int, gd: int, p1: int, p2: int, p3: int) -> Seq<TocEntry> {
    let o1: int = 32;
    let o2 = o1 + d1;
    let o3 = o2 + d2;
    let o4 = o3 + d3;
    let o5 = o4 + tb;
    let o6 = o5 + gd;
    let o7 = o6 + p1;
    let o8 = o7 + p2;
    seq![
        TocEntry { kind: SectionKind::IdDict, section: Section { off: o1 as u64, len: d1 as u64 }, crc32_u32: 0 },
        TocEntry { kind: SectionKind::GNameDict, section: Section { off: o2 as u64, len: d2 as u64 }, crc32_u32: 0 },
        TocEntry { kind: SectionKind::TermDict, section: Section { off: o3 as u64, len: d3 as u64 }, crc32_u32: 0 },
        TocEntry { kind: SectionKind::TripleBlocks, section: Section { off: o4 as u64, len: tb as u64 }, crc32_u32: 0 },
        TocEntry { kind: SectionKind::GDir, section: Section { off: o5 as u64, len: gd as u64 }, crc32_u32: 0 },
        TocEntry { kind: SectionKind::IdxId2Gid, section: Section { off: o6 as u64, len: p1 as u64 }, crc32_u32: 0 },
        TocEntry { kind: SectionKind::IdxGName2Gid, section: Section { off: o7 as u64, len: p2 as u64 }, crc32_u32: 0 },
        TocEntry { kind: SectionKind::IdxPair2Gid, section: Section { off: o8 as u64, len: p3 as u64 }, crc32_u32: 0 },
    ]
}

/// The sections of a file image from interned dictionaries and records
/// sorted by (id, graph name, S, P, O), after 32 header bytes: the id,
/// graph-name and term dictionaries, the triple blocks, the graph
/// directory, the postings and pair indexes; with their TOC entries.
pub open spec fn spec_sections(ids: Seq<Seq<char>>, gns: Seq<Seq<char>>, terms: Seq<TermView>,
    sorted: Seq<Encoded>, zstd: bool) -> Outcome<(Seq<u8>, Seq<TocEntry>)>
{
    let f0 = Seq::new(32, |i: int| 0u8);
    match spec_str_dict(32, ids) {
        None => Outcome::Corrupt,
        Some(d1) => match spec_str_dict((32 + d1.len()) as int, gns) {
            None => Outcome::Corrupt,
            Some(d2) => match spec_term_dict((32 + d1.len() + d2.len()) as int, terms, None) {
                Outcome::Invalid => Outcome::Invalid,
                Outcome::Corrupt => Outcome::Corrupt,
                Outcome::Value(d3) => {
                    let tb_off: int = (32 + d1.len() + d2.len() + d3.len()) as int;
                    match spec_blocks(tb_off, group_runs(sorted), zstd) {
                        None => Outcome::Corrupt,
                        Some((tb, rows)) => {
                            let gd = gdir_bytes(rows);
                            let ix_off: int = tb_off + tb.len() + gd.len();
                            let p1 = postings_section(ix_off, gid_lists(row_ids(rows), ids.len()));
                            let p2 = postings_section(ix_off + p1.len(), gid_lists(row_gns(rows), gns.len()));
                            let p3 = pair_section(ix_off + p1.len() + p2.len(), sorted_pairs(rows));
                            let pre = f0 + d1 + d2 + d3 + tb + gd + (p1 + p2 + p3);
                            let toc = toc_layout(d1.len() as int, d2.len() as int, d3.len() as int, tb.len() as int,
                                gd.len() as int, p1.len() as int, p2.len() as int, p3.len() as int);
                            Outcome::Value((pre, toc))
                        },
                    }
                },
            },
        },
    }
}

/// A finished image: the sections, the TOC (with CRCs when asked), the
/// header over the first 32 bytes, and the footer over all of it.
pub open spec fn spec_finish(pre: Seq<u8>, toc: Seq<TocEntry>, opts: WriterOptions) -> Seq<u8> {
    let full = pre + toc_bytes(pre, toc, opts.with_crc);
    let body = header_bytes(pre.len() as int, toc.len() as int, opts.zstd) + full.subrange(32, full.len() as int);
    body + footer_bytes(body)
}

/// The file image of interned dictionaries and sorted records.
pub open spec fn spec_image_from(ids: Seq<Seq<char>>, gns: Seq<Seq<char>>, terms: Seq<TermView>,
    sorted: Seq<Encoded>, opts: WriterOptions) -> Outcome<Seq<u8>>
{
    match spec_sections(ids, gns, terms, sorted, opts.zstd) {
        Outcome::Invalid => Outcome::Invalid,
        Outcome::Corrupt => Outcome::Corrupt,
        Outcome::Value((pre, toc)) => Outcome::Value(spec_finish(pre, toc, opts)),
    }
}

/// The records of the tuples, sorted by (id, graph name, S, P, O).
pub open spec fn sorted_encoded(qs: Seq<QuintView>) -> Seq<Encoded> {
    choose|e: Seq<Encoded>| ascending(e) && e.to_multiset() == encode_all(qs).to_multiset()
}

/// The file image of a sequence of 5-tuples.
pub open spec fn spec_file_image(qs: Seq<QuintView>, opts: WriterOptions) -> Outcome<Seq<u8>> {
    if dict_ids(qs).len() > u32::MAX || dict_gnames(qs).len() > u32::MAX {
        Outcome::Invalid
    } else {
        spec_image_from(dict_ids(qs), dict_gnames(qs), dict_terms(qs), sorted_encoded(qs), opts)
    }
}

/// `r` is what the outcome `o` calls for: the error kind of `Invalid` or
/// `Corrupt`; for a value, those bytes.
pub open spec fn image_result(r: Result<Vec<u8>, R5Error>, o: Outcome<Seq<u8>>) -> bool {
    match o {
        Outcome::Invalid => r matches Err(e) && e is Invalid,
        Outcome::Corrupt => r matches Err(e) && e is Corrupt,
        Outcome::Value(b) => r matches Ok(x) && x@ == b,
    }
}

fn push_toc_entry(toc: &mut Vec<TocEntry>, kind: SectionKind, section: Section)
    ensures
        final(toc)@ == old(toc)@.push(TocEntry { kind, section, crc32_u32: 0 }),
{
    toc.push(TocEntry { kind, section, crc32_u32: 0 });
}

/// Write the sections after the 32 header bytes, returning their TOC entries.
pub fn write_sections(file: &mut Vec<u8>, ids: &StrInterner, gns: &StrInterner, terms: &TermInterner,
    sorted: &Vec<Encoded>, zstd: bool) -> (r: Result<Vec<TocEntry>, R5Error>)
    requires
        old(file)@ == Seq::new(32, |i: int| 0u8),
        ids@.len() <= u32::MAX,
        gns@.len() <= u32::MAX,
    ensures
        match spec_sections(ids@, gns@, terms@, sorted@, zstd) {
            Outcome::Invalid => r matches Err(e) && e is Invalid,
            Outcome::Corrupt => r matches Err(e) && e is Corrupt,
            Outcome::Value((pre, toc)) => r matches Ok(t) && final(file)@ == pre && t@ == toc,
        },
{
    let mut toc: Vec<TocEntry> = Vec::new();
    let s1 = write_str_dict(file, ids.items())?;
    let s2 = write_str_dict(file, gns.items())?;
    let s3 = write_term_dict(file, terms.items())?;
    let tb_off = file.len();
    let runs = split_runs(sorted);
    let rows = write_blocks(file, &runs, zstd)?;
    let tb = Section { off: tb_off as u64, len: (file.len() - tb_off) as u64 };
    let gd_off = file.len();
    write_gdir_rows(file, &rows);
    let gd = Section { off: gd_off as u64, len: (file.len() - gd_off) as u64 };
    let ghost ix_base = file@.len();
    let (p1, p2, p3) = write_indexes(file, &rows, ids.len(), gns.len());
    let _fl = file.len();
    push_toc_entry(&mut toc, SectionKind::IdDict, s1);
    push_toc_entry(&mut toc, SectionKind::GNameDict, s2);
    push_toc_entry(&mut toc, SectionKind::TermDict, s3);
    push_toc_entry(&mut toc, SectionKind::TripleBlocks, tb);
    push_toc_entry(&mut toc, SectionKind::GDir, gd);
    push_toc_entry(&mut toc, SectionKind::IdxId2Gid, p1);
    push_toc_entry(&mut toc, SectionKind::IdxGName2Gid, p2);
    push_toc_entry(&mut toc, SectionKind::IdxPair2Gid, p3);
    assert(s1.off == 32);
    assert(s2.off == s1.off + s1.len);
    assert(s3.off == s2.off + s2.len);
    assert(tb.off == s3.off + s3.len);
    assert(gd.off == tb.off + tb.len);
    assert(p1.off == gd.off + gd.len);
    assert(p2.off == p1.off + p1.len);
    assert(p3.off == p2.off + p2.len);
    proof {
        assert(toc@ =~= toc_layout(s1.len as int, s2.len as int, s3.len as int, tb.len as int, gd.len as int,
            p1.len as int, p2.len as int, p3.len as int));
    }
    Ok(toc)
}

/// Append the TOC, fill in the header and append the footer.
pub fn finish_file(file: &mut Vec<u8>, toc: &Vec<TocEntry>, opts: WriterOptions)
    requires
        old(file)@.len() >= 32,
        forall|i: int| 0 <= i < toc@.len() ==> #[trigger] toc@[i].section.off + toc@[i].section.len <= old(file)@.len(),
    ensures
        final(file)@ == spec_finish(old(file)@, toc@, opts),
{
    let toc_off = file.len();
    write_toc(file, toc, opts.with_crc);
    let ghost full = file@;
    let mut h: Vec<u8> = Vec::new();
    h.push(0x52u8);
    h.push(0x35u8);
    h.push(0x54u8);
    h.push(0x55u8);
    push_u16(&mut h, 1);
    push_u16(&mut h, if opts.zstd { 2u16 } else { 0u16 });
    push_u64(&mut h, 0);
    push_u64(&mut h, toc_off as u64);
    push_u32(&mut h, #[verifier::truncate] (toc.len() as u32));
    push_u32(&mut h, 0);
    proof {
        vstd::bytes::lemma_auto_spec_u16_to_from_le_bytes();
        vstd::bytes::lemma_auto_spec_u32_to_from_le_bytes();
        vstd::bytes::lemma_auto_spec_u64_to_from_le_bytes();
    }
    assert(h@ =~= header_bytes(toc_off as int, toc@.len() as int, opts.zstd));
    assert(h@.len() == 32);
    let mut i: usize = 0;
    while i < 32
        invariant
            i <= 32,
            h@.len() == 32,
            file@.len() == full.len(),
            full.len() >= 32,
            forall|j: int| 0 <= j < i ==> file@[j] == h@[j],
            forall|j: int| i <= j < full.len() ==> file@[j] == full[j],
        decreases 32 - i,
    {
        file.set(i, h[i]);
        i = i + 1;
    }
    let ghost body = file@;
    assert(body =~= h@ + full.subrange(32, full.len() as int));
    let crc = crc32_ieee(file.as_slice());
    push_u32(file, crc);
    file.push(0x52u8);
    file.push(0x35u8);
    file.push(0x54u8);
    file.push(0x55u8);
    file.push(0x5Fu8);
    file.push(0x45u8);
    file.push(0x4Eu8);
    file.push(0x44u8);
    file.push(0x4Du8);
    file.push(0x41u8);
    file.push(0x52u8);
    file.push(0x4Bu8);
    assert(file@ =~= body + footer_bytes(body));
}

/// Lay out a file image from interned dictionaries and sorted records.
pub fn build_file(ids: &StrInterner, gns: &StrInterner, terms: &TermInterner, sorted: &Vec<Encoded>,
    opts: WriterOptions) -> (r: Result<Vec<u8>, R5Error>)
    requires
        ids@.len() <= u32::MAX,
        gns@.len() <= u32::MAX,
    ensures
        image_result(r, spec_image_from(ids@, gns@, terms@, sorted@, opts)),
{
    let mut file: Vec<u8> = vec![0u8; 32];
    assert(file@ =~= Seq::new(32, |i: int| 0u8));
    let toc = write_sections(&mut file, ids, gns, terms, sorted, opts.zstd)?;
    let _n = file.len();
    proof {
        lemma_sections_within(ids@, gns@, terms@, sorted@, opts.zstd);
    }
    finish_file(&mut file, &toc, opts);
    Ok(file)
}


/// The TOC entries of the sections lie within them, after the header.
proof fn lemma_sections_within(ids: Seq<Seq<char>>, gns: Seq<Seq<char>>, terms: Seq<TermView>,
    sorted: Seq<Encoded>, zstd: bool)
    ensures
        spec_sections(ids, gns, terms, sorted, zstd) matches Outcome::Value((pre, toc)) ==> {
            &&& pre.len() >= 32
            &&& pre.len() <= u64::MAX ==> forall|i: int| 0 <= i < toc.len()
                ==> #[trigger] toc[i].section.off + toc[i].section.len <= pre.len()
        },
{
}


/// The file image of `quads` with explicit options: dictionaries of ids,
/// graph names and terms in order of first occurrence, one triple block per
/// (id, graph name) group in key order with its triples sorted, the graph
/// directory, the postings and pair indexes, the TOC and the footer.
pub fn write_file_with_options(quads: &Vec<Quint>, opts: WriterOptions) -> (r: Result<Vec<u8>, R5Error>)
    ensures
        image_result(r, spec_file_image(quints_view(quads@), opts)),
{
    let ghost qs = quints_view(quads@);
    let (ids, gns, terms, enc) = intern_quads(quads)?;
    let mut sorted = enc;
    proof {
        crate::sort::lemma_encoded_obeys();
    }
    sort_unstable(&mut sorted);
    proof {
        crate::sort::lemma_encoded_obeys();
        let c = sorted_encoded(qs);
        assert(ascending(c) && c.to_multiset() == encode_all(qs).to_multiset());
        lemma_ascending_unique(c, sorted@);
    }
    build_file(&ids, &gns, &terms, &sorted, opts)
}

/// The file image of `quads` with the defaults: raw blocks, with CRCs.
pub fn write_file(quads: &Vec<Quint>) -> (r: Result<Vec<u8>, R5Error>)
    ensures
        image_result(r, spec_file_image(quints_view(quads@), WriterOptions { zstd: false, with_crc: true })),
        r is Ok <==> !(spec_file_image(quints_view(quads@), WriterOptions { zstd: false, with_crc: true }) is Invalid
            || spec_file_image(quints_view(quads@), WriterOptions { zstd: false, with_crc: true }) is Corrupt),
{
    write_file_with_options(quads, WriterOptions { zstd: false, with_crc: true })
}


// ---------------------------------------------------------------- streaming writer

/// Summary statistics from a [`StreamingWriter`] build.
#[derive(Debug, Clone, Copy, PartialEq, Eq, Structural)]
pub struct StreamingWriteStats {
    /// Total number of quads accepted by the writer.
    pub total_quads: usize,
    /// Target chunk size used by the writer.
    pub chunk_quads: usize,
    /// Maximum number of buffered quads held before a spill/finalize flush.
    pub max_pending_quads: usize,
    /// Number of sorted runs spilled.
    pub run_count: usize,
    /// Total bytes of the spilled runs, at 32 bytes per record.
    pub temp_bytes_written: u64,
}

impl Default for StreamingWriteStats {
    fn default() -> (r: Self)
        ensures
            r == (StreamingWriteStats { total_quads: 0, chunk_quads: 0, max_pending_quads: 0, run_count: 0, temp_bytes_written: 0 }),
    {
        StreamingWriteStats { total_quads: 0, chunk_quads: 0, max_pending_quads: 0, run_count: 0, temp_bytes_written: 0 }
    }
}

/// Spill policy controlling when a [`StreamingWriter`] turns pending
/// records into a sorted run.
#[derive(Debug, Clone, Copy, PartialEq, Eq, Structural)]
pub enum SpillPolicy {
    /// Choose a chunk size from the workload hint, bounded to a conservative default range.
    Auto,
    /// Spill once the pending records reach this count.
    MaxPendingQuads(usize),
    /// Spill once the pending records reach roughly this many bytes.
    TargetPendingBytes(usize),
}

impl Default for SpillPolicy {
    fn default() -> (r: Self)
        ensures
            r == SpillPolicy::Auto,
    {
        SpillPolicy::Auto
    }
}

/// Configuration of a [`StreamingWriter`].
#[derive(Debug, Clone, Copy, PartialEq, Eq, Structural)]
pub struct StreamingWriterOptions {
    /// File emission options shared with the batch writer.
    pub writer: WriterOptions,
    /// Spill policy.
    pub spill_policy: SpillPolicy,
}

impl Default for StreamingWriterOptions {
    fn default() -> (r: Self)
        ensures
            r == (StreamingWriterOptions { writer: WriterOptions { zstd: false, with_crc: false }, spill_policy: SpillPolicy::Auto }),
    {
        StreamingWriterOptions { writer: WriterOptions::default(), spill_policy: SpillPolicy::Auto }
    }
}

impl StreamingWriterOptions {
    /// Streaming options from batch writer options, with the automatic spill policy.
    pub fn from_writer_options(writer: WriterOptions) -> (r: Self)
        ensures
            r == (StreamingWriterOptions { writer, spill_policy: SpillPolicy::Auto }),
    {
        StreamingWriterOptions { writer, spill_policy: SpillPolicy::Auto }
    }
}

/// The chunk size for a policy and a workload hint: for `Auto`, 65536 when
/// there is no hint, else the hint clamped to 1024..=65536; for a record
/// count, that count (at least 1); for a byte budget, the budget over 32
/// bytes per record, clamped to 1..=262144.
pub open spec fn spec_chunk_quads(policy: SpillPolicy, n_quads: usize) -> usize {
    match policy {
        SpillPolicy::Auto => if n_quads == 0 {
            65536
        } else if n_quads < 1024 {
            1024
        } else if n_quads > 65536 {
            65536
        } else {
            n_quads
        },
        SpillPolicy::MaxPendingQuads(q) => if q < 1 { 1 } else { q },
        SpillPolicy::TargetPendingBytes(b) => {
            let q = b / 32;
            if q < 1 { 1 } else if q > 262144 { 262144 } else { q }
        },
    }
}

/// The statistics after the pending records are sorted into a run: one
/// more run, and 32 bytes more per record (both saturating); unchanged
/// when nothing is pending.
pub open spec fn stats_after_flush(st: StreamingWriteStats, pending: nat) -> StreamingWriteStats {
    if pending == 0 {
        st
    } else {
        StreamingWriteStats {
            run_count: if st.run_count == usize::MAX { usize::MAX } else { (st.run_count + 1) as usize },
            temp_bytes_written: if st.temp_bytes_written + 32 * pending > u64::MAX {
                u64::MAX
            } else {
                (st.temp_bytes_written + 32 * pending) as u64
            },
            ..st
        }
    }
}

/// The chunk size for a policy and a workload hint.
pub fn resolve_chunk_quads(policy: SpillPolicy, n_quads: usize) -> (r: usize)
    ensures
        r == spec_chunk_quads(policy, n_quads),
{
    match policy {
        SpillPolicy::Auto => {
            let hinted = if n_quads == 0 {
                65536
            } else if n_quads < 1024 {
                1024
            } else if n_quads > 65536 {
                65536
            } else {
                n_quads
            };
            if hinted > 262144 { 262144 } else { hinted }
        },
        SpillPolicy::MaxPendingQuads(q) => if q < 1 { 1 } else { q },
        SpillPolicy::TargetPendingBytes(b) => {
            let q = b / 32;
            if q < 1 { 1 } else if q > 262144 { 262144 } else { q }
        },
    }
}

/// Incremental builder: add 5-tuples, then finalize into a file image.
/// Pending records are sorted into runs every `chunk_quads` records. A run
/// stays in memory until `take_run` hands its bytes out for spilling; the
/// runs handed out are given back to `finalize_with_runs`, which merges
/// them with the runs still held and the pending records.
pub struct StreamingWriter {
    opts: WriterOptions,
    ids: StrInterner,
    gns: StrInterner,
    terms: TermInterner,
    pending: Vec<Encoded>,
    runs: Vec<Vec<Encoded>>,
    chunk_quads: usize,
    stats: StreamingWriteStats,
    added: Ghost<Seq<QuintView>>,
    spilled: Ghost<Seq<Seq<Encoded>>>,
    spilled_any: bool,
}

/// All records of runs given as sequences, in order.
pub open spec fn seqs_records(runs: Seq<Seq<Encoded>>) -> Seq<Encoded>
    decreases runs.len(),
{
    if runs.len() == 0 {
        seq![]
    } else {
        seqs_records(runs.drop_last()) + runs.last()
    }
}

/// All records of the runs, in order.
pub open spec fn runs_records(runs: Seq<Vec<Encoded>>) -> Seq<Encoded>
    decreases runs.len(),
{
    if runs.len() == 0 {
        seq![]
    } else {
        runs_records(runs.drop_last()) + runs.last()@
    }
}

impl StreamingWriter {
    /// The tuples added so far.
    pub closed spec fn quads(&self) -> Seq<QuintView> {
        self.added@
    }

    /// The file options.
    pub closed spec fn options(&self) -> WriterOptions {
        self.opts
    }

    /// The statistics so far.
    pub closed spec fn stats_view(&self) -> StreamingWriteStats {
        self.stats
    }

    /// Number of records pending (not yet in a run).
    pub closed spec fn pending_len(&self) -> nat {
        self.pending@.len()
    }

    /// The chunk size.
    pub closed spec fn chunk(&self) -> usize {
        self.chunk_quads
    }

    /// Whether some records were already sorted into runs.
    pub closed spec fn has_runs(&self) -> bool {
        self.runs@.len() > 0 || self.spilled_any
    }

    /// The number of sorted runs held in memory.
    pub closed spec fn held_runs(&self) -> nat {
        self.runs@.len()
    }

    /// The bytes of the runs handed out for spilling, in order.
    pub closed spec fn spilled(&self) -> Seq<Seq<u8>> {
        self.spilled@.map_values(|r: Seq<Encoded>| run_bytes(r))
    }

    /// Internal consistency: the dictionaries are those of the added
    /// tuples, and the records, pending and spilled, are their encodings.
    pub closed spec fn wf(&self) -> bool {
        let q = self.added@;
        &&& self.ids@ == dict_ids(q) && self.ids.wf()
        &&& self.gns@ == dict_gnames(q) && self.gns.wf()
        &&& self.terms@ == dict_terms(q) && self.terms.wf()
        &&& self.ids@.len() <= u32::MAX && self.gns@.len() <= u32::MAX
        &&& seqs_records(self.spilled@).to_multiset().add((runs_records(self.runs@) + self.pending@).to_multiset())
            == encode_all(q).to_multiset()
        &&& self.spilled_any == (self.spilled@.len() > 0)
        &&& self.chunk_quads >= 1
        &&& self.stats.chunk_quads == self.chunk_quads
        &&& self.stats.total_quads == q.len()
    }
}


/// In a duplicate-free sequence extending `d`, a value of `d` keeps its index.
pub proof fn lemma_index_in_prefix<T>(d: Seq<T>, d2: Seq<T>, v: T)
    requires
        no_dups(d2),
        d.is_prefix_of(d2),
        d.contains(v),
    ensures
        index_in(d2, v) == index_in(d, v),
        0 <= index_in(d, v) < d.len(),
{
    let i = index_in(d, v);
    assert(0 <= i < d.len() && d[i] == v);
    assert(d2[i] == v);
    crate::termdict::lemma_index_in_unique(d2, i, v);
}

pub(crate) proof fn lemma_quint_terms_at(qs: Seq<QuintView>, j: int)
    requires
        0 <= j < qs.len(),
    ensures
        quint_terms(qs).len() == 3 * qs.len(),
        quint_terms(qs)[3 * j] == qs[j].s,
        quint_terms(qs)[3 * j + 1] == qs[j].p,
        quint_terms(qs)[3 * j + 2] == qs[j].o,
    decreases qs.len(),
{
    lemma_quint_terms_len(qs);
    if j < qs.len() - 1 {
        lemma_quint_terms_at(qs.drop_last(), j);
        assert(qs.drop_last()[j] == qs[j]);
    }
}

/// Adding a tuple keeps the encodings of the earlier ones and appends its own.
pub proof fn lemma_encode_extend(qs: Seq<QuintView>, x: QuintView)
    ensures
        encode_all(qs.push(x)) == encode_all(qs).push(encode_quint(qs.push(x), x)),
{
    let q2 = qs.push(x);
    assert(quint_ids(q2).drop_last() =~= quint_ids(qs));
    assert(quint_gnames(q2).drop_last() =~= quint_gnames(qs));
    assert(q2.drop_last() =~= qs);
    let t0 = quint_terms(qs);
    let t3 = quint_terms(q2);
    assert(t3 == t0 + seq![x.s, x.p, x.o]);
    assert(t3.drop_last().drop_last().drop_last() =~= t0);
    crate::intern::lemma_distinct_in_order(quint_ids(q2));
    crate::intern::lemma_distinct_in_order(quint_gnames(q2));
    crate::intern::lemma_distinct_in_order(t3);
    crate::intern::lemma_distinct_in_order(quint_ids(qs));
    crate::intern::lemma_distinct_in_order(quint_gnames(qs));
    crate::intern::lemma_distinct_in_order(t0);
    lemma_distinct_prefix(quint_ids(q2), qs.len() as int);
    lemma_distinct_prefix(quint_gnames(q2), qs.len() as int);
    lemma_quint_terms_len(qs);
    lemma_quint_terms_len(q2);
    lemma_distinct_prefix(t3, (3 * qs.len()) as int);
    assert(quint_ids(q2).take(qs.len() as int) =~= quint_ids(qs));
    assert(quint_gnames(q2).take(qs.len() as int) =~= quint_gnames(qs));
    assert(t3.take((3 * qs.len()) as int) =~= t0);
    assert forall|j: int| 0 <= j < qs.len() implies #[trigger] encode_quint(q2, qs[j]) == encode_quint(qs, qs[j]) by {
        assert(quint_ids(qs)[j] == qs[j].id);
        assert(quint_gnames(qs)[j] == qs[j].gname);
        lemma_quint_terms_at(qs, j);
        lemma_index_in_prefix(dict_ids(qs), dict_ids(q2), qs[j].id);
        lemma_index_in_prefix(dict_gnames(qs), dict_gnames(q2), qs[j].gname);
        lemma_index_in_prefix(dict_terms(qs), dict_terms(q2), qs[j].s);
        lemma_index_in_prefix(dict_terms(qs), dict_terms(q2), qs[j].p);
        lemma_index_in_prefix(dict_terms(qs), dict_terms(q2), qs[j].o);
    }
    assert(encode_all(q2) =~= encode_all(qs).push(encode_quint(q2, x)));
}

impl StreamingWriter {
    fn build(opts: WriterOptions, chunk_quads: usize) -> (w: Self)
        requires
            chunk_quads >= 1,
        ensures
            w.wf(),
            w.quads() == Seq::<QuintView>::empty(),
            w.spilled() == Seq::<Seq<u8>>::empty(),
            w.options() == opts,
            w.chunk() == chunk_quads,
            w.pending_len() == 0,
            w.stats_view() == (StreamingWriteStats { total_quads: 0, chunk_quads, max_pending_quads: 0, run_count: 0, temp_bytes_written: 0 }),
    {
        let w = StreamingWriter {
            opts,
            ids: StrInterner::new(),
            gns: StrInterner::new(),
            terms: TermInterner::new(),
            pending: Vec::new(),
            runs: Vec::new(),
            chunk_quads,
            stats: StreamingWriteStats { total_quads: 0, chunk_quads, max_pending_quads: 0, run_count: 0, temp_bytes_written: 0 },
            added: Ghost(Seq::<QuintView>::empty()),
            spilled: Ghost(Seq::<Seq<Encoded>>::empty()),
            spilled_any: false,
        };
        proof {
            let q = Seq::<QuintView>::empty();
            assert(quint_ids(q) =~= Seq::<Seq<char>>::empty());
            assert(quint_gnames(q) =~= Seq::<Seq<char>>::empty());
            assert(encode_all(q) =~= Seq::<Encoded>::empty());
            assert(runs_records(w.runs@) + w.pending@ =~= Seq::<Encoded>::empty());
            assert(seqs_records(w.spilled@) =~= Seq::<Encoded>::empty());
            assert(w.spilled() =~= Seq::<Seq<u8>>::empty());
            broadcast use vstd::seq_lib::group_to_multiset_ensures;
            assert(seqs_records(w.spilled@).to_multiset() =~= vstd::multiset::Multiset::<Encoded>::empty());
            assert(seqs_records(w.spilled@).to_multiset().add((runs_records(w.runs@) + w.pending@).to_multiset())
                =~= encode_all(q).to_multiset());
        }
        w
    }

    /// A streaming writer with `opts` and the automatic spill policy.
    pub fn new(opts: WriterOptions) -> (w: Self)
        ensures
            w.wf(),
            w.quads() == Seq::<QuintView>::empty(),
            w.spilled() == Seq::<Seq<u8>>::empty(),
            w.options() == opts,
            w.chunk() == spec_chunk_quads(SpillPolicy::Auto, 0),
            w.stats_view() == (StreamingWriteStats { total_quads: 0, chunk_quads: w.chunk(), max_pending_quads: 0,
                run_count: 0, temp_bytes_written: 0 }),
    {
        Self::with_options(StreamingWriterOptions::from_writer_options(opts))
    }

    /// A streaming writer with explicit streaming options.
    pub fn with_options(opts: StreamingWriterOptions) -> (w: Self)
        ensures
            w.wf(),
            w.quads() == Seq::<QuintView>::empty(),
            w.spilled() == Seq::<Seq<u8>>::empty(),
            w.options() == opts.writer,
            w.chunk() == spec_chunk_quads(opts.spill_policy, 0),
            w.stats_view() == (StreamingWriteStats { total_quads: 0, chunk_quads: w.chunk(), max_pending_quads: 0,
                run_count: 0, temp_bytes_written: 0 }),
    {
        Self::with_options_and_hint(opts, 0)
    }

    /// A streaming writer for about `n_quads` tuples, with the automatic policy.
    pub fn with_capacity(opts: WriterOptions, n_quads: usize) -> (w: Self)
        ensures
            w.wf(),
            w.quads() == Seq::<QuintView>::empty(),
            w.spilled() == Seq::<Seq<u8>>::empty(),
            w.options() == opts,
            w.chunk() == spec_chunk_quads(SpillPolicy::Auto, n_quads),
            w.stats_view() == (StreamingWriteStats { total_quads: 0, chunk_quads: w.chunk(), max_pending_quads: 0,
                run_count: 0, temp_bytes_written: 0 }),
    {
        Self::with_options_and_hint(StreamingWriterOptions::from_writer_options(opts), n_quads)
    }

    /// A streaming writer with explicit options and a workload hint.
    pub fn with_options_and_hint(opts: StreamingWriterOptions, n_quads: usize) -> (w: Self)
        ensures
            w.wf(),
            w.quads() == Seq::<QuintView>::empty(),
            w.spilled() == Seq::<Seq<u8>>::empty(),
            w.options() == opts.writer,
            w.chunk() == spec_chunk_quads(opts.spill_policy, n_quads),
            w.stats_view() == (StreamingWriteStats { total_quads: 0, chunk_quads: w.chunk(), max_pending_quads: 0,
                run_count: 0, temp_bytes_written: 0 }),
    {
        let chunk = resolve_chunk_quads(opts.spill_policy, n_quads);
        Self::build(opts.writer, chunk)
    }

    /// A streaming writer with an explicit chunk size (at least 1).
    pub fn with_chunk_capacity(opts: WriterOptions, n_quads: usize, chunk_quads: usize) -> (w: Self)
        ensures
            w.wf(),
            w.quads() == Seq::<QuintView>::empty(),
            w.spilled() == Seq::<Seq<u8>>::empty(),
            w.options() == opts,
            w.chunk() == (if chunk_quads < 1 { 1 } else { chunk_quads }),
            w.stats_view() == (StreamingWriteStats { total_quads: 0, chunk_quads: w.chunk(), max_pending_quads: 0,
                run_count: 0, temp_bytes_written: 0 }),
    {
        let _ = n_quads;
        Self::build(opts, if chunk_quads < 1 { 1 } else { chunk_quads })
    }

    /// The statistics so far.
    pub fn stats(&self) -> (r: StreamingWriteStats)
        ensures
            r == self.stats_view(),
    {
        self.stats
    }

    /// Sort the pending records into a run.
    fn flush_run(&mut self)
        requires
            old(self).wf(),
        ensures
            final(self).wf(),
            final(self).quads() == old(self).quads(),
            final(self).options() == old(self).options(),
            final(self).chunk() == old(self).chunk(),
            final(self).pending_len() == 0,
            final(self).spilled() == old(self).spilled(),
            final(self).has_runs() == (old(self).has_runs() || old(self).pending_len() > 0),
            old(self).pending_len() == 0 ==> final(self).stats_view() == old(self).stats_view(),
            old(self).pending_len() > 0 ==> final(self).stats_view() == (StreamingWriteStats {
                run_count: if old(self).stats_view().run_count == usize::MAX { usize::MAX } else { (old(self).stats_view().run_count + 1) as usize },
                temp_bytes_written: if old(self).stats_view().temp_bytes_written + 32 * old(self).pending_len() > u64::MAX {
                    u64::MAX
                } else {
                    (old(self).stats_view().temp_bytes_written + 32 * old(self).pending_len()) as u64
                },
                ..old(self).stats_view()
            }),
    {
        if self.pending.len() == 0 {
            return;
        }
        let n = self.pending.len();
        let mut run: Vec<Encoded> = Vec::new();
        std::mem::swap(&mut run, &mut self.pending);
        proof {
            crate::sort::lemma_encoded_obeys();
        }
        sort_unstable(&mut run);
        let ghost before = runs_records(self.runs@);
        self.runs.push(run);
        proof {
            broadcast use vstd::seq_lib::group_to_multiset_ensures;
            assert(self.runs@.drop_last() =~= old(self).runs@);
            vstd::seq_lib::lemma_multiset_commutative(before, run@);
            vstd::seq_lib::lemma_multiset_commutative(before, old(self).pending@);
            assert(runs_records(self.runs@) + self.pending@ =~= before + run@);
        }
        self.stats.run_count = self.stats.run_count.saturating_add(1);
        let bytes: u128 = n as u128 * 32;
        let total: u128 = self.stats.temp_bytes_written as u128 + bytes;
        self.stats.temp_bytes_written = if total > 0xffff_ffff_ffff_ffff { 0xffff_ffff_ffff_ffff } else { total as u64 };
    }
}


/// The statistics after one more tuple, given `p` records pending after it.
pub open spec fn stats_after_add(st: StreamingWriteStats, p: nat, chunk: usize) -> StreamingWriteStats {
    let max_p = if st.max_pending_quads >= p { st.max_pending_quads } else { p as usize };
    let st1 = StreamingWriteStats { total_quads: (st.total_quads + 1) as usize, max_pending_quads: max_p, ..st };
    if p >= chunk {
        StreamingWriteStats {
            run_count: if st1.run_count == usize::MAX { usize::MAX } else { (st1.run_count + 1) as usize },
            temp_bytes_written: if st1.temp_bytes_written + 32 * p > u64::MAX {
                u64::MAX
            } else {
                (st1.temp_bytes_written + 32 * p) as u64
            },
            ..st1
        }
    } else {
        st1
    }
}

/// Adding `q` would need more ids or graph names than `u32` numbers, or
/// the count of tuples would overflow.
/// The statistics of a fresh writer with chunk size `chunk`.
pub open spec fn fresh_stats(chunk: usize) -> StreamingWriteStats {
    StreamingWriteStats { total_quads: 0, chunk_quads: chunk, max_pending_quads: 0, run_count: 0, temp_bytes_written: 0 }
}

/// The statistics and the number of pending records after `n` accepted
/// adds to a fresh writer with chunk size `chunk`, as `add` states them
/// one add at a time.
pub open spec fn stats_after_adds(chunk: usize, n: nat) -> (StreamingWriteStats, nat)
    decreases n,
{
    if n == 0 {
        (fresh_stats(chunk), 0)
    } else {
        let (st, p) = stats_after_adds(chunk, (n - 1) as nat);
        let q = p + 1;
        (stats_after_add(st, q, chunk), if q >= chunk { 0 } else { q })
    }
}

/// One more record, in quotient and remainder.
proof fn lemma_div_mod_step(a: int, c: int)
    requires
        a >= 0,
        c >= 1,
    ensures
        a % c + 1 <= c,
        a % c + 1 == c ==> (a + 1) % c == 0 && (a + 1) / c == a / c + 1,
        a % c + 1 < c ==> (a + 1) % c == a % c + 1 && (a + 1) / c == a / c,
        c * ((a + 1) / c) <= a + 1,
        (a + 1) / c <= a + 1,
{
    vstd::arithmetic::div_mod::lemma_fundamental_div_mod(a, c);
    vstd::arithmetic::div_mod::lemma_fundamental_div_mod(a + 1, c);
    vstd::arithmetic::div_mod::lemma_mod_pos_bound(a, c);
    vstd::arithmetic::div_mod::lemma_mod_pos_bound(a + 1, c);
    if a % c + 1 == c {
        assert(a + 1 == (a / c + 1) * c + 0) by (nonlinear_arith)
            requires a == c * (a / c) + a % c, a % c + 1 == c;
        vstd::arithmetic::div_mod::lemma_fundamental_div_mod_converse(a + 1, c, a / c + 1, 0);
    } else {
        assert(a + 1 == (a / c) * c + (a % c + 1)) by (nonlinear_arith)
            requires a == c * (a / c) + a % c;
        vstd::arithmetic::div_mod::lemma_fundamental_div_mod_converse(a + 1, c, a / c, a % c + 1);
    }
    assert(c * ((a + 1) / c) <= a + 1) by (nonlinear_arith)
        requires a + 1 == c * ((a + 1) / c) + (a + 1) % c, (a + 1) % c >= 0;
    assert((a + 1) / c <= c * ((a + 1) / c)) by (nonlinear_arith)
        requires c >= 1, (a + 1) / c >= 0;
}

/// The run cadence of the streaming writer: after `n` accepted adds to a
/// fresh writer with chunk size `chunk`, a run was cut every `chunk`
/// records, so `n % chunk` records are pending, `n / chunk` runs were cut
/// holding 32 bytes per record, the total is `n`, and the most records
/// ever pending is the smaller of `n` and `chunk`. Stated while the counts
/// fit their fields (no saturation).
#[verifier::spinoff_prover]
#[verifier::rlimit(30)]
pub proof fn lemma_stream_cadence(chunk: usize, n: nat)
    requires
        chunk >= 1,
        n <= usize::MAX,
        32 * n <= u64::MAX,
    ensures
        stats_after_adds(chunk, n).1 == (n as int) % (chunk as int),
        stats_after_adds(chunk, n).0 == (StreamingWriteStats {
            total_quads: n as usize,
            chunk_quads: chunk,
            max_pending_quads: (if n < chunk { n } else { chunk as nat }) as usize,
            run_count: ((n as int) / (chunk as int)) as usize,
            temp_bytes_written: (32 * chunk * ((n as int) / (chunk as int))) as u64,
        }),
    decreases n,
{
    let c = chunk as int;
    let want = StreamingWriteStats {
        total_quads: n as usize,
        chunk_quads: chunk,
        max_pending_quads: (if n < chunk { n } else { chunk as nat }) as usize,
        run_count: ((n as int) / c) as usize,
        temp_bytes_written: (32 * chunk * ((n as int) / c)) as u64,
    };
    if n == 0 {
        vstd::arithmetic::div_mod::lemma_small_mod(0nat, chunk as nat);
        vstd::arithmetic::div_mod::lemma_basic_div(0int, c);
        assert(32 * chunk * 0int == 0) by (nonlinear_arith);
        assert(stats_after_adds(chunk, n).0 == want);
    } else {
        let a = (n - 1) as nat;
        let ai = a as int;
        lemma_stream_cadence(chunk, a);
        lemma_div_mod_step(ai, c);
        let (st, p) = stats_after_adds(chunk, a);
        assert(p == ai % c);
        if a < chunk {
            vstd::arithmetic::div_mod::lemma_small_mod(a, chunk as nat);
            vstd::arithmetic::div_mod::lemma_basic_div(ai, c);
        }
        vstd::arithmetic::div_mod::lemma_fundamental_div_mod(ai, c);
        vstd::arithmetic::div_mod::lemma_mod_pos_bound(ai, c);
        assert(32 * c * ((ai + 1) / c) <= 32 * (ai + 1)) by (nonlinear_arith)
            requires c * ((ai + 1) / c) <= ai + 1;
        assert(32 * c * (ai / c) + 32 * c == 32 * c * (ai / c + 1)) by (nonlinear_arith);
        assert(ai / c <= ai) by (nonlinear_arith)
            requires c >= 1, ai >= 0, ai == c * (ai / c) + ai % c, ai % c >= 0;
        assert(32 * c * (ai / c) >= 0) by (nonlinear_arith)
            requires c >= 1, ai / c >= 0;
        assert(ai / c >= 0) by (nonlinear_arith) requires c >= 1, ai >= 0;
        let q = p + 1;
        let s2 = stats_after_adds(chunk, n).0;
        assert(s2 == stats_after_add(st, q, chunk));
        assert(s2.total_quads == n as usize);
        assert(s2.chunk_quads == chunk);
        assert(s2.max_pending_quads == (if n < chunk { n } else { chunk as nat }) as usize);
        assert(s2.run_count == ((n as int) / c) as usize);
        assert(s2.temp_bytes_written == (32 * chunk * ((n as int) / c)) as u64);
        assert(s2 == want);
    }
}

pub open spec fn add_overflows(qs: Seq<QuintView>, q: QuintView, total: usize) -> bool {
    dict_ids(qs.push(q)).len() > u32::MAX || dict_gnames(qs.push(q)).len() > u32::MAX || total == usize::MAX
}

/// All records of the runs, in one vector.
fn concat_runs(runs: &Vec<Vec<Encoded>>) -> (r: Vec<Encoded>)
    ensures
        r@ == runs_records(runs@),
{
    let mut out: Vec<Encoded> = Vec::new();
    let mut k: usize = 0;
    assert(runs@.take(0) =~= Seq::<Vec<Encoded>>::empty());
    while k < runs.len()
        invariant
            k <= runs@.len(),
            out@ == runs_records(runs@.take(k as int)),
        decreases runs@.len() - k,
    {
        assert(runs@.take(k + 1).drop_last() =~= runs@.take(k as int));
        let ghost before = out@;
        let run = &runs[k];
        let mut i: usize = 0;
        while i < run.len()
            invariant
                i <= run@.len(),
                out@ == before + run@.take(i as int),
            decreases run@.len() - i,
        {
            out.push(run[i]);
            assert(run@.take(i + 1) =~= run@.take(i as int).push(run@[i as int]));
            i = i + 1;
        }
        assert(run@.take(i as int) =~= run@);
        k = k + 1;
    }
    assert(runs@.take(k as int) =~= runs@);
    out
}

impl StreamingWriter {
    /// Add one 5-tuple: intern its strings and terms and record it,
    /// spilling the pending records into a sorted run at the chunk size.
    /// Fails, leaving the writer as it was, when ids or graph names would
    /// outgrow `u32` or the tuple count would overflow.
    pub fn add(&mut self, q: Quint) -> (r: Result<(), R5Error>)
        requires
            old(self).wf(),
        ensures
            final(self).wf(),
            final(self).options() == old(self).options(),
            final(self).chunk() == old(self).chunk(),
            final(self).spilled() == old(self).spilled(),
            add_overflows(old(self).quads(), q@, old(self).stats_view().total_quads) ==> {
                &&& r matches Err(e) && e is Invalid
                &&& final(self).quads() == old(self).quads()
                &&& final(self).stats_view() == old(self).stats_view()
                &&& final(self).pending_len() == old(self).pending_len()
            },
            !add_overflows(old(self).quads(), q@, old(self).stats_view().total_quads) ==> {
                let p = old(self).pending_len() + 1;
                &&& r is Ok
                &&& final(self).quads() == old(self).quads().push(q@)
                &&& final(self).stats_view() == stats_after_add(old(self).stats_view(), p, old(self).chunk())
                &&& final(self).pending_len() == (if p >= old(self).chunk() { 0 } else { p })
            },
    {
        let ghost qs = self.added@;
        let ghost q2 = qs.push(q@);
        proof {
            assert(quint_ids(q2).drop_last() =~= quint_ids(qs));
            assert(quint_gnames(q2).drop_last() =~= quint_gnames(qs));
            assert(q2.drop_last() =~= qs);
            crate::intern::lemma_intern_view(self.ids@, q.id@);
            crate::intern::lemma_intern_view(self.gns@, q.gname@);
        }
        let new_id = self.ids.find(q.id.as_str()).is_none();
        let new_gn = self.gns.find(q.gname.as_str()).is_none();
        if (new_id && self.ids.len() >= 0xffff_ffff) || (new_gn && self.gns.len() >= 0xffff_ffff)
            || self.stats.total_quads == usize::MAX {
            return Err(R5Error::Invalid("too many distinct ids or graph names"));
        }
        let a = self.ids.intern(q.id.as_str());
        let b = self.gns.intern(q.gname.as_str());
        let ghost terms0 = self.terms@;
        let s = self.terms.intern(&q.s);
        let p = self.terms.intern(&q.p);
        let o = self.terms.intern(&q.o);
        let rec: Encoded = (a as u32, b as u32, s as u64, p as u64, o as u64);
        let ghost pend0 = self.pending@;
        self.pending.push(rec);
        self.added = Ghost(q2);
        proof {
            let t0 = quint_terms(qs);
            let t3 = quint_terms(q2);
            assert(t3 == t0 + seq![q.s@, q.p@, q.o@]);
            assert(t3.drop_last().drop_last().drop_last() =~= t0);
            assert(t3.drop_last().drop_last() =~= t0.push(q.s@));
            assert(t3.drop_last() =~= t0.push(q.s@).push(q.p@));
            assert(distinct_in_order(t3) == intern_view(distinct_in_order(t3.drop_last()), q.o@));
            assert(distinct_in_order(t3.drop_last()) == intern_view(distinct_in_order(t3.drop_last().drop_last()), q.p@));
            assert(distinct_in_order(t3.drop_last().drop_last()) == intern_view(distinct_in_order(t0), q.s@));
            crate::intern::lemma_intern_view(terms0, q.s@);
            crate::intern::lemma_intern_view(intern_view(terms0, q.s@), q.p@);
            crate::intern::lemma_intern_view(intern_view(intern_view(terms0, q.s@), q.p@), q.o@);
            crate::termdict::lemma_index_in_unique(self.ids@, a as int, q.id@);
            crate::termdict::lemma_index_in_unique(self.gns@, b as int, q.gname@);
            crate::termdict::lemma_index_in_unique(self.terms@, s as int, q.s@);
            crate::termdict::lemma_index_in_unique(self.terms@, p as int, q.p@);
            crate::termdict::lemma_index_in_unique(self.terms@, o as int, q.o@);
            assert(rec == encode_quint(q2, q@));
            lemma_encode_extend(qs, q@);
            broadcast use vstd::seq_lib::group_to_multiset_ensures;
            assert(runs_records(self.runs@) + self.pending@ =~= (runs_records(self.runs@) + pend0).push(rec));
            let sm = seqs_records(self.spilled@).to_multiset();
            let x0 = (runs_records(self.runs@) + pend0).to_multiset();
            assert(sm.add(x0.insert(rec)) =~= sm.add(x0).insert(rec));
        }
        self.stats.total_quads = self.stats.total_quads + 1;
        let n = self.pending.len();
        if n > self.stats.max_pending_quads {
            self.stats.max_pending_quads = n;
        }
        if n >= self.chunk_quads {
            self.flush_run();
        }
        Ok(())
    }

    /// Hand out the most recent sorted run held in memory, as the bytes to
    /// spill, and forget it here; `None` when no run is held. What was
    /// handed out is given back to `finalize_with_runs`.
    pub fn take_run(&mut self) -> (r: Option<Vec<u8>>)
        requires
            old(self).wf(),
        ensures
            final(self).wf(),
            final(self).quads() == old(self).quads(),
            final(self).options() == old(self).options(),
            final(self).chunk() == old(self).chunk(),
            final(self).stats_view() == old(self).stats_view(),
            final(self).pending_len() == old(self).pending_len(),
            final(self).has_runs() == old(self).has_runs(),
            r is Some <==> old(self).held_runs() > 0,
            r matches Some(b) ==> final(self).spilled() == old(self).spilled().push(b@)
                && final(self).held_runs() == old(self).held_runs() - 1,
            r is None ==> final(self).spilled() == old(self).spilled(),
    {
        match self.runs.pop() {
            None => None,
            Some(run) => {
                let bytes = encode_run(&run);
                let ghost s0 = self.spilled@;
                self.spilled = Ghost(s0.push(run@));
                self.spilled_any = true;
                proof {
                    broadcast use vstd::seq_lib::group_to_multiset_ensures;
                    let sr = seqs_records(s0);
                    let rr = runs_records(self.runs@);
                    let pp = self.pending@;
                    assert(old(self).runs@.drop_last() =~= self.runs@);
                    assert(runs_records(old(self).runs@) == rr + run@);
                    assert(self.spilled@.drop_last() =~= s0);
                    assert(seqs_records(self.spilled@) == sr + run@);
                    vstd::seq_lib::lemma_multiset_commutative(sr, run@);
                    vstd::seq_lib::lemma_multiset_commutative(rr, pp);
                    vstd::seq_lib::lemma_multiset_commutative(rr + run@, pp);
                    vstd::seq_lib::lemma_multiset_commutative(rr, run@);
                    assert(sr.to_multiset().add(run@.to_multiset()).add(rr.to_multiset().add(pp.to_multiset()))
                        =~= sr.to_multiset().add(rr.to_multiset().add(run@.to_multiset()).add(pp.to_multiset())));
                    assert(self.spilled() =~= old(self).spilled().push(bytes@));
                }
                Some(bytes)
            },
        }
    }

    /// Finish building from the runs handed out by `take_run`, given back
    /// in the order they were handed out: the file image of all added
    /// tuples (the same as the batch writer's for them) and the
    /// statistics; the records still pending form one more run.
    pub fn finalize_with_runs(self, spilled: &Vec<Vec<u8>>) -> (r: Result<(Vec<u8>, StreamingWriteStats), R5Error>)
        requires
            self.wf(),
            spilled@.len() == self.spilled().len(),
            forall|k: int| 0 <= k < spilled@.len() ==> #[trigger] spilled@[k]@ == self.spilled()[k],
        ensures
            match spec_file_image(self.quads(), self.options()) {
                Outcome::Invalid => r matches Err(e) && e is Invalid,
                Outcome::Corrupt => r matches Err(e) && e is Corrupt,
                Outcome::Value(b) => r matches Ok((x, _)) && x@ == b,
            },
            r matches Ok((_, st)) ==> st == (if self.has_runs() {
                stats_after_flush(self.stats_view(), self.pending_len())
            } else {
                self.stats_view()
            }),
    {
        let mut w = self;
        let ghost qs = w.added@;
        if w.runs.len() > 0 || w.spilled_any {
            w.flush_run();
        }
        let ghost sp = w.spilled@;
        assert(forall|j: int| 0 <= j < spilled@.len() ==> #[trigger] spilled@[j]@ == run_bytes(sp[j])) by {
            assert(forall|j: int| 0 <= j < sp.len() ==> #[trigger] w.spilled()[j] == run_bytes(sp[j]));
        }
        // the spilled runs, read back
        let mut all: Vec<Encoded> = Vec::new();
        let mut k: usize = 0;
        while k < spilled.len()
            invariant
                k <= spilled@.len(),
                spilled@.len() == sp.len(),
                forall|j: int| 0 <= j < spilled@.len() ==> #[trigger] spilled@[j]@ == run_bytes(sp[j]),
                all@ == seqs_records(sp.take(k as int)),
            decreases spilled@.len() - k,
        {
            proof {
                lemma_decode_run(sp[k as int]);
            }
            let ghost before = all@;
            match decode_run(&spilled[k]) {
                Some(v) => {
                    let mut j: usize = 0;
                    while j < v.len()
                        invariant
                            j <= v@.len(),
                            all@ == before + v@.take(j as int),
                        decreases v@.len() - j,
                    {
                        all.push(v[j]);
                        assert(v@.take(j + 1) =~= v@.take(j as int).push(v@[j as int]));
                        j = j + 1;
                    }
                    assert(v@.take(v@.len() as int) =~= v@);
                    assert(sp.take(k + 1).drop_last() =~= sp.take(k as int));
                },
                None => {
                    assert(false);
                },
            }
            k = k + 1;
        }
        assert(sp.take(sp.len() as int) =~= sp);
        // the runs held in memory and the pending records
        let rest = concat_runs(&w.runs);
        let ghost s_part = all@;
        let mut i: usize = 0;
        while i < rest.len()
            invariant
                i <= rest@.len(),
                all@ == s_part + rest@.take(i as int),
            decreases rest@.len() - i,
        {
            all.push(rest[i]);
            assert(rest@.take(i + 1) =~= rest@.take(i as int).push(rest@[i as int]));
            i = i + 1;
        }
        assert(rest@.take(i as int) =~= rest@);
        let ghost base = all@;
        let mut i: usize = 0;
        while i < w.pending.len()
            invariant
                i <= w.pending@.len(),
                all@ == base + w.pending@.take(i as int),
            decreases w.pending@.len() - i,
        {
            all.push(w.pending[i]);
            assert(w.pending@.take(i + 1) =~= w.pending@.take(i as int).push(w.pending@[i as int]));
            i = i + 1;
        }
        assert(w.pending@.take(i as int) =~= w.pending@);
        proof {
            let rp = runs_records(w.runs@) + w.pending@;
            assert(all@ =~= s_part + rp);
            vstd::seq_lib::lemma_multiset_commutative(s_part, rp);
            assert(s_part == seqs_records(w.spilled@));
            assert(w.added@ == qs);
            assert(all@.to_multiset() == encode_all(qs).to_multiset());
            crate::sort::lemma_encoded_obeys();
        }
        sort_unstable(&mut all);
        proof {
            crate::sort::lemma_encoded_obeys();
            let c = sorted_encoded(qs);
            assert(ascending(c) && c.to_multiset() == encode_all(qs).to_multiset());
            lemma_ascending_unique(c, all@);
        }
        let bytes = build_file(&w.ids, &w.gns, &w.terms, &all, w.opts)?;
        Ok((bytes, w.stats))
    }

    /// Finish building when no run was handed out: the file image of all
    /// added tuples (the same as the batch writer's for them) and the
    /// statistics.
    pub fn finalize_with_stats(self) -> (r: Result<(Vec<u8>, StreamingWriteStats), R5Error>)
        requires
            self.wf(),
            self.spilled().len() == 0,
        ensures
            match spec_file_image(self.quads(), self.options()) {
                Outcome::Invalid => r matches Err(e) && e is Invalid,
                Outcome::Corrupt => r matches Err(e) && e is Corrupt,
                Outcome::Value(b) => r matches Ok((x, _)) && x@ == b,
            },
            r matches Ok((_, st)) ==> st == (if self.has_runs() {
                stats_after_flush(self.stats_view(), self.pending_len())
            } else {
                self.stats_view()
            }),
    {
        let none: Vec<Vec<u8>> = Vec::new();
        self.finalize_with_runs(&none)
    }

    /// Finish building: the file image of all added tuples.
    pub fn finalize(self) -> (r: Result<Vec<u8>, R5Error>)
        requires
            self.wf(),
            self.spilled().len() == 0,
        ensures
            image_result(r, spec_file_image(self.quads(), self.options())),
    {
        match self.finalize_with_stats() {
            Ok((bytes, _)) => Ok(bytes),
            Err(e) => Err(e),
        }
    }
}

} // verus!
