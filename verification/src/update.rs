//! Replacing one logical graph of an R5TU file: every other graph group is
//! copied through its terms, the target's triples are replaced, and the file
//! is rebuilt.
use vstd::prelude::*;
use crate::header::Section;
use crate::intern::term_clone;
use crate::layout::{spec_block_triples, GraphRefView, Outcome};
use crate::reader::{graphref_views, spec_term_parts, R5Error, R5tuFile, TermDict, TermRead, Result};
use crate::sidecar_build::spec_file_groups;
use crate::text::{owned, str_eq};
use crate::triples::Triple;
use crate::writer::{image_result, quints_view, spec_file_image, write_file_with_options, Quint, QuintView, Term, TermView, WriterOptions};

verus! {

/// A term of the file as an outcome: an id past the term count is `Invalid`.
pub open spec fn term_outcome(d: Seq<u8>, td: TermDict, id: u64) -> Outcome<TermView> {
    match spec_term_parts(d, td, id) {
        TermRead::OutOfRange => Outcome::Invalid,
        TermRead::Corrupt => Outcome::Corrupt,
        TermRead::Found(t) => Outcome::Value(t),
    }
}

/// The 5-tuples of the triples `ts` of graph group `g`, resolving subject,
/// predicate and object of each triple in turn; the first term that does not
/// resolve fails the copy.
pub open spec fn spec_copy_group(d: Seq<u8>, td: TermDict, g: GraphRefView, ts: Seq<Triple>) -> Outcome<Seq<QuintView>>
    decreases ts.len(),
{
    if ts.len() == 0 {
        Outcome::Value(seq![])
    } else {
        match spec_copy_group(d, td, g, ts.drop_last()) {
            Outcome::Invalid => Outcome::Invalid,
            Outcome::Corrupt => Outcome::Corrupt,
            Outcome::Value(acc) => {
                let t = ts.last();
                match (term_outcome(d, td, t.0), term_outcome(d, td, t.1), term_outcome(d, td, t.2)) {
                    (Outcome::Invalid, _, _) => Outcome::Invalid,
                    (Outcome::Corrupt, _, _) => Outcome::Corrupt,
                    (Outcome::Value(_), Outcome::Invalid, _) => Outcome::Invalid,
                    (Outcome::Value(_), Outcome::Corrupt, _) => Outcome::Corrupt,
                    (Outcome::Value(_), Outcome::Value(_), Outcome::Invalid) => Outcome::Invalid,
                    (Outcome::Value(_), Outcome::Value(_), Outcome::Corrupt) => Outcome::Corrupt,
                    (Outcome::Value(s), Outcome::Value(p), Outcome::Value(o)) => Outcome::Value(
                        acc.push(QuintView { id: g.id, s, p, o, gname: g.graphname }),
                    ),
                }
            },
        }
    }
}

/// The 5-tuples of the graph groups `grs` other than the one named by
/// (`id`, `gname`), group after group.
pub open spec fn spec_copy_groups(
    d: Seq<u8>,
    td: TermDict,
    gdir: Section,
    grs: Seq<GraphRefView>,
    id: Seq<char>,
    gname: Seq<char>,
) -> Outcome<Seq<QuintView>>
    decreases grs.len(),
{
    if grs.len() == 0 {
        Outcome::Value(seq![])
    } else {
        match spec_copy_groups(d, td, gdir, grs.drop_last(), id, gname) {
            Outcome::Invalid => Outcome::Invalid,
            Outcome::Corrupt => Outcome::Corrupt,
            Outcome::Value(acc) => {
                let g = grs.last();
                if g.id == id && g.graphname == gname {
                    Outcome::Value(acc)
                } else {
                    match spec_block_triples(d, gdir, g.gid) {
                        Outcome::Invalid => Outcome::Invalid,
                        Outcome::Corrupt => Outcome::Corrupt,
                        Outcome::Value(ts) => match spec_copy_group(d, td, g, ts) {
                            Outcome::Invalid => Outcome::Invalid,
                            Outcome::Corrupt => Outcome::Corrupt,
                            Outcome::Value(qs) => Outcome::Value(acc + qs),
                        },
                    }
                }
            },
        }
    }
}

/// The replacement triples as 5-tuples of (`id`, `gname`).
pub open spec fn new_quints(id: Seq<char>, gname: Seq<char>, ts: Seq<(TermView, TermView, TermView)>) -> Seq<QuintView> {
    ts.map_values(|t: (TermView, TermView, TermView)| QuintView { id, s: t.0, p: t.1, o: t.2, gname })
}

/// The views of the replacement triples.
pub open spec fn triples_view(ts: Seq<(Term, Term, Term)>) -> Seq<(TermView, TermView, TermView)> {
    ts.map_values(|t: (Term, Term, Term)| (t.0@, t.1@, t.2@))
}

/// The 5-tuples of the rebuilt file: the other groups' tuples, in group order,
/// then the replacement triples.
pub open spec fn spec_replace(
    f: &R5tuFile,
    id: Seq<char>,
    gname: Seq<char>,
    new_triples: Seq<(TermView, TermView, TermView)>,
) -> Outcome<Seq<QuintView>> {
    match spec_file_groups(f) {
        Outcome::Invalid => Outcome::Invalid,
        Outcome::Corrupt => Outcome::Corrupt,
        Outcome::Value(grs) => match spec_copy_groups(f.file_bytes(), f.term_dict_view(), f.gdir_view(), grs, id, gname) {
            Outcome::Invalid => Outcome::Invalid,
            Outcome::Corrupt => Outcome::Corrupt,
            Outcome::Value(qs) => Outcome::Value(qs + new_quints(id, gname, new_triples)),
        },
    }
}

/// `r` is what the outcome `o` calls for, with the rebuilt file's bytes for a
/// value.
pub open spec fn replace_result(r: Result<Vec<u8>>, o: Outcome<Seq<QuintView>>, opts: WriterOptions) -> bool {
    match o {
        Outcome::Invalid => r matches Err(e) && e is Invalid,
        Outcome::Corrupt => r matches Err(e) && e is Corrupt,
        Outcome::Value(qs) => image_result(r, spec_file_image(qs, opts)),
    }
}

/// A failure among the first `i` triples is the failure of the whole copy.
proof fn lemma_copy_group_sticks(d: Seq<u8>, td: TermDict, g: GraphRefView, ts: Seq<Triple>, i: int)
    requires
        0 <= i <= ts.len(),
        !(spec_copy_group(d, td, g, ts.subrange(0, i)) is Value),
    ensures
        spec_copy_group(d, td, g, ts) == spec_copy_group(d, td, g, ts.subrange(0, i)),
    decreases ts.len() - i,
{
    if i < ts.len() {
        assert(ts.drop_last().subrange(0, i) =~= ts.subrange(0, i));
        lemma_copy_group_sticks(d, td, g, ts.drop_last(), i);
    } else {
        assert(ts.subrange(0, i) =~= ts);
    }
}

/// A failure among the first `i` groups is the failure of the whole copy.
proof fn lemma_copy_groups_sticks(
    d: Seq<u8>,
    td: TermDict,
    gdir: Section,
    grs: Seq<GraphRefView>,
    id: Seq<char>,
    gname: Seq<char>,
    i: int,
)
    requires
        0 <= i <= grs.len(),
        !(spec_copy_groups(d, td, gdir, grs.subrange(0, i), id, gname) is Value),
    ensures
        spec_copy_groups(d, td, gdir, grs, id, gname) == spec_copy_groups(d, td, gdir, grs.subrange(0, i), id, gname),
    decreases grs.len() - i,
{
    if i < grs.len() {
        assert(grs.drop_last().subrange(0, i) =~= grs.subrange(0, i));
        lemma_copy_groups_sticks(d, td, gdir, grs.drop_last(), id, gname, i);
    } else {
        assert(grs.subrange(0, i) =~= grs);
    }
}

/// Append the 5-tuples of graph group `g` (whose triples are `ts`) to `out`.
fn copy_group_as_quints(f: &R5tuFile, id: &String, gname: &String, ts: &Vec<Triple>, out: &mut Vec<Quint>)
    -> (r: Result<()>)
    ensures
        match spec_copy_group(
            f.file_bytes(),
            f.term_dict_view(),
            GraphRefView { gid: 0, id: id@, graphname: gname@, n_triples: 0 },
            ts@,
        ) {
            Outcome::Invalid => r matches Err(e) && e is Invalid,
            Outcome::Corrupt => r matches Err(e) && e is Corrupt,
            Outcome::Value(qs) => r is Ok && quints_view(final(out)@) == quints_view(old(out)@) + qs,
        },
{
    let ghost g = GraphRefView { gid: 0, id: id@, graphname: gname@, n_triples: 0 };
    let ghost d = f.file_bytes();
    let ghost td = f.term_dict_view();
    let ghost base = quints_view(out@);
    let mut k: usize = 0;
    assert(ts@.subrange(0, 0) =~= Seq::<Triple>::empty());
    assert(quints_view(out@) =~= base + Seq::<QuintView>::empty());
    while k < ts.len()
        invariant
            k <= ts@.len(),
            g == (GraphRefView { gid: 0, id: id@, graphname: gname@, n_triples: 0 }),
            d == f.file_bytes(),
            td == f.term_dict_view(),
            spec_copy_group(d, td, g, ts@.subrange(0, k as int)) matches Outcome::Value(acc)
                && quints_view(out@) == base + acc,
            base == quints_view(old(out)@),
        decreases ts@.len() - k,
    {
        let t = ts[k];
        let ghost next = ts@.subrange(0, k + 1);
        assert(next.drop_last() =~= ts@.subrange(0, k as int));
        assert(next.last() == t);
        let s = match f.term_as_writer_term(t.0) {
            Err(e) => {
                proof { lemma_copy_group_sticks(d, td, g, ts@, k + 1); }
                return Err(e);
            },
            Ok(x) => x,
        };
        let p = match f.term_as_writer_term(t.1) {
            Err(e) => {
                proof { lemma_copy_group_sticks(d, td, g, ts@, k + 1); }
                return Err(e);
            },
            Ok(x) => x,
        };
        let o = match f.term_as_writer_term(t.2) {
            Err(e) => {
                proof { lemma_copy_group_sticks(d, td, g, ts@, k + 1); }
                return Err(e);
            },
            Ok(x) => x,
        };
        let q = Quint { id: id.clone(), s, p, o, gname: gname.clone() };
        let ghost before = out@;
        out.push(q);
        proof {
            assert(quints_view(out@) =~= quints_view(before).push(q@));
        }
        k = k + 1;
    }
    assert(ts@.subrange(0, ts@.len() as int) =~= ts@);
    Ok(())
}

/// Every tuple copied from group `g` carries `g`'s id and graph name.
proof fn lemma_copy_group_names(d: Seq<u8>, td: TermDict, g: GraphRefView, ts: Seq<Triple>)
    requires
        spec_copy_group(d, td, g, ts) is Value,
    ensures
        forall|i: int| 0 <= i < spec_copy_group(d, td, g, ts)->Value_0.len() ==>
            (#[trigger] spec_copy_group(d, td, g, ts)->Value_0[i]).id == g.id
            && spec_copy_group(d, td, g, ts)->Value_0[i].gname == g.graphname,
    decreases ts.len(),
{
    if ts.len() > 0 {
        lemma_copy_group_names(d, td, g, ts.drop_last());
    }
}

/// No tuple copied from the groups other than (`id`, `gname`) carries
/// that id and graph name.
proof fn lemma_copy_groups_skip(d: Seq<u8>, td: TermDict, gdir: Section, grs: Seq<GraphRefView>,
    id: Seq<char>, gname: Seq<char>)
    requires
        spec_copy_groups(d, td, gdir, grs, id, gname) is Value,
    ensures
        forall|i: int| 0 <= i < spec_copy_groups(d, td, gdir, grs, id, gname)->Value_0.len() ==>
            !((#[trigger] spec_copy_groups(d, td, gdir, grs, id, gname)->Value_0[i]).id == id
                && spec_copy_groups(d, td, gdir, grs, id, gname)->Value_0[i].gname == gname),
    decreases grs.len(),
{
    if grs.len() > 0 {
        lemma_copy_groups_skip(d, td, gdir, grs.drop_last(), id, gname);
        let acc = spec_copy_groups(d, td, gdir, grs.drop_last(), id, gname)->Value_0;
        let g = grs.last();
        if !(g.id == id && g.graphname == gname) {
            let ts = spec_block_triples(d, gdir, g.gid)->Value_0;
            lemma_copy_group_names(d, td, g, ts);
            let qs = spec_copy_group(d, td, g, ts)->Value_0;
            let all = spec_copy_groups(d, td, gdir, grs, id, gname)->Value_0;
            assert(all == acc + qs);
            assert forall|i: int| 0 <= i < all.len() implies !((#[trigger] all[i]).id == id && all[i].gname == gname) by {
                if i < acc.len() {
                    assert(all[i] == acc[i]);
                } else {
                    assert(all[i] == qs[i - acc.len()]);
                }
            }
        }
    }
}

/// Replacing a graph replaces exactly its tuples: in the tuples a file is
/// rebuilt from, those with id `id` and graph name `gname` are the
/// replacement triples, in order, at the end, and every other tuple is a
/// copy of a tuple of another group.
pub proof fn lemma_replace_swaps_group(f: &R5tuFile, id: Seq<char>, gname: Seq<char>,
    new_triples: Seq<(TermView, TermView, TermView)>)
    requires
        spec_replace(f, id, gname, new_triples) is Value,
    ensures
        ({
            let qs = spec_replace(f, id, gname, new_triples)->Value_0;
            let k = qs.len() - new_triples.len();
            &&& k >= 0
            &&& qs.subrange(k, qs.len() as int) == new_quints(id, gname, new_triples)
            &&& forall|i: int| 0 <= i < qs.len() ==> ((#[trigger] qs[i]).id == id && qs[i].gname == gname <==> i >= k)
        }),
{
    let grs = spec_file_groups(f)->Value_0;
    let d = f.file_bytes();
    lemma_copy_groups_skip(d, f.term_dict_view(), f.gdir_view(), grs, id, gname);
    let copied = spec_copy_groups(d, f.term_dict_view(), f.gdir_view(), grs, id, gname)->Value_0;
    let nq = new_quints(id, gname, new_triples);
    let qs = spec_replace(f, id, gname, new_triples)->Value_0;
    assert(qs == copied + nq);
    assert(qs.subrange(copied.len() as int, qs.len() as int) =~= nq);
    assert forall|i: int| 0 <= i < qs.len() implies ((#[trigger] qs[i]).id == id && qs[i].gname == gname
        <==> i >= copied.len()) by {
        if i < copied.len() {
            assert(qs[i] == copied[i]);
        } else {
            assert(qs[i] == nq[i - copied.len()]);
        }
    }
}

/// Replace the graph (`id`, `gname`) of file `f` by `new_triples` and rebuild
/// the file with `opts`: every other group's triples are copied through their
/// terms, in group order, then the replacement triples follow.
pub fn replace_graph_with_options(
    f: &R5tuFile,
    id: &str,
    gname: &str,
    new_triples: &Vec<(Term, Term, Term)>,
    opts: WriterOptions,
) -> (r: Result<Vec<u8>>)
    ensures
        replace_result(r, spec_replace(f, id@, gname@, triples_view(new_triples@)), opts),
{
    let graphs = f.enumerate_all()?;
    let ghost grs = graphref_views(graphs@);
    let ghost d = f.file_bytes();
    let ghost td = f.term_dict_view();
    let ghost gdir = f.gdir_view();
    assert(spec_file_groups(f) == Outcome::Value(grs));
    let mut quads: Vec<Quint> = Vec::new();
    let mut i: usize = 0;
    assert(grs.subrange(0, 0) =~= Seq::<GraphRefView>::empty());
    assert(quints_view(quads@) =~= Seq::<QuintView>::empty());
    while i < graphs.len()
        invariant
            i <= graphs@.len(),
            grs == graphref_views(graphs@),
            d == f.file_bytes(),
            td == f.term_dict_view(),
            gdir == f.gdir_view(),
            spec_file_groups(f) == Outcome::Value(grs),
            spec_copy_groups(d, td, gdir, grs.subrange(0, i as int), id@, gname@) == Outcome::Value(quints_view(quads@)),
        decreases graphs@.len() - i,
    {
        let gr = &graphs[i];
        let ghost next = grs.subrange(0, i + 1);
        assert(next.drop_last() =~= grs.subrange(0, i as int));
        assert(next.last() == gr@);
        if str_eq(gr.id.as_str(), id) && str_eq(gr.graphname.as_str(), gname) {
            i = i + 1;
            continue;
        }
        let mut it = match f.triples_ids(gr.gid) {
            Err(e) => {
                proof { lemma_copy_groups_sticks(d, td, gdir, grs, id@, gname@, i + 1); }
                return Err(e);
            },
            Ok(it) => it,
        };
        let ts = it.collect_all();
        let ghost before = quints_view(quads@);
        let res = copy_group_as_quints(f, &gr.id, &gr.graphname, &ts, &mut quads);
        proof {
            let g0 = GraphRefView { gid: 0, id: gr.id@, graphname: gr.graphname@, n_triples: 0 };
            lemma_copy_group_other_fields(d, td, g0, gr@, ts@);
        }
        match res {
            Err(e) => {
                proof { lemma_copy_groups_sticks(d, td, gdir, grs, id@, gname@, i + 1); }
                return Err(e);
            },
            Ok(()) => {},
        }
        i = i + 1;
    }
    assert(grs.subrange(0, graphs@.len() as int) =~= grs);
    let ghost copied = quints_view(quads@);
    let mut k: usize = 0;
    proof {
        let none = new_quints(id@, gname@, triples_view(new_triples@.subrange(0, 0)));
        assert(none =~= Seq::<QuintView>::empty());
        assert(copied + none =~= copied);
    }
    while k < new_triples.len()
        invariant
            k <= new_triples@.len(),
            quints_view(quads@) == copied + new_quints(id@, gname@, triples_view(new_triples@.subrange(0, k as int))),
        decreases new_triples@.len() - k,
    {
        let t = &new_triples[k];
        let q = Quint { id: owned(id), s: term_clone(&t.0), p: term_clone(&t.1), o: term_clone(&t.2), gname: owned(gname) };
        let ghost before = quads@;
        quads.push(q);
        proof {
            assert(triples_view(new_triples@.subrange(0, k + 1)) =~= triples_view(new_triples@.subrange(0, k as int)).push((t.0@, t.1@, t.2@)));
            assert(quints_view(quads@) =~= quints_view(before).push(q@));
        }
        k = k + 1;
    }
    assert(new_triples@.subrange(0, new_triples@.len() as int) =~= new_triples@);
    write_file_with_options(&quads, opts)
}

/// The copy of a group depends only on its id and graph name.
proof fn lemma_copy_group_other_fields(d: Seq<u8>, td: TermDict, g0: GraphRefView, g: GraphRefView, ts: Seq<Triple>)
    requires
        g0.id == g.id,
        g0.graphname == g.graphname,
    ensures
        spec_copy_group(d, td, g0, ts) == spec_copy_group(d, td, g, ts),
    decreases ts.len(),
{
    if ts.len() > 0 {
        lemma_copy_group_other_fields(d, td, g0, g, ts.drop_last());
    }
}

/// [`replace_graph_with_options`] with the defaults: raw blocks, with CRCs.
pub fn replace_graph(f: &R5tuFile, id: &str, gname: &str, new_triples: &Vec<(Term, Term, Term)>) -> (r: Result<Vec<u8>>)
    ensures
        replace_result(
            r,
            spec_replace(f, id@, gname@, triples_view(new_triples@)),
            WriterOptions { zstd: false, with_crc: true },
        ),
{
    replace_graph_with_options(f, id, gname, new_triples, WriterOptions { zstd: false, with_crc: true })
}

} // verus!
