//! Naming a graph after the ontology it declares.
use vstd::prelude::*;
use crate::text::{owned, str_eq};
use crate::update::triples_view;
use crate::writer::{Term, TermView};

verus! {

/// The IRI of `rdf:type`.
pub open spec fn rdf_type_iri() -> Seq<char> {
    "http://www.w3.org/1999/02/22-rdf-syntax-ns#type"@
}

/// The IRI of `owl:Ontology`.
pub open spec fn owl_ontology_iri() -> Seq<char> {
    "http://www.w3.org/2002/07/owl#Ontology"@
}

/// Triple `t` declares its subject an ontology.
pub open spec fn declares_ontology(t: (TermView, TermView, TermView)) -> bool {
    t.1 == TermView::Iri(rdf_type_iri()) && t.2 == TermView::Iri(owl_ontology_iri())
}

/// The text of a subject term.
pub open spec fn subject_text(t: TermView) -> Seq<char> {
    match t {
        TermView::Iri(x) => x,
        TermView::BNode(x) => x,
        TermView::Literal(x, _, _) => x,
    }
}

/// The first triple from `i` on that declares an ontology.
pub open spec fn first_declaration(ts: Seq<(TermView, TermView, TermView)>, i: int) -> Option<int>
    decreases ts.len() - i,
{
    if i < 0 || i >= ts.len() {
        None
    } else if declares_ontology(ts[i]) {
        Some(i)
    } else {
        first_declaration(ts, i + 1)
    }
}

/// The name of a graph of `triples`: the subject of the first triple that
/// declares an ontology (`s rdf:type owl:Ontology`), if any.
pub fn detect_graphname(triples: &Vec<(Term, Term, Term)>) -> (r: Option<String>)
    ensures
        match first_declaration(triples_view(triples@), 0) {
            None => r is None,
            Some(i) => r matches Some(name) && name@ == subject_text(triples_view(triples@)[i].0),
        },
{
    let type_iri = "http://www.w3.org/1999/02/22-rdf-syntax-ns#type";
    let ont_iri = "http://www.w3.org/2002/07/owl#Ontology";
    let ghost tv = triples_view(triples@);
    let mut i: usize = 0;
    while i < triples.len()
        invariant
            i <= triples@.len(),
            tv == triples_view(triples@),
            type_iri@ == rdf_type_iri(),
            ont_iri@ == owl_ontology_iri(),
            first_declaration(tv, 0) == first_declaration(tv, i as int),
        decreases triples@.len() - i,
    {
        let t = &triples[i];
        let is_type = match &t.1 {
            Term::Iri(x) => str_eq(x.as_str(), type_iri),
            _ => false,
        };
        let is_ont = match &t.2 {
            Term::Iri(x) => str_eq(x.as_str(), ont_iri),
            _ => false,
        };
        assert(tv[i as int] == (t.0@, t.1@, t.2@));
        if is_type && is_ont {
            let name = match &t.0 {
                Term::Iri(x) => owned(x.as_str()),
                Term::BNode(x) => owned(x.as_str()),
                Term::Literal { lex, .. } => owned(lex.as_str()),
            };
            return Some(name);
        }
        i = i + 1;
    }
    None
}

} // verus!
