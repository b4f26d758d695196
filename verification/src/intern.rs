//! Interning: each distinct value gets the index of its first occurrence.
use vstd::prelude::*;
use crate::text::{owned, str_eq};
use crate::writer::{Term, TermView};

verus! {

/// `xs` with `x` appended unless it already occurs.
pub open spec fn intern_view<T>(xs: Seq<T>, x: T) -> Seq<T> {
    if xs.contains(x) {
        xs
    } else {
        xs.push(x)
    }
}

/// The distinct values of `xs`, in order of first occurrence.
pub open spec fn distinct_in_order<T>(xs: Seq<T>) -> Seq<T>
    decreases xs.len(),
{
    if xs.len() == 0 {
        seq![]
    } else {
        intern_view(distinct_in_order(xs.drop_last()), xs.last())
    }
}

/// No value occurs twice in `xs`.
pub open spec fn no_dups<T>(xs: Seq<T>) -> bool {
    forall|i: int, j: int| 0 <= i < xs.len() && 0 <= j < xs.len() && i != j ==> xs[i] != xs[j]
}

/// Interning keeps the values distinct and the earlier ones in place.
pub proof fn lemma_intern_view<T>(xs: Seq<T>, x: T)
    requires
        no_dups(xs),
    ensures
        no_dups(intern_view(xs, x)),
        intern_view(xs, x).contains(x),
        xs.is_prefix_of(intern_view(xs, x)),
{
    let ys = intern_view(xs, x);
    if !xs.contains(x) {
        assert forall|i: int, j: int| 0 <= i < ys.len() && 0 <= j < ys.len() && i != j implies ys[i] != ys[j] by {
            if i == xs.len() as int {
                assert(xs[j] == ys[j]);
            } else if j == xs.len() as int {
                assert(xs[i] == ys[i]);
            }
        }
        assert(ys[xs.len() as int] == x);
    }
    assert(xs =~= ys.subrange(0, xs.len() as int));
}

/// The distinct values of a sequence are distinct.
pub proof fn lemma_distinct_in_order<T>(xs: Seq<T>)
    ensures
        no_dups(distinct_in_order(xs)),
        forall|i: int| 0 <= i < xs.len() ==> distinct_in_order(xs).contains(#[trigger] xs[i]),
    decreases xs.len(),
{
    if xs.len() > 0 {
        let init = xs.drop_last();
        lemma_distinct_in_order(init);
        lemma_intern_view(distinct_in_order(init), xs.last());
        let u = distinct_in_order(xs);
        assert forall|i: int| 0 <= i < xs.len() implies u.contains(#[trigger] xs[i]) by {
            if i < xs.len() - 1 {
                assert(init[i] == xs[i]);
                let k = choose|k: int| 0 <= k < distinct_in_order(init).len() && distinct_in_order(init)[k] == init[i];
                assert(u[k] == xs[i]);
            }
        }
    }
}

/// The index of `x` in the duplicate-free `xs`.
pub open spec fn index_in<T>(xs: Seq<T>, x: T) -> int {
    choose|i: int| 0 <= i < xs.len() && xs[i] == x
}

/// Strings interned in order of first occurrence.
#[derive(Debug)]
pub struct StrInterner {
    items: Vec<String>,
}

impl View for StrInterner {
    type V = Seq<Seq<char>>;

    closed spec fn view(&self) -> Seq<Seq<char>> {
        self.items@.map_values(|s: String| s@)
    }
}

impl StrInterner {
    /// Internal consistency: no string twice.
    pub open spec fn wf(&self) -> bool {
        no_dups(self@)
    }

    /// An empty interner.
    pub fn new() -> (r: StrInterner)
        ensures
            r.wf(),
            r@ == Seq::<Seq<char>>::empty(),
    {
        let r = StrInterner { items: Vec::new() };
        assert(r@ =~= Seq::<Seq<char>>::empty());
        r
    }

    /// Number of interned strings.
    pub fn len(&self) -> (n: usize)
        ensures
            n == self@.len(),
    {
        self.items.len()
    }

    /// The interned strings, by index.
    pub fn items(&self) -> (r: &Vec<String>)
        ensures
            r@.map_values(|s: String| s@) == self@,
    {
        &self.items
    }

    /// The index of `s`, if interned.
    pub fn find(&self, s: &str) -> (r: Option<usize>)
        ensures
            match r {
                Some(i) => i < self@.len() && self@[i as int] == s@,
                None => !self@.contains(s@),
            },
    {
        let mut i: usize = 0;
        while i < self.items.len()
            invariant
                i <= self.items@.len(),
                forall|j: int| 0 <= j < i ==> self@[j] != s@,
            decreases self.items@.len() - i,
        {
            if str_eq(self.items[i].as_str(), s) {
                return Some(i);
            }
            i = i + 1;
        }
        None
    }

    /// Intern `s`: its index, adding it at the end when new.
    pub fn intern(&mut self, s: &str) -> (r: usize)
        requires
            old(self).wf(),
        ensures
            final(self).wf(),
            final(self)@ == intern_view(old(self)@, s@),
            r < final(self)@.len(),
            final(self)@[r as int] == s@,
    {
        proof {
            lemma_intern_view(self@, s@);
        }
        match self.find(s) {
            Some(i) => {
                assert(old(self)@.contains(s@));
                i
            },
            None => {
                let i = self.items.len();
                self.items.push(owned(s));
                assert(self@ =~= old(self)@.push(s@));
                i
            },
        }
    }
}

/// Equality of two terms.
pub fn term_eq(a: &Term, b: &Term) -> (r: bool)
    ensures
        r == (a@ == b@),
{
    match (a, b) {
        (Term::Iri(x), Term::Iri(y)) => str_eq(x.as_str(), y.as_str()),
        (Term::BNode(x), Term::BNode(y)) => str_eq(x.as_str(), y.as_str()),
        (Term::Literal { lex: l1, dt: d1, lang: g1 }, Term::Literal { lex: l2, dt: d2, lang: g2 }) => {
            if !str_eq(l1.as_str(), l2.as_str()) {
                return false;
            }
            let dt_eq = match (d1, d2) {
                (Some(x), Some(y)) => str_eq(x.as_str(), y.as_str()),
                (None, None) => true,
                _ => false,
            };
            if !dt_eq {
                return false;
            }
            match (g1, g2) {
                (Some(x), Some(y)) => str_eq(x.as_str(), y.as_str()),
                (None, None) => true,
                _ => false,
            }
        },
        _ => false,
    }
}

/// A copy of a term with the same characters.
pub fn term_clone(t: &Term) -> (r: Term)
    ensures
        r@ == t@,
{
    match t {
        Term::Iri(x) => Term::Iri(x.clone()),
        Term::BNode(x) => Term::BNode(x.clone()),
        Term::Literal { lex, dt, lang } => Term::Literal {
            lex: lex.clone(),
            dt: match dt {
                Some(d) => Some(d.clone()),
                None => None,
            },
            lang: match lang {
                Some(l) => Some(l.clone()),
                None => None,
            },
        },
    }
}

/// Terms interned in order of first occurrence.
#[derive(Debug)]
pub struct TermInterner {
    items: Vec<Term>,
}

impl View for TermInterner {
    type V = Seq<TermView>;

    closed spec fn view(&self) -> Seq<TermView> {
        self.items@.map_values(|t: Term| t@)
    }
}

impl TermInterner {
    /// Internal consistency: no term twice.
    pub open spec fn wf(&self) -> bool {
        no_dups(self@)
    }

    /// An empty interner.
    pub fn new() -> (r: TermInterner)
        ensures
            r.wf(),
            r@ == Seq::<TermView>::empty(),
    {
        let r = TermInterner { items: Vec::new() };
        assert(r@ =~= Seq::<TermView>::empty());
        r
    }

    /// Number of interned terms.
    pub fn len(&self) -> (n: usize)
        ensures
            n == self@.len(),
    {
        self.items.len()
    }

    /// The interned terms, by index.
    pub fn items(&self) -> (r: &Vec<Term>)
        ensures
            r@.map_values(|t: Term| t@) == self@,
    {
        &self.items
    }

    /// Intern `t`: its index, adding it at the end when new.
    pub fn intern(&mut self, t: &Term) -> (r: usize)
        requires
            old(self).wf(),
        ensures
            final(self).wf(),
            final(self)@ == intern_view(old(self)@, t@),
            r < final(self)@.len(),
            final(self)@[r as int] == t@,
    {
        proof {
            lemma_intern_view(self@, t@);
        }
        let mut i: usize = 0;
        while i < self.items.len()
            invariant
                i <= self.items@.len(),
                self@ == old(self)@,
                self.wf(),
                forall|j: int| 0 <= j < i ==> self@[j] != t@,
            decreases self.items@.len() - i,
        {
            if term_eq(&self.items[i], t) {
                assert(self@[i as int] == t@);
                assert(old(self)@.contains(t@));
                return i;
            }
            i = i + 1;
        }
        assert(!self@.contains(t@));
        let i = self.items.len();
        self.items.push(term_clone(t));
        assert(self@ =~= old(self)@.push(t@));
        i
    }
}

} // verus!
