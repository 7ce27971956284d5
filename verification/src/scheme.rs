//! Type schemes: which metavariables of a function's type may differ from use to use,
//! and fresh copies of such a type.

use vstd::prelude::*;
use crate::shape::Type;
use crate::type_graph::{Term, Ty, TypeGraph};

verus! {

/// The term that `subst` gives for the class `r`: that of its first pair for `r`.
pub open spec fn lookup(subst: Seq<(usize, Ty)>, r: usize) -> Option<Ty>
    decreases subst.len(),
{
    if subst.len() == 0 {
        None
    } else if subst[0].0 == r {
        Some(subst[0].1)
    } else {
        lookup(subst.drop_first(), r)
    }
}

/// The type `ty` with each variable that `subst` names replaced by the variable of the
/// term that `subst` gives for it.
pub open spec fn renamed(ty: Type, subst: Seq<(usize, Ty)>) -> Type
    decreases ty,
{
    match ty {
        Type::Var(r) => match lookup(subst, r) {
            Some(f) => Type::Var(f.0),
            None => Type::Var(r),
        },
        Type::Product(l) => Type::Product(Box::new(renamed(*l, subst))),
        Type::Function(d, c) => Type::Function(
            Box::new(renamed(*d, subst)),
            Box::new(renamed(*c, subst)),
        ),
        Type::Cons(h, l) => Type::Cons(Box::new(renamed(*h, subst)), Box::new(renamed(*l, subst))),
        other => other,
    }
}

/// The list of the types that the terms `items` stand for in `g`.
pub open spec fn shape_list(g: &TypeGraph, items: Seq<Ty>) -> Type
    decreases items.len(),
{
    if items.len() == 0 {
        Type::Nil
    } else {
        Type::Cons(
            Box::new(g.shape(items[0].0 as int)),
            Box::new(shape_list(g, items.drop_first())),
        )
    }
}

/// Whether the term `l` is the list of the terms `items`, in their order: a chain of
/// `Cons` terms that ends in `Nil`.
pub open spec fn chain(g: &TypeGraph, l: Ty, items: Seq<Ty>) -> bool
    decreases items.len(),
{
    g.has(l) && (match g.term(l.0 as int) {
        Term::Cons(head, tail) => items.len() > 0 && head == items[0] && chain(
            g,
            tail,
            items.drop_first(),
        ),
        Term::Nil => items.len() == 0,
        _ => false,
    })
}

/// Finds what `subst` gives for the class `r`.
fn find_in(subst: &Vec<(usize, Ty)>, r: usize) -> (found: Option<Ty>)
    ensures
        found == lookup(subst@, r),
{
    let mut i: usize = 0;
    assert(subst@.skip(0) == subst@);
    while i < subst.len()
        invariant
            i <= subst@.len(),
            lookup(subst@, r) == lookup(subst@.skip(i as int), r),
        decreases subst@.len() - i,
    {
        let ghost rest = subst@.skip(i as int);
        assert(rest[0] == subst@[i as int]);
        assert(rest.drop_first() == subst@.skip(i + 1));
        if subst[i].0 == r {
            return Some(subst[i].1);
        }
        i = i + 1;
    }
    assert(subst@.skip(i as int).len() == 0);
    None
}

impl TypeGraph {
    /// Whether `other` holds the terms and classes of `self`, as they are, and new terms
    /// besides.
    pub open spec fn grown_to(&self, other: &TypeGraph) -> bool {
        &&& self.count() <= other.count()
        &&& self.count() <= other.root@.len()
        &&& self.count() <= other.rank@.len()
        &&& other.terms@.take(self.count()) == self.terms@
        &&& other.root@.take(self.count()) == self.root@
        &&& other.rank@.take(self.count()) == self.rank@
        &&& other.queue == self.queue
        &&& other.conflict == self.conflict
        &&& (self@.closed() ==> other@.closed())
        &&& forall|i: int| self.count() <= i < other.count() ==> #[trigger] other.root@[i] == i
    }

    /// Growing is transitive.
    pub proof fn lemma_grown_trans(&self, mid: &TypeGraph, other: &TypeGraph)
        requires
            self.grown_to(mid),
            mid.grown_to(other),
        ensures
            self.grown_to(other),
    {
        let n = self.count();
        assert(other.terms@.take(n) =~= other.terms@.take(mid.count()).take(n));
        assert(other.root@.take(n) =~= other.root@.take(mid.count()).take(n));
        assert(other.rank@.take(n) =~= other.rank@.take(mid.count()).take(n));
        assert forall|i: int| n <= i < other.count() implies #[trigger] other.root@[i] == i by {
            if i < mid.count() {
                assert(other.root@.take(mid.count())[i] == mid.root@[i]);
            }
        }
    }

    /// A term of a graph stands for the same type in every graph that it has grown to.
    pub proof fn lemma_shape_grown(&self, other: &TypeGraph, t: int)
        requires
            self.wf(),
            self.grown_to(other),
            0 <= t < self.count(),
        ensures
            other.shape(t) == self.shape(t),
            other.rep(t) == self.rep(t),
        decreases self.rank@[self.rep(t)],
    {
        let n = self.count();
        let r = self.rep(t);
        assert(other.root@.take(n)[t] == other.root@[t]);
        assert(0 <= r < n);
        assert(other.terms@.take(n)[r] == other.terms@[r]);
        assert(other.rank@.take(n)[r] == other.rank@[r]);
        self.lemma_rep_rep(t);
        match self.term(r) {
            Term::Product(l) => {
                assert(self.part(r, 0) == l.0);
                let rl = self.rep(l.0 as int);
                assert(other.root@.take(n)[l.0 as int] == other.root@[l.0 as int]);
                assert(other.rank@.take(n)[rl] == other.rank@[rl]);
                self.lemma_shape_grown(other, l.0 as int);
            },
            Term::Function(d, c) => {
                assert(self.part(r, 0) == d.0);
                assert(self.part(r, 1) == c.0);
                let rd = self.rep(d.0 as int);
                let rc = self.rep(c.0 as int);
                assert(other.root@.take(n)[d.0 as int] == other.root@[d.0 as int]);
                assert(other.root@.take(n)[c.0 as int] == other.root@[c.0 as int]);
                assert(other.rank@.take(n)[rd] == other.rank@[rd]);
                assert(other.rank@.take(n)[rc] == other.rank@[rc]);
                self.lemma_shape_grown(other, d.0 as int);
                self.lemma_shape_grown(other, c.0 as int);
            },
            Term::Cons(h, l) => {
                assert(self.part(r, 0) == h.0);
                assert(self.part(r, 1) == l.0);
                let rh = self.rep(h.0 as int);
                let rl = self.rep(l.0 as int);
                assert(other.root@.take(n)[h.0 as int] == other.root@[h.0 as int]);
                assert(other.root@.take(n)[l.0 as int] == other.root@[l.0 as int]);
                assert(other.rank@.take(n)[rh] == other.rank@[rh]);
                assert(other.rank@.take(n)[rl] == other.rank@[rl]);
                self.lemma_shape_grown(other, h.0 as int);
                self.lemma_shape_grown(other, l.0 as int);
            },
            _ => {},
        }
    }

    /// Adds a term in a class of its own; the graph grows by it.
    pub fn grow(&mut self, term: Term) -> (t: Ty)
        requires
            old(self).wf(),
            old(self).fits(term),
        ensures
            final(self).wf(),
            old(self).grown_to(final(self)),
            t.0 == old(self).count(),
            final(self).count() == old(self).count() + 1,
            final(self).term(t.0 as int) == term,
            final(self).rep(t.0 as int) == t.0,
            final(self).rank@[t.0 as int] == old(self).rank_above(term),
    {
        let t = self.add(term);
        proof {
            let n = old(self).count();
            assert(self.terms@.take(n) =~= old(self).terms@);
            assert(self.root@.take(n) =~= old(self).root@);
            assert(self.rank@.take(n) =~= old(self).rank@);
        }
        t
    }

    /// A new metavariable, in a class of its own.
    pub fn fresh(&mut self) -> (t: Ty)
        requires
            old(self).wf(),
        ensures
            final(self).wf(),
            old(self).grown_to(final(self)),
            t.0 == old(self).count(),
            final(self).count() == old(self).count() + 1,
            final(self).term(t.0 as int) == Term::MetaVar,
            final(self).rep(t.0 as int) == t.0,
            final(self).shape(t.0 as int) == Type::Var(t.0),
    {
        self.grow(Term::MetaVar)
    }

    /// Growing leaves a graph as it is.
    pub proof fn lemma_grown_refl(&self)
        requires
            self.wf(),
        ensures
            self.grown_to(self),
    {
        let n = self.count();
        assert(self.terms@.take(n) =~= self.terms@);
        assert(self.root@.take(n) =~= self.root@);
        assert(self.rank@.take(n) =~= self.rank@);
    }

    /// A term of a graph is the same term, in the same class, in every graph that it has
    /// grown to.
    pub proof fn lemma_term_grown(&self, other: &TypeGraph, t: int)
        requires
            self.wf(),
            self.grown_to(other),
            0 <= t < self.count(),
        ensures
            other.term(t) == self.term(t),
            other.rep(t) == self.rep(t),
            other.rank@[t] == self.rank@[t],
            other.rank@[other.rep(t)] == self.rank@[self.rep(t)],
    {
        let n = self.count();
        let r = self.rep(t);
        assert(other.root@.take(n)[t] == other.root@[t]);
        assert(other.terms@.take(n)[t] == other.terms@[t]);
        assert(other.rank@.take(n)[t] == other.rank@[t]);
        assert(0 <= r < n);
        assert(other.rank@.take(n)[r] == other.rank@[r]);
    }

    /// Whether every term that `subst` gives is a metavariable that represents its
    /// class.
    pub open spec fn gives_variables(&self, subst: Seq<(usize, Ty)>) -> bool {
        forall|i: int|
            0 <= i < subst.len() ==> self.has((#[trigger] subst[i]).1) && self.term(
                subst[i].1.0 as int,
            ).is_meta() && self.rep(subst[i].1.0 as int) == subst[i].1.0
    }

    /// What `subst` gives for a class is one of its terms.
    pub proof fn lemma_lookup_given(subst: Seq<(usize, Ty)>, r: usize)
        ensures
            lookup(subst, r) matches Some(f) ==> exists|i: int|
                0 <= i < subst.len() && (#[trigger] subst[i]).1 == f,
        decreases subst.len(),
    {
        if subst.len() > 0 && subst[0].0 != r {
            Self::lemma_lookup_given(subst.drop_first(), r);
            if let Some(f) = lookup(subst.drop_first(), r) {
                let i = choose|i: int|
                    0 <= i < subst.drop_first().len() && (#[trigger] subst.drop_first()[i]).1 == f;
                assert(subst[i + 1].1 == f);
            }
        }
    }

    /// The terms that `subst` gives stay such variables when the graph grows.
    pub proof fn lemma_gives_grown(&self, other: &TypeGraph, subst: Seq<(usize, Ty)>)
        requires
            self.wf(),
            self.grown_to(other),
            self.gives_variables(subst),
        ensures
            other.gives_variables(subst),
    {
        assert forall|i: int| 0 <= i < subst.len() implies other.has((#[trigger] subst[i]).1)
            && other.term(subst[i].1.0 as int).is_meta() && other.rep(subst[i].1.0 as int)
            == subst[i].1.0 by {
            self.lemma_term_grown(other, subst[i].1.0 as int);
        }
    }

    /// The type of a term is made of the types of the parts of its representative.
    pub proof fn lemma_shape_parts(&self, t: int)
        requires
            self.wf(),
            0 <= t < self.count(),
        ensures
            match self.term(self.rep(t)) {
                Term::MetaVar => self.shape(t) == Type::Var(self.rep(t) as usize),
                Term::Void => self.shape(t) == Type::Void,
                Term::Boolean => self.shape(t) == Type::Boolean,
                Term::Number => self.shape(t) == Type::Number,
                Term::String => self.shape(t) == Type::String,
                Term::Nil => self.shape(t) == Type::Nil,
                Term::Product(l) => self.has(l) && self.term(l.0 as int).is_list() && self.below(
                    l,
                    self.rep(t),
                ) && self.shape(t) == Type::Product(Box::new(self.shape(l.0 as int))),
                Term::Function(d, c) => self.has(d) && self.has(c) && self.term(
                    d.0 as int,
                ).is_list() && !self.term(c.0 as int).is_list() && self.below(d, self.rep(t))
                    && self.below(c, self.rep(t)) && self.shape(t) == Type::Function(
                    Box::new(self.shape(d.0 as int)),
                    Box::new(self.shape(c.0 as int)),
                ),
                Term::Cons(h, l) => self.has(h) && self.has(l) && !self.term(
                    h.0 as int,
                ).is_list() && self.term(l.0 as int).is_list() && self.below(h, self.rep(t))
                    && self.below(l, self.rep(t)) && self.shape(t) == Type::Cons(
                    Box::new(self.shape(h.0 as int)),
                    Box::new(self.shape(l.0 as int)),
                ),
            },
            self.term(t).is_list() == self.term(self.rep(t)).is_list(),
    {
        self.lemma_rep_rep(t);
        let r = self.rep(t);
        match self.term(r) {
            Term::Product(l) => {
                assert(self.part(r, 0) == l.0);
            },
            Term::Function(d, c) => {
                assert(self.part(r, 0) == d.0);
                assert(self.part(r, 1) == c.0);
            },
            Term::Cons(h, l) => {
                assert(self.part(r, 0) == h.0);
                assert(self.part(r, 1) == l.0);
            },
            _ => {},
        }
    }

    /// Adds a term in a class of its own: its type is made of the types of its parts.
    pub fn build(&mut self, term: Term) -> (t: Ty)
        requires
            old(self).wf(),
            old(self).fits(term),
        ensures
            final(self).wf(),
            old(self).grown_to(final(self)),
            t.0 == old(self).count(),
            final(self).count() == old(self).count() + 1,
            final(self).term(t.0 as int) == term,
            final(self).rep(t.0 as int) == t.0,
            final(self).shape(t.0 as int) == (match term {
                Term::MetaVar => Type::Var(t.0),
                Term::Void => Type::Void,
                Term::Boolean => Type::Boolean,
                Term::Number => Type::Number,
                Term::String => Type::String,
                Term::Nil => Type::Nil,
                Term::Product(l) => Type::Product(Box::new(old(self).shape(l.0 as int))),
                Term::Function(d, c) => Type::Function(
                    Box::new(old(self).shape(d.0 as int)),
                    Box::new(old(self).shape(c.0 as int)),
                ),
                Term::Cons(h, l) => Type::Cons(
                    Box::new(old(self).shape(h.0 as int)),
                    Box::new(old(self).shape(l.0 as int)),
                ),
            }),
    {
        let t = self.grow(term);
        proof {
            self.lemma_shape_parts(t.0 as int);
            match term {
                Term::Product(l) => {
                    assert(old(self).has(term.parts()[0]));
                    old(self).lemma_shape_grown(self, l.0 as int);
                },
                Term::Function(d, c) => {
                    assert(old(self).has(term.parts()[0]));
                    assert(old(self).has(term.parts()[1]));
                    old(self).lemma_shape_grown(self, d.0 as int);
                    old(self).lemma_shape_grown(self, c.0 as int);
                },
                Term::Cons(h, l) => {
                    assert(old(self).has(term.parts()[0]));
                    assert(old(self).has(term.parts()[1]));
                    old(self).lemma_shape_grown(self, h.0 as int);
                    old(self).lemma_shape_grown(self, l.0 as int);
                },
                _ => {},
            }
        }
        t
    }

    /// Adds copies of the types of `d` and of `e`, as [`Self::copy`] does.
    fn copy_two(&mut self, d: Ty, e: Ty, subst: &Vec<(usize, Ty)>) -> (c: (Ty, Ty))
        requires
            old(self).wf(),
            old(self).has(d),
            old(self).has(e),
            old(self).gives_variables(subst@),
        ensures
            final(self).wf(),
            old(self).grown_to(final(self)),
            final(self).has(c.0),
            final(self).has(c.1),
            final(self).term(c.0.0 as int).is_list() == old(self).term(d.0 as int).is_list(),
            final(self).term(c.1.0 as int).is_list() == old(self).term(e.0 as int).is_list(),
            final(self).shape(c.0.0 as int) == renamed(old(self).shape(d.0 as int), subst@),
            final(self).shape(c.1.0 as int) == renamed(old(self).shape(e.0 as int), subst@),
        decreases
                (if old(self).rank@[old(self).rep(d.0 as int)] < old(self).rank@[old(self).rep(
                    e.0 as int,
                )] {
                    old(self).rank@[old(self).rep(e.0 as int)]
                } else {
                    old(self).rank@[old(self).rep(d.0 as int)]
                }),
                1nat,
    {
        let d2 = self.copy(d, subst);
        let ghost g1 = *self;
        proof {
            old(self).lemma_term_grown(&g1, e.0 as int);
            old(self).lemma_shape_grown(&g1, e.0 as int);
            old(self).lemma_gives_grown(&g1, subst@);
        }
        let e2 = self.copy(e, subst);
        proof {
            g1.lemma_term_grown(self, d2.0 as int);
            g1.lemma_shape_grown(self, d2.0 as int);
            old(self).lemma_grown_trans(&g1, self);
        }
        (d2, e2)
    }

    /// Adds a copy of the type of `t` in which each variable that `subst` names is
    /// replaced by what `subst` gives for it. Terms without parts are shared with the
    /// type that is copied.
    #[verifier::rlimit(30)]
    pub fn copy(&mut self, t: Ty, subst: &Vec<(usize, Ty)>) -> (c: Ty)
        requires
            old(self).wf(),
            old(self).has(t),
            old(self).gives_variables(subst@),
        ensures
            final(self).wf(),
            old(self).grown_to(final(self)),
            final(self).has(c),
            final(self).term(c.0 as int).is_list() == old(self).term(t.0 as int).is_list(),
            final(self).shape(c.0 as int) == renamed(old(self).shape(t.0 as int), subst@),
        decreases old(self).rank@[old(self).rep(t.0 as int)], 0nat,
    {
        let r = self.find_const(t);
        proof {
            self.lemma_shape_parts(t.0 as int);
            self.lemma_shape_parts(r.0 as int);
            self.lemma_grown_refl();
        }
        match self.get(r) {
            Term::MetaVar => {
                match find_in(subst, r.0) {
                    Some(f) => {
                        proof {
                            Self::lemma_lookup_given(subst@, r.0);
                            self.lemma_shape_parts(f.0 as int);
                        }
                        f
                    },
                    None => r,
                }
            },
            Term::Product(l) => {
                let l2 = self.copy(l, subst);
                let ghost g1 = *self;
                let c = self.build(Term::Product(l2));
                proof {
                    old(self).lemma_grown_trans(&g1, self);
                }
                c
            },
            Term::Function(d, e) => {
                let (d2, e2) = self.copy_two(d, e, subst);
                let ghost g1 = *self;
                let c = self.build(Term::Function(d2, e2));
                proof {
                    old(self).lemma_grown_trans(&g1, self);
                }
                c
            },
            Term::Cons(d, e) => {
                let (d2, e2) = self.copy_two(d, e, subst);
                let ghost g1 = *self;
                let c = self.build(Term::Cons(d2, e2));
                proof {
                    old(self).lemma_grown_trans(&g1, self);
                }
                c
            },
            _ => r,
        }
    }

    /// A list of terms stands for the same list of types in every graph that the graph
    /// has grown to.
    pub proof fn lemma_shape_list_grown(&self, other: &TypeGraph, items: Seq<Ty>)
        requires
            self.wf(),
            self.grown_to(other),
            forall|i: int| 0 <= i < items.len() ==> self.has(#[trigger] items[i]),
        ensures
            shape_list(other, items) == shape_list(self, items),
        decreases items.len(),
    {
        if items.len() > 0 {
            assert(self.has(items[0]));
            self.lemma_shape_grown(other, items[0].0 as int);
            assert forall|i: int| 0 <= i < items.drop_first().len() implies self.has(
                #[trigger] items.drop_first()[i],
            ) by {
                assert(self.has(items[i + 1]));
            }
            self.lemma_shape_list_grown(other, items.drop_first());
        }
    }

    /// A list of terms is the same list in every graph that the graph has grown to.
    pub proof fn lemma_chain_grown(&self, other: &TypeGraph, l: Ty, items: Seq<Ty>)
        requires
            self.wf(),
            self.grown_to(other),
            chain(self, l, items),
        ensures
            chain(other, l, items),
        decreases items.len(),
    {
        self.lemma_term_grown(other, l.0 as int);
        match self.term(l.0 as int) {
            Term::Cons(_, tail) => {
                self.lemma_chain_grown(other, tail, items.drop_first());
            },
            _ => {},
        }
    }

    /// Adds the list of the types `items`, in their order.
    pub fn list_of(&mut self, items: &Vec<Ty>) -> (l: Ty)
        requires
            old(self).wf(),
            forall|i: int|
                0 <= i < items@.len() ==> old(self).has(#[trigger] items@[i]) && !old(self).term(
                    items@[i].0 as int,
                ).is_list(),
        ensures
            final(self).wf(),
            old(self).grown_to(final(self)),
            final(self).has(l),
            final(self).term(l.0 as int).is_list(),
            final(self).shape(l.0 as int) == shape_list(old(self), items@),
            chain(final(self), l, items@),
    {
        let mut l = self.build(Term::Nil);
        let mut i: usize = items.len();
        assert(items@.skip(i as int) =~= Seq::<Ty>::empty());
        while i > 0
            invariant
                self.wf(),
                old(self).wf(),
                old(self).grown_to(self),
                i <= items@.len(),
                self.has(l),
                self.term(l.0 as int).is_list(),
                self.shape(l.0 as int) == shape_list(old(self), items@.skip(i as int)),
                chain(self, l, items@.skip(i as int)),
                forall|i: int|
                    0 <= i < items@.len() ==> old(self).has(#[trigger] items@[i]) && !old(
                        self,
                    ).term(items@[i].0 as int).is_list(),
            decreases i,
        {
            i = i - 1;
            let ghost g1 = *self;
            let item = items[i];
            proof {
                assert(old(self).has(items@[i as int]));
                old(self).lemma_term_grown(&g1, item.0 as int);
                old(self).lemma_shape_grown(&g1, item.0 as int);
                assert(g1.fits(Term::Cons(item, l))) by {
                    assert(Term::Cons(item, l).parts() =~= seq![item, l]);
                }
            }
            let ghost tail = l;
            l = self.build(Term::Cons(item, l));
            proof {
                old(self).lemma_grown_trans(&g1, self);
                let rest = items@.skip(i as int);
                assert(rest[0] == item);
                assert(rest.drop_first() =~= items@.skip(i + 1));
                g1.lemma_chain_grown(self, tail, items@.skip(i + 1));
            }
        }
        assert(items@.skip(0) =~= items@);
        l
    }

    /// Whether `x` is a variable of the type of `t`: the representative of a class of
    /// metavariables that the type of `t` is made of.
    pub open spec fn free_in(&self, t: Ty, x: int) -> bool {
        self.term(x).is_meta() && self.reach(self.rep(t.0 as int), x)
    }

    /// Marks the variables of the type of `t`.
    pub fn mark(&self, t: Ty, marks: &mut Vec<bool>)
        requires
            self.wf(),
            self.has(t),
            old(marks)@.len() == self.count(),
        ensures
            final(marks)@.len() == self.count(),
            forall|x: int|
                0 <= x < self.count() ==> #[trigger] final(marks)@[x] == (old(marks)@[x]
                    || self.free_in(t, x)),
        decreases self.rank@[self.rep(t.0 as int)],
    {
        let r = self.find_const(t);
        let ghost ri = r.0 as int;
        proof {
            self.lemma_shape_parts(t.0 as int);
        }
        match self.get(r) {
            Term::MetaVar => {
                marks.set(r.0, true);
            },
            Term::Product(l) => {
                assert(self.part(ri, 0) == l.0);
                self.mark(l, marks);
            },
            Term::Function(d, e) => {
                assert(self.part(ri, 0) == d.0);
                assert(self.part(ri, 1) == e.0);
                self.mark(d, marks);
                self.mark(e, marks);
            },
            Term::Cons(d, e) => {
                assert(self.part(ri, 0) == d.0);
                assert(self.part(ri, 1) == e.0);
                self.mark(d, marks);
                self.mark(e, marks);
            },
            _ => {},
        }
    }
}

/// Whether the class `x` is listed in `out`.
pub open spec fn listed(out: Seq<Ty>, x: int) -> bool {
    exists|i: int| 0 <= i < out.len() && (#[trigger] out[i]).0 == x
}

/// A vector of `n` times `false`.
pub fn unmarked(n: usize) -> (marks: Vec<bool>)
    ensures
        marks@.len() == n,
        forall|i: int| 0 <= i < n ==> !marks@[i],
{
    let mut marks: Vec<bool> = Vec::new();
    while marks.len() < n
        invariant
            marks@.len() <= n,
            forall|i: int| 0 <= i < marks@.len() ==> !marks@[i],
        decreases n - marks@.len(),
    {
        marks.push(false);
    }
    marks
}

impl TypeGraph {
    /// Lists the variables of the type of `t` that are marked neither in `env` nor in
    /// `seen`, and marks them in `seen`.
    pub fn collect(&self, t: Ty, env: &Vec<bool>, seen: &mut Vec<bool>, out: &mut Vec<Ty>)
        requires
            self.wf(),
            self.has(t),
            env@.len() == self.count(),
            old(seen)@.len() == self.count(),
            forall|x: int|
                0 <= x < self.count() ==> #[trigger] old(seen)@[x] == listed(old(out)@, x),
            forall|i: int| 0 <= i < old(out)@.len() ==> self.has(#[trigger] old(out)@[i]),
        ensures
            final(seen)@.len() == self.count(),
            forall|x: int|
                0 <= x < self.count() ==> #[trigger] final(seen)@[x] == (old(seen)@[x] || (
                self.free_in(t, x) && !env@[x])),
            forall|x: int|
                0 <= x < self.count() ==> #[trigger] final(seen)@[x] == listed(final(out)@, x),
            forall|i: int| 0 <= i < final(out)@.len() ==> self.has(#[trigger] final(out)@[i]),
        decreases self.rank@[self.rep(t.0 as int)],
    {
        let r = self.find_const(t);
        let ghost ri = r.0 as int;
        proof {
            self.lemma_shape_parts(t.0 as int);
        }
        match self.get(r) {
            Term::MetaVar => {
                if !env[r.0] && !seen[r.0] {
                    let ghost seen0 = seen@;
                    let ghost out0 = out@;
                    seen.set(r.0, true);
                    out.push(r);
                    proof {
                        let n = out0.len() as int;
                        assert(out@[n] == r);
                        assert forall|x: int| 0 <= x < self.count() implies #[trigger] seen@[x]
                            == listed(out@, x) by {
                            assert(seen0[x] == listed(out0, x));
                            if listed(out0, x) {
                                let i = choose|i: int|
                                    0 <= i < out0.len() && (#[trigger] out0[i]).0 == x;
                                assert(out@[i].0 == x);
                            }
                            if listed(out@, x) {
                                let i = choose|i: int|
                                    0 <= i < out@.len() && (#[trigger] out@[i]).0 == x;
                                if i < n {
                                    assert(out0[i].0 == x);
                                }
                            }
                        }
                        assert forall|i: int| 0 <= i < out@.len() implies self.has(
                            #[trigger] out@[i],
                        ) by {
                            if i < n {
                                assert(out0[i] == out@[i]);
                            }
                        }
                    }
                }
            },
            Term::Product(l) => {
                assert(self.part(ri, 0) == l.0);
                self.collect(l, env, seen, out);
            },
            Term::Function(d, e) => {
                assert(self.part(ri, 0) == d.0);
                assert(self.part(ri, 1) == e.0);
                self.collect(d, env, seen, out);
                self.collect(e, env, seen, out);
            },
            Term::Cons(d, e) => {
                assert(self.part(ri, 0) == d.0);
                assert(self.part(ri, 1) == e.0);
                self.collect(d, env, seen, out);
                self.collect(e, env, seen, out);
            },
            _ => {},
        }
    }

    /// The variables of the type of `t` that are not marked in `env`: those that may
    /// differ from one use of the type to the next.
    pub fn generalize(&self, t: Ty, env: &Vec<bool>) -> (vars: Vec<Ty>)
        requires
            self.wf(),
            self.has(t),
            env@.len() == self.count(),
        ensures
            forall|x: int|
                0 <= x < self.count() ==> #[trigger] listed(vars@, x) == (self.free_in(t, x)
                    && !env@[x]),
            forall|i: int| 0 <= i < vars@.len() ==> self.has(#[trigger] vars@[i]),
    {
        let mut seen = unmarked(self.terms.len());
        let mut generic: Vec<Ty> = Vec::new();
        let ghost seen0 = seen@;
        self.collect(t, env, &mut seen, &mut generic);
        proof {
            assert forall|x: int| 0 <= x < self.count() implies #[trigger] listed(generic@, x)
                == (self.free_in(t, x) && !env@[x]) by {
                assert(!seen0[x]);
                assert(seen@[x] == (seen0[x] || (self.free_in(t, x) && !env@[x])));
                assert(seen@[x] == listed(generic@, x));
            }
        }
        generic
    }
}

/// The substitution that gives the variables `generic`, in their order, the terms from
/// index `base` on.
pub open spec fn fresh_subst(generic: Seq<Ty>, base: int) -> Seq<(usize, Ty)> {
    Seq::new(generic.len(), |i: int| (generic[i].0, Ty((base + i) as usize)))
}

/// Renaming no variable leaves a type as it is.
pub proof fn lemma_renamed_none(ty: Type)
    ensures
        renamed(ty, Seq::empty()) == ty,
    decreases ty,
{
    match ty {
        Type::Product(l) => {
            lemma_renamed_none(*l);
        },
        Type::Function(d, c) => {
            lemma_renamed_none(*d);
            lemma_renamed_none(*c);
        },
        Type::Cons(h, l) => {
            lemma_renamed_none(*h);
            lemma_renamed_none(*l);
        },
        _ => {},
    }
}

impl TypeGraph {
    /// A use of the type `ty` whose variables `generic` may differ from use to use: a
    /// copy of `ty` in which each of them is replaced by a new metavariable. Where
    /// there is no such variable the use is `ty` itself.
    pub fn instantiate(&mut self, ty: Ty, generic: &Vec<Ty>) -> (c: Ty)
        requires
            old(self).wf(),
            old(self).has(ty),
        ensures
            final(self).wf(),
            old(self).grown_to(final(self)),
            final(self).has(c),
            final(self).term(c.0 as int).is_list() == old(self).term(ty.0 as int).is_list(),
            final(self).shape(c.0 as int) == renamed(
                old(self).shape(ty.0 as int),
                fresh_subst(generic@, old(self).count()),
            ),
            generic@.len() == 0 ==> c == ty,
    {
        if generic.len() == 0 {
            proof {
                self.lemma_grown_refl();
                lemma_renamed_none(self.shape(ty.0 as int));
                assert(fresh_subst(generic@, self.count()) =~= Seq::empty());
            }
            return ty;
        }
        let mut subst: Vec<(usize, Ty)> = Vec::new();
        let mut i: usize = 0;
        proof {
            self.lemma_grown_refl();
            assert(fresh_subst(generic@.take(0), self.count()) =~= subst@);
        }
        while i < generic.len()
            invariant
                self.wf(),
                old(self).wf(),
                old(self).has(ty),
                old(self).grown_to(self),
                i <= generic@.len(),
                self.count() == old(self).count() + i,
                subst@ == fresh_subst(generic@.take(i as int), old(self).count()),
                self.gives_variables(subst@),
            decreases generic@.len() - i,
        {
            let ghost g1 = *self;
            let ghost before = subst@;
            let f = self.fresh();
            subst.push((generic[i].0, f));
            proof {
                old(self).lemma_grown_trans(&g1, self);
                g1.lemma_gives_grown(self, before);
                assert(subst@ =~= fresh_subst(generic@.take(i + 1), old(self).count()));
                assert forall|j: int| 0 <= j < subst@.len() implies self.has(
                    (#[trigger] subst@[j]).1,
                ) && self.term(subst@[j].1.0 as int).is_meta() && self.rep(subst@[j].1.0 as int)
                    == subst@[j].1.0 by {
                    if j < before.len() {
                        assert(subst@[j] == before[j]);
                    }
                }
            }
            i = i + 1;
        }
        let ghost g2 = *self;
        proof {
            assert(generic@.take(i as int) =~= generic@);
            old(self).lemma_term_grown(&g2, ty.0 as int);
            old(self).lemma_shape_grown(&g2, ty.0 as int);
        }
        let c = self.copy(ty, &subst);
        proof {
            old(self).lemma_grown_trans(&g2, self);
        }
        c
    }
}

} // verus!
