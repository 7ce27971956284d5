//! How the types of terms change as classes are merged: each variable of a type gets
//! the type that its class has come to stand for.

use vstd::prelude::*;
use crate::shape::Type;
use crate::type_graph::{Term, Ty, TypeGraph};

verus! {

impl TypeGraph {
    /// The type `ty` with each of its variables replaced by the type that the variable
    /// stands for in this graph.
    pub open spec fn refine(&self, ty: Type) -> Type
        decreases ty,
    {
        match ty {
            Type::Var(x) => self.shape(x as int),
            Type::Product(l) => Type::Product(Box::new(self.refine(*l))),
            Type::Function(d, c) => Type::Function(
                Box::new(self.refine(*d)),
                Box::new(self.refine(*c)),
            ),
            Type::Cons(h, l) => Type::Cons(Box::new(self.refine(*h)), Box::new(self.refine(*l))),
            other => other,
        }
    }

    /// Whether `other` has come from this graph by new terms and by merging classes:
    /// both are settled, `other` holds the terms of this graph, and its classes are made
    /// of whole classes of this graph.
    pub open spec fn refined_by(&self, other: &TypeGraph) -> bool {
        &&& self.settled()
        &&& other.settled()
        &&& self.count() <= other.count()
        &&& forall|i: int| 0 <= i < self.count() ==> #[trigger] other.terms@[i] == self.terms@[i]
        &&& forall|i: int|
            0 <= i < self.count() ==> other.rep(#[trigger] self.rep(i)) == other.rep(i)
    }

    /// The type of a term, after classes were merged, is its type before with each
    /// variable replaced by what it has come to stand for.
    pub proof fn lemma_shape_refined(&self, other: &TypeGraph, t: int)
        requires
            self.refined_by(other),
            0 <= t < self.count(),
        ensures
            other.shape(t) == other.refine(self.shape(t)),
        decreases self.rank@[self.rep(t)],
    {
        let r = self.rep(t);
        self.lemma_shape_parts(t);
        self.lemma_rep_rep(t);
        assert(self.up(r) == r);
        assert(other.rep(r) == other.rep(t));
        assert(other.terms@[r] == self.terms@[r]);
        assert(other.shape(r) == other.shape(t));
        other.lemma_shape_of_term(Ty(r as usize));
        match self.term(r) {
            Term::Product(l) => {
                self.lemma_shape_refined(other, l.0 as int);
            },
            Term::Function(d, c) => {
                self.lemma_shape_refined(other, d.0 as int);
                self.lemma_shape_refined(other, c.0 as int);
            },
            Term::Cons(h, l) => {
                self.lemma_shape_refined(other, h.0 as int);
                self.lemma_shape_refined(other, l.0 as int);
            },
            _ => {},
        }
    }

    /// What has come from what has come from a graph has come from it.
    pub proof fn lemma_refined_trans(&self, mid: &TypeGraph, other: &TypeGraph)
        requires
            self.refined_by(mid),
            mid.refined_by(other),
        ensures
            self.refined_by(other),
    {
        assert forall|i: int| 0 <= i < self.count() implies #[trigger] other.terms@[i]
            == self.terms@[i] by {
            assert(mid.terms@[i] == self.terms@[i]);
        }
        assert forall|i: int| 0 <= i < self.count() implies other.rep(#[trigger] self.rep(i))
            == other.rep(i) by {
            let r = self.rep(i);
            self.lemma_rep_rep(i);
            assert(mid.rep(r) == mid.rep(i));
            assert(other.rep(mid.rep(r)) == other.rep(r));
            assert(other.rep(mid.rep(i)) == other.rep(i));
        }
    }

    /// A settled graph has come from itself.
    pub proof fn lemma_refined_self(&self)
        requires
            self.settled(),
        ensures
            self.refined_by(self),
    {
        assert forall|i: int| 0 <= i < self.count() implies self.rep(#[trigger] self.rep(i))
            == self.rep(i) by {
            self.lemma_rep_rep(i);
        }
    }
}

} // verus!
