//! The type that a term of the graph stands for.

use vstd::prelude::*;
use crate::type_graph::{Term, Ty, TypeGraph};

verus! {

/// A type, or a list of types. A type that is still to be found is the variable of its
/// class.
#[derive(Debug)]
pub enum Type {
    /// The type of a class that holds only metavariables, named by its representative.
    Var(usize),
    Void,
    Boolean,
    Number,
    String,
    /// The product of the types in a list.
    Product(Box<Type>),
    /// The functions from the types in a list to a type.
    Function(Box<Type>, Box<Type>),
    /// The empty list of types.
    Nil,
    /// A type and a list of further types.
    Cons(Box<Type>, Box<Type>),
}

impl Type {
    /// The list of `head` and then `tail`.
    pub fn cons(head: Type, tail: Type) -> (list: Type)
        ensures
            list == Type::Cons(Box::new(head), Box::new(tail)),
    {
        Type::Cons(Box::new(head), Box::new(tail))
    }

    /// The functions from the types in the list `domain` to `codomain`.
    pub fn function(domain: Type, codomain: Type) -> (f: Type)
        ensures
            f == Type::Function(Box::new(domain), Box::new(codomain)),
    {
        Type::Function(Box::new(domain), Box::new(codomain))
    }

    /// The product of the types in the list `members`.
    pub fn product(members: Type) -> (p: Type)
        ensures
            p == Type::Product(Box::new(members)),
    {
        Type::Product(Box::new(members))
    }
}

impl TypeGraph {
    /// Whether the rank falls from the class `r` to the class of the term `part`.
    #[verifier::inline]
    pub open spec fn below(&self, part: Ty, r: int) -> bool {
        self.rank@[self.rep(part.0 as int)] < self.rank@[r]
    }

    /// The type that term `t` stands for: what its class is known to be, part by part.
    pub open spec fn shape(&self, t: int) -> Type
        decreases self.rank@[self.rep(t)],
    {
        let r = self.rep(t);
        match self.term(r) {
            Term::MetaVar => Type::Var(r as usize),
            Term::Void => Type::Void,
            Term::Boolean => Type::Boolean,
            Term::Number => Type::Number,
            Term::String => Type::String,
            Term::Nil => Type::Nil,
            Term::Product(l) => if self.below(l, r) {
                Type::Product(Box::new(self.shape(l.0 as int)))
            } else {
                Type::Void
            },
            Term::Function(d, c) => if self.below(d, r) && self.below(c, r) {
                Type::Function(Box::new(self.shape(d.0 as int)), Box::new(self.shape(c.0 as int)))
            } else {
                Type::Void
            },
            Term::Cons(h, l) => if self.below(h, r) && self.below(l, r) {
                Type::Cons(Box::new(self.shape(h.0 as int)), Box::new(self.shape(l.0 as int)))
            } else {
                Type::Void
            },
        }
    }

    /// Whether `t` stands for the type `ty`.
    pub fn has_type(&self, t: Ty, ty: &Type) -> (b: bool)
        requires
            self.wf(),
            self.has(t),
        ensures
            b == (self.shape(t.0 as int) == *ty),
        decreases ty,
    {
        let r = self.find_const(t);
        let ghost ri = r.0 as int;
        proof {
            self.lemma_rep_rep(t.0 as int);
        }
        match self.get(r) {
            Term::MetaVar => match ty {
                Type::Var(n) => r.0 == *n,
                _ => false,
            },
            Term::Void => match ty {
                Type::Void => true,
                _ => false,
            },
            Term::Boolean => match ty {
                Type::Boolean => true,
                _ => false,
            },
            Term::Number => match ty {
                Type::Number => true,
                _ => false,
            },
            Term::String => match ty {
                Type::String => true,
                _ => false,
            },
            Term::Nil => match ty {
                Type::Nil => true,
                _ => false,
            },
            Term::Product(l) => {
                assert(self.part(ri, 0) == l.0);
                match ty {
                    Type::Product(x) => self.has_type(l, x),
                    _ => false,
                }
            },
            Term::Function(d, c) => {
                assert(self.part(ri, 0) == d.0);
                assert(self.part(ri, 1) == c.0);
                match ty {
                    Type::Function(x, y) => self.has_type(d, x) && self.has_type(c, y),
                    _ => false,
                }
            },
            Term::Cons(h, l) => {
                assert(self.part(ri, 0) == h.0);
                assert(self.part(ri, 1) == l.0);
                match ty {
                    Type::Cons(x, y) => self.has_type(h, x) && self.has_type(l, y),
                    _ => false,
                }
            },
        }
    }
}

impl TypeGraph {
    /// Whether the class of `t` holds only metavariables: whether the type of `t` is
    /// still to be found.
    pub open spec fn open_at(&self, t: int) -> bool {
        self.term(self.rep(t)).is_meta()
    }

    /// Whether some type is still to be found.
    pub open spec fn undetermined(&self) -> bool {
        exists|t: int| 0 <= t < self.count() && #[trigger] self.open_at(t)
    }

    /// Whether some type is still to be found.
    pub fn has_undetermined(&self) -> (b: bool)
        requires
            self.wf(),
        ensures
            b == self.undetermined(),
    {
        let mut t: usize = 0;
        while t < self.terms.len()
            invariant
                self.wf(),
                t <= self.count(),
                forall|u: int| 0 <= u < t ==> !#[trigger] self.open_at(u),
            decreases self.count() - t,
        {
            let r = self.find_const(Ty(t));
            match self.get(r) {
                Term::MetaVar => {
                    assert(self.open_at(t as int));
                    return true;
                },
                _ => {},
            }
            t = t + 1;
        }
        false
    }
}

} // verus!
