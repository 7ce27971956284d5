//! The state of one check: the scopes, the declarations with their types, the graph of
//! type terms, and what was found for each node of the syntax tree.

use vstd::prelude::*;
use crate::program::{Name, Node, Program};
use crate::scheme::{chain, fresh_subst, listed, renamed, shape_list, unmarked};
use crate::scope::{Scope, ScopeTree, Var};
use crate::scoping::Found;
use crate::shape::Type;
use crate::type_graph::{
    follows, meets, models, term_part, Solution, Term, Ty, TypeGraph,
};

verus! {

/// The state of one check.
pub struct TypeSystem {
    /// The type terms and their classes.
    pub graph: TypeGraph,
    /// The scopes and the declarations.
    pub scopes: ScopeTree,
    /// The type of each declaration.
    pub var_ty: Vec<Ty>,
    /// For each declaration, the variables of its type that may differ from use to use.
    pub var_generic: Vec<Vec<Ty>>,
    /// For each declaration, whether all its uses are of its one type: whether it is a
    /// `let` or an argument.
    pub var_shared: Vec<bool>,
    /// For each node of the syntax tree that is a variable, its declaration.
    pub bindings: Vec<Option<Var>>,
    /// For each node of the syntax tree that is an expression, its type.
    pub expr_ty: Vec<Option<Ty>>,
    /// The pairs of types that were to be made one, in their order.
    pub log: Ghost<Seq<(Ty, Ty)>>,
    /// Whether a name was declared where it was visible already.
    pub shadowing: bool,
    /// Whether a name was used where no declaration of it was visible.
    pub undeclared: bool,
}

impl TypeSystem {
    /// Whether `t` is a term of the graph that stands for a type, not for a list.
    pub open spec fn is_type(&self, t: Ty) -> bool {
        self.graph.has(t) && !self.graph.term(t.0 as int).is_list()
    }

    /// Whether `t` is a term of the graph that stands for a list of types.
    pub open spec fn is_list(&self, t: Ty) -> bool {
        self.graph.has(t) && self.graph.term(t.0 as int).is_list()
    }

    /// Whether the classes of the graph are what the pairs of the log ask for: a
    /// conflict if no solution of the terms meets them all, and else the least solution
    /// that does.
    pub open spec fn faithful(&self) -> bool {
        &&& forall|q: int|
            0 <= q < self.log@.len() ==> self.graph.has((#[trigger] self.log@[q]).0)
                && self.graph.has(self.log@[q].1)
        &&& if self.graph.conflict {
            forall|sol: Solution|
                !(#[trigger] models(self.graph.terms@, sol) && meets(self.log@, sol.class))
        } else {
            &&& meets(self.log@, self.graph.root@)
            &&& forall|sol: Solution| #[trigger]
                models(self.graph.terms@, sol) && meets(self.log@, sol.class) ==> follows(
                    self.graph.root@,
                    sol.class,
                )
        }
    }

    /// The invariant of the state.
    pub open spec fn wf(&self) -> bool {
        &&& self.graph.wf()
        &&& self.faithful()
        &&& (self.graph.conflict || self.graph.settled())
        &&& self.scopes.wf()
        &&& self.var_ty@.len() == self.scopes.vars@.len()
        &&& self.var_generic@.len() == self.scopes.vars@.len()
        &&& self.var_shared@.len() == self.scopes.vars@.len()
        &&& forall|v: int|
            0 <= v < self.var_shared@.len() && #[trigger] self.var_shared@[v]
                ==> self.var_generic@[v]@.len() == 0
        &&& self.bindings@.len() == self.expr_ty@.len()
        &&& forall|v: int| 0 <= v < self.var_ty@.len() ==> self.is_type(#[trigger] self.var_ty@[v])
        &&& forall|n: int|
            0 <= n < self.bindings@.len() ==> (#[trigger] self.bindings@[n] matches Some(v)
                ==> self.scopes.has_var(v))
        &&& forall|n: int|
            0 <= n < self.expr_ty@.len() ==> (#[trigger] self.expr_ty@[n] matches Some(t)
                ==> self.is_type(t))
    }

    /// Whether the state has an entry for each node of `p`.
    pub open spec fn fits(&self, p: &Program) -> bool {
        self.bindings@.len() == p@.len()
    }

    /// Whether every node that has a declaration is a variable with the name of that
    /// declaration.
    pub open spec fn names_ok(&self, p: &Program) -> bool {
        forall|i: int|
            0 <= i < self.bindings@.len() ==> (#[trigger] self.bindings@[i] matches Some(v) ==> i
                < p@.len() && v.0 < self.scopes.vars@.len() && p@[i] == Node::VariableExpr(
                self.scopes.vars@[v.0 as int].0,
            ))
    }

    /// The names that are visible in the scope `s`.
    pub open spec fn env(&self, s: Scope) -> Set<Name> {
        Set::new(|n: Name| self.scopes.visible(s, n) is Some)
    }

    /// Whether the failures with names that are recorded are those that `before` had
    /// recorded, and `found`.
    pub open spec fn found_since(&self, before: &TypeSystem, found: Found) -> bool {
        &&& self.shadowing == (before.shadowing || found.shadowing)
        &&& self.undeclared == (before.undeclared || found.undeclared)
    }

    /// The names that are visible in a scope stay what they are when the tree of scopes
    /// grows, unless it grows in that scope or in one of its ancestors.
    pub proof fn lemma_env_kept(&self, other: &TypeSystem, s: Option<Scope>, t: Scope)
        requires
            self.scopes.wf(),
            other.scopes.wf(),
            self.scopes.grown_in(&other.scopes, s),
            self.scopes.has(t),
            s matches Some(a) ==> !self.scopes.within(t, a),
        ensures
            other.env(t) == self.env(t),
    {
        assert forall|n: Name| other.env(t).contains(n) == self.env(t).contains(n) by {
            self.scopes.lemma_visible_frame(&other.scopes, s, t, n);
        }
        assert(other.env(t) =~= self.env(t));
    }

    /// Whether `other` holds what `self` holds of scopes, declarations and syntax nodes.
    pub open spec fn tables_kept(&self, other: &TypeSystem) -> bool {
        &&& other.scopes == self.scopes
        &&& other.var_ty == self.var_ty
        &&& other.var_generic == self.var_generic
        &&& other.var_shared == self.var_shared
        &&& other.bindings == self.bindings
        &&& other.expr_ty == self.expr_ty
        &&& other.shadowing == self.shadowing
        &&& other.undeclared == self.undeclared
    }

    /// A solution of more terms is, on the terms that were there, a solution of these.
    pub proof fn lemma_models_fewer(terms: Seq<Term>, more: Seq<Term>, sol: Solution)
        requires
            terms.len() <= more.len(),
            forall|i: int| 0 <= i < terms.len() ==> #[trigger] more[i] == terms[i],
            forall|i: int, k: int|
                0 <= i < terms.len() && 0 <= k < terms[i].parts().len() ==> 0
                    <= #[trigger] term_part(terms, i, k) < terms.len(),
            models(more, sol),
        ensures
            models(
                terms,
                Solution {
                    class: sol.class.take(terms.len() as int),
                    rank: sol.rank.take(terms.len() as int),
                },
            ),
    {
        let n = terms.len() as int;
        let few = Solution { class: sol.class.take(n), rank: sol.rank.take(n) };
        assert forall|i: int, j: int|
            0 <= i < n && 0 <= j < n && #[trigger] few.same(i, j) && !terms[i].is_meta()
                && !terms[j].is_meta() implies terms[i].same_head(terms[j]) by {
            assert(sol.same(i, j));
        }
        assert forall|i: int, j: int, k: int|
            #![trigger few.same(i, j), term_part(terms, i, k)]
            0 <= i < n && 0 <= j < n && few.same(i, j) && !terms[i].is_meta()
                && !terms[j].is_meta() && 0 <= k < terms[i].parts().len() implies few.same(
            term_part(terms, i, k),
            term_part(terms, j, k),
        ) by {
            assert(sol.same(i, j));
            assert(terms[i].same_head(terms[j]));
            let a = term_part(terms, i, k);
            let b = term_part(terms, j, k);
            assert(term_part(more, i, k) == a);
            assert(term_part(more, j, k) == b);
            assert(sol.same(a, b));
            assert(0 <= a < n);
            assert(0 <= b < n);
        }
        assert forall|i: int, j: int| 0 <= i < n && 0 <= j < n && #[trigger] few.same(i, j) implies few.rank[i]
            == few.rank[j] by {
            assert(sol.same(i, j));
        }
        assert forall|i: int, k: int| 0 <= i < n && 0 <= k < terms[i].parts().len() implies few.rank[#[trigger] term_part(
            terms,
            i,
            k,
        )] < few.rank[i] by {
            let a = term_part(terms, i, k);
            assert(term_part(more, i, k) == a);
            assert(0 <= a < n);
        }
    }

    /// After one more pair was made one type, the classes are what the longer log asks
    /// for.
    pub proof fn lemma_faithful_step(&self, other: &TypeSystem, a: Ty, b: Ty)
        requires
            self.graph.wf(),
            self.graph.conflict || self.graph.settled(),
            self.faithful(),
            self.graph.has(a),
            self.graph.has(b),
            other.graph.terms == self.graph.terms,
            other.log@ == self.log@.push((a, b)),
            self.graph.conflict ==> other.graph.conflict,
            !self.graph.conflict ==> {
                &&& other.graph.conflict <==> forall|sol: Solution|
                    !(#[trigger] self.graph@.admits(sol) && sol.same(a.0 as int, b.0 as int))
                &&& !other.graph.conflict ==> {
                    &&& other.graph.same_class(a, b)
                    &&& follows(self.graph.root@, other.graph.root@)
                    &&& forall|sol: Solution| #[trigger]
                        self.graph@.admits(sol) && sol.same(a.0 as int, b.0 as int) ==> follows(
                            other.graph.root@,
                            sol.class,
                        )
                }
            },
        ensures
            other.faithful(),
    {
        let terms = self.graph.terms@;
        let log = self.log@;
        let more = other.log@;
        assert forall|sol: Solution| meets(more, sol.class) implies #[trigger] meets(
            log,
            sol.class,
        ) && sol.same(a.0 as int, b.0 as int) by {
            assert forall|q: int| 0 <= q < log.len() implies {
                let (x, y) = #[trigger] log[q];
                sol.class[x.0 as int] == sol.class[y.0 as int]
            } by {
                assert(more[q] == log[q]);
            }
            assert(more[log.len() as int] == (a, b));
        }
        assert forall|q: int| 0 <= q < more.len() implies other.graph.has((#[trigger] more[q]).0)
            && other.graph.has(more[q].1) by {
            if q < log.len() {
                assert(more[q] == log[q]);
                assert(self.graph.has(log[q].0));
            }
        }
        if self.graph.conflict {
            assert forall|sol: Solution| !(#[trigger] models(terms, sol) && meets(more, sol.class)) by {
                if models(terms, sol) && meets(more, sol.class) {
                    assert(meets(log, sol.class));
                }
            }
        } else if other.graph.conflict {
            assert forall|sol: Solution| !(#[trigger] models(terms, sol) && meets(more, sol.class)) by {
                if models(terms, sol) && meets(more, sol.class) {
                    assert(meets(log, sol.class));
                    assert(self.graph@.admits(sol));
                }
            }
        } else {
            let r = other.graph.root@;
            let o = self.graph.root@;
            assert forall|q: int| 0 <= q < more.len() implies {
                let (x, y) = #[trigger] more[q];
                r[x.0 as int] == r[y.0 as int]
            } by {
                if q < log.len() {
                    assert(more[q] == log[q]);
                    let (x, y) = log[q];
                    assert(self.graph.has(x) && self.graph.has(y));
                    assert(r[x.0 as int] == r[o[x.0 as int]]);
                    assert(r[y.0 as int] == r[o[y.0 as int]]);
                }
            }
            assert forall|sol: Solution| #[trigger]
                models(terms, sol) && meets(more, sol.class) implies follows(r, sol.class) by {
                assert(meets(log, sol.class));
                assert(self.graph@.admits(sol));
            }
        }
    }

    /// The classes of a graph that has grown are still what the pairs of the log ask
    /// for.
    pub proof fn lemma_faithful_grown(&self, other: &TypeSystem)
        requires
            self.graph.wf(),
            other.graph.wf(),
            self.faithful(),
            self.graph.grown_to(&other.graph),
            other.log == self.log,
        ensures
            other.faithful(),
    {
        let n = self.graph.count();
        let terms = self.graph.terms@;
        let more = other.graph.terms@;
        assert forall|i: int| 0 <= i < n implies #[trigger] more[i] == terms[i] by {
            self.graph.lemma_term_grown(&other.graph, i);
        }
        assert forall|i: int, k: int|
            0 <= i < n && 0 <= k < terms[i].parts().len() implies 0
            <= #[trigger] term_part(terms, i, k) < n by {
            assert(0 <= self.graph.part(i, k) < n);
        }
        assert forall|sol: Solution| #[trigger]
            models(more, sol) && meets(other.log@, sol.class) implies {
            let few = Solution { class: sol.class.take(n), rank: sol.rank.take(n) };
            models(terms, few) && meets(self.log@, few.class)
        } by {
            Self::lemma_models_fewer(terms, more, sol);
            let few = Solution { class: sol.class.take(n), rank: sol.rank.take(n) };
            assert forall|q: int| 0 <= q < self.log@.len() implies {
                let (a, b) = #[trigger] self.log@[q];
                few.class[a.0 as int] == few.class[b.0 as int]
            } by {
                let (a, b) = self.log@[q];
                assert(self.graph.has(a) && self.graph.has(b));
            }
        }
        if self.graph.conflict {
            assert forall|sol: Solution|
                !(#[trigger] models(more, sol) && meets(other.log@, sol.class)) by {
                if models(more, sol) && meets(other.log@, sol.class) {
                    let few = Solution { class: sol.class.take(n), rank: sol.rank.take(n) };
                    assert(models(terms, few));
                }
            }
        } else {
            assert forall|q: int| 0 <= q < other.log@.len() implies {
                let (a, b) = #[trigger] other.log@[q];
                other.graph.root@[a.0 as int] == other.graph.root@[b.0 as int]
            } by {
                let (a, b) = self.log@[q];
                assert(self.graph.has(a) && self.graph.has(b));
                self.graph.lemma_term_grown(&other.graph, a.0 as int);
                self.graph.lemma_term_grown(&other.graph, b.0 as int);
            }
            assert forall|sol: Solution| #[trigger]
                models(more, sol) && meets(other.log@, sol.class) implies follows(
                other.graph.root@,
                sol.class,
            ) by {
                let few = Solution { class: sol.class.take(n), rank: sol.rank.take(n) };
                assert(models(terms, few));
                assert(follows(self.graph.root@, few.class));
                assert forall|i: int| 0 <= i < other.graph.root@.len() implies sol.class[i]
                    == sol.class[#[trigger] other.graph.root@[i]] by {
                    if i < n {
                        self.graph.lemma_term_grown(&other.graph, i);
                        assert(few.class[i] == few.class[self.graph.root@[i]]);
                        assert(0 <= self.graph.rep(i) < n);
                    }
                }
            }
        }
        assert forall|q: int| 0 <= q < other.log@.len() implies other.graph.has(
            (#[trigger] other.log@[q]).0,
        ) && other.graph.has(other.log@[q].1) by {
            assert(self.graph.has(self.log@[q].0));
        }
    }

    /// Whether every type and list of `self` is one of `other`, and a conflict of `self`
    /// one of `other`.
    pub open spec fn terms_kept(&self, other: &TypeSystem) -> bool {
        &&& self.graph.count() <= other.graph.count()
        &&& forall|t: Ty| #[trigger] self.is_type(t) ==> other.is_type(t)
        &&& forall|t: Ty| #[trigger] self.is_list(t) ==> other.is_list(t)
        &&& self.graph.conflict ==> other.graph.conflict
    }

    /// Whether `other` may come after `self` in a check: it has the types, lists,
    /// scopes and declarations of `self`, and the failures that `self` has recorded.
    pub open spec fn advanced_to(&self, other: &TypeSystem) -> bool {
        &&& self.terms_kept(other)
        &&& self.scopes.parents@.len() <= other.scopes.parents@.len()
        &&& self.scopes.vars@.len() <= other.scopes.vars@.len()
        &&& self.var_ty@.len() <= other.var_ty@.len()
        &&& self.var_shared@.len() <= other.var_shared@.len()
        &&& self.bindings@.len() == other.bindings@.len()
        &&& (self.shadowing ==> other.shadowing)
        &&& (self.undeclared ==> other.undeclared)
        &&& forall|i: int|
            0 <= i < self.graph.count() ==> #[trigger] other.graph.terms@[i] == self.graph.terms@[i]
        &&& forall|a: Ty, b: Ty|
            self.graph.has(a) && self.graph.has(b) && #[trigger] self.linked(a, b) ==> other.linked(
                a,
                b,
            )
        &&& forall|v: int|
            0 <= v < self.var_ty@.len() ==> #[trigger] other.var_ty@[v] == self.var_ty@[v]
        &&& forall|v: int|
            0 <= v < self.var_shared@.len() ==> #[trigger] other.var_shared@[v]
                == self.var_shared@[v]
        &&& forall|v: int|
            0 <= v < self.scopes.vars@.len() ==> #[trigger] other.scopes.vars@[v]
                == self.scopes.vars@[v]
        &&& self.log@.len() <= other.log@.len()
        &&& forall|q: int| 0 <= q < self.log@.len() ==> #[trigger] other.log@[q] == self.log@[q]
        &&& self.refined(other)
        &&& self.scoped(other)
        &&& self.var_generic@.len() <= other.var_generic@.len()
        &&& forall|v: int|
            0 <= v < self.var_generic@.len() ==> #[trigger] other.var_generic@[v]
                == self.var_generic@[v] || self.var_generic@[v]@.len() == 0
    }

    /// Whether `other` has, for each declaration of `self`, the variables that may differ
    /// from use to use that `self` has for it.
    pub open spec fn generics_kept(&self, other: &TypeSystem) -> bool {
        &&& self.var_generic@.len() <= other.var_generic@.len()
        &&& forall|v: int|
            0 <= v < self.var_generic@.len() ==> #[trigger] other.var_generic@[v]
                == self.var_generic@[v]
    }

    /// Whether the graph of `other`, if it is without conflict, has come from the graph
    /// of `self` by new terms and by merging classes.
    #[verifier::opaque]
    pub open spec fn refined(&self, other: &TypeSystem) -> bool {
        !other.graph.conflict ==> self.graph.refined_by(&other.graph)
    }

    /// Whether every declaration that is visible in a scope of `self` is the one that is
    /// visible there in `other`, and the scopes of `self` have their parents in `other`.
    #[verifier::opaque]
    pub open spec fn scoped(&self, other: &TypeSystem) -> bool {
        self.scopes.kept_in(&other.scopes)
    }

    /// A state whose scopes are left as they are is scoped.
    pub proof fn lemma_scoped_same(&self, other: &TypeSystem)
        requires
            other.scopes == self.scopes,
        ensures
            self.scoped(other),
    {
        reveal(TypeSystem::scoped);
    }

    /// A state that is left as it is is refined.
    pub proof fn lemma_refined_same(&self, other: &TypeSystem)
        requires
            self.wf(),
            other.graph == self.graph,
        ensures
            self.refined(other),
    {
        reveal(TypeSystem::refined);
        if !self.graph.conflict {
            self.graph.lemma_refined_self();
        }
    }

    /// A state may come after itself.
    pub proof fn lemma_advanced_self(&self)
        requires
            self.wf(),
        ensures
            self.advanced_to(self),
    {
        self.lemma_refined_same(self);
        self.lemma_scoped_same(self);
    }

    /// Whether the types `a` and `b` have been made one, or a conflict was found.
    pub open spec fn linked(&self, a: Ty, b: Ty) -> bool {
        self.graph.conflict || self.graph.same_class(a, b)
    }

    /// What may come after what may come after a state may come after it.
    pub proof fn lemma_advanced_trans(&self, mid: &TypeSystem, other: &TypeSystem)
        requires
            self.advanced_to(mid),
            mid.advanced_to(other),
        ensures
            self.advanced_to(other),
    {
        assert forall|t: Ty| #[trigger] self.is_type(t) implies other.is_type(t) by {
            assert(mid.is_type(t));
        }
        assert forall|t: Ty| #[trigger] self.is_list(t) implies other.is_list(t) by {
            assert(mid.is_list(t));
        }
        assert forall|i: int| 0 <= i < self.graph.count() implies #[trigger] other.graph.terms@[i]
            == self.graph.terms@[i] by {
            assert(mid.graph.terms@[i] == self.graph.terms@[i]);
        }
        assert forall|a: Ty, b: Ty|
            self.graph.has(a) && self.graph.has(b) && #[trigger] self.linked(a, b) implies other.linked(
            a,
            b,
        ) by {
            assert(mid.linked(a, b));
        }
        assert forall|v: int| 0 <= v < self.var_ty@.len() implies #[trigger] other.var_ty@[v]
            == self.var_ty@[v] by {
            assert(mid.var_ty@[v] == self.var_ty@[v]);
        }
        assert forall|v: int| 0 <= v < self.var_shared@.len() implies #[trigger] other.var_shared@[v]
            == self.var_shared@[v] by {
            assert(mid.var_shared@[v] == self.var_shared@[v]);
        }
        assert forall|v: int| 0 <= v < self.scopes.vars@.len() implies #[trigger] other.scopes.vars@[v]
            == self.scopes.vars@[v] by {
            assert(mid.scopes.vars@[v] == self.scopes.vars@[v]);
        }
        assert forall|q: int| 0 <= q < self.log@.len() implies #[trigger] other.log@[q]
            == self.log@[q] by {
            assert(mid.log@[q] == self.log@[q]);
        }
        assert(self.refined(other)) by {
            reveal(TypeSystem::refined);
            if !other.graph.conflict {
                self.graph.lemma_refined_trans(&mid.graph, &other.graph);
            }
        }
        assert(self.scoped(other)) by {
            reveal(TypeSystem::scoped);
            assert forall|i: int| 0 <= i < self.scopes.parents@.len() implies #[trigger] other.scopes.parents@[i]
                == self.scopes.parents@[i] by {
                assert(mid.scopes.parents@[i] == self.scopes.parents@[i]);
            }
            assert forall|t: Scope, m: Name|
                self.scopes.has(t) && self.scopes.visible(t, m) is Some implies #[trigger] other.scopes.visible(
                t,
                m,
            ) == self.scopes.visible(t, m) by {
                assert(mid.scopes.visible(t, m) == self.scopes.visible(t, m));
                assert(mid.scopes.has(t));
            }
        }
        assert forall|v: int| 0 <= v < self.var_generic@.len() implies #[trigger] other.var_generic@[v]
            == self.var_generic@[v] || self.var_generic@[v]@.len() == 0 by {
            assert(mid.var_generic@[v] == self.var_generic@[v] || self.var_generic@[v]@.len()
                == 0);
        }
    }

    /// A state without scopes and terms, for the nodes of `p`.
    pub fn new(p: &Program) -> (sys: TypeSystem)
        ensures
            sys.wf(),
            sys.fits(p),
            !sys.shadowing,
            !sys.undeclared,
            !sys.graph.conflict,
            sys.graph.count() == 0,
            sys.scopes.parents@.len() == 0,
            sys.log@.len() == 0,
    {
        let mut bindings: Vec<Option<Var>> = Vec::new();
        let mut expr_ty: Vec<Option<Ty>> = Vec::new();
        let n = p.len();
        while bindings.len() < n
            invariant
                bindings@.len() == expr_ty@.len(),
                bindings@.len() <= n,
                forall|i: int| 0 <= i < bindings@.len() ==> bindings@[i] is None,
                forall|i: int| 0 <= i < expr_ty@.len() ==> expr_ty@[i] is None,
            decreases n - bindings@.len(),
        {
            bindings.push(None);
            expr_ty.push(None);
        }
        let graph = TypeGraph::new();
        assert(graph@.closed());
        TypeSystem {
            graph,
            scopes: ScopeTree::new(),
            var_ty: Vec::new(),
            var_generic: Vec::new(),
            var_shared: Vec::new(),
            bindings,
            expr_ty,
            log: Ghost(Seq::empty()),
            shadowing: false,
            undeclared: false,
        }
    }

    /// What grows in the graph keeps the state well formed.
    pub proof fn lemma_grown(&self, other: &TypeSystem)
        requires
            self.wf(),
            self.tables_kept(other),
            other.log == self.log,
            other.graph.wf(),
            self.graph.grown_to(&other.graph),
        ensures
            other.wf(),
            self.terms_kept(other),
            self.advanced_to(other),
    {
        self.lemma_faithful_grown(other);
        self.lemma_scoped_same(other);
        assert(self.refined(other)) by {
            reveal(TypeSystem::refined);
            if !other.graph.conflict {
                let n = self.graph.count();
                assert forall|i: int| 0 <= i < n implies #[trigger] other.graph.terms@[i]
                    == self.graph.terms@[i] by {
                    self.graph.lemma_term_grown(&other.graph, i);
                }
                assert forall|i: int| 0 <= i < n implies other.graph.rep(
                    #[trigger] self.graph.rep(i),
                ) == other.graph.rep(i) by {
                    self.graph.lemma_rep_rep(i);
                    self.graph.lemma_term_grown(&other.graph, i);
                    self.graph.lemma_term_grown(&other.graph, self.graph.rep(i));
                }
            }
        }
        assert forall|i: int| 0 <= i < self.graph.count() implies #[trigger] other.graph.terms@[i]
            == self.graph.terms@[i] by {
            self.graph.lemma_term_grown(&other.graph, i);
        }
        assert forall|a: Ty, b: Ty|
            self.graph.has(a) && self.graph.has(b) && #[trigger] self.linked(a, b) implies other.linked(
            a,
            b,
        ) by {
            self.graph.lemma_term_grown(&other.graph, a.0 as int);
            self.graph.lemma_term_grown(&other.graph, b.0 as int);
        }
        assert forall|t: Ty| #[trigger] self.is_type(t) implies other.is_type(t) by {
            self.graph.lemma_term_grown(&other.graph, t.0 as int);
        }
        assert forall|t: Ty| #[trigger] self.is_list(t) implies other.is_list(t) by {
            self.graph.lemma_term_grown(&other.graph, t.0 as int);
        }
        assert forall|v: int| 0 <= v < other.var_ty@.len() implies other.is_type(
            #[trigger] other.var_ty@[v],
        ) by {
            assert(self.is_type(self.var_ty@[v]));
        }
        assert forall|n: int| 0 <= n < other.expr_ty@.len() implies (
        #[trigger] other.expr_ty@[n] matches Some(t) ==> other.is_type(t)) by {
            if let Some(t) = self.expr_ty@[n] {
                assert(self.is_type(t));
            }
        }
    }

    /// Adds a term in a class of its own.
    pub fn build(&mut self, term: Term) -> (t: Ty)
        requires
            old(self).wf(),
            old(self).graph.fits(term),
        ensures
            final(self).wf(),
            final(self).log == old(self).log,
            forall|p: &Program| #[trigger] old(self).names_ok(p) ==> final(self).names_ok(p),
            old(self).advanced_to(final(self)),
            old(self).tables_kept(final(self)),
            old(self).terms_kept(final(self)),
            old(self).graph.grown_to(&final(self).graph),
            final(self).graph.has(t),
            final(self).graph.term(t.0 as int) == term,
            final(self).graph.wf(),
            t.0 == old(self).graph.count(),
            final(self).graph.count() == old(self).graph.count() + 1,
            final(self).graph.rep(t.0 as int) == t.0,
    {
        let t = self.graph.build(term);
        proof {
            old(self).lemma_grown(self);
        }
        t
    }

    /// A new metavariable: a type that is still to be found.
    pub fn fresh(&mut self) -> (t: Ty)
        requires
            old(self).wf(),
        ensures
            final(self).wf(),
            final(self).log == old(self).log,
            forall|p: &Program| #[trigger] old(self).names_ok(p) ==> final(self).names_ok(p),
            old(self).advanced_to(final(self)),
            old(self).tables_kept(final(self)),
            old(self).terms_kept(final(self)),
            old(self).graph.grown_to(&final(self).graph),
            final(self).is_type(t),
            final(self).graph.term(t.0 as int) == Term::MetaVar,
            t.0 == old(self).graph.count(),
            final(self).graph.count() == old(self).graph.count() + 1,
            final(self).graph.rep(t.0 as int) == t.0,
    {
        self.build(Term::MetaVar)
    }

    /// Adds the list of the types `items`.
    pub fn list_of(&mut self, items: &Vec<Ty>) -> (l: Ty)
        requires
            old(self).wf(),
            forall|i: int| 0 <= i < items@.len() ==> old(self).is_type(#[trigger] items@[i]),
        ensures
            final(self).wf(),
            final(self).log == old(self).log,
            forall|p: &Program| #[trigger] old(self).names_ok(p) ==> final(self).names_ok(p),
            old(self).advanced_to(final(self)),
            old(self).tables_kept(final(self)),
            old(self).terms_kept(final(self)),
            old(self).graph.grown_to(&final(self).graph),
            final(self).is_list(l),
            final(self).graph.shape(l.0 as int) == shape_list(&old(self).graph, items@),
            chain(&final(self).graph, l, items@),
    {
        proof {
            assert forall|i: int| 0 <= i < items@.len() implies self.graph.has(
                #[trigger] items@[i],
            ) && !self.graph.term(items@[i].0 as int).is_list() by {
                assert(self.is_type(items@[i]));
            }
        }
        let l = self.graph.list_of(items);
        proof {
            old(self).lemma_grown(self);
        }
        l
    }

    /// Makes the types `a` and `b` one type, or records a conflict, and adds the pair to
    /// the log.
    pub fn unify(&mut self, a: Ty, b: Ty)
        requires
            old(self).wf(),
            old(self).is_type(a),
            old(self).is_type(b),
        ensures
            final(self).wf(),
            final(self).log@ == old(self).log@.push((a, b)),
            forall|p: &Program| #[trigger] old(self).names_ok(p) ==> final(self).names_ok(p),
            old(self).advanced_to(final(self)),
            old(self).tables_kept(final(self)),
            old(self).terms_kept(final(self)),
            final(self).graph.terms == old(self).graph.terms,
            final(self).graph.conflict || final(self).graph.same_class(a, b),
            !final(self).graph.conflict ==> follows(old(self).graph.root@, final(self).graph.root@),
    {
        self.graph.unify(a, b);
        self.log = Ghost(self.log@.push((a, b)));
        proof {
            old(self).lemma_faithful_step(self, a, b);
            assert(old(self).refined(self)) by {
                reveal(TypeSystem::refined);
            }
            old(self).lemma_scoped_same(self);
            assert forall|x: Ty, y: Ty|
                old(self).graph.has(x) && old(self).graph.has(y) && #[trigger] old(self).linked(
                    x,
                    y,
                ) implies self.linked(x, y) by {
                if !self.graph.conflict {
                    let r = self.graph.root@;
                    let o = old(self).graph.root@;
                    assert(r[x.0 as int] == r[o[x.0 as int]]);
                    assert(r[y.0 as int] == r[o[y.0 as int]]);
                }
            }
            assert forall|v: int| 0 <= v < self.var_ty@.len() implies self.is_type(
                #[trigger] self.var_ty@[v],
            ) by {
                assert(old(self).is_type(old(self).var_ty@[v]));
            }
            assert forall|n: int| 0 <= n < self.expr_ty@.len() implies (
            #[trigger] self.expr_ty@[n] matches Some(t) ==> self.is_type(t)) by {
                if let Some(t) = old(self).expr_ty@[n] {
                    assert(old(self).is_type(t));
                }
            }
        }
    }

    /// The type of a use of the declaration `v`: its type, with each variable that may
    /// differ from use to use replaced by a new metavariable.
    pub fn instantiate(&mut self, v: Var) -> (t: Ty)
        requires
            old(self).wf(),
            old(self).scopes.has_var(v),
        ensures
            final(self).wf(),
            final(self).log == old(self).log,
            forall|p: &Program| #[trigger] old(self).names_ok(p) ==> final(self).names_ok(p),
            old(self).advanced_to(final(self)),
            old(self).tables_kept(final(self)),
            old(self).terms_kept(final(self)),
            old(self).graph.grown_to(&final(self).graph),
            final(self).is_type(t),
            final(self).graph.shape(t.0 as int) == renamed(
                old(self).graph.shape(old(self).var_ty@[v.0 as int].0 as int),
                fresh_subst(old(self).var_generic@[v.0 as int]@, old(self).graph.count()),
            ),
            old(self).var_generic@[v.0 as int]@.len() == 0 ==> t == old(self).var_ty@[v.0 as int],
    {
        let ty = self.var_ty[v.0];
        assert(self.is_type(ty));
        let t = self.graph.instantiate(ty, &self.var_generic[v.0]);
        proof {
            old(self).lemma_grown(self);
        }
        t
    }

    /// Adds a scope under `parent`, or a root.
    pub fn enter(&mut self, parent: Option<Scope>) -> (s: Scope)
        requires
            old(self).wf(),
            parent matches Some(p) ==> old(self).scopes.has(p),
        ensures
            final(self).wf(),
            final(self).log == old(self).log,
            forall|p: &Program| #[trigger] old(self).names_ok(p) ==> final(self).names_ok(p),
            old(self).advanced_to(final(self)),
            final(self).graph == old(self).graph,
            final(self).var_ty == old(self).var_ty,
            final(self).var_generic == old(self).var_generic,
            final(self).var_shared == old(self).var_shared,
            final(self).bindings == old(self).bindings,
            final(self).expr_ty == old(self).expr_ty,
            final(self).shadowing == old(self).shadowing,
            final(self).undeclared == old(self).undeclared,
            final(self).scopes.vars == old(self).scopes.vars,
            final(self).scopes.parents@ == old(self).scopes.parents@.push(parent),
            final(self).scopes.has(s),
            s.0 == old(self).scopes.parents@.len(),
            old(self).scopes.grown_in(&final(self).scopes, None),
            final(self).env(s) == (match parent {
                Some(p) => old(self).env(p),
                None => Set::empty(),
            }),
            forall|n: Name| #[trigger]
                final(self).scopes.visible(s, n) == (match parent {
                    Some(p) => old(self).scopes.visible(p, n),
                    None => None,
                }),
    {
        let s = self.scopes.enter(parent);
        proof {
            assert(self.env(s) =~= (match parent {
                Some(p) => old(self).env(p),
                None => Set::empty(),
            }));
            assert forall|v: int| 0 <= v < self.var_ty@.len() implies self.is_type(
                #[trigger] self.var_ty@[v],
            ) by {
                assert(old(self).is_type(old(self).var_ty@[v]));
            }
            assert forall|n: int| 0 <= n < self.expr_ty@.len() implies (
            #[trigger] self.expr_ty@[n] matches Some(t) ==> self.is_type(t)) by {
                if let Some(t) = old(self).expr_ty@[n] {
                    assert(old(self).is_type(t));
                }
            }
            old(self).lemma_refined_same(self);
            assert(old(self).scoped(self)) by {
                reveal(TypeSystem::scoped);
            }
        }
        s
    }

    /// Declares `n` in `s` with the type `ty`, or records that `n` is declared twice
    /// where a declaration of it is visible in `s`.
    pub fn declare(&mut self, s: Scope, n: Name, ty: Ty, shared: bool) -> (made: Option<Var>)
        requires
            old(self).wf(),
            old(self).scopes.has(s),
            old(self).is_type(ty),
        ensures
            final(self).wf(),
            final(self).log == old(self).log,
            forall|p: &Program| #[trigger] old(self).names_ok(p) ==> final(self).names_ok(p),
            old(self).advanced_to(final(self)),
            old(self).generics_kept(final(self)),
            final(self).graph == old(self).graph,
            final(self).bindings == old(self).bindings,
            final(self).expr_ty == old(self).expr_ty,
            final(self).undeclared == old(self).undeclared,
            final(self).scopes.parents == old(self).scopes.parents,
            made is None <==> old(self).scopes.visible(s, n) is Some,
            made is None <==> old(self).env(s).contains(n),
            final(self).shadowing == (old(self).shadowing || old(self).env(s).contains(n)),
            old(self).scopes.grown_in(&final(self).scopes, Some(s)),
            final(self).env(s) == old(self).env(s).insert(n),
            forall|t: Scope|
                #![trigger final(self).env(t)]
                old(self).scopes.has(t) && old(self).scopes.within(t, s) ==> final(self).env(t)
                    == old(self).env(t).insert(n),
            final(self).shadowing == (old(self).shadowing || made is None),
            made is None ==> final(self).scopes == old(self).scopes && final(self).var_ty
                == old(self).var_ty && final(self).var_generic == old(self).var_generic
                && final(self).var_shared == old(self).var_shared,
            made matches Some(v) ==> {
                &&& v.0 == old(self).scopes.vars@.len()
                &&& final(self).scopes.vars@ == old(self).scopes.vars@.push((n, s))
                &&& final(self).var_ty@ == old(self).var_ty@.push(ty)
                &&& final(self).var_shared@ == old(self).var_shared@.push(shared)
                &&& final(self).var_generic@.len() == old(self).var_generic@.len() + 1
                &&& final(self).var_generic@.take(v.0 as int) == old(self).var_generic@
                &&& final(self).var_generic@[v.0 as int]@.len() == 0
                &&& final(self).scopes.visible(s, n) == Some(v)
                &&& forall|t: Scope, m: Name|
                    m != n || !old(self).scopes.within(t, s) ==> #[trigger] final(self).scopes.visible(t, m) == old(self).scopes.visible(t, m)
            },
    {
        let made = self.scopes.declare(s, n);
        let ghost mid = self.scopes;
        match made {
            Some(v) => {
                self.var_ty.push(ty);
                self.var_generic.push(Vec::new());
                self.var_shared.push(shared);
                proof {
                    assert(self.var_generic@.take(v.0 as int) =~= old(self).var_generic@);
                    assert forall|v: int| 0 <= v < self.var_ty@.len() implies self.is_type(
                        #[trigger] self.var_ty@[v],
                    ) by {
                        if v < old(self).var_ty@.len() {
                            assert(old(self).is_type(old(self).var_ty@[v]));
                        }
                    }
                    assert forall|n: int| 0 <= n < self.expr_ty@.len() implies (
                    #[trigger] self.expr_ty@[n] matches Some(t) ==> self.is_type(t)) by {
                        if let Some(t) = old(self).expr_ty@[n] {
                            assert(old(self).is_type(t));
                        }
                    }
                    assert forall|n: int| 0 <= n < self.bindings@.len() implies (
                    #[trigger] self.bindings@[n] matches Some(v) ==> self.scopes.has_var(v)) by {
                        if let Some(v) = old(self).bindings@[n] {
                            assert(old(self).scopes.has_var(v));
                        }
                    }
                    assert forall|p: &Program| #[trigger] old(self).names_ok(p) implies self.names_ok(
                        p,
                    ) by {
                        assert forall|i: int| 0 <= i < self.bindings@.len() implies (
                        #[trigger] self.bindings@[i] matches Some(v) ==> i < p@.len() && v.0
                            < self.scopes.vars@.len() && p@[i] == Node::VariableExpr(
                            self.scopes.vars@[v.0 as int].0,
                        )) by {
                            if let Some(v) = old(self).bindings@[i] {
                                assert(old(self).scopes.vars@[v.0 as int]
                                    == self.scopes.vars@[v.0 as int]);
                            }
                        }
                    }
                }
            },
            None => {
                self.shadowing = true;
                proof {
                    assert forall|v: int| 0 <= v < self.var_ty@.len() implies self.is_type(
                        #[trigger] self.var_ty@[v],
                    ) by {
                        assert(old(self).is_type(old(self).var_ty@[v]));
                    }
                    assert forall|n: int| 0 <= n < self.expr_ty@.len() implies (
                    #[trigger] self.expr_ty@[n] matches Some(t) ==> self.is_type(t)) by {
                        if let Some(t) = old(self).expr_ty@[n] {
                            assert(old(self).is_type(t));
                        }
                    }
                }
            },
        }
        proof {
            assert(self.scopes == mid);
            assert forall|t: Scope|
                #![trigger self.env(t)]
                old(self).scopes.has(t) && old(self).scopes.within(t, s) implies self.env(t)
                == old(self).env(t).insert(n) by {
                old(self).scopes.lemma_within_kept(&mid, Some(s), t, s);
                assert forall|m: Name| self.env(t).contains(m) == old(self).env(t).insert(
                    n,
                ).contains(m) by {
                    if m == n {
                        if made is Some {
                            mid.lemma_visible_inherited(t, s, n);
                        } else {
                            old(self).scopes.lemma_visible_inherited(t, s, n);
                        }
                    } else {
                        if made is Some {
                            assert(mid.visible(t, m) == old(self).scopes.visible(t, m));
                        }
                    }
                }
                assert(self.env(t) =~= old(self).env(t).insert(n));
            }
            assert(old(self).scopes.within(s, s));
            old(self).lemma_refined_same(self);
            assert(old(self).scoped(self)) by {
                reveal(TypeSystem::scoped);
            }
        }
        made
    }

    /// Whether a declaration other than `f` whose scope is `s` or an ancestor of `s` has
    /// `x` as a variable of its type: whether the surroundings of `f` hold `x`.
    pub open spec fn env_holds(&self, s: Scope, f: Var, x: int) -> bool {
        exists|v: int|
            0 <= v < self.var_ty@.len() && v != f.0 && self.scopes.within(
                s,
                (#[trigger] self.scopes.vars@[v]).1,
            ) && self.graph.free_in(self.var_ty@[v], x)
    }

    /// Whether the variables of the type of the declaration `f` that may differ from
    /// use to use are those that its surroundings, seen from the scope `s`, do not hold.
    pub open spec fn generalized(&self, s: Scope, f: Var) -> bool {
        forall|x: int|
            0 <= x < self.graph.count() ==> #[trigger] listed(self.var_generic@[f.0 as int]@, x)
                == (self.graph.free_in(self.var_ty@[f.0 as int], x) && !self.env_holds(s, f, x))
    }

    /// Whether `t` is the type of a use of the declaration `v` as it was in `before`: the
    /// type of `v`, with each variable that may differ from use to use replaced by a
    /// metavariable that `before` did not have.
    pub open spec fn is_use_of(&self, before: &TypeSystem, v: Var, t: Ty) -> bool {
        self.graph.shape(t.0 as int) == before.use_of(v)
    }

    /// The type of a use of the declaration `v` as it is in this state: the type of `v`,
    /// with each variable that may differ from use to use replaced by a metavariable
    /// that this state does not have.
    pub open spec fn use_of(&self, v: Var) -> Type {
        renamed(
            self.graph.shape(self.var_ty@[v.0 as int].0 as int),
            fresh_subst(self.var_generic@[v.0 as int]@, self.graph.count()),
        )
    }

    /// Whether the type `t` was made as the type of a use of the declaration `v`: this
    /// state has come from a state `made`, and that from a state `before` by new terms
    /// alone, and `t` stood in `made` for [`Self::use_of`] `v` in `before`. Where `before`
    /// had no variables of `v` that may differ from use to use, `t` is the type of `v`
    /// itself, and else these variables are those that this state has for `v`.
    pub open spec fn uses(&self, v: Var, t: Ty) -> bool {
        exists|before: TypeSystem, made: TypeSystem|
            {
                &&& before.wf()
                &&& made.wf()
                &&& #[trigger] before.graph.grown_to(&made.graph)
                &&& before.advanced_to(&made)
                &&& made.advanced_to(self)
                &&& v.0 < before.var_ty@.len()
                &&& made.graph.has(t)
                &&& made.is_use_of(&before, v, t)
                &&& if before.var_generic@[v.0 as int]@.len() == 0 {
                    t == self.var_ty@[v.0 as int]
                } else {
                    before.var_generic@[v.0 as int] == self.var_generic@[v.0 as int]
                }
            }
    }

    /// A use of a declaration stays a use of it.
    pub proof fn lemma_uses_kept(&self, other: &TypeSystem, v: Var, t: Ty)
        requires
            self.advanced_to(other),
            self.uses(v, t),
        ensures
            other.uses(v, t),
    {
        let (before, made) = choose|before: TypeSystem, made: TypeSystem|
            {
                &&& before.wf()
                &&& made.wf()
                &&& #[trigger] before.graph.grown_to(&made.graph)
                &&& before.advanced_to(&made)
                &&& made.advanced_to(self)
                &&& v.0 < before.var_ty@.len()
                &&& made.graph.has(t)
                &&& made.is_use_of(&before, v, t)
                &&& if before.var_generic@[v.0 as int]@.len() == 0 {
                    t == self.var_ty@[v.0 as int]
                } else {
                    before.var_generic@[v.0 as int] == self.var_generic@[v.0 as int]
                }
            };
        made.lemma_advanced_trans(self, other);
        assert(other.var_ty@[v.0 as int] == self.var_ty@[v.0 as int]);
        assert(other.var_generic@[v.0 as int] == self.var_generic@[v.0 as int]
            || self.var_generic@[v.0 as int]@.len() == 0);
        assert(before.graph.grown_to(&made.graph));
    }

    /// The type of a use of a declaration, as it is made, is a use of it.
    pub proof fn lemma_use_made(&self, before: &TypeSystem, v: Var, t: Ty)
        requires
            before.wf(),
            self.wf(),
            before.advanced_to(self),
            before.graph.grown_to(&self.graph),
            self.graph.has(t),
            v.0 < before.var_ty@.len(),
            self.is_use_of(before, v, t),
            self.var_ty@[v.0 as int] == before.var_ty@[v.0 as int],
            self.var_generic@[v.0 as int] == before.var_generic@[v.0 as int],
            before.var_generic@[v.0 as int]@.len() == 0 ==> t == before.var_ty@[v.0 as int],
        ensures
            self.uses(v, t),
    {
        self.lemma_advanced_self();
        assert(before.graph.grown_to(&self.graph));
    }

    /// In a state without conflict, the type of a use of a declaration stands for the
    /// type that was made for it, with each variable replaced by what it has come to
    /// stand for.
    pub proof fn lemma_use_refined(&self, v: Var, t: Ty)
        requires
            self.wf(),
            !self.graph.conflict,
            self.uses(v, t),
        ensures
            exists|before: TypeSystem|
                before.wf() && #[trigger] before.advanced_to(self) && v.0 < before.var_ty@.len()
                    && self.graph.shape(t.0 as int) == self.graph.refine(before.use_of(v)),
    {
        let (before, made) = choose|before: TypeSystem, made: TypeSystem|
            {
                &&& before.wf()
                &&& made.wf()
                &&& #[trigger] before.graph.grown_to(&made.graph)
                &&& before.advanced_to(&made)
                &&& made.advanced_to(self)
                &&& v.0 < before.var_ty@.len()
                &&& made.graph.has(t)
                &&& made.is_use_of(&before, v, t)
                &&& if before.var_generic@[v.0 as int]@.len() == 0 {
                    t == self.var_ty@[v.0 as int]
                } else {
                    before.var_generic@[v.0 as int] == self.var_generic@[v.0 as int]
                }
            };
        reveal(TypeSystem::refined);
        made.graph.lemma_shape_refined(&self.graph, t.0 as int);
        before.lemma_advanced_trans(&made, self);
        assert(before.advanced_to(self));
    }

    /// Marks `s` and its ancestors.
    pub fn chain(&self, s: Scope) -> (marks: Vec<bool>)
        requires
            self.wf(),
            self.scopes.has(s),
        ensures
            marks@.len() == self.scopes.parents@.len(),
            forall|a: Scope|
                self.scopes.has(a) ==> marks@[a.0 as int] == #[trigger] self.scopes.within(s, a),
    {
        let mut marks = unmarked(self.scopes.parents.len());
        let mut cur = s;
        loop
            invariant
                self.wf(),
                self.scopes.has(cur),
                marks@.len() == self.scopes.parents@.len(),
                forall|a: Scope|
                    self.scopes.has(a) ==> #[trigger] self.scopes.within(s, a) == (marks@[a.0 as int]
                        || self.scopes.within(cur, a)),
            decreases cur.0,
        {
            let ghost before = marks@;
            marks.set(cur.0, true);
            match self.scopes.parents[cur.0] {
                Some(p) => {
                    proof {
                        assert forall|a: Scope| self.scopes.has(a) implies #[trigger] self.scopes.within(
                            s,
                            a,
                        ) == (marks@[a.0 as int] || self.scopes.within(p, a)) by {
                            assert(self.scopes.within(s, a) == (before[a.0 as int]
                                || self.scopes.within(cur, a)));
                            assert(self.scopes.within(cur, a) == (a == cur || self.scopes.within(
                                p,
                                a,
                            )));
                        }
                    }
                    cur = p;
                },
                None => {
                    proof {
                        assert forall|a: Scope| self.scopes.has(a) implies marks@[a.0 as int]
                            == #[trigger] self.scopes.within(s, a) by {
                            assert(self.scopes.within(s, a) == (before[a.0 as int]
                                || self.scopes.within(cur, a)));
                            assert(self.scopes.within(cur, a) == (a == cur));
                        }
                    }
                    return marks;
                },
            }
        }
    }

    /// Marks the variables of the types of the declarations other than `f` whose scope
    /// is `s` or an ancestor of `s`.
    pub fn env_marks(&self, s: Scope, f: Var) -> (env: Vec<bool>)
        requires
            self.wf(),
            self.scopes.has(s),
        ensures
            env@.len() == self.graph.count(),
            forall|x: int|
                0 <= x < env@.len() ==> #[trigger] env@[x] == self.env_holds(s, f, x),
    {
        let on_chain = self.chain(s);
        let mut env = unmarked(self.graph.terms.len());
        let mut v: usize = 0;
        while v < self.var_ty.len()
            invariant
                self.wf(),
                self.scopes.has(s),
                v <= self.var_ty@.len(),
                on_chain@.len() == self.scopes.parents@.len(),
                forall|a: Scope|
                    self.scopes.has(a) ==> on_chain@[a.0 as int] == #[trigger] self.scopes.within(
                        s,
                        a,
                    ),
                env@.len() == self.graph.count(),
                forall|x: int|
                    0 <= x < env@.len() ==> #[trigger] env@[x] == (exists|w: int|
                        0 <= w < v && w != f.0 && self.scopes.within(
                            s,
                            (#[trigger] self.scopes.vars@[w]).1,
                        ) && self.graph.free_in(self.var_ty@[w], x)),
            decreases self.var_ty@.len() - v,
        {
            let owner = self.scopes.vars[v].1;
            assert(self.scopes.has(owner));
            let ghost before = env@;
            let ghost vi = v as int;
            if v != f.0 && on_chain[owner.0] {
                assert(self.is_type(self.var_ty@[vi]));
                self.graph.mark(self.var_ty[v], &mut env);
            }
            proof {
                assert(on_chain@[owner.0 as int] == self.scopes.within(s, owner));
                assert forall|x: int| 0 <= x < env@.len() implies #[trigger] env@[x] == (exists|
                    w: int,
                |
                    0 <= w < v + 1 && w != f.0 && self.scopes.within(
                        s,
                        (#[trigger] self.scopes.vars@[w]).1,
                    ) && self.graph.free_in(self.var_ty@[w], x)) by {
                    let here = vi != f.0 && self.scopes.within(s, self.scopes.vars@[vi].1)
                        && self.graph.free_in(self.var_ty@[vi], x);
                    assert(env@[x] == (before[x] || here));
                    if before[x] {
                        let w = choose|w: int|
                            0 <= w < v && w != f.0 && self.scopes.within(
                                s,
                                (#[trigger] self.scopes.vars@[w]).1,
                            ) && self.graph.free_in(self.var_ty@[w], x);
                        assert(0 <= w < v + 1);
                    }
                    if exists|w: int|
                        0 <= w < v + 1 && w != f.0 && self.scopes.within(
                            s,
                            (#[trigger] self.scopes.vars@[w]).1,
                        ) && self.graph.free_in(self.var_ty@[w], x) {
                        let w = choose|w: int|
                            0 <= w < v + 1 && w != f.0 && self.scopes.within(
                                s,
                                (#[trigger] self.scopes.vars@[w]).1,
                            ) && self.graph.free_in(self.var_ty@[w], x);
                        if w < v {
                            assert(before[x]);
                        }
                    }
                }
            }
            v = v + 1;
        }
        env
    }

    /// Finds the variables of the type of the declaration `f` that may differ from use
    /// to use: those that its surroundings, seen from the scope `s`, do not hold.
    pub fn generalize(&mut self, s: Scope, f: Var)
        requires
            old(self).wf(),
            old(self).scopes.has(s),
            old(self).scopes.has_var(f),
            !old(self).var_shared@[f.0 as int],
            old(self).var_generic@[f.0 as int]@.len() == 0,
        ensures
            final(self).wf(),
            final(self).log == old(self).log,
            forall|p: &Program| #[trigger] old(self).names_ok(p) ==> final(self).names_ok(p),
            old(self).advanced_to(final(self)),
            final(self).graph == old(self).graph,
            final(self).scopes == old(self).scopes,
            final(self).var_ty == old(self).var_ty,
            final(self).var_shared == old(self).var_shared,
            final(self).bindings == old(self).bindings,
            final(self).expr_ty == old(self).expr_ty,
            final(self).shadowing == old(self).shadowing,
            final(self).undeclared == old(self).undeclared,
            final(self).var_generic@.len() == old(self).var_generic@.len(),
            final(self).generalized(s, f),
            forall|v: int|
                0 <= v < old(self).var_generic@.len() && v != f.0 ==> #[trigger] final(self).var_generic@[v] == old(self).var_generic@[v],
            forall|x: int|
                0 <= x < old(self).graph.count() ==> #[trigger] listed(
                    final(self).var_generic@[f.0 as int]@,
                    x,
                ) == (old(self).graph.free_in(old(self).var_ty@[f.0 as int], x) && !old(self).env_holds(s, f, x)),
    {
        let env = self.env_marks(s, f);
        assert(self.is_type(self.var_ty@[f.0 as int]));
        let generic = self.graph.generalize(self.var_ty[f.0], &env);
        self.var_generic.set(f.0, generic);
        proof {
            assert forall|v: int| 0 <= v < self.var_ty@.len() implies self.is_type(
                #[trigger] self.var_ty@[v],
            ) by {
                assert(old(self).is_type(old(self).var_ty@[v]));
            }
            assert forall|n: int| 0 <= n < self.expr_ty@.len() implies (
            #[trigger] self.expr_ty@[n] matches Some(t) ==> self.is_type(t)) by {
                if let Some(t) = old(self).expr_ty@[n] {
                    assert(old(self).is_type(t));
                }
            }
            assert forall|x: int| 0 <= x < old(self).graph.count() implies #[trigger] listed(
                self.var_generic@[f.0 as int]@,
                x,
            ) == (old(self).graph.free_in(old(self).var_ty@[f.0 as int], x) && !old(self).env_holds(s, f, x)) by {
                assert(env@[x] == old(self).env_holds(s, f, x));
            }
            old(self).lemma_refined_same(self);
            assert(old(self).scoped(self)) by {
                reveal(TypeSystem::scoped);
            }
        }
    }

    /// Records that the variable at node `e` refers to the declaration `v`.
    pub fn bind(&mut self, e: usize, v: Var)
        requires
            old(self).wf(),
            e < old(self).bindings@.len(),
            old(self).scopes.has_var(v),
        ensures
            final(self).wf(),
            final(self).log == old(self).log,
            forall|p: &Program|
                #![trigger old(self).names_ok(p)]
                old(self).names_ok(p) && e < p@.len() && p@[e as int] == Node::VariableExpr(
                    old(self).scopes.vars@[v.0 as int].0,
                ) ==> final(self).names_ok(p),
            old(self).advanced_to(final(self)),
            final(self).graph == old(self).graph,
            final(self).scopes == old(self).scopes,
            final(self).var_ty == old(self).var_ty,
            final(self).var_generic == old(self).var_generic,
            final(self).var_shared == old(self).var_shared,
            final(self).expr_ty == old(self).expr_ty,
            final(self).shadowing == old(self).shadowing,
            final(self).undeclared == old(self).undeclared,
            final(self).bindings@ == old(self).bindings@.update(e as int, Some(v)),
    {
        self.bindings.set(e, Some(v));
        proof {
            assert forall|v: int| 0 <= v < self.var_ty@.len() implies self.is_type(
                #[trigger] self.var_ty@[v],
            ) by {
                assert(old(self).is_type(old(self).var_ty@[v]));
            }
            assert forall|n: int| 0 <= n < self.expr_ty@.len() implies (
            #[trigger] self.expr_ty@[n] matches Some(t) ==> self.is_type(t)) by {
                if let Some(t) = old(self).expr_ty@[n] {
                    assert(old(self).is_type(t));
                }
            }
            assert forall|n: int| 0 <= n < self.bindings@.len() implies (
            #[trigger] self.bindings@[n] matches Some(v) ==> self.scopes.has_var(v)) by {
                if n != e {
                    if let Some(w) = old(self).bindings@[n] {
                        assert(old(self).scopes.has_var(w));
                    }
                }
            }
            old(self).lemma_refined_same(self);
            assert(old(self).scoped(self)) by {
                reveal(TypeSystem::scoped);
            }
        }
    }

    /// Records that the expression at node `e` has the type `t`.
    pub fn set_type(&mut self, e: usize, t: Ty)
        requires
            old(self).wf(),
            e < old(self).expr_ty@.len(),
            old(self).is_type(t),
        ensures
            final(self).wf(),
            final(self).log == old(self).log,
            forall|p: &Program| #[trigger] old(self).names_ok(p) ==> final(self).names_ok(p),
            old(self).advanced_to(final(self)),
            final(self).graph == old(self).graph,
            final(self).scopes == old(self).scopes,
            final(self).var_ty == old(self).var_ty,
            final(self).var_generic == old(self).var_generic,
            final(self).var_shared == old(self).var_shared,
            final(self).bindings == old(self).bindings,
            final(self).shadowing == old(self).shadowing,
            final(self).undeclared == old(self).undeclared,
            final(self).expr_ty@ == old(self).expr_ty@.update(e as int, Some(t)),
    {
        self.expr_ty.set(e, Some(t));
        proof {
            assert forall|v: int| 0 <= v < self.var_ty@.len() implies self.is_type(
                #[trigger] self.var_ty@[v],
            ) by {
                assert(old(self).is_type(old(self).var_ty@[v]));
            }
            assert forall|n: int| 0 <= n < self.expr_ty@.len() implies (
            #[trigger] self.expr_ty@[n] matches Some(t) ==> self.is_type(t)) by {
                if n != e {
                    if let Some(t) = old(self).expr_ty@[n] {
                        assert(old(self).is_type(t));
                    }
                }
            }
            old(self).lemma_refined_same(self);
            assert(old(self).scoped(self)) by {
                reveal(TypeSystem::scoped);
            }
        }
    }
}

} // verus!
