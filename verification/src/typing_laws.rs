//! What a valid derivation says of the types that the pieces of a module stand for,
//! once all obligations are met without a conflict.

use vstd::prelude::*;
use crate::program::{
    ExprListNode, ExprNode, FunctionNode, ModuleNode, Node, Program, StmtListNode, StmtNode,
};
use crate::type_check::stmts_proceed;
use crate::scheme::{chain, shape_list};
use crate::shape::Type;
use crate::type_graph::{models, Term, Ty, TypeGraph};
use crate::type_system::TypeSystem;
use crate::typing::{
    agrees, asks_expr, asks_exprs, asks_function, asks_module, asks_stmt, asks_stmts, solvable,
    types_of, valid_expr, valid_exprs, valid_function, valid_module, valid_stmt, valid_stmts,
    Deriv,
};

verus! {

impl TypeGraph {
    /// Terms of one class stand for one type.
    pub proof fn lemma_same_class_same_shape(&self, a: Ty, b: Ty)
        requires
            self.same_class(a, b),
        ensures
            self.shape(a.0 as int) == self.shape(b.0 as int),
    {
    }

    /// In a settled graph the type of a term is made of the types of its own parts.
    pub proof fn lemma_shape_of_term(&self, t: Ty)
        requires
            self.settled(),
            self.has(t),
        ensures
            match self.term(t.0 as int) {
                Term::MetaVar => true,
                Term::Void => self.shape(t.0 as int) == Type::Void,
                Term::Boolean => self.shape(t.0 as int) == Type::Boolean,
                Term::Number => self.shape(t.0 as int) == Type::Number,
                Term::String => self.shape(t.0 as int) == Type::String,
                Term::Nil => self.shape(t.0 as int) == Type::Nil,
                Term::Product(l) => self.has(l) && self.shape(t.0 as int) == Type::Product(
                    Box::new(self.shape(l.0 as int)),
                ),
                Term::Function(d, c) => self.has(d) && self.has(c) && self.shape(t.0 as int)
                    == Type::Function(
                    Box::new(self.shape(d.0 as int)),
                    Box::new(self.shape(c.0 as int)),
                ),
                Term::Cons(h, l) => self.has(h) && self.has(l) && self.shape(t.0 as int)
                    == Type::Cons(Box::new(self.shape(h.0 as int)), Box::new(self.shape(l.0 as int))),
            },
    {
        let i = t.0 as int;
        let r = self.rep(i);
        self.lemma_shape_parts(i);
        if !self.term(i).is_meta() {
            self.lemma_heads_agree(i, i);
            self.lemma_rep_rep(i);
            match self.term(i) {
                Term::Product(l) => {
                    self.lemma_parts_agree(i, r, 0);
                },
                Term::Function(d, c) => {
                    self.lemma_parts_agree(i, r, 0);
                    self.lemma_parts_agree(i, r, 1);
                },
                Term::Cons(h, l) => {
                    self.lemma_parts_agree(i, r, 0);
                    self.lemma_parts_agree(i, r, 1);
                },
                _ => {},
            }
        }
    }

    /// In a settled graph a list of terms stands for the list of their types.
    pub proof fn lemma_shape_of_chain(&self, l: Ty, items: Seq<Ty>)
        requires
            self.settled(),
            chain(self, l, items),
        ensures
            self.shape(l.0 as int) == shape_list(self, items),
        decreases items.len(),
    {
        self.lemma_shape_of_term(l);
        match self.term(l.0 as int) {
            Term::Cons(_, tail) => {
                self.lemma_shape_of_chain(tail, items.drop_first());
            },
            _ => {},
        }
    }
}

/// Types that are linked are one type, where no conflict was found.
pub proof fn lemma_linked_one_type(sys: &TypeSystem, a: Ty, b: Ty)
    requires
        !sys.graph.conflict,
        sys.linked(a, b),
    ensures
        sys.graph.shape(a.0 as int) == sys.graph.shape(b.0 as int),
{
}

/// A literal has its own type.
pub proof fn lemma_literal_typed(sys: &TypeSystem, p: &Program, e: ExprNode, d: Deriv)
    requires
        sys.graph.settled(),
        valid_expr(sys, p, e, d),
    ensures
        p@[e.0 as int] is VoidExpr ==> sys.graph.shape(d.ty.0 as int) == Type::Void,
        p@[e.0 as int] is TrueExpr ==> sys.graph.shape(d.ty.0 as int) == Type::Boolean,
        p@[e.0 as int] is FalseExpr ==> sys.graph.shape(d.ty.0 as int) == Type::Boolean,
        p@[e.0 as int] is StringLiteralExpr ==> sys.graph.shape(d.ty.0 as int) == Type::String,
        p@[e.0 as int] is NumberLiteralExpr ==> sys.graph.shape(d.ty.0 as int) == Type::Number,
{
    sys.graph.lemma_shape_of_term(d.ty);
}

/// A tuple has the product of the types of its members.
pub proof fn lemma_tuple_typed(sys: &TypeSystem, p: &Program, e: ExprNode, d: Deriv)
    requires
        sys.graph.settled(),
        valid_expr(sys, p, e, d),
        p@[e.0 as int] is TupleExpr,
    ensures
        sys.graph.shape(d.ty.0 as int) == Type::Product(
            Box::new(shape_list(&sys.graph, types_of(d.kids))),
        ),
{
    sys.graph.lemma_shape_of_term(d.ty);
    sys.graph.lemma_shape_of_chain(d.link, types_of(d.kids));
}

/// What is applied has the function type from the types of the arguments to the type
/// of the application.
pub proof fn lemma_application_typed(sys: &TypeSystem, p: &Program, e: ExprNode, d: Deriv)
    requires
        sys.graph.settled(),
        valid_expr(sys, p, e, d),
        p@[e.0 as int] is AppExpr,
    ensures
        sys.graph.shape(d.kids[0].ty.0 as int) == Type::Function(
            Box::new(shape_list(&sys.graph, types_of(d.kids.drop_first()))),
            Box::new(sys.graph.shape(d.ty.0 as int)),
        ),
{
    sys.graph.lemma_shape_of_term(d.link);
    match sys.graph.term(d.link.0 as int) {
        Term::Function(l, r) => {
            sys.graph.lemma_shape_of_chain(l, types_of(d.kids.drop_first()));
        },
        _ => {},
    }
}

/// The two sides of an equation have one type, and the equation is a boolean.
pub proof fn lemma_equation_typed(sys: &TypeSystem, p: &Program, e: ExprNode, d: Deriv)
    requires
        sys.graph.settled(),
        valid_expr(sys, p, e, d),
        p@[e.0 as int] is EqualsExpr,
    ensures
        sys.graph.shape(d.kids[0].ty.0 as int) == sys.graph.shape(d.kids[1].ty.0 as int),
        sys.graph.shape(d.ty.0 as int) == Type::Boolean,
{
    sys.graph.lemma_shape_of_term(d.ty);
}

/// Where no use of a name without declaration was recorded, every variable has one
/// declaration: the declaration of its name that is visible in its scope.
pub proof fn lemma_variable_bound(sys: &TypeSystem, p: &Program, e: ExprNode, d: Deriv)
    requires
        !sys.undeclared,
        valid_expr(sys, p, e, d),
        p@[e.0 as int] is VariableExpr,
    ensures
        d.var is Some,
        sys.scopes.has_var(d.var.unwrap()),
        p@[e.0 as int] == Node::VariableExpr(sys.scopes.vars@[d.var.unwrap().0 as int].0),
        sys.scopes.visible(d.scope, sys.scopes.vars@[d.var.unwrap().0 as int].0) == d.var,
{
}

/// A use of a `let` or of an argument has the type of its declaration.
pub proof fn lemma_variable_typed(sys: &TypeSystem, p: &Program, e: ExprNode, d: Deriv)
    requires
        valid_expr(sys, p, e, d),
        p@[e.0 as int] is VariableExpr,
        d.var is Some,
        sys.var_shared@[d.var.unwrap().0 as int],
    ensures
        d.ty == sys.var_ty@[d.var.unwrap().0 as int],
{
}

/// A `let` declares its name with the type of its value, which is the type that its
/// annotation writes.
pub proof fn lemma_let_typed(
    sys: &TypeSystem,
    p: &Program,
    s: StmtNode,
    cod: Option<Ty>,
    d: Deriv,
)
    requires
        sys.graph.settled(),
        valid_stmt(sys, p, s, cod, d),
        p@[s.0 as int] is LetStmt,
    ensures
        d.var matches Some(v) ==> sys.var_ty@[v.0 as int] == d.kids[0].ty
            && sys.var_shared@[v.0 as int],
        (match p@[s.0 as int] {
            Node::LetStmt(_, otn, _) => p@[otn.0 as int] is SomeOptType,
            _ => false,
        }) ==> sys.graph.shape(d.kids[1].ty.0 as int) == sys.graph.shape(d.kids[0].ty.0 as int),
{
}

/// A function has the function type from the types of its arguments to the type of
/// its result, and a function whose body can end returns nothing.
pub proof fn lemma_function_typed(sys: &TypeSystem, p: &Program, f: FunctionNode, d: Deriv)
    requires
        sys.graph.settled(),
        valid_function(sys, p, f, d),
        p@[f.0 as int] is Function,
    ensures
        sys.graph.shape(d.ty.0 as int) == Type::Function(
            Box::new(shape_list(&sys.graph, types_of(d.kids[0].kids))),
            Box::new(sys.graph.shape(d.kids[1].ty.0 as int)),
        ),
        (match p@[f.0 as int] {
            Node::Function(_, _, _, body) => stmts_proceed(p, body),
            _ => false,
        }) ==> sys.graph.shape(d.kids[1].ty.0 as int) == Type::Void,
        forall|i: int|
            0 <= i < d.kids[3].kids.len() ==> ((#[trigger] d.kids[3].kids[i]).var matches Some(v)
                ==> sys.var_ty@[v.0 as int] == d.kids[0].kids[i].ty),
{
    sys.graph.lemma_shape_of_term(d.ty);
    match sys.graph.term(d.ty.0 as int) {
        Term::Function(l, c) => {
            sys.graph.lemma_shape_of_chain(l, types_of(d.kids[0].kids));
        },
        _ => {},
    }
    match p@[f.0 as int] {
        Node::Function(_, _, _, body) => {
            if stmts_proceed(p, body) {
                sys.graph.lemma_shape_of_term(d.link);
            }
        },
        _ => {},
    }
    assert forall|i: int| 0 <= i < d.kids[3].kids.len() implies ((#[trigger] d.kids[3].kids[i]).var matches Some(
        v,
    ) ==> sys.var_ty@[v.0 as int] == d.kids[0].kids[i].ty) by {
        assert(types_of(d.kids[3].kids)[i] == types_of(d.kids[0].kids)[i]);
    }
}

/// What a function returns has the type of its result.
pub proof fn lemma_return_typed(sys: &TypeSystem, p: &Program, s: StmtNode, cod: Ty, d: Deriv)
    requires
        sys.graph.settled(),
        valid_stmt(sys, p, s, Some(cod), d),
    ensures
        p@[s.0 as int] is ReturnStmt ==> sys.graph.shape(cod.0 as int) == sys.graph.shape(
            d.kids[0].ty.0 as int,
        ),
        p@[s.0 as int] is ReturnVoidStmt ==> sys.graph.shape(cod.0 as int) == Type::Void,
{
    if p@[s.0 as int] is ReturnVoidStmt {
        sys.graph.lemma_shape_of_term(d.link);
    }
}

/// The condition of an `if` and of a `while` is a boolean.
pub proof fn lemma_condition_typed(
    sys: &TypeSystem,
    p: &Program,
    s: StmtNode,
    cod: Option<Ty>,
    d: Deriv,
)
    requires
        sys.graph.settled(),
        valid_stmt(sys, p, s, cod, d),
        p@[s.0 as int] is IfStmt || p@[s.0 as int] is WhileStmt,
    ensures
        sys.graph.shape(d.kids[0].ty.0 as int) == Type::Boolean,
{
    sys.graph.lemma_shape_of_term(d.link);
}

/// The two types of a pair that the rules ask for, for an expression with a valid
/// derivation, are linked.
pub proof fn lemma_asked_expr_linked(sys: &TypeSystem, p: &Program, e: ExprNode, d: Deriv, pr: (Ty, Ty))
    requires
        valid_expr(sys, p, e, d),
        asks_expr(p, e, d, pr),
    ensures
        sys.linked(pr.0, pr.1),
    decreases e.0, 0nat,
{
    match p@[e.0 as int] {
        Node::TupleExpr(l) => {
            lemma_asked_exprs_linked(sys, p, l, d.kids, pr);
        },
        Node::AppExpr(f, args) => {
            if asks_expr(p, f, d.kids[0], pr) {
                lemma_asked_expr_linked(sys, p, f, d.kids[0], pr);
            } else if asks_exprs(p, args, d.kids.drop_first(), pr) {
                lemma_asked_exprs_linked(sys, p, args, d.kids.drop_first(), pr);
            }
        },
        Node::EqualsExpr(l, r) => {
            if asks_expr(p, l, d.kids[0], pr) {
                lemma_asked_expr_linked(sys, p, l, d.kids[0], pr);
            } else if asks_expr(p, r, d.kids[1], pr) {
                lemma_asked_expr_linked(sys, p, r, d.kids[1], pr);
            }
        },
        Node::FunctionExpr(f) => {
            lemma_asked_function_linked(sys, p, f, d.kids[0], pr);
        },
        _ => {},
    }
}

/// The two types of a pair that the rules ask for, for an expression of a list with
/// valid derivations, are linked.
pub proof fn lemma_asked_exprs_linked(
    sys: &TypeSystem,
    p: &Program,
    l: ExprListNode,
    ds: Seq<Deriv>,
    pr: (Ty, Ty),
)
    requires
        valid_exprs(sys, p, l, ds),
        asks_exprs(p, l, ds, pr),
    ensures
        sys.linked(pr.0, pr.1),
    decreases l.0, 1nat,
{
    let i = choose|i: int|
        0 <= i < ds.len() && i < p.expr_list(l).len() && p.expr_list(l)[i].0 < l.0 && asks_expr(
            p,
            p.expr_list(l)[i],
            #[trigger] ds[i],
            pr,
        );
    lemma_asked_expr_linked(sys, p, p.expr_list(l)[i], ds[i], pr);
}

/// The two types of a pair that the rules ask for, for a function with a valid
/// derivation, are linked.
pub proof fn lemma_asked_function_linked(
    sys: &TypeSystem,
    p: &Program,
    f: FunctionNode,
    d: Deriv,
    pr: (Ty, Ty),
)
    requires
        valid_function(sys, p, f, d),
        asks_function(p, f, d, pr),
    ensures
        sys.linked(pr.0, pr.1),
    decreases f.0, 0nat,
{
    match p@[f.0 as int] {
        Node::Function(_, _, _, body) => {
            if asks_stmts(p, body, Some(d.kids[1].ty), d.kids[2].kids, pr) {
                lemma_asked_stmts_linked(sys, p, body, Some(d.kids[1].ty), d.kids[2].kids, pr);
            }
        },
        _ => {},
    }
}

/// The two types of a pair that the rules ask for, for a statement with a valid
/// derivation, are linked.
pub proof fn lemma_asked_stmt_linked(
    sys: &TypeSystem,
    p: &Program,
    s: StmtNode,
    cod: Option<Ty>,
    d: Deriv,
    pr: (Ty, Ty),
)
    requires
        valid_stmt(sys, p, s, cod, d),
        asks_stmt(p, s, cod, d, pr),
    ensures
        sys.linked(pr.0, pr.1),
    decreases s.0, 0nat,
{
    match p@[s.0 as int] {
        Node::ExprStmt(e) => {
            lemma_asked_expr_linked(sys, p, e, d.kids[0], pr);
        },
        Node::LetStmt(_, _, e) => {
            if asks_expr(p, e, d.kids[0], pr) {
                lemma_asked_expr_linked(sys, p, e, d.kids[0], pr);
            }
        },
        Node::ReturnStmt(e) => {
            if asks_expr(p, e, d.kids[0], pr) {
                lemma_asked_expr_linked(sys, p, e, d.kids[0], pr);
            }
        },
        Node::FunctionStmt(f) => {
            lemma_asked_function_linked(sys, p, f, d.kids[0], pr);
        },
        Node::IfStmt(c, t, e) => {
            if asks_expr(p, c, d.kids[0], pr) {
                lemma_asked_expr_linked(sys, p, c, d.kids[0], pr);
            } else if asks_stmts(p, t, cod, d.kids[1].kids, pr) {
                lemma_asked_stmts_linked(sys, p, t, cod, d.kids[1].kids, pr);
            } else if asks_stmts(p, e, cod, d.kids[2].kids, pr) {
                lemma_asked_stmts_linked(sys, p, e, cod, d.kids[2].kids, pr);
            }
        },
        Node::WhileStmt(c, b) => {
            if asks_expr(p, c, d.kids[0], pr) {
                lemma_asked_expr_linked(sys, p, c, d.kids[0], pr);
            } else if asks_stmts(p, b, cod, d.kids[1].kids, pr) {
                lemma_asked_stmts_linked(sys, p, b, cod, d.kids[1].kids, pr);
            }
        },
        _ => {},
    }
}

/// The two types of a pair that the rules ask for, for a statement of a list with valid
/// derivations, are linked.
pub proof fn lemma_asked_stmts_linked(
    sys: &TypeSystem,
    p: &Program,
    l: StmtListNode,
    cod: Option<Ty>,
    ds: Seq<Deriv>,
    pr: (Ty, Ty),
)
    requires
        valid_stmts(sys, p, l, cod, ds),
        asks_stmts(p, l, cod, ds, pr),
    ensures
        sys.linked(pr.0, pr.1),
    decreases l.0, 1nat,
{
    let i = choose|i: int|
        0 <= i < ds.len() && i < p.stmt_list(l).len() && p.stmt_list(l)[i].0 < l.0 && asks_stmt(
            p,
            p.stmt_list(l)[i],
            cod,
            #[trigger] ds[i],
            pr,
        );
    lemma_asked_stmt_linked(sys, p, p.stmt_list(l)[i], cod, ds[i], pr);
}

/// The types of a module with a valid derivation over a graph without conflict and
/// without open obligations can be made to agree: the classes of the graph are a
/// solution of its terms that makes one type of every pair that the rules ask for.
pub proof fn lemma_well_typed_solvable(sys: &TypeSystem, p: &Program, m: ModuleNode, d: Deriv)
    requires
        sys.graph.settled(),
        valid_module(sys, p, m, d),
    ensures
        solvable(sys, p, m, d),
{
    let sol = sys.graph.own_solution();
    sys.graph.lemma_own_solution();
    assert forall|pr: (Ty, Ty)| #[trigger] asks_module(p, m, d, pr) implies sol.same(
        pr.0.0 as int,
        pr.1.0 as int,
    ) by {
        match p@[m.0 as int] {
            Node::Module(body) => {
                lemma_asked_stmts_linked(sys, p, body, None, d.kids, pr);
            },
            _ => {},
        }
    }
    assert(models(sys.graph.terms@, sol) && agrees(p, m, d, sol));
}

} // verus!
