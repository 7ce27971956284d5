//! What typing means: which terms the pieces of a syntax tree have as their types, and
//! which of them have to be one type.
//!
//! A derivation gives a piece its type and its scope, and its parts their derivations.
//! It is valid where every piece has the type that its kind asks for: a literal its
//! own, a tuple the product of the types of its members, and so on. Types that have to
//! be one are linked: they are in one class, or a conflict was found. The parts of an
//! expression stand in its scope, the statements of a block in a scope of their own
//! under the scope of the block, and a variable is a use of the declaration of its name
//! that is visible in its scope.
//!
//! The pairs of types that the rules ask to be one are the pairs that a check tries to
//! make one. The types of a module can be made to agree where a solution of the terms
//! makes one type of each of these pairs.

use vstd::prelude::*;
use crate::program::{
    ArgListNode, ExprListNode, ExprNode, FunctionNode, ModuleNode, Name, Node, OptTypeNode,
    Program, StmtListNode, StmtNode, TypeListNode, TypeNode,
};
use crate::scheme::chain;
use crate::scope::{Scope, Var};
use crate::type_check::stmts_proceed;
use crate::type_graph::{models, Solution, Term, Ty};
use crate::type_system::TypeSystem;

verus! {

/// The type of a piece of syntax, with the derivations of its parts.
pub ghost struct Deriv {
    /// The type of the piece.
    pub ty: Ty,
    /// A further term that the rule of the piece speaks of.
    pub link: Ty,
    /// The declaration that the piece makes or uses.
    pub var: Option<Var>,
    /// The scope in which the piece stands, or of which its parts are.
    pub scope: Scope,
    /// The derivations of the parts.
    pub kids: Seq<Deriv>,
}

/// The types of derivations.
pub open spec fn types_of(ds: Seq<Deriv>) -> Seq<Ty> {
    ds.map_values(|d: Deriv| d.ty)
}

/// Whether the derivations `ds` are of pieces that stand in the scope `s`.
pub open spec fn all_in(ds: Seq<Deriv>, s: Scope) -> bool {
    forall|i: int| 0 <= i < ds.len() ==> (#[trigger] ds[i]).scope == s
}

/// Whether `inner` is a scope directly under the scope `s`.
pub open spec fn under(sys: &TypeSystem, inner: Scope, s: Scope) -> bool {
    sys.scopes.has(inner) && sys.scopes.parents@[inner.0 as int] == Some(s)
}

/// Whether `v` is the declaration of the name `n` that is visible in the scope `s`.
pub open spec fn sees(sys: &TypeSystem, s: Scope, n: Name, v: Var) -> bool {
    sys.scopes.has(s) && sys.scopes.visible(s, n) == Some(v)
}

/// Whether the declaration `v` is made in the scope `s`.
pub open spec fn declared_in(sys: &TypeSystem, v: Var, s: Scope) -> bool {
    v.0 < sys.scopes.vars@.len() && sys.scopes.vars@[v.0 as int].1 == s
}

/// A scope stays under the scope that it is under, a declaration that is visible stays
/// the one that is visible, and a declaration stays in its scope.
pub proof fn lemma_scopes_kept(old: &TypeSystem, new: &TypeSystem)
    requires
        old.advanced_to(new),
    ensures
        forall|inner: Scope, s: Scope| #[trigger] under(old, inner, s) ==> under(new, inner, s),
        forall|s: Scope, n: Name, v: Var| #[trigger] sees(old, s, n, v) ==> sees(new, s, n, v),
        forall|v: Var, s: Scope| #[trigger] declared_in(old, v, s) ==> declared_in(new, v, s),
{
    reveal(TypeSystem::scoped);
    assert forall|v: Var, s: Scope| #[trigger] declared_in(old, v, s) implies declared_in(
        new,
        v,
        s,
    ) by {
        assert(new.scopes.vars@[v.0 as int] == old.scopes.vars@[v.0 as int]);
    }
}

/// Whether `v` is a declaration of the name `n` with the type `ty`.
pub open spec fn declares(sys: &TypeSystem, v: Var, n: Name, ty: Ty) -> bool {
    sys.scopes.has_var(v) && v.0 < sys.var_ty@.len() && sys.scopes.vars@[v.0 as int].0 == n
        && sys.var_ty@[v.0 as int] == ty
}

/// Whether `v` is a declaration of the name `n` with the type `ty`, of which all uses
/// are of that type.
pub open spec fn declares_shared(sys: &TypeSystem, v: Var, n: Name, ty: Ty) -> bool {
    declares(sys, v, n, ty) && v.0 < sys.var_shared@.len() && sys.var_shared@[v.0 as int]
}

/// Whether `d` derives the type that the annotation `a` writes.
pub open spec fn valid_ty(sys: &TypeSystem, p: &Program, a: TypeNode, d: Deriv) -> bool
    decreases a.0, 0nat,
{
    sys.is_type(d.ty) && a.0 < p@.len() && (match p@[a.0 as int] {
        Node::VoidType => sys.graph.term(d.ty.0 as int) == Term::Void,
        Node::BooleanType => sys.graph.term(d.ty.0 as int) == Term::Boolean,
        Node::NumberType => sys.graph.term(d.ty.0 as int) == Term::Number,
        Node::StringType => sys.graph.term(d.ty.0 as int) == Term::String,
        Node::ProductType(l) => l.0 < a.0 && sys.graph.term(d.ty.0 as int) == Term::Product(
            d.link,
        ) && chain(&sys.graph, d.link, types_of(d.kids)) && valid_tys(sys, p, l, d.kids),
        Node::FunctionType(args, cod) => args.0 < a.0 && cod.0 < a.0 && d.kids.len() >= 1
            && sys.graph.term(d.ty.0 as int) == Term::Function(d.link, d.kids.last().ty) && chain(
            &sys.graph,
            d.link,
            types_of(d.kids.drop_last()),
        ) && valid_arg_tys(sys, p, args, d.kids.drop_last()) && valid_ty(
            sys,
            p,
            cod,
            d.kids.last(),
        ),
        _ => true,
    })
}

/// Whether `ds` derive the types that the annotations of the list write.
pub open spec fn valid_tys(sys: &TypeSystem, p: &Program, l: TypeListNode, ds: Seq<Deriv>) -> bool
    decreases l.0, 1nat,
{
    ds.len() == p.type_list(l).len() && forall|i: int|
        0 <= i < ds.len() && p.type_list(l)[i].0 < l.0 ==> valid_ty(
            sys,
            p,
            p.type_list(l)[i],
            #[trigger] ds[i],
        )
}

/// Whether `d` derives the type that an annotation writes, or a metavariable where the
/// annotation is left out.
pub open spec fn valid_opt_ty(sys: &TypeSystem, p: &Program, otn: OptTypeNode, d: Deriv) -> bool
    decreases otn.0, 1nat,
{
    sys.is_type(d.ty) && otn.0 < p@.len() && (match p@[otn.0 as int] {
        Node::SomeOptType(a) => a.0 < otn.0 && valid_ty(sys, p, a, d),
        _ => sys.graph.term(d.ty.0 as int) == Term::MetaVar,
    })
}

/// Whether `d` derives the type that the annotation of a `let` writes, if it is there.
pub open spec fn valid_annotation(sys: &TypeSystem, p: &Program, otn: OptTypeNode, d: Deriv) -> bool {
    sys.is_type(d.ty) && otn.0 < p@.len() && (match p@[otn.0 as int] {
        Node::SomeOptType(a) => a.0 < otn.0 && valid_ty(sys, p, a, d),
        _ => true,
    })
}

/// Whether `ds` derive the types of the arguments of the list: what the annotation of
/// each writes.
pub open spec fn valid_arg_tys(sys: &TypeSystem, p: &Program, args: ArgListNode, ds: Seq<Deriv>) -> bool
    decreases args.0, 2nat,
{
    ds.len() == p.arg_list(args).len() && forall|i: int|
        0 <= i < ds.len() && p.arg_list(args)[i].1.0 < args.0 ==> valid_opt_ty(
            sys,
            p,
            p.arg_list(args)[i].1,
            #[trigger] ds[i],
        )
}

/// Whether the declarations of `ds` are the arguments of the list, each with the type
/// that `ds` derives for it. An argument is without declaration only where a name that
/// was declared where it was visible was recorded.
pub open spec fn valid_args(sys: &TypeSystem, p: &Program, args: ArgListNode, ds: Seq<Deriv>) -> bool {
    ds.len() == p.arg_list(args).len() && forall|i: int|
        0 <= i < ds.len() ==> (match (#[trigger] ds[i]).var {
            Some(v) => declares_shared(sys, v, p.arg_list(args)[i].0, ds[i].ty) && declared_in(
                sys,
                v,
                ds[i].scope,
            ),
            None => sys.shadowing,
        })
}

/// Whether `d` derives the type of the expression `e`.
///
/// A variable has a declaration of its name, unless a use without declaration was
/// recorded, and its type is the type of a use of that declaration: the type of the
/// declaration itself for a `let` or an argument, and for a function its type with new
/// metavariables for the variables that may differ from use to use.
pub open spec fn valid_expr(sys: &TypeSystem, p: &Program, e: ExprNode, d: Deriv) -> bool
    decreases e.0, 0nat,
{
    sys.is_type(d.ty) && e.0 < p@.len() && (match p@[e.0 as int] {
        Node::VariableExpr(n) => (match d.var {
            Some(v) => sys.scopes.has_var(v) && v.0 < sys.var_ty@.len() && v.0
                < sys.var_shared@.len() && sys.scopes.vars@[v.0 as int].0 == n && (
            sys.var_shared@[v.0 as int] ==> d.ty == sys.var_ty@[v.0 as int]) && sys.uses(
                v,
                d.ty,
            ) && sees(sys, d.scope, n, v),
            None => sys.undeclared && sys.graph.term(d.ty.0 as int) == Term::MetaVar,
        }),
        Node::VoidExpr => sys.graph.term(d.ty.0 as int) == Term::Void,
        Node::TrueExpr => sys.graph.term(d.ty.0 as int) == Term::Boolean,
        Node::FalseExpr => sys.graph.term(d.ty.0 as int) == Term::Boolean,
        Node::StringLiteralExpr(_) => sys.graph.term(d.ty.0 as int) == Term::String,
        Node::NumberLiteralExpr(_) => sys.graph.term(d.ty.0 as int) == Term::Number,
        Node::TupleExpr(l) => l.0 < e.0 && sys.graph.term(d.ty.0 as int) == Term::Product(d.link)
            && chain(&sys.graph, d.link, types_of(d.kids)) && valid_exprs(sys, p, l, d.kids)
            && all_in(d.kids, d.scope),
        Node::AppExpr(f, args) => f.0 < e.0 && args.0 < e.0 && d.kids.len() >= 1 && valid_expr(
            sys,
            p,
            f,
            d.kids[0],
        ) && valid_exprs(sys, p, args, d.kids.drop_first()) && sys.is_type(d.link) && (
        match sys.graph.term(d.link.0 as int) {
            Term::Function(l, r) => r == d.ty && chain(
                &sys.graph,
                l,
                types_of(d.kids.drop_first()),
            ),
            _ => false,
        }) && sys.linked(d.kids[0].ty, d.link) && all_in(d.kids, d.scope) && sys.graph.term(
            d.ty.0 as int,
        ) == Term::MetaVar,
        Node::EqualsExpr(l, r) => l.0 < e.0 && r.0 < e.0 && d.kids.len() == 2 && valid_expr(
            sys,
            p,
            l,
            d.kids[0],
        ) && valid_expr(sys, p, r, d.kids[1]) && sys.linked(d.kids[0].ty, d.kids[1].ty)
            && sys.graph.term(d.ty.0 as int) == Term::Boolean && all_in(d.kids, d.scope),
        Node::FunctionExpr(f) => f.0 < e.0 && d.kids.len() == 1 && valid_function(
            sys,
            p,
            f,
            d.kids[0],
        ) && d.ty == d.kids[0].ty && all_in(d.kids, d.scope) && (
        d.kids[0].var matches Some(v) ==> d.kids[0].kids.len() == 4 && declared_in(
            sys,
            v,
            d.kids[0].kids[2].scope,
        )),
        _ => true,
    })
}

/// Whether `ds` derive the types of the expressions of the list.
pub open spec fn valid_exprs(sys: &TypeSystem, p: &Program, l: ExprListNode, ds: Seq<Deriv>) -> bool
    decreases l.0, 1nat,
{
    ds.len() == p.expr_list(l).len() && forall|i: int|
        0 <= i < ds.len() && p.expr_list(l)[i].0 < l.0 ==> valid_expr(
            sys,
            p,
            p.expr_list(l)[i],
            #[trigger] ds[i],
        )
}

/// Whether `d` derives the type of the function `f`: the function type from the types
/// of its arguments to the type of its result, which is what its body returns, and
/// nothing where the end of the body can be reached.
pub open spec fn valid_function(sys: &TypeSystem, p: &Program, f: FunctionNode, d: Deriv) -> bool
    decreases f.0, 0nat,
{
    sys.is_type(d.ty) && f.0 < p@.len() && (match p@[f.0 as int] {
        Node::Function(name, args, cod, body) => {
            &&& args.0 < f.0 && cod.0 < f.0 && body.0 < f.0
            &&& d.kids.len() == 4
            &&& (match sys.graph.term(d.ty.0 as int) {
                Term::Function(l, c) => c == d.kids[1].ty && chain(
                    &sys.graph,
                    l,
                    types_of(d.kids[0].kids),
                ),
                _ => false,
            })
            &&& valid_arg_tys(sys, p, args, d.kids[0].kids)
            &&& valid_args(sys, p, args, d.kids[3].kids)
            &&& types_of(d.kids[3].kids) == types_of(d.kids[0].kids)
            &&& valid_opt_ty(sys, p, cod, d.kids[1])
            &&& valid_stmts(sys, p, body, Some(d.kids[1].ty), d.kids[2].kids)
            &&& under(sys, d.kids[2].scope, d.scope)
            &&& all_in(d.kids[2].kids, d.kids[2].scope)
            &&& all_in(d.kids[3].kids, d.kids[2].scope)
            &&& (stmts_proceed(p, body) ==> sys.is_type(d.link) && sys.graph.term(
                d.link.0 as int,
            ) == Term::Void && sys.linked(d.kids[1].ty, d.link))
            &&& (match d.var {
                Some(v) => name matches Some(n) && declares(sys, v, n, d.ty) && (declared_in(
                    sys,
                    v,
                    d.scope,
                ) || declared_in(sys, v, d.kids[2].scope)),
                None => name is None || sys.shadowing,
            })
        },
        _ => true,
    })
}

/// Whether `d` derives the statement `s` of a function whose result has the type `cod`,
/// or a statement of no function.
pub open spec fn valid_stmt(
    sys: &TypeSystem,
    p: &Program,
    s: StmtNode,
    cod: Option<Ty>,
    d: Deriv,
) -> bool
    decreases s.0, 0nat,
{
    s.0 < p@.len() && (match p@[s.0 as int] {
        Node::ExprStmt(e) => e.0 < s.0 && d.kids.len() == 1 && valid_expr(sys, p, e, d.kids[0])
            && all_in(d.kids, d.scope),
        Node::LetStmt(n, otn, e) => {
            &&& otn.0 < s.0 && e.0 < s.0
            &&& d.kids.len() == 2
            &&& valid_expr(sys, p, e, d.kids[0])
            &&& d.kids[0].scope == d.scope
            &&& valid_annotation(sys, p, otn, d.kids[1])
            &&& (p@[otn.0 as int] is SomeOptType ==> sys.linked(d.kids[1].ty, d.kids[0].ty))
            &&& (match d.var {
                Some(v) => declares_shared(sys, v, n, d.kids[0].ty) && declared_in(
                    sys,
                    v,
                    d.scope,
                ),
                None => sys.shadowing,
            })
        },
        Node::ReturnStmt(e) => e.0 < s.0 && d.kids.len() == 1 && valid_expr(sys, p, e, d.kids[0])
            && (cod matches Some(c) ==> sys.linked(c, d.kids[0].ty)) && all_in(d.kids, d.scope),
        Node::ReturnVoidStmt => (cod matches Some(c) ==> sys.is_type(d.link) && sys.graph.term(
            d.link.0 as int,
        ) == Term::Void && sys.linked(c, d.link)),
        Node::FunctionDeclStmt(n, args, c) => {
            &&& args.0 < s.0 && c.0 < s.0
            &&& d.kids.len() >= 1
            &&& sys.is_type(d.ty)
            &&& sys.graph.term(d.ty.0 as int) == Term::Function(d.link, d.kids.last().ty)
            &&& chain(&sys.graph, d.link, types_of(d.kids.drop_last()))
            &&& valid_arg_tys(sys, p, args, d.kids.drop_last())
            &&& valid_opt_ty(sys, p, c, d.kids.last())
            &&& (match d.var {
                Some(v) => declares(sys, v, n, d.ty) && declared_in(sys, v, d.scope),
                None => sys.shadowing,
            })
        },
        Node::FunctionStmt(f) => f.0 < s.0 && d.kids.len() == 1 && valid_function(
            sys,
            p,
            f,
            d.kids[0],
        ) && all_in(d.kids, d.scope) && (d.kids[0].var matches Some(v) ==> declared_in(
            sys,
            v,
            d.scope,
        )),
        Node::IfStmt(c, t, e) => {
            &&& c.0 < s.0 && t.0 < s.0 && e.0 < s.0
            &&& d.kids.len() == 3
            &&& valid_expr(sys, p, c, d.kids[0])
            &&& sys.is_type(d.link)
            &&& sys.graph.term(d.link.0 as int) == Term::Boolean
            &&& sys.linked(d.kids[0].ty, d.link)
            &&& valid_stmts(sys, p, t, cod, d.kids[1].kids)
            &&& valid_stmts(sys, p, e, cod, d.kids[2].kids)
            &&& d.kids[0].scope == d.scope
            &&& under(sys, d.kids[1].scope, d.scope)
            &&& all_in(d.kids[1].kids, d.kids[1].scope)
            &&& under(sys, d.kids[2].scope, d.scope)
            &&& all_in(d.kids[2].kids, d.kids[2].scope)
        },
        Node::WhileStmt(c, b) => {
            &&& c.0 < s.0 && b.0 < s.0
            &&& d.kids.len() == 2
            &&& valid_expr(sys, p, c, d.kids[0])
            &&& sys.is_type(d.link)
            &&& sys.graph.term(d.link.0 as int) == Term::Boolean
            &&& sys.linked(d.kids[0].ty, d.link)
            &&& valid_stmts(sys, p, b, cod, d.kids[1].kids)
            &&& d.kids[0].scope == d.scope
            &&& under(sys, d.kids[1].scope, d.scope)
            &&& all_in(d.kids[1].kids, d.kids[1].scope)
        },
        _ => true,
    })
}

/// Whether `ds` derive the statements of the list.
pub open spec fn valid_stmts(
    sys: &TypeSystem,
    p: &Program,
    l: StmtListNode,
    cod: Option<Ty>,
    ds: Seq<Deriv>,
) -> bool
    decreases l.0, 1nat,
{
    ds.len() == p.stmt_list(l).len() && forall|i: int|
        0 <= i < ds.len() && p.stmt_list(l)[i].0 < l.0 ==> valid_stmt(
            sys,
            p,
            p.stmt_list(l)[i],
            cod,
            #[trigger] ds[i],
        )
}

/// Whether `d` derives the module `m`.
pub open spec fn valid_module(sys: &TypeSystem, p: &Program, m: ModuleNode, d: Deriv) -> bool {
    m.0 < p@.len() && (match p@[m.0 as int] {
        Node::Module(body) => body.0 < m.0 && valid_stmts(sys, p, body, None, d.kids)
            && sys.scopes.has(d.scope) && sys.scopes.parents@[d.scope.0 as int] is None && all_in(
            d.kids,
            d.scope,
        ),
        _ => true,
    })
}

/// Whether the module `m` has a derivation: whether it is well typed.
pub open spec fn well_typed(sys: &TypeSystem, p: &Program, m: ModuleNode) -> bool {
    exists|d: Deriv| valid_module(sys, p, m, d)
}

/// Whether the rules ask that the two types of `pr` be one, for the expression `e` with
/// the derivation `d`: for an application the type of what is applied and the function
/// type that is made for it, for an equation the types of its two sides, and what is
/// asked for the parts.
pub open spec fn asks_expr(p: &Program, e: ExprNode, d: Deriv, pr: (Ty, Ty)) -> bool
    decreases e.0, 0nat,
{
    e.0 < p@.len() && (match p@[e.0 as int] {
        Node::TupleExpr(l) => l.0 < e.0 && asks_exprs(p, l, d.kids, pr),
        Node::AppExpr(f, args) => f.0 < e.0 && args.0 < e.0 && d.kids.len() >= 1 && (pr == (
            d.kids[0].ty,
            d.link,
        ) || asks_expr(p, f, d.kids[0], pr) || asks_exprs(p, args, d.kids.drop_first(), pr)),
        Node::EqualsExpr(l, r) => l.0 < e.0 && r.0 < e.0 && d.kids.len() == 2 && (pr == (
            d.kids[0].ty,
            d.kids[1].ty,
        ) || asks_expr(p, l, d.kids[0], pr) || asks_expr(p, r, d.kids[1], pr)),
        Node::FunctionExpr(f) => f.0 < e.0 && d.kids.len() == 1 && asks_function(
            p,
            f,
            d.kids[0],
            pr,
        ),
        _ => false,
    })
}

/// Whether the rules ask that the two types of `pr` be one, for an expression of the
/// list with its derivation of `ds`.
pub open spec fn asks_exprs(p: &Program, l: ExprListNode, ds: Seq<Deriv>, pr: (Ty, Ty)) -> bool
    decreases l.0, 1nat,
{
    exists|i: int|
        0 <= i < ds.len() && i < p.expr_list(l).len() && p.expr_list(l)[i].0 < l.0 && asks_expr(
            p,
            p.expr_list(l)[i],
            #[trigger] ds[i],
            pr,
        )
}

/// Whether the rules ask that the two types of `pr` be one, for the function `f` with
/// the derivation `d`: the type of its result and nothing, where the end of its body
/// can be reached, and what is asked for the statements of the body.
pub open spec fn asks_function(p: &Program, f: FunctionNode, d: Deriv, pr: (Ty, Ty)) -> bool
    decreases f.0, 0nat,
{
    f.0 < p@.len() && (match p@[f.0 as int] {
        Node::Function(_, _, _, body) => body.0 < f.0 && d.kids.len() == 4 && ((stmts_proceed(
            p,
            body,
        ) && pr == (d.kids[1].ty, d.link)) || asks_stmts(
            p,
            body,
            Some(d.kids[1].ty),
            d.kids[2].kids,
            pr,
        )),
        _ => false,
    })
}

/// Whether the rules ask that the two types of `pr` be one, for the statement `s` with
/// the derivation `d`, within a function whose result has the type `cod`, or within
/// none: for a declaration the type that is written and the type of the value, for a
/// return the type of the result and the type of what is returned, for a condition its
/// type and the boolean, and what is asked for the parts.
pub open spec fn asks_stmt(p: &Program, s: StmtNode, cod: Option<Ty>, d: Deriv, pr: (Ty, Ty)) -> bool
    decreases s.0, 0nat,
{
    s.0 < p@.len() && (match p@[s.0 as int] {
        Node::ExprStmt(e) => e.0 < s.0 && d.kids.len() == 1 && asks_expr(p, e, d.kids[0], pr),
        Node::LetStmt(_, otn, e) => otn.0 < s.0 && e.0 < s.0 && d.kids.len() == 2 && ((
        p@[otn.0 as int] is SomeOptType && pr == (d.kids[1].ty, d.kids[0].ty)) || asks_expr(
            p,
            e,
            d.kids[0],
            pr,
        )),
        Node::ReturnStmt(e) => e.0 < s.0 && d.kids.len() == 1 && ((cod matches Some(c) && pr == (
            c,
            d.kids[0].ty,
        )) || asks_expr(p, e, d.kids[0], pr)),
        Node::ReturnVoidStmt => cod matches Some(c) && pr == (c, d.link),
        Node::FunctionStmt(f) => f.0 < s.0 && d.kids.len() == 1 && asks_function(
            p,
            f,
            d.kids[0],
            pr,
        ),
        Node::IfStmt(c, t, e) => c.0 < s.0 && t.0 < s.0 && e.0 < s.0 && d.kids.len() == 3 && (pr
            == (d.kids[0].ty, d.link) || asks_expr(p, c, d.kids[0], pr) || asks_stmts(
            p,
            t,
            cod,
            d.kids[1].kids,
            pr,
        ) || asks_stmts(p, e, cod, d.kids[2].kids, pr)),
        Node::WhileStmt(c, b) => c.0 < s.0 && b.0 < s.0 && d.kids.len() == 2 && (pr == (
            d.kids[0].ty,
            d.link,
        ) || asks_expr(p, c, d.kids[0], pr) || asks_stmts(p, b, cod, d.kids[1].kids, pr)),
        _ => false,
    })
}

/// Whether the rules ask that the two types of `pr` be one, for a statement of the list
/// with its derivation of `ds`.
pub open spec fn asks_stmts(
    p: &Program,
    l: StmtListNode,
    cod: Option<Ty>,
    ds: Seq<Deriv>,
    pr: (Ty, Ty),
) -> bool
    decreases l.0, 1nat,
{
    exists|i: int|
        0 <= i < ds.len() && i < p.stmt_list(l).len() && p.stmt_list(l)[i].0 < l.0 && asks_stmt(
            p,
            p.stmt_list(l)[i],
            cod,
            #[trigger] ds[i],
            pr,
        )
}

/// Whether the rules ask that the two types of `pr` be one, for the module `m` with the
/// derivation `d`.
pub open spec fn asks_module(p: &Program, m: ModuleNode, d: Deriv, pr: (Ty, Ty)) -> bool {
    m.0 < p@.len() && (match p@[m.0 as int] {
        Node::Module(body) => body.0 < m.0 && asks_stmts(p, body, None, d.kids, pr),
        _ => false,
    })
}

/// The types of `parts`, one part after the other.
pub open spec fn flat(parts: Seq<Seq<Ty>>) -> Seq<Ty>
    decreases parts.len(),
{
    if parts.len() == 0 {
        Seq::empty()
    } else {
        flat(parts.drop_last()) + parts.last()
    }
}

/// Whether the terms `s` were added one after the other, at indices from `lo` up to
/// `hi`: no term is there twice.
pub open spec fn rising(s: Seq<Ty>, lo: int, hi: int) -> bool {
    &&& forall|i: int| 0 <= i < s.len() ==> lo <= (#[trigger] s[i]).0 < hi
    &&& forall|i: int, j: int| 0 <= i < j < s.len() ==> (#[trigger] s[i]).0 < (#[trigger] s[j]).0
}

/// Terms that were added one after the other, and then further terms, were added one
/// after the other.
pub proof fn lemma_rising_more(a: Seq<Ty>, b: Seq<Ty>, lo: int, mid: int, top: int, hi: int)
    requires
        rising(a, lo, mid),
        rising(b, mid, top),
        lo <= mid <= top <= hi,
    ensures
        rising(a + b, lo, hi),
{
    assert forall|i: int| 0 <= i < (a + b).len() implies lo <= (#[trigger] (a + b)[i]).0 < hi by {
        if i < a.len() {
            assert((a + b)[i] == a[i]);
        } else {
            assert((a + b)[i] == b[i - a.len()]);
        }
    }
    assert forall|i: int, j: int| 0 <= i < j < (a + b).len() implies (#[trigger] (a + b)[i]).0 < (
    #[trigger] (a + b)[j]).0 by {
        if j < a.len() {
        } else if i < a.len() {
            assert(a[i].0 < mid);
            assert(mid <= b[j - a.len()].0);
        } else {
            assert(b[i - a.len()].0 < b[j - a.len()].0);
        }
    }
}

/// Terms that were added at indices from `lo` up to `hi` were added at indices from a
/// lower index up to a higher one.
pub proof fn lemma_rising_wider(a: Seq<Ty>, lo: int, hi: int, lower: int, higher: int)
    requires
        rising(a, lo, hi),
        lower <= lo,
        hi <= higher,
    ensures
        rising(a, lower, higher),
{
}

/// The parts of a sequence and one more part are, one after the other, the parts one
/// after the other and then the further part.
pub proof fn lemma_flat_push(parts: Seq<Seq<Ty>>, x: Seq<Ty>)
    ensures
        flat(parts.push(x)) == flat(parts) + x,
{
    assert(parts.push(x).drop_last() =~= parts);
}

/// The new metavariable of an annotation that is left out, which is the type `t`.
pub open spec fn slots_opt(p: &Program, otn: OptTypeNode, t: Ty) -> Seq<Ty> {
    if otn.0 < p@.len() && p@[otn.0 as int] is SomeOptType {
        Seq::empty()
    } else {
        seq![t]
    }
}

/// The new metavariable of each of the arguments of a list whose annotation is left
/// out, which are of the types `tys`.
pub open spec fn slot_parts_args(p: &Program, args: ArgListNode, tys: Seq<Ty>) -> Seq<Seq<Ty>> {
    Seq::new(tys.len(), |i: int| slots_opt(p, p.arg_list(args)[i].1, tys[i]))
}

/// The new metavariables of the arguments of a list whose annotations are left out.
pub open spec fn slots_arg_tys(p: &Program, args: ArgListNode, tys: Seq<Ty>) -> Seq<Ty> {
    flat(slot_parts_args(p, args, tys))
}

/// The new metavariables of the expression `e`, in the order in which they are added:
/// the types of the variables without declaration and the types of the applications.
pub open spec fn slots_expr(p: &Program, e: ExprNode, d: Deriv) -> Seq<Ty>
    decreases e.0, 0nat,
{
    if e.0 < p@.len() {
        match p@[e.0 as int] {
            Node::VariableExpr(_) => if d.var is None {
                seq![d.ty]
            } else {
                Seq::empty()
            },
            Node::TupleExpr(l) => if l.0 < e.0 {
                slots_exprs(p, l, d.kids)
            } else {
                Seq::empty()
            },
            Node::AppExpr(f, args) => if f.0 < e.0 && args.0 < e.0 && d.kids.len() >= 1 {
                slots_expr(p, f, d.kids[0]) + slots_exprs(p, args, d.kids.drop_first()) + seq![d.ty]
            } else {
                Seq::empty()
            },
            Node::EqualsExpr(l, r) => if l.0 < e.0 && r.0 < e.0 && d.kids.len() == 2 {
                slots_expr(p, l, d.kids[0]) + slots_expr(p, r, d.kids[1])
            } else {
                Seq::empty()
            },
            Node::FunctionExpr(f) => if f.0 < e.0 && d.kids.len() == 1 {
                slots_function(p, f, d.kids[0])
            } else {
                Seq::empty()
            },
            _ => Seq::empty(),
        }
    } else {
        Seq::empty()
    }
}

/// The new metavariables of each of the expressions of a list.
pub open spec fn slot_parts_exprs(p: &Program, l: ExprListNode, ds: Seq<Deriv>) -> Seq<Seq<Ty>>
    decreases l.0, 1nat,
{
    Seq::new(
        ds.len(),
        |i: int|
            if i < p.expr_list(l).len() && p.expr_list(l)[i].0 < l.0 {
                slots_expr(p, p.expr_list(l)[i], ds[i])
            } else {
                Seq::empty()
            },
    )
}

/// The new metavariables of the expressions of a list.
pub open spec fn slots_exprs(p: &Program, l: ExprListNode, ds: Seq<Deriv>) -> Seq<Ty>
    decreases l.0, 2nat,
{
    flat(slot_parts_exprs(p, l, ds))
}

/// The new metavariables of the function `f`: those of its arguments and of its result
/// whose annotations are left out, and those of its body.
pub open spec fn slots_function(p: &Program, f: FunctionNode, d: Deriv) -> Seq<Ty>
    decreases f.0, 0nat,
{
    if f.0 < p@.len() {
        match p@[f.0 as int] {
            Node::Function(_, args, cod, body) => if body.0 < f.0 && d.kids.len() == 4 {
                slots_arg_tys(p, args, types_of(d.kids[0].kids)) + slots_opt(
                    p,
                    cod,
                    d.kids[1].ty,
                ) + slots_stmts(
                    p,
                    body,
                    d.kids[2].kids,
                )
            } else {
                Seq::empty()
            },
            _ => Seq::empty(),
        }
    } else {
        Seq::empty()
    }
}

/// The new metavariables of the statement `s`.
pub open spec fn slots_stmt(p: &Program, s: StmtNode, d: Deriv) -> Seq<Ty>
    decreases s.0, 0nat,
{
    if s.0 < p@.len() {
        match p@[s.0 as int] {
            Node::ExprStmt(e) => if e.0 < s.0 && d.kids.len() == 1 {
                slots_expr(p, e, d.kids[0])
            } else {
                Seq::empty()
            },
            Node::LetStmt(_, _, e) => if e.0 < s.0 && d.kids.len() == 2 {
                slots_expr(p, e, d.kids[0])
            } else {
                Seq::empty()
            },
            Node::ReturnStmt(e) => if e.0 < s.0 && d.kids.len() == 1 {
                slots_expr(p, e, d.kids[0])
            } else {
                Seq::empty()
            },
            Node::FunctionDeclStmt(_, args, c) => if d.kids.len() >= 1 {
                slots_arg_tys(p, args, types_of(d.kids.drop_last())) + slots_opt(
                    p,
                    c,
                    d.kids.last().ty,
                )
            } else {
                Seq::empty()
            },
            Node::FunctionStmt(f) => if f.0 < s.0 && d.kids.len() == 1 {
                slots_function(p, f, d.kids[0])
            } else {
                Seq::empty()
            },
            Node::IfStmt(c, t, e) => if c.0 < s.0 && t.0 < s.0 && e.0 < s.0 && d.kids.len() == 3 {
                slots_expr(p, c, d.kids[0]) + slots_stmts(p, t, d.kids[1].kids) + slots_stmts(
                    p,
                    e,
                    d.kids[2].kids,
                )
            } else {
                Seq::empty()
            },
            Node::WhileStmt(c, b) => if c.0 < s.0 && b.0 < s.0 && d.kids.len() == 2 {
                slots_expr(p, c, d.kids[0]) + slots_stmts(p, b, d.kids[1].kids)
            } else {
                Seq::empty()
            },
            _ => Seq::empty(),
        }
    } else {
        Seq::empty()
    }
}

/// The new metavariables of each of the statements of a list.
pub open spec fn slot_parts_stmts(p: &Program, l: StmtListNode, ds: Seq<Deriv>) -> Seq<Seq<Ty>>
    decreases l.0, 1nat,
{
    Seq::new(
        ds.len(),
        |i: int|
            if i < p.stmt_list(l).len() && p.stmt_list(l)[i].0 < l.0 {
                slots_stmt(p, p.stmt_list(l)[i], ds[i])
            } else {
                Seq::empty()
            },
    )
}

/// The new metavariables of the statements of a list.
pub open spec fn slots_stmts(p: &Program, l: StmtListNode, ds: Seq<Deriv>) -> Seq<Ty>
    decreases l.0, 2nat,
{
    flat(slot_parts_stmts(p, l, ds))
}

/// The new metavariables of the module `m`.
pub open spec fn slots_module(p: &Program, m: ModuleNode, d: Deriv) -> Seq<Ty> {
    if m.0 < p@.len() {
        match p@[m.0 as int] {
            Node::Module(body) => if body.0 < m.0 {
                slots_stmts(p, body, d.kids)
            } else {
                Seq::empty()
            },
            _ => Seq::empty(),
        }
    } else {
        Seq::empty()
    }
}

/// Whether the classes of `sol` make one type of the two types of every pair that the
/// rules ask for, for the module `m` with the derivation `d`.
pub open spec fn agrees(p: &Program, m: ModuleNode, d: Deriv, sol: Solution) -> bool {
    forall|pr: (Ty, Ty)| #[trigger]
        asks_module(p, m, d, pr) ==> sol.same(pr.0.0 as int, pr.1.0 as int)
}

/// Whether the types of the module `m` with the derivation `d` can be made to agree:
/// whether a solution of the terms makes one type of every pair that the rules ask for.
pub open spec fn solvable(sys: &TypeSystem, p: &Program, m: ModuleNode, d: Deriv) -> bool {
    exists|sol: Solution| #[trigger] models(sys.graph.terms@, sol) && agrees(p, m, d, sol)
}

/// A list of terms stays the list that it is.
pub proof fn lemma_chain_kept(old: &TypeSystem, new: &TypeSystem, l: Ty, items: Seq<Ty>)
    requires
        old.advanced_to(new),
        chain(&old.graph, l, items),
    ensures
        chain(&new.graph, l, items),
    decreases items.len(),
{
    assert(new.graph.terms@[l.0 as int] == old.graph.terms@[l.0 as int]);
    match old.graph.term(l.0 as int) {
        Term::Cons(_, tail) => {
            lemma_chain_kept(old, new, tail, items.drop_first());
        },
        _ => {},
    }
}

/// A term stays the term that it is.
pub proof fn lemma_term_kept(old: &TypeSystem, new: &TypeSystem, t: Ty)
    requires
        old.advanced_to(new),
        old.graph.has(t),
    ensures
        new.graph.has(t),
        new.graph.term(t.0 as int) == old.graph.term(t.0 as int),
{
    assert(new.graph.terms@[t.0 as int] == old.graph.terms@[t.0 as int]);
}

/// A declaration stays the declaration that it is.
pub proof fn lemma_declares_kept(old: &TypeSystem, new: &TypeSystem, v: Var, n: Name, ty: Ty)
    requires
        old.advanced_to(new),
    ensures
        declares(old, v, n, ty) ==> declares(new, v, n, ty),
        declares_shared(old, v, n, ty) ==> declares_shared(new, v, n, ty),
{
    if declares(old, v, n, ty) {
        assert(new.scopes.vars@[v.0 as int] == old.scopes.vars@[v.0 as int]);
        assert(new.var_ty@[v.0 as int] == old.var_ty@[v.0 as int]);
        if declares_shared(old, v, n, ty) {
            assert(new.var_shared@[v.0 as int] == old.var_shared@[v.0 as int]);
        }
    }
}

/// A valid derivation of an expression gives it a type of the graph.
pub proof fn lemma_valid_expr_typed(sys: &TypeSystem, p: &Program, e: ExprNode, d: Deriv)
    requires
        valid_expr(sys, p, e, d),
    ensures
        sys.is_type(d.ty),
{
}

/// A valid derivation of an annotation gives it a type of the graph.
pub proof fn lemma_valid_opt_ty_typed(sys: &TypeSystem, p: &Program, otn: OptTypeNode, d: Deriv)
    requires
        valid_opt_ty(sys, p, otn, d),
    ensures
        sys.is_type(d.ty),
{
}

/// A derivation of an annotation stays valid.
pub proof fn lemma_valid_ty_kept(old: &TypeSystem, new: &TypeSystem, p: &Program, a: TypeNode, d: Deriv)
    requires
        old.advanced_to(new),
        valid_ty(old, p, a, d),
    ensures
        valid_ty(new, p, a, d),
    decreases a.0, 0nat,
{
    lemma_term_kept(old, new, d.ty);
    match p@[a.0 as int] {
        Node::ProductType(l) => {
            lemma_chain_kept(old, new, d.link, types_of(d.kids));
            lemma_valid_tys_kept(old, new, p, l, d.kids);
        },
        Node::FunctionType(args, cod) => {
            lemma_chain_kept(old, new, d.link, types_of(d.kids.drop_last()));
            lemma_valid_arg_tys_kept(old, new, p, args, d.kids.drop_last());
            lemma_valid_ty_kept(old, new, p, cod, d.kids.last());
        },
        _ => {},
    }
}

/// Derivations of annotations stay valid.
pub proof fn lemma_valid_tys_kept(
    old: &TypeSystem,
    new: &TypeSystem,
    p: &Program,
    l: TypeListNode,
    ds: Seq<Deriv>,
)
    requires
        old.advanced_to(new),
        valid_tys(old, p, l, ds),
    ensures
        valid_tys(new, p, l, ds),
    decreases l.0, 1nat,
{
    assert forall|i: int| 0 <= i < ds.len() && p.type_list(l)[i].0 < l.0 implies valid_ty(
        new,
        p,
        p.type_list(l)[i],
        #[trigger] ds[i],
    ) by {
        lemma_valid_ty_kept(old, new, p, p.type_list(l)[i], ds[i]);
    }
}

/// A derivation of the annotation of a `let` stays valid.
pub proof fn lemma_valid_annotation_kept(
    old: &TypeSystem,
    new: &TypeSystem,
    p: &Program,
    otn: OptTypeNode,
    d: Deriv,
)
    requires
        old.advanced_to(new),
        valid_annotation(old, p, otn, d),
    ensures
        valid_annotation(new, p, otn, d),
{
    match p@[otn.0 as int] {
        Node::SomeOptType(a) => {
            lemma_valid_ty_kept(old, new, p, a, d);
        },
        _ => {},
    }
}

/// A derivation of an annotation that may be left out stays valid.
pub proof fn lemma_valid_opt_ty_kept(
    old: &TypeSystem,
    new: &TypeSystem,
    p: &Program,
    otn: OptTypeNode,
    d: Deriv,
)
    requires
        old.advanced_to(new),
        valid_opt_ty(old, p, otn, d),
    ensures
        valid_opt_ty(new, p, otn, d),
    decreases otn.0, 1nat,
{
    match p@[otn.0 as int] {
        Node::SomeOptType(a) => {
            lemma_valid_ty_kept(old, new, p, a, d);
        },
        _ => {},
    }
}

/// Derivations of the types of arguments stay valid.
pub proof fn lemma_valid_arg_tys_kept(
    old: &TypeSystem,
    new: &TypeSystem,
    p: &Program,
    args: ArgListNode,
    ds: Seq<Deriv>,
)
    requires
        old.advanced_to(new),
        valid_arg_tys(old, p, args, ds),
    ensures
        valid_arg_tys(new, p, args, ds),
    decreases args.0, 2nat,
{
    assert forall|i: int| 0 <= i < ds.len() && p.arg_list(args)[i].1.0 < args.0 implies valid_opt_ty(
        new,
        p,
        p.arg_list(args)[i].1,
        #[trigger] ds[i],
    ) by {
        lemma_valid_opt_ty_kept(old, new, p, p.arg_list(args)[i].1, ds[i]);
    }
}

/// Derivations of arguments stay valid.
pub proof fn lemma_valid_args_kept(
    old: &TypeSystem,
    new: &TypeSystem,
    p: &Program,
    args: ArgListNode,
    ds: Seq<Deriv>,
)
    requires
        old.advanced_to(new),
        valid_args(old, p, args, ds),
    ensures
        valid_args(new, p, args, ds),
{
    assert forall|i: int| 0 <= i < ds.len() implies ((#[trigger] ds[i]).var matches Some(v)
        ==> declares_shared(new, v, p.arg_list(args)[i].0, ds[i].ty)) by {
        if let Some(v) = ds[i].var {
            lemma_declares_kept(old, new, v, p.arg_list(args)[i].0, ds[i].ty);
        }
    }
}

/// A derivation of an expression stays valid.
pub proof fn lemma_valid_expr_kept(old: &TypeSystem, new: &TypeSystem, p: &Program, e: ExprNode, d: Deriv)
    requires
        old.advanced_to(new),
        valid_expr(old, p, e, d),
    ensures
        valid_expr(new, p, e, d),
    decreases e.0, 0nat,
{
    lemma_term_kept(old, new, d.ty);
    lemma_scopes_kept(old, new);
    match p@[e.0 as int] {
        Node::VariableExpr(n) => {
            if let Some(v) = d.var {
                assert(new.scopes.vars@[v.0 as int] == old.scopes.vars@[v.0 as int]);
                assert(new.var_ty@[v.0 as int] == old.var_ty@[v.0 as int]);
                assert(new.var_shared@[v.0 as int] == old.var_shared@[v.0 as int]);
                old.lemma_uses_kept(new, v, d.ty);
            }
        },
        Node::TupleExpr(l) => {
            lemma_chain_kept(old, new, d.link, types_of(d.kids));
            lemma_valid_exprs_kept(old, new, p, l, d.kids);
        },
        Node::AppExpr(f, args) => {
            lemma_valid_expr_kept(old, new, p, f, d.kids[0]);
            lemma_valid_exprs_kept(old, new, p, args, d.kids.drop_first());
            lemma_term_kept(old, new, d.link);
            match old.graph.term(d.link.0 as int) {
                Term::Function(l, r) => {
                    lemma_chain_kept(old, new, l, types_of(d.kids.drop_first()));
                },
                _ => {},
            }
            lemma_valid_expr_typed(old, p, f, d.kids[0]);
            assert(old.linked(d.kids[0].ty, d.link));
        },
        Node::EqualsExpr(l, r) => {
            lemma_valid_expr_kept(old, new, p, l, d.kids[0]);
            lemma_valid_expr_kept(old, new, p, r, d.kids[1]);
            lemma_valid_expr_typed(old, p, l, d.kids[0]);
            lemma_valid_expr_typed(old, p, r, d.kids[1]);
            assert(old.linked(d.kids[0].ty, d.kids[1].ty));
        },
        Node::FunctionExpr(f) => {
            lemma_valid_function_kept(old, new, p, f, d.kids[0]);
        },
        _ => {},
    }
}

/// Derivations of expressions stay valid.
pub proof fn lemma_valid_exprs_kept(
    old: &TypeSystem,
    new: &TypeSystem,
    p: &Program,
    l: ExprListNode,
    ds: Seq<Deriv>,
)
    requires
        old.advanced_to(new),
        valid_exprs(old, p, l, ds),
    ensures
        valid_exprs(new, p, l, ds),
    decreases l.0, 1nat,
{
    assert forall|i: int| 0 <= i < ds.len() && p.expr_list(l)[i].0 < l.0 implies valid_expr(
        new,
        p,
        p.expr_list(l)[i],
        #[trigger] ds[i],
    ) by {
        lemma_valid_expr_kept(old, new, p, p.expr_list(l)[i], ds[i]);
    }
}

/// A derivation of a function stays valid.
pub proof fn lemma_valid_function_kept(
    old: &TypeSystem,
    new: &TypeSystem,
    p: &Program,
    f: FunctionNode,
    d: Deriv,
)
    requires
        old.advanced_to(new),
        valid_function(old, p, f, d),
    ensures
        valid_function(new, p, f, d),
    decreases f.0, 0nat,
{
    lemma_term_kept(old, new, d.ty);
    lemma_scopes_kept(old, new);
    match p@[f.0 as int] {
        Node::Function(name, args, cod, body) => {
            match old.graph.term(d.ty.0 as int) {
                Term::Function(l, c) => {
                    lemma_chain_kept(old, new, l, types_of(d.kids[0].kids));
                },
                _ => {},
            }
            lemma_valid_arg_tys_kept(old, new, p, args, d.kids[0].kids);
            lemma_valid_args_kept(old, new, p, args, d.kids[3].kids);
            lemma_valid_opt_ty_kept(old, new, p, cod, d.kids[1]);
            lemma_valid_opt_ty_typed(old, p, cod, d.kids[1]);
            lemma_valid_stmts_kept(old, new, p, body, Some(d.kids[1].ty), d.kids[2].kids);
            lemma_valid_opt_ty_typed(old, p, cod, d.kids[1]);
            if stmts_proceed(p, body) {
                lemma_term_kept(old, new, d.link);
                assert(old.linked(d.kids[1].ty, d.link));
            }
            if let Some(v) = d.var {
                lemma_declares_kept(old, new, v, name.unwrap(), d.ty);
            }
        },
        _ => {},
    }
}

/// A derivation of a statement stays valid.
pub proof fn lemma_valid_stmt_kept(
    old: &TypeSystem,
    new: &TypeSystem,
    p: &Program,
    s: StmtNode,
    cod: Option<Ty>,
    d: Deriv,
)
    requires
        old.advanced_to(new),
        cod matches Some(c) ==> old.graph.has(c),
        valid_stmt(old, p, s, cod, d),
    ensures
        valid_stmt(new, p, s, cod, d),
    decreases s.0, 0nat,
{
    lemma_scopes_kept(old, new);
    match p@[s.0 as int] {
        Node::ExprStmt(e) => {
            lemma_valid_expr_kept(old, new, p, e, d.kids[0]);
        },
        Node::LetStmt(n, otn, e) => {
            lemma_valid_expr_kept(old, new, p, e, d.kids[0]);
            lemma_valid_annotation_kept(old, new, p, otn, d.kids[1]);
            lemma_valid_expr_typed(old, p, e, d.kids[0]);
            if p@[otn.0 as int] is SomeOptType {
                assert(old.linked(d.kids[1].ty, d.kids[0].ty));
            }
            if let Some(v) = d.var {
                lemma_declares_kept(old, new, v, n, d.kids[0].ty);
            }
        },
        Node::ReturnStmt(e) => {
            lemma_valid_expr_kept(old, new, p, e, d.kids[0]);
            lemma_valid_expr_typed(old, p, e, d.kids[0]);
            if let Some(c) = cod {
                assert(old.linked(c, d.kids[0].ty));
            }
        },
        Node::ReturnVoidStmt => {
            if let Some(c) = cod {
                lemma_term_kept(old, new, d.link);
                assert(old.linked(c, d.link));
            }
        },
        Node::FunctionDeclStmt(n, args, c) => {
            lemma_term_kept(old, new, d.ty);
            lemma_chain_kept(old, new, d.link, types_of(d.kids.drop_last()));
            lemma_valid_arg_tys_kept(old, new, p, args, d.kids.drop_last());
            lemma_valid_opt_ty_kept(old, new, p, c, d.kids.last());
            if let Some(v) = d.var {
                lemma_declares_kept(old, new, v, n, d.ty);
            }
        },
        Node::FunctionStmt(f) => {
            lemma_valid_function_kept(old, new, p, f, d.kids[0]);
        },
        Node::IfStmt(c, t, e) => {
            lemma_valid_expr_kept(old, new, p, c, d.kids[0]);
            lemma_valid_expr_typed(old, p, c, d.kids[0]);
            lemma_term_kept(old, new, d.link);
            assert(old.linked(d.kids[0].ty, d.link));
            lemma_valid_stmts_kept(old, new, p, t, cod, d.kids[1].kids);
            lemma_valid_stmts_kept(old, new, p, e, cod, d.kids[2].kids);
        },
        Node::WhileStmt(c, b) => {
            lemma_valid_expr_kept(old, new, p, c, d.kids[0]);
            lemma_valid_expr_typed(old, p, c, d.kids[0]);
            lemma_term_kept(old, new, d.link);
            assert(old.linked(d.kids[0].ty, d.link));
            lemma_valid_stmts_kept(old, new, p, b, cod, d.kids[1].kids);
        },
        _ => {},
    }
}

/// Derivations of statements stay valid.
pub proof fn lemma_valid_stmts_kept(
    old: &TypeSystem,
    new: &TypeSystem,
    p: &Program,
    l: StmtListNode,
    cod: Option<Ty>,
    ds: Seq<Deriv>,
)
    requires
        old.advanced_to(new),
        cod matches Some(c) ==> old.graph.has(c),
        valid_stmts(old, p, l, cod, ds),
    ensures
        valid_stmts(new, p, l, cod, ds),
    decreases l.0, 1nat,
{
    assert forall|i: int| 0 <= i < ds.len() && p.stmt_list(l)[i].0 < l.0 implies valid_stmt(
        new,
        p,
        p.stmt_list(l)[i],
        cod,
        #[trigger] ds[i],
    ) by {
        lemma_valid_stmt_kept(old, new, p, p.stmt_list(l)[i], cod, ds[i]);
    }
}

} // verus!
