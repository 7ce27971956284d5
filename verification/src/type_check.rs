//! The walk over the syntax tree that resolves names and collects what the types of a
//! module have to meet.
//!
//! Statements are taken in their order: a declaration is visible to what follows it in
//! its block, and to the blocks within, but not to what stands before it.

use vstd::prelude::*;
use crate::program::{
    ArgListNode, ExprListNode, ExprNode, FunctionNode, Kind, ModuleNode, Name, Node, OptTypeNode,
    Program, StmtListNode, StmtNode, TypeListNode, TypeNode,
};
use crate::scope::{Scope, Var};
use crate::scoping::{
    args_found, expr_found, exprs_found, function_found, module_found, stmt_env, stmt_found,
    stmts_found, with_name, Found,
};
use crate::scheme::chain;
use crate::type_graph::{Term, Ty};
use crate::type_system::TypeSystem;
use crate::typing::{
    declares, declares_shared, lemma_chain_kept, lemma_valid_arg_tys_kept, lemma_valid_args_kept,
    lemma_valid_expr_kept, lemma_valid_exprs_kept,
    lemma_valid_opt_ty_kept, lemma_valid_stmt_kept, lemma_valid_stmts_kept, lemma_valid_ty_kept,
    lemma_valid_tys_kept, types_of, valid_arg_tys, valid_args, valid_expr, valid_exprs,
    valid_annotation, valid_function, valid_module, valid_opt_ty, valid_stmt, valid_stmts, valid_ty, valid_tys,
    well_typed, Deriv, all_in, declared_in, under, asks_expr, asks_exprs, asks_function,
    flat, lemma_flat_push, lemma_rising_more, rising, slots_expr, slots_exprs,
    slot_parts_args, slot_parts_exprs, slot_parts_stmts, slots_arg_tys, slots_function,
    slots_module,
    slots_opt, slots_stmt, slots_stmts,
    asks_module, asks_stmt, asks_stmts,
};

verus! {

/// Whether control can reach the end of a statement.
pub open spec fn stmt_proceeds(p: &Program, s: StmtNode) -> bool
    decreases s.0, 0nat,
{
    if s.0 < p@.len() {
        match p@[s.0 as int] {
            Node::ReturnStmt(_) => false,
            Node::ReturnVoidStmt => false,
            Node::IfStmt(_, t, e) => (t.0 < s.0 && stmts_proceed(p, t)) || (e.0 < s.0
                && stmts_proceed(p, e)),
            _ => true,
        }
    } else {
        true
    }
}

/// Whether control can reach the end of a list of statements: whether it can reach the
/// end of each of them.
pub open spec fn stmts_proceed(p: &Program, l: StmtListNode) -> bool
    decreases l.0, 1nat,
{
    if l.0 < p@.len() {
        match p@[l.0 as int] {
            Node::ConsStmtList(s, t) => s.0 < l.0 && t.0 < l.0 && stmt_proceeds(p, s)
                && stmts_proceed(p, t),
            _ => true,
        }
    } else {
        true
    }
}

/// Decides [`stmt_proceeds`].
pub fn can_proceed_stmt(p: &Program, s: StmtNode) -> (b: bool)
    requires
        p.wf(),
        p.has(s.0, Kind::Stmt),
    ensures
        b == stmt_proceeds(p, s),
    decreases s.0, 0nat,
{
    match p.node(s.0) {
        Node::ReturnStmt(_) => false,
        Node::ReturnVoidStmt => false,
        Node::IfStmt(_, t, e) => can_proceed_stmts(p, t) || can_proceed_stmts(p, e),
        _ => true,
    }
}

/// Decides [`stmts_proceed`].
pub fn can_proceed_stmts(p: &Program, l: StmtListNode) -> (b: bool)
    requires
        p.wf(),
        p.has(l.0, Kind::StmtList),
    ensures
        b == stmts_proceed(p, l),
    decreases l.0, 1nat,
{
    let mut cur = l;
    loop
        invariant
            p.wf(),
            p.has(cur.0, Kind::StmtList),
            cur.0 <= l.0,
            stmts_proceed(p, l) == stmts_proceed(p, cur),
        decreases cur.0,
    {
        match p.node(cur.0) {
            Node::ConsStmtList(s, t) => {
                if !can_proceed_stmt(p, s) {
                    return false;
                }
                cur = t;
            },
            _ => {
                return true;
            },
        }
    }
}

/// Whether `t` is derived as the type that the annotation `a` writes.
pub open spec fn derives_ty(sys: &TypeSystem, p: &Program, a: TypeNode, t: Ty) -> bool {
    exists|d: Deriv| #[trigger] valid_ty(sys, p, a, d) && d.ty == t
}

/// Whether `tys` are derived as the types that the annotations of the list write.
pub open spec fn derives_tys(sys: &TypeSystem, p: &Program, l: TypeListNode, tys: Seq<Ty>) -> bool {
    exists|ds: Seq<Deriv>| #[trigger] valid_tys(sys, p, l, ds) && types_of(ds) == tys
}

/// Whether `t` is derived as the type that an annotation writes, if it is there.
pub open spec fn derives_opt_ty(sys: &TypeSystem, p: &Program, otn: OptTypeNode, t: Ty) -> bool {
    exists|d: Deriv| #[trigger] valid_opt_ty(sys, p, otn, d) && d.ty == t
}

/// Whether `tys` are derived as the types of the arguments of the list.
pub open spec fn derives_arg_tys(sys: &TypeSystem, p: &Program, args: ArgListNode, tys: Seq<Ty>) -> bool {
    exists|ds: Seq<Deriv>| #[trigger] valid_arg_tys(sys, p, args, ds) && types_of(ds) == tys
}

/// Whether the arguments of the list are declared with the types `tys`.
pub open spec fn derives_args(
    sys: &TypeSystem,
    scope: Scope,
    p: &Program,
    args: ArgListNode,
    tys: Seq<Ty>,
) -> bool {
    exists|ds: Seq<Deriv>| #[trigger]
        valid_args(sys, p, args, ds) && types_of(ds) == tys && all_in(ds, scope)
}

/// Whether `d` derives `t` as the type of the expression `e`, the pairs of the log from
/// the place `from` up to the place `to` are asked for by it, and its new metavariables
/// were added one after the other at the indices from `lo` up to `hi`.
pub open spec fn expr_deriv(
    sys: &TypeSystem,
    scope: Scope,
    p: &Program,
    e: ExprNode,
    t: Ty,
    from: nat,
    to: nat,
    lo: int,
    hi: int,
    d: Deriv,
) -> bool {
    &&& valid_expr(sys, p, e, d)
    &&& d.ty == t
    &&& d.scope == scope
    &&& lo <= hi
    &&& rising(slots_expr(p, e, d), lo, hi)
    &&& to <= sys.log@.len()
    &&& forall|q: int| from <= q < to ==> asks_expr(p, e, d, #[trigger] sys.log@[q])
}

/// Whether `t` is derived as the type of the expression `e`, by a derivation that asks
/// for the pairs of the log from the place `from` up to the place `to`.
pub open spec fn derives_expr(
    sys: &TypeSystem,
    scope: Scope,
    p: &Program,
    e: ExprNode,
    t: Ty,
    from: nat,
    to: nat,
    lo: int,
    hi: int,
) -> bool {
    exists|d: Deriv| #[trigger] expr_deriv(sys, scope, p, e, t, from, to, lo, hi, d)
}

/// Whether `ds` derive `tys` as the types of the expressions of the list, and the pairs
/// of the log from the place `from` up to the place `to` are asked for by them.
pub open spec fn exprs_deriv(
    sys: &TypeSystem,
    scope: Scope,
    p: &Program,
    l: ExprListNode,
    tys: Seq<Ty>,
    from: nat,
    to: nat,
    lo: int,
    hi: int,
    ds: Seq<Deriv>,
) -> bool {
    &&& valid_exprs(sys, p, l, ds)
    &&& types_of(ds) == tys
    &&& all_in(ds, scope)
    &&& lo <= hi
    &&& rising(slots_exprs(p, l, ds), lo, hi)
    &&& to <= sys.log@.len()
    &&& forall|q: int| from <= q < to ==> asks_exprs(p, l, ds, #[trigger] sys.log@[q])
}

/// Whether `tys` are derived as the types of the expressions of the list, by
/// derivations that ask for the pairs of the log from the place `from` up to the place
/// `to`.
pub open spec fn derives_exprs(
    sys: &TypeSystem,
    scope: Scope,
    p: &Program,
    l: ExprListNode,
    tys: Seq<Ty>,
    from: nat,
    to: nat,
    lo: int,
    hi: int,
) -> bool {
    exists|ds: Seq<Deriv>| #[trigger] exprs_deriv(sys, scope, p, l, tys, from, to, lo, hi, ds)
}

/// Whether `d` derives `t` as the type of the function `f`, and the pairs of the log
/// from the place `from` up to the place `to` are asked for by it.
pub open spec fn function_deriv(
    sys: &TypeSystem,
    scope: Scope,
    statement: bool,
    p: &Program,
    f: FunctionNode,
    t: Ty,
    from: nat,
    to: nat,
    lo: int,
    hi: int,
    d: Deriv,
) -> bool {
    &&& valid_function(sys, p, f, d)
    &&& d.ty == t
    &&& d.scope == scope
    &&& lo <= hi
    &&& rising(slots_function(p, f, d), lo, hi)
    &&& (d.var matches Some(v) ==> d.kids.len() == 4 && declared_in(
        sys,
        v,
        if statement {
            scope
        } else {
            d.kids[2].scope
        },
    ))
    &&& to <= sys.log@.len()
    &&& forall|q: int| from <= q < to ==> asks_function(p, f, d, #[trigger] sys.log@[q])
}

/// Whether `t` is derived as the type of the function `f`, by a derivation that asks
/// for the pairs of the log from the place `from` up to the place `to`.
pub open spec fn derives_function(
    sys: &TypeSystem,
    scope: Scope,
    statement: bool,
    p: &Program,
    f: FunctionNode,
    t: Ty,
    from: nat,
    to: nat,
    lo: int,
    hi: int,
) -> bool {
    exists|d: Deriv| #[trigger] function_deriv(sys, scope, statement, p, f, t, from, to, lo, hi, d)
}

/// Whether `d` derives the statement `s`, within a function whose result has the type
/// `cod`, or within none, and the pairs of the log from the place `from` up to the place
/// `to` are asked for by it.
pub open spec fn stmt_deriv(
    sys: &TypeSystem,
    scope: Scope,
    p: &Program,
    s: StmtNode,
    cod: Option<Ty>,
    from: nat,
    to: nat,
    lo: int,
    hi: int,
    d: Deriv,
) -> bool {
    &&& valid_stmt(sys, p, s, cod, d)
    &&& d.scope == scope
    &&& lo <= hi
    &&& rising(slots_stmt(p, s, d), lo, hi)
    &&& to <= sys.log@.len()
    &&& forall|q: int| from <= q < to ==> asks_stmt(p, s, cod, d, #[trigger] sys.log@[q])
}

/// Whether the statement `s` has a derivation, within a function whose result has the
/// type `cod`, or within none, that asks for the pairs of the log from the place `from`
/// up to the place `to`.
pub open spec fn derives_stmt(
    sys: &TypeSystem,
    scope: Scope,
    p: &Program,
    s: StmtNode,
    cod: Option<Ty>,
    from: nat,
    to: nat,
    lo: int,
    hi: int,
) -> bool {
    exists|d: Deriv| #[trigger] stmt_deriv(sys, scope, p, s, cod, from, to, lo, hi, d)
}

/// Whether `ds` derive the statements of the list, and the pairs of the log from the
/// place `from` up to the place `to` are asked for by them.
pub open spec fn stmts_deriv(
    sys: &TypeSystem,
    scope: Scope,
    p: &Program,
    l: StmtListNode,
    cod: Option<Ty>,
    from: nat,
    to: nat,
    lo: int,
    hi: int,
    ds: Seq<Deriv>,
) -> bool {
    &&& valid_stmts(sys, p, l, cod, ds)
    &&& all_in(ds, scope)
    &&& lo <= hi
    &&& rising(slots_stmts(p, l, ds), lo, hi)
    &&& to <= sys.log@.len()
    &&& forall|q: int| from <= q < to ==> asks_stmts(p, l, cod, ds, #[trigger] sys.log@[q])
}

/// Whether the statements of the list have derivations that ask for the pairs of the
/// log from the place `from` up to the place `to`.
pub open spec fn derives_stmts(
    sys: &TypeSystem,
    scope: Scope,
    p: &Program,
    l: StmtListNode,
    cod: Option<Ty>,
    from: nat,
    to: nat,
    lo: int,
    hi: int,
) -> bool {
    exists|ds: Seq<Deriv>| #[trigger] stmts_deriv(sys, scope, p, l, cod, from, to, lo, hi, ds)
}

/// Whether `d` derives the module `m`, the pairs of the log from the place `from` on are
/// asked for by it, and its new metavariables were added one after the other.
pub open spec fn module_deriv(sys: &TypeSystem, p: &Program, m: ModuleNode, from: nat, d: Deriv) -> bool {
    &&& valid_module(sys, p, m, d)
    &&& rising(slots_module(p, m, d), 0, sys.graph.count())
    &&& forall|q: int|
        from <= q < sys.log@.len() ==> asks_module(p, m, d, #[trigger] sys.log@[q])
}

/// Whether the module `m` has a derivation that asks for the pairs of the log from the
/// place `from` on.
pub open spec fn derives_module(sys: &TypeSystem, p: &Program, m: ModuleNode, from: nat) -> bool {
    exists|d: Deriv| #[trigger] module_deriv(sys, p, m, from, d)
}

/// Whether the rules ask that the two types of `pr` be one, for one of the expressions
/// `items` with its derivation of `ds`.
pub open spec fn asks_among(p: &Program, items: Seq<ExprNode>, ds: Seq<Deriv>, pr: (Ty, Ty)) -> bool {
    exists|i: int|
        0 <= i < ds.len() && i < items.len() && asks_expr(p, items[i], #[trigger] ds[i], pr)
}

/// Whether the rules ask that the two types of `pr` be one, for one of the statements
/// `items` with its derivation of `ds`.
pub open spec fn asks_within(
    p: &Program,
    items: Seq<StmtNode>,
    cod: Option<Ty>,
    ds: Seq<Deriv>,
    pr: (Ty, Ty),
) -> bool {
    exists|i: int|
        0 <= i < ds.len() && i < items.len() && asks_stmt(p, items[i], cod, #[trigger] ds[i], pr)
}

/// The derivation of a piece without parts.
pub open spec fn leaf(t: Ty) -> Deriv {
    Deriv { ty: t, link: t, var: None, scope: Scope(0), kids: Seq::empty() }
}

/// The derivation of a piece without parts that stands in the scope `s`.
pub open spec fn leaf_in(t: Ty, s: Scope) -> Deriv {
    Deriv { ty: t, link: t, var: None, scope: s, kids: Seq::empty() }
}

/// Adds a term without parts, as the type of an annotation or of a literal.
fn populate_leaf(sys: &mut TypeSystem, term: Term) -> (t: Ty)
    requires
        old(sys).wf(),
        term.parts().len() == 0,
        !term.is_list(),
    ensures
        final(sys).wf(),
        forall|p: &Program| #[trigger] old(sys).names_ok(p) ==> final(sys).names_ok(p),
        old(sys).advanced_to(final(sys)),
        old(sys).generics_kept(final(sys)),
        old(sys).tables_kept(final(sys)),
        final(sys).log == old(sys).log,
        final(sys).is_type(t),
        final(sys).graph.term(t.0 as int) == term,
{
    sys.build(term)
}

/// Adds the type that the annotation `ty` writes.
pub fn populate_ty(sys: &mut TypeSystem, p: &Program, ty: TypeNode) -> (t: Ty)
    requires
        p.wf(),
        p.has(ty.0, Kind::Type),
        old(sys).wf(),
    ensures
        final(sys).wf(),
        old(sys).advanced_to(final(sys)),
        old(sys).generics_kept(final(sys)),
        old(sys).tables_kept(final(sys)),
        final(sys).log == old(sys).log,
        final(sys).is_type(t),
        derives_ty(final(sys), p, ty, t),
    decreases ty.0, 0nat,
{
    match p.node(ty.0) {
        Node::VoidType => {
            let t = populate_leaf(sys, Term::Void);
            assert(valid_ty(sys, p, ty, leaf(t)));
            t
        },
        Node::BooleanType => {
            let t = populate_leaf(sys, Term::Boolean);
            assert(valid_ty(sys, p, ty, leaf(t)));
            t
        },
        Node::NumberType => {
            let t = populate_leaf(sys, Term::Number);
            assert(valid_ty(sys, p, ty, leaf(t)));
            t
        },
        Node::StringType => {
            let t = populate_leaf(sys, Term::String);
            assert(valid_ty(sys, p, ty, leaf(t)));
            t
        },
        Node::ProductType(l) => {
            let tys = populate_tys(sys, p, l);
            let ghost s1 = *sys;
            let ghost ds = choose|ds: Seq<Deriv>|
                #[trigger] valid_tys(&s1, p, l, ds) && types_of(ds) == tys@;
            let list = sys.list_of(&tys);
            let ghost s2 = *sys;
            let t = sys.build(Term::Product(list));
            proof {
                old(sys).lemma_advanced_trans(&s1, &s2);
                old(sys).lemma_advanced_trans(&s2, sys);
                s1.lemma_advanced_trans(&s2, sys);
                lemma_valid_tys_kept(&s1, sys, p, l, ds);
                lemma_chain_kept(&s2, sys, list, tys@);
                let d = Deriv { ty: t, link: list, var: None, scope: Scope(0), kids: ds };
                assert(valid_ty(sys, p, ty, d));
            }
            t
        },
        Node::FunctionType(args, cod) => {
            let dom = populate_arg_tys(sys, p, args);
            let ghost s1 = *sys;
            let ghost ds = choose|ds: Seq<Deriv>|
                #[trigger] valid_arg_tys(&s1, p, args, ds) && types_of(ds) == dom@;
            let c = populate_ty(sys, p, cod);
            let ghost s2 = *sys;
            let ghost dc = choose|d: Deriv| #[trigger] valid_ty(&s2, p, cod, d) && d.ty == c;
            proof {
                assert forall|i: int| 0 <= i < dom@.len() implies sys.is_type(
                    #[trigger] dom@[i],
                ) by {
                    assert(s1.is_type(dom@[i]));
                }
            }
            let list = sys.list_of(&dom);
            let ghost s3 = *sys;
            assert(sys.is_type(c));
            let t = sys.build(Term::Function(list, c));
            proof {
                old(sys).lemma_advanced_trans(&s1, &s2);
                old(sys).lemma_advanced_trans(&s2, &s3);
                old(sys).lemma_advanced_trans(&s3, sys);
                s2.lemma_advanced_trans(&s3, sys);
                s1.lemma_advanced_trans(&s2, sys);
                lemma_valid_arg_tys_kept(&s1, sys, p, args, ds);
                lemma_valid_ty_kept(&s2, sys, p, cod, dc);
                lemma_chain_kept(&s3, sys, list, dom@);
                let d = Deriv { ty: t, link: list, var: None, scope: Scope(0), kids: ds.push(dc) };
                assert(d.kids.last() == dc);
                assert(d.kids.drop_last() =~= ds);
                assert(valid_ty(sys, p, ty, d));
            }
            t
        },
        _ => {
            let t = sys.fresh();
            assert(valid_ty(sys, p, ty, leaf(t)));
            t
        },
    }
}

/// Adds the types that the annotations of the list `l` write, in their order.
pub fn populate_tys(sys: &mut TypeSystem, p: &Program, l: TypeListNode) -> (tys: Vec<Ty>)
    requires
        p.wf(),
        p.has(l.0, Kind::TypeList),
        old(sys).wf(),
    ensures
        final(sys).wf(),
        old(sys).advanced_to(final(sys)),
        old(sys).generics_kept(final(sys)),
        old(sys).tables_kept(final(sys)),
        final(sys).log == old(sys).log,
        forall|i: int| 0 <= i < tys@.len() ==> final(sys).is_type(#[trigger] tys@[i]),
        tys@.len() == p.type_list(l).len(),
        derives_tys(final(sys), p, l, tys@),
    decreases l.0, 1nat,
{
    let mut tys: Vec<Ty> = Vec::new();
    let mut cur = l;
    let ghost mut seen: Seq<TypeNode> = Seq::empty();
    let ghost mut ds: Seq<Deriv> = Seq::empty();
    proof {
        sys.lemma_advanced_self();
        old(sys).lemma_advanced_trans(sys, sys);
        assert(seen + p.type_list(cur) =~= p.type_list(l));
        assert(types_of(ds) =~= tys@);
    }
    loop
        invariant
            p.wf(),
            p.has(cur.0, Kind::TypeList),
            cur.0 <= l.0,
            sys.wf(),
            old(sys).advanced_to(sys),
            old(sys).generics_kept(sys),
            old(sys).tables_kept(sys),
            sys.log == old(sys).log,
            forall|i: int| 0 <= i < tys@.len() ==> sys.is_type(#[trigger] tys@[i]),
            p.type_list(l) == seen + p.type_list(cur),
            seen.len() == ds.len(),
            types_of(ds) == tys@,
            forall|i: int| 0 <= i < ds.len() ==> valid_ty(sys, p, seen[i], #[trigger] ds[i]),
        decreases cur.0,
    {
        match p.node(cur.0) {
            Node::ConsTypeList(head, tail) => {
                let ghost s1 = *sys;
                let ghost before = tys@;
                let t = populate_ty(sys, p, head);
                tys.push(t);
                proof {
                    let d = choose|d: Deriv| #[trigger] valid_ty(sys, p, head, d) && d.ty == t;
                    old(sys).lemma_advanced_trans(&s1, sys);
                    assert forall|i: int| 0 <= i < tys@.len() implies sys.is_type(
                        #[trigger] tys@[i],
                    ) by {
                        if i < before.len() {
                            assert(s1.is_type(before[i]));
                        }
                    }
                    assert forall|i: int| 0 <= i < ds.len() implies valid_ty(
                        sys,
                        p,
                        seen[i],
                        #[trigger] ds[i],
                    ) by {
                        lemma_valid_ty_kept(&s1, sys, p, seen[i], ds[i]);
                    }
                    assert(seen.push(head) + p.type_list(tail) =~= seen + p.type_list(cur));
                    assert(types_of(ds.push(d)) =~= tys@);
                    seen = seen.push(head);
                    ds = ds.push(d);
                }
                cur = tail;
            },
            _ => {
                proof {
                    assert(seen =~= p.type_list(l));
                    assert(valid_tys(sys, p, l, ds));
                }
                return tys;
            },
        }
    }
}

/// Adds the type that an annotation writes, or a metavariable where it is left out.
pub fn populate_opt_ty(sys: &mut TypeSystem, p: &Program, otn: OptTypeNode) -> (t: Ty)
    requires
        p.wf(),
        p.has(otn.0, Kind::OptType),
        old(sys).wf(),
    ensures
        final(sys).wf(),
        old(sys).advanced_to(final(sys)),
        old(sys).generics_kept(final(sys)),
        old(sys).tables_kept(final(sys)),
        final(sys).log == old(sys).log,
        final(sys).is_type(t),
        derives_opt_ty(final(sys), p, otn, t),
        !(p@[otn.0 as int] is SomeOptType) ==> final(sys).graph.term(t.0 as int) == Term::MetaVar
            && t.0 == old(sys).graph.count(),
        old(sys).graph.count() <= final(sys).graph.count(),
        rising(slots_opt(p, otn, t), old(sys).graph.count(), final(sys).graph.count()),
    decreases otn.0, 0nat,
{
    match p.node(otn.0) {
        Node::SomeOptType(ty) => {
            let t = populate_ty(sys, p, ty);
            proof {
                let d = choose|d: Deriv| #[trigger] valid_ty(sys, p, ty, d) && d.ty == t;
                assert(valid_opt_ty(sys, p, otn, d));
            }
            t
        },
        _ => {
            let t = sys.fresh();
            assert(valid_opt_ty(sys, p, otn, leaf(t)));
            t
        },
    }
}

/// Adds the types of the arguments of the list `args`, in their order: what the
/// annotation of each writes, or a metavariable.
pub fn populate_arg_tys(sys: &mut TypeSystem, p: &Program, args: ArgListNode) -> (tys: Vec<Ty>)
    requires
        p.wf(),
        p.has(args.0, Kind::ArgList),
        old(sys).wf(),
    ensures
        final(sys).wf(),
        old(sys).advanced_to(final(sys)),
        old(sys).generics_kept(final(sys)),
        old(sys).tables_kept(final(sys)),
        final(sys).log == old(sys).log,
        forall|i: int| 0 <= i < tys@.len() ==> final(sys).is_type(#[trigger] tys@[i]),
        tys@.len() == p.arg_list(args).len(),
        derives_arg_tys(final(sys), p, args, tys@),
        old(sys).graph.count() <= final(sys).graph.count(),
        rising(slots_arg_tys(p, args, tys@), old(sys).graph.count(), final(sys).graph.count()),
    decreases args.0, 1nat,
{
    let mut tys: Vec<Ty> = Vec::new();
    let mut cur = args;
    let ghost mut seen: Seq<(Name, OptTypeNode)> = Seq::empty();
    let ghost mut ds: Seq<Deriv> = Seq::empty();
    let ghost mut parts: Seq<Seq<Ty>> = Seq::empty();
    proof {
        sys.lemma_advanced_self();
        old(sys).lemma_advanced_trans(sys, sys);
        assert(seen + p.arg_list(cur) =~= p.arg_list(args));
        assert(types_of(ds) =~= tys@);
    }
    loop
        invariant
            p.wf(),
            p.has(cur.0, Kind::ArgList),
            cur.0 <= args.0,
            sys.wf(),
            old(sys).advanced_to(sys),
            old(sys).generics_kept(sys),
            old(sys).tables_kept(sys),
            parts.len() == tys@.len(),
            seen.len() == tys@.len(),
            forall|i: int|
                0 <= i < tys@.len() ==> #[trigger] parts[i] == slots_opt(p, seen[i].1, tys@[i]),
            old(sys).graph.count() <= sys.graph.count(),
            rising(flat(parts), old(sys).graph.count(), sys.graph.count()),
            sys.log == old(sys).log,
            forall|i: int| 0 <= i < tys@.len() ==> sys.is_type(#[trigger] tys@[i]),
            p.arg_list(args) == seen + p.arg_list(cur),
            seen.len() == ds.len(),
            types_of(ds) == tys@,
            forall|i: int| 0 <= i < ds.len() ==> valid_opt_ty(sys, p, seen[i].1, #[trigger] ds[i]),
        decreases cur.0,
    {
        match p.node(cur.0) {
            Node::ConsArgList(name, otn, tail) => {
                let ghost s1 = *sys;
                let ghost before = tys@;
                let t = populate_opt_ty(sys, p, otn);
                tys.push(t);
                proof {
                    let d = choose|d: Deriv| #[trigger] valid_opt_ty(sys, p, otn, d) && d.ty == t;
                    old(sys).lemma_advanced_trans(&s1, sys);
                    assert forall|i: int| 0 <= i < tys@.len() implies sys.is_type(
                        #[trigger] tys@[i],
                    ) by {
                        if i < before.len() {
                            assert(s1.is_type(before[i]));
                        }
                    }
                    assert forall|i: int| 0 <= i < ds.len() implies valid_opt_ty(
                        sys,
                        p,
                        seen[i].1,
                        #[trigger] ds[i],
                    ) by {
                        lemma_valid_opt_ty_kept(&s1, sys, p, seen[i].1, ds[i]);
                    }
                    assert(seen.push((name, otn)) + p.arg_list(tail) =~= seen + p.arg_list(cur));
                    assert(types_of(ds.push(d)) =~= tys@);
                    seen = seen.push((name, otn));
                    lemma_flat_push(parts, slots_opt(p, otn, t));
                    lemma_rising_more(
                        flat(parts),
                        slots_opt(p, otn, t),
                        old(sys).graph.count(),
                        s1.graph.count(),
                        sys.graph.count(),
                        sys.graph.count(),
                    );
                    parts = parts.push(slots_opt(p, otn, t));
                    ds = ds.push(d);
                }
                cur = tail;
            },
            _ => {
                proof {
                    assert(seen =~= p.arg_list(args));
                    assert(valid_arg_tys(sys, p, args, ds));
                    assert(slot_parts_args(p, args, tys@) =~= parts);
                }
                return tys;
            },
        }
    }
}

/// Makes the type `tf` the function type from the types `targs` to a new
/// metavariable. Returns that metavariable and the function type.
fn apply(sys: &mut TypeSystem, tf: Ty, targs: &Vec<Ty>) -> (r: (Ty, Ty))
    requires
        old(sys).wf(),
        old(sys).is_type(tf),
        forall|i: int| 0 <= i < targs@.len() ==> old(sys).is_type(#[trigger] targs@[i]),
    ensures
        final(sys).wf(),
        old(sys).advanced_to(final(sys)),
        old(sys).generics_kept(final(sys)),
        old(sys).tables_kept(final(sys)),
        final(sys).is_type(r.0),
        final(sys).is_type(r.1),
        match final(sys).graph.term(r.1.0 as int) {
            Term::Function(l, c) => c == r.0 && chain(&final(sys).graph, l, targs@),
            _ => false,
        },
        final(sys).linked(tf, r.1),
        final(sys).log@ == old(sys).log@.push((tf, r.1)),
        final(sys).graph.term(r.0.0 as int) == Term::MetaVar,
        r.0.0 == old(sys).graph.count(),
        old(sys).graph.count() < final(sys).graph.count(),
{
    let r = sys.fresh();
    let ghost s3 = *sys;
    proof {
        assert forall|i: int| 0 <= i < targs@.len() implies sys.is_type(#[trigger] targs@[i]) by {
            assert(old(sys).is_type(targs@[i]));
        }
    }
    let list = sys.list_of(targs);
    let ghost s4 = *sys;
    assert(sys.is_type(r));
    let ft = sys.build(Term::Function(list, r));
    let ghost s5 = *sys;
    proof {
        assert(s3.is_type(tf));
        assert(s4.is_type(tf));
        assert(s5.is_type(tf));
    }
    sys.unify(tf, ft);
    proof {
        s4.lemma_advanced_trans(&s5, sys);
        s3.lemma_advanced_trans(&s4, sys);
        old(sys).lemma_advanced_trans(&s3, sys);
        crate::typing::lemma_term_kept(&s3, sys, r);
        assert(s5.is_type(r));
        lemma_chain_kept(&s4, sys, list, targs@);
    }
    (r, ft)
}

/// Makes the types `a` and `b` one, and adds the boolean.
fn equate(sys: &mut TypeSystem, a: Ty, b: Ty) -> (t: Ty)
    requires
        old(sys).wf(),
        old(sys).is_type(a),
        old(sys).is_type(b),
    ensures
        final(sys).wf(),
        old(sys).advanced_to(final(sys)),
        old(sys).generics_kept(final(sys)),
        old(sys).tables_kept(final(sys)),
        final(sys).is_type(t),
        final(sys).graph.term(t.0 as int) == Term::Boolean,
        final(sys).linked(a, b),
        final(sys).log@ == old(sys).log@.push((a, b)),
{
    sys.unify(a, b);
    let ghost s1 = *sys;
    let t = sys.build(Term::Boolean);
    proof {
        old(sys).lemma_advanced_trans(&s1, sys);
        assert(s1.graph.has(a) && s1.graph.has(b));
        assert(s1.linked(a, b));
    }
    t
}

/// Adds the type that the annotation `otn` writes and makes it the type `te`, if the
/// annotation is there.
fn annotate(sys: &mut TypeSystem, p: &Program, otn: OptTypeNode, te: Ty)
    requires
        p.wf(),
        p.has(otn.0, Kind::OptType),
        old(sys).wf(),
        old(sys).is_type(te),
    ensures
        final(sys).wf(),
        old(sys).advanced_to(final(sys)),
        old(sys).generics_kept(final(sys)),
        old(sys).tables_kept(final(sys)),
        exists|d: Deriv| #[trigger]
            valid_annotation(final(sys), p, otn, d) && (if p@[otn.0 as int] is SomeOptType {
                final(sys).linked(d.ty, te) && final(sys).log@ == old(sys).log@.push((d.ty, te))
            } else {
                final(sys).log == old(sys).log
            }),
{
    match p.node(otn.0) {
        Node::SomeOptType(ty) => {
            let ta = populate_ty(sys, p, ty);
            let ghost s2 = *sys;
            assert(sys.is_type(te));
            sys.unify(ta, te);
            proof {
                old(sys).lemma_advanced_trans(&s2, sys);
                let d = choose|d: Deriv| #[trigger] valid_ty(&s2, p, ty, d) && d.ty == ta;
                lemma_valid_ty_kept(&s2, sys, p, ty, d);
                assert(valid_annotation(sys, p, otn, d));
            }
        },
        _ => {
            proof {
                sys.lemma_advanced_self();
                old(sys).lemma_advanced_trans(sys, sys);
                assert(valid_annotation(sys, p, otn, leaf(te)));
            }
        },
    }
}

/// Whether `t` is the type of a use of the declaration that is visible for the variable
/// `e` in `scope`, if `e` is a variable for which one is visible, and `e` is bound to
/// that declaration.
pub open spec fn used(
    before: &TypeSystem,
    after: &TypeSystem,
    p: &Program,
    scope: Scope,
    e: ExprNode,
    t: Ty,
) -> bool {
    match p@[e.0 as int] {
        Node::VariableExpr(n) => match before.scopes.visible(scope, n) {
            Some(v) => after.is_use_of(before, v, t) && after.bindings@[e.0 as int] == Some(v),
            None => true,
        },
        _ => true,
    }
}

/// Resolves the variable `e`, which is written `name`, seen from `scope`.
///
/// It gets a use of the type of its declaration: that type itself, unless the
/// declaration is a function whose type has variables that may differ from use to use.
/// Where no declaration is visible, that is recorded, and the variable gets a
/// metavariable.
fn populate_variable(sys: &mut TypeSystem, p: &Program, scope: Scope, e: ExprNode, name: Name) -> (t:
    Ty)
    requires
        p.wf(),
        p.has(e.0, Kind::Expr),
        p@[e.0 as int] == Node::VariableExpr(name),
        old(sys).wf(),
        old(sys).fits(p),
        old(sys).names_ok(p),
        old(sys).scopes.has(scope),
    ensures
        final(sys).wf(),
        final(sys).names_ok(p),
        old(sys).advanced_to(final(sys)),
        old(sys).generics_kept(final(sys)),
        final(sys).is_type(t),
        final(sys).scopes == old(sys).scopes,
        final(sys).found_since(old(sys), expr_found(p, old(sys).env(scope), e)),
        derives_expr(
            final(sys),
            scope,
            p,
            e,
            t,
            old(sys).log@.len(),
            final(sys).log@.len(),
            old(sys).graph.count(),
            final(sys).graph.count(),
        ),
        used(old(sys), final(sys), p, scope, e, t),
{
    match sys.scopes.lookup(scope, name) {
        Some(v) => {
            sys.bind(e.0, v);
            let ghost s1 = *sys;
            let t = sys.instantiate(v);
            proof {
                old(sys).lemma_advanced_trans(&s1, sys);
                let d = Deriv { ty: t, link: t, var: Some(v), scope, kids: Seq::empty() };
                assert(s1.var_ty@[v.0 as int] == sys.var_ty@[v.0 as int]);
                sys.lemma_use_made(&s1, v, t);
                assert(valid_expr(sys, p, e, d));
                assert(expr_deriv(
                    sys,
                    scope,
                    p,
                    e,
                    t,
                    old(sys).log@.len(),
                    sys.log@.len(),
                    old(sys).graph.count(),
                    sys.graph.count(),
                    d,
                ));
                assert(s1.graph == old(sys).graph);
                assert(sys.is_use_of(old(sys), v, t));
            }
            t
        },
        None => {
            let t = sys.fresh();
            let ghost s1 = *sys;
            sys.undeclared = true;
            proof {
                s1.lemma_refined_same(sys);
                s1.lemma_scoped_same(sys);
                old(sys).lemma_advanced_trans(&s1, sys);
                assert(valid_expr(sys, p, e, leaf_in(t, scope)));
                assert(expr_deriv(
                    sys,
                    scope,
                    p,
                    e,
                    t,
                    old(sys).log@.len(),
                    sys.log@.len(),
                    old(sys).graph.count(),
                    sys.graph.count(),
                    leaf_in(t, scope),
                ));
            }
            t
        },
    }
}

/// Resolves the tuple `e` of the expressions of `l`: its type is the product of the
/// types of its members.
fn populate_tuple(sys: &mut TypeSystem, p: &Program, scope: Scope, e: ExprNode, l: ExprListNode) -> (t:
    Ty)
    requires
        p.wf(),
        p.has(e.0, Kind::Expr),
        p@[e.0 as int] == Node::TupleExpr(l),
        old(sys).wf(),
        old(sys).fits(p),
        old(sys).names_ok(p),
        old(sys).scopes.has(scope),
    ensures
        final(sys).wf(),
        final(sys).fits(p),
        final(sys).names_ok(p),
        old(sys).advanced_to(final(sys)),
        old(sys).generics_kept(final(sys)),
        final(sys).is_type(t),
        old(sys).scopes.grown_in(&final(sys).scopes, None),
        final(sys).found_since(old(sys), expr_found(p, old(sys).env(scope), e)),
        derives_expr(
            final(sys),
            scope,
            p,
            e,
            t,
            old(sys).log@.len(),
            final(sys).log@.len(),
            old(sys).graph.count(),
            final(sys).graph.count(),
        ),
    decreases e.0, 0nat,
{
    let tys = populate_exprs(sys, p, scope, l);
    let ghost s1 = *sys;
    let ghost ds = choose|ds: Seq<Deriv>| #[trigger]
        exprs_deriv(
            &s1,
            scope,
            p,
            l,
            tys@,
            old(sys).log@.len(),
            s1.log@.len(),
            old(sys).graph.count(),
            s1.graph.count(),
            ds,
        );
    let list = sys.list_of(&tys);
    let ghost s2 = *sys;
    let t = sys.build(Term::Product(list));
    proof {
        old(sys).lemma_advanced_trans(&s1, &s2);
        old(sys).lemma_advanced_trans(&s2, sys);
        s1.lemma_advanced_trans(&s2, sys);
        lemma_valid_exprs_kept(&s1, sys, p, l, ds);
        lemma_chain_kept(&s2, sys, list, tys@);
        let d = Deriv { ty: t, link: list, var: None, scope, kids: ds };
        assert(valid_expr(sys, p, e, d));
        assert(expr_deriv(
            sys,
            scope,
            p,
            e,
            t,
            old(sys).log@.len(),
            sys.log@.len(),
            old(sys).graph.count(),
            sys.graph.count(),
            d,
        ));
    }
    t
}

/// Resolves the application `e` of `f` to the expressions of `args`: the type of `f`
/// is made the function type from the types of the arguments to a new metavariable,
/// which is the type of the application.
fn populate_app(
    sys: &mut TypeSystem,
    p: &Program,
    scope: Scope,
    e: ExprNode,
    f: ExprNode,
    args: ExprListNode,
) -> (t: Ty)
    requires
        p.wf(),
        p.has(e.0, Kind::Expr),
        p@[e.0 as int] == Node::AppExpr(f, args),
        old(sys).wf(),
        old(sys).fits(p),
        old(sys).names_ok(p),
        old(sys).scopes.has(scope),
    ensures
        final(sys).wf(),
        final(sys).fits(p),
        final(sys).names_ok(p),
        old(sys).advanced_to(final(sys)),
        old(sys).generics_kept(final(sys)),
        final(sys).is_type(t),
        old(sys).scopes.grown_in(&final(sys).scopes, None),
        final(sys).found_since(old(sys), expr_found(p, old(sys).env(scope), e)),
        derives_expr(
            final(sys),
            scope,
            p,
            e,
            t,
            old(sys).log@.len(),
            final(sys).log@.len(),
            old(sys).graph.count(),
            final(sys).graph.count(),
        ),
    decreases e.0, 0nat,
{
    let tf = populate_expr(sys, p, scope, f);
    let ghost s1 = *sys;
    let ghost df = choose|d: Deriv| #[trigger]
        expr_deriv(
            &s1,
            scope,
            p,
            f,
            tf,
            old(sys).log@.len(),
            s1.log@.len(),
            old(sys).graph.count(),
            s1.graph.count(),
            d,
        );
    proof {
        old(sys).lemma_env_kept(&s1, None, scope);
    }
    let targs = populate_exprs(sys, p, scope, args);
    let ghost s2 = *sys;
    let ghost das = choose|ds: Seq<Deriv>| #[trigger]
        exprs_deriv(
            &s2,
            scope,
            p,
            args,
            targs@,
            s1.log@.len(),
            s2.log@.len(),
            s1.graph.count(),
            s2.graph.count(),
            ds,
        );
    assert(sys.is_type(tf));
    let (r, ft) = apply(sys, tf, &targs);
    proof {
        s1.lemma_advanced_trans(&s2, sys);
        old(sys).lemma_advanced_trans(&s1, sys);
        old(sys).scopes.lemma_grown_in_trans(&s1.scopes, &s2.scopes, None, None);
        lemma_valid_expr_kept(&s1, sys, p, f, df);
        lemma_valid_exprs_kept(&s2, sys, p, args, das);
        let d = Deriv { ty: r, link: ft, var: None, scope, kids: seq![df] + das };
        assert(d.kids[0] == df);
        assert(d.kids.drop_first() =~= das);
        assert(valid_expr(sys, p, e, d));
        lemma_rising_more(
            slots_expr(p, f, df),
            slots_exprs(p, args, das),
            old(sys).graph.count(),
            s1.graph.count(),
            s2.graph.count(),
            s2.graph.count(),
        );
        lemma_rising_more(
            slots_expr(p, f, df) + slots_exprs(p, args, das),
            seq![r],
            old(sys).graph.count(),
            s2.graph.count(),
            sys.graph.count(),
            sys.graph.count(),
        );
        assert forall|q: int| old(sys).log@.len() <= q < sys.log@.len() implies asks_expr(
            p,
            e,
            d,
            #[trigger] sys.log@[q],
        ) by {
            if q < s1.log@.len() {
                assert(s1.log@[q] == sys.log@[q]);
            } else if q < s2.log@.len() {
                assert(s2.log@[q] == sys.log@[q]);
            }
        }
        assert(expr_deriv(
            sys,
            scope,
            p,
            e,
            r,
            old(sys).log@.len(),
            sys.log@.len(),
            old(sys).graph.count(),
            sys.graph.count(),
            d,
        ));
    }
    r
}

/// Resolves the equation `e` between `l` and `r`: the types of its two sides are made
/// one, and its type is the boolean.
fn populate_equals(
    sys: &mut TypeSystem,
    p: &Program,
    scope: Scope,
    e: ExprNode,
    l: ExprNode,
    r: ExprNode,
) -> (t: Ty)
    requires
        p.wf(),
        p.has(e.0, Kind::Expr),
        p@[e.0 as int] == Node::EqualsExpr(l, r),
        old(sys).wf(),
        old(sys).fits(p),
        old(sys).names_ok(p),
        old(sys).scopes.has(scope),
    ensures
        final(sys).wf(),
        final(sys).fits(p),
        final(sys).names_ok(p),
        old(sys).advanced_to(final(sys)),
        old(sys).generics_kept(final(sys)),
        final(sys).is_type(t),
        old(sys).scopes.grown_in(&final(sys).scopes, None),
        final(sys).found_since(old(sys), expr_found(p, old(sys).env(scope), e)),
        derives_expr(
            final(sys),
            scope,
            p,
            e,
            t,
            old(sys).log@.len(),
            final(sys).log@.len(),
            old(sys).graph.count(),
            final(sys).graph.count(),
        ),
    decreases e.0, 0nat,
{
    let tl = populate_expr(sys, p, scope, l);
    let ghost s1 = *sys;
    let ghost dl = choose|d: Deriv| #[trigger]
        expr_deriv(
            &s1,
            scope,
            p,
            l,
            tl,
            old(sys).log@.len(),
            s1.log@.len(),
            old(sys).graph.count(),
            s1.graph.count(),
            d,
        );
    proof {
        old(sys).lemma_env_kept(&s1, None, scope);
    }
    let tr = populate_expr(sys, p, scope, r);
    let ghost s2 = *sys;
    let ghost dr = choose|d: Deriv| #[trigger]
        expr_deriv(
            &s2,
            scope,
            p,
            r,
            tr,
            s1.log@.len(),
            s2.log@.len(),
            s1.graph.count(),
            s2.graph.count(),
            d,
        );
    assert(sys.is_type(tl));
    let t = equate(sys, tl, tr);
    proof {
        s1.lemma_advanced_trans(&s2, sys);
        old(sys).lemma_advanced_trans(&s1, sys);
        old(sys).scopes.lemma_grown_in_trans(&s1.scopes, &s2.scopes, None, None);
        lemma_valid_expr_kept(&s1, sys, p, l, dl);
        lemma_valid_expr_kept(&s2, sys, p, r, dr);
        let d = Deriv { ty: t, link: t, var: None, scope, kids: seq![dl, dr] };
        assert(valid_expr(sys, p, e, d));
        assert forall|q: int| old(sys).log@.len() <= q < sys.log@.len() implies asks_expr(
            p,
            e,
            d,
            #[trigger] sys.log@[q],
        ) by {
            if q < s1.log@.len() {
                assert(s1.log@[q] == sys.log@[q]);
            } else if q < s2.log@.len() {
                assert(s2.log@[q] == sys.log@[q]);
            }
        }
        assert(expr_deriv(
            sys,
            scope,
            p,
            e,
            t,
            old(sys).log@.len(),
            sys.log@.len(),
            old(sys).graph.count(),
            sys.graph.count(),
            d,
        ));
    }
    t
}

/// Resolves the names in the expression `e`, seen from `scope`, and adds its type.
///
/// A variable gets a use of the type of its declaration, or a metavariable where no
/// declaration is visible, which is recorded. A tuple gets the product of the types of
/// its members; an application makes the type of what is applied the function type from
/// the types of the arguments to a new metavariable, which is its type; an equation
/// makes the types of its two sides one and is a boolean.
///
/// What is recorded of names is what [`expr_found`] finds for the names that are
/// visible in `scope`. The scopes that were there get no declarations. The type has a
/// derivation as the type of `e`, which asks for each pair of types that was added to
/// the log.
pub fn populate_expr(sys: &mut TypeSystem, p: &Program, scope: Scope, e: ExprNode) -> (t: Ty)
    requires
        p.wf(),
        p.has(e.0, Kind::Expr),
        old(sys).wf(),
        old(sys).fits(p),
        old(sys).names_ok(p),
        old(sys).scopes.has(scope),
    ensures
        final(sys).wf(),
        final(sys).fits(p),
        final(sys).names_ok(p),
        old(sys).advanced_to(final(sys)),
        old(sys).generics_kept(final(sys)),
        final(sys).is_type(t),
        final(sys).expr_ty@[e.0 as int] == Some(t),
        old(sys).scopes.grown_in(&final(sys).scopes, None),
        final(sys).found_since(old(sys), expr_found(p, old(sys).env(scope), e)),
        derives_expr(
            final(sys),
            scope,
            p,
            e,
            t,
            old(sys).log@.len(),
            final(sys).log@.len(),
            old(sys).graph.count(),
            final(sys).graph.count(),
        ),
        used(old(sys), final(sys), p, scope, e, t),
    decreases e.0, 1nat,
{
    let t = match p.node(e.0) {
        Node::VariableExpr(name) => populate_variable(sys, p, scope, e, name),
        Node::VoidExpr => {
            let t = populate_leaf(sys, Term::Void);
            assert(valid_expr(sys, p, e, leaf_in(t, scope)));
            assert(expr_deriv(
                sys,
                scope,
                p,
                e,
                t,
                old(sys).log@.len(),
                sys.log@.len(),
                old(sys).graph.count(),
                sys.graph.count(),
                leaf_in(t, scope),
            ));
            t
        },
        Node::TrueExpr => {
            let t = populate_leaf(sys, Term::Boolean);
            assert(valid_expr(sys, p, e, leaf_in(t, scope)));
            assert(expr_deriv(
                sys,
                scope,
                p,
                e,
                t,
                old(sys).log@.len(),
                sys.log@.len(),
                old(sys).graph.count(),
                sys.graph.count(),
                leaf_in(t, scope),
            ));
            t
        },
        Node::FalseExpr => {
            let t = populate_leaf(sys, Term::Boolean);
            assert(valid_expr(sys, p, e, leaf_in(t, scope)));
            assert(expr_deriv(
                sys,
                scope,
                p,
                e,
                t,
                old(sys).log@.len(),
                sys.log@.len(),
                old(sys).graph.count(),
                sys.graph.count(),
                leaf_in(t, scope),
            ));
            t
        },
        Node::StringLiteralExpr(_) => {
            let t = populate_leaf(sys, Term::String);
            assert(valid_expr(sys, p, e, leaf_in(t, scope)));
            assert(expr_deriv(
                sys,
                scope,
                p,
                e,
                t,
                old(sys).log@.len(),
                sys.log@.len(),
                old(sys).graph.count(),
                sys.graph.count(),
                leaf_in(t, scope),
            ));
            t
        },
        Node::NumberLiteralExpr(_) => {
            let t = populate_leaf(sys, Term::Number);
            assert(valid_expr(sys, p, e, leaf_in(t, scope)));
            assert(expr_deriv(
                sys,
                scope,
                p,
                e,
                t,
                old(sys).log@.len(),
                sys.log@.len(),
                old(sys).graph.count(),
                sys.graph.count(),
                leaf_in(t, scope),
            ));
            t
        },
        Node::TupleExpr(l) => populate_tuple(sys, p, scope, e, l),
        Node::AppExpr(f, args) => populate_app(sys, p, scope, e, f, args),
        Node::EqualsExpr(l, r) => populate_equals(sys, p, scope, e, l, r),
        Node::FunctionExpr(f) => {
            let t = populate_function(sys, p, scope, f, false);
            proof {
                let df = choose|d: Deriv| #[trigger]
                    function_deriv(
                        sys,
                        scope,
                        false,
                        p,
                        f,
                        t,
                        old(sys).log@.len(),
                        sys.log@.len(),
                        old(sys).graph.count(),
                        sys.graph.count(),
                        d,
                    );
                let d = Deriv { ty: t, link: t, var: None, scope, kids: seq![df] };
                assert(valid_expr(sys, p, e, d));
                assert(expr_deriv(
                    sys,
                    scope,
                    p,
                    e,
                    t,
                    old(sys).log@.len(),
                    sys.log@.len(),
                    old(sys).graph.count(),
                    sys.graph.count(),
                    d,
                ));
            }
            t
        },
        _ => {
            let t = sys.fresh();
            assert(valid_expr(sys, p, e, leaf_in(t, scope)));
            assert(expr_deriv(
                sys,
                scope,
                p,
                e,
                t,
                old(sys).log@.len(),
                sys.log@.len(),
                old(sys).graph.count(),
                sys.graph.count(),
                leaf_in(t, scope),
            ));
            t
        },
    };
    let ghost s9 = *sys;
    sys.set_type(e.0, t);
    proof {
        old(sys).lemma_advanced_trans(&s9, sys);
        let d = choose|d: Deriv| #[trigger]
            expr_deriv(
                &s9,
                scope,
                p,
                e,
                t,
                old(sys).log@.len(),
                s9.log@.len(),
                old(sys).graph.count(),
                s9.graph.count(),
                d,
            );
        lemma_valid_expr_kept(&s9, sys, p, e, d);
        assert(expr_deriv(
            sys,
            scope,
            p,
            e,
            t,
            old(sys).log@.len(),
            sys.log@.len(),
            old(sys).graph.count(),
            sys.graph.count(),
            d,
        ));
    }
    t
}

/// Resolves the names in the expressions of the list `l`, in their order, and adds
/// their types.
pub fn populate_exprs(sys: &mut TypeSystem, p: &Program, scope: Scope, l: ExprListNode) -> (tys:
    Vec<Ty>)
    requires
        p.wf(),
        p.has(l.0, Kind::ExprList),
        old(sys).wf(),
        old(sys).fits(p),
        old(sys).names_ok(p),
        old(sys).scopes.has(scope),
    ensures
        final(sys).wf(),
        final(sys).fits(p),
        final(sys).names_ok(p),
        old(sys).advanced_to(final(sys)),
        old(sys).generics_kept(final(sys)),
        forall|i: int| 0 <= i < tys@.len() ==> final(sys).is_type(#[trigger] tys@[i]),
        tys@.len() == p.expr_list(l).len(),
        old(sys).scopes.grown_in(&final(sys).scopes, None),
        final(sys).found_since(old(sys), exprs_found(p, old(sys).env(scope), l)),
        derives_exprs(
            final(sys),
            scope,
            p,
            l,
            tys@,
            old(sys).log@.len(),
            final(sys).log@.len(),
            old(sys).graph.count(),
            final(sys).graph.count(),
        ),
    decreases l.0, 1nat,
{
    let mut tys: Vec<Ty> = Vec::new();
    let mut cur = l;
    let ghost env = sys.env(scope);
    let ghost mut acc = Found::nothing();
    let ghost mut seen: Seq<ExprNode> = Seq::empty();
    let ghost mut ds: Seq<Deriv> = Seq::empty();
    let ghost mut parts: Seq<Seq<Ty>> = Seq::empty();
    proof {
        sys.lemma_advanced_self();
        old(sys).lemma_advanced_trans(sys, sys);
        assert(seen + p.expr_list(cur) =~= p.expr_list(l));
        assert(types_of(ds) =~= tys@);
    }
    loop
        invariant
            p.wf(),
            p.has(cur.0, Kind::ExprList),
            cur.0 <= l.0,
            sys.wf(),
            sys.fits(p),
            sys.names_ok(p),
            sys.scopes.has(scope),
            old(sys).scopes.has(scope),
            old(sys).scopes.wf(),
            old(sys).advanced_to(sys),
            old(sys).generics_kept(sys),
            forall|i: int| 0 <= i < tys@.len() ==> sys.is_type(#[trigger] tys@[i]),
            env == old(sys).env(scope),
            sys.env(scope) == env,
            old(sys).scopes.grown_in(&sys.scopes, None),
            sys.found_since(old(sys), acc),
            exprs_found(p, env, l) == acc.and(exprs_found(p, env, cur)),
            p.expr_list(l) == seen + p.expr_list(cur),
            seen.len() == ds.len(),
            types_of(ds) == tys@,
            forall|i: int| 0 <= i < ds.len() ==> valid_expr(sys, p, seen[i], #[trigger] ds[i]),
            all_in(ds, scope),
            parts.len() == ds.len(),
            forall|i: int| 0 <= i < ds.len() ==> #[trigger] parts[i] == slots_expr(p, seen[i], ds[i]),
            old(sys).graph.count() <= sys.graph.count(),
            rising(flat(parts), old(sys).graph.count(), sys.graph.count()),
            forall|i: int| 0 <= i < seen.len() ==> (#[trigger] seen[i]).0 < l.0,
            forall|q: int|
                old(sys).log@.len() <= q < sys.log@.len() ==> asks_among(
                    p,
                    seen,
                    ds,
                    #[trigger] sys.log@[q],
                ),
        decreases cur.0,
    {
        match p.node(cur.0) {
            Node::ConsExprList(head, tail) => {
                let ghost s1 = *sys;
                let ghost before = tys@;
                let t = populate_expr(sys, p, scope, head);
                tys.push(t);
                proof {
                    let d = choose|d: Deriv| #[trigger]
                        expr_deriv(
                            sys,
                            scope,
                            p,
                            head,
                            t,
                            s1.log@.len(),
                            sys.log@.len(),
                            s1.graph.count(),
                            sys.graph.count(),
                            d,
                        );
                    old(sys).lemma_advanced_trans(&s1, sys);
                    assert forall|q: int|
                        old(sys).log@.len() <= q < sys.log@.len() implies asks_among(
                        p,
                        seen.push(head),
                        ds.push(d),
                        #[trigger] sys.log@[q],
                    ) by {
                        if q < s1.log@.len() {
                            assert(s1.log@[q] == sys.log@[q]);
                            let i = choose|i: int|
                                0 <= i < ds.len() && i < seen.len() && asks_expr(
                                    p,
                                    seen[i],
                                    #[trigger] ds[i],
                                    sys.log@[q],
                                );
                            assert(ds.push(d)[i] == ds[i]);
                            assert(seen.push(head)[i] == seen[i]);
                        } else {
                            assert(ds.push(d)[ds.len() as int] == d);
                            assert(seen.push(head)[ds.len() as int] == head);
                        }
                    }
                    assert forall|i: int| 0 <= i < tys@.len() implies sys.is_type(
                        #[trigger] tys@[i],
                    ) by {
                        if i < before.len() {
                            assert(s1.is_type(before[i]));
                        }
                    }
                    s1.lemma_env_kept(sys, None, scope);
                    old(sys).scopes.lemma_grown_in_trans(&s1.scopes, &sys.scopes, None, None);
                    acc = acc.and(expr_found(p, env, head));
                    assert forall|i: int| 0 <= i < ds.len() implies valid_expr(
                        sys,
                        p,
                        seen[i],
                        #[trigger] ds[i],
                    ) by {
                        lemma_valid_expr_kept(&s1, sys, p, seen[i], ds[i]);
                    }
                    assert(seen.push(head) + p.expr_list(tail) =~= seen + p.expr_list(cur));
                    assert(types_of(ds.push(d)) =~= tys@);
                    lemma_flat_push(parts, slots_expr(p, head, d));
                    lemma_rising_more(
                        flat(parts),
                        slots_expr(p, head, d),
                        old(sys).graph.count(),
                        s1.graph.count(),
                        sys.graph.count(),
                        sys.graph.count(),
                    );
                    parts = parts.push(slots_expr(p, head, d));
                    seen = seen.push(head);
                    ds = ds.push(d);
                }
                cur = tail;
            },
            _ => {
                proof {
                    assert(seen =~= p.expr_list(l));
                    assert(valid_exprs(sys, p, l, ds));
                    assert(slot_parts_exprs(p, l, ds) =~= parts);
                    assert forall|q: int|
                        old(sys).log@.len() <= q < sys.log@.len() implies asks_exprs(
                        p,
                        l,
                        ds,
                        #[trigger] sys.log@[q],
                    ) by {
                        let i = choose|i: int|
                            0 <= i < ds.len() && i < seen.len() && asks_expr(
                                p,
                                seen[i],
                                #[trigger] ds[i],
                                sys.log@[q],
                            );
                        assert(seen[i].0 < l.0);
                    }
                    assert(exprs_deriv(
                        sys,
                        scope,
                        p,
                        l,
                        tys@,
                        old(sys).log@.len(),
                        sys.log@.len(),
                        old(sys).graph.count(),
                        sys.graph.count(),
                        ds,
                    ));
                }
                return tys;
            },
        }
    }
}

/// Declares the arguments of the list `args` in `scope`, each with its type from `tys`.
pub fn declare_args(sys: &mut TypeSystem, p: &Program, scope: Scope, args: ArgListNode, tys: &Vec<Ty>)
    requires
        p.wf(),
        p.has(args.0, Kind::ArgList),
        old(sys).wf(),
        old(sys).scopes.has(scope),
        forall|i: int| 0 <= i < tys@.len() ==> old(sys).is_type(#[trigger] tys@[i]),
        tys@.len() == p.arg_list(args).len(),
        old(sys).names_ok(p),
    ensures
        final(sys).wf(),
        final(sys).names_ok(p),
        old(sys).advanced_to(final(sys)),
        old(sys).generics_kept(final(sys)),
        final(sys).log == old(sys).log,
        final(sys).graph == old(sys).graph,
        final(sys).bindings == old(sys).bindings,
        final(sys).expr_ty == old(sys).expr_ty,
        final(sys).scopes.parents == old(sys).scopes.parents,
        old(sys).scopes.grown_in(&final(sys).scopes, Some(scope)),
        final(sys).shadowing == (old(sys).shadowing || args_found(p, old(sys).env(scope), args).0),
        final(sys).undeclared == old(sys).undeclared,
        final(sys).env(scope) == args_found(p, old(sys).env(scope), args).1,
        derives_args(final(sys), scope, p, args, tys@),
{
    let mut cur = args;
    let mut i: usize = 0;
    let n = tys.len();
    let ghost env0 = sys.env(scope);
    let ghost mut shadow = false;
    let ghost mut seen: Seq<(Name, OptTypeNode)> = Seq::empty();
    let ghost mut ds: Seq<Deriv> = Seq::empty();
    proof {
        sys.lemma_advanced_self();
        old(sys).lemma_advanced_trans(sys, sys);
        assert(seen + p.arg_list(cur) =~= p.arg_list(args));
        assert(types_of(ds) =~= tys@.take(0));
    }
    loop
        invariant
            n == tys@.len(),
            p.wf(),
            p.has(cur.0, Kind::ArgList),
            sys.wf(),
            sys.names_ok(p),
            sys.scopes.has(scope),
            old(sys).advanced_to(sys),
            old(sys).generics_kept(sys),
            sys.log == old(sys).log,
            sys.graph == old(sys).graph,
            sys.bindings == old(sys).bindings,
            sys.expr_ty == old(sys).expr_ty,
            sys.scopes.parents == old(sys).scopes.parents,
            forall|i: int| 0 <= i < tys@.len() ==> sys.is_type(#[trigger] tys@[i]),
            i + p.arg_list(cur).len() == tys@.len(),
            env0 == old(sys).env(scope),
            old(sys).scopes.grown_in(&sys.scopes, Some(scope)),
            sys.shadowing == (old(sys).shadowing || shadow),
            sys.undeclared == old(sys).undeclared,
            args_found(p, env0, args) == (
                shadow || args_found(p, sys.env(scope), cur).0,
                args_found(p, sys.env(scope), cur).1,
            ),
            p.arg_list(args) == seen + p.arg_list(cur),
            seen.len() == i,
            ds.len() == i,
            types_of(ds) == tys@.take(i as int),
            forall|k: int|
                0 <= k < ds.len() ==> (match (#[trigger] ds[k]).var {
                    Some(v) => declares_shared(sys, v, seen[k].0, ds[k].ty) && declared_in(
                        sys,
                        v,
                        scope,
                    ),
                    None => sys.shadowing,
                }),
            all_in(ds, scope),
        decreases cur.0,
    {
        match p.node(cur.0) {
            Node::ConsArgList(name, otn, tail) => {
                let ghost s1 = *sys;
                assert(sys.is_type(tys@[i as int]));
                let made = sys.declare(scope, name, tys[i], true);
                proof {
                    old(sys).lemma_advanced_trans(&s1, sys);
                    assert forall|j: int| 0 <= j < tys@.len() implies sys.is_type(
                        #[trigger] tys@[j],
                    ) by {
                        assert(s1.is_type(tys@[j]));
                    }
                    old(sys).scopes.lemma_grown_in_trans(
                        &s1.scopes,
                        &sys.scopes,
                        Some(scope),
                        Some(scope),
                    );
                    shadow = shadow || s1.env(scope).contains(name);
                    let d = Deriv {
                        ty: tys@[i as int],
                        link: tys@[i as int],
                        var: made,
                        scope,
                        kids: Seq::empty(),
                    };
                    assert forall|k: int| 0 <= k < ds.len() implies (match (#[trigger] ds[k]).var {
                        Some(v) => declares_shared(sys, v, seen[k].0, ds[k].ty) && declared_in(
                            sys,
                            v,
                            scope,
                        ),
                        None => sys.shadowing,
                    }) by {
                        crate::typing::lemma_scopes_kept(&s1, sys);
                        if let Some(v) = ds[k].var {
                            crate::typing::lemma_declares_kept(&s1, sys, v, seen[k].0, ds[k].ty);
                        }
                    }
                    assert(seen.push((name, otn)) + p.arg_list(tail) =~= seen + p.arg_list(cur));
                    assert(types_of(ds.push(d)) =~= tys@.take(i + 1));
                    seen = seen.push((name, otn));
                    ds = ds.push(d);
                }
                assert(i < tys@.len());
                i = i + 1;
                cur = tail;
            },
            _ => {
                proof {
                    assert(seen =~= p.arg_list(args));
                    assert(tys@.take(i as int) =~= tys@);
                    assert(valid_args(sys, p, args, ds));
                }
                return ;
            },
        }
    }
}

/// The name of the function `f`.
pub open spec fn name_of(p: &Program, f: FunctionNode) -> Option<Name> {
    match p@[f.0 as int] {
        Node::Function(name, _, _, _) => name,
        _ => None,
    }
}

/// Whether `ds` derive the statements of the body of a function whose result has the
/// type `c`, that type is linked to the type `v` of nothing where the end of the body can
/// be reached, and the pairs of the log from the place `from` up to the place `to` are
/// asked for by that.
pub open spec fn body_deriv(
    sys: &TypeSystem,
    scope: Scope,
    p: &Program,
    body: StmtListNode,
    c: Ty,
    from: nat,
    to: nat,
    lo: int,
    hi: int,
    ds: Seq<Deriv>,
    v: Ty,
) -> bool {
    &&& valid_stmts(sys, p, body, Some(c), ds)
    &&& all_in(ds, scope)
    &&& lo <= hi
    &&& rising(slots_stmts(p, body, ds), lo, hi)
    &&& to <= sys.log@.len()
    &&& (stmts_proceed(p, body) ==> sys.is_type(v) && sys.graph.term(v.0 as int) == Term::Void
        && sys.linked(c, v))
    &&& forall|q: int|
        from <= q < to ==> (stmts_proceed(p, body) && (#[trigger] sys.log@[q]) == (c, v))
            || asks_stmts(p, body, Some(c), ds, sys.log@[q])
}

/// Declares the arguments of a function in the scope `inner` of its body, resolves the
/// body, and makes the type `c` of the result the type of nothing where the end of the
/// body can be reached.
fn populate_body(
    sys: &mut TypeSystem,
    p: &Program,
    inner: Scope,
    args: ArgListNode,
    dom: &Vec<Ty>,
    c: Ty,
    body: StmtListNode,
)
    requires
        p.wf(),
        p.has(args.0, Kind::ArgList),
        p.has(body.0, Kind::StmtList),
        old(sys).wf(),
        old(sys).fits(p),
        old(sys).names_ok(p),
        old(sys).scopes.has(inner),
        old(sys).is_type(c),
        forall|i: int| 0 <= i < dom@.len() ==> old(sys).is_type(#[trigger] dom@[i]),
        dom@.len() == p.arg_list(args).len(),
    ensures
        final(sys).wf(),
        final(sys).fits(p),
        final(sys).names_ok(p),
        old(sys).advanced_to(final(sys)),
        old(sys).generics_kept(final(sys)),
        old(sys).scopes.grown_in(&final(sys).scopes, Some(inner)),
        final(sys).found_since(
            old(sys),
            Found {
                shadowing: args_found(p, old(sys).env(inner), args).0,
                undeclared: false,
            }.and(stmts_found(p, args_found(p, old(sys).env(inner), args).1, body)),
        ),
        derives_args(final(sys), inner, p, args, dom@),
        exists|ds: Seq<Deriv>, v: Ty| #[trigger]
            body_deriv(
                final(sys),
                inner,
                p,
                body,
                c,
                old(sys).log@.len(),
                final(sys).log@.len(),
                old(sys).graph.count(),
                final(sys).graph.count(),
                ds,
                v,
            ),
    decreases body.0 + 1, 0nat,
{
    declare_args(sys, p, inner, args, dom);
    let ghost s1 = *sys;
    let ghost dv = choose|ds: Seq<Deriv>|
        #[trigger] valid_args(&s1, p, args, ds) && types_of(ds) == dom@ && all_in(ds, inner);
    assert(sys.is_type(c));
    populate_stmts(sys, p, inner, Some(c), body);
    let ghost s2 = *sys;
    let ghost db = choose|ds: Seq<Deriv>| #[trigger]
        stmts_deriv(
            &s2,
            inner,
            p,
            body,
            Some(c),
            s1.log@.len(),
            s2.log@.len(),
            s1.graph.count(),
            s2.graph.count(),
            ds,
        );
    let ghost mut void = c;
    proof {
        old(sys).lemma_advanced_trans(&s1, &s2);
        old(sys).scopes.lemma_grown_in_trans(&s1.scopes, &s2.scopes, Some(inner), Some(inner));
        assert(s2.is_type(c));
    }
    if can_proceed_stmts(p, body) {
        let v = sys.build(Term::Void);
        let ghost s3 = *sys;
        assert(sys.is_type(c));
        sys.unify(c, v);
        proof {
            s2.lemma_advanced_trans(&s3, sys);
            assert(sys.linked(c, v));
            assert(s3.is_type(v));
            void = v;
        }
    } else {
        proof {
            sys.lemma_advanced_self();
            s2.lemma_advanced_trans(sys, sys);
        }
    }
    proof {
        s1.lemma_advanced_trans(&s2, sys);
        old(sys).lemma_advanced_trans(&s2, sys);
        lemma_valid_args_kept(&s1, sys, p, args, dv);
        lemma_valid_stmts_kept(&s2, sys, p, body, Some(c), db);
        assert(sys.scopes == s2.scopes);
        assert forall|q: int| old(sys).log@.len() <= q < sys.log@.len() implies (stmts_proceed(
            p,
            body,
        ) && (#[trigger] sys.log@[q]) == (c, void)) || asks_stmts(
            p,
            body,
            Some(c),
            db,
            sys.log@[q],
        ) by {
            if q < s2.log@.len() {
                assert(s2.log@[q] == sys.log@[q]);
            }
        }
        assert(body_deriv(
            sys,
            inner,
            p,
            body,
            c,
            old(sys).log@.len(),
            sys.log@.len(),
            old(sys).graph.count(),
            sys.graph.count(),
            db,
            void,
        ));
    }
}

/// Adds the type of a function with the arguments `args` and the annotation `cod` of
/// its result: the types of the arguments, the type of the result, and the function
/// type from the ones to the other.
fn populate_signature(sys: &mut TypeSystem, p: &Program, args: ArgListNode, cod: OptTypeNode) -> (r:
    (Vec<Ty>, Ty, Ty))
    requires
        p.wf(),
        p.has(args.0, Kind::ArgList),
        p.has(cod.0, Kind::OptType),
        old(sys).wf(),
    ensures
        final(sys).wf(),
        old(sys).advanced_to(final(sys)),
        old(sys).generics_kept(final(sys)),
        old(sys).tables_kept(final(sys)),
        final(sys).log == old(sys).log,
        forall|i: int| 0 <= i < r.0@.len() ==> final(sys).is_type(#[trigger] r.0@[i]),
        r.0@.len() == p.arg_list(args).len(),
        final(sys).is_type(r.1),
        final(sys).is_type(r.2),
        derives_arg_tys(final(sys), p, args, r.0@),
        derives_opt_ty(final(sys), p, cod, r.1),
        old(sys).graph.count() <= final(sys).graph.count(),
        rising(
            slots_arg_tys(p, args, r.0@) + slots_opt(p, cod, r.1),
            old(sys).graph.count(),
            final(sys).graph.count(),
        ),
        exists|l: Ty|
            #[trigger] chain(&final(sys).graph, l, r.0@) && final(sys).graph.term(r.2.0 as int)
                == Term::Function(l, r.1),
{
    let dom = populate_arg_tys(sys, p, args);
    let ghost s1 = *sys;
    let ghost ds = choose|ds: Seq<Deriv>|
        #[trigger] valid_arg_tys(&s1, p, args, ds) && types_of(ds) == dom@;
    let c = populate_opt_ty(sys, p, cod);
    let ghost s2 = *sys;
    let ghost dc = choose|d: Deriv| #[trigger] valid_opt_ty(&s2, p, cod, d) && d.ty == c;
    proof {
        assert forall|i: int| 0 <= i < dom@.len() implies sys.is_type(#[trigger] dom@[i]) by {
            assert(s1.is_type(dom@[i]));
        }
    }
    let list = sys.list_of(&dom);
    let ghost s3 = *sys;
    assert(sys.is_type(c));
    let ft = sys.build(Term::Function(list, c));
    proof {
        s2.lemma_advanced_trans(&s3, sys);
        s1.lemma_advanced_trans(&s2, sys);
        old(sys).lemma_advanced_trans(&s1, sys);
        lemma_valid_arg_tys_kept(&s1, sys, p, args, ds);
        lemma_valid_opt_ty_kept(&s2, sys, p, cod, dc);
        lemma_chain_kept(&s3, sys, list, dom@);
        assert forall|i: int| 0 <= i < dom@.len() implies sys.is_type(#[trigger] dom@[i]) by {
            assert(s2.is_type(dom@[i]));
        }
        assert(s3.is_type(c));
        assert(chain(&sys.graph, list, dom@) && sys.graph.term(ft.0 as int) == Term::Function(
            list,
            c,
        ));
        assert(valid_opt_ty(sys, p, cod, dc) && dc.ty == c);
        lemma_rising_more(
            slots_arg_tys(p, args, dom@),
            slots_opt(p, cod, c),
            old(sys).graph.count(),
            s1.graph.count(),
            s2.graph.count(),
            sys.graph.count(),
        );
    }
    (dom, c, ft)
}

/// Resolves the names in the function `f`, seen from `scope`, and adds its type: the
/// function type from the types of its arguments to the type of its result.
///
/// The body gets a scope of its own, which holds the arguments. The name of a function
/// statement is declared in `scope`, that of a function expression in the scope of its
/// body. A body whose end can be reached returns nothing. When the body is done, the
/// variables of the type that the surroundings do not hold become free to differ from
/// use to use.
///
/// What is recorded of names is what [`function_found`] finds for the names that are
/// visible in `scope`. The type has a derivation as the type of `f`, which asks for each
/// pair of types that was added to the log.
#[verifier::rlimit(40)]
pub fn populate_function(
    sys: &mut TypeSystem,
    p: &Program,
    scope: Scope,
    f: FunctionNode,
    statement: bool,
) -> (t: Ty)
    requires
        p.wf(),
        p.has(f.0, Kind::Function),
        old(sys).wf(),
        old(sys).fits(p),
        old(sys).names_ok(p),
        old(sys).scopes.has(scope),
    ensures
        final(sys).wf(),
        final(sys).fits(p),
        final(sys).names_ok(p),
        old(sys).advanced_to(final(sys)),
        old(sys).generics_kept(final(sys)),
        final(sys).is_type(t),
        old(sys).scopes.grown_in(
            &final(sys).scopes,
            if statement {
                Some(scope)
            } else {
                None
            },
        ),
        final(sys).found_since(old(sys), function_found(p, old(sys).env(scope), f)),
        statement ==> final(sys).env(scope) == with_name(old(sys).env(scope), name_of(p, f)),
        derives_function(
            final(sys),
            scope,
            statement,
            p,
            f,
            t,
            old(sys).log@.len(),
            final(sys).log@.len(),
            old(sys).graph.count(),
            final(sys).graph.count(),
        ),
        match name_of(p, f) {
            Some(n) => p@[f.0 as int] is Function && !old(sys).env(scope).contains(n) ==> exists|
                v: Var,
            | #[trigger] declares(final(sys), v, n, t) && final(sys).generalized(scope, v),
            None => true,
        },
    decreases f.0, 1nat,
{
    let ghost env = sys.env(scope);
    let ghost place = if statement {
        Some(scope)
    } else {
        None
    };
    match p.node(f.0) {
        Node::Function(name, args, cod, body) => {
            let (dom, c, ft) = populate_signature(sys, p, args, cod);
            let ghost s4 = *sys;
            let ghost da = choose|ds: Seq<Deriv>|
                #[trigger] valid_arg_tys(&s4, p, args, ds) && types_of(ds) == dom@;
            let ghost dc = choose|d: Deriv| #[trigger] valid_opt_ty(&s4, p, cod, d) && d.ty == c;
            let ghost list = choose|l: Ty|
                #[trigger] chain(&s4.graph, l, dom@) && s4.graph.term(ft.0 as int)
                    == Term::Function(l, c);
            let inner = sys.enter(Some(scope));
            let ghost s5 = *sys;
            proof {
                assert(s4.scopes == old(sys).scopes);
                assert(s4.env(scope) == env);
                assert(s5.env(inner) == env);
                s4.lemma_env_kept(&s5, None, scope);
                s4.scopes.lemma_within_kept(&s5.scopes, None, scope, scope);
                assert(s5.scopes.within(inner, scope)) by {
                    assert(s5.scopes.within(scope, scope));
                }
                if s5.scopes.within(scope, inner) {
                    s5.scopes.lemma_within_older(scope, inner);
                }
            }
            let own = match name {
                Some(n) => if statement {
                    sys.declare(scope, n, ft, false)
                } else {
                    sys.declare(inner, n, ft, false)
                },
                None => None,
            };
            let ghost s6 = *sys;
            let ghost at = if name is Some {
                if statement {
                    Some(scope)
                } else {
                    Some(inner)
                }
            } else {
                None
            };
            proof {
                if name is None {
                    s5.lemma_advanced_self();
                }
                old(sys).lemma_advanced_trans(&s4, &s5);
                old(sys).lemma_advanced_trans(&s5, &s6);
                s4.lemma_advanced_trans(&s5, &s6);
                assert forall|i: int| 0 <= i < dom@.len() implies sys.is_type(
                    #[trigger] dom@[i],
                ) by {
                    assert(s4.is_type(dom@[i]));
                }
                assert(s4.is_type(c));
                assert(s6.env(inner) == with_name(env, name));
                if name is Some && !statement {
                    s5.lemma_env_kept(&s6, Some(inner), scope);
                }
                assert(s6.env(scope) == (if statement {
                    with_name(env, name)
                } else {
                    env
                }));
                assert(s5.scopes.grown_in(&s6.scopes, at));
                if name is Some {
                    old(sys).scopes.lemma_grown_in_trans(&s5.scopes, &s6.scopes, place, at);
                } else {
                    assert(s6.scopes == s5.scopes);
                }
                assert(old(sys).scopes.grown_in(&s6.scopes, place));
                assert(s6.found_since(
                    old(sys),
                    Found {
                        shadowing: (name matches Some(n) && env.contains(n)),
                        undeclared: false,
                    },
                ));
                s5.scopes.lemma_within_kept(&s6.scopes, at, scope, inner);
            }
            populate_body(sys, p, inner, args, &dom, c, body);
            let ghost s8 = *sys;
            let ghost dv = choose|ds: Seq<Deriv>|
                #[trigger] valid_args(&s8, p, args, ds) && types_of(ds) == dom@ && all_in(
                    ds,
                    inner,
                );
            let ghost (db, w) = choose|ds: Seq<Deriv>, v: Ty| #[trigger]
                body_deriv(
                    &s8,
                    inner,
                    p,
                    body,
                    c,
                    s6.log@.len(),
                    s8.log@.len(),
                    s6.graph.count(),
                    s8.graph.count(),
                    ds,
                    v,
                );
            proof {
                s6.lemma_env_kept(&s8, Some(inner), scope);
                old(sys).scopes.lemma_grown_in_trans(&s6.scopes, &s8.scopes, place, Some(inner));
                old(sys).lemma_advanced_trans(&s6, &s8);
                s4.lemma_advanced_trans(&s6, &s8);
            }
            match own {
                Some(v) => {
                    assert(s6.var_shared@[v.0 as int] == s8.var_shared@[v.0 as int]);
                    sys.generalize(scope, v);
                },
                None => {},
            }
            proof {
                sys.lemma_advanced_self();
                s8.lemma_advanced_trans(sys, sys);
                s6.lemma_advanced_trans(&s8, sys);
                s4.lemma_advanced_trans(&s8, sys);
                old(sys).lemma_advanced_trans(&s8, sys);
                assert(s4.is_type(ft));
                assert(sys.scopes == s8.scopes);
                assert(sys.env(scope) =~= s8.env(scope));
                // the derivation
                lemma_valid_arg_tys_kept(&s4, sys, p, args, da);
                lemma_valid_opt_ty_kept(&s4, sys, p, cod, dc);
                lemma_chain_kept(&s4, sys, list, dom@);
                lemma_valid_args_kept(&s8, sys, p, args, dv);
                lemma_valid_stmts_kept(&s8, sys, p, body, Some(c), db);
                crate::typing::lemma_term_kept(&s4, sys, ft);
                if stmts_proceed(p, body) {
                    crate::typing::lemma_term_kept(&s8, sys, w);
                    assert(s8.graph.has(c) && s8.graph.has(w));
                    assert(sys.linked(c, w));
                }
                if let Some(v) = own {
                    crate::typing::lemma_declares_kept(&s6, sys, v, name.unwrap(), ft);
                }
                let d = Deriv {
                    ty: ft,
                    link: w,
                    var: own,
                    scope,
                    kids: seq![
                        Deriv { ty: ft, link: ft, var: None, scope, kids: da },
                        dc,
                        Deriv { ty: ft, link: ft, var: None, scope: inner, kids: db },
                        Deriv { ty: ft, link: ft, var: None, scope, kids: dv },
                    ],
                };
                assert(valid_function(sys, p, f, d));
                assert(rising(slots_function(p, f, d), old(sys).graph.count(), sys.graph.count())) by {
                    let head = slots_arg_tys(p, args, dom@) + slots_opt(p, cod, c);
                    crate::typing::lemma_rising_wider(
                        head,
                        old(sys).graph.count(),
                        s4.graph.count(),
                        old(sys).graph.count(),
                        s6.graph.count(),
                    );
                    lemma_rising_more(
                        head,
                        slots_stmts(p, body, db),
                        old(sys).graph.count(),
                        s6.graph.count(),
                        s8.graph.count(),
                        sys.graph.count(),
                    );
                    assert(types_of(d.kids[0].kids) == dom@);
                    assert(d.kids[1].ty == c);
                    assert(d.kids[2].kids == db);
                }
                assert forall|q: int|
                    old(sys).log@.len() <= q < sys.log@.len() implies asks_function(
                    p,
                    f,
                    d,
                    #[trigger] sys.log@[q],
                ) by {
                    assert(s8.log@[q] == sys.log@[q]);
                }
                assert(function_deriv(
                    sys,
                    scope,
                    statement,
                    p,
                    f,
                    ft,
                    old(sys).log@.len(),
                    sys.log@.len(),
                    old(sys).graph.count(),
                    sys.graph.count(),
                    d,
                ));
            }
            ft
        },
        _ => {
            let t = sys.fresh();
            proof {
                assert(sys.env(scope) =~= env);
                assert(valid_function(sys, p, f, leaf_in(t, scope)));
                assert(function_deriv(
                    sys,
                    scope,
                    statement,
                    p,
                    f,
                    t,
                    old(sys).log@.len(),
                    sys.log@.len(),
                    old(sys).graph.count(),
                    sys.graph.count(),
                    leaf_in(t, scope),
                ));
            }
            t
        },
    }
}

/// Resolves a `let` of `name` with the annotation `otn` and the value `e`.
///
/// The name is declared after the value is resolved, with the type of the value, which
/// is also made what the annotation writes.
fn populate_let(
    sys: &mut TypeSystem,
    p: &Program,
    scope: Scope,
    codomain: Option<Ty>,
    s: StmtNode,
    name: Name,
    otn: OptTypeNode,
    e: ExprNode,
)
    requires
        p.wf(),
        p.has(s.0, Kind::Stmt),
        p@[s.0 as int] == Node::LetStmt(name, otn, e),
        old(sys).wf(),
        old(sys).fits(p),
        old(sys).names_ok(p),
        old(sys).scopes.has(scope),
        codomain matches Some(c) ==> old(sys).is_type(c),
    ensures
        final(sys).wf(),
        final(sys).fits(p),
        final(sys).names_ok(p),
        old(sys).advanced_to(final(sys)),
        old(sys).generics_kept(final(sys)),
        old(sys).scopes.grown_in(&final(sys).scopes, Some(scope)),
        final(sys).found_since(old(sys), stmt_found(p, old(sys).env(scope), s)),
        final(sys).env(scope) == stmt_env(p, old(sys).env(scope), s),
        derives_stmt(
            final(sys),
            scope,
            p,
            s,
            codomain,
            old(sys).log@.len(),
            final(sys).log@.len(),
            old(sys).graph.count(),
            final(sys).graph.count(),
        ),
    decreases s.0, 0nat,
{
    let te = populate_expr(sys, p, scope, e);
    let ghost s1 = *sys;
    let ghost de = choose|d: Deriv| #[trigger]
        expr_deriv(
            &s1,
            scope,
            p,
            e,
            te,
            old(sys).log@.len(),
            s1.log@.len(),
            old(sys).graph.count(),
            s1.graph.count(),
            d,
        );
    annotate(sys, p, otn, te);
    let ghost s3 = *sys;
    let ghost da = choose|d: Deriv| #[trigger]
        valid_annotation(&s3, p, otn, d) && (if p@[otn.0 as int] is SomeOptType {
            s3.linked(d.ty, te) && s3.log@ == s1.log@.push((d.ty, te))
        } else {
            s3.log == s1.log
        });
    assert(sys.is_type(te));
    proof {
        old(sys).lemma_env_kept(&s1, None, scope);
        assert(s3.scopes == s1.scopes);
        assert(s3.env(scope) =~= s1.env(scope));
    }
    let made = sys.declare(scope, name, te, true);
    proof {
        s1.lemma_advanced_trans(&s3, sys);
        old(sys).lemma_advanced_trans(&s1, sys);
        assert(old(sys).scopes.grown_in(&s3.scopes, Some(scope)));
        old(sys).scopes.lemma_grown_in_trans(&s3.scopes, &sys.scopes, Some(scope), Some(scope));
        lemma_valid_expr_kept(&s1, sys, p, e, de);
        crate::typing::lemma_valid_annotation_kept(&s3, sys, p, otn, da);
        if p@[otn.0 as int] is SomeOptType {
            assert(s3.graph.has(da.ty) && s3.graph.has(te));
            assert(sys.linked(da.ty, te));
        }
        let d = Deriv { ty: te, link: te, var: made, scope, kids: seq![de, da] };
        assert(valid_stmt(sys, p, s, codomain, d));
        assert forall|q: int| old(sys).log@.len() <= q < sys.log@.len() implies asks_stmt(
            p,
            s,
            codomain,
            d,
            #[trigger] sys.log@[q],
        ) by {
            if q < s1.log@.len() {
                assert(s1.log@[q] == sys.log@[q]);
            }
        }
        assert(stmt_deriv(
            sys,
            scope,
            p,
            s,
            codomain,
            old(sys).log@.len(),
            sys.log@.len(),
            old(sys).graph.count(),
            sys.graph.count(),
            d,
        ));
    }
}

/// Resolves a `return` of the value `e`: the type of the value is made the type of the
/// result.
fn populate_return(
    sys: &mut TypeSystem,
    p: &Program,
    scope: Scope,
    codomain: Option<Ty>,
    s: StmtNode,
    e: ExprNode,
)
    requires
        p.wf(),
        p.has(s.0, Kind::Stmt),
        p@[s.0 as int] == Node::ReturnStmt(e),
        old(sys).wf(),
        old(sys).fits(p),
        old(sys).names_ok(p),
        old(sys).scopes.has(scope),
        codomain matches Some(c) ==> old(sys).is_type(c),
    ensures
        final(sys).wf(),
        final(sys).fits(p),
        final(sys).names_ok(p),
        old(sys).advanced_to(final(sys)),
        old(sys).generics_kept(final(sys)),
        old(sys).scopes.grown_in(&final(sys).scopes, Some(scope)),
        final(sys).found_since(old(sys), stmt_found(p, old(sys).env(scope), s)),
        final(sys).env(scope) == stmt_env(p, old(sys).env(scope), s),
        derives_stmt(
            final(sys),
            scope,
            p,
            s,
            codomain,
            old(sys).log@.len(),
            final(sys).log@.len(),
            old(sys).graph.count(),
            final(sys).graph.count(),
        ),
    decreases s.0, 0nat,
{
    let te = populate_expr(sys, p, scope, e);
    let ghost s1 = *sys;
    let ghost de = choose|d: Deriv| #[trigger]
        expr_deriv(
            &s1,
            scope,
            p,
            e,
            te,
            old(sys).log@.len(),
            s1.log@.len(),
            old(sys).graph.count(),
            s1.graph.count(),
            d,
        );
    match codomain {
        Some(c) => {
            assert(old(sys).is_type(c));
            sys.unify(c, te);
        },
        None => {},
    }
    proof {
        sys.lemma_advanced_self();
        s1.lemma_advanced_trans(sys, sys);
        old(sys).lemma_advanced_trans(&s1, sys);
        old(sys).lemma_env_kept(&s1, None, scope);
        assert(sys.env(scope) =~= s1.env(scope));
        lemma_valid_expr_kept(&s1, sys, p, e, de);
        let d = Deriv { ty: te, link: te, var: None, scope, kids: seq![de] };
        assert(valid_stmt(sys, p, s, codomain, d));
        assert forall|q: int| old(sys).log@.len() <= q < sys.log@.len() implies asks_stmt(
            p,
            s,
            codomain,
            d,
            #[trigger] sys.log@[q],
        ) by {
            if q < s1.log@.len() {
                assert(s1.log@[q] == sys.log@[q]);
            }
        }
        assert(stmt_deriv(
            sys,
            scope,
            p,
            s,
            codomain,
            old(sys).log@.len(),
            sys.log@.len(),
            old(sys).graph.count(),
            sys.graph.count(),
            d,
        ));
    }
}

/// Resolves a `return` without value: the type of the result is made the type of
/// nothing.
fn populate_return_void(
    sys: &mut TypeSystem,
    p: &Program,
    scope: Scope,
    codomain: Option<Ty>,
    s: StmtNode,
)
    requires
        p.wf(),
        p.has(s.0, Kind::Stmt),
        p@[s.0 as int] == Node::ReturnVoidStmt,
        old(sys).wf(),
        old(sys).fits(p),
        old(sys).names_ok(p),
        old(sys).scopes.has(scope),
        codomain matches Some(c) ==> old(sys).is_type(c),
    ensures
        final(sys).wf(),
        final(sys).fits(p),
        final(sys).names_ok(p),
        old(sys).advanced_to(final(sys)),
        old(sys).generics_kept(final(sys)),
        old(sys).scopes.grown_in(&final(sys).scopes, Some(scope)),
        final(sys).found_since(old(sys), stmt_found(p, old(sys).env(scope), s)),
        final(sys).env(scope) == stmt_env(p, old(sys).env(scope), s),
        derives_stmt(
            final(sys),
            scope,
            p,
            s,
            codomain,
            old(sys).log@.len(),
            final(sys).log@.len(),
            old(sys).graph.count(),
            final(sys).graph.count(),
        ),
{
    match codomain {
        Some(c) => {
            let v = sys.build(Term::Void);
            let ghost s1 = *sys;
            assert(old(sys).is_type(c));
            sys.unify(c, v);
            proof {
                old(sys).lemma_advanced_trans(&s1, sys);
                assert(sys.env(scope) =~= old(sys).env(scope));
                assert(s1.is_type(v));
                let d = Deriv { ty: v, link: v, var: None, scope, kids: Seq::empty() };
                assert(valid_stmt(sys, p, s, codomain, d));
                assert(stmt_deriv(
                    sys,
                    scope,
                    p,
                    s,
                    codomain,
                    old(sys).log@.len(),
                    sys.log@.len(),
                    old(sys).graph.count(),
                    sys.graph.count(),
                    d,
                ));
            }
        },
        None => {
            proof {
                sys.lemma_advanced_self();
                old(sys).lemma_advanced_trans(sys, sys);
                let t = Ty(0);
                assert(valid_stmt(sys, p, s, codomain, leaf_in(t, scope)));
                assert(stmt_deriv(
                    sys,
                    scope,
                    p,
                    s,
                    codomain,
                    old(sys).log@.len(),
                    sys.log@.len(),
                    old(sys).graph.count(),
                    sys.graph.count(),
                    leaf_in(t, scope),
                ));
            }
        },
    }
}

/// Resolves the declaration of a function `name` with the arguments `args` and the
/// annotation `cod` of its result: the name is declared with the function type that
/// these write.
fn populate_decl(
    sys: &mut TypeSystem,
    p: &Program,
    scope: Scope,
    codomain: Option<Ty>,
    s: StmtNode,
    name: Name,
    args: ArgListNode,
    cod: OptTypeNode,
)
    requires
        p.wf(),
        p.has(s.0, Kind::Stmt),
        p@[s.0 as int] == Node::FunctionDeclStmt(name, args, cod),
        old(sys).wf(),
        old(sys).fits(p),
        old(sys).names_ok(p),
        old(sys).scopes.has(scope),
        codomain matches Some(c) ==> old(sys).is_type(c),
    ensures
        final(sys).wf(),
        final(sys).fits(p),
        final(sys).names_ok(p),
        old(sys).advanced_to(final(sys)),
        old(sys).generics_kept(final(sys)),
        old(sys).scopes.grown_in(&final(sys).scopes, Some(scope)),
        final(sys).found_since(old(sys), stmt_found(p, old(sys).env(scope), s)),
        final(sys).env(scope) == stmt_env(p, old(sys).env(scope), s),
        derives_stmt(
            final(sys),
            scope,
            p,
            s,
            codomain,
            old(sys).log@.len(),
            final(sys).log@.len(),
            old(sys).graph.count(),
            final(sys).graph.count(),
        ),
{
    let ghost env = sys.env(scope);
    let (dom, c, ft) = populate_signature(sys, p, args, cod);
    let ghost s4 = *sys;
    let ghost da = choose|ds: Seq<Deriv>|
        #[trigger] valid_arg_tys(&s4, p, args, ds) && types_of(ds) == dom@;
    let ghost dc = choose|d: Deriv| #[trigger] valid_opt_ty(&s4, p, cod, d) && d.ty == c;
    let ghost list = choose|l: Ty|
        #[trigger] chain(&s4.graph, l, dom@) && s4.graph.term(ft.0 as int) == Term::Function(
            l,
            c,
        );
    proof {
        assert(s4.scopes == old(sys).scopes);
        assert(s4.env(scope) =~= env);
    }
    let made = sys.declare(scope, name, ft, false);
    let ghost s5 = *sys;
    match made {
        Some(v) => {
            sys.generalize(scope, v);
        },
        None => {},
    }
    proof {
        if made is None {
            s5.lemma_advanced_self();
        }
        s4.lemma_advanced_trans(&s5, sys);
        old(sys).lemma_advanced_trans(&s4, sys);
        assert(sys.scopes == s5.scopes);
        assert(sys.env(scope) =~= s5.env(scope));
        lemma_valid_arg_tys_kept(&s4, sys, p, args, da);
        lemma_valid_opt_ty_kept(&s4, sys, p, cod, dc);
        lemma_chain_kept(&s4, sys, list, dom@);
        crate::typing::lemma_term_kept(&s4, sys, ft);
        if let Some(v) = made {
            crate::typing::lemma_declares_kept(&s5, sys, v, name, ft);
        }
        let d = Deriv { ty: ft, link: list, var: made, scope, kids: da.push(dc) };
        assert(d.kids.last() == dc);
        assert(d.kids.drop_last() =~= da);
        assert(valid_stmt(sys, p, s, codomain, d));
        assert(stmt_deriv(
            sys,
            scope,
            p,
            s,
            codomain,
            old(sys).log@.len(),
            sys.log@.len(),
            old(sys).graph.count(),
            sys.graph.count(),
            d,
        ));
    }
}

/// Resolves the condition `c` of an `if` or a `while`, which is a boolean, and opens
/// the scope of a block.
fn populate_condition(sys: &mut TypeSystem, p: &Program, scope: Scope, c: ExprNode) -> (r: (Ty, Ty))
    requires
        p.wf(),
        p.has(c.0, Kind::Expr),
        old(sys).wf(),
        old(sys).fits(p),
        old(sys).names_ok(p),
        old(sys).scopes.has(scope),
    ensures
        final(sys).wf(),
        final(sys).fits(p),
        final(sys).names_ok(p),
        old(sys).advanced_to(final(sys)),
        old(sys).generics_kept(final(sys)),
        old(sys).scopes.grown_in(&final(sys).scopes, None),
        final(sys).found_since(old(sys), expr_found(p, old(sys).env(scope), c)),
        final(sys).env(scope) == old(sys).env(scope),
        final(sys).log@.len() > old(sys).log@.len(),
        final(sys).log@.last() == (r.0, r.1),
        derives_expr(
            final(sys),
            scope,
            p,
            c,
            r.0,
            old(sys).log@.len(),
            (final(sys).log@.len() - 1) as nat,
            old(sys).graph.count(),
            final(sys).graph.count(),
        ),
        final(sys).is_type(r.1),
        final(sys).graph.term(r.1.0 as int) == Term::Boolean,
        final(sys).linked(r.0, r.1),
    decreases c.0, 2nat,
{
    let tc = populate_expr(sys, p, scope, c);
    let ghost s1 = *sys;
    let ghost dc = choose|d: Deriv| #[trigger]
        expr_deriv(
            &s1,
            scope,
            p,
            c,
            tc,
            old(sys).log@.len(),
            s1.log@.len(),
            old(sys).graph.count(),
            s1.graph.count(),
            d,
        );
    let b = sys.build(Term::Boolean);
    let ghost s2 = *sys;
    assert(sys.is_type(tc));
    sys.unify(tc, b);
    proof {
        s1.lemma_advanced_trans(&s2, sys);
        old(sys).lemma_advanced_trans(&s1, sys);
        old(sys).lemma_env_kept(&s1, None, scope);
        assert(sys.scopes == s1.scopes);
        assert(sys.env(scope) =~= s1.env(scope));
        lemma_valid_expr_kept(&s1, sys, p, c, dc);
        assert(s2.is_type(b));
        assert forall|q: int| old(sys).log@.len() <= q < sys.log@.len() - 1 implies asks_expr(
            p,
            c,
            dc,
            #[trigger] sys.log@[q],
        ) by {
            assert(s1.log@[q] == sys.log@[q]);
        }
        assert(expr_deriv(
            sys,
            scope,
            p,
            c,
            tc,
            old(sys).log@.len(),
            (sys.log@.len() - 1) as nat,
            old(sys).graph.count(),
            sys.graph.count(),
            dc,
        ));
    }
    (tc, b)
}

/// The scope that is added next.
pub open spec fn next_scope(sys: &TypeSystem) -> Scope {
    Scope(sys.scopes.parents@.len() as usize)
}

/// Resolves the statements of a block in a scope of its own under `scope`.
fn populate_block(
    sys: &mut TypeSystem,
    p: &Program,
    scope: Scope,
    codomain: Option<Ty>,
    block: StmtListNode,
)
    requires
        p.wf(),
        p.has(block.0, Kind::StmtList),
        old(sys).wf(),
        old(sys).fits(p),
        old(sys).names_ok(p),
        old(sys).scopes.has(scope),
        codomain matches Some(c) ==> old(sys).is_type(c),
    ensures
        final(sys).wf(),
        final(sys).fits(p),
        final(sys).names_ok(p),
        old(sys).advanced_to(final(sys)),
        old(sys).generics_kept(final(sys)),
        old(sys).scopes.grown_in(&final(sys).scopes, None),
        final(sys).found_since(old(sys), stmts_found(p, old(sys).env(scope), block)),
        final(sys).env(scope) == old(sys).env(scope),
        under(final(sys), next_scope(old(sys)), scope),
        derives_stmts(
            final(sys),
            next_scope(old(sys)),
            p,
            block,
            codomain,
            old(sys).log@.len(),
            final(sys).log@.len(),
            old(sys).graph.count(),
            final(sys).graph.count(),
        ),
    decreases block.0, 2nat,
{
    let inner = sys.enter(Some(scope));
    let ghost s1 = *sys;
    proof {
        assert(s1.env(inner) == old(sys).env(scope));
        old(sys).lemma_env_kept(&s1, None, scope);
        if s1.scopes.within(scope, inner) {
            s1.scopes.lemma_within_older(scope, inner);
        }
    }
    populate_stmts(sys, p, inner, codomain, block);
    proof {
        old(sys).lemma_advanced_trans(&s1, sys);
        crate::typing::lemma_scopes_kept(&s1, sys);
        assert(under(&s1, inner, scope));
        s1.lemma_env_kept(sys, Some(inner), scope);
        old(sys).scopes.lemma_grown_in_trans(&s1.scopes, &sys.scopes, None, Some(inner));
    }
}

/// Resolves an `if` with the condition `c` and the blocks `first` and `second`.
fn populate_if(
    sys: &mut TypeSystem,
    p: &Program,
    scope: Scope,
    codomain: Option<Ty>,
    s: StmtNode,
    c: ExprNode,
    first: StmtListNode,
    second: StmtListNode,
)
    requires
        p.wf(),
        p.has(s.0, Kind::Stmt),
        p@[s.0 as int] == Node::IfStmt(c, first, second),
        old(sys).wf(),
        old(sys).fits(p),
        old(sys).names_ok(p),
        old(sys).scopes.has(scope),
        codomain matches Some(c) ==> old(sys).is_type(c),
    ensures
        final(sys).wf(),
        final(sys).fits(p),
        final(sys).names_ok(p),
        old(sys).advanced_to(final(sys)),
        old(sys).generics_kept(final(sys)),
        old(sys).scopes.grown_in(&final(sys).scopes, Some(scope)),
        final(sys).found_since(old(sys), stmt_found(p, old(sys).env(scope), s)),
        final(sys).env(scope) == stmt_env(p, old(sys).env(scope), s),
        derives_stmt(
            final(sys),
            scope,
            p,
            s,
            codomain,
            old(sys).log@.len(),
            final(sys).log@.len(),
            old(sys).graph.count(),
            final(sys).graph.count(),
        ),
    decreases s.0, 0nat,
{
    let (tc, b) = populate_condition(sys, p, scope, c);
    let ghost s1 = *sys;
    let ghost dc = choose|d: Deriv| #[trigger]
        expr_deriv(
            &s1,
            scope,
            p,
            c,
            tc,
            old(sys).log@.len(),
            (s1.log@.len() - 1) as nat,
            old(sys).graph.count(),
            s1.graph.count(),
            d,
        );
    populate_block(sys, p, scope, codomain, first);
    let ghost s2 = *sys;
    let ghost i1 = next_scope(&s1);
    let ghost i2 = next_scope(&s2);
    let ghost d1 = choose|ds: Seq<Deriv>| #[trigger]
        stmts_deriv(
            &s2,
            i1,
            p,
            first,
            codomain,
            s1.log@.len(),
            s2.log@.len(),
            s1.graph.count(),
            s2.graph.count(),
            ds,
        );
    populate_block(sys, p, scope, codomain, second);
    proof {
        let d2 = choose|ds: Seq<Deriv>| #[trigger]
            stmts_deriv(
                sys,
                i2,
                p,
                second,
                codomain,
                s2.log@.len(),
                sys.log@.len(),
                s2.graph.count(),
                sys.graph.count(),
                ds,
            );
        crate::typing::lemma_scopes_kept(&s2, sys);
        s1.lemma_advanced_trans(&s2, sys);
        old(sys).lemma_advanced_trans(&s1, sys);
        old(sys).scopes.lemma_grown_in_trans(&s1.scopes, &s2.scopes, None, None);
        old(sys).scopes.lemma_grown_in_trans(&s2.scopes, &sys.scopes, None, None);
        lemma_valid_expr_kept(&s1, sys, p, c, dc);
        lemma_valid_stmts_kept(&s2, sys, p, first, codomain, d1);
        crate::typing::lemma_term_kept(&s1, sys, b);
        assert(s1.graph.has(tc) && s1.graph.has(b));
        assert(sys.linked(tc, b));
        assert(s1.is_type(b));
        let d = Deriv {
            ty: tc,
            link: b,
            var: None,
            scope,
            kids: seq![
                dc,
                Deriv { ty: tc, link: tc, var: None, scope: i1, kids: d1 },
                Deriv { ty: tc, link: tc, var: None, scope: i2, kids: d2 },
            ],
        };
        assert(valid_stmt(sys, p, s, codomain, d));
        assert forall|q: int| old(sys).log@.len() <= q < sys.log@.len() implies asks_stmt(
            p,
            s,
            codomain,
            d,
            #[trigger] sys.log@[q],
        ) by {
            if q < s1.log@.len() {
                assert(s1.log@[q] == sys.log@[q]);
            } else if q < s2.log@.len() {
                assert(s2.log@[q] == sys.log@[q]);
            }
        }
        assert(stmt_deriv(
            sys,
            scope,
            p,
            s,
            codomain,
            old(sys).log@.len(),
            sys.log@.len(),
            old(sys).graph.count(),
            sys.graph.count(),
            d,
        ));
    }
}

/// Resolves a `while` with the condition `c` and the block `body`.
fn populate_while(
    sys: &mut TypeSystem,
    p: &Program,
    scope: Scope,
    codomain: Option<Ty>,
    s: StmtNode,
    c: ExprNode,
    body: StmtListNode,
)
    requires
        p.wf(),
        p.has(s.0, Kind::Stmt),
        p@[s.0 as int] == Node::WhileStmt(c, body),
        old(sys).wf(),
        old(sys).fits(p),
        old(sys).names_ok(p),
        old(sys).scopes.has(scope),
        codomain matches Some(c) ==> old(sys).is_type(c),
    ensures
        final(sys).wf(),
        final(sys).fits(p),
        final(sys).names_ok(p),
        old(sys).advanced_to(final(sys)),
        old(sys).generics_kept(final(sys)),
        old(sys).scopes.grown_in(&final(sys).scopes, Some(scope)),
        final(sys).found_since(old(sys), stmt_found(p, old(sys).env(scope), s)),
        final(sys).env(scope) == stmt_env(p, old(sys).env(scope), s),
        derives_stmt(
            final(sys),
            scope,
            p,
            s,
            codomain,
            old(sys).log@.len(),
            final(sys).log@.len(),
            old(sys).graph.count(),
            final(sys).graph.count(),
        ),
    decreases s.0, 0nat,
{
    let (tc, b) = populate_condition(sys, p, scope, c);
    let ghost s1 = *sys;
    let ghost dc = choose|d: Deriv| #[trigger]
        expr_deriv(
            &s1,
            scope,
            p,
            c,
            tc,
            old(sys).log@.len(),
            (s1.log@.len() - 1) as nat,
            old(sys).graph.count(),
            s1.graph.count(),
            d,
        );
    populate_block(sys, p, scope, codomain, body);
    let ghost inner = next_scope(&s1);
    proof {
        let d1 = choose|ds: Seq<Deriv>| #[trigger]
            stmts_deriv(
                sys,
                inner,
                p,
                body,
                codomain,
                s1.log@.len(),
                sys.log@.len(),
                s1.graph.count(),
                sys.graph.count(),
                ds,
            );
        old(sys).lemma_advanced_trans(&s1, sys);
        old(sys).scopes.lemma_grown_in_trans(&s1.scopes, &sys.scopes, None, None);
        lemma_valid_expr_kept(&s1, sys, p, c, dc);
        crate::typing::lemma_term_kept(&s1, sys, b);
        assert(s1.graph.has(tc) && s1.graph.has(b));
        assert(sys.linked(tc, b));
        assert(s1.is_type(b));
        let d = Deriv {
            ty: tc,
            link: b,
            var: None,
            scope,
            kids: seq![dc, Deriv { ty: tc, link: tc, var: None, scope: inner, kids: d1 }],
        };
        assert(valid_stmt(sys, p, s, codomain, d));
        assert forall|q: int| old(sys).log@.len() <= q < sys.log@.len() implies asks_stmt(
            p,
            s,
            codomain,
            d,
            #[trigger] sys.log@[q],
        ) by {
            if q < s1.log@.len() {
                assert(s1.log@[q] == sys.log@[q]);
            }
        }
        assert(stmt_deriv(
            sys,
            scope,
            p,
            s,
            codomain,
            old(sys).log@.len(),
            sys.log@.len(),
            old(sys).graph.count(),
            sys.graph.count(),
            d,
        ));
    }
}

/// Resolves the names in the statement `s`, seen from `scope`, within a function whose
/// result has the type `codomain`.
///
/// A `let` declares its name, after its value is resolved, with the type of the value,
/// which is also what its annotation writes. A `return` makes the type of its value
/// the type of the result. The condition of an `if` or a `while` is a boolean, and
/// their blocks get scopes of their own.
///
/// What is recorded of names is what [`stmt_found`] finds for the names that are
/// visible in `scope`, and the names that are visible in `scope` afterwards are those
/// of [`stmt_env`]. The statement has a derivation, which asks for each pair of types
/// that was added to the log.
pub fn populate_stmt(
    sys: &mut TypeSystem,
    p: &Program,
    scope: Scope,
    codomain: Option<Ty>,
    s: StmtNode,
)
    requires
        p.wf(),
        p.has(s.0, Kind::Stmt),
        old(sys).wf(),
        old(sys).fits(p),
        old(sys).names_ok(p),
        old(sys).scopes.has(scope),
        codomain matches Some(c) ==> old(sys).is_type(c),
    ensures
        final(sys).wf(),
        final(sys).fits(p),
        final(sys).names_ok(p),
        old(sys).advanced_to(final(sys)),
        old(sys).generics_kept(final(sys)),
        old(sys).scopes.grown_in(&final(sys).scopes, Some(scope)),
        final(sys).found_since(old(sys), stmt_found(p, old(sys).env(scope), s)),
        final(sys).env(scope) == stmt_env(p, old(sys).env(scope), s),
        derives_stmt(
            final(sys),
            scope,
            p,
            s,
            codomain,
            old(sys).log@.len(),
            final(sys).log@.len(),
            old(sys).graph.count(),
            final(sys).graph.count(),
        ),
    decreases s.0, 1nat,
{
    match p.node(s.0) {
        Node::ExprStmt(e) => {
            let t = populate_expr(sys, p, scope, e);
            proof {
                old(sys).lemma_env_kept(sys, None, scope);
                let de = choose|d: Deriv| #[trigger]
                    expr_deriv(
                        sys,
                        scope,
                        p,
                        e,
                        t,
                        old(sys).log@.len(),
                        sys.log@.len(),
                        old(sys).graph.count(),
                        sys.graph.count(),
                        d,
                    );
                let d = Deriv { ty: t, link: t, var: None, scope, kids: seq![de] };
                assert(valid_stmt(sys, p, s, codomain, d));
                assert(stmt_deriv(
                    sys,
                    scope,
                    p,
                    s,
                    codomain,
                    old(sys).log@.len(),
                    sys.log@.len(),
                    old(sys).graph.count(),
                    sys.graph.count(),
                    d,
                ));
            }
        },
        Node::LetStmt(name, otn, e) => populate_let(sys, p, scope, codomain, s, name, otn, e),
        Node::ReturnStmt(e) => populate_return(sys, p, scope, codomain, s, e),
        Node::ReturnVoidStmt => populate_return_void(sys, p, scope, codomain, s),
        Node::FunctionDeclStmt(name, args, cod) => populate_decl(
            sys,
            p,
            scope,
            codomain,
            s,
            name,
            args,
            cod,
        ),
        Node::FunctionStmt(f) => {
            let t = populate_function(sys, p, scope, f, true);
            proof {
                let df = choose|d: Deriv| #[trigger]
                    function_deriv(
                        sys,
                        scope,
                        true,
                        p,
                        f,
                        t,
                        old(sys).log@.len(),
                        sys.log@.len(),
                        old(sys).graph.count(),
                        sys.graph.count(),
                        d,
                    );
                let d = Deriv { ty: t, link: t, var: None, scope, kids: seq![df] };
                assert(valid_stmt(sys, p, s, codomain, d));
                assert(stmt_deriv(
                    sys,
                    scope,
                    p,
                    s,
                    codomain,
                    old(sys).log@.len(),
                    sys.log@.len(),
                    old(sys).graph.count(),
                    sys.graph.count(),
                    d,
                ));
            }
        },
        Node::IfStmt(c, t, e) => populate_if(sys, p, scope, codomain, s, c, t, e),
        Node::WhileStmt(c, b) => populate_while(sys, p, scope, codomain, s, c, b),
        _ => {
            proof {
                sys.lemma_advanced_self();
                old(sys).lemma_advanced_trans(sys, sys);
                assert(valid_stmt(sys, p, s, codomain, leaf_in(Ty(0), scope)));
                assert(stmt_deriv(
                    sys,
                    scope,
                    p,
                    s,
                    codomain,
                    old(sys).log@.len(),
                    sys.log@.len(),
                    old(sys).graph.count(),
                    sys.graph.count(),
                    leaf_in(Ty(0), scope),
                ));
            }
        },
    }
}

/// Resolves the names in the statements of the list `stmts`, in their order.
///
/// What is recorded of names is what [`stmts_found`] finds for the names that are
/// visible in `scope`. The statements have derivations, which ask for each pair of types
/// that was added to the log.
pub fn populate_stmts(
    sys: &mut TypeSystem,
    p: &Program,
    scope: Scope,
    codomain: Option<Ty>,
    stmts: StmtListNode,
)
    requires
        p.wf(),
        p.has(stmts.0, Kind::StmtList),
        old(sys).wf(),
        old(sys).fits(p),
        old(sys).names_ok(p),
        old(sys).scopes.has(scope),
        codomain matches Some(c) ==> old(sys).is_type(c),
    ensures
        final(sys).wf(),
        final(sys).fits(p),
        final(sys).names_ok(p),
        old(sys).advanced_to(final(sys)),
        old(sys).generics_kept(final(sys)),
        old(sys).scopes.grown_in(&final(sys).scopes, Some(scope)),
        final(sys).found_since(old(sys), stmts_found(p, old(sys).env(scope), stmts)),
        derives_stmts(
            final(sys),
            scope,
            p,
            stmts,
            codomain,
            old(sys).log@.len(),
            final(sys).log@.len(),
            old(sys).graph.count(),
            final(sys).graph.count(),
        ),
    decreases stmts.0, 1nat,
{
    let mut cur = stmts;
    let ghost env0 = sys.env(scope);
    let ghost mut acc = Found::nothing();
    let ghost mut seen: Seq<StmtNode> = Seq::empty();
    let ghost mut ds: Seq<Deriv> = Seq::empty();
    let ghost mut parts: Seq<Seq<Ty>> = Seq::empty();
    proof {
        sys.lemma_advanced_self();
        old(sys).lemma_advanced_trans(sys, sys);
        assert(seen + p.stmt_list(cur) =~= p.stmt_list(stmts));
    }
    loop
        invariant
            p.wf(),
            p.has(cur.0, Kind::StmtList),
            cur.0 <= stmts.0,
            sys.wf(),
            sys.fits(p),
            sys.names_ok(p),
            sys.scopes.has(scope),
            codomain matches Some(c) ==> sys.is_type(c) && old(sys).is_type(c),
            old(sys).advanced_to(sys),
            old(sys).generics_kept(sys),
            env0 == old(sys).env(scope),
            old(sys).scopes.grown_in(&sys.scopes, Some(scope)),
            sys.found_since(old(sys), acc),
            stmts_found(p, env0, stmts) == acc.and(stmts_found(p, sys.env(scope), cur)),
            p.stmt_list(stmts) == seen + p.stmt_list(cur),
            seen.len() == ds.len(),
            forall|i: int|
                0 <= i < ds.len() ==> valid_stmt(sys, p, seen[i], codomain, #[trigger] ds[i]),
            all_in(ds, scope),
            parts.len() == ds.len(),
            forall|i: int| 0 <= i < ds.len() ==> #[trigger] parts[i] == slots_stmt(p, seen[i], ds[i]),
            old(sys).graph.count() <= sys.graph.count(),
            rising(flat(parts), old(sys).graph.count(), sys.graph.count()),
            forall|i: int| 0 <= i < seen.len() ==> (#[trigger] seen[i]).0 < stmts.0,
            forall|q: int|
                old(sys).log@.len() <= q < sys.log@.len() ==> asks_within(
                    p,
                    seen,
                    codomain,
                    ds,
                    #[trigger] sys.log@[q],
                ),
        decreases cur.0,
    {
        match p.node(cur.0) {
            Node::ConsStmtList(head, tail) => {
                let ghost s1 = *sys;
                populate_stmt(sys, p, scope, codomain, head);
                proof {
                    let d = choose|d: Deriv| #[trigger]
                        stmt_deriv(
                            sys,
                            scope,
                            p,
                            head,
                            codomain,
                            s1.log@.len(),
                            sys.log@.len(),
                            s1.graph.count(),
                            sys.graph.count(),
                            d,
                        );
                    old(sys).lemma_advanced_trans(&s1, sys);
                    assert forall|q: int|
                        old(sys).log@.len() <= q < sys.log@.len() implies asks_within(
                        p,
                        seen.push(head),
                        codomain,
                        ds.push(d),
                        #[trigger] sys.log@[q],
                    ) by {
                        if q < s1.log@.len() {
                            assert(s1.log@[q] == sys.log@[q]);
                            let i = choose|i: int|
                                0 <= i < ds.len() && i < seen.len() && asks_stmt(
                                    p,
                                    seen[i],
                                    codomain,
                                    #[trigger] ds[i],
                                    sys.log@[q],
                                );
                            assert(ds.push(d)[i] == ds[i]);
                            assert(seen.push(head)[i] == seen[i]);
                        } else {
                            assert(ds.push(d)[ds.len() as int] == d);
                            assert(seen.push(head)[ds.len() as int] == head);
                        }
                    }
                    old(sys).scopes.lemma_grown_in_trans(
                        &s1.scopes,
                        &sys.scopes,
                        Some(scope),
                        Some(scope),
                    );
                    acc = acc.and(stmt_found(p, s1.env(scope), head));
                    assert forall|i: int| 0 <= i < ds.len() implies valid_stmt(
                        sys,
                        p,
                        seen[i],
                        codomain,
                        #[trigger] ds[i],
                    ) by {
                        lemma_valid_stmt_kept(&s1, sys, p, seen[i], codomain, ds[i]);
                    }
                    assert(seen.push(head) + p.stmt_list(tail) =~= seen + p.stmt_list(cur));
                    lemma_flat_push(parts, slots_stmt(p, head, d));
                    lemma_rising_more(
                        flat(parts),
                        slots_stmt(p, head, d),
                        old(sys).graph.count(),
                        s1.graph.count(),
                        sys.graph.count(),
                        sys.graph.count(),
                    );
                    parts = parts.push(slots_stmt(p, head, d));
                    seen = seen.push(head);
                    ds = ds.push(d);
                }
                cur = tail;
            },
            _ => {
                proof {
                    assert(seen =~= p.stmt_list(stmts));
                    assert(valid_stmts(sys, p, stmts, codomain, ds));
                    assert(slot_parts_stmts(p, stmts, ds) =~= parts);
                    assert forall|q: int|
                        old(sys).log@.len() <= q < sys.log@.len() implies asks_stmts(
                        p,
                        stmts,
                        codomain,
                        ds,
                        #[trigger] sys.log@[q],
                    ) by {
                        let i = choose|i: int|
                            0 <= i < ds.len() && i < seen.len() && asks_stmt(
                                p,
                                seen[i],
                                codomain,
                                #[trigger] ds[i],
                                sys.log@[q],
                            );
                        assert(seen[i].0 < stmts.0);
                    }
                    assert(stmts_deriv(
                        sys,
                        scope,
                        p,
                        stmts,
                        codomain,
                        old(sys).log@.len(),
                        sys.log@.len(),
                        old(sys).graph.count(),
                        sys.graph.count(),
                        ds,
                    ));
                }
                return ;
            },
        }
    }
}

/// Resolves the names of the module `m` and collects what its types have to meet.
///
/// What is recorded of names is what [`module_found`] finds, and the module has a
/// derivation, which asks for each pair of types that was added to the log.
pub fn populate_module(sys: &mut TypeSystem, p: &Program, m: ModuleNode)
    requires
        p.wf(),
        p.has(m.0, Kind::Module),
        old(sys).wf(),
        old(sys).fits(p),
        old(sys).names_ok(p),
    ensures
        final(sys).wf(),
        final(sys).fits(p),
        final(sys).names_ok(p),
        old(sys).advanced_to(final(sys)),
        old(sys).generics_kept(final(sys)),
        final(sys).found_since(old(sys), module_found(p, m)),
        well_typed(final(sys), p, m),
        derives_module(final(sys), p, m, old(sys).log@.len()),
{
    match p.node(m.0) {
        Node::Module(body) => {
            let root = sys.enter(None);
            let ghost s1 = *sys;
            proof {
                assert(s1.env(root) =~= Set::<Name>::empty());
            }
            populate_stmts(sys, p, root, None, body);
            proof {
                old(sys).lemma_advanced_trans(&s1, sys);
                let ds = choose|ds: Seq<Deriv>| #[trigger]
                    stmts_deriv(
                        sys,
                        root,
                        p,
                        body,
                        None,
                        s1.log@.len(),
                        sys.log@.len(),
                        s1.graph.count(),
                        sys.graph.count(),
                        ds,
                    );
                let d = Deriv { ty: Ty(0), link: Ty(0), var: None, scope: root, kids: ds };
                assert(valid_module(sys, p, m, d));
                assert(module_deriv(sys, p, m, old(sys).log@.len(), d));
            }
        },
        _ => {
            proof {
                sys.lemma_advanced_self();
                old(sys).lemma_advanced_trans(sys, sys);
                let t = Ty(0);
                assert(valid_module(sys, p, m, leaf(t)));
                assert(module_deriv(sys, p, m, old(sys).log@.len(), leaf(t)));
            }
        },
    }
}

} // verus!
