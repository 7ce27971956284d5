//! What scoping means: which names a piece of syntax declares where they are visible
//! already, and which it uses where they are not.
//!
//! The names that are visible at a place are a set. A statement hands the set on to the
//! statement after it, with the name that it declares; a block starts from the set of
//! its surroundings and hands nothing back.

use vstd::prelude::*;
use crate::program::{
    ArgListNode, ExprListNode, ExprNode, FunctionNode, ModuleNode, Name, Node, Program,
    StmtListNode, StmtNode,
};

verus! {

/// What was found wrong with the names of a piece of syntax.
pub ghost struct Found {
    /// A name is declared where it is visible.
    pub shadowing: bool,
    /// A name is used where it is not visible.
    pub undeclared: bool,
}

impl Found {
    /// Nothing wrong.
    pub open spec fn nothing() -> Found {
        Found { shadowing: false, undeclared: false }
    }

    /// What was found in two pieces.
    pub open spec fn and(self, other: Found) -> Found {
        Found {
            shadowing: self.shadowing || other.shadowing,
            undeclared: self.undeclared || other.undeclared,
        }
    }
}

/// Whether an argument of the list is declared where its name is visible, when the
/// arguments are declared in their order, and the names that are visible after them.
pub open spec fn args_found(p: &Program, env: Set<Name>, args: ArgListNode) -> (bool, Set<Name>)
    decreases args.0,
{
    if args.0 < p@.len() {
        match p@[args.0 as int] {
            Node::ConsArgList(n, _, tail) => if tail.0 < args.0 {
                let rest = args_found(p, env.insert(n), tail);
                (env.contains(n) || rest.0, rest.1)
            } else {
                (false, env)
            },
            _ => (false, env),
        }
    } else {
        (false, env)
    }
}

/// What is wrong with the names of an expression where the names of `env` are visible.
pub open spec fn expr_found(p: &Program, env: Set<Name>, e: ExprNode) -> Found
    decreases e.0, 0nat,
{
    if e.0 < p@.len() {
        match p@[e.0 as int] {
            Node::VariableExpr(n) => Found { shadowing: false, undeclared: !env.contains(n) },
            Node::TupleExpr(l) => if l.0 < e.0 {
                exprs_found(p, env, l)
            } else {
                Found::nothing()
            },
            Node::AppExpr(f, l) => if f.0 < e.0 && l.0 < e.0 {
                expr_found(p, env, f).and(exprs_found(p, env, l))
            } else {
                Found::nothing()
            },
            Node::EqualsExpr(l, r) => if l.0 < e.0 && r.0 < e.0 {
                expr_found(p, env, l).and(expr_found(p, env, r))
            } else {
                Found::nothing()
            },
            Node::FunctionExpr(f) => if f.0 < e.0 {
                function_found(p, env, f)
            } else {
                Found::nothing()
            },
            _ => Found::nothing(),
        }
    } else {
        Found::nothing()
    }
}

/// What is wrong with the names of the expressions of a list.
pub open spec fn exprs_found(p: &Program, env: Set<Name>, l: ExprListNode) -> Found
    decreases l.0, 1nat,
{
    if l.0 < p@.len() {
        match p@[l.0 as int] {
            Node::ConsExprList(e, tail) => if e.0 < l.0 && tail.0 < l.0 {
                expr_found(p, env, e).and(exprs_found(p, env, tail))
            } else {
                Found::nothing()
            },
            _ => Found::nothing(),
        }
    } else {
        Found::nothing()
    }
}

/// The names of `env` and the name of the function, if it has one.
pub open spec fn with_name(env: Set<Name>, name: Option<Name>) -> Set<Name> {
    match name {
        Some(n) => env.insert(n),
        None => env,
    }
}

/// What is wrong with the names of a function: its name may not be visible where the
/// function stands, its arguments not where its name is visible, and its body sees its
/// name and its arguments.
pub open spec fn function_found(p: &Program, env: Set<Name>, f: FunctionNode) -> Found
    decreases f.0, 0nat,
{
    if f.0 < p@.len() {
        match p@[f.0 as int] {
            Node::Function(name, args, _, body) => if args.0 < f.0 && body.0 < f.0 {
                let named = (name matches Some(n) && env.contains(n));
                let declared = args_found(p, with_name(env, name), args);
                Found { shadowing: named || declared.0, undeclared: false }.and(
                    stmts_found(p, declared.1, body),
                )
            } else {
                Found::nothing()
            },
            _ => Found::nothing(),
        }
    } else {
        Found::nothing()
    }
}

/// The names that are visible after a statement: those before it and the one that it
/// declares.
pub open spec fn stmt_env(p: &Program, env: Set<Name>, s: StmtNode) -> Set<Name> {
    if s.0 < p@.len() {
        match p@[s.0 as int] {
            Node::LetStmt(n, _, _) => env.insert(n),
            Node::FunctionDeclStmt(n, _, _) => env.insert(n),
            Node::FunctionStmt(f) => if f.0 < s.0 {
                match p@[f.0 as int] {
                    Node::Function(name, _, _, _) => with_name(env, name),
                    _ => env,
                }
            } else {
                env
            },
            _ => env,
        }
    } else {
        env
    }
}

/// What is wrong with the names of a statement.
pub open spec fn stmt_found(p: &Program, env: Set<Name>, s: StmtNode) -> Found
    decreases s.0, 0nat,
{
    if s.0 < p@.len() {
        match p@[s.0 as int] {
            Node::ExprStmt(e) => if e.0 < s.0 {
                expr_found(p, env, e)
            } else {
                Found::nothing()
            },
            Node::LetStmt(n, _, e) => if e.0 < s.0 {
                expr_found(p, env, e).and(
                    Found { shadowing: env.contains(n), undeclared: false },
                )
            } else {
                Found::nothing()
            },
            Node::ReturnStmt(e) => if e.0 < s.0 {
                expr_found(p, env, e)
            } else {
                Found::nothing()
            },
            Node::FunctionDeclStmt(n, _, _) => Found {
                shadowing: env.contains(n),
                undeclared: false,
            },
            Node::FunctionStmt(f) => if f.0 < s.0 {
                function_found(p, env, f)
            } else {
                Found::nothing()
            },
            Node::IfStmt(c, t, e) => if c.0 < s.0 && t.0 < s.0 && e.0 < s.0 {
                expr_found(p, env, c).and(stmts_found(p, env, t)).and(stmts_found(p, env, e))
            } else {
                Found::nothing()
            },
            Node::WhileStmt(c, b) => if c.0 < s.0 && b.0 < s.0 {
                expr_found(p, env, c).and(stmts_found(p, env, b))
            } else {
                Found::nothing()
            },
            _ => Found::nothing(),
        }
    } else {
        Found::nothing()
    }
}

/// What is wrong with the names of the statements of a list, each of which sees what
/// the ones before it have declared.
pub open spec fn stmts_found(p: &Program, env: Set<Name>, l: StmtListNode) -> Found
    decreases l.0, 1nat,
{
    if l.0 < p@.len() {
        match p@[l.0 as int] {
            Node::ConsStmtList(s, tail) => if s.0 < l.0 && tail.0 < l.0 {
                stmt_found(p, env, s).and(stmts_found(p, stmt_env(p, env, s), tail))
            } else {
                Found::nothing()
            },
            _ => Found::nothing(),
        }
    } else {
        Found::nothing()
    }
}

/// What is wrong with the names of a module, at whose start no name is visible.
pub open spec fn module_found(p: &Program, m: ModuleNode) -> Found {
    if m.0 < p@.len() {
        match p@[m.0 as int] {
            Node::Module(body) => stmts_found(p, Set::empty(), body),
            _ => Found::nothing(),
        }
    } else {
        Found::nothing()
    }
}

} // verus!
