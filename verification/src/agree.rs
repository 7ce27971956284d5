//! The rules of the grammar and the reading agree: what is written in a text as the
//! rules say is read from its first token to its last.

use vstd::prelude::*;
use crate::accept::{after, Part};
use crate::grammar_util::Literals;
use crate::lexer::{Token, TokenKind};
use crate::program::{
    ArgListNode, ExprListNode, ExprNode, FunctionNode, Kind, ModuleNode, Node, OptTypeNode,
    Program, Span, StmtListNode, StmtNode, TypeListNode, TypeNode,
};
use crate::syntax::{
    adjoining, arg_spans, at, expr_spans, separated, stmt_spans, type_spans, written,
    written_args, written_block, written_since, Text,
};

verus! {

/// Whether `p` is a syntax tree of which every node is written in the text as the rules
/// say.
pub open spec fn all_written(p: &Program, lits: &Literals, text: Text) -> bool {
    p.wf() && written_since(p, lits, text, 0)
}

/// Whether token `k` is one that a type can begin with.
pub open spec fn begins_type(toks: Seq<Token>, k: int) -> bool {
    0 <= k < toks.len() && (toks[k].kind == TokenKind::Void || toks[k].kind == TokenKind::Boolean
        || toks[k].kind == TokenKind::NumberType || toks[k].kind == TokenKind::StringType
        || toks[k].kind == TokenKind::LeftParen)
}

/// A type begins, within each of its pairs of parentheses, with a token that a type can
/// begin with.
pub proof fn lemma_type_begins(p: &Program, lits: &Literals, text: Text, a: TypeNode, j: int)
    requires
        all_written(p, lits, text),
        p.has(a.0, Kind::Type),
        0 <= j <= p.span(a.0 as int).wraps,
    ensures
        begins_type(text.tokens, p.span(a.0 as int).from + j),
{
    let s = p.span(a.0 as int);
    assert(written(p, lits, text, a.0 as int));
    if j < s.wraps {
        assert(at(text, s.from + j, TokenKind::LeftParen));
    }
}

/// A type that is written as the rules say is read, within each of its pairs of
/// parentheses, from its first token to its last.
pub proof fn lemma_type_read(p: &Program, lits: &Literals, text: Text, a: TypeNode, j: int)
    requires
        all_written(p, lits, text),
        p.has(a.0, Kind::Type),
        0 <= j <= p.span(a.0 as int).wraps,
    ensures
        after(text.tokens, Part::Type, p.span(a.0 as int).from + j) == Ok::<int, int>(
            p.span(a.0 as int).to - j,
        ),
        0 <= p.span(a.0 as int).from + j < p.span(a.0 as int).to - j <= text.tokens.len(),
    decreases a.0, p.span(a.0 as int).wraps - j,
{
    let toks = text.tokens;
    let s = p.span(a.0 as int);
    let f = s.from + j;
    let t = s.to - j;
    assert(written(p, lits, text, a.0 as int));
    assert(Program::node_ok(p@, p@[a.0 as int], a.0 as int));
    if j < s.wraps {
        assert(at(text, s.from + j, TokenKind::LeftParen));
        lemma_type_read(p, lits, text, a, j + 1);
        lemma_type_begins(p, lits, text, a, j + 1);
        assert(after(toks, Part::MoreTypes, t - 1) == Ok::<int, int>(t - 1));
        assert(after(toks, Part::Types, f) == Ok::<int, int>(t));
    } else {
        match p@[a.0 as int] {
            Node::ProductType(l) => {
                let spans = type_spans(p, l);
                p.lemma_type_list_items(l, 0);
                let first = p.type_list(l)[0];
                assert(spans[0] == p.span(first.0 as int));
                assert(written(p, lits, text, first.0 as int));
                lemma_type_read(p, lits, text, first, 0);
                lemma_type_begins(p, lits, text, first, 0);
                lemma_more_types(p, lits, text, l, 0, f + 1, t - 1);
                assert(after(toks, Part::Types, f) == Ok::<int, int>(t));
            },
            Node::FunctionType(args, cod) => {
                let m = p.span(cod.0 as int).from - 2;
                lemma_args_read(p, lits, text, args, f + 1, m);
                assert(written(p, lits, text, cod.0 as int));
                lemma_type_read(p, lits, text, cod, 0);
                if p.arg_list(args).len() > 0 {
                    assert(arg_spans(p, args)[0].from == f + 1);
                }
                assert(after(toks, Part::FunctionType, f) == Ok::<int, int>(t));
            },
            _ => {},
        }
    }
}

/// After member `k` of a list of types in parentheses, the members that follow are read
/// up to the closing parenthesis.
pub proof fn lemma_more_types(
    p: &Program,
    lits: &Literals,
    text: Text,
    l: TypeListNode,
    k: int,
    from: int,
    to: int,
)
    requires
        all_written(p, lits, text),
        p.has(l.0, Kind::TypeList),
        separated(text, type_spans(p, l), from, to),
        at(text, to, TokenKind::RightParen),
        0 <= k < p.type_list(l).len(),
    ensures
        after(text.tokens, Part::MoreTypes, type_spans(p, l)[k].to) == Ok::<int, int>(to),
    decreases l.0, p.type_list(l).len() - k,
{
    let toks = text.tokens;
    let spans = type_spans(p, l);
    let n = p.type_list(l).len() as int;
    if k + 1 < n {
        p.lemma_type_list_items(l, k + 1);
        let next = p.type_list(l)[k + 1];
        assert(spans[k + 1] == p.span(next.0 as int));
        assert(spans[k + 1].from == spans[k].to + 1);
        assert(written(p, lits, text, next.0 as int));
        lemma_type_read(p, lits, text, next, 0);
        lemma_more_types(p, lits, text, l, k + 1, from, to);
    } else {
        assert(spans[k] == spans.last());
    }
}

/// An annotation that is written as the rules say is read from its place to its end,
/// where no colon follows it.
pub proof fn lemma_annotation_read(p: &Program, lits: &Literals, text: Text, o: OptTypeNode)
    requires
        all_written(p, lits, text),
        p.has(o.0, Kind::OptType),
        0 <= p.span(o.0 as int).from,
        !at(text, p.span(o.0 as int).to, TokenKind::Colon),
    ensures
        after(text.tokens, Part::Annotation, p.span(o.0 as int).from) == Ok::<int, int>(
            p.span(o.0 as int).to,
        ),
        p.span(o.0 as int).from <= p.span(o.0 as int).to,
    decreases o.0, 0nat,
{
    assert(written(p, lits, text, o.0 as int));
    assert(Program::node_ok(p@, p@[o.0 as int], o.0 as int));
    match p@[o.0 as int] {
        Node::SomeOptType(t) => {
            assert(written(p, lits, text, t.0 as int));
            lemma_type_read(p, lits, text, t, 0);
        },
        _ => {},
    }
}

/// The arguments of a list that are written as the rules say, up to a closing
/// parenthesis, are read up to it.
pub proof fn lemma_args_read(
    p: &Program,
    lits: &Literals,
    text: Text,
    l: ArgListNode,
    from: int,
    to: int,
)
    requires
        all_written(p, lits, text),
        p.has(l.0, Kind::ArgList),
        written_args(p, lits, text, l, from, to),
        at(text, to, TokenKind::RightParen),
        0 <= from,
    ensures
        after(text.tokens, Part::Args, from) == Ok::<int, int>(to),
        from <= to,
    decreases l.0, p.arg_list(l).len() + 1,
{
    if p.arg_list(l).len() > 0 {
        lemma_args_from(p, lits, text, l, 0, from, to);
        lemma_arg_at(p, lits, text, l, 0, from, to);
    }
}

/// Argument `k` of a list that is written as the rules say begins with its name, and a
/// comma and the next argument follow it, or it ends where the list ends.
pub proof fn lemma_arg_at(
    p: &Program,
    lits: &Literals,
    text: Text,
    l: ArgListNode,
    k: int,
    from: int,
    to: int,
)
    requires
        written_args(p, lits, text, l, from, to),
        0 <= k < p.arg_list(l).len(),
    ensures
        at(text, arg_spans(p, l)[k].from, TokenKind::Ident),
        arg_spans(p, l)[k].from == p.span(p.arg_list(l)[k].1.0 as int).from - 1,
        arg_spans(p, l)[k].to == p.span(p.arg_list(l)[k].1.0 as int).to,
        k == 0 ==> arg_spans(p, l)[k].from == from,
        k + 1 < p.arg_list(l).len() ==> at(text, arg_spans(p, l)[k].to, TokenKind::Comma)
            && arg_spans(p, l)[k + 1].from == arg_spans(p, l)[k].to + 1,
        k + 1 == p.arg_list(l).len() ==> arg_spans(p, l)[k].to == to,
{
    let spans = arg_spans(p, l);
    assert(crate::syntax::names(lits, text, spans[k].from, p.arg_list(l)[k].0));
    if k + 1 < p.arg_list(l).len() {
        assert(spans[k + 1].from == spans[k + 1 - 1].to + 1);
    } else {
        assert(spans[k] == spans.last());
    }
}

/// From argument `k` of a list on, the arguments are read up to the closing
/// parenthesis.
pub proof fn lemma_args_from(
    p: &Program,
    lits: &Literals,
    text: Text,
    l: ArgListNode,
    k: int,
    from: int,
    to: int,
)
    requires
        all_written(p, lits, text),
        p.has(l.0, Kind::ArgList),
        written_args(p, lits, text, l, from, to),
        at(text, to, TokenKind::RightParen),
        0 <= k < p.arg_list(l).len(),
    ensures
        after(text.tokens, Part::Args, arg_spans(p, l)[k].from) == Ok::<int, int>(to),
        arg_spans(p, l)[k].from < to,
    decreases l.0, p.arg_list(l).len() - k,
{
    let toks = text.tokens;
    let n = p.arg_list(l).len() as int;
    p.lemma_arg_list_items(l, k);
    let o = p.arg_list(l)[k].1;
    let start = arg_spans(p, l)[k].from;
    let end = arg_spans(p, l)[k].to;
    lemma_arg_at(p, lits, text, l, k, from, to);
    lemma_annotation_read(p, lits, text, o);
    assert(after(toks, Part::Annotation, start + 1) == Ok::<int, int>(end));
    if k + 1 < n {
        lemma_arg_at(p, lits, text, l, k + 1, from, to);
        lemma_args_from(p, lits, text, l, k + 1, from, to);
        assert(after(toks, Part::Args, end + 1) == Ok::<int, int>(to));
    }
}

/// Of spans with commas between them, the first begins where they begin, a comma and
/// the next span follow each but the last, and the last ends where they end.
pub proof fn lemma_separated_at(text: Text, spans: Seq<Span>, from: int, to: int, k: int)
    requires
        separated(text, spans, from, to),
        0 <= k < spans.len(),
    ensures
        k == 0 ==> spans[k].from == from,
        k + 1 < spans.len() ==> at(text, spans[k].to, TokenKind::Comma) && spans[k + 1].from
            == spans[k].to + 1,
        k + 1 == spans.len() ==> spans[k].to == to,
{
    if k + 1 < spans.len() {
        assert(spans[k + 1].from == spans[k + 1 - 1].to + 1);
    } else {
        assert(spans[k] == spans.last());
    }
}

/// Of spans that follow each other, the first begins where they begin, each but the
/// last ends where the next begins, and the last ends where they end.
pub proof fn lemma_adjoining_at(spans: Seq<Span>, from: int, to: int, k: int)
    requires
        adjoining(spans, from, to),
        0 <= k < spans.len(),
    ensures
        k == 0 ==> spans[k].from == from,
        k + 1 < spans.len() ==> spans[k + 1].from == spans[k].to,
        k + 1 == spans.len() ==> spans[k].to == to,
{
    if k + 1 < spans.len() {
        assert(spans[k + 1].from == spans[k + 1 - 1].to);
    } else {
        assert(spans[k] == spans.last());
    }
}

/// Whether token `k` is one that an expression can begin with.
pub open spec fn begins_expr(toks: Seq<Token>, k: int) -> bool {
    0 <= k < toks.len() && (toks[k].kind == TokenKind::Ident || toks[k].kind == TokenKind::True
        || toks[k].kind == TokenKind::False || toks[k].kind == TokenKind::Str || toks[k].kind
        == TokenKind::Number || toks[k].kind == TokenKind::LeftParen || toks[k].kind
        == TokenKind::Function)
}

/// Whether the expression `e` can stand, within `j` of its pairs of parentheses, where
/// neither an equation nor a function can.
pub open spec fn tight_at(p: &Program, e: ExprNode, j: int) -> bool {
    j < p.span(e.0 as int).wraps || !(p@[e.0 as int] is EqualsExpr || p@[e.0 as int] is FunctionExpr)
}

/// Whether the expression `e` is, within `j` of its pairs of parentheses, a name, a
/// literal, a tuple, or in parentheses.
pub open spec fn atom_at(p: &Program, e: ExprNode, j: int) -> bool {
    j < p.span(e.0 as int).wraps || !(p@[e.0 as int] is EqualsExpr || p@[e.0 as int] is FunctionExpr
        || p@[e.0 as int] is AppExpr)
}

/// An expression begins, within each of its pairs of parentheses, with a token that an
/// expression can begin with, and with `function` only where it is a function.
pub proof fn lemma_expr_begins(p: &Program, lits: &Literals, text: Text, e: ExprNode, j: int)
    requires
        all_written(p, lits, text),
        p.has(e.0, Kind::Expr),
        0 <= j <= p.span(e.0 as int).wraps,
    ensures
        begins_expr(text.tokens, p.span(e.0 as int).from + j),
        text.tokens[p.span(e.0 as int).from + j].kind == TokenKind::Function ==> j == p.span(
            e.0 as int,
        ).wraps && p@[e.0 as int] is FunctionExpr,
    decreases e.0,
{
    let s = p.span(e.0 as int);
    assert(written(p, lits, text, e.0 as int));
    assert(Program::node_ok(p@, p@[e.0 as int], e.0 as int));
    if j < s.wraps {
        assert(at(text, s.from + j, TokenKind::LeftParen));
    } else {
        match p@[e.0 as int] {
            Node::AppExpr(c, _) => {
                assert(written(p, lits, text, c.0 as int));
                lemma_expr_begins(p, lits, text, c, 0);
            },
            Node::EqualsExpr(l, _) => {
                assert(written(p, lits, text, l.0 as int));
                lemma_expr_begins(p, lits, text, l, 0);
            },
            Node::FunctionExpr(func) => {
                assert(written(p, lits, text, func.0 as int));
            },
            _ => {},
        }
    }
}

/// A name, a literal, a tuple, or an expression in parentheses, that is written as the
/// rules say, is read from its first token to its last.
pub proof fn lemma_expr0_read(p: &Program, lits: &Literals, text: Text, e: ExprNode, j: int)
    requires
        all_written(p, lits, text),
        p.has(e.0, Kind::Expr),
        0 <= j <= p.span(e.0 as int).wraps,
        atom_at(p, e, j),
    ensures
        after(text.tokens, Part::Expr0, p.span(e.0 as int).from + j) == Ok::<int, int>(
            p.span(e.0 as int).to - j,
        ),
        0 <= p.span(e.0 as int).from + j < p.span(e.0 as int).to - j <= text.tokens.len(),
    decreases e.0, p.span(e.0 as int).wraps - j, 0nat,
{
    let toks = text.tokens;
    let s = p.span(e.0 as int);
    let f = s.from + j;
    let t = s.to - j;
    assert(written(p, lits, text, e.0 as int));
    assert(Program::node_ok(p@, p@[e.0 as int], e.0 as int));
    if j < s.wraps {
        assert(at(text, s.from + j, TokenKind::LeftParen));
        lemma_expr_begins(p, lits, text, e, j + 1);
        lemma_expr_read(p, lits, text, e, j + 1);
        assert(after(toks, Part::MoreExprs, t - 1) == Ok::<int, int>(t - 1));
        assert(after(toks, Part::Group, f) == Ok::<int, int>(t));
    } else {
        match p@[e.0 as int] {
            Node::TupleExpr(l) => {
                let spans = expr_spans(p, l);
                p.lemma_expr_list_items(l, 0);
                let first = p.expr_list(l)[0];
                assert(spans[0] == p.span(first.0 as int));
                assert(written(p, lits, text, first.0 as int));
                lemma_separated_at(text, spans, f + 1, t - 1, 0);
                lemma_expr_begins(p, lits, text, first, 0);
                lemma_expr_read(p, lits, text, first, 0);
                lemma_more_exprs(p, lits, text, l, 0, f + 1, t - 1);
                assert(after(toks, Part::Group, f) == Ok::<int, int>(t));
            },
            _ => {},
        }
    }
}

/// What can stand where neither an equation nor a function can, and is written as the
/// rules say, is read from its first token up to what is read of arguments in
/// parentheses after its last.
pub proof fn lemma_expr1_read(p: &Program, lits: &Literals, text: Text, e: ExprNode, j: int)
    requires
        all_written(p, lits, text),
        p.has(e.0, Kind::Expr),
        0 <= j <= p.span(e.0 as int).wraps,
        tight_at(p, e, j),
    ensures
        after(text.tokens, Part::Expr1, p.span(e.0 as int).from + j) == after(
            text.tokens,
            Part::MoreCalls,
            p.span(e.0 as int).to - j,
        ),
        0 <= p.span(e.0 as int).from + j < p.span(e.0 as int).to - j <= text.tokens.len(),
    decreases e.0, p.span(e.0 as int).wraps - j, 1nat,
{
    let toks = text.tokens;
    let s = p.span(e.0 as int);
    let f = s.from + j;
    let t = s.to - j;
    assert(written(p, lits, text, e.0 as int));
    assert(Program::node_ok(p@, p@[e.0 as int], e.0 as int));
    if atom_at(p, e, j) {
        lemma_expr0_read(p, lits, text, e, j);
    } else {
        match p@[e.0 as int] {
            Node::AppExpr(c, args) => {
                let open = p.span(c.0 as int).to;
                assert(written(p, lits, text, c.0 as int));
                lemma_expr1_read(p, lits, text, c, 0);
                lemma_exprs_read(p, lits, text, args, open + 1, t - 1);
                assert(at(text, open, TokenKind::LeftParen));
                assert(at(text, t - 1, TokenKind::RightParen));
                assert(after(toks, Part::Exprs, open + 1) == Ok::<int, int>(t - 1));
                assert(0 <= open < t <= toks.len());
                assert(after(toks, Part::MoreCalls, open) == after(toks, Part::MoreCalls, t));
            },
            _ => {},
        }
    }
}

/// An expression that is written as the rules say, and after which neither a
/// parenthesis nor `==` follows, is read from its first token to its last.
pub proof fn lemma_expr_read(p: &Program, lits: &Literals, text: Text, e: ExprNode, j: int)
    requires
        all_written(p, lits, text),
        p.has(e.0, Kind::Expr),
        0 <= j <= p.span(e.0 as int).wraps,
        !at(text, p.span(e.0 as int).to - j, TokenKind::LeftParen),
        !at(text, p.span(e.0 as int).to - j, TokenKind::Equals),
    ensures
        after(text.tokens, Part::Expr, p.span(e.0 as int).from + j) == Ok::<int, int>(
            p.span(e.0 as int).to - j,
        ),
        0 <= p.span(e.0 as int).from + j < p.span(e.0 as int).to - j <= text.tokens.len(),
    decreases e.0, p.span(e.0 as int).wraps - j, 2nat,
{
    let toks = text.tokens;
    let s = p.span(e.0 as int);
    let f = s.from + j;
    let t = s.to - j;
    assert(written(p, lits, text, e.0 as int));
    assert(Program::node_ok(p@, p@[e.0 as int], e.0 as int));
    lemma_expr_begins(p, lits, text, e, j);
    if tight_at(p, e, j) {
        lemma_expr1_read(p, lits, text, e, j);
        assert(after(toks, Part::MoreCalls, t) == Ok::<int, int>(t));
    } else {
        match p@[e.0 as int] {
            Node::EqualsExpr(l, r) => {
                let sign = p.span(l.0 as int).to;
                assert(written(p, lits, text, l.0 as int));
                assert(written(p, lits, text, r.0 as int));
                lemma_expr_begins(p, lits, text, l, 0);
                lemma_expr1_read(p, lits, text, l, 0);
                lemma_expr1_read(p, lits, text, r, 0);
                assert(after(toks, Part::MoreCalls, sign) == Ok::<int, int>(sign));
                assert(after(toks, Part::MoreCalls, t) == Ok::<int, int>(t));
                assert(after(toks, Part::Expr1, f) == Ok::<int, int>(sign));
                assert(after(toks, Part::Expr1, sign + 1) == Ok::<int, int>(t));
            },
            Node::FunctionExpr(func) => {
                lemma_function_read(p, lits, text, func);
            },
            _ => {},
        }
    }
}

/// After member `k` of a list of expressions, the members that follow are read up to
/// the closing parenthesis.
pub proof fn lemma_more_exprs(
    p: &Program,
    lits: &Literals,
    text: Text,
    l: ExprListNode,
    k: int,
    from: int,
    to: int,
)
    requires
        all_written(p, lits, text),
        p.has(l.0, Kind::ExprList),
        separated(text, expr_spans(p, l), from, to),
        at(text, to, TokenKind::RightParen),
        0 <= k < p.expr_list(l).len(),
    ensures
        after(text.tokens, Part::MoreExprs, expr_spans(p, l)[k].to) == Ok::<int, int>(to),
        expr_spans(p, l)[k].to <= to,
    decreases l.0, p.expr_list(l).len() - k, 0nat,
{
    let toks = text.tokens;
    let spans = expr_spans(p, l);
    let n = p.expr_list(l).len() as int;
    lemma_separated_at(text, spans, from, to, k);
    if k + 1 < n {
        p.lemma_expr_list_items(l, k + 1);
        let next = p.expr_list(l)[k + 1];
        assert(spans[k + 1] == p.span(next.0 as int));
        assert(written(p, lits, text, next.0 as int));
        lemma_separated_at(text, spans, from, to, k + 1);
        lemma_expr_read(p, lits, text, next, 0);
        lemma_more_exprs(p, lits, text, l, k + 1, from, to);
    }
}

/// The arguments of an application that are written as the rules say, up to a closing
/// parenthesis, are read up to it.
pub proof fn lemma_exprs_read(
    p: &Program,
    lits: &Literals,
    text: Text,
    l: ExprListNode,
    from: int,
    to: int,
)
    requires
        all_written(p, lits, text),
        p.has(l.0, Kind::ExprList),
        separated(text, expr_spans(p, l), from, to),
        at(text, to, TokenKind::RightParen),
    ensures
        after(text.tokens, Part::Exprs, from) == Ok::<int, int>(to),
        from <= to,
    decreases l.0, p.expr_list(l).len() + 1, 0nat,
{
    let toks = text.tokens;
    let spans = expr_spans(p, l);
    if p.expr_list(l).len() > 0 {
        p.lemma_expr_list_items(l, 0);
        let first = p.expr_list(l)[0];
        assert(spans[0] == p.span(first.0 as int));
        assert(written(p, lits, text, first.0 as int));
        lemma_separated_at(text, spans, from, to, 0);
        lemma_expr_begins(p, lits, text, first, 0);
        lemma_expr_read(p, lits, text, first, 0);
        lemma_more_exprs(p, lits, text, l, 0, from, to);
    }
}

/// A function that is written as the rules say is read from its first token to its
/// last.
pub proof fn lemma_function_read(p: &Program, lits: &Literals, text: Text, func: FunctionNode)
    requires
        all_written(p, lits, text),
        p.has(func.0, Kind::Function),
    ensures
        after(text.tokens, Part::Function, p.span(func.0 as int).from) == Ok::<int, int>(
            p.span(func.0 as int).to,
        ),
        0 <= p.span(func.0 as int).from < p.span(func.0 as int).to <= text.tokens.len(),
        at(text, p.span(func.0 as int).from, TokenKind::Function),
        p.span(func.0 as int).wraps == 0,
    decreases func.0, 0nat, 0nat,
{
    let toks = text.tokens;
    let s = p.span(func.0 as int);
    assert(written(p, lits, text, func.0 as int));
    assert(Program::node_ok(p@, p@[func.0 as int], func.0 as int));
    match p@[func.0 as int] {
        Node::Function(_, args, cod, body) => {
            let close = p.span(cod.0 as int).from - 1;
            lemma_args_read(p, lits, text, args, s.from + 3, close);
            lemma_annotation_read(p, lits, text, cod);
            lemma_block_read(p, lits, text, body);
        },
        _ => {},
    }
}

/// Whether token `k` is one that a statement can begin with.
pub open spec fn begins_stmt(toks: Seq<Token>, k: int) -> bool {
    begins_expr(toks, k) || (0 <= k < toks.len() && (toks[k].kind == TokenKind::Let
        || toks[k].kind == TokenKind::Return || toks[k].kind == TokenKind::If || toks[k].kind
        == TokenKind::While))
}

/// A statement begins with a token that a statement can begin with.
pub proof fn lemma_stmt_begins(p: &Program, lits: &Literals, text: Text, st: StmtNode)
    requires
        all_written(p, lits, text),
        p.has(st.0, Kind::Stmt),
    ensures
        begins_stmt(text.tokens, p.span(st.0 as int).from),
{
    assert(written(p, lits, text, st.0 as int));
    assert(Program::node_ok(p@, p@[st.0 as int], st.0 as int));
    match p@[st.0 as int] {
        Node::ExprStmt(e) => {
            assert(written(p, lits, text, e.0 as int));
            lemma_expr_begins(p, lits, text, e, 0);
        },
        Node::FunctionStmt(func) => {
            assert(written(p, lits, text, func.0 as int));
        },
        _ => {},
    }
}

/// A block that is written as the rules say is read from its opening brace to its
/// closing brace.
pub proof fn lemma_block_read(p: &Program, lits: &Literals, text: Text, l: StmtListNode)
    requires
        all_written(p, lits, text),
        p.has(l.0, Kind::StmtList),
        written_block(p, text, l),
    ensures
        after(text.tokens, Part::Block, p.span(l.0 as int).from) == Ok::<int, int>(
            p.span(l.0 as int).to,
        ),
        0 <= p.span(l.0 as int).from < p.span(l.0 as int).to <= text.tokens.len(),
    decreases l.0, p.stmt_list(l).len() + 1, 0nat,
{
    let toks = text.tokens;
    let s = p.span(l.0 as int);
    lemma_stmts_from(p, lits, text, l, 0, s.from + 1, s.to - 1, true);
    if p.stmt_list(l).len() > 0 {
        lemma_adjoining_at(stmt_spans(p, l), s.from + 1, s.to - 1, 0);
    }
}

/// Where the statements of a list are to be read up to a closing brace, or up to the
/// end of the tokens.
pub open spec fn rest(braces: bool) -> Part {
    if braces {
        Part::MoreStmts
    } else {
        Part::Stmts
    }
}

/// From statement `k` of a list on, the statements are read up to the closing brace and
/// that brace, or up to the end of the tokens.
pub proof fn lemma_stmts_from(
    p: &Program,
    lits: &Literals,
    text: Text,
    l: StmtListNode,
    k: int,
    from: int,
    to: int,
    braces: bool,
)
    requires
        all_written(p, lits, text),
        p.has(l.0, Kind::StmtList),
        adjoining(stmt_spans(p, l), from, to),
        0 <= from,
        if braces {
            at(text, to, TokenKind::RightBrace)
        } else {
            to == text.tokens.len()
        },
        0 <= k <= p.stmt_list(l).len(),
    ensures
        after(
            text.tokens,
            rest(braces),
            if k < p.stmt_list(l).len() {
                stmt_spans(p, l)[k].from
            } else {
                to
            },
        ) == Ok::<int, int>(
            if braces {
                to + 1
            } else {
                to
            },
        ),
        k < p.stmt_list(l).len() ==> 0 <= stmt_spans(p, l)[k].from < to,
    decreases l.0, p.stmt_list(l).len() - k, 0nat,
{
    let toks = text.tokens;
    let spans = stmt_spans(p, l);
    let n = p.stmt_list(l).len() as int;
    if k < n {
        p.lemma_stmt_list_items(l, k);
        let st = p.stmt_list(l)[k];
        assert(spans[k] == p.span(st.0 as int));
        lemma_adjoining_at(spans, from, to, k);
        lemma_stmt_begins(p, lits, text, st);
        if k + 1 < n {
            p.lemma_stmt_list_items(l, k + 1);
            let next = p.stmt_list(l)[k + 1];
            assert(spans[k + 1] == p.span(next.0 as int));
            lemma_stmt_begins(p, lits, text, next);
        }
        lemma_stmt_read(p, lits, text, st);
        lemma_stmts_from(p, lits, text, l, k + 1, from, to, braces);
    }
}

/// A statement that is written as the rules say, and after which no semicolon follows,
/// is read from its first token to its last.
pub proof fn lemma_stmt_read(p: &Program, lits: &Literals, text: Text, st: StmtNode)
    requires
        all_written(p, lits, text),
        p.has(st.0, Kind::Stmt),
        !at(text, p.span(st.0 as int).to, TokenKind::Semicolon),
    ensures
        after(text.tokens, Part::Stmt, p.span(st.0 as int).from) == Ok::<int, int>(
            p.span(st.0 as int).to,
        ),
        0 <= p.span(st.0 as int).from < p.span(st.0 as int).to <= text.tokens.len(),
    decreases st.0, 0nat, 0nat,
{
    let toks = text.tokens;
    let s = p.span(st.0 as int);
    let f = s.from;
    let t = s.to;
    assert(written(p, lits, text, st.0 as int));
    assert(Program::node_ok(p@, p@[st.0 as int], st.0 as int));
    match p@[st.0 as int] {
        Node::ExprStmt(e) => {
            assert(written(p, lits, text, e.0 as int));
            lemma_expr_begins(p, lits, text, e, 0);
            if toks[f].kind == TokenKind::Function {
                match p@[e.0 as int] {
                    Node::FunctionExpr(func) => {
                        assert(Program::node_ok(p@, p@[e.0 as int], e.0 as int));
                        lemma_function_read(p, lits, text, func);
                        assert(after(toks, Part::FunctionStmt, f) == Ok::<int, int>(t));
                    },
                    _ => {},
                }
            } else {
                lemma_expr_read(p, lits, text, e, 0);
            }
        },
        Node::LetStmt(_, o, e) => {
            assert(written(p, lits, text, e.0 as int));
            lemma_annotation_read(p, lits, text, o);
            lemma_expr_read(p, lits, text, e, 0);
            assert(after(toks, Part::Let, f) == Ok::<int, int>(t));
        },
        Node::ReturnStmt(e) => {
            assert(written(p, lits, text, e.0 as int));
            lemma_expr_begins(p, lits, text, e, 0);
            lemma_expr_read(p, lits, text, e, 0);
            assert(after(toks, Part::Return, f) == Ok::<int, int>(t));
        },
        Node::ReturnVoidStmt => {
            assert(after(toks, Part::Return, f) == Ok::<int, int>(t));
        },
        Node::FunctionStmt(func) => {
            lemma_function_read(p, lits, text, func);
            assert(after(toks, Part::FunctionStmt, f) == Ok::<int, int>(t));
        },
        Node::IfStmt(c, a, b) => {
            assert(written(p, lits, text, c.0 as int));
            lemma_expr_read(p, lits, text, c, 0);
            lemma_block_read(p, lits, text, a);
            lemma_block_read(p, lits, text, b);
            assert(after(toks, Part::Guarded, f + 1) == Ok::<int, int>(p.span(a.0 as int).to));
            assert(after(toks, Part::If, f) == Ok::<int, int>(t));
        },
        Node::WhileStmt(c, b) => {
            assert(written(p, lits, text, c.0 as int));
            lemma_expr_read(p, lits, text, c, 0);
            lemma_block_read(p, lits, text, b);
            assert(after(toks, Part::Guarded, f + 1) == Ok::<int, int>(t));
            assert(after(toks, Part::While, f) == Ok::<int, int>(t));
        },
        _ => {},
    }
}

/// The tokens of a text that has a syntax tree, of which every node is written in the
/// text as the rules say, are a module: reading them fails at no token.
pub proof fn lemma_written_accepted(p: &Program, lits: &Literals, text: Text, m: ModuleNode)
    requires
        all_written(p, lits, text),
        p.has(m.0, Kind::Module),
    ensures
        crate::accept::stops_at(text.tokens) is None,
{
    assert(written(p, lits, text, m.0 as int));
    assert(Program::node_ok(p@, p@[m.0 as int], m.0 as int));
    match p@[m.0 as int] {
        Node::Module(body) => {
            lemma_stmts_from(p, lits, text, body, 0, 0, text.tokens.len() as int, false);
            if p.stmt_list(body).len() > 0 {
                lemma_adjoining_at(stmt_spans(p, body), 0, text.tokens.len() as int, 0);
            }
        },
        _ => {},
    }
}

} // verus!
