//! The grammar: which tokens each kind of node is written with.
//!
//! Every node of a syntax tree that was read from a text has a span of tokens. A node
//! is written as the grammar says where its span holds the tokens of its kind, with
//! the spans of its parts at their places.

use vstd::prelude::*;
use crate::grammar_util::Literals;
use crate::lexer::{Token, TokenKind};
use crate::program::{
    ArgListNode, ExprListNode, Kind, Name, Node, Program, Span, StmtListNode, TypeListNode,
};

verus! {

/// A text and its tokens.
pub ghost struct Text {
    pub bytes: Seq<u8>,
    pub tokens: Seq<Token>,
}

/// Whether token `i` of the text is of the kind `kind`.
pub open spec fn at(text: Text, i: int, kind: TokenKind) -> bool {
    0 <= i < text.tokens.len() && text.tokens[i].kind == kind
}

/// The bytes that token `i` is written with.
pub open spec fn word(text: Text, i: int) -> Seq<u8> {
    text.bytes.subrange(text.tokens[i].start as int, text.tokens[i].end as int)
}

/// Whether token `i` is the name `n`.
pub open spec fn names(lits: &Literals, text: Text, i: int, n: Name) -> bool {
    at(text, i, TokenKind::Ident) && n.0 < lits.names@.len() && lits.names@[n.0 as int]@ == word(
        text,
        i,
    )
}

/// Whether the first and the last `wraps` tokens of the span are parentheses, with at
/// least one token between them.
pub open spec fn wrapped(text: Text, s: Span) -> bool {
    &&& 0 <= s.wraps
    &&& s.first() < s.last()
    &&& forall|j: int|
        0 <= j < s.wraps ==> at(text, #[trigger] (s.from + j), TokenKind::LeftParen) && at(
            text,
            s.to - 1 - j,
            TokenKind::RightParen,
        )
}

/// Whether the spans follow each other from `from` to `to`.
pub open spec fn adjoining(spans: Seq<Span>, from: int, to: int) -> bool {
    if spans.len() == 0 {
        from == to
    } else {
        &&& spans[0].from == from
        &&& spans.last().to == to
        &&& forall|j: int| 0 < j < spans.len() ==> (#[trigger] spans[j]).from == spans[j - 1].to
    }
}

/// Whether the spans follow each other from `from` to `to`, with a comma between each
/// two neighbours.
pub open spec fn separated(text: Text, spans: Seq<Span>, from: int, to: int) -> bool {
    if spans.len() == 0 {
        from == to
    } else {
        &&& spans[0].from == from
        &&& spans.last().to == to
        &&& forall|j: int|
            0 < j < spans.len() ==> at(text, spans[j - 1].to, TokenKind::Comma) && (
            #[trigger] spans[j]).from == spans[j - 1].to + 1
    }
}

/// The spans of the types of a list.
pub open spec fn type_spans(p: &Program, l: TypeListNode) -> Seq<Span> {
    Seq::new(p.type_list(l).len(), |j: int| p.span(p.type_list(l)[j].0 as int))
}

/// The spans of the expressions of a list.
pub open spec fn expr_spans(p: &Program, l: ExprListNode) -> Seq<Span> {
    Seq::new(p.expr_list(l).len(), |j: int| p.span(p.expr_list(l)[j].0 as int))
}

/// The spans of the statements of a list.
pub open spec fn stmt_spans(p: &Program, l: StmtListNode) -> Seq<Span> {
    Seq::new(p.stmt_list(l).len(), |j: int| p.span(p.stmt_list(l)[j].0 as int))
}

/// The span of an argument whose annotation has the span `o`: its name, which is the
/// token before the annotation, and the annotation.
pub open spec fn arg_span(o: Span) -> Span {
    Span { from: o.from - 1, to: o.to, wraps: 0 }
}

/// The spans of the arguments of a list.
pub open spec fn arg_spans(p: &Program, l: ArgListNode) -> Seq<Span> {
    Seq::new(p.arg_list(l).len(), |j: int| arg_span(p.span(p.arg_list(l)[j].1.0 as int)))
}

/// Whether the arguments of the list are written from `from` to `to`: names, each with
/// its annotation, with commas between them.
pub open spec fn written_args(
    p: &Program,
    lits: &Literals,
    text: Text,
    l: ArgListNode,
    from: int,
    to: int,
) -> bool {
    &&& separated(text, arg_spans(p, l), from, to)
    &&& forall|j: int|
        0 <= j < p.arg_list(l).len() ==> names(
            lits,
            text,
            (#[trigger] arg_spans(p, l)[j]).from,
            p.arg_list(l)[j].0,
        )
}

/// Whether the statements of the list are written as a block: in braces.
pub open spec fn written_block(p: &Program, text: Text, l: StmtListNode) -> bool {
    let s = p.span(l.0 as int);
    &&& at(text, s.from, TokenKind::LeftBrace)
    &&& at(text, s.to - 1, TokenKind::RightBrace)
    &&& adjoining(stmt_spans(p, l), s.from + 1, s.to - 1)
}

/// Whether the annotation `o` is written as the grammar says: not at all, or with a
/// colon and a type.
pub open spec fn written_opt(p: &Program, text: Text, o: int) -> bool {
    let s = p.span(o);
    s.wraps == 0 && (match p@[o] {
        Node::SomeOptType(t) => at(text, s.from, TokenKind::Colon) && p.span(t.0 as int).from
            == s.from + 1 && p.span(t.0 as int).to == s.to,
        _ => s.to == s.from,
    })
}

/// Whether the type `a` is written as the grammar says.
pub open spec fn written_type(p: &Program, lits: &Literals, text: Text, a: int) -> bool {
    let s = p.span(a);
    let f = s.first();
    let t = s.last();
    wrapped(text, s) && (match p@[a] {
        Node::VoidType => t == f + 1 && at(text, f, TokenKind::Void),
        Node::BooleanType => t == f + 1 && at(text, f, TokenKind::Boolean),
        Node::NumberType => t == f + 1 && at(text, f, TokenKind::NumberType),
        Node::StringType => t == f + 1 && at(text, f, TokenKind::StringType),
        Node::ProductType(l) => p.type_list(l).len() >= 2 && at(text, f, TokenKind::LeftParen)
            && at(text, t - 1, TokenKind::RightParen) && separated(
            text,
            type_spans(p, l),
            f + 1,
            t - 1,
        ),
        Node::FunctionType(args, cod) => {
            let m = p.span(cod.0 as int).from - 2;
            &&& at(text, f, TokenKind::LeftParen)
            &&& written_args(p, lits, text, args, f + 1, m)
            &&& at(text, m, TokenKind::RightParen)
            &&& at(text, m + 1, TokenKind::Arrow)
            &&& p.span(cod.0 as int).to == t
        },
        _ => true,
    })
}

/// Whether the expression `x` can stand where an equation or a function cannot: it is
/// neither, or it is in parentheses.
pub open spec fn tight(p: &Program, x: int) -> bool {
    p.span(x).wraps > 0 || !(p@[x] is EqualsExpr || p@[x] is FunctionExpr)
}

/// Whether the expression `e` is written as the grammar says.
pub open spec fn written_expr(p: &Program, lits: &Literals, text: Text, e: int) -> bool {
    let s = p.span(e);
    let f = s.first();
    let t = s.last();
    wrapped(text, s) && (match p@[e] {
        Node::VariableExpr(n) => t == f + 1 && names(lits, text, f, n),
        Node::VoidExpr => t == f + 2 && at(text, f, TokenKind::LeftParen) && at(
            text,
            f + 1,
            TokenKind::RightParen,
        ),
        Node::TrueExpr => t == f + 1 && at(text, f, TokenKind::True),
        Node::FalseExpr => t == f + 1 && at(text, f, TokenKind::False),
        Node::StringLiteralExpr(x) => t == f + 1 && at(text, f, TokenKind::Str) && x.0
            < lits.strings@.len() && lits.strings@[x.0 as int]@ == word(text, f),
        Node::NumberLiteralExpr(x) => t == f + 1 && at(text, f, TokenKind::Number) && x.0
            < lits.numbers@.len() && lits.numbers@[x.0 as int]@ == word(text, f),
        Node::TupleExpr(l) => p.expr_list(l).len() >= 2 && at(text, f, TokenKind::LeftParen)
            && at(text, t - 1, TokenKind::RightParen) && separated(
            text,
            expr_spans(p, l),
            f + 1,
            t - 1,
        ),
        Node::AppExpr(c, args) => {
            let open = p.span(c.0 as int).to;
            &&& p.span(c.0 as int).from == f
            &&& tight(p, c.0 as int)
            &&& at(text, open, TokenKind::LeftParen)
            &&& separated(text, expr_spans(p, args), open + 1, t - 1)
            &&& at(text, t - 1, TokenKind::RightParen)
        },
        Node::EqualsExpr(l, r) => {
            let sign = p.span(l.0 as int).to;
            &&& p.span(l.0 as int).from == f
            &&& tight(p, l.0 as int)
            &&& at(text, sign, TokenKind::Equals)
            &&& p.span(r.0 as int).from == sign + 1
            &&& tight(p, r.0 as int)
            &&& p.span(r.0 as int).to == t
        },
        Node::FunctionExpr(func) => p.span(func.0 as int).from == f && p.span(func.0 as int).to
            == t,
        _ => true,
    })
}

/// Whether the function `func` is written as the grammar says: `function`, its name,
/// its arguments in parentheses, the annotation of its result, and its body.
pub open spec fn written_function(p: &Program, lits: &Literals, text: Text, func: int) -> bool {
    let s = p.span(func);
    s.wraps == 0 && (match p@[func] {
        Node::Function(name, args, cod, body) => {
            let close = p.span(cod.0 as int).from - 1;
            &&& at(text, s.from, TokenKind::Function)
            &&& name matches Some(n) && names(lits, text, s.from + 1, n)
            &&& at(text, s.from + 2, TokenKind::LeftParen)
            &&& written_args(p, lits, text, args, s.from + 3, close)
            &&& at(text, close, TokenKind::RightParen)
            &&& p.span(body.0 as int).from == p.span(cod.0 as int).to
            &&& written_block(p, text, body)
            &&& p.span(body.0 as int).to == s.to
        },
        _ => true,
    })
}

/// Whether the statement `st` is written as the grammar says.
pub open spec fn written_stmt(p: &Program, lits: &Literals, text: Text, st: int) -> bool {
    let s = p.span(st);
    let f = s.from;
    let t = s.to;
    s.wraps == 0 && (match p@[st] {
        Node::ExprStmt(e) => p.span(e.0 as int).from == f && p.span(e.0 as int).to == t - 1
            && at(text, t - 1, TokenKind::Semicolon),
        Node::LetStmt(n, o, e) => {
            let sign = p.span(o.0 as int).to;
            &&& at(text, f, TokenKind::Let)
            &&& names(lits, text, f + 1, n)
            &&& p.span(o.0 as int).from == f + 2
            &&& at(text, sign, TokenKind::Assign)
            &&& p.span(e.0 as int).from == sign + 1
            &&& p.span(e.0 as int).to == t - 1
            &&& at(text, t - 1, TokenKind::Semicolon)
        },
        Node::ReturnStmt(e) => at(text, f, TokenKind::Return) && p.span(e.0 as int).from == f + 1
            && p.span(e.0 as int).to == t - 1 && at(text, t - 1, TokenKind::Semicolon),
        Node::ReturnVoidStmt => t == f + 2 && at(text, f, TokenKind::Return) && at(
            text,
            f + 1,
            TokenKind::Semicolon,
        ),
        Node::FunctionDeclStmt(_, _, _) => false,
        Node::FunctionStmt(func) => p.span(func.0 as int).from == f && p.span(func.0 as int).to
            == t,
        Node::IfStmt(c, a, b) => {
            let close = p.span(c.0 as int).to;
            let other = p.span(a.0 as int).to;
            &&& at(text, f, TokenKind::If)
            &&& at(text, f + 1, TokenKind::LeftParen)
            &&& p.span(c.0 as int).from == f + 2
            &&& at(text, close, TokenKind::RightParen)
            &&& p.span(a.0 as int).from == close + 1
            &&& written_block(p, text, a)
            &&& at(text, other, TokenKind::Else)
            &&& p.span(b.0 as int).from == other + 1
            &&& written_block(p, text, b)
            &&& p.span(b.0 as int).to == t
        },
        Node::WhileStmt(c, b) => {
            let close = p.span(c.0 as int).to;
            &&& at(text, f, TokenKind::While)
            &&& at(text, f + 1, TokenKind::LeftParen)
            &&& p.span(c.0 as int).from == f + 2
            &&& at(text, close, TokenKind::RightParen)
            &&& p.span(b.0 as int).from == close + 1
            &&& written_block(p, text, b)
            &&& p.span(b.0 as int).to == t
        },
        _ => true,
    })
}

/// Whether the module `m` is written as the grammar says: its statements, from the
/// first token of the text to the last.
pub open spec fn written_module(p: &Program, text: Text, m: int) -> bool {
    match p@[m] {
        Node::Module(body) => adjoining(stmt_spans(p, body), 0, text.tokens.len() as int),
        _ => true,
    }
}

/// Whether node `n` is written as the grammar says.
pub open spec fn written(p: &Program, lits: &Literals, text: Text, n: int) -> bool {
    match p@[n].kind() {
        Kind::Type => written_type(p, lits, text, n),
        Kind::OptType => written_opt(p, text, n),
        Kind::Expr => written_expr(p, lits, text, n),
        Kind::Function => written_function(p, lits, text, n),
        Kind::Stmt => written_stmt(p, lits, text, n),
        Kind::Module => written_module(p, text, n),
        _ => true,
    }
}

/// Whether the nodes from `base` on are written as the grammar says.
pub open spec fn written_since(p: &Program, lits: &Literals, text: Text, base: int) -> bool {
    forall|n: int| base <= n < p@.len() ==> #[trigger] written(p, lits, text, n)
}

/// Whether `other` holds the names and literals of `lits`, at their indices.
pub open spec fn lits_kept(lits: &Literals, other: &Literals) -> bool {
    lits.kept_by(other)
}

/// A name of a token stays its name.
pub proof fn lemma_names_kept(lits: &Literals, other: &Literals, text: Text, i: int, n: Name)
    requires
        lits_kept(lits, other),
        names(lits, text, i, n),
    ensures
        names(other, text, i, n),
{
    assert(other.names@[n.0 as int] == lits.names@[n.0 as int]);
}

/// The arguments of a list stay written as they are.
pub proof fn lemma_written_args_kept(
    p: &Program,
    q: &Program,
    lits: &Literals,
    other: &Literals,
    text: Text,
    k: int,
    l: ArgListNode,
    from: int,
    to: int,
)
    requires
        p.wf(),
        p.agree_below(q, k),
        l.0 < k,
        lits_kept(lits, other),
        p.has(l.0, Kind::ArgList),
        written_args(p, lits, text, l, from, to),
    ensures
        written_args(q, other, text, l, from, to),
        q.arg_list(l) == p.arg_list(l),
{
    p.lemma_arg_list_agree(q, k, l);
    assert forall|j: int| 0 <= j < p.arg_list(l).len() implies q.span(
        p.arg_list(l)[j].1.0 as int,
    ) == p.span(p.arg_list(l)[j].1.0 as int) by {
        p.lemma_arg_list_items(l, j);
    }
    assert(arg_spans(q, l) =~= arg_spans(p, l));
    assert forall|j: int| 0 <= j < q.arg_list(l).len() implies names(
        other,
        text,
        (#[trigger] arg_spans(q, l)[j]).from,
        q.arg_list(l)[j].0,
    ) by {
        lemma_names_kept(lits, other, text, arg_spans(p, l)[j].from, p.arg_list(l)[j].0);
    }
}

/// A block stays written as it is.
pub proof fn lemma_written_block_kept(p: &Program, q: &Program, text: Text, k: int, l: StmtListNode)
    requires
        p.wf(),
        p.agree_below(q, k),
        l.0 < k,
        p.has(l.0, Kind::StmtList),
        written_block(p, text, l),
    ensures
        written_block(q, text, l),
{
    p.lemma_stmt_list_agree(q, k, l);
    assert forall|j: int| 0 <= j < p.stmt_list(l).len() implies q.span(p.stmt_list(l)[j].0 as int)
        == p.span(p.stmt_list(l)[j].0 as int) by {
        p.lemma_stmt_list_items(l, j);
    }
    assert(stmt_spans(q, l) =~= stmt_spans(p, l));
}

/// A node stays written as it is in a program that holds the same nodes and spans up
/// to it, and the same names and literals.
pub proof fn lemma_written_kept(
    p: &Program,
    q: &Program,
    lits: &Literals,
    other: &Literals,
    text: Text,
    k: int,
    n: int,
)
    requires
        p.wf(),
        p.agree_below(q, k),
        lits_kept(lits, other),
        0 <= n < k,
        written(p, lits, text, n),
    ensures
        written(q, other, text, n),
{
    assert(Program::node_ok(p@, p@[n], n));
    assert(q@[n] == p@[n]);
    assert(q.span(n) == p.span(n));
    match p@[n] {
        Node::ProductType(l) => {
            p.lemma_type_list_agree(q, k, l);
            assert forall|j: int| 0 <= j < p.type_list(l).len() implies q.span(
                p.type_list(l)[j].0 as int,
            ) == p.span(p.type_list(l)[j].0 as int) by {
                p.lemma_type_list_items(l, j);
            }
            assert(type_spans(q, l) =~= type_spans(p, l));
        },
        Node::FunctionType(args, cod) => {
            let s = p.span(n);
            lemma_written_args_kept(
                p,
                q,
                lits,
                other,
                text,
                k,
                args,
                s.first() + 1,
                p.span(cod.0 as int).from - 2,
            );
        },
        Node::VariableExpr(name) => {
            lemma_names_kept(lits, other, text, p.span(n).first(), name);
        },
        Node::StringLiteralExpr(x) => {
            assert(other.strings@[x.0 as int] == lits.strings@[x.0 as int]);
        },
        Node::NumberLiteralExpr(x) => {
            assert(other.numbers@[x.0 as int] == lits.numbers@[x.0 as int]);
        },
        Node::TupleExpr(l) => {
            p.lemma_expr_list_agree(q, k, l);
            assert forall|j: int| 0 <= j < p.expr_list(l).len() implies q.span(
                p.expr_list(l)[j].0 as int,
            ) == p.span(p.expr_list(l)[j].0 as int) by {
                p.lemma_expr_list_items(l, j);
            }
            assert(expr_spans(q, l) =~= expr_spans(p, l));
        },
        Node::AppExpr(c, l) => {
            p.lemma_expr_list_agree(q, k, l);
            assert forall|j: int| 0 <= j < p.expr_list(l).len() implies q.span(
                p.expr_list(l)[j].0 as int,
            ) == p.span(p.expr_list(l)[j].0 as int) by {
                p.lemma_expr_list_items(l, j);
            }
            assert(expr_spans(q, l) =~= expr_spans(p, l));
            assert(q@[c.0 as int] == p@[c.0 as int]);
        },
        Node::EqualsExpr(l, r) => {
            assert(q@[l.0 as int] == p@[l.0 as int]);
            assert(q@[r.0 as int] == p@[r.0 as int]);
        },
        Node::Function(name, args, cod, body) => {
            let s = p.span(n);
            lemma_written_args_kept(
                p,
                q,
                lits,
                other,
                text,
                k,
                args,
                s.from + 3,
                p.span(cod.0 as int).from - 1,
            );
            lemma_written_block_kept(p, q, text, k, body);
            lemma_names_kept(lits, other, text, s.from + 1, name.unwrap());
        },
        Node::LetStmt(name, _, _) => {
            lemma_names_kept(lits, other, text, p.span(n).from + 1, name);
        },
        Node::IfStmt(_, a, b) => {
            lemma_written_block_kept(p, q, text, k, a);
            lemma_written_block_kept(p, q, text, k, b);
        },
        Node::WhileStmt(_, b) => {
            lemma_written_block_kept(p, q, text, k, b);
        },
        Node::Module(body) => {
            p.lemma_stmt_list_agree(q, k, body);
            assert forall|j: int| 0 <= j < p.stmt_list(body).len() implies q.span(
                p.stmt_list(body)[j].0 as int,
            ) == p.span(p.stmt_list(body)[j].0 as int) by {
                p.lemma_stmt_list_items(body, j);
            }
            assert(stmt_spans(q, body) =~= stmt_spans(p, body));
        },
        _ => {},
    }
}

/// The nodes stay written as they are when nodes are added that are written as the
/// grammar says.
pub proof fn lemma_written_grown(
    p: &Program,
    q: &Program,
    lits: &Literals,
    other: &Literals,
    text: Text,
    base: int,
)
    requires
        p.wf(),
        p.grown_to(q),
        lits_kept(lits, other),
        0 <= base,
        written_since(p, lits, text, base),
        forall|n: int| p@.len() <= n < q@.len() ==> #[trigger] written(q, other, text, n),
    ensures
        written_since(q, other, text, base),
{
    assert forall|n: int| base <= n < q@.len() implies #[trigger] written(q, other, text, n) by {
        if n < p@.len() {
            lemma_written_kept(p, q, lits, other, text, p@.len() as int, n);
        }
    }
}

} // verus!
