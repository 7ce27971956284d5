//! The parser: from the tokens of a source text to its syntax tree.
//!
//! A module is a sequence of statements. A failure points at the first token that
//! cannot stand where it stands, at the index at which no token begins, or, where the
//! text ends too early, at the end of its last token.
//!
//! Each part of the grammar is read as far as [`crate::accept::after`] says, and fails
//! where it says; what is read is written in the text as the rules of
//! [`crate::syntax`] say.

use vstd::prelude::*;
use vstd::slice::slice_subrange;
use vstd::string::*;
use crate::accept::{after, expect, stops_at, End, Part};
use crate::error::ParseFailure;
use crate::grammar_util::{
    arg_list_node, expr_list_node, opt_type_node, stmt_list_node, type_list_node, Literals,
};
use crate::lexer::{lex, tokenize, Token, TokenKind};
use crate::program::{
    ArgListNode, ExprNode, FunctionNode, Kind, ModuleNode, Name, Node,
    NumberLiteral, OptTypeNode, Program, Span, StmtListNode, StmtNode, StringLiteral, TypeNode,
};
use crate::syntax::{
    adjoining, arg_span, arg_spans, at, expr_spans, lemma_written_grown, lemma_written_kept, names,
    separated, stmt_spans, tight, type_spans, word, wrapped, written, written_args,
    written_block, written_since, Text,
};

verus! {

/// A text with its tokens.
pub struct Source<'a> {
    /// The bytes of the text.
    pub bytes: &'a [u8],
    /// The tokens up to the end of the text or to the first index at which no token
    /// begins.
    pub tokens: Vec<Token>,
    /// The first index at which no token begins, if there is one.
    pub invalid: Option<usize>,
}

impl<'a> Source<'a> {
    /// The tokens lie in the text, before the index at which no token begins.
    pub open spec fn wf(&self) -> bool {
        &&& self.tokens@.len() <= usize::MAX
        &&& forall|i: int|
            0 <= i < self.tokens@.len() ==> (#[trigger] self.tokens@[i]).start
                < self.tokens@[i].end <= self.bytes@.len()
        &&& self.invalid matches Some(at) ==> at < self.bytes@.len()
    }

    /// Whether the tokens are those of the text.
    pub open spec fn lexed(&self) -> bool {
        &&& self.tokens@ == lex(self.bytes@, 0).0
        &&& match self.invalid {
            Some(at) => lex(self.bytes@, 0).1 == Some(at as int),
            None => lex(self.bytes@, 0).1 is None,
        }
    }

    /// Whether `f` is the failure of the text at a token from `pos` on, or at its end.
    pub open spec fn fails_from(&self, f: ParseFailure, pos: int) -> bool {
        f.location() <= self.bytes@.len() && exists|k: int|
            pos <= k <= self.tokens@.len() && #[trigger] self.failure_at(k) == f
    }

    /// Whether the result `r` of reading a part of the grammar is what `end` says: the
    /// place after the part, or the failure at the token at which reading it fails.
    pub open spec fn gives<T>(&self, r: Result<(T, usize), ParseFailure>, end: End) -> bool {
        match r {
            Ok(v) => end == Ok::<int, int>(v.1 as int),
            Err(f) => end matches Err(k) && f == self.failure_at(k),
        }
    }

    /// The text and its tokens.
    pub open spec fn view(&self) -> Text {
        Text { bytes: self.bytes@, tokens: self.tokens@ }
    }

    /// The tokens of a text.
    pub fn new(bytes: &'a [u8]) -> (src: Source<'a>)
        ensures
            src.wf(),
            src.bytes == bytes,
            src.lexed(),
    {
        let (tokens, invalid) = tokenize(bytes);
        let count = tokens.len();
        Source { bytes, tokens, invalid }
    }

    /// The kind of token `k`, if there is such a token.
    pub fn kind_at(&self, k: usize) -> (kind: Option<TokenKind>)
        ensures
            kind == (if k < self.tokens@.len() {
                Some(self.tokens@[k as int].kind)
            } else {
                None
            }),
    {
        if k < self.tokens.len() {
            Some(self.tokens[k].kind)
        } else {
            None
        }
    }

    /// Whether token `k` is of the kind `kind`.
    pub fn is_at(&self, k: usize, kind: TokenKind) -> (yes: bool)
        ensures
            yes == (k < self.tokens@.len() && self.tokens@[k as int].kind == kind),
    {
        k < self.tokens.len() && self.tokens[k].kind == kind
    }

    /// Where the text fails if token `k` cannot stand where it stands or, for `k` past
    /// the last token, if the text cannot end there.
    pub open spec fn failure_at(&self, k: int) -> ParseFailure {
        if 0 <= k < self.tokens@.len() {
            ParseFailure::UnrecognizedToken { location: self.tokens@[k].start }
        } else {
            match self.invalid {
                Some(at) => ParseFailure::InvalidToken { location: at },
                None => ParseFailure::UnrecognizedEof {
                    location: if self.tokens@.len() > 0 {
                        self.tokens@.last().end
                    } else {
                        0
                    },
                },
            }
        }
    }

    /// Computes [`Self::failure_at`].
    pub fn fail(&self, k: usize) -> (f: ParseFailure)
        requires
            self.wf(),
            k <= self.tokens@.len(),
        ensures
            f == self.failure_at(k as int),
            f.location() <= self.bytes@.len(),
            self.fails_from(f, k as int),
    {
        if k < self.tokens.len() {
            ParseFailure::UnrecognizedToken { location: self.tokens[k].start }
        } else {
            match self.invalid {
                Some(at) => ParseFailure::InvalidToken { location: at },
                None => {
                    let n = self.tokens.len();
                    ParseFailure::UnrecognizedEof {
                        location: if n > 0 {
                            self.tokens[n - 1].end
                        } else {
                            0
                        },
                    }
                },
            }
        }
    }

    /// The index after token `k`, which has to be of the kind `kind`.
    pub fn expect(&self, k: usize, kind: TokenKind) -> (next: Result<usize, ParseFailure>)
        requires
            self.wf(),
            k <= self.tokens@.len(),
        ensures
            match next {
                Ok(q) => q == k + 1 && k < self.tokens@.len() && self.tokens@[k as int].kind
                    == kind,
                Err(f) => f == self.failure_at(k as int) && f.location() <= self.bytes@.len()
                    && !(k < self.tokens@.len() && self.tokens@[k as int].kind == kind)
                    && self.fails_from(f, k as int),
            },
    {
        if self.is_at(k, kind) {
            Ok(k + 1)
        } else {
            Err(self.fail(k))
        }
    }

    /// The bytes that token `k` is written with.
    pub fn text(&self, k: usize) -> (t: &[u8])
        requires
            self.wf(),
            k < self.tokens@.len(),
        ensures
            t@ == self.bytes@.subrange(
                self.tokens@[k as int].start as int,
                self.tokens@[k as int].end as int,
            ),
    {
        let token = self.tokens[k];
        slice_subrange(self.bytes, token.start, token.end)
    }
}

/// What the parser keeps: the tree and the tables of literals are well formed, and the
/// nodes from `base` on are written in the text as the grammar says.
pub open spec fn reading(p: &Program, lits: &Literals, src: &Source, base: int) -> bool {
    p.wf() && lits.wf() && 0 <= base <= p@.len() && written_since(p, lits, src@, base)
}

/// What a step of the parser does to the tree and the tables: it adds to them.
pub open spec fn read_on(before: &Program, after: &Program, lits: &Literals, other: &Literals) -> bool {
    before.grown_to(after) && lits.kept_by(other)
}

/// What a step of the parser returns: the node of the class `kind` that it has added
/// last, which is written with the tokens from `pos` up to `next`, which is further on.
pub open spec fn read(
    src: &Source,
    pos: usize,
    before: &Program,
    p: &Program,
    kind: Kind,
    node: usize,
    next: usize,
) -> bool {
    &&& pos < next <= src.tokens@.len()
    &&& p.has(node, kind)
    &&& before@.len() <= node
    &&& node + 1 == p@.len()
    &&& p.span(node as int).from == pos
    &&& p.span(node as int).to == next
}

/// The spans of types.
pub open spec fn spans_of_types(p: &Program, items: Seq<TypeNode>) -> Seq<Span> {
    Seq::new(items.len(), |j: int| p.span(items[j].0 as int))
}

/// The spans of expressions.
pub open spec fn spans_of_exprs(p: &Program, items: Seq<ExprNode>) -> Seq<Span> {
    Seq::new(items.len(), |j: int| p.span(items[j].0 as int))
}

/// The spans of statements.
pub open spec fn spans_of_stmts(p: &Program, items: Seq<StmtNode>) -> Seq<Span> {
    Seq::new(items.len(), |j: int| p.span(items[j].0 as int))
}

/// The spans of arguments.
pub open spec fn spans_of_args(p: &Program, items: Seq<(Name, OptTypeNode)>) -> Seq<Span> {
    Seq::new(items.len(), |j: int| arg_span(p.span(items[j].1.0 as int)))
}

/// The name that token `k` is written with.
fn read_name(src: &Source, k: usize, p: &Program, lits: &mut Literals, Ghost(base): Ghost<int>) -> (n:
    Name)
    requires
        src.wf(),
        reading(p, old(lits), src, base),
        k < src.tokens@.len(),
        src.tokens@[k as int].kind == TokenKind::Ident,
    ensures
        reading(p, final(lits), src, base),
        old(lits).kept_by(final(lits)),
        names(final(lits), src@, k as int, n),
{
    let n = lits.name(src.text(k));
    proof {
        lemma_written_grown(p, p, old(lits), lits, src@, base);
    }
    n
}

/// The string literal that token `k` is written with.
fn read_string(src: &Source, k: usize, p: &Program, lits: &mut Literals, Ghost(base): Ghost<int>) -> (n:
    StringLiteral)
    requires
        src.wf(),
        reading(p, old(lits), src, base),
        k < src.tokens@.len(),
    ensures
        reading(p, final(lits), src, base),
        old(lits).kept_by(final(lits)),
        n.0 < final(lits).strings@.len(),
        final(lits).strings@[n.0 as int]@ == word(src@, k as int),
{
    let n = lits.string(src.text(k));
    proof {
        lemma_written_grown(p, p, old(lits), lits, src@, base);
    }
    n
}

/// The number literal that token `k` is written with.
fn read_number(src: &Source, k: usize, p: &Program, lits: &mut Literals, Ghost(base): Ghost<int>) -> (n:
    NumberLiteral)
    requires
        src.wf(),
        reading(p, old(lits), src, base),
        k < src.tokens@.len(),
    ensures
        reading(p, final(lits), src, base),
        old(lits).kept_by(final(lits)),
        n.0 < final(lits).numbers@.len(),
        final(lits).numbers@[n.0 as int]@ == word(src@, k as int),
{
    let n = lits.number(src.text(k));
    proof {
        lemma_written_grown(p, p, old(lits), lits, src@, base);
    }
    n
}

/// Adds a node without parts that is written with the `width` tokens from `pos` on.
fn put_word(
    src: &Source,
    pos: usize,
    width: usize,
    p: &mut Program,
    lits: &Literals,
    node: Node,
    Ghost(base): Ghost<int>,
) -> (i: usize)
    requires
        src.wf(),
        reading(old(p), lits, src, base),
        pos + width <= src.tokens@.len(),
        width == 1 || width == 2,
        match node {
            Node::VoidType => width == 1 && at(src@, pos as int, TokenKind::Void),
            Node::BooleanType => width == 1 && at(src@, pos as int, TokenKind::Boolean),
            Node::NumberType => width == 1 && at(src@, pos as int, TokenKind::NumberType),
            Node::StringType => width == 1 && at(src@, pos as int, TokenKind::StringType),
            Node::VariableExpr(n) => width == 1 && names(lits, src@, pos as int, n),
            Node::VoidExpr => width == 2 && at(src@, pos as int, TokenKind::LeftParen) && at(
                src@,
                pos + 1,
                TokenKind::RightParen,
            ),
            Node::TrueExpr => width == 1 && at(src@, pos as int, TokenKind::True),
            Node::FalseExpr => width == 1 && at(src@, pos as int, TokenKind::False),
            Node::StringLiteralExpr(x) => width == 1 && at(src@, pos as int, TokenKind::Str) && x.0
                < lits.strings@.len() && lits.strings@[x.0 as int]@ == word(src@, pos as int),
            Node::NumberLiteralExpr(x) => width == 1 && at(src@, pos as int, TokenKind::Number)
                && x.0 < lits.numbers@.len() && lits.numbers@[x.0 as int]@ == word(
                src@,
                pos as int,
            ),
            Node::ReturnVoidStmt => width == 2 && at(src@, pos as int, TokenKind::Return) && at(
                src@,
                pos + 1,
                TokenKind::Semicolon,
            ),
            _ => false,
        },
    ensures
        reading(final(p), lits, src, base),
        old(p).grown_to(final(p)),
        read(src, pos, old(p), final(p), node.kind(), i, (pos + width) as usize),
        final(p)@[i as int] == node,
        final(p).span(i as int).wraps == 0,
{
    let ghost before = *p;
    let ghost span = Span { from: pos as int, to: pos + width, wraps: 0 };
    let i = p.put(node, Ghost(span));
    proof {
        assert(written(p, lits, src@, i as int));
        lemma_written_grown(&before, p, lits, lits, src@, base);
    }
    i
}

/// Parses a type annotation: one of the four basic types, a function type with its
/// arguments in parentheses before `=>`, or types in parentheses, which are a product
/// where there are two or more.
pub fn parse_type(
    src: &Source,
    pos: usize,
    p: &mut Program,
    lits: &mut Literals,
    Ghost(base): Ghost<int>,
) -> (r: Result<(TypeNode, usize), ParseFailure>)
    requires
        src.wf(),
        reading(old(p), old(lits), src, base),
        pos <= src.tokens@.len(),
    ensures
        reading(final(p), final(lits), src, base),
        read_on(old(p), final(p), old(lits), final(lits)),
        match r {
            Ok((n, q)) => read(src, pos, old(p), final(p), Kind::Type, n.0, q),
            Err(f) => src.fails_from(f, pos as int),
        },
        src.gives(r, after(src.tokens@, Part::Type, pos as int)),
    decreases src.tokens@.len() - pos, 1nat,
{
    match src.kind_at(pos) {
        Some(TokenKind::Void) => Ok(
            (TypeNode(put_word(src, pos, 1, p, lits, Node::VoidType, Ghost(base))), pos + 1),
        ),
        Some(TokenKind::Boolean) => Ok(
            (TypeNode(put_word(src, pos, 1, p, lits, Node::BooleanType, Ghost(base))), pos + 1),
        ),
        Some(TokenKind::NumberType) => Ok(
            (TypeNode(put_word(src, pos, 1, p, lits, Node::NumberType, Ghost(base))), pos + 1),
        ),
        Some(TokenKind::StringType) => Ok(
            (TypeNode(put_word(src, pos, 1, p, lits, Node::StringType, Ghost(base))), pos + 1),
        ),
        Some(TokenKind::LeftParen) => {
            if src.is_at(pos + 1, TokenKind::RightParen) || src.is_at(pos + 1, TokenKind::Ident) {
                parse_function_type(src, pos, p, lits, Ghost(base))
            } else {
                parse_types(src, pos, p, lits, Ghost(base))
            }
        },
        _ => Err(src.fail(pos)),
    }
}

/// Parses a function type: arguments in parentheses, `=>`, and the type of the result.
fn parse_function_type(
    src: &Source,
    pos: usize,
    p: &mut Program,
    lits: &mut Literals,
    Ghost(base): Ghost<int>,
) -> (r: Result<(TypeNode, usize), ParseFailure>)
    requires
        src.wf(),
        reading(old(p), old(lits), src, base),
        pos < src.tokens@.len(),
        src.tokens@[pos as int].kind == TokenKind::LeftParen,
    ensures
        reading(final(p), final(lits), src, base),
        read_on(old(p), final(p), old(lits), final(lits)),
        match r {
            Ok((n, q)) => read(src, pos, old(p), final(p), Kind::Type, n.0, q),
            Err(f) => src.fails_from(f, pos as int),
        },
        src.gives(r, after(src.tokens@, Part::FunctionType, pos as int)),
    decreases src.tokens@.len() - pos, 0nat,
{
    let (args, close) = parse_args(src, pos + 1, p, lits, Ghost(base))?;
    let ghost pa = *p;
    let ghost l1 = *lits;
    let q = src.expect(close, TokenKind::RightParen)?;
    let q = src.expect(q, TokenKind::Arrow)?;
    let (cod, q) = parse_type(src, q, p, lits, Ghost(base))?;
    let ghost pb = *p;
    let ghost span = Span { from: pos as int, to: q as int, wraps: 0 };
    let i = p.put(Node::FunctionType(args, cod), Ghost(span));
    proof {
        pa.lemma_grown_trans(&pb, p);
        old(p).lemma_grown_trans(&pa, p);
        crate::syntax::lemma_written_args_kept(
            &pa,
            p,
            &l1,
            lits,
            src@,
            pa@.len() as int,
            args,
            pos + 1,
            close as int,
        );
        assert(p.span(cod.0 as int) == pb.span(cod.0 as int));
        assert(written(p, lits, src@, i as int));
        lemma_written_grown(&pb, p, lits, lits, src@, base);
    }
    Ok((TypeNode(i), q))
}

/// Parses types in parentheses: one type, or the product of two or more.
fn parse_types(
    src: &Source,
    pos: usize,
    p: &mut Program,
    lits: &mut Literals,
    Ghost(base): Ghost<int>,
) -> (r: Result<(TypeNode, usize), ParseFailure>)
    requires
        src.wf(),
        reading(old(p), old(lits), src, base),
        pos < src.tokens@.len(),
        src.tokens@[pos as int].kind == TokenKind::LeftParen,
    ensures
        reading(final(p), final(lits), src, base),
        read_on(old(p), final(p), old(lits), final(lits)),
        match r {
            Ok((n, q)) => read(src, pos, old(p), final(p), Kind::Type, n.0, q),
            Err(f) => src.fails_from(f, pos as int),
        },
        src.gives(r, after(src.tokens@, Part::Types, pos as int)),
    decreases src.tokens@.len() - pos, 0nat,
{
    let (first, q) = parse_type(src, pos + 1, p, lits, Ghost(base))?;
    if src.is_at(q, TokenKind::Comma) {
        let mut members: Vec<TypeNode> = Vec::new();
        members.push(first);
        let mut q = q;
        assert(spans_of_types(p, members@) =~= seq![p.span(first.0 as int)]);
        while src.is_at(q, TokenKind::Comma)
            invariant
                after(src.tokens@, Part::Types, pos as int) == (match after(
                    src.tokens@,
                    Part::MoreTypes,
                    q as int,
                ) {
                    Err(k) => Err::<int, int>(k),
                    Ok(e) => expect(src.tokens@, e, TokenKind::RightParen),
                }),
                src.wf(),
                reading(p, lits, src, base),
                read_on(old(p), p, old(lits), lits),
                pos < q <= src.tokens@.len(),
                members@.len() >= 1,
                members@.len() == 1 ==> q < src.tokens@.len() && src.tokens@[q as int].kind
                    == TokenKind::Comma,
                forall|i: int|
                    0 <= i < members@.len() ==> p.has((#[trigger] members@[i]).0, Kind::Type),
                separated(src@, spans_of_types(p, members@), pos + 1, q as int),
            decreases src.tokens@.len() - q,
        {
            let ghost pa = *p;
            let ghost l1 = *lits;
            let ghost seen = members@;
            let (member, next) = parse_type(src, q + 1, p, lits, Ghost(base))?;
            members.push(member);
            proof {
                old(p).lemma_grown_trans(&pa, p);
                old(lits).lemma_kept_trans(&l1, lits);
                assert forall|j: int| 0 <= j < seen.len() implies p.span(seen[j].0 as int)
                    == pa.span(seen[j].0 as int) by {
                    assert(pa.has(seen[j].0, Kind::Type));
                }
                assert(spans_of_types(p, members@) =~= spans_of_types(&pa, seen).push(
                    p.span(member.0 as int),
                ));
                lemma_separated_push(
                    src@,
                    spans_of_types(&pa, seen),
                    p.span(member.0 as int),
                    pos + 1,
                    q as int,
                );
            }
            q = next;
        }
        let close = q;
        let q = src.expect(q, TokenKind::RightParen)?;
        let ghost pb = *p;
        let list = type_list_node(members.as_slice(), p);
        let ghost pc = *p;
        let ghost span = Span { from: pos as int, to: q as int, wraps: 0 };
        let i = p.put(Node::ProductType(list), Ghost(span));
        proof {
            pb.lemma_grown_trans(&pc, p);
            old(p).lemma_grown_trans(&pb, p);
            lemma_written_grown(&pb, &pc, lits, lits, src@, base);
            pc.lemma_type_list_agree(p, pc@.len() as int, list);
            assert forall|j: int| 0 <= j < members@.len() implies p.span(members@[j].0 as int)
                == pb.span(members@[j].0 as int) by {
                assert(pb.has(members@[j].0, Kind::Type));
            }
            assert(type_spans(p, list) =~= spans_of_types(&pb, members@));
            assert(written(p, lits, src@, i as int));
            lemma_written_grown(&pc, p, lits, lits, src@, base);
        }
        Ok((TypeNode(i), q))
    } else {
        let ghost pa = *p;
        let inner = q;
        assert(after(src.tokens@, Part::MoreTypes, q as int) == Ok::<int, int>(q as int));
        let q = src.expect(q, TokenKind::RightParen)?;
        proof {
            let was = p.span(first.0 as int);
            let now = Span { from: pos as int, to: q as int, wraps: was.wraps + 1 };
            assert(written(&pa, lits, src@, first.0 as int));
            p.spans@ = p.spans@.update(first.0 as int, now);
            lemma_wrapped_once(src@, was, now);
            lemma_rewrapped(&pa, p, lits, src@, base, first.0 as int);
            old(p).lemma_grown_to_rewrapped(&pa, p, first.0 as int);
        }
        Ok((first, q))
    }
}

/// Spans with commas between them stay so when a comma and a further span follow.
pub proof fn lemma_separated_push(text: Text, spans: Seq<Span>, s: Span, from: int, to: int)
    requires
        spans.len() >= 1,
        separated(text, spans, from, to),
        at(text, to, TokenKind::Comma),
        s.from == to + 1,
    ensures
        separated(text, spans.push(s), from, s.to),
{
    let more = spans.push(s);
    assert(more.len() == spans.len() + 1);
    assert(more[0] == spans[0]);
    assert(more.last() == s);
    assert forall|j: int| 0 < j < more.len() implies at(text, more[j - 1].to, TokenKind::Comma) && (
    #[trigger] more[j]).from == more[j - 1].to + 1 by {
        if j < spans.len() {
            assert(spans[j].from == spans[j - 1].to + 1);
            assert(more[j] == spans[j]);
            assert(more[j - 1] == spans[j - 1]);
        } else {
            assert(more[j - 1] == spans.last());
        }
    }
}

/// Spans that follow each other stay so when a further span follows.
pub proof fn lemma_adjoining_push(spans: Seq<Span>, s: Span, from: int, to: int)
    requires
        adjoining(spans, from, to),
        s.from == to,
    ensures
        adjoining(spans.push(s), from, s.to),
{
    let more = spans.push(s);
    assert(more.last() == s);
    if spans.len() > 0 {
        assert(more[0] == spans[0]);
        assert forall|j: int| 0 < j < more.len() implies (#[trigger] more[j]).from == more[j
            - 1].to by {
            if j < spans.len() {
                assert(spans[j].from == spans[j - 1].to);
                assert(more[j] == spans[j]);
                assert(more[j - 1] == spans[j - 1]);
            } else {
                assert(more[j - 1] == spans.last());
            }
        }
    }
}

/// A span in one more pair of parentheses is in parentheses.
pub proof fn lemma_wrapped_once(text: Text, was: Span, now: Span)
    requires
        wrapped(text, was),
        now.from == was.from - 1,
        now.to == was.to + 1,
        now.wraps == was.wraps + 1,
        at(text, now.from, TokenKind::LeftParen),
        at(text, now.to - 1, TokenKind::RightParen),
    ensures
        wrapped(text, now),
        now.first() == was.first(),
        now.last() == was.last(),
{
    assert forall|j: int| 0 <= j < now.wraps implies at(
        text,
        #[trigger] (now.from + j),
        TokenKind::LeftParen,
    ) && at(text, now.to - 1 - j, TokenKind::RightParen) by {
        if j > 0 {
            assert(now.from + j == was.from + (j - 1));
            assert(at(text, was.from + (j - 1), TokenKind::LeftParen));
        }
    }
}

/// Putting the node that was added last into one more pair of parentheses leaves all
/// nodes written as the grammar says.
pub proof fn lemma_rewrapped(
    before: &Program,
    after: &Program,
    lits: &Literals,
    text: Text,
    base: int,
    n: int,
)
    requires
        before.wf(),
        lits.wf(),
        0 <= base,
        0 <= n,
        n + 1 == before@.len(),
        after@ == before@,
        after.spans@ == before.spans@.update(n, after.span(n)),
        written_since(before, lits, text, base),
        before@[n].kind() == Kind::Type || before@[n].kind() == Kind::Expr,
        wrapped(text, after.span(n)),
        after.span(n).first() == before.span(n).first(),
        after.span(n).last() == before.span(n).last(),
        after.span(n).wraps > 0,
    ensures
        written_since(after, lits, text, base),
        after.wf(),
{
    assert forall|m: int| base <= m < after@.len() implies #[trigger] written(after, lits, text, m) by {
        if m < n {
            lemma_written_kept(before, after, lits, lits, text, n, m);
        } else {
            assert(written(before, lits, text, n));
            assert(Program::node_ok(before@, before@[n], n));
            match before@[n] {
                Node::ProductType(l) => {
                    before.lemma_type_list_agree(after, n, l);
                    assert forall|j: int| 0 <= j < before.type_list(l).len() implies after.span(
                        before.type_list(l)[j].0 as int,
                    ) == before.span(before.type_list(l)[j].0 as int) by {
                        before.lemma_type_list_items(l, j);
                    }
                    assert(type_spans(after, l) =~= type_spans(before, l));
                },
                Node::FunctionType(args, cod) => {
                    crate::syntax::lemma_written_args_kept(
                        before,
                        after,
                        lits,
                        lits,
                        text,
                        n,
                        args,
                        before.span(n).first() + 1,
                        before.span(cod.0 as int).from - 2,
                    );
                },
                Node::TupleExpr(l) => {
                    before.lemma_expr_list_agree(after, n, l);
                    assert forall|j: int| 0 <= j < before.expr_list(l).len() implies after.span(
                        before.expr_list(l)[j].0 as int,
                    ) == before.span(before.expr_list(l)[j].0 as int) by {
                        before.lemma_expr_list_items(l, j);
                    }
                    assert(expr_spans(after, l) =~= expr_spans(before, l));
                },
                Node::AppExpr(c, l) => {
                    before.lemma_expr_list_agree(after, n, l);
                    assert forall|j: int| 0 <= j < before.expr_list(l).len() implies after.span(
                        before.expr_list(l)[j].0 as int,
                    ) == before.span(before.expr_list(l)[j].0 as int) by {
                        before.lemma_expr_list_items(l, j);
                    }
                    assert(expr_spans(after, l) =~= expr_spans(before, l));
                },
                _ => {},
            }
        }
    }
}

/// Parses an annotation, a colon and a type, or finds that there is none.
pub fn parse_annotation(
    src: &Source,
    pos: usize,
    p: &mut Program,
    lits: &mut Literals,
    Ghost(base): Ghost<int>,
) -> (r: Result<(OptTypeNode, usize), ParseFailure>)
    requires
        src.wf(),
        reading(old(p), old(lits), src, base),
        pos <= src.tokens@.len(),
    ensures
        reading(final(p), final(lits), src, base),
        read_on(old(p), final(p), old(lits), final(lits)),
        match r {
            Ok((n, q)) => {
                &&& pos <= q <= src.tokens@.len()
                &&& final(p).has(n.0, Kind::OptType)
                &&& old(p)@.len() <= n.0
                &&& final(p).span(n.0 as int) == (Span { from: pos as int, to: q as int, wraps: 0 })
            },
            Err(f) => src.fails_from(f, pos as int),
        },
        src.gives(r, after(src.tokens@, Part::Annotation, pos as int)),
    decreases src.tokens@.len() - pos, 2nat,
{
    if src.is_at(pos, TokenKind::Colon) {
        let (ty, q) = parse_type(src, pos + 1, p, lits, Ghost(base))?;
        let ghost pa = *p;
        let node = opt_type_node(Some(ty), p);
        proof {
            let pb = *p;
            let span = Span { from: pos as int, to: q as int, wraps: 0 };
            p.spans@ = p.spans@.update(node.0 as int, span);
            pa.lemma_grown_to_rewrapped(&pb, p, node.0 as int);
            old(p).lemma_grown_trans(&pa, p);
            assert(p.span(ty.0 as int) == pa.span(ty.0 as int));
            assert(written(p, lits, src@, node.0 as int));
            lemma_written_grown(&pa, p, lits, lits, src@, base);
        }
        Ok((node, q))
    } else {
        let ghost pa = *p;
        let node = opt_type_node(None, p);
        proof {
            let pb = *p;
            let span = Span { from: pos as int, to: pos as int, wraps: 0 };
            p.spans@ = p.spans@.update(node.0 as int, span);
            pa.lemma_grown_to_rewrapped(&pb, p, node.0 as int);
            old(lits).lemma_kept_trans(lits, lits);
            assert(written(p, lits, src@, node.0 as int));
            lemma_written_grown(&pa, p, lits, lits, src@, base);
        }
        Ok((node, pos))
    }
}

/// Parses the arguments of a function, up to the closing parenthesis: names, each with
/// an annotation or without, with commas between them.
pub fn parse_args(
    src: &Source,
    pos: usize,
    p: &mut Program,
    lits: &mut Literals,
    Ghost(base): Ghost<int>,
) -> (r: Result<(ArgListNode, usize), ParseFailure>)
    requires
        src.wf(),
        reading(old(p), old(lits), src, base),
        pos <= src.tokens@.len(),
    ensures
        reading(final(p), final(lits), src, base),
        read_on(old(p), final(p), old(lits), final(lits)),
        match r {
            Ok((n, q)) => {
                &&& pos <= q <= src.tokens@.len()
                &&& final(p).has(n.0, Kind::ArgList)
                &&& n.0 + 1 == final(p)@.len()
                &&& written_args(final(p), final(lits), src@, n, pos as int, q as int)
            },
            Err(f) => src.fails_from(f, pos as int),
        },
        src.gives(r, after(src.tokens@, Part::Args, pos as int)),
    decreases src.tokens@.len() - pos, 0nat,
{
    let mut args: Vec<(Name, OptTypeNode)> = Vec::new();
    let mut q = pos;
    let mut more = src.is_at(q, TokenKind::Ident);
    let ghost mut end = pos as int;
    proof {
        old(p).lemma_grown_trans(p, p);
        old(lits).lemma_kept_trans(lits, lits);
        assert(spans_of_args(p, args@) =~= Seq::<Span>::empty());
    }
    while more
        invariant
            after(src.tokens@, Part::Args, pos as int) == (if more {
                after(src.tokens@, Part::Args, q as int)
            } else {
                Ok::<int, int>(q as int)
            }),
            src.wf(),
            reading(p, lits, src, base),
            read_on(old(p), p, old(lits), lits),
            pos <= q <= src.tokens@.len(),
            more ==> q < src.tokens@.len() && src.tokens@[q as int].kind == TokenKind::Ident,
            forall|i: int|
                0 <= i < args@.len() ==> p.has((#[trigger] args@[i]).1.0, Kind::OptType),
            separated(src@, spans_of_args(p, args@), pos as int, end),
            args@.len() == 0 ==> q == pos && end == pos,
            args@.len() > 0 && !more ==> q == end,
            args@.len() > 0 && more ==> at(src@, end, TokenKind::Comma) && q == end + 1,
            forall|j: int|
                0 <= j < args@.len() ==> names(
                    lits,
                    src@,
                    (#[trigger] spans_of_args(p, args@)[j]).from,
                    args@[j].0,
                ),
        decreases src.tokens@.len() - q, (if more {
                1nat
            } else {
                0nat
            }),
    {
        let ghost pa = *p;
        let ghost l1 = *lits;
        let ghost seen = args@;
        let name = read_name(src, q, p, lits, Ghost(base));
        let ghost l2 = *lits;
        let (annotation, next) = parse_annotation(src, q + 1, p, lits, Ghost(base))?;
        args.push((name, annotation));
        proof {
            old(p).lemma_grown_trans(&pa, p);
            l1.lemma_kept_trans(&l2, lits);
            old(lits).lemma_kept_trans(&l1, lits);
            assert forall|j: int| 0 <= j < seen.len() implies p.span(seen[j].1.0 as int)
                == pa.span(seen[j].1.0 as int) by {
                assert(pa.has(seen[j].1.0, Kind::OptType));
            }
            let s = arg_span(p.span(annotation.0 as int));
            assert(spans_of_args(p, args@) =~= spans_of_args(&pa, seen).push(s));
            if seen.len() > 0 {
                lemma_separated_push(src@, spans_of_args(&pa, seen), s, pos as int, end);
            }
            assert forall|j: int| 0 <= j < args@.len() implies names(
                lits,
                src@,
                (#[trigger] spans_of_args(p, args@)[j]).from,
                args@[j].0,
            ) by {
                if j < seen.len() {
                    crate::syntax::lemma_names_kept(
                        &l1,
                        lits,
                        src@,
                        spans_of_args(&pa, seen)[j].from,
                        seen[j].0,
                    );
                } else {
                    crate::syntax::lemma_names_kept(&l2, lits, src@, q as int, name);
                }
            }
            end = next as int;
        }
        if src.is_at(next, TokenKind::Comma) {
            if src.is_at(next + 1, TokenKind::Ident) {
                q = next + 1;
            } else {
                return Err(src.fail(next + 1));
            }
        } else {
            q = next;
            more = false;
        }
    }
    let ghost pb = *p;
    let list = arg_list_node(args.as_slice(), p);
    proof {
        old(p).lemma_grown_trans(&pb, p);
        lemma_written_grown(&pb, p, lits, lits, src@, base);
        assert forall|j: int| 0 <= j < args@.len() implies p.span(args@[j].1.0 as int) == pb.span(
            args@[j].1.0 as int,
        ) by {
            assert(pb.has(args@[j].1.0, Kind::OptType));
        }
        assert(arg_spans(p, list) =~= spans_of_args(&pb, args@));
    }
    Ok((list, q))
}

/// Parses expressions with commas between them, up to the closing parenthesis.
pub fn parse_expr_list(
    src: &Source,
    pos: usize,
    p: &mut Program,
    lits: &mut Literals,
    Ghost(base): Ghost<int>,
) -> (r: Result<(Vec<ExprNode>, usize), ParseFailure>)
    requires
        src.wf(),
        reading(old(p), old(lits), src, base),
        pos <= src.tokens@.len(),
    ensures
        reading(final(p), final(lits), src, base),
        read_on(old(p), final(p), old(lits), final(lits)),
        match r {
            Ok((items, q)) => {
                &&& pos <= q <= src.tokens@.len()
                &&& forall|i: int|
                    0 <= i < items@.len() ==> final(p).has((#[trigger] items@[i]).0, Kind::Expr)
                &&& separated(src@, spans_of_exprs(final(p), items@), pos as int, q as int)
            },
            Err(f) => src.fails_from(f, pos as int),
        },
        src.gives(r, after(src.tokens@, Part::Exprs, pos as int)),
    decreases src.tokens@.len() - pos, 5nat,
{
    let mut items: Vec<ExprNode> = Vec::new();
    if src.is_at(pos, TokenKind::RightParen) {
        proof {
            old(p).lemma_grown_trans(p, p);
            old(lits).lemma_kept_trans(lits, lits);
            assert(spans_of_exprs(p, items@) =~= Seq::<Span>::empty());
        }
        return Ok((items, pos));
    }
    let (first, q) = parse_expr(src, pos, p, lits, Ghost(base))?;
    items.push(first);
    let mut q = q;
    assert(spans_of_exprs(p, items@) =~= seq![p.span(first.0 as int)]);
    while src.is_at(q, TokenKind::Comma)
        invariant
        after(src.tokens@, Part::Exprs, pos as int) == after(
            src.tokens@,
            Part::MoreExprs,
            q as int,
        ),
            src.wf(),
            reading(p, lits, src, base),
            read_on(old(p), p, old(lits), lits),
            pos < q <= src.tokens@.len(),
            items@.len() >= 1,
            forall|i: int| 0 <= i < items@.len() ==> p.has((#[trigger] items@[i]).0, Kind::Expr),
            separated(src@, spans_of_exprs(p, items@), pos as int, q as int),
        decreases src.tokens@.len() - q,
    {
        let ghost pa = *p;
        let ghost l1 = *lits;
        let ghost seen = items@;
        let (item, next) = parse_expr(src, q + 1, p, lits, Ghost(base))?;
        items.push(item);
        proof {
            old(p).lemma_grown_trans(&pa, p);
            old(lits).lemma_kept_trans(&l1, lits);
            assert forall|j: int| 0 <= j < seen.len() implies p.span(seen[j].0 as int) == pa.span(
                seen[j].0 as int,
            ) by {
                assert(pa.has(seen[j].0, Kind::Expr));
            }
            assert(spans_of_exprs(p, items@) =~= spans_of_exprs(&pa, seen).push(
                p.span(item.0 as int),
            ));
            lemma_separated_push(
                src@,
                spans_of_exprs(&pa, seen),
                p.span(item.0 as int),
                pos as int,
                q as int,
            );
        }
        q = next;
    }
    Ok((items, q))
}

/// Parses what follows an opening parenthesis that no closing one follows: an
/// expression in parentheses, or a tuple of two or more.
fn parse_group(
    src: &Source,
    pos: usize,
    p: &mut Program,
    lits: &mut Literals,
    Ghost(base): Ghost<int>,
) -> (r: Result<(ExprNode, usize), ParseFailure>)
    requires
        src.wf(),
        reading(old(p), old(lits), src, base),
        pos < src.tokens@.len(),
        src.tokens@[pos as int].kind == TokenKind::LeftParen,
    ensures
        reading(final(p), final(lits), src, base),
        read_on(old(p), final(p), old(lits), final(lits)),
        match r {
            Ok((n, q)) => read(src, pos, old(p), final(p), Kind::Expr, n.0, q) && tight(
                final(p),
                n.0 as int,
            ),
            Err(f) => src.fails_from(f, pos as int),
        },
        src.gives(r, after(src.tokens@, Part::Group, pos as int)),
    decreases src.tokens@.len() - pos, 0nat,
{
    let (first, q) = parse_expr(src, pos + 1, p, lits, Ghost(base))?;
    if src.is_at(q, TokenKind::Comma) {
        let mut members: Vec<ExprNode> = Vec::new();
        members.push(first);
        let mut q = q;
        assert(spans_of_exprs(p, members@) =~= seq![p.span(first.0 as int)]);
        while src.is_at(q, TokenKind::Comma)
            invariant
            after(src.tokens@, Part::Group, pos as int) == (match after(
                src.tokens@,
                Part::MoreExprs,
                q as int,
            ) {
                Err(k) => Err::<int, int>(k),
                Ok(e) => expect(src.tokens@, e, TokenKind::RightParen),
            }),
                src.wf(),
                reading(p, lits, src, base),
                read_on(old(p), p, old(lits), lits),
                pos < q <= src.tokens@.len(),
                members@.len() >= 1,
                members@.len() == 1 ==> q < src.tokens@.len() && src.tokens@[q as int].kind
                    == TokenKind::Comma,
                forall|i: int|
                    0 <= i < members@.len() ==> p.has((#[trigger] members@[i]).0, Kind::Expr),
                separated(src@, spans_of_exprs(p, members@), pos + 1, q as int),
            decreases src.tokens@.len() - q,
        {
            let ghost pa = *p;
            let ghost l1 = *lits;
            let ghost seen = members@;
            let (member, next) = parse_expr(src, q + 1, p, lits, Ghost(base))?;
            members.push(member);
            proof {
                old(p).lemma_grown_trans(&pa, p);
                old(lits).lemma_kept_trans(&l1, lits);
                assert forall|j: int| 0 <= j < seen.len() implies p.span(seen[j].0 as int)
                    == pa.span(seen[j].0 as int) by {
                    assert(pa.has(seen[j].0, Kind::Expr));
                }
                assert(spans_of_exprs(p, members@) =~= spans_of_exprs(&pa, seen).push(
                    p.span(member.0 as int),
                ));
                lemma_separated_push(
                    src@,
                    spans_of_exprs(&pa, seen),
                    p.span(member.0 as int),
                    pos + 1,
                    q as int,
                );
            }
            q = next;
        }
        let q = src.expect(q, TokenKind::RightParen)?;
        let ghost pb = *p;
        let list = expr_list_node(members.as_slice(), p);
        let ghost pc = *p;
        let ghost span = Span { from: pos as int, to: q as int, wraps: 0 };
        let i = p.put(Node::TupleExpr(list), Ghost(span));
        proof {
            pb.lemma_grown_trans(&pc, p);
            old(p).lemma_grown_trans(&pb, p);
            lemma_written_grown(&pb, &pc, lits, lits, src@, base);
            pc.lemma_expr_list_agree(p, pc@.len() as int, list);
            assert forall|j: int| 0 <= j < members@.len() implies p.span(members@[j].0 as int)
                == pb.span(members@[j].0 as int) by {
                assert(pb.has(members@[j].0, Kind::Expr));
            }
            assert(expr_spans(p, list) =~= spans_of_exprs(&pb, members@));
            assert(written(p, lits, src@, i as int));
            lemma_written_grown(&pc, p, lits, lits, src@, base);
        }
        Ok((ExprNode(i), q))
    } else {
        let ghost pa = *p;
        assert(after(src.tokens@, Part::MoreExprs, q as int) == Ok::<int, int>(q as int));
        let q = src.expect(q, TokenKind::RightParen)?;
        proof {
            let was = p.span(first.0 as int);
            let now = Span { from: pos as int, to: q as int, wraps: was.wraps + 1 };
            assert(written(&pa, lits, src@, first.0 as int));
            p.spans@ = p.spans@.update(first.0 as int, now);
            lemma_wrapped_once(src@, was, now);
            lemma_rewrapped(&pa, p, lits, src@, base, first.0 as int);
            old(p).lemma_grown_to_rewrapped(&pa, p, first.0 as int);
        }
        Ok((first, q))
    }
}

/// Parses a name, a literal, `()`, or an expression or a tuple in parentheses.
pub fn parse_expr0(
    src: &Source,
    pos: usize,
    p: &mut Program,
    lits: &mut Literals,
    Ghost(base): Ghost<int>,
) -> (r: Result<(ExprNode, usize), ParseFailure>)
    requires
        src.wf(),
        reading(old(p), old(lits), src, base),
        pos <= src.tokens@.len(),
    ensures
        reading(final(p), final(lits), src, base),
        read_on(old(p), final(p), old(lits), final(lits)),
        match r {
            Ok((n, q)) => read(src, pos, old(p), final(p), Kind::Expr, n.0, q) && tight(
                final(p),
                n.0 as int,
            ),
            Err(f) => src.fails_from(f, pos as int),
        },
        src.gives(r, after(src.tokens@, Part::Expr0, pos as int)),
    decreases src.tokens@.len() - pos, 1nat,
{
    match src.kind_at(pos) {
        Some(TokenKind::Ident) => {
            let name = read_name(src, pos, p, lits, Ghost(base));
            let i = put_word(src, pos, 1, p, lits, Node::VariableExpr(name), Ghost(base));
            Ok((ExprNode(i), pos + 1))
        },
        Some(TokenKind::True) => {
            proof {
                old(lits).lemma_kept_trans(lits, lits);
            }
            Ok((ExprNode(put_word(src, pos, 1, p, lits, Node::TrueExpr, Ghost(base))), pos + 1))
        },
        Some(TokenKind::False) => {
            proof {
                old(lits).lemma_kept_trans(lits, lits);
            }
            Ok((ExprNode(put_word(src, pos, 1, p, lits, Node::FalseExpr, Ghost(base))), pos + 1))
        },
        Some(TokenKind::Str) => {
            let literal = read_string(src, pos, p, lits, Ghost(base));
            let i = put_word(src, pos, 1, p, lits, Node::StringLiteralExpr(literal), Ghost(base));
            Ok((ExprNode(i), pos + 1))
        },
        Some(TokenKind::Number) => {
            let literal = read_number(src, pos, p, lits, Ghost(base));
            let i = put_word(src, pos, 1, p, lits, Node::NumberLiteralExpr(literal), Ghost(base));
            Ok((ExprNode(i), pos + 1))
        },
        Some(TokenKind::LeftParen) => {
            if src.is_at(pos + 1, TokenKind::RightParen) {
                proof {
                    old(lits).lemma_kept_trans(lits, lits);
                }
                let i = put_word(src, pos, 2, p, lits, Node::VoidExpr, Ghost(base));
                return Ok((ExprNode(i), pos + 2));
            }
            parse_group(src, pos, p, lits, Ghost(base))
        },
        _ => Err(src.fail(pos)),
    }
}

/// Parses what is applied and then, any number of times, arguments in parentheses.
pub fn parse_expr1(
    src: &Source,
    pos: usize,
    p: &mut Program,
    lits: &mut Literals,
    Ghost(base): Ghost<int>,
) -> (r: Result<(ExprNode, usize), ParseFailure>)
    requires
        src.wf(),
        reading(old(p), old(lits), src, base),
        pos <= src.tokens@.len(),
    ensures
        reading(final(p), final(lits), src, base),
        read_on(old(p), final(p), old(lits), final(lits)),
        match r {
            Ok((n, q)) => read(src, pos, old(p), final(p), Kind::Expr, n.0, q) && tight(
                final(p),
                n.0 as int,
            ),
            Err(f) => src.fails_from(f, pos as int),
        },
        src.gives(r, after(src.tokens@, Part::Expr1, pos as int)),
    decreases src.tokens@.len() - pos, 2nat,
{
    let (callee, q) = parse_expr0(src, pos, p, lits, Ghost(base))?;
    let mut callee = callee;
    let mut q = q;
    while src.is_at(q, TokenKind::LeftParen)
        invariant
        after(src.tokens@, Part::Expr1, pos as int) == after(
            src.tokens@,
            Part::MoreCalls,
            q as int,
        ),
            src.wf(),
            reading(p, lits, src, base),
            read_on(old(p), p, old(lits), lits),
            read(src, pos, old(p), p, Kind::Expr, callee.0, q),
            tight(p, callee.0 as int),
        decreases src.tokens@.len() - q,
    {
        let ghost pa = *p;
        let ghost l1 = *lits;
        let (args, next) = parse_expr_list(src, q + 1, p, lits, Ghost(base))?;
        let ghost pb = *p;
        let close = next;
        let next = src.expect(next, TokenKind::RightParen)?;
        let list = expr_list_node(args.as_slice(), p);
        let ghost pc = *p;
        let ghost span = Span { from: pos as int, to: next as int, wraps: 0 };
        let i = p.put(Node::AppExpr(callee, list), Ghost(span));
        proof {
            pb.lemma_grown_trans(&pc, p);
            pa.lemma_grown_trans(&pb, p);
            old(p).lemma_grown_trans(&pa, p);
            old(lits).lemma_kept_trans(&l1, lits);
            lemma_written_grown(&pb, &pc, lits, lits, src@, base);
            pc.lemma_expr_list_agree(p, pc@.len() as int, list);
            assert forall|j: int| 0 <= j < args@.len() implies p.span(args@[j].0 as int) == pb.span(
                args@[j].0 as int,
            ) by {
                assert(pb.has(args@[j].0, Kind::Expr));
            }
            assert(expr_spans(p, list) =~= spans_of_exprs(&pb, args@));
            assert(p.span(callee.0 as int) == pa.span(callee.0 as int));
            assert(p@[callee.0 as int] == pa@[callee.0 as int]);
            assert(written(p, lits, src@, i as int));
            lemma_written_grown(&pc, p, lits, lits, src@, base);
        }
        callee = ExprNode(i);
        q = next;
    }
    Ok((callee, q))
}

/// Parses an expression: a function, or one side of an equation and maybe `==` and the
/// other side.
pub fn parse_expr(
    src: &Source,
    pos: usize,
    p: &mut Program,
    lits: &mut Literals,
    Ghost(base): Ghost<int>,
) -> (r: Result<(ExprNode, usize), ParseFailure>)
    requires
        src.wf(),
        reading(old(p), old(lits), src, base),
        pos <= src.tokens@.len(),
    ensures
        reading(final(p), final(lits), src, base),
        read_on(old(p), final(p), old(lits), final(lits)),
        match r {
            Ok((n, q)) => read(src, pos, old(p), final(p), Kind::Expr, n.0, q),
            Err(f) => src.fails_from(f, pos as int),
        },
        src.gives(r, after(src.tokens@, Part::Expr, pos as int)),
    decreases src.tokens@.len() - pos, 4nat,
{
    if src.is_at(pos, TokenKind::Function) {
        let (function, q) = parse_function(src, pos, p, lits, Ghost(base))?;
        let ghost pa = *p;
        let ghost span = Span { from: pos as int, to: q as int, wraps: 0 };
        let i = p.put(Node::FunctionExpr(function), Ghost(span));
        proof {
            old(p).lemma_grown_trans(&pa, p);
            assert(written(p, lits, src@, i as int));
            lemma_written_grown(&pa, p, lits, lits, src@, base);
        }
        return Ok((ExprNode(i), q));
    }
    let (left, q) = parse_expr1(src, pos, p, lits, Ghost(base))?;
    if src.is_at(q, TokenKind::Equals) {
        let ghost pa = *p;
        let ghost l1 = *lits;
        let (right, q) = parse_expr1(src, q + 1, p, lits, Ghost(base))?;
        let ghost pb = *p;
        let ghost span = Span { from: pos as int, to: q as int, wraps: 0 };
        let i = p.put(Node::EqualsExpr(left, right), Ghost(span));
        proof {
            pa.lemma_grown_trans(&pb, p);
            old(p).lemma_grown_trans(&pa, p);
            old(lits).lemma_kept_trans(&l1, lits);
            assert(p.span(left.0 as int) == pa.span(left.0 as int));
            assert(p@[left.0 as int] == pa@[left.0 as int]);
            assert(p.span(right.0 as int) == pb.span(right.0 as int));
            assert(p@[right.0 as int] == pb@[right.0 as int]);
            assert(written(p, lits, src@, i as int));
            lemma_written_grown(&pb, p, lits, lits, src@, base);
        }
        Ok((ExprNode(i), q))
    } else {
        Ok((left, q))
    }
}

/// Parses a function: `function`, its name, its arguments in parentheses, maybe the
/// annotation of its result, and its body.
pub fn parse_function(
    src: &Source,
    pos: usize,
    p: &mut Program,
    lits: &mut Literals,
    Ghost(base): Ghost<int>,
) -> (r: Result<(FunctionNode, usize), ParseFailure>)
    requires
        src.wf(),
        reading(old(p), old(lits), src, base),
        pos <= src.tokens@.len(),
    ensures
        reading(final(p), final(lits), src, base),
        read_on(old(p), final(p), old(lits), final(lits)),
        match r {
            Ok((n, q)) => read(src, pos, old(p), final(p), Kind::Function, n.0, q),
            Err(f) => src.fails_from(f, pos as int),
        },
        src.gives(r, after(src.tokens@, Part::Function, pos as int)),
    decreases src.tokens@.len() - pos, 3nat,
{
    proof {
        old(p).lemma_grown_trans(p, p);
        old(lits).lemma_kept_trans(lits, lits);
    }
    let q = src.expect(pos, TokenKind::Function)?;
    let q = src.expect(q, TokenKind::Ident)?;
    let name = read_name(src, pos + 1, p, lits, Ghost(base));
    let ghost l0 = *lits;
    let q = src.expect(q, TokenKind::LeftParen)?;
    let (args, close) = parse_args(src, q, p, lits, Ghost(base))?;
    let ghost pa = *p;
    let ghost l1 = *lits;
    let q = src.expect(close, TokenKind::RightParen)?;
    let (codomain, q) = parse_annotation(src, q, p, lits, Ghost(base))?;
    let ghost pb = *p;
    let ghost l2 = *lits;
    let (body, q) = parse_block(src, q, p, lits, Ghost(base))?;
    let ghost pc = *p;
    let ghost span = Span { from: pos as int, to: q as int, wraps: 0 };
    let i = p.put(Node::Function(Some(name), args, codomain, body), Ghost(span));
    proof {
        pb.lemma_grown_trans(&pc, p);
        pa.lemma_grown_trans(&pb, p);
        old(p).lemma_grown_trans(&pa, p);
        l1.lemma_kept_trans(&l2, lits);
        l0.lemma_kept_trans(&l1, lits);
        old(lits).lemma_kept_trans(&l0, lits);
        crate::syntax::lemma_written_args_kept(
            &pa,
            p,
            &l1,
            lits,
            src@,
            pa@.len() as int,
            args,
            pos + 3,
            close as int,
        );
        crate::syntax::lemma_written_block_kept(&pc, p, src@, pc@.len() as int, body);
        crate::syntax::lemma_names_kept(&l0, lits, src@, pos + 1, name);
        assert(p.span(codomain.0 as int) == pb.span(codomain.0 as int));
        assert(written(p, lits, src@, i as int));
        lemma_written_grown(&pc, p, lits, lits, src@, base);
    }
    Ok((FunctionNode(i), q))
}

/// Parses a block: statements in braces.
pub fn parse_block(
    src: &Source,
    pos: usize,
    p: &mut Program,
    lits: &mut Literals,
    Ghost(base): Ghost<int>,
) -> (r: Result<(StmtListNode, usize), ParseFailure>)
    requires
        src.wf(),
        reading(old(p), old(lits), src, base),
        pos <= src.tokens@.len(),
    ensures
        reading(final(p), final(lits), src, base),
        read_on(old(p), final(p), old(lits), final(lits)),
        match r {
            Ok((n, q)) => read(src, pos, old(p), final(p), Kind::StmtList, n.0, q) && written_block(
                final(p),
                src@,
                n,
            ),
            Err(f) => src.fails_from(f, pos as int),
        },
        src.gives(r, after(src.tokens@, Part::Block, pos as int)),
    decreases src.tokens@.len() - pos, 1nat,
{
    proof {
        old(p).lemma_grown_trans(p, p);
        old(lits).lemma_kept_trans(lits, lits);
    }
    let q = src.expect(pos, TokenKind::LeftBrace)?;
    let mut q = q;
    let mut stmts: Vec<StmtNode> = Vec::new();
    assert(spans_of_stmts(p, stmts@) =~= Seq::<Span>::empty());
    while !src.is_at(q, TokenKind::RightBrace)
        invariant
        after(src.tokens@, Part::Block, pos as int) == after(
            src.tokens@,
            Part::MoreStmts,
            q as int,
        ),
            src.wf(),
            reading(p, lits, src, base),
            read_on(old(p), p, old(lits), lits),
            pos < q <= src.tokens@.len(),
            forall|i: int| 0 <= i < stmts@.len() ==> p.has((#[trigger] stmts@[i]).0, Kind::Stmt),
            adjoining(spans_of_stmts(p, stmts@), pos + 1, q as int),
        decreases src.tokens@.len() - q,
    {
        let ghost pa = *p;
        let ghost l1 = *lits;
        let ghost seen = stmts@;
        let (stmt, next) = parse_stmt(src, q, p, lits, Ghost(base))?;
        stmts.push(stmt);
        proof {
            old(p).lemma_grown_trans(&pa, p);
            old(lits).lemma_kept_trans(&l1, lits);
            assert forall|j: int| 0 <= j < seen.len() implies p.span(seen[j].0 as int) == pa.span(
                seen[j].0 as int,
            ) by {
                assert(pa.has(seen[j].0, Kind::Stmt));
            }
            assert(spans_of_stmts(p, stmts@) =~= spans_of_stmts(&pa, seen).push(
                p.span(stmt.0 as int),
            ));
            lemma_adjoining_push(spans_of_stmts(&pa, seen), p.span(stmt.0 as int), pos + 1, q as int);
        }
        q = next;
    }
    let ghost pb = *p;
    let list = stmt_list_node(stmts.as_slice(), p);
    proof {
        let pc = *p;
        let span = Span { from: pos as int, to: q + 1, wraps: 0 };
        p.spans@ = p.spans@.update(list.0 as int, span);
        pb.lemma_grown_to_rewrapped(&pc, p, list.0 as int);
        old(p).lemma_grown_trans(&pb, p);
        lemma_written_grown(&pb, p, lits, lits, src@, base);
        pc.lemma_stmt_list_agree(p, pc@.len() as int, list);
        assert forall|j: int| 0 <= j < stmts@.len() implies p.span(stmts@[j].0 as int) == pb.span(
            stmts@[j].0 as int,
        ) by {
            assert(pb.has(stmts@[j].0, Kind::Stmt));
        }
        assert(stmt_spans(p, list) =~= spans_of_stmts(&pb, stmts@));
    }
    Ok((list, q + 1))
}

/// Parses a `let`: the name, maybe its annotation, `=`, the value, and a semicolon.
fn parse_let(
    src: &Source,
    pos: usize,
    p: &mut Program,
    lits: &mut Literals,
    Ghost(base): Ghost<int>,
) -> (r: Result<(StmtNode, usize), ParseFailure>)
    requires
        src.wf(),
        reading(old(p), old(lits), src, base),
        pos < src.tokens@.len(),
        src.tokens@[pos as int].kind == TokenKind::Let,
    ensures
        reading(final(p), final(lits), src, base),
        read_on(old(p), final(p), old(lits), final(lits)),
        match r {
            Ok((n, q)) => read(src, pos, old(p), final(p), Kind::Stmt, n.0, q),
            Err(f) => src.fails_from(f, pos as int),
        },
        src.gives(r, after(src.tokens@, Part::Let, pos as int)),
    decreases src.tokens@.len() - pos, 3nat,
{
    proof {
        old(p).lemma_grown_trans(p, p);
        old(lits).lemma_kept_trans(lits, lits);
    }
    let q = src.expect(pos + 1, TokenKind::Ident)?;
    let name = read_name(src, pos + 1, p, lits, Ghost(base));
    let ghost l0 = *lits;
    let (annotation, sign) = parse_annotation(src, q, p, lits, Ghost(base))?;
    let ghost pa = *p;
    let ghost l1 = *lits;
    let q = src.expect(sign, TokenKind::Assign)?;
    let (value, end) = parse_expr(src, q, p, lits, Ghost(base))?;
    let ghost pb = *p;
    let q = src.expect(end, TokenKind::Semicolon)?;
    let ghost span = Span { from: pos as int, to: q as int, wraps: 0 };
    let i = p.put(Node::LetStmt(name, annotation, value), Ghost(span));
    proof {
        pa.lemma_grown_trans(&pb, p);
        old(p).lemma_grown_trans(&pa, p);
        l0.lemma_kept_trans(&l1, lits);
        old(lits).lemma_kept_trans(&l0, lits);
        crate::syntax::lemma_names_kept(&l0, lits, src@, pos + 1, name);
        assert(p.span(annotation.0 as int) == pa.span(annotation.0 as int));
        assert(written(p, lits, src@, i as int));
        lemma_written_grown(&pb, p, lits, lits, src@, base);
    }
    Ok((StmtNode(i), q))
}

/// Parses a `return`: with a value and a semicolon, or with a semicolon alone.
fn parse_return(
    src: &Source,
    pos: usize,
    p: &mut Program,
    lits: &mut Literals,
    Ghost(base): Ghost<int>,
) -> (r: Result<(StmtNode, usize), ParseFailure>)
    requires
        src.wf(),
        reading(old(p), old(lits), src, base),
        pos < src.tokens@.len(),
        src.tokens@[pos as int].kind == TokenKind::Return,
    ensures
        reading(final(p), final(lits), src, base),
        read_on(old(p), final(p), old(lits), final(lits)),
        match r {
            Ok((n, q)) => read(src, pos, old(p), final(p), Kind::Stmt, n.0, q),
            Err(f) => src.fails_from(f, pos as int),
        },
        src.gives(r, after(src.tokens@, Part::Return, pos as int)),
    decreases src.tokens@.len() - pos, 3nat,
{
    if src.is_at(pos + 1, TokenKind::Semicolon) {
        proof {
            old(lits).lemma_kept_trans(lits, lits);
        }
        let i = put_word(src, pos, 2, p, lits, Node::ReturnVoidStmt, Ghost(base));
        return Ok((StmtNode(i), pos + 2));
    }
    let (value, end) = parse_expr(src, pos + 1, p, lits, Ghost(base))?;
    let ghost pa = *p;
    let q = src.expect(end, TokenKind::Semicolon)?;
    let ghost span = Span { from: pos as int, to: q as int, wraps: 0 };
    let i = p.put(Node::ReturnStmt(value), Ghost(span));
    proof {
        old(p).lemma_grown_trans(&pa, p);
        assert(written(p, lits, src@, i as int));
        lemma_written_grown(&pa, p, lits, lits, src@, base);
    }
    Ok((StmtNode(i), q))
}

/// Parses a condition in parentheses and the block that follows it.
fn parse_guarded(
    src: &Source,
    pos: usize,
    p: &mut Program,
    lits: &mut Literals,
    Ghost(base): Ghost<int>,
) -> (r: Result<(ExprNode, StmtListNode, usize), ParseFailure>)
    requires
        src.wf(),
        reading(old(p), old(lits), src, base),
        pos <= src.tokens@.len(),
    ensures
        reading(final(p), final(lits), src, base),
        read_on(old(p), final(p), old(lits), final(lits)),
        match r {
            Ok((c, b, q)) => {
                &&& at(src@, pos as int, TokenKind::LeftParen)
                &&& final(p).has(c.0, Kind::Expr)
                &&& final(p).span(c.0 as int).from == pos + 1
                &&& at(src@, final(p).span(c.0 as int).to, TokenKind::RightParen)
                &&& read(
                    src,
                    (final(p).span(c.0 as int).to + 1) as usize,
                    old(p),
                    final(p),
                    Kind::StmtList,
                    b.0,
                    q,
                )
                &&& written_block(final(p), src@, b)
                &&& pos < q
            },
            Err(f) => src.fails_from(f, pos as int),
        },
        match r {
            Ok(v) => after(src.tokens@, Part::Guarded, pos as int) == Ok::<int, int>(v.2 as int),
            Err(f) => after(src.tokens@, Part::Guarded, pos as int) matches Err(k) && f
                == src.failure_at(k),
        },
    decreases src.tokens@.len() - pos, 2nat,
{
    proof {
        old(p).lemma_grown_trans(p, p);
        old(lits).lemma_kept_trans(lits, lits);
    }
    let q = src.expect(pos, TokenKind::LeftParen)?;
    let (cond, close) = parse_expr(src, q, p, lits, Ghost(base))?;
    let ghost pa = *p;
    let ghost l1 = *lits;
    let q = src.expect(close, TokenKind::RightParen)?;
    let (block, q) = parse_block(src, q, p, lits, Ghost(base))?;
    proof {
        old(p).lemma_grown_trans(&pa, p);
        old(lits).lemma_kept_trans(&l1, lits);
        assert(p.span(cond.0 as int) == pa.span(cond.0 as int));
    }
    Ok((cond, block, q))
}

/// Parses an `if`: the condition in parentheses, a block, `else`, and a block.
fn parse_if(
    src: &Source,
    pos: usize,
    p: &mut Program,
    lits: &mut Literals,
    Ghost(base): Ghost<int>,
) -> (r: Result<(StmtNode, usize), ParseFailure>)
    requires
        src.wf(),
        reading(old(p), old(lits), src, base),
        pos < src.tokens@.len(),
        src.tokens@[pos as int].kind == TokenKind::If,
    ensures
        reading(final(p), final(lits), src, base),
        read_on(old(p), final(p), old(lits), final(lits)),
        match r {
            Ok((n, q)) => read(src, pos, old(p), final(p), Kind::Stmt, n.0, q),
            Err(f) => src.fails_from(f, pos as int),
        },
        src.gives(r, after(src.tokens@, Part::If, pos as int)),
    decreases src.tokens@.len() - pos, 3nat,
{
    let (cond, first, other) = parse_guarded(src, pos + 1, p, lits, Ghost(base))?;
    let ghost pa = *p;
    let ghost l1 = *lits;
    let q = src.expect(other, TokenKind::Else)?;
    let (second, q) = parse_block(src, q, p, lits, Ghost(base))?;
    let ghost pb = *p;
    let ghost span = Span { from: pos as int, to: q as int, wraps: 0 };
    let i = p.put(Node::IfStmt(cond, first, second), Ghost(span));
    proof {
        pa.lemma_grown_trans(&pb, p);
        old(p).lemma_grown_trans(&pa, p);
        old(lits).lemma_kept_trans(&l1, lits);
        crate::syntax::lemma_written_block_kept(&pa, p, src@, pa@.len() as int, first);
        crate::syntax::lemma_written_block_kept(&pb, p, src@, pb@.len() as int, second);
        assert(p.span(cond.0 as int) == pa.span(cond.0 as int));
        assert(p.span(first.0 as int) == pa.span(first.0 as int));
        assert(written(p, lits, src@, i as int));
        lemma_written_grown(&pb, p, lits, lits, src@, base);
    }
    Ok((StmtNode(i), q))
}

/// Parses a `while`: the condition in parentheses and a block.
fn parse_while(
    src: &Source,
    pos: usize,
    p: &mut Program,
    lits: &mut Literals,
    Ghost(base): Ghost<int>,
) -> (r: Result<(StmtNode, usize), ParseFailure>)
    requires
        src.wf(),
        reading(old(p), old(lits), src, base),
        pos < src.tokens@.len(),
        src.tokens@[pos as int].kind == TokenKind::While,
    ensures
        reading(final(p), final(lits), src, base),
        read_on(old(p), final(p), old(lits), final(lits)),
        match r {
            Ok((n, q)) => read(src, pos, old(p), final(p), Kind::Stmt, n.0, q),
            Err(f) => src.fails_from(f, pos as int),
        },
        src.gives(r, after(src.tokens@, Part::While, pos as int)),
    decreases src.tokens@.len() - pos, 3nat,
{
    let (cond, body, q) = parse_guarded(src, pos + 1, p, lits, Ghost(base))?;
    let ghost pa = *p;
    let ghost span = Span { from: pos as int, to: q as int, wraps: 0 };
    let i = p.put(Node::WhileStmt(cond, body), Ghost(span));
    proof {
        old(p).lemma_grown_trans(&pa, p);
        crate::syntax::lemma_written_block_kept(&pa, p, src@, pa@.len() as int, body);
        assert(written(p, lits, src@, i as int));
        lemma_written_grown(&pa, p, lits, lits, src@, base);
    }
    Ok((StmtNode(i), q))
}

/// Parses a function where a statement can stand: a statement of its own, or, where a
/// semicolon follows it, an expression.
fn parse_function_stmt(
    src: &Source,
    pos: usize,
    p: &mut Program,
    lits: &mut Literals,
    Ghost(base): Ghost<int>,
) -> (r: Result<(StmtNode, usize), ParseFailure>)
    requires
        src.wf(),
        reading(old(p), old(lits), src, base),
        pos < src.tokens@.len(),
        src.tokens@[pos as int].kind == TokenKind::Function,
    ensures
        reading(final(p), final(lits), src, base),
        read_on(old(p), final(p), old(lits), final(lits)),
        match r {
            Ok((n, q)) => read(src, pos, old(p), final(p), Kind::Stmt, n.0, q),
            Err(f) => src.fails_from(f, pos as int),
        },
        src.gives(r, after(src.tokens@, Part::FunctionStmt, pos as int)),
    decreases src.tokens@.len() - pos, 4nat,
{
    let (function, q) = parse_function(src, pos, p, lits, Ghost(base))?;
    let ghost pa = *p;
    if src.is_at(q, TokenKind::Semicolon) {
        let ghost inner = Span { from: pos as int, to: q as int, wraps: 0 };
        let value = p.put(Node::FunctionExpr(function), Ghost(inner));
        let ghost pb = *p;
        proof {
            assert(written(p, lits, src@, value as int));
            lemma_written_grown(&pa, p, lits, lits, src@, base);
        }
        let ghost span = Span { from: pos as int, to: q + 1, wraps: 0 };
        let i = p.put(Node::ExprStmt(ExprNode(value)), Ghost(span));
        proof {
            pa.lemma_grown_trans(&pb, p);
            old(p).lemma_grown_trans(&pa, p);
            assert(written(p, lits, src@, i as int));
            lemma_written_grown(&pb, p, lits, lits, src@, base);
        }
        Ok((StmtNode(i), q + 1))
    } else {
        let ghost span = Span { from: pos as int, to: q as int, wraps: 0 };
        assert(written(p, lits, src@, function.0 as int));
        let i = p.put(Node::FunctionStmt(function), Ghost(span));
        proof {
            old(p).lemma_grown_trans(&pa, p);
            assert(written(p, lits, src@, i as int));
            lemma_written_grown(&pa, p, lits, lits, src@, base);
        }
        Ok((StmtNode(i), q))
    }
}

/// Parses a statement: a `let`, a `return`, an `if` with its `else`, a `while`, a
/// function, or an expression and a semicolon. A function that a semicolon follows is
/// an expression.
pub fn parse_stmt(
    src: &Source,
    pos: usize,
    p: &mut Program,
    lits: &mut Literals,
    Ghost(base): Ghost<int>,
) -> (r: Result<(StmtNode, usize), ParseFailure>)
    requires
        src.wf(),
        reading(old(p), old(lits), src, base),
        pos <= src.tokens@.len(),
    ensures
        reading(final(p), final(lits), src, base),
        read_on(old(p), final(p), old(lits), final(lits)),
        match r {
            Ok((n, q)) => read(src, pos, old(p), final(p), Kind::Stmt, n.0, q),
            Err(f) => src.fails_from(f, pos as int),
        },
        src.gives(r, after(src.tokens@, Part::Stmt, pos as int)),
    decreases src.tokens@.len() - pos, 5nat,
{
    match src.kind_at(pos) {
        Some(TokenKind::Let) => parse_let(src, pos, p, lits, Ghost(base)),
        Some(TokenKind::Return) => parse_return(src, pos, p, lits, Ghost(base)),
        Some(TokenKind::If) => parse_if(src, pos, p, lits, Ghost(base)),
        Some(TokenKind::While) => parse_while(src, pos, p, lits, Ghost(base)),
        Some(TokenKind::Function) => parse_function_stmt(src, pos, p, lits, Ghost(base)),
        _ => {
            let (value, end) = parse_expr(src, pos, p, lits, Ghost(base))?;
            let ghost pa = *p;
            let q = src.expect(end, TokenKind::Semicolon)?;
            let ghost span = Span { from: pos as int, to: q as int, wraps: 0 };
            let i = p.put(Node::ExprStmt(value), Ghost(span));
            proof {
                old(p).lemma_grown_trans(&pa, p);
                assert(written(p, lits, src@, i as int));
                lemma_written_grown(&pa, p, lits, lits, src@, base);
            }
            Ok((StmtNode(i), q))
        },
    }
}

/// Parses a module: statements up to the end of the text.
pub fn parse_module(src: &Source, p: &mut Program, lits: &mut Literals, Ghost(base): Ghost<int>) -> (r:
    Result<ModuleNode, ParseFailure>)
    requires
        src.wf(),
        reading(old(p), old(lits), src, base),
    ensures
        reading(final(p), final(lits), src, base),
        read_on(old(p), final(p), old(lits), final(lits)),
        match r {
            Ok(m) => final(p).has(m.0, Kind::Module) && m.0 + 1 == final(p)@.len(),
            Err(f) => src.fails_from(f, 0),
        },
        r is Ok <==> src.invalid is None && stops_at(src.tokens@) is None,
        r matches Err(f) ==> f == src.failure_at(
            match stops_at(src.tokens@) {
                Some(k) => k,
                None => src.tokens@.len() as int,
            },
        ),
{
    let mut q: usize = 0;
    let mut stmts: Vec<StmtNode> = Vec::new();
    proof {
        old(p).lemma_grown_trans(p, p);
        old(lits).lemma_kept_trans(lits, lits);
        assert(spans_of_stmts(p, stmts@) =~= Seq::<Span>::empty());
    }
    while q < src.tokens.len()
        invariant
            after(src.tokens@, Part::Stmts, 0) == after(src.tokens@, Part::Stmts, q as int),
            src.wf(),
            reading(p, lits, src, base),
            read_on(old(p), p, old(lits), lits),
            q <= src.tokens@.len(),
            forall|i: int| 0 <= i < stmts@.len() ==> p.has((#[trigger] stmts@[i]).0, Kind::Stmt),
            adjoining(spans_of_stmts(p, stmts@), 0, q as int),
        decreases src.tokens@.len() - q,
    {
        let ghost pa = *p;
        let ghost l1 = *lits;
        let ghost seen = stmts@;
        let (stmt, next) = parse_stmt(src, q, p, lits, Ghost(base))?;
        stmts.push(stmt);
        proof {
            old(p).lemma_grown_trans(&pa, p);
            old(lits).lemma_kept_trans(&l1, lits);
            assert forall|j: int| 0 <= j < seen.len() implies p.span(seen[j].0 as int) == pa.span(
                seen[j].0 as int,
            ) by {
                assert(pa.has(seen[j].0, Kind::Stmt));
            }
            assert(spans_of_stmts(p, stmts@) =~= spans_of_stmts(&pa, seen).push(
                p.span(stmt.0 as int),
            ));
            lemma_adjoining_push(spans_of_stmts(&pa, seen), p.span(stmt.0 as int), 0, q as int);
        }
        q = next;
    }
    if src.invalid.is_some() {
        return Err(src.fail(q));
    }
    let ghost pb = *p;
    let list = stmt_list_node(stmts.as_slice(), p);
    let ghost pc = *p;
    let ghost span = Span { from: 0, to: q as int, wraps: 0 };
    let i = p.put(Node::Module(list), Ghost(span));
    proof {
        pb.lemma_grown_trans(&pc, p);
        old(p).lemma_grown_trans(&pb, p);
        lemma_written_grown(&pb, &pc, lits, lits, src@, base);
        pc.lemma_stmt_list_agree(p, pc@.len() as int, list);
        assert forall|j: int| 0 <= j < stmts@.len() implies p.span(stmts@[j].0 as int) == pb.span(
            stmts@[j].0 as int,
        ) by {
            assert(pb.has(stmts@[j].0, Kind::Stmt));
        }
        assert(stmt_spans(p, list) =~= spans_of_stmts(&pb, stmts@));
        assert(written(p, lits, src@, i as int));
        lemma_written_grown(&pc, p, lits, lits, src@, base);
    }
    Ok(ModuleNode(i))
}

/// Where a text fails if its token `k` cannot stand where it stands or, for `k` past
/// its last token, if it cannot end there: at the token; or at the index at which no
/// token begins; or, where all of it is tokens, at the end of the last.
pub open spec fn failure_of(bytes: Seq<u8>, k: int) -> ParseFailure {
    let tokens = lex(bytes, 0).0;
    if 0 <= k < tokens.len() {
        ParseFailure::UnrecognizedToken { location: tokens[k].start }
    } else {
        match lex(bytes, 0).1 {
            Some(at) => ParseFailure::InvalidToken { location: at as usize },
            None => ParseFailure::UnrecognizedEof {
                location: if tokens.len() > 0 {
                    tokens.last().end
                } else {
                    0
                },
            },
        }
    }
}

/// Whether the text `bytes` is a module: all of it is tokens, and these are statements
/// from the first to the last.
pub open spec fn accepted(bytes: Seq<u8>) -> bool {
    lex(bytes, 0).1 is None && stops_at(lex(bytes, 0).0) is None
}

/// Where a text that is no module fails: at the first token that cannot stand where it
/// stands, or past the last token where the statements go on to there.
pub open spec fn failure(bytes: Seq<u8>) -> ParseFailure {
    failure_of(
        bytes,
        match stops_at(lex(bytes, 0).0) {
            Some(k) => k,
            None => lex(bytes, 0).0.len() as int,
        },
    )
}

/// The parser of modules.
pub struct ModuleParser {}

impl ModuleParser {
    /// A parser.
    pub fn new() -> ModuleParser {
        ModuleParser {  }
    }

    /// Parses the text `src` as a module, adds its nodes to `p` and its identifiers and
    /// literals to `lits`.
    ///
    /// The text is read exactly if it is a module, and fails, if it is none, where
    /// [`failure`] says. The nodes that are added are written in the text as the grammar
    /// says, the module last.
    pub fn parse(&self, p: &mut Program, lits: &mut Literals, src: &str) -> (r: Result<
        ModuleNode,
        ParseFailure,
    >)
        requires
            old(p).wf(),
            old(lits).wf(),
        ensures
            final(p).wf(),
            final(lits).wf(),
            old(p).grown_to(final(p)),
            old(lits).kept_by(final(lits)),
            match r {
                Ok(m) => final(p).has(m.0, Kind::Module) && m.0 + 1 == final(p)@.len()
                    && written_since(
                    final(p),
                    final(lits),
                    text_of(src.spec_bytes()),
                    old(p)@.len() as int,
                ),
                Err(f) => f.location() <= src.spec_bytes().len() && f == failure(
                    src.spec_bytes(),
                ),
            },
            r is Ok <==> accepted(src.spec_bytes()),
    {
        let source = Source::new(src.as_bytes());
        let ghost base = p@.len() as int;
        let r = parse_module(&source, p, lits, Ghost(base));
        proof {
            assert(source@ == text_of(src.spec_bytes()));
            if let Err(f) = r {
                let k = match stops_at(source.tokens@) {
                    Some(k) => k,
                    None => source.tokens@.len() as int,
                };
                assert(failure_of(src.spec_bytes(), k) == source.failure_at(k));
            }
        }
        r
    }
}

/// A text with its tokens.
pub open spec fn text_of(bytes: Seq<u8>) -> Text {
    Text { bytes, tokens: lex(bytes, 0).0 }
}

} // verus!
