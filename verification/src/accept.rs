//! Which sequences of tokens are a module, and at which token the others fail.
//!
//! The grammar is read from left to right without looking back: at each place the next
//! tokens decide what is read, and a repetition is read as far as it goes. For each
//! part of the grammar a function gives, for the place at which the part begins, the
//! place after it, or the index of the first token that cannot stand where it stands.

use vstd::prelude::*;
use crate::lexer::{Token, TokenKind};

verus! {

/// The place after a part of the grammar, or the index of the token at which reading it
/// fails.
pub type End = Result<int, int>;

/// Whether token `k` is of the kind `kind`.
pub open spec fn holds(toks: Seq<Token>, k: int, kind: TokenKind) -> bool {
    0 <= k < toks.len() && toks[k].kind == kind
}

/// The place after token `k`, which has to be of the kind `kind`.
pub open spec fn expect(toks: Seq<Token>, k: int, kind: TokenKind) -> End {
    if holds(toks, k, kind) {
        Ok(k + 1)
    } else {
        Err(k)
    }
}

/// Whether `q` is a place further on than `pos`. What is read after a part begins
/// further on than the part: the test for it only makes plain that reading ends.
pub open spec fn onward(toks: Seq<Token>, pos: int, q: int) -> bool {
    0 <= pos < q <= toks.len()
}

/// The parts of the grammar.
pub enum Part {
    /// A type: `void`, `boolean`, `number`, `string`, a function type, or types in
    /// parentheses. What begins with a parenthesis is a function type where a closing
    /// parenthesis or a name follows.
    Type,
    /// A function type: arguments in parentheses, `=>`, and the type of the result.
    FunctionType,
    /// Types in parentheses: one type, or two or more with commas between them.
    Types,
    /// Any number of times a comma and a type.
    MoreTypes,
    /// An annotation: a colon and a type, or nothing.
    Annotation,
    /// The arguments of a function: names, each with an annotation or without, with commas
    /// between them; or nothing.
    Args,
    /// The arguments of an application, up to the closing parenthesis: expressions with
    /// commas between them, or nothing.
    Exprs,
    /// Any number of times a comma and an expression.
    MoreExprs,
    /// An expression in parentheses, or a tuple of two or more in parentheses.
    Group,
    /// A name, a literal, `()`, or an expression or a tuple in parentheses.
    Expr0,
    /// What is applied and then, any number of times, arguments in parentheses.
    Expr1,
    /// Any number of times arguments in parentheses.
    MoreCalls,
    /// An expression: a function, or one side of an equation and maybe `==` and the other
    /// side.
    Expr,
    /// A function: `function`, its name, its arguments in parentheses, maybe the
    /// annotation of its result, and its body.
    Function,
    /// A block: statements in braces.
    Block,
    /// Statements up to a closing brace, and that brace.
    MoreStmts,
    /// A `let`: the name, maybe its annotation, `=`, the value, and a semicolon.
    Let,
    /// A `return`: with a semicolon alone, or with a value and a semicolon.
    Return,
    /// A condition in parentheses and the block that follows it.
    Guarded,
    /// An `if`: the condition in parentheses, a block, `else`, and a block.
    If,
    /// A `while`: the condition in parentheses and a block.
    While,
    /// A function where a statement can stand, and the semicolon that may follow it.
    FunctionStmt,
    /// A statement: a `let`, a `return`, an `if` with its `else`, a `while`, a function, or
    /// an expression and a semicolon.
    Stmt,
    /// Statements up to the end of the tokens.
    Stmts,
}

/// The rank of a part: where a part begins with another part, at the same place, that
/// part is of a lower rank.
pub open spec fn rank(part: Part) -> nat {
    match part {
        Part::Type => 2,
        Part::FunctionType => 1,
        Part::Types => 1,
        Part::MoreTypes => 3,
        Part::Annotation => 3,
        Part::Args => 4,
        Part::Exprs => 4,
        Part::MoreExprs => 4,
        Part::Group => 0,
        Part::Expr0 => 1,
        Part::Expr1 => 2,
        Part::MoreCalls => 5,
        Part::Expr => 3,
        Part::Function => 2,
        Part::Block => 7,
        Part::MoreStmts => 6,
        Part::Let => 4,
        Part::Return => 4,
        Part::Guarded => 4,
        Part::If => 4,
        Part::While => 4,
        Part::FunctionStmt => 4,
        Part::Stmt => 5,
        Part::Stmts => 6,
    }
}

/// The place after the part `part` that begins at the place `pos`, or the index of the
/// token at which reading it fails.
pub open spec fn after(toks: Seq<Token>, part: Part, pos: int) -> End
    decreases toks.len() - pos, rank(part),
{
    match part {
        Part::Type => {
            if !(0 <= pos < toks.len()) {
                Err(pos)
            } else {
                match toks[pos].kind {
                    TokenKind::Void | TokenKind::Boolean => Ok(pos + 1),
                    TokenKind::NumberType | TokenKind::StringType => Ok(pos + 1),
                    TokenKind::LeftParen => if holds(toks, pos + 1, TokenKind::RightParen) || holds(
                        toks,
                        pos + 1,
                        TokenKind::Ident,
                    ) {
                        after(toks, Part::FunctionType, pos)
                    } else {
                        after(toks, Part::Types, pos)
                    },
                    _ => Err(pos),
                }
            }
        },
        Part::FunctionType => {
            if !(0 <= pos < toks.len()) {
                Err(pos)
            } else {
                match after(toks, Part::Args, pos + 1) {
                    Err(k) => Err(k),
                    Ok(close) => match expect(toks, close, TokenKind::RightParen) {
                        Err(k) => Err(k),
                        Ok(q) => match expect(toks, q, TokenKind::Arrow) {
                            Err(k) => Err(k),
                            Ok(q) => if onward(toks, pos, q) {
                                after(toks, Part::Type, q)
                            } else {
                                Err(q)
                            },
                        },
                    },
                }
            }
        },
        Part::Types => {
            if !(0 <= pos < toks.len()) {
                Err(pos)
            } else {
                match after(toks, Part::Type, pos + 1) {
                    Err(k) => Err(k),
                    Ok(q) => if onward(toks, pos, q) {
                        match after(toks, Part::MoreTypes, q) {
                            Err(k) => Err(k),
                            Ok(q) => expect(toks, q, TokenKind::RightParen),
                        }
                    } else {
                        Err(q)
                    },
                }
            }
        },
        Part::MoreTypes => {
            if holds(toks, pos, TokenKind::Comma) {
                match after(toks, Part::Type, pos + 1) {
                    Err(k) => Err(k),
                    Ok(q) => if onward(toks, pos, q) {
                        after(toks, Part::MoreTypes, q)
                    } else {
                        Err(q)
                    },
                }
            } else {
                Ok(pos)
            }
        },
        Part::Annotation => {
            if holds(toks, pos, TokenKind::Colon) {
                after(toks, Part::Type, pos + 1)
            } else {
                Ok(pos)
            }
        },
        Part::Args => {
            if holds(toks, pos, TokenKind::Ident) {
                match after(toks, Part::Annotation, pos + 1) {
                    Err(k) => Err(k),
                    Ok(q) => if holds(toks, q, TokenKind::Comma) {
                        if !holds(toks, q + 1, TokenKind::Ident) {
                            Err(q + 1)
                        } else if onward(toks, pos, q) {
                            after(toks, Part::Args, q + 1)
                        } else {
                            Err(q)
                        }
                    } else {
                        Ok(q)
                    },
                }
            } else {
                Ok(pos)
            }
        },
        Part::Exprs => {
            if holds(toks, pos, TokenKind::RightParen) {
                Ok(pos)
            } else {
                match after(toks, Part::Expr, pos) {
                    Err(k) => Err(k),
                    Ok(q) => if onward(toks, pos, q) {
                        after(toks, Part::MoreExprs, q)
                    } else {
                        Err(q)
                    },
                }
            }
        },
        Part::MoreExprs => {
            if holds(toks, pos, TokenKind::Comma) {
                match after(toks, Part::Expr, pos + 1) {
                    Err(k) => Err(k),
                    Ok(q) => if onward(toks, pos, q) {
                        after(toks, Part::MoreExprs, q)
                    } else {
                        Err(q)
                    },
                }
            } else {
                Ok(pos)
            }
        },
        Part::Group => {
            if !(0 <= pos < toks.len()) {
                Err(pos)
            } else {
                match after(toks, Part::Expr, pos + 1) {
                    Err(k) => Err(k),
                    Ok(q) => if onward(toks, pos, q) {
                        match after(toks, Part::MoreExprs, q) {
                            Err(k) => Err(k),
                            Ok(q) => expect(toks, q, TokenKind::RightParen),
                        }
                    } else {
                        Err(q)
                    },
                }
            }
        },
        Part::Expr0 => {
            if !(0 <= pos < toks.len()) {
                Err(pos)
            } else {
                match toks[pos].kind {
                    TokenKind::Ident | TokenKind::True | TokenKind::False => Ok(pos + 1),
                    TokenKind::Str | TokenKind::Number => Ok(pos + 1),
                    TokenKind::LeftParen => if holds(toks, pos + 1, TokenKind::RightParen) {
                        Ok(pos + 2)
                    } else {
                        after(toks, Part::Group, pos)
                    },
                    _ => Err(pos),
                }
            }
        },
        Part::Expr1 => {
            match after(toks, Part::Expr0, pos) {
                Err(k) => Err(k),
                Ok(q) => if onward(toks, pos, q) {
                    after(toks, Part::MoreCalls, q)
                } else {
                    Err(q)
                },
            }
        },
        Part::MoreCalls => {
            if holds(toks, pos, TokenKind::LeftParen) {
                match after(toks, Part::Exprs, pos + 1) {
                    Err(k) => Err(k),
                    Ok(close) => match expect(toks, close, TokenKind::RightParen) {
                        Err(k) => Err(k),
                        Ok(q) => if onward(toks, pos, q) {
                            after(toks, Part::MoreCalls, q)
                        } else {
                            Err(q)
                        },
                    },
                }
            } else {
                Ok(pos)
            }
        },
        Part::Expr => {
            if holds(toks, pos, TokenKind::Function) {
                after(toks, Part::Function, pos)
            } else {
                match after(toks, Part::Expr1, pos) {
                    Err(k) => Err(k),
                    Ok(q) => if holds(toks, q, TokenKind::Equals) {
                        if onward(toks, pos, q) {
                            after(toks, Part::Expr1, q + 1)
                        } else {
                            Err(q)
                        }
                    } else {
                        Ok(q)
                    },
                }
            }
        },
        Part::Function => {
            match expect(toks, pos, TokenKind::Function) {
                Err(k) => Err(k),
                Ok(q) => match expect(toks, q, TokenKind::Ident) {
                    Err(k) => Err(k),
                    Ok(q) => match expect(toks, q, TokenKind::LeftParen) {
                        Err(k) => Err(k),
                        Ok(q) => match after(toks, Part::Args, q) {
                            Err(k) => Err(k),
                            Ok(close) => match expect(toks, close, TokenKind::RightParen) {
                                Err(k) => Err(k),
                                Ok(q) => if onward(toks, pos, q) {
                                    match after(toks, Part::Annotation, q) {
                                        Err(k) => Err(k),
                                        Ok(q) => if onward(toks, pos, q) {
                                            after(toks, Part::Block, q)
                                        } else {
                                            Err(q)
                                        },
                                    }
                                } else {
                                    Err(q)
                                },
                            },
                        },
                    },
                },
            }
        },
        Part::Block => {
            match expect(toks, pos, TokenKind::LeftBrace) {
                Err(k) => Err(k),
                Ok(q) => after(toks, Part::MoreStmts, q),
            }
        },
        Part::MoreStmts => {
            if holds(toks, pos, TokenKind::RightBrace) {
                Ok(pos + 1)
            } else {
                match after(toks, Part::Stmt, pos) {
                    Err(k) => Err(k),
                    Ok(q) => if onward(toks, pos, q) {
                        after(toks, Part::MoreStmts, q)
                    } else {
                        Err(q)
                    },
                }
            }
        },
        Part::Let => {
            if !(0 <= pos < toks.len()) {
                Err(pos)
            } else {
                match expect(toks, pos + 1, TokenKind::Ident) {
                    Err(k) => Err(k),
                    Ok(q) => match after(toks, Part::Annotation, q) {
                        Err(k) => Err(k),
                        Ok(sign) => match expect(toks, sign, TokenKind::Assign) {
                            Err(k) => Err(k),
                            Ok(q) => if onward(toks, pos, q) {
                                match after(toks, Part::Expr, q) {
                                    Err(k) => Err(k),
                                    Ok(end) => expect(toks, end, TokenKind::Semicolon),
                                }
                            } else {
                                Err(q)
                            },
                        },
                    },
                }
            }
        },
        Part::Return => {
            if !(0 <= pos < toks.len()) {
                Err(pos)
            } else if holds(toks, pos + 1, TokenKind::Semicolon) {
                Ok(pos + 2)
            } else {
                match after(toks, Part::Expr, pos + 1) {
                    Err(k) => Err(k),
                    Ok(end) => expect(toks, end, TokenKind::Semicolon),
                }
            }
        },
        Part::Guarded => {
            match expect(toks, pos, TokenKind::LeftParen) {
                Err(k) => Err(k),
                Ok(q) => match after(toks, Part::Expr, q) {
                    Err(k) => Err(k),
                    Ok(close) => match expect(toks, close, TokenKind::RightParen) {
                        Err(k) => Err(k),
                        Ok(q) => if onward(toks, pos, q) {
                            after(toks, Part::Block, q)
                        } else {
                            Err(q)
                        },
                    },
                },
            }
        },
        Part::If => {
            if !(0 <= pos < toks.len()) {
                Err(pos)
            } else {
                match after(toks, Part::Guarded, pos + 1) {
                    Err(k) => Err(k),
                    Ok(other) => match expect(toks, other, TokenKind::Else) {
                        Err(k) => Err(k),
                        Ok(q) => if onward(toks, pos, q) {
                            after(toks, Part::Block, q)
                        } else {
                            Err(q)
                        },
                    },
                }
            }
        },
        Part::While => {
            if !(0 <= pos < toks.len()) {
                Err(pos)
            } else {
                after(toks, Part::Guarded, pos + 1)
            }
        },
        Part::FunctionStmt => {
            match after(toks, Part::Function, pos) {
                Err(k) => Err(k),
                Ok(q) => if holds(toks, q, TokenKind::Semicolon) {
                    Ok(q + 1)
                } else {
                    Ok(q)
                },
            }
        },
        Part::Stmt => {
            if holds(toks, pos, TokenKind::Let) {
                after(toks, Part::Let, pos)
            } else if holds(toks, pos, TokenKind::Return) {
                after(toks, Part::Return, pos)
            } else if holds(toks, pos, TokenKind::If) {
                after(toks, Part::If, pos)
            } else if holds(toks, pos, TokenKind::While) {
                after(toks, Part::While, pos)
            } else if holds(toks, pos, TokenKind::Function) {
                after(toks, Part::FunctionStmt, pos)
            } else {
                match after(toks, Part::Expr, pos) {
                    Err(k) => Err(k),
                    Ok(end) => expect(toks, end, TokenKind::Semicolon),
                }
            }
        },
        Part::Stmts => {
            if 0 <= pos < toks.len() {
                match after(toks, Part::Stmt, pos) {
                    Err(k) => Err(k),
                    Ok(q) => if onward(toks, pos, q) {
                        after(toks, Part::Stmts, q)
                    } else {
                        Err(q)
                    },
                }
            } else {
                Ok(pos)
            }
        },
    }
}

/// Whether the part `part` is never empty: whether it is one token at least.
pub open spec fn takes(part: Part) -> bool {
    match part {
        Part::MoreTypes | Part::Annotation | Part::Args | Part::Exprs => false,
        Part::MoreExprs | Part::MoreCalls | Part::Stmts => false,
        _ => true,
    }
}

/// The kinds of parts: types, expressions and statements.
pub enum Family {
    Types,
    Exprs,
    Stmts,
}

/// The kind of a part.
pub open spec fn family(part: Part) -> Family {
    match part {
        Part::Type | Part::FunctionType | Part::Types => Family::Types,
        Part::MoreTypes | Part::Annotation | Part::Args => Family::Types,
        Part::Exprs | Part::MoreExprs | Part::Group | Part::Expr0 => Family::Exprs,
        Part::Expr1 | Part::MoreCalls | Part::Expr | Part::Function => Family::Exprs,
        _ => Family::Stmts,
    }
}

/// A part ends at or after the place at which it begins, and after it where the part is
/// never empty; and reading it fails at or after that place. So what is read after a
/// part begins further on than what the part is read for.
pub proof fn lemma_after_onward(toks: Seq<Token>, part: Part, pos: int)
    requires
        0 <= pos <= toks.len(),
    ensures
        match after(toks, part, pos) {
            Ok(q) => pos <= q <= toks.len() && (takes(part) ==> pos < q),
            Err(k) => pos <= k <= toks.len(),
        },
    decreases toks.len() - pos, rank(part), 1nat,
{
    match family(part) {
        Family::Types => lemma_types_onward(toks, part, pos),
        Family::Exprs => lemma_exprs_onward(toks, part, pos),
        Family::Stmts => lemma_stmts_onward(toks, part, pos),
    }
}

/// What [`lemma_after_onward`] says, for types, annotations and arguments.
pub proof fn lemma_types_onward(toks: Seq<Token>, part: Part, pos: int)
    requires
        0 <= pos <= toks.len(),
        family(part) == Family::Types,
    ensures
        match after(toks, part, pos) {
            Ok(q) => pos <= q <= toks.len() && (takes(part) ==> pos < q),
            Err(k) => pos <= k <= toks.len(),
        },
    decreases toks.len() - pos, rank(part), 0nat,
{
    match part {
        Part::Type => {
            if pos < toks.len() && toks[pos].kind == TokenKind::LeftParen {
                lemma_after_onward(toks, Part::FunctionType, pos);
                lemma_after_onward(toks, Part::Types, pos);
            }
        },
        Part::FunctionType => {
            if pos < toks.len() {
                lemma_after_onward(toks, Part::Args, pos + 1);
                if let Ok(close) = after(toks, Part::Args, pos + 1) {
                    if holds(toks, close, TokenKind::RightParen) && holds(
                        toks,
                        close + 1,
                        TokenKind::Arrow,
                    ) {
                        lemma_after_onward(toks, Part::Type, close + 2);
                    }
                }
            }
        },
        Part::Types => {
            if pos < toks.len() {
                lemma_after_onward(toks, Part::Type, pos + 1);
                if let Ok(q) = after(toks, Part::Type, pos + 1) {
                    lemma_after_onward(toks, Part::MoreTypes, q);
                }
            }
        },
        Part::MoreTypes => {
            if holds(toks, pos, TokenKind::Comma) {
                lemma_after_onward(toks, Part::Type, pos + 1);
                if let Ok(q) = after(toks, Part::Type, pos + 1) {
                    lemma_after_onward(toks, Part::MoreTypes, q);
                }
            }
        },
        Part::Annotation => {
            if holds(toks, pos, TokenKind::Colon) {
                lemma_after_onward(toks, Part::Type, pos + 1);
            }
        },
        Part::Args => {
            if holds(toks, pos, TokenKind::Ident) {
                lemma_after_onward(toks, Part::Annotation, pos + 1);
                if let Ok(q) = after(toks, Part::Annotation, pos + 1) {
                    if holds(toks, q, TokenKind::Comma) && holds(toks, q + 1, TokenKind::Ident) {
                        lemma_after_onward(toks, Part::Args, q + 1);
                    }
                }
            }
        },
        _ => {},
    }
}

/// What [`lemma_after_onward`] says, for expressions and functions.
pub proof fn lemma_exprs_onward(toks: Seq<Token>, part: Part, pos: int)
    requires
        0 <= pos <= toks.len(),
        family(part) == Family::Exprs,
    ensures
        match after(toks, part, pos) {
            Ok(q) => pos <= q <= toks.len() && (takes(part) ==> pos < q),
            Err(k) => pos <= k <= toks.len(),
        },
    decreases toks.len() - pos, rank(part), 0nat,
{
    match part {
        Part::Exprs => {
            if !holds(toks, pos, TokenKind::RightParen) {
                lemma_after_onward(toks, Part::Expr, pos);
                if let Ok(q) = after(toks, Part::Expr, pos) {
                    lemma_after_onward(toks, Part::MoreExprs, q);
                }
            }
        },
        Part::MoreExprs => {
            if holds(toks, pos, TokenKind::Comma) {
                lemma_after_onward(toks, Part::Expr, pos + 1);
                if let Ok(q) = after(toks, Part::Expr, pos + 1) {
                    lemma_after_onward(toks, Part::MoreExprs, q);
                }
            }
        },
        Part::Group => {
            if pos < toks.len() {
                lemma_after_onward(toks, Part::Expr, pos + 1);
                if let Ok(q) = after(toks, Part::Expr, pos + 1) {
                    lemma_after_onward(toks, Part::MoreExprs, q);
                }
            }
        },
        Part::Expr0 => {
            if pos < toks.len() && toks[pos].kind == TokenKind::LeftParen && !holds(
                toks,
                pos + 1,
                TokenKind::RightParen,
            ) {
                lemma_after_onward(toks, Part::Group, pos);
            }
        },
        Part::Expr1 => {
            lemma_after_onward(toks, Part::Expr0, pos);
            if let Ok(q) = after(toks, Part::Expr0, pos) {
                lemma_after_onward(toks, Part::MoreCalls, q);
            }
        },
        Part::MoreCalls => {
            if holds(toks, pos, TokenKind::LeftParen) {
                lemma_after_onward(toks, Part::Exprs, pos + 1);
                if let Ok(close) = after(toks, Part::Exprs, pos + 1) {
                    if holds(toks, close, TokenKind::RightParen) {
                        lemma_after_onward(toks, Part::MoreCalls, close + 1);
                    }
                }
            }
        },
        Part::Expr => {
            if holds(toks, pos, TokenKind::Function) {
                lemma_after_onward(toks, Part::Function, pos);
            } else {
                lemma_after_onward(toks, Part::Expr1, pos);
                if let Ok(q) = after(toks, Part::Expr1, pos) {
                    if holds(toks, q, TokenKind::Equals) {
                        lemma_after_onward(toks, Part::Expr1, q + 1);
                    }
                }
            }
        },
        Part::Function => {
            if holds(toks, pos, TokenKind::Function) && holds(toks, pos + 1, TokenKind::Ident)
                && holds(toks, pos + 2, TokenKind::LeftParen) {
                lemma_after_onward(toks, Part::Args, pos + 3);
                if let Ok(close) = after(toks, Part::Args, pos + 3) {
                    if holds(toks, close, TokenKind::RightParen) {
                        lemma_after_onward(toks, Part::Annotation, close + 1);
                        if let Ok(q) = after(toks, Part::Annotation, close + 1) {
                            lemma_after_onward(toks, Part::Block, q);
                        }
                    }
                }
            }
        },
        _ => {},
    }
}

/// What [`lemma_after_onward`] says, for statements and blocks.
pub proof fn lemma_stmts_onward(toks: Seq<Token>, part: Part, pos: int)
    requires
        0 <= pos <= toks.len(),
        family(part) == Family::Stmts,
    ensures
        match after(toks, part, pos) {
            Ok(q) => pos <= q <= toks.len() && (takes(part) ==> pos < q),
            Err(k) => pos <= k <= toks.len(),
        },
    decreases toks.len() - pos, rank(part), 0nat,
{
    match part {
        Part::Block => {
            if holds(toks, pos, TokenKind::LeftBrace) {
                lemma_after_onward(toks, Part::MoreStmts, pos + 1);
            }
        },
        Part::MoreStmts => {
            if !holds(toks, pos, TokenKind::RightBrace) {
                lemma_after_onward(toks, Part::Stmt, pos);
                if let Ok(q) = after(toks, Part::Stmt, pos) {
                    lemma_after_onward(toks, Part::MoreStmts, q);
                }
            }
        },
        Part::Let => {
            if pos < toks.len() && holds(toks, pos + 1, TokenKind::Ident) {
                lemma_after_onward(toks, Part::Annotation, pos + 2);
                if let Ok(sign) = after(toks, Part::Annotation, pos + 2) {
                    if holds(toks, sign, TokenKind::Assign) {
                        lemma_after_onward(toks, Part::Expr, sign + 1);
                    }
                }
            }
        },
        Part::Return => {
            if pos < toks.len() && !holds(toks, pos + 1, TokenKind::Semicolon) {
                lemma_after_onward(toks, Part::Expr, pos + 1);
            }
        },
        Part::Guarded => {
            if holds(toks, pos, TokenKind::LeftParen) {
                lemma_after_onward(toks, Part::Expr, pos + 1);
                if let Ok(close) = after(toks, Part::Expr, pos + 1) {
                    if holds(toks, close, TokenKind::RightParen) {
                        lemma_after_onward(toks, Part::Block, close + 1);
                    }
                }
            }
        },
        Part::If => {
            if pos < toks.len() {
                lemma_after_onward(toks, Part::Guarded, pos + 1);
                if let Ok(other) = after(toks, Part::Guarded, pos + 1) {
                    if holds(toks, other, TokenKind::Else) {
                        lemma_after_onward(toks, Part::Block, other + 1);
                    }
                }
            }
        },
        Part::While => {
            if pos < toks.len() {
                lemma_after_onward(toks, Part::Guarded, pos + 1);
            }
        },
        Part::FunctionStmt => {
            lemma_after_onward(toks, Part::Function, pos);
        },
        Part::Stmt => {
            if holds(toks, pos, TokenKind::Let) {
                lemma_after_onward(toks, Part::Let, pos);
            } else if holds(toks, pos, TokenKind::Return) {
                lemma_after_onward(toks, Part::Return, pos);
            } else if holds(toks, pos, TokenKind::If) {
                lemma_after_onward(toks, Part::If, pos);
            } else if holds(toks, pos, TokenKind::While) {
                lemma_after_onward(toks, Part::While, pos);
            } else if holds(toks, pos, TokenKind::Function) {
                lemma_after_onward(toks, Part::FunctionStmt, pos);
            } else {
                lemma_after_onward(toks, Part::Expr, pos);
            }
        },
        Part::Stmts => {
            if pos < toks.len() {
                lemma_after_onward(toks, Part::Stmt, pos);
                if let Ok(q) = after(toks, Part::Stmt, pos) {
                    lemma_after_onward(toks, Part::Stmts, q);
                }
            }
        },
        _ => {},
    }
}

/// The index of the token at which the tokens fail to be a module, if they fail.
pub open spec fn stops_at(toks: Seq<Token>) -> Option<int> {
    match after(toks, Part::Stmts, 0) {
        Err(k) => Some(k),
        Ok(_) => None,
    }
}

} // verus!
