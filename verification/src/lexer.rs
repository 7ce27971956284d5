//! The tokens of a source text.

use vstd::prelude::*;

verus! {

/// The kind of a token.
#[derive(Clone, Copy, Debug, PartialEq, Eq, Structural)]
pub enum TokenKind {
    Ident,
    Number,
    Str,
    Let,
    Function,
    Return,
    If,
    Else,
    While,
    True,
    False,
    Void,
    Boolean,
    NumberType,
    StringType,
    LeftParen,
    RightParen,
    LeftBrace,
    RightBrace,
    Comma,
    Semicolon,
    Colon,
    Assign,
    Equals,
    Arrow,
}

/// A token: its kind, and the bytes `start..end` of the text that it is written with.
#[derive(Clone, Copy, Debug, PartialEq, Eq, Structural)]
pub struct Token {
    pub kind: TokenKind,
    pub start: usize,
    pub end: usize,
}

/// Whether a byte is white space: a blank, a tab, a line feed or a carriage return.
pub open spec fn is_space(b: u8) -> bool {
    b == 32 || b == 9 || b == 10 || b == 13
}

/// Whether a byte is a decimal digit.
pub open spec fn is_digit(b: u8) -> bool {
    48 <= b <= 57
}

/// Whether a byte can begin an identifier: a letter or an underscore.
pub open spec fn is_ident_start(b: u8) -> bool {
    (65 <= b <= 90) || (97 <= b <= 122) || b == 95
}

/// Whether a byte can continue an identifier.
pub open spec fn is_ident_part(b: u8) -> bool {
    is_ident_start(b) || is_digit(b)
}

/// The first index at or after `pos` that holds no white space.
pub open spec fn space_end(s: Seq<u8>, pos: int) -> int
    decreases s.len() - pos,
{
    if 0 <= pos < s.len() && is_space(s[pos]) {
        space_end(s, pos + 1)
    } else {
        pos
    }
}

/// The first index at or after `pos` that holds no digit.
pub open spec fn digits_end(s: Seq<u8>, pos: int) -> int
    decreases s.len() - pos,
{
    if 0 <= pos < s.len() && is_digit(s[pos]) {
        digits_end(s, pos + 1)
    } else {
        pos
    }
}

/// The first index at or after `pos` that holds no byte of an identifier.
pub open spec fn ident_end(s: Seq<u8>, pos: int) -> int
    decreases s.len() - pos,
{
    if 0 <= pos < s.len() && is_ident_part(s[pos]) {
        ident_end(s, pos + 1)
    } else {
        pos
    }
}

/// The first index at or after `pos` that holds a single quote, or the length of `s`.
pub open spec fn quote_at(s: Seq<u8>, pos: int) -> int
    decreases s.len() - pos,
{
    if 0 <= pos < s.len() && s[pos] != 39 {
        quote_at(s, pos + 1)
    } else {
        pos
    }
}

/// The reserved words, each with the kind of its token.
pub open spec fn keywords() -> Seq<(Seq<u8>, TokenKind)> {
    seq![
        (seq![108u8, 101u8, 116u8], TokenKind::Let),
        (seq![102u8, 117u8, 110u8, 99u8, 116u8, 105u8, 111u8, 110u8], TokenKind::Function),
        (seq![114u8, 101u8, 116u8, 117u8, 114u8, 110u8], TokenKind::Return),
        (seq![105u8, 102u8], TokenKind::If),
        (seq![101u8, 108u8, 115u8, 101u8], TokenKind::Else),
        (seq![119u8, 104u8, 105u8, 108u8, 101u8], TokenKind::While),
        (seq![116u8, 114u8, 117u8, 101u8], TokenKind::True),
        (seq![102u8, 97u8, 108u8, 115u8, 101u8], TokenKind::False),
        (seq![118u8, 111u8, 105u8, 100u8], TokenKind::Void),
        (seq![98u8, 111u8, 111u8, 108u8, 101u8, 97u8, 110u8], TokenKind::Boolean),
        (seq![110u8, 117u8, 109u8, 98u8, 101u8, 114u8], TokenKind::NumberType),
        (seq![115u8, 116u8, 114u8, 105u8, 110u8, 103u8], TokenKind::StringType),
    ]
}

/// The kind of the word `text`: that of the first entry of `table` from `from` on that
/// is written so, or an identifier.
pub open spec fn word_kind(table: Seq<(Seq<u8>, TokenKind)>, text: Seq<u8>, from: int) -> TokenKind
    decreases table.len() - from,
{
    if from < 0 || from >= table.len() {
        TokenKind::Ident
    } else if table[from].0 == text {
        table[from].1
    } else {
        word_kind(table, text, from + 1)
    }
}

/// The token that begins at `pos`, as its kind and its end, if one begins there. A word
/// and a number are as long as they can be; a string runs from a single quote to the
/// next.
pub open spec fn token_at(s: Seq<u8>, pos: int) -> Option<(TokenKind, int)> {
    let b = s[pos];
    if is_ident_start(b) {
        let end = ident_end(s, pos + 1);
        Some((word_kind(keywords(), s.subrange(pos, end), 0), end))
    } else if is_digit(b) {
        Some((TokenKind::Number, digits_end(s, pos + 1)))
    } else if b == 39 {
        let q = quote_at(s, pos + 1);
        if q < s.len() {
            Some((TokenKind::Str, q + 1))
        } else {
            None
        }
    } else if b == 40 {
        Some((TokenKind::LeftParen, pos + 1))
    } else if b == 41 {
        Some((TokenKind::RightParen, pos + 1))
    } else if b == 123 {
        Some((TokenKind::LeftBrace, pos + 1))
    } else if b == 125 {
        Some((TokenKind::RightBrace, pos + 1))
    } else if b == 44 {
        Some((TokenKind::Comma, pos + 1))
    } else if b == 59 {
        Some((TokenKind::Semicolon, pos + 1))
    } else if b == 58 {
        Some((TokenKind::Colon, pos + 1))
    } else if b == 61 {
        if pos + 1 < s.len() && s[pos + 1] == 61 {
            Some((TokenKind::Equals, pos + 2))
        } else if pos + 1 < s.len() && s[pos + 1] == 62 {
            Some((TokenKind::Arrow, pos + 2))
        } else {
            Some((TokenKind::Assign, pos + 1))
        }
    } else {
        None
    }
}

/// The tokens of `s` from `pos` on, up to the end of the text or to the first index at
/// which no token begins, and that index if there is one.
pub open spec fn lex(s: Seq<u8>, pos: int) -> (Seq<Token>, Option<int>)
    decreases s.len() - pos,
{
    let start = space_end(s, pos);
    if pos < 0 || start < pos || start >= s.len() {
        (Seq::empty(), None)
    } else {
        match token_at(s, start) {
            Some((kind, end)) => if start < end <= s.len() {
                let rest = lex(s, end);
                (
                    seq![Token { kind, start: start as usize, end: end as usize }] + rest.0,
                    rest.1,
                )
            } else {
                (Seq::empty(), Some(start))
            },
            None => (Seq::empty(), Some(start)),
        }
    }
}

/// Every token lies within the text, is not empty, and begins where the one before it
/// has ended or later.
pub open spec fn tokens_ok(tokens: Seq<Token>, len: int) -> bool {
    &&& forall|i: int|
        0 <= i < tokens.len() ==> (#[trigger] tokens[i]).start < tokens[i].end <= len
    &&& forall|i: int, j: int|
        0 <= i < j < tokens.len() ==> (#[trigger] tokens[i]).end <= (#[trigger] tokens[j]).start
}

fn skip_space(bytes: &[u8], pos: usize) -> (end: usize)
    requires
        pos <= bytes@.len(),
    ensures
        end == space_end(bytes@, pos as int),
        pos <= end <= bytes@.len(),
{
    let mut end = pos;
    while end < bytes.len() && (bytes[end] == 32 || bytes[end] == 9 || bytes[end] == 10
        || bytes[end] == 13)
        invariant
            pos <= end <= bytes@.len(),
            space_end(bytes@, pos as int) == space_end(bytes@, end as int),
        decreases bytes@.len() - end,
    {
        end = end + 1;
    }
    end
}

fn skip_digits(bytes: &[u8], pos: usize) -> (end: usize)
    requires
        pos <= bytes@.len(),
    ensures
        end == digits_end(bytes@, pos as int),
        pos <= end <= bytes@.len(),
{
    let mut end = pos;
    while end < bytes.len() && 48 <= bytes[end] && bytes[end] <= 57
        invariant
            pos <= end <= bytes@.len(),
            digits_end(bytes@, pos as int) == digits_end(bytes@, end as int),
        decreases bytes@.len() - end,
    {
        end = end + 1;
    }
    end
}

fn ident_part(b: u8) -> (yes: bool)
    ensures
        yes == is_ident_part(b),
{
    (65 <= b && b <= 90) || (97 <= b && b <= 122) || b == 95 || (48 <= b && b <= 57)
}

fn skip_ident(bytes: &[u8], pos: usize) -> (end: usize)
    requires
        pos <= bytes@.len(),
    ensures
        end == ident_end(bytes@, pos as int),
        pos <= end <= bytes@.len(),
{
    let mut end = pos;
    while end < bytes.len() && ident_part(bytes[end])
        invariant
            pos <= end <= bytes@.len(),
            ident_end(bytes@, pos as int) == ident_end(bytes@, end as int),
        decreases bytes@.len() - end,
    {
        end = end + 1;
    }
    end
}

fn find_quote(bytes: &[u8], pos: usize) -> (end: usize)
    requires
        pos <= bytes@.len(),
    ensures
        end == quote_at(bytes@, pos as int),
        pos <= end <= bytes@.len(),
{
    let mut end = pos;
    while end < bytes.len() && bytes[end] != 39
        invariant
            pos <= end <= bytes@.len(),
            quote_at(bytes@, pos as int) == quote_at(bytes@, end as int),
        decreases bytes@.len() - end,
    {
        end = end + 1;
    }
    end
}

/// Whether the bytes `start..end` of the text are the bytes of `word`.
pub fn text_is(bytes: &[u8], start: usize, end: usize, word: &Vec<u8>) -> (same: bool)
    requires
        start <= end <= bytes@.len(),
    ensures
        same == (bytes@.subrange(start as int, end as int) == word@),
{
    if end - start != word.len() {
        return false;
    }
    let mut i: usize = 0;
    while i < word.len()
        invariant
            start <= end <= bytes@.len(),
            end - start == word@.len(),
            i <= word@.len(),
            forall|j: int| 0 <= j < i ==> bytes@[start + j] == word@[j],
        decreases word@.len() - i,
    {
        if bytes[start + i] != word[i] {
            assert(bytes@.subrange(start as int, end as int)[i as int] != word@[i as int]);
            return false;
        }
        i = i + 1;
    }
    assert(bytes@.subrange(start as int, end as int) =~= word@);
    true
}

/// The table of the reserved words.
fn keyword_table() -> (table: Vec<(Vec<u8>, TokenKind)>)
    ensures
        table@.len() == keywords().len(),
        forall|i: int|
            0 <= i < table@.len() ==> (#[trigger] table@[i]).0@ == keywords()[i].0 && table@[i].1
                == keywords()[i].1,
{
    let mut table: Vec<(Vec<u8>, TokenKind)> = Vec::new();
    table.push((vec![108u8, 101u8, 116u8], TokenKind::Let));
    table.push((vec![102u8, 117u8, 110u8, 99u8, 116u8, 105u8, 111u8, 110u8], TokenKind::Function));
    table.push((vec![114u8, 101u8, 116u8, 117u8, 114u8, 110u8], TokenKind::Return));
    table.push((vec![105u8, 102u8], TokenKind::If));
    table.push((vec![101u8, 108u8, 115u8, 101u8], TokenKind::Else));
    table.push((vec![119u8, 104u8, 105u8, 108u8, 101u8], TokenKind::While));
    table.push((vec![116u8, 114u8, 117u8, 101u8], TokenKind::True));
    table.push((vec![102u8, 97u8, 108u8, 115u8, 101u8], TokenKind::False));
    table.push((vec![118u8, 111u8, 105u8, 100u8], TokenKind::Void));
    table.push((vec![98u8, 111u8, 111u8, 108u8, 101u8, 97u8, 110u8], TokenKind::Boolean));
    table.push((vec![110u8, 117u8, 109u8, 98u8, 101u8, 114u8], TokenKind::NumberType));
    table.push((vec![115u8, 116u8, 114u8, 105u8, 110u8, 103u8], TokenKind::StringType));
    proof {
        assert forall|i: int| 0 <= i < table@.len() implies (#[trigger] table@[i]).0@
            =~= keywords()[i].0 && table@[i].1 == keywords()[i].1 by {}
    }
    table
}

fn kind_of_word(table: &Vec<(Vec<u8>, TokenKind)>, bytes: &[u8], start: usize, end: usize) -> (kind:
    TokenKind)
    requires
        start <= end <= bytes@.len(),
        table@.len() == keywords().len(),
        forall|i: int|
            0 <= i < table@.len() ==> (#[trigger] table@[i]).0@ == keywords()[i].0 && table@[i].1
                == keywords()[i].1,
    ensures
        kind == word_kind(keywords(), bytes@.subrange(start as int, end as int), 0),
{
    let ghost text = bytes@.subrange(start as int, end as int);
    let mut i: usize = 0;
    while i < table.len()
        invariant
            start <= end <= bytes@.len(),
            text == bytes@.subrange(start as int, end as int),
            i <= table@.len(),
            table@.len() == keywords().len(),
            forall|i: int|
                0 <= i < table@.len() ==> (#[trigger] table@[i]).0@ == keywords()[i].0
                    && table@[i].1 == keywords()[i].1,
            word_kind(keywords(), text, 0) == word_kind(keywords(), text, i as int),
        decreases table@.len() - i,
    {
        assert(table@[i as int].0@ == keywords()[i as int].0);
        if text_is(bytes, start, end, &table[i].0) {
            return table[i].1;
        }
        i = i + 1;
    }
    TokenKind::Ident
}

/// The token that begins at `pos`.
fn scan(table: &Vec<(Vec<u8>, TokenKind)>, bytes: &[u8], pos: usize) -> (found: Option<
    (TokenKind, usize),
>)
    requires
        pos < bytes@.len(),
        table@.len() == keywords().len(),
        forall|i: int|
            0 <= i < table@.len() ==> (#[trigger] table@[i]).0@ == keywords()[i].0 && table@[i].1
                == keywords()[i].1,
    ensures
        match found {
            Some((kind, end)) => token_at(bytes@, pos as int) == Some((kind, end as int)) && pos
                < end <= bytes@.len(),
            None => token_at(bytes@, pos as int) is None,
        },
{
    let b = bytes[pos];
    if (65 <= b && b <= 90) || (97 <= b && b <= 122) || b == 95 {
        let end = skip_ident(bytes, pos + 1);
        Some((kind_of_word(table, bytes, pos, end), end))
    } else if 48 <= b && b <= 57 {
        Some((TokenKind::Number, skip_digits(bytes, pos + 1)))
    } else if b == 39 {
        let q = find_quote(bytes, pos + 1);
        if q < bytes.len() {
            Some((TokenKind::Str, q + 1))
        } else {
            None
        }
    } else if b == 40 {
        Some((TokenKind::LeftParen, pos + 1))
    } else if b == 41 {
        Some((TokenKind::RightParen, pos + 1))
    } else if b == 123 {
        Some((TokenKind::LeftBrace, pos + 1))
    } else if b == 125 {
        Some((TokenKind::RightBrace, pos + 1))
    } else if b == 44 {
        Some((TokenKind::Comma, pos + 1))
    } else if b == 59 {
        Some((TokenKind::Semicolon, pos + 1))
    } else if b == 58 {
        Some((TokenKind::Colon, pos + 1))
    } else if b == 61 {
        if pos + 1 < bytes.len() && bytes[pos + 1] == 61 {
            Some((TokenKind::Equals, pos + 2))
        } else if pos + 1 < bytes.len() && bytes[pos + 1] == 62 {
            Some((TokenKind::Arrow, pos + 2))
        } else {
            Some((TokenKind::Assign, pos + 1))
        }
    } else {
        None
    }
}

/// The tokens of the text, up to its end or to the first index at which no token
/// begins, and that index if there is one.
pub fn tokenize(bytes: &[u8]) -> (found: (Vec<Token>, Option<usize>))
    ensures
        found.0@ == lex(bytes@, 0).0,
        match found.1 {
            Some(at) => lex(bytes@, 0).1 == Some(at as int) && at < bytes@.len(),
            None => lex(bytes@, 0).1 is None,
        },
        tokens_ok(found.0@, bytes@.len() as int),
        found.1 matches Some(at) ==> forall|i: int|
            0 <= i < found.0@.len() ==> (#[trigger] found.0@[i]).end <= at,
{
    let table = keyword_table();
    let mut tokens: Vec<Token> = Vec::new();
    let mut pos: usize = 0;
    assert(tokens@ + lex(bytes@, 0).0 =~= lex(bytes@, 0).0);
    loop
        invariant
            pos <= bytes@.len(),
            table@.len() == keywords().len(),
            forall|i: int|
                0 <= i < table@.len() ==> (#[trigger] table@[i]).0@ == keywords()[i].0
                    && table@[i].1 == keywords()[i].1,
            lex(bytes@, 0).0 == tokens@ + lex(bytes@, pos as int).0,
            lex(bytes@, 0).1 == lex(bytes@, pos as int).1,
            tokens_ok(tokens@, bytes@.len() as int),
            forall|i: int| 0 <= i < tokens@.len() ==> (#[trigger] tokens@[i]).end <= pos,
        decreases bytes@.len() - pos,
    {
        let start = skip_space(bytes, pos);
        if start >= bytes.len() {
            assert(tokens@ + Seq::<Token>::empty() =~= tokens@);
            return (tokens, None);
        }
        match scan(&table, bytes, start) {
            Some((kind, end)) => {
                let ghost before = tokens@;
                let token = Token { kind, start, end };
                tokens.push(token);
                proof {
                    let rest = lex(bytes@, end as int);
                    assert(before + (seq![token] + rest.0) =~= tokens@ + rest.0);
                    assert forall|i: int, j: int| 0 <= i < j < tokens@.len() implies (
                    #[trigger] tokens@[i]).end <= (#[trigger] tokens@[j]).start by {
                        if j < before.len() {
                            assert(before[i].end <= before[j].start);
                        } else {
                            assert(before[i].end <= pos);
                        }
                    }
                }
                pos = end;
            },
            None => {
                assert(tokens@ + Seq::<Token>::empty() =~= tokens@);
                return (tokens, Some(start));
            },
        }
    }
}

} // verus!
