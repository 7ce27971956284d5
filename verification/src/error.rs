//! The errors that a check can end in, and their texts.

use vstd::prelude::*;
use vstd::string::*;
use crate::text::{end_position, position_of};

verus! {

/// Why a parser gave up, with the byte offset at which it did.
#[derive(Clone, Copy, Debug, PartialEq, Eq, Structural)]
pub enum ParseFailure {
    /// No token begins at `location`.
    InvalidToken { location: usize },
    /// The text ended where more was needed; `location` is where it ended.
    UnrecognizedEof { location: usize },
    /// The token that begins at `location` cannot stand there.
    UnrecognizedToken { location: usize },
    /// The token that begins at `location` follows a complete text.
    ExtraToken { location: usize },
}

impl ParseFailure {
    /// The byte offset that the failure points at.
    pub open spec fn spec_location(self) -> usize {
        match self {
            ParseFailure::InvalidToken { location } => location,
            ParseFailure::UnrecognizedEof { location } => location,
            ParseFailure::UnrecognizedToken { location } => location,
            ParseFailure::ExtraToken { location } => location,
        }
    }

    /// The byte offset that the failure points at.
    #[verifier::when_used_as_spec(spec_location)]
    pub fn location(self) -> (loc: usize)
        ensures
            loc == self.spec_location(),
    {
        match self {
            ParseFailure::InvalidToken { location } => location,
            ParseFailure::UnrecognizedEof { location } => location,
            ParseFailure::UnrecognizedToken { location } => location,
            ParseFailure::ExtraToken { location } => location,
        }
    }
}

/// The first violation found in a program.
#[derive(Clone, Copy, Debug, PartialEq, Eq, Structural)]
pub enum LanguageError {
    /// Line and column (both 0-based) of a syntax error.
    ParseError { line: usize, column: usize },
    /// A name is declared where it is already visible.
    ConflictingVariables,
    /// A name is used where no declaration of it is visible.
    UndeclaredVariable,
    /// Two uses of a value disagree about its type.
    ConflictingTypes,
    /// A type is left open by every use.
    UndeterminedType,
}

/// The character of a decimal digit.
pub open spec fn digit_char(d: nat) -> char {
    if d == 0 {
        '0'
    } else if d == 1 {
        '1'
    } else if d == 2 {
        '2'
    } else if d == 3 {
        '3'
    } else if d == 4 {
        '4'
    } else if d == 5 {
        '5'
    } else if d == 6 {
        '6'
    } else if d == 7 {
        '7'
    } else if d == 8 {
        '8'
    } else {
        '9'
    }
}

/// The decimal numeral of `n`, without leading zeros.
pub open spec fn decimal(n: nat) -> Seq<char>
    decreases n,
{
    if n < 10 {
        seq![digit_char(n)]
    } else {
        decimal(n / 10).push(digit_char(n % 10))
    }
}

/// The text of an error.
pub open spec fn message(err: LanguageError) -> Seq<char> {
    match err {
        LanguageError::ParseError { line, column } => "Syntax error at "@ + decimal(
            (line + 1) as nat,
        ) + ":"@ + decimal((column + 1) as nat),
        LanguageError::ConflictingVariables => "Variable declared more than once"@,
        LanguageError::UndeclaredVariable => "Usage of undeclared variable"@,
        LanguageError::ConflictingTypes => "Conflicting type constraints"@,
        LanguageError::UndeterminedType => "Undetermined type"@,
    }
}

fn digit_str(d: u8) -> (s: &'static str)
    requires
        d < 10,
    ensures
        s@ == seq![digit_char(d as nat)],
{
    proof {
        reveal_strlit("0");
        reveal_strlit("1");
        reveal_strlit("2");
        reveal_strlit("3");
        reveal_strlit("4");
        reveal_strlit("5");
        reveal_strlit("6");
        reveal_strlit("7");
        reveal_strlit("8");
        reveal_strlit("9");
    }
    let s = if d == 0 {
        "0"
    } else if d == 1 {
        "1"
    } else if d == 2 {
        "2"
    } else if d == 3 {
        "3"
    } else if d == 4 {
        "4"
    } else if d == 5 {
        "5"
    } else if d == 6 {
        "6"
    } else if d == 7 {
        "7"
    } else if d == 8 {
        "8"
    } else {
        "9"
    };
    assert(s@ =~= seq![digit_char(d as nat)]);
    s
}

/// Writes `n` as a decimal numeral.
pub fn decimal_string(n: u128) -> (s: String)
    ensures
        s@ == decimal(n as nat),
{
    let mut rest: u128 = n / 10;
    let mut s = String::from_str(digit_str((n % 10) as u8));
    let ghost mut tail: Seq<char> = s@;
    proof {
        assert(decimal(n as nat) =~= (if n < 10 {
            Seq::<char>::empty()
        } else {
            decimal(rest as nat)
        }) + tail);
    }
    while rest > 0
        invariant
            s@ == tail,
            decimal(n as nat) == (if rest == 0 {
                Seq::<char>::empty()
            } else {
                decimal(rest as nat)
            }) + tail,
        decreases rest,
    {
        let d = digit_str((rest % 10) as u8);
        let ghost old_rest = rest;
        let ghost old_tail = tail;
        s = String::from_str(d).concat(s.as_str());
        rest = rest / 10;
        proof {
            tail = d@ + old_tail;
            if old_rest < 10 {
                assert(decimal(old_rest as nat) =~= d@);
                assert(decimal(n as nat) =~= Seq::<char>::empty() + tail);
            } else {
                assert(decimal(old_rest as nat) =~= decimal(rest as nat) + d@);
                assert(decimal(n as nat) =~= decimal(rest as nat) + tail);
            }
        }
    }
    assert(s@ =~= decimal(n as nat));
    s
}

impl LanguageError {
    /// The syntax error at byte offset `err.location()` of `src`, as a line and a column.
    ///
    /// The line is the index of the last line of the text before the offset, and the
    /// column is that line's length in bytes. The offset is one at which the text can be
    /// cut: it lies within the text, and not within a character.
    pub fn from_parse_error(err: ParseFailure, src: &str) -> (e: LanguageError)
        requires
            err.location() <= src.spec_bytes().len(),
            vstd::utf8::is_char_boundary(src.spec_bytes(), err.location() as int),
        ensures
            e is ParseError,
            (e->line as int, e->column as int) == end_position(
                src.spec_bytes().take(err.location() as int),
            ),
    {
        let loc = err.location();
        let pos = position_of(src.as_bytes(), loc);
        LanguageError::ParseError { line: pos.0, column: pos.1 }
    }

    /// The text of the error, with line and column counted from 1.
    pub fn to_string(&self) -> (s: String)
        ensures
            s@ == message(*self),
    {
        match self {
            LanguageError::ParseError { line, column } => {
                let mut s = String::from_str("Syntax error at ");
                let l = decimal_string(*line as u128 + 1);
                s.append(l.as_str());
                s.append(":");
                let c = decimal_string(*column as u128 + 1);
                s.append(c.as_str());
                s
            },
            LanguageError::ConflictingVariables => String::from_str(
                "Variable declared more than once",
            ),
            LanguageError::UndeclaredVariable => String::from_str("Usage of undeclared variable"),
            LanguageError::ConflictingTypes => String::from_str("Conflicting type constraints"),
            LanguageError::UndeterminedType => String::from_str("Undetermined type"),
        }
    }
}

} // verus!
