use ts_check::error::{decimal_string, LanguageError, ParseFailure};
use ts_check::grammar_util::erase_comments;
use ts_check::text::{find_line_feed, position_of};

#[test]
fn erase_comments_cuts_each_line_at_its_comment() {
    assert_eq!(erase_comments("let a = 1; // one\nlet b = 2;"), "let a = 1; \nlet b = 2;");
    assert_eq!(erase_comments("// only a comment"), "");
    assert_eq!(erase_comments("a / b // c // d"), "a / b ");
    assert_eq!(erase_comments("a /"), "a /");
    assert_eq!(erase_comments("/"), "/");
    assert_eq!(erase_comments("//"), "");
}

#[test]
fn erase_comments_joins_lines_with_line_feeds() {
    assert_eq!(erase_comments("a\nb\nc"), "a\nb\nc");
    assert_eq!(erase_comments("a\r\nb\r\nc"), "a\nb\nc");
    assert_eq!(erase_comments("a\nb\n"), "a\nb");
    assert_eq!(erase_comments("a\n\nb"), "a\n\nb");
    assert_eq!(erase_comments(""), "");
    assert_eq!(erase_comments("\n"), "");
    assert_eq!(erase_comments("\n\n"), "\n");
}

#[test]
fn erase_comments_keeps_a_carriage_return_without_line_feed() {
    assert_eq!(erase_comments("a\rb"), "a\rb");
    assert_eq!(erase_comments("a\r"), "a\r");
}

#[test]
fn erase_comments_keeps_text_that_is_not_ascii() {
    assert_eq!(erase_comments("let s = 'é'; // ü\nlet t = 'ß';"), "let s = 'é'; \nlet t = 'ß';");
}

#[test]
fn erase_comments_twice_is_erase_comments_once() {
    for src in [
        "let a = 1; // one\nlet b = 2; // two",
        "function f() { // open\n  return 1; // value\n}",
        "a // b // c\nd",
        "no comment",
        "",
    ] {
        let once = erase_comments(src);
        let twice = erase_comments(&once);
        assert_eq!(once, twice);
    }
}

#[test]
fn erase_comments_twice_differs_where_the_result_ends_in_a_line_feed() {
    let once = erase_comments("a\n\n");
    assert_eq!(once, "a\n");
    assert_eq!(erase_comments(&once), "a");
}

#[test]
fn erase_comments_leaves_every_line_a_prefix_of_the_line_it_was() {
    let src = "let a = 1; // one\n  let b = 2;\n// three\nlet d = 4; //";
    let out = erase_comments(src);
    let before: Vec<&str> = src.lines().collect();
    let after: Vec<&str> = out.lines().collect();
    assert!(after.len() <= before.len());
    for (line, kept) in before.iter().zip(after.iter()) {
        assert!(line.starts_with(kept));
    }
    assert_eq!(after[0], "let a = 1; ");
    assert_eq!(after[1], "  let b = 2;");
    assert_eq!(after[2], "");
    assert_eq!(after[3], "let d = 4; ");
}

#[test]
fn find_line_feed_finds_the_first_one() {
    assert_eq!(find_line_feed(b"ab\ncd\n", 0), 2);
    assert_eq!(find_line_feed(b"ab\ncd\n", 2), 2);
    assert_eq!(find_line_feed(b"ab\ncd\n", 3), 5);
    assert_eq!(find_line_feed(b"ab", 0), 2);
    assert_eq!(find_line_feed(b"", 0), 0);
}

#[test]
fn position_of_counts_lines_and_columns_from_zero() {
    let text = b"let k = 5\nlet m = 6;\n";
    assert_eq!(position_of(text, 0), (0, 0));
    assert_eq!(position_of(text, 4), (0, 4));
    assert_eq!(position_of(text, 9), (0, 9));
    assert_eq!(position_of(text, 11), (1, 1));
    assert_eq!(position_of(text, 20), (1, 10));
}

#[test]
fn position_of_the_start_of_a_line_is_the_end_of_the_line_before() {
    let text = b"let k = 5\nlet m = 6;\n";
    assert_eq!(position_of(text, 10), (0, 9));
    assert_eq!(position_of(text, 21), (1, 10));
    assert_eq!(position_of(b"\n\n\n", 3), (2, 0));
    assert_eq!(position_of(b"\n", 1), (0, 0));
}

#[test]
fn position_of_drops_a_carriage_return_before_a_line_feed() {
    assert_eq!(position_of(b"ab\r\ncd", 4), (0, 2));
    assert_eq!(position_of(b"ab\r\ncd", 3), (0, 3));
    assert_eq!(position_of(b"ab\r\ncd", 6), (1, 2));
}

#[test]
fn from_parse_error_maps_an_offset_to_line_and_column() {
    let src = "function asdf () { \n  let x =;\n";
    for failure in [
        ParseFailure::InvalidToken { location: 29 },
        ParseFailure::UnrecognizedEof { location: 29 },
        ParseFailure::UnrecognizedToken { location: 29 },
        ParseFailure::ExtraToken { location: 29 },
    ] {
        assert_eq!(failure.location(), 29);
        let err = LanguageError::from_parse_error(failure, src);
        assert_eq!(err, LanguageError::ParseError { line: 1, column: 9 });
        assert_eq!(err.to_string(), "Syntax error at 2:10");
    }
}

#[test]
fn from_parse_error_at_the_ends_of_the_text() {
    let src = "let k = 5";
    let first = LanguageError::from_parse_error(ParseFailure::UnrecognizedToken { location: 0 }, src);
    assert_eq!(first, LanguageError::ParseError { line: 0, column: 0 });
    let last = LanguageError::from_parse_error(ParseFailure::UnrecognizedEof { location: 9 }, src);
    assert_eq!(last, LanguageError::ParseError { line: 0, column: 9 });
    assert_eq!(last.to_string(), "Syntax error at 1:10");
    let empty = LanguageError::from_parse_error(ParseFailure::UnrecognizedEof { location: 0 }, "");
    assert_eq!(empty.to_string(), "Syntax error at 1:1");
}

#[test]
fn from_parse_error_counts_columns_in_bytes() {
    let src = "let s = 'é' 1;";
    let err = LanguageError::from_parse_error(ParseFailure::UnrecognizedToken { location: 13 }, src);
    assert_eq!(err, LanguageError::ParseError { line: 0, column: 13 });
}

#[test]
fn every_error_has_its_text() {
    assert_eq!(
        LanguageError::ParseError { line: 0, column: 0 }.to_string(),
        "Syntax error at 1:1"
    );
    assert_eq!(
        LanguageError::ParseError { line: 41, column: 6 }.to_string(),
        "Syntax error at 42:7"
    );
    assert_eq!(
        LanguageError::ConflictingVariables.to_string(),
        "Variable declared more than once"
    );
    assert_eq!(LanguageError::UndeclaredVariable.to_string(), "Usage of undeclared variable");
    assert_eq!(LanguageError::ConflictingTypes.to_string(), "Conflicting type constraints");
    assert_eq!(LanguageError::UndeterminedType.to_string(), "Undetermined type");
}

#[test]
fn the_text_of_a_syntax_error_does_not_overflow() {
    let err = LanguageError::ParseError { line: usize::MAX, column: usize::MAX };
    let max_plus_one = (usize::MAX as u128 + 1).to_string();
    assert_eq!(err.to_string(), format!("Syntax error at {}:{}", max_plus_one, max_plus_one));
}

#[test]
fn decimal_string_writes_numerals() {
    assert_eq!(decimal_string(0), "0");
    assert_eq!(decimal_string(7), "7");
    assert_eq!(decimal_string(10), "10");
    assert_eq!(decimal_string(1234567890), "1234567890");
    assert_eq!(decimal_string(u128::MAX), u128::MAX.to_string());
}

fn lines_and_join(src: &str) -> String {
    let cut: Vec<&str> = src
        .lines()
        .map(|line| match line.find("//") {
            Some(at) => &line[..at],
            None => line,
        })
        .collect();
    cut.join("\n")
}

#[test]
fn erase_comments_is_what_cutting_the_lines_and_joining_them_is() {
    for src in [
        "",
        "\n",
        "\n\n",
        "a",
        "a\n",
        "a\nb",
        "a\r\nb",
        "a\r\n",
        "a\r",
        "\r",
        "\r\n",
        "\r\r\n",
        "a\rb\nc",
        "a // b\n// c\nd //",
        "a /\n/ b",
        "a\r//b\nc",
        "/",
        "//",
        "///",
        "a//b//c",
        "é // ü\nß",
        "let s = 'a//b';\n let t = 1; // t\r\n\r\nlast",
    ] {
        assert_eq!(erase_comments(src), lines_and_join(src), "{:?}", src);
    }
}

fn line_and_column(src: &str, loc: usize) -> (usize, usize) {
    let consumed = &src[..loc];
    let line = consumed.lines().count().saturating_sub(1);
    let column = consumed.lines().rev().next().map(|l| l.len()).unwrap_or(0);
    (line, column)
}

#[test]
fn position_of_is_the_last_line_and_its_length() {
    for src in [
        "",
        "a",
        "\n",
        "ab\ncd\n",
        "ab\r\ncd\r\n\r\nef",
        "\n\n\nx\n\n",
        "a\rb\r\n\rc",
        "let k = 5\nlet m = 6;\n",
    ] {
        for loc in 0..=src.len() {
            assert_eq!(
                position_of(src.as_bytes(), loc),
                line_and_column(src, loc),
                "{:?} at {}",
                src,
                loc
            );
        }
    }
}
