use ts_check::check::check_source;
use ts_check::error::LanguageError;

fn failure(src: &str) -> LanguageError {
    match check_source(src) {
        Ok(_) => panic!("the source should not pass the check"),
        Err(err) => err,
    }
}

#[test]
fn bad_missing_semicolon() {
    let err = failure("let k = 5\n");
    assert_eq!(&err.to_string(), "Syntax error at 1:10");
}

#[test]
fn bad_variable_initialization_missing() {
    let err = failure("let x;\n");
    assert_eq!(&err.to_string(), "Syntax error at 1:6");
}

#[test]
fn bad_variable_initialization_missing_expr() {
    let err = failure("let x =;\n");
    assert_eq!(&err.to_string(), "Syntax error at 1:8");
}

#[test]
fn bad_variable_name_digit() {
    let err = failure("let 53x;\n");
    assert_eq!(&err.to_string(), "Syntax error at 1:5");
}

#[test]
fn bad_unterminated_string_literal() {
    let err = failure("let x = 'sdflkjs_djlksdf;\n");
    assert_eq!(&err.to_string(), "Syntax error at 1:9");
}

#[test]
fn bad_function_args_missing() {
    let err = failure("function asdf {}\n");
    assert_eq!(&err.to_string(), "Syntax error at 1:15");
}

#[test]
fn bad_function_statement_name_missing() {
    let err = failure("function () {}\n");
    assert_eq!(&err.to_string(), "Syntax error at 1:10");
}

#[test]
fn bad_function_body_missing() {
    let err = failure("function asdf ();\n");
    assert_eq!(&err.to_string(), "Syntax error at 1:17");
}

#[test]
fn bad_function_unterminated_body() {
    let err = failure("function asdf () { \n  let x =;\n");
    assert_eq!(&err.to_string(), "Syntax error at 2:10");
}

#[test]
fn bad_function_unterminated_arg_list() {
    let err = failure("function asdf (x: number { \n  let x =;\n");
    assert_eq!(&err.to_string(), "Syntax error at 1:26");
}

#[test]
fn bad_if_bad_condition_expr() {
    let err = failure("function asdf (y: string) { \n  if (---) {\n  } else {\n  }\n}\n");
    assert_eq!(&err.to_string(), "Syntax error at 2:7");
}

#[test]
fn bad_if_missing_condition() {
    let err = failure("function asdf (y: string) { \n  if {\n  } else {\n  }\n}\n");
    assert_eq!(&err.to_string(), "Syntax error at 2:6");
}

#[test]
fn bad_if_missing_true_block() {
    let err = failure("function asdf (y: string) { \n  if (true)\n  else {\n  }\n}\n");
    assert_eq!(&err.to_string(), "Syntax error at 3:3");
}

#[test]
fn bad_if_unterminated_true_block() {
    let err = failure("function asdf (y: string) { \n  if (true) {\n  else {\n  }\n}\n");
    assert_eq!(&err.to_string(), "Syntax error at 3:3");
}

#[test]
fn bad_if_missing_else() {
    let err = failure("function asdf (y: (x : void) => boolean) { \n  if (false) {\n  }\n}\n");
    assert_eq!(&err.to_string(), "Syntax error at 3:4");
}

#[test]
fn bad_if_missing_else_block() {
    let err = failure("function asdf (y: string) { \n  if (true) {\n  } else\n}\n");
    assert_eq!(&err.to_string(), "Syntax error at 3:9");
}

#[test]
fn bad_if_unterminated_else_block() {
    let err = failure("function asdf (y: string) { \n  if (true) {\n    let y: string = '123';\n  } else {\n}\n");
    assert_eq!(&err.to_string(), "Syntax error at 5:2");
}

#[test]
fn bad_while_missing_body() {
    let err = failure("function asdf () { \n  while (false)\n}\n");
    assert_eq!(&err.to_string(), "Syntax error at 2:16");
}

#[test]
fn bad_while_unterminated_body() {
    let err = failure("function asdf () { \n  while (false) {\n    let x = false;\n}\n");
    assert_eq!(&err.to_string(), "Syntax error at 4:2");
}

#[test]
fn bad_while_missing_condition() {
    let err = failure("function asdf () { \n  while {\n    let x = false;\n  }\n}\n");
    assert_eq!(&err.to_string(), "Syntax error at 2:9");
}

#[test]
fn bad_while_missing_condition_expr() {
    let err = failure("function asdf () { \n  while () {\n    let x = false;\n  }\n}\n");
    assert_eq!(&err.to_string(), "Syntax error at 2:10");
}

#[test]
fn bad_while_bad_condition_expr() {
    let err = failure("function asdf () { \n  while (---) {\n    let x = false;\n  }\n}\n");
    assert_eq!(&err.to_string(), "Syntax error at 2:10");
}

#[test]
fn bad_expr_return() {
    let err = failure("function asdf () { \n  let x = return;\n}\n");
    assert_eq!(&err.to_string(), "Syntax error at 2:11");
}

#[test]
fn bad_return_expr_type() {
    let err = failure("function asdf () { \n  return number;\n}\n");
    assert_eq!(&err.to_string(), "Syntax error at 2:10");
}

#[test]
fn bad_app_expr_unterminated_args() {
    let err = failure("function asdf () { \n  asdf(;\n}\n");
    assert_eq!(&err.to_string(), "Syntax error at 2:8");
}

#[test]
fn bad_app_expr_missing_arg_comma() {
    let err = failure("function asdf () { \n}\nlet x = 5;\nasdf(x x);\n");
    assert_eq!(&err.to_string(), "Syntax error at 4:8");
}

#[test]
fn bad_equals_missing_lhs() {
    let err = failure("if (== 5) {\n} else {\n}\n");
    assert_eq!(&err.to_string(), "Syntax error at 1:5");
}

#[test]
fn bad_equals_missing_rhs() {
    let err = failure("if (5 == ) {\n} else {\n}\n");
    assert_eq!(&err.to_string(), "Syntax error at 1:10");
}

#[test]
fn bad_equals_doesnt_associate() {
    let err = failure("if (5 == 3 == 2) {\n} else {\n}\n");
    assert_eq!(&err.to_string(), "Syntax error at 1:12");
}
